use renumber::{pad_count, parse_count, parse_width, plan_rename, split_name, BaseName, RenameError};

fn text(s: &str) -> BaseName {
    BaseName::Text(s.to_string())
}

fn plan(width: usize, name: &str) -> Result<Option<String>, RenameError> {
    plan_rename(width, &text(name), true)
}

#[test]
fn img7_at_width_three() {
    let parts = split_name("img7.jpg").unwrap();
    assert_eq!(parts.prefix, "img");
    assert_eq!(parts.count, "7");
    assert_eq!(parts.suffix, ".jpg");
    assert_eq!(pad_count(7, 3), "007");
    assert_eq!(plan(3, "img7.jpg"), Ok(Some("img007.jpg".to_string())));
}

#[test]
fn photo042_at_default_width() {
    let parts = split_name("photo042.png").unwrap();
    assert_eq!(parts.count, "042");
    assert_eq!(parse_count("042"), Some(42));
    assert_eq!(pad_count(42, 5), "00042");
    assert_eq!(plan(5, "photo042.png"), Ok(Some("photo00042.png".to_string())));
}

#[test]
fn track004_at_width_four_then_again() {
    assert_eq!(parse_count("004"), Some(4));
    assert_eq!(pad_count(4, 4), "0004");
    let first = plan(4, "track004.mp3");
    assert_eq!(first, Ok(Some("track0004.mp3".to_string())));
    assert_eq!(plan(4, "track0004.mp3"), Ok(None));
}

#[test]
fn undecodable_name_is_invalid_encoding() {
    assert_eq!(plan_rename(3, &BaseName::NotText, true), Err(RenameError::InvalidEncoding));
    assert_eq!(RenameError::InvalidEncoding.message(), "can't convert to string");
}

#[test]
fn missing_name_is_no_filename() {
    assert_eq!(plan_rename(3, &BaseName::Missing, true), Err(RenameError::NoFilename));
}

#[test]
fn no_digits_is_pattern_mismatch() {
    assert!(split_name("readme.txt").is_none());
    assert!(split_name("").is_none());
    assert_eq!(plan(3, "readme.txt"), Err(RenameError::PatternMismatch));
    assert_eq!(plan(3, ""), Err(RenameError::PatternMismatch));
}

#[test]
fn right_width_is_left_alone() {
    assert_eq!(plan(3, "a123b.txt"), Ok(None));
    assert_eq!(plan(3, "123"), Ok(None));
    assert_eq!(plan(3, "x000"), Ok(None));
    assert_eq!(plan(2, "v10-final7.doc"), Ok(None));
}

#[test]
fn right_width_needs_no_parent() {
    assert_eq!(plan_rename(3, &text("a123"), false), Ok(None));
}

#[test]
fn short_run_is_padded() {
    assert_eq!(plan(6, "scan12 page3.tif"), Ok(Some("scan000012 page3.tif".to_string())));
    assert_eq!(plan(2, "5"), Ok(Some("05".to_string())));
}

#[test]
fn long_run_is_kept() {
    assert_eq!(plan(3, "a12345b.txt"), Ok(Some("a12345b.txt".to_string())));
}

#[test]
fn long_run_with_leading_zeros_loses_them() {
    assert_eq!(plan(3, "a0012345b.txt"), Ok(Some("a12345b.txt".to_string())));
    assert_eq!(plan(2, "a0005"), Ok(Some("a05".to_string())));
}

#[test]
fn second_run_changes_nothing() {
    for (width, name) in [(3, "img7.jpg"), (5, "photo042.png"), (3, "a0012345b"), (0, "x9y")] {
        let renamed = plan(width, name).unwrap().unwrap();
        match plan(width, &renamed) {
            Ok(None) => {}
            Ok(Some(again)) => assert_eq!(again, renamed),
            Err(e) => panic!("unexpected error {:?}", e),
        }
    }
}

#[test]
fn width_zero_writes_the_value_alone() {
    assert_eq!(plan(0, "f007"), Ok(Some("f7".to_string())));
    assert_eq!(plan(0, "f0"), Ok(Some("f0".to_string())));
}

#[test]
fn huge_count_fails_to_parse() {
    assert_eq!(plan(3, "a99999999999999999999999b"), Err(RenameError::CountParseFailure));
    assert_eq!(parse_count("18446744073709551615"), Some(usize::MAX));
    assert_eq!(parse_count("18446744073709551616"), None);
}

#[test]
fn no_parent_is_reported_when_renaming() {
    assert_eq!(plan_rename(3, &text("a1"), false), Err(RenameError::NoParentDirectory));
}

#[test]
fn only_first_run_counts() {
    let parts = split_name("ab12cd345").unwrap();
    assert_eq!(parts.prefix, "ab");
    assert_eq!(parts.count, "12");
    assert_eq!(parts.suffix, "cd345");
    let parts = split_name("9").unwrap();
    assert_eq!((parts.prefix.as_str(), parts.count.as_str(), parts.suffix.as_str()), ("", "9", ""));
}

#[test]
fn non_ascii_names_keep_their_text() {
    assert_eq!(plan(3, "фото5é.png"), Ok(Some("фото005é.png".to_string())));
}

#[test]
fn pad_count_values() {
    assert_eq!(pad_count(0, 0), "0");
    assert_eq!(pad_count(0, 3), "000");
    assert_eq!(pad_count(12345, 3), "12345");
    assert_eq!(pad_count(usize::MAX, 1), usize::MAX.to_string());
}

#[test]
fn parse_count_rejects_non_digits() {
    assert_eq!(parse_count(""), None);
    assert_eq!(parse_count("12a"), None);
    assert_eq!(parse_count("+1"), None);
    assert_eq!(parse_count("0007"), Some(7));
}

#[test]
fn parse_width_values() {
    assert_eq!(parse_width("5"), Ok(5));
    assert_eq!(parse_width("+4"), Ok(4));
    assert_eq!(parse_width("0"), Ok(0));
    assert_eq!(parse_width("abc"), Err("not a number"));
    assert_eq!(parse_width("-1"), Err("not a number"));
    assert_eq!(parse_width("+"), Err("not a number"));
    assert_eq!(parse_width(""), Err("not a number"));
}

#[test]
fn error_messages() {
    assert_eq!(RenameError::NoFilename.message(), "No filename");
    assert_eq!(RenameError::PatternMismatch.message(), "Doesn't match regex");
    assert_eq!(RenameError::CountParseFailure.message(), "Cannot parse count");
    assert_eq!(RenameError::NoParentDirectory.message(), "Can't get parent");
    assert_eq!(RenameError::RenameFailed.message(), "Cannot rename");
}
