use vstd::prelude::*;

use crate::digits::{
    decimal, lemma_decimal_of_value, lemma_padded, pad_count, padded, parse_count, value_of,
};
use crate::pattern::{
    has_digit, is_split, lemma_split_exists, lemma_split_of, no_digit, split_name, split_of,
};

verus! {

/// Why a file was not renamed.
#[derive(Debug, Clone, Copy, PartialEq, Eq, Structural)]
pub enum RenameError {
    /// The path has no final component.
    NoFilename,
    /// The final component is not valid text.
    InvalidEncoding,
    /// The name holds no digit.
    PatternMismatch,
    /// The counter is too large for a `usize`.
    CountParseFailure,
    /// The path has no parent directory.
    NoParentDirectory,
    /// The file system refused the rename.
    RenameFailed,
}

impl RenameError {
    /// The text shown to the user for this error.
    pub fn message(&self) -> (r: &'static str)
        ensures
            *self == RenameError::NoFilename ==> r@ == "No filename"@,
            *self == RenameError::InvalidEncoding ==> r@ == "can't convert to string"@,
            *self == RenameError::PatternMismatch ==> r@ == "Doesn't match regex"@,
            *self == RenameError::CountParseFailure ==> r@ == "Cannot parse count"@,
            *self == RenameError::NoParentDirectory ==> r@ == "Can't get parent"@,
            *self == RenameError::RenameFailed ==> r@ == "Cannot rename"@,
    {
        match self {
            RenameError::NoFilename => {
                proof {
                    reveal_strlit("No filename");
                }
                "No filename"
            },
            RenameError::InvalidEncoding => {
                proof {
                    reveal_strlit("can't convert to string");
                }
                "can't convert to string"
            },
            RenameError::PatternMismatch => {
                proof {
                    reveal_strlit("Doesn't match regex");
                }
                "Doesn't match regex"
            },
            RenameError::CountParseFailure => {
                proof {
                    reveal_strlit("Cannot parse count");
                }
                "Cannot parse count"
            },
            RenameError::NoParentDirectory => {
                proof {
                    reveal_strlit("Can't get parent");
                }
                "Can't get parent"
            },
            RenameError::RenameFailed => {
                proof {
                    reveal_strlit("Cannot rename");
                }
                "Cannot rename"
            },
        }
    }
}

/// The final component of a file's path, as far as the file system gave it.
pub enum BaseName {
    /// The path has no final component.
    Missing,
    /// The final component is not valid text.
    NotText,
    /// The final component, as text.
    Text(String),
}

/// What becomes of a file called `name` at `width`: no rename (`Ok(None)`),
/// a rename to the given name, or an error.
pub open spec fn name_outcome(width: nat, name: Seq<char>, has_parent: bool) -> Result<
    Option<Seq<char>>,
    RenameError,
> {
    if !has_digit(name) {
        Err(RenameError::PatternMismatch)
    } else {
        let (prefix, count, suffix) = split_of(name);
        if count.len() == width {
            Ok(None)
        } else if value_of(count) > usize::MAX {
            Err(RenameError::CountParseFailure)
        } else if !has_parent {
            Err(RenameError::NoParentDirectory)
        } else {
            Ok(Some(prefix + padded(value_of(count), width) + suffix))
        }
    }
}

/// What becomes of a file whose base name is `name` at `width`.
pub open spec fn outcome(width: nat, name: BaseName, has_parent: bool) -> Result<
    Option<Seq<char>>,
    RenameError,
> {
    match name {
        BaseName::Missing => Err(RenameError::NoFilename),
        BaseName::NotText => Err(RenameError::InvalidEncoding),
        BaseName::Text(s) => name_outcome(width, s@, has_parent),
    }
}

/// The outcome of `plan_rename`, with names seen as character sequences.
pub open spec fn outcome_view(r: Result<Option<String>, RenameError>) -> Result<
    Option<Seq<char>>,
    RenameError,
> {
    match r {
        Ok(Some(s)) => Ok(Some(s@)),
        Ok(None) => Ok(None),
        Err(e) => Err(e),
    }
}

/// Decides whether a file needs renaming so that the first run of digits in
/// its name is `width` characters long, and to what name. `has_parent` says
/// whether the file's path has a parent directory, which the new path is
/// built in. `Ok(None)` means that the name is already right.
pub fn plan_rename(width: usize, name: &BaseName, has_parent: bool) -> (r: Result<
    Option<String>,
    RenameError,
>)
    ensures
        outcome_view(r) == outcome(width as nat, *name, has_parent),
{
    let text = match name {
        BaseName::Missing => {
            return Err(RenameError::NoFilename);
        },
        BaseName::NotText => {
            return Err(RenameError::InvalidEncoding);
        },
        BaseName::Text(s) => s,
    };
    let parts = match split_name(text.as_str()) {
        Some(p) => p,
        None => {
            return Err(RenameError::PatternMismatch);
        },
    };
    if parts.count.as_str().unicode_len() == width {
        return Ok(None);
    }
    let count = match parse_count(parts.count.as_str()) {
        Some(v) => v,
        None => {
            return Err(RenameError::CountParseFailure);
        },
    };
    if !has_parent {
        return Err(RenameError::NoParentDirectory);
    }
    let mut new_name = parts.prefix.clone();
    new_name.append(pad_count(count, width).as_str());
    new_name.append(parts.suffix.as_str());
    Ok(Some(new_name))
}

/// Running again at the same width changes nothing: a file that was renamed
/// is, the second time, either left alone or renamed to the name it already
/// has; it is left alone whenever its counter's value has at most `width`
/// digits.
pub proof fn law_second_run_changes_nothing(width: nat, name: Seq<char>, new_name: Seq<char>)
    requires
        name_outcome(width, name, true) == Ok::<Option<Seq<char>>, RenameError>(Some(new_name)),
    ensures
        name_outcome(width, new_name, true) == Ok::<Option<Seq<char>>, RenameError>(None)
            || name_outcome(width, new_name, true) == Ok::<Option<Seq<char>>, RenameError>(
            Some(new_name),
        ),
        decimal(value_of(split_of(name).1)).len() <= width ==> name_outcome(width, new_name, true)
            == Ok::<Option<Seq<char>>, RenameError>(None),
{
    lemma_split_exists(name);
    let (prefix, count, suffix) = split_of(name);
    let v = value_of(count);
    let z = padded(v, width);
    lemma_padded(v, width);
    assert(new_name == prefix + z + suffix);
    assert(is_split(new_name, prefix, z, suffix));
    lemma_split_of(new_name, prefix, z, suffix);
}

/// A counter that already has `width` digits is left alone, whatever
/// surrounds it.
pub proof fn law_right_width_kept(
    width: nat,
    prefix: Seq<char>,
    count: Seq<char>,
    suffix: Seq<char>,
    has_parent: bool,
)
    requires
        is_split(prefix + count + suffix, prefix, count, suffix),
        count.len() == width,
    ensures
        name_outcome(width, prefix + count + suffix, has_parent) == Ok::<
            Option<Seq<char>>,
            RenameError,
        >(None),
{
    lemma_split_of(prefix + count + suffix, prefix, count, suffix);
}

/// A counter shorter than `width` (whose value fits in a `usize`) is padded
/// with zeros to exactly `width` digits of the same value; prefix and suffix
/// are kept as they are.
pub proof fn law_short_run_padded(
    width: nat,
    prefix: Seq<char>,
    count: Seq<char>,
    suffix: Seq<char>,
)
    requires
        is_split(prefix + count + suffix, prefix, count, suffix),
        count.len() < width,
        value_of(count) <= usize::MAX,
    ensures
        name_outcome(width, prefix + count + suffix, true) == Ok::<Option<Seq<char>>, RenameError>(
            Some(prefix + padded(value_of(count), width) + suffix),
        ),
        padded(value_of(count), width).len() == width,
        value_of(padded(value_of(count), width)) == value_of(count),
{
    lemma_split_of(prefix + count + suffix, prefix, count, suffix);
    lemma_decimal_of_value(count);
    lemma_padded(value_of(count), width);
}

/// A counter longer than `width`, without a leading zero (and whose value
/// fits in a `usize`), is written again from its value with the same digits:
/// the new name is the old one.
pub proof fn law_long_run_kept(width: nat, prefix: Seq<char>, count: Seq<char>, suffix: Seq<char>)
    requires
        is_split(prefix + count + suffix, prefix, count, suffix),
        count.len() > width,
        count[0] != '0',
        value_of(count) <= usize::MAX,
    ensures
        name_outcome(width, prefix + count + suffix, true) == Ok::<Option<Seq<char>>, RenameError>(
            Some(prefix + count + suffix),
        ),
{
    lemma_split_of(prefix + count + suffix, prefix, count, suffix);
    lemma_decimal_of_value(count);
    lemma_padded(value_of(count), width);
}

/// A name without a digit does not match and is not renamed.
pub proof fn law_no_digit_mismatch(width: nat, name: Seq<char>, has_parent: bool)
    requires
        no_digit(name),
    ensures
        name_outcome(width, name, has_parent) == Err::<Option<Seq<char>>, RenameError>(
            RenameError::PatternMismatch,
        ),
{
}

} // verus!
