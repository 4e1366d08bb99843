use vstd::prelude::*;

verus! {

/// An ASCII decimal digit.
pub open spec fn is_digit(c: char) -> bool {
    '0' <= c && c <= '9'
}

/// Every character of `s` is a decimal digit.
pub open spec fn all_digits(s: Seq<char>) -> bool {
    forall|i: int| 0 <= i < s.len() ==> is_digit(#[trigger] s[i])
}

/// A non-empty run of decimal digits.
pub open spec fn is_decimal(s: Seq<char>) -> bool {
    s.len() > 0 && all_digits(s)
}

/// The value of a single digit character.
pub open spec fn digit_value(c: char) -> nat {
    ((c as u32) as int - ('0' as u32) as int) as nat
}

/// The character that writes the digit `d` (for `d < 10`).
pub open spec fn digit_char(d: nat) -> char {
    ((d + 48) as u8) as char
}

/// The number that a string of digits writes in base ten, most significant
/// digit first; leading zeros add nothing.
pub open spec fn value_of(s: Seq<char>) -> nat
    decreases s.len(),
{
    if s.len() == 0 {
        0
    } else {
        10 * value_of(s.drop_last()) + digit_value(s.last())
    }
}

/// The shortest decimal writing of `n` (`"0"` for zero).
pub open spec fn decimal(n: nat) -> Seq<char>
    decreases n,
{
    if n < 10 {
        seq![digit_char(n)]
    } else {
        decimal(n / 10).push(digit_char(n % 10))
    }
}

/// `s` preceded by as many `'0'` as it takes to reach `width` characters; a
/// string that is already as long is kept whole, never cut.
pub open spec fn zero_pad(s: Seq<char>, width: nat) -> Seq<char> {
    if s.len() >= width {
        s
    } else {
        Seq::new((width - s.len()) as nat, |i: int| '0') + s
    }
}

/// `n` written in decimal and left-padded with zeros to `width` characters.
pub open spec fn padded(n: nat, width: nat) -> Seq<char> {
    zero_pad(decimal(n), width)
}

/// A digit string parses as a `usize` exactly when it is non-empty and its
/// value fits.
pub open spec fn parses_as_usize(s: Seq<char>) -> bool {
    is_decimal(s) && value_of(s) <= usize::MAX
}

/// What a width option accepts: an optional `+` sign, then a decimal number
/// that fits in a `usize`.
pub open spec fn width_text(s: Seq<char>) -> Option<nat> {
    let digits = if s.len() > 0 && s[0] == '+' { s.drop_first() } else { s };
    if parses_as_usize(digits) {
        Some(value_of(digits))
    } else {
        None
    }
}

pub proof fn lemma_value_prefix_monotone(s: Seq<char>, i: int, j: int)
    requires
        0 <= i <= j <= s.len(),
    ensures
        value_of(s.subrange(0, i)) <= value_of(s.subrange(0, j)),
    decreases j - i,
{
    if i < j {
        lemma_value_prefix_monotone(s, i, j - 1);
        assert(s.subrange(0, j).drop_last() =~= s.subrange(0, j - 1));
    }
}

proof fn lemma_decimal_len_bound(n: nat)
    ensures
        decimal(n).len() <= n + 1,
    decreases n,
{
    if n >= 10 {
        lemma_decimal_len_bound(n / 10);
    }
}

/// A digit character and its value convert back and forth.
pub proof fn lemma_digit_round_trip(d: nat, c: char)
    ensures
        d < 10 ==> is_digit(digit_char(d)) && digit_value(digit_char(d)) == d,
        is_digit(c) ==> digit_value(c) < 10 && digit_char(digit_value(c)) == c,
{
}

/// The decimal writing of `n` is a non-empty run of digits whose value is `n`.
pub proof fn lemma_decimal_value(n: nat)
    ensures
        is_decimal(decimal(n)),
        value_of(decimal(n)) == n,
        n < 10 <==> decimal(n).len() == 1,
    decreases n,
{
    lemma_digit_round_trip(n % 10, ' ');
    if n >= 10 {
        lemma_decimal_value(n / 10);
        let d = decimal(n);
        assert(d.drop_last() =~= decimal(n / 10));
        assert(d.last() == digit_char(n % 10));
        assert(value_of(d) == 10 * (n / 10) + n % 10);
        assert(n == 10 * (n / 10) + n % 10);
        assert forall|i: int| 0 <= i < d.len() implies is_digit(#[trigger] d[i]) by {
            if i < d.len() - 1 {
                assert(d[i] == decimal(n / 10)[i]);
            }
        }
    } else {
        let d = decimal(n);
        assert(d.drop_last() =~= Seq::<char>::empty());
        assert(value_of(d.drop_last()) == 0);
        assert(d.last() == digit_char(n));
        assert(n % 10 == n);
        assert(value_of(decimal(n)) == digit_value(digit_char(n)));
    }
}

/// Leading zeros add nothing to the value.
pub proof fn lemma_value_leading_zeros(k: nat, s: Seq<char>)
    ensures
        value_of(Seq::new(k, |i: int| '0') + s) == value_of(s),
    decreases s.len(), k,
{
    let z = Seq::new(k, |i: int| '0');
    if s.len() == 0 {
        assert(z + s =~= z);
        if k > 0 {
            lemma_value_leading_zeros((k - 1) as nat, s);
            assert(z.drop_last() =~= Seq::new((k - 1) as nat, |i: int| '0'));
            assert(z.drop_last() + s =~= z.drop_last());
        }
    } else {
        lemma_value_leading_zeros(k, s.drop_last());
        assert((z + s).drop_last() =~= z + s.drop_last());
    }
}

/// Padding keeps the value and the digits, and gives at least `width`
/// characters.
pub proof fn lemma_padded(n: nat, width: nat)
    ensures
        is_decimal(padded(n, width)),
        value_of(padded(n, width)) == n,
        padded(n, width).len() == if decimal(n).len() >= width {
            decimal(n).len()
        } else {
            width
        },
        decimal(n).len() >= width ==> padded(n, width) == decimal(n),
{
    lemma_decimal_value(n);
    let d = decimal(n);
    if d.len() < width {
        let k = (width - d.len()) as nat;
        lemma_value_leading_zeros(k, d);
        let p = Seq::new(k, |i: int| '0') + d;
        assert forall|i: int| 0 <= i < p.len() implies is_digit(#[trigger] p[i]) by {
            if i >= k {
                assert(p[i] == d[i - k]);
            }
        }
    }
}

/// The shortest writing of a digit string's value is no longer than the
/// string, and is the string itself when it has no leading zero.
pub proof fn lemma_decimal_of_value(s: Seq<char>)
    requires
        is_decimal(s),
    ensures
        decimal(value_of(s)).len() <= s.len(),
        s.len() == 1 || s[0] != '0' ==> decimal(value_of(s)) == s,
    decreases s.len(),
{
    let t = s.drop_last();
    lemma_digit_round_trip(0, s.last());
    if s.len() == 1 {
        assert(t.len() == 0);
        assert(seq![s[0]] =~= s);
    } else {
        assert(is_decimal(t)) by {
            assert forall|i: int| 0 <= i < t.len() implies is_digit(#[trigger] t[i]) by {
                assert(t[i] == s[i]);
            }
        }
        lemma_decimal_of_value(t);
        let v = value_of(s);
        assert(v / 10 == value_of(t) && v % 10 == digit_value(s.last()));
        if v >= 10 {
            assert(decimal(v) == decimal(value_of(t)).push(digit_char(digit_value(s.last()))));
        }
        if s[0] != '0' {
            lemma_value_prefix_monotone(t, 1, t.len() as int);
            assert(t.subrange(0, 1).drop_last() =~= Seq::<char>::empty());
            assert(t.subrange(0, t.len() as int) =~= t);
            assert(value_of(t) >= 1);
            assert(t.push(s.last()) =~= s);
        }
    }
}

/// Parses a counter: a non-empty run of decimal digits whose value fits in a
/// `usize`. Leading zeros are allowed.
pub fn parse_count(s: &str) -> (r: Option<usize>)
    ensures
        r is Some <==> parses_as_usize(s@),
        r matches Some(v) ==> v as nat == value_of(s@),
{
    let n = s.unicode_len();
    if n == 0 {
        return None;
    }
    let mut acc: usize = 0;
    let mut i: usize = 0;
    while i < n
        invariant
            0 <= i <= n,
            n == s@.len(),
            all_digits(s@.subrange(0, i as int)),
            acc as nat == value_of(s@.subrange(0, i as int)),
        decreases n - i,
    {
        let c = s.get_char(i);
        if !('0' <= c && c <= '9') {
            return None;
        }
        let d = (c as u32 - '0' as u32) as usize;
        proof {
            assert(s@.subrange(0, i + 1).drop_last() =~= s@.subrange(0, i as int));
            assert(s@.subrange(0, i + 1).last() == c);
        }
        let next = match acc.checked_mul(10) {
            Some(m) => m.checked_add(d),
            None => None,
        };
        match next {
            Some(v) => {
                acc = v;
            },
            None => {
                proof {
                    lemma_value_prefix_monotone(s@, i + 1, n as int);
                    assert(s@.subrange(0, n as int) =~= s@);
                }
                return None;
            },
        }
        i += 1;
        proof {
            assert forall|k: int| 0 <= k < i implies is_digit(#[trigger] s@.subrange(0, i as int)[k]) by {
                if k < i - 1 {
                    assert(s@.subrange(0, i as int)[k] == s@.subrange(0, i - 1)[k]);
                }
            }
        }
    }
    assert(s@.subrange(0, n as int) =~= s@);
    Some(acc)
}

/// Parses the width option: an optional `+`, then a decimal number that fits
/// in a `usize`.
pub fn parse_width(s: &str) -> (r: Result<usize, &'static str>)
    ensures
        r is Ok <==> width_text(s@) is Some,
        r matches Ok(v) ==> width_text(s@) == Some(v as nat),
        r matches Err(e) ==> e@ == "not a number"@,
{
    proof {
        reveal_strlit("not a number");
    }
    let n = s.unicode_len();
    let parsed = if n > 0 && s.get_char(0) == '+' {
        let rest = s.substring_char(1, n);
        assert(rest@ =~= s@.drop_first());
        parse_count(rest)
    } else {
        parse_count(s)
    };
    match parsed {
        Some(v) => Ok(v),
        None => Err("not a number"),
    }
}

fn digit_str(d: usize) -> (r: &'static str)
    requires
        d < 10,
    ensures
        r@ == seq![digit_char(d as nat)],
{
    match d {
        0 => {
            proof {
                reveal_strlit("0");
            }
            "0"
        },
        1 => {
            proof {
                reveal_strlit("1");
            }
            "1"
        },
        2 => {
            proof {
                reveal_strlit("2");
            }
            "2"
        },
        3 => {
            proof {
                reveal_strlit("3");
            }
            "3"
        },
        4 => {
            proof {
                reveal_strlit("4");
            }
            "4"
        },
        5 => {
            proof {
                reveal_strlit("5");
            }
            "5"
        },
        6 => {
            proof {
                reveal_strlit("6");
            }
            "6"
        },
        7 => {
            proof {
                reveal_strlit("7");
            }
            "7"
        },
        8 => {
            proof {
                reveal_strlit("8");
            }
            "8"
        },
        _ => {
            proof {
                reveal_strlit("9");
            }
            "9"
        },
    }
}

fn append_decimal(out: &mut String, n: usize)
    ensures
        final(out)@ == old(out)@ + decimal(n as nat),
    decreases n,
{
    if n >= 10 {
        append_decimal(out, n / 10);
    }
    out.append(digit_str(n % 10));
    proof {
        if n >= 10 {
            assert(old(out)@ + decimal(n as nat) =~= old(out)@ + decimal((n / 10) as nat) + seq![
                digit_char((n % 10) as nat),
            ]);
        }
    }
}

fn decimal_width(n: usize) -> (r: usize)
    ensures
        r as nat == decimal(n as nat).len(),
    decreases n,
{
    if n < 10 {
        1
    } else {
        proof {
            lemma_decimal_len_bound((n / 10) as nat);
        }
        1 + decimal_width(n / 10)
    }
}

/// Writes `n` in decimal, left-padded with zeros to `width` characters. A
/// number with more digits than `width` is written whole.
pub fn pad_count(n: usize, width: usize) -> (r: String)
    ensures
        r@ == padded(n as nat, width as nat),
{
    let len = decimal_width(n);
    let mut out = String::new();
    let mut k: usize = len;
    while k < width
        invariant
            len <= k <= width || (k == len && len >= width),
            out@ == Seq::new((k - len) as nat, |i: int| '0'),
        decreases width - k,
    {
        proof {
            reveal_strlit("0");
        }
        out.append("0");
        assert(out@ =~= Seq::new((k + 1 - len) as nat, |i: int| '0'));
        k += 1;
    }
    append_decimal(&mut out, n);
    assert(out@ =~= padded(n as nat, width as nat));
    out
}

} // verus!
