use vstd::prelude::*;

use crate::digits::{is_decimal, is_digit};

verus! {

/// Some character of `s` is a decimal digit.
pub open spec fn has_digit(s: Seq<char>) -> bool {
    exists|i: int| 0 <= i < s.len() && is_digit(#[trigger] s[i])
}

/// No character of `s` is a decimal digit.
pub open spec fn no_digit(s: Seq<char>) -> bool {
    forall|i: int| 0 <= i < s.len() ==> !is_digit(#[trigger] s[i])
}

/// `(prefix, count, suffix)` takes `name` apart around its first run of
/// digits: the prefix holds no digit, the count is the whole run, and the
/// suffix does not go on with a digit.
pub open spec fn is_split(
    name: Seq<char>,
    prefix: Seq<char>,
    count: Seq<char>,
    suffix: Seq<char>,
) -> bool {
    &&& name == prefix + count + suffix
    &&& no_digit(prefix)
    &&& is_decimal(count)
    &&& (suffix.len() == 0 || !is_digit(suffix[0]))
}

/// The decomposition of a name that holds a digit (see `lemma_split_unique`).
pub open spec fn split_of(name: Seq<char>) -> (Seq<char>, Seq<char>, Seq<char>) {
    choose|t: (Seq<char>, Seq<char>, Seq<char>)| is_split(name, t.0, t.1, t.2)
}

/// A name has at most one decomposition.
pub proof fn lemma_split_unique(
    name: Seq<char>,
    p1: Seq<char>,
    c1: Seq<char>,
    s1: Seq<char>,
    p2: Seq<char>,
    c2: Seq<char>,
    s2: Seq<char>,
)
    requires
        is_split(name, p1, c1, s1),
        is_split(name, p2, c2, s2),
    ensures
        p1 == p2,
        c1 == c2,
        s1 == s2,
{
    assert(name[p1.len() as int] == c1[0]);
    assert(name[p2.len() as int] == c2[0]);
    if p1.len() < p2.len() {
        assert(name[p1.len() as int] == p2[p1.len() as int]);
    }
    if p2.len() < p1.len() {
        assert(name[p2.len() as int] == p1[p2.len() as int]);
    }
    let k = p1.len() as int;
    if c1.len() < c2.len() {
        assert(name[k + c1.len()] == s1[0]);
        assert(name[k + c1.len()] == c2[c1.len() as int]);
    }
    if c2.len() < c1.len() {
        assert(name[k + c2.len()] == s2[0]);
        assert(name[k + c2.len()] == c1[c2.len() as int]);
    }
    assert(p1 =~= name.subrange(0, k));
    assert(p2 =~= name.subrange(0, k));
    assert(c1 =~= name.subrange(k, k + c1.len()));
    assert(c2 =~= name.subrange(k, k + c1.len()));
    assert(s1 =~= name.subrange(k + c1.len(), name.len() as int));
    assert(s2 =~= name.subrange(k + c1.len(), name.len() as int));
}

/// The decomposition, once one is known, is what `split_of` names.
pub proof fn lemma_split_of(name: Seq<char>, prefix: Seq<char>, count: Seq<char>, suffix: Seq<char>)
    requires
        is_split(name, prefix, count, suffix),
    ensures
        has_digit(name),
        split_of(name) == (prefix, count, suffix),
{
    assert(name[prefix.len() as int] == count[0]);
    let w = (prefix, count, suffix);
    assert(is_split(name, w.0, w.1, w.2));
    let t = split_of(name);
    lemma_split_unique(name, t.0, t.1, t.2, prefix, count, suffix);
}

proof fn first_digit_from(s: Seq<char>, i: int) -> (k: int)
    requires
        0 <= i <= s.len(),
        no_digit(s.subrange(0, i)),
        has_digit(s),
    ensures
        i <= k < s.len(),
        is_digit(s[k]),
        no_digit(s.subrange(0, k)),
    decreases s.len() - i,
{
    if i == s.len() {
        let j = choose|j: int| 0 <= j < s.len() && is_digit(#[trigger] s[j]);
        assert(s.subrange(0, i)[j] == s[j]);
        i
    } else if is_digit(s[i]) {
        i
    } else {
        assert forall|j: int| 0 <= j < i + 1 implies !is_digit(#[trigger] s.subrange(0, i + 1)[j]) by {
            if j < i {
                assert(s.subrange(0, i + 1)[j] == s.subrange(0, i)[j]);
            }
        }
        first_digit_from(s, i + 1)
    }
}

proof fn digit_run_end(s: Seq<char>, k: int, e: int) -> (f: int)
    requires
        0 <= k < e <= s.len(),
        forall|j: int| k <= j < e ==> is_digit(#[trigger] s[j]),
    ensures
        e <= f <= s.len(),
        forall|j: int| k <= j < f ==> is_digit(#[trigger] s[j]),
        f == s.len() || !is_digit(s[f]),
    decreases s.len() - e,
{
    if e < s.len() && is_digit(s[e]) {
        digit_run_end(s, k, e + 1)
    } else {
        e
    }
}

/// Every name that holds a digit has a decomposition.
pub proof fn lemma_split_exists(name: Seq<char>)
    requires
        has_digit(name),
    ensures
        is_split(name, split_of(name).0, split_of(name).1, split_of(name).2),
{
    let k = first_digit_from(name, 0);
    let f = digit_run_end(name, k, k + 1);
    let prefix = name.subrange(0, k);
    let count = name.subrange(k, f);
    let suffix = name.subrange(f, name.len() as int);
    assert(name =~= prefix + count + suffix);
    assert(is_decimal(count));
    lemma_split_of(name, prefix, count, suffix);
}

/// A file name taken apart around its counter.
pub struct NameParts {
    pub prefix: String,
    pub count: String,
    pub suffix: String,
}

/// Splits `name` into the shortest prefix that is followed by a digit, the
/// whole run of digits that starts there, and the rest. `None` when the name
/// holds no digit. Only the ASCII digits `0` to `9` count as digits: other
/// Unicode decimal digits (such as `٣` or `７`) are ordinary characters here,
/// unlike in a regular expression's Unicode-aware `\d`.
pub fn split_name(name: &str) -> (r: Option<NameParts>)
    ensures
        r is None <==> !has_digit(name@),
        r matches Some(parts) ==> is_split(name@, parts.prefix@, parts.count@, parts.suffix@),
        r matches Some(parts) ==> split_of(name@) == (parts.prefix@, parts.count@, parts.suffix@),
{
    let n = name.unicode_len();
    let mut start: usize = 0;
    while start < n && !('0' <= name.get_char(start) && name.get_char(start) <= '9')
        invariant
            0 <= start <= n,
            n == name@.len(),
            no_digit(name@.subrange(0, start as int)),
        decreases n - start,
    {
        assert(name@.subrange(0, start + 1) =~= name@.subrange(0, start as int).push(
            name@[start as int],
        ));
        start += 1;
    }
    if start == n {
        assert(name@.subrange(0, n as int) =~= name@);
        return None;
    }
    let mut end: usize = start + 1;
    while end < n && '0' <= name.get_char(end) && name.get_char(end) <= '9'
        invariant
            start < end <= n,
            n == name@.len(),
            is_digit(name@[start as int]),
            forall|i: int| start <= i < end ==> is_digit(#[trigger] name@[i]),
        decreases n - end,
    {
        end += 1;
    }
    let parts = NameParts {
        prefix: String::from_str(name.substring_char(0, start)),
        count: String::from_str(name.substring_char(start, end)),
        suffix: String::from_str(name.substring_char(end, n)),
    };
    proof {
        let (p, c, s) = (parts.prefix@, parts.count@, parts.suffix@);
        assert(name@ =~= p + c + s);
        assert(is_decimal(c));
        lemma_split_of(name@, p, c, s);
    }
    Some(parts)
}

} // verus!
