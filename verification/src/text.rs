//! Characters and character sequences: the classes of the notation, and the passage between
//! strings and sequences of characters.

use vstd::prelude::*;

verus! {

/// Whether `c` is one of the ten digits `0` to `9`.
pub open spec fn is_ascii_digit(c: char) -> bool {
    '0' <= c <= '9'
}

/// Whether the regular expression `\d` of the `regex` crate, the class of the decimal digits
/// of all scripts, matches the text that holds `c` alone.
pub uninterp spec fn in_digit_class(c: char) -> bool;

/// Whether `c` counts as a digit where a monomial is cut out of a group: one of `0` to `9`,
/// or a character beyond ASCII that the regular expression `\d` matches. Only the digits `0`
/// to `9` make a number; the others are taken into the monomial and spoil it.
pub open spec fn is_digit(c: char) -> bool {
    is_ascii_digit(c) || (c > '\x7f' && in_digit_class(c))
}

/// Whether `c` can stand in the numeric part of a monomial: a digit or the decimal point.
pub open spec fn is_numeric(c: char) -> bool {
    is_digit(c) || c == '.'
}

/// Whether `c` is one of the letters `i`, `j` and `k` of the imaginary units.
pub open spec fn is_unit_letter(c: char) -> bool {
    c == 'i' || c == 'j' || c == 'k'
}

/// The number of characters at the start of `s` that are in `class`, up to the first one
/// that is not.
pub open spec fn leading(s: Seq<char>, class: spec_fn(char) -> bool) -> int
    decreases s.len(),
{
    if s.len() > 0 && class(s[0]) {
        1 + leading(s.skip(1), class)
    } else {
        0
    }
}

/// The number of characters at the end of `s` that are in `class`, back to the last one
/// that is not.
pub open spec fn trailing(s: Seq<char>, class: spec_fn(char) -> bool) -> int
    decreases s.len(),
{
    if s.len() > 0 && class(s.last()) {
        1 + trailing(s.drop_last(), class)
    } else {
        0
    }
}

/// Whether every character of `s` is one of the digits `0` to `9`.
pub open spec fn all_ascii_digits(s: Seq<char>) -> bool {
    forall|i: int| 0 <= i < s.len() ==> is_ascii_digit(#[trigger] s[i])
}

/// `leading` counts a run of characters of the class that ends before a character outside
/// it, or at the end of the text.
pub proof fn lemma_leading_is(s: Seq<char>, class: spec_fn(char) -> bool, n: int)
    requires
        0 <= n <= s.len(),
        forall|i: int| 0 <= i < n ==> class(#[trigger] s[i]),
        n < s.len() ==> !class(s[n]),
    ensures
        leading(s, class) == n,
    decreases n,
{
    if n > 0 {
        let rest = s.skip(1);
        assert forall|i: int| 0 <= i < n - 1 implies class(#[trigger] rest[i]) by {
            assert(rest[i] == s[i + 1]);
        }
        lemma_leading_is(rest, class, n - 1);
    }
}

/// What `leading` counts is a run of characters of the class, and the run cannot go on.
pub proof fn lemma_leading_run(s: Seq<char>, class: spec_fn(char) -> bool)
    ensures
        0 <= leading(s, class) <= s.len(),
        forall|i: int| 0 <= i < leading(s, class) ==> class(#[trigger] s[i]),
        leading(s, class) < s.len() ==> !class(s[leading(s, class)]),
    decreases s.len(),
{
    if s.len() > 0 && class(s[0]) {
        let rest = s.skip(1);
        lemma_leading_run(rest, class);
        assert forall|i: int| 0 <= i < leading(s, class) implies class(#[trigger] s[i]) by {
            if i > 0 {
                assert(s[i] == rest[i - 1]);
            }
        }
        if leading(s, class) < s.len() {
            assert(s[leading(s, class)] == rest[leading(rest, class)]);
        }
    }
}

/// `trailing` counts a run of characters of the class that begins after a character
/// outside it, or at the start of the text.
pub proof fn lemma_trailing_is(s: Seq<char>, class: spec_fn(char) -> bool, n: int)
    requires
        0 <= n <= s.len(),
        forall|i: int| s.len() - n <= i < s.len() ==> class(#[trigger] s[i]),
        n < s.len() ==> !class(s[s.len() - n - 1]),
    ensures
        trailing(s, class) == n,
    decreases n,
{
    if n > 0 {
        let rest = s.drop_last();
        assert forall|i: int| rest.len() - (n - 1) <= i < rest.len() implies class(
            #[trigger] rest[i],
        ) by {
            assert(rest[i] == s[i]);
        }
        lemma_trailing_is(rest, class, n - 1);
    }
}

/// What `trailing` counts is a run of characters of the class, and the run cannot go on.
pub proof fn lemma_trailing_run(s: Seq<char>, class: spec_fn(char) -> bool)
    ensures
        0 <= trailing(s, class) <= s.len(),
        forall|i: int| s.len() - trailing(s, class) <= i < s.len() ==> class(#[trigger] s[i]),
        trailing(s, class) < s.len() ==> !class(s[s.len() - trailing(s, class) - 1]),
    decreases s.len(),
{
    if s.len() > 0 && class(s.last()) {
        let rest = s.drop_last();
        lemma_trailing_run(rest, class);
        assert forall|i: int| s.len() - trailing(s, class) <= i < s.len() implies class(
            #[trigger] s[i],
        ) by {
            if i < s.len() - 1 {
                assert(s[i] == rest[i]);
            }
        }
        if trailing(s, class) < s.len() {
            assert(s[s.len() - trailing(s, class) - 1] == rest[rest.len() - trailing(rest, class)
                - 1]);
        }
    }
}

/// Calls `regex::Regex::is_match` of the pattern `\d`, made by `regex::Regex::new`, on the
/// text that holds `c` alone. The contract gives the answer a name and claims nothing else
/// of it; nothing here proves it.
#[verifier::external_body]
fn matches_digit_class(c: char) -> (result: bool)
    ensures
        result == in_digit_class(c),
{
    let mut buffer = [0u8; 4];
    match regex::Regex::new(r"\d") {
        Ok(class) => class.is_match(c.encode_utf8(&mut buffer)),
        Err(_) => false,
    }
}

/// Tells whether `c` counts as a digit where a monomial is cut out of a group.
pub fn digit(c: char) -> (result: bool)
    ensures
        result == is_digit(c),
{
    if c >= '0' && c <= '9' {
        true
    } else if c > '\x7f' {
        matches_digit_class(c)
    } else {
        false
    }
}

/// The characters of a string.
pub fn chars_of(s: &str) -> (result: Vec<char>)
    ensures
        result@ == s@,
{
    let mut result: Vec<char> = Vec::new();
    for c in it: s.chars()
        invariant
            it.seq() == s@,
            result@ == it.seq().take(it.index() as int),
    {
        result.push(c);
    }
    result
}

/// A copy of the characters of `text` from position `from` up to position `to`.
pub fn slice_of(text: &Vec<char>, from: usize, to: usize) -> (result: Vec<char>)
    requires
        from <= to <= text.len(),
    ensures
        result@ == text@.subrange(from as int, to as int),
{
    let mut result: Vec<char> = Vec::new();
    let mut i = from;
    while i < to
        invariant
            from <= i <= to <= text.len(),
            result@ == text@.subrange(from as int, i as int),
        decreases to - i,
    {
        result.push(text[i]);
        i += 1;
    }
    result
}

} // verus!
