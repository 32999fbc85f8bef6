//! Reading expressions: from a text such as `(9+i-j)(k-8.4j)` to one quaternion for each
//! group in parentheses.
//!
//! The reading is lenient. Whatever stands outside the groups is passed over, and so is one
//! stray character behind a monomial. Every other stray character leaves an empty monomial
//! behind, which is no number, so that the expression is refused.

use vstd::prelude::*;

use crate::basis::Basis;
use crate::decimal::{canonical, is_literal, Decimal};
use crate::error::QuaternionError;
use crate::quaternion::Quaternion;
use crate::text::{
    chars_of, digit, is_ascii_digit, is_numeric, is_unit_letter, leading, lemma_leading_is,
    slice_of,
};

verus! {

/// The class of the characters that can stand inside a group: all but the closing
/// parenthesis and the line feed.
pub open spec fn group_text() -> spec_fn(char) -> bool {
    |c: char| c != ')' && c != '\n'
}

/// The class of the characters of a numeric part: the digits and the decimal point.
pub open spec fn numeric() -> spec_fn(char) -> bool {
    |c: char| is_numeric(c)
}

/// The class of all characters but `letter`.
pub open spec fn except(letter: char) -> spec_fn(char) -> bool {
    |c: char| c != letter
}

/// The texts of the groups of `s`, in their order. A group opens with the first `(` from
/// which a `)` is reached without a line feed in between, and closes with that `)`; the next
/// group is looked for behind it.
pub open spec fn groups(s: Seq<char>) -> Seq<Seq<char>>
    decreases s.len(),
{
    if s.len() == 0 {
        Seq::empty()
    } else if s[0] == '(' {
        let rest = s.skip(1);
        let inner = leading(rest, group_text());
        if 0 <= inner < rest.len() && rest[inner] == ')' {
            seq![rest.take(inner)] + groups(rest.skip(inner + 1))
        } else {
            groups(rest)
        }
    } else {
        groups(s.skip(1))
    }
}

/// The length of the separator at the start of `s`: 1 where `s` begins with `+`, else 0.
pub open spec fn plus_length(s: Seq<char>) -> int {
    if s.len() > 0 && s[0] == '+' {
        1
    } else {
        0
    }
}

/// Where the monomial at the start of `s` ends: behind an optional `+`, an optional `-`, as
/// many digits and decimal points as follow, and an optional letter `i`, `j` or `k`. All of
/// these may be missing; the monomial then ends where it begins.
pub open spec fn monomial_end(s: Seq<char>) -> int {
    let signed = plus_length(s);
    let number = if signed < s.len() && s[signed] == '-' {
        signed + 1
    } else {
        signed
    };
    let letter = number + leading(s.skip(number), numeric());
    if 0 <= letter < s.len() && is_unit_letter(s[letter]) {
        letter + 1
    } else {
        letter
    }
}

/// The monomials of `s`, in their order, each without its separator `+`.
///
/// A monomial is cut off as long as there is one that is not empty. Where there is none, an
/// empty monomial is recorded if `fresh` holds, and one character is passed over if it does
/// not. `fresh` says that no monomial, empty or not, ended at the start of `s`.
pub open spec fn monomials_from(s: Seq<char>, fresh: bool) -> Seq<Seq<char>>
    decreases s.len(), (if fresh { 1int } else { 0int }),
{
    let end = monomial_end(s);
    if 0 < end <= s.len() {
        seq![s.subrange(plus_length(s), end)] + monomials_from(s.skip(end), false)
    } else if fresh {
        seq![Seq::empty()] + monomials_from(s, false)
    } else if s.len() == 0 {
        Seq::empty()
    } else {
        monomials_from(s.skip(1), true)
    }
}

/// The monomials of a group. An empty group has none.
pub open spec fn monomials(group: Seq<char>) -> Seq<Seq<char>> {
    if group.len() == 0 {
        Seq::empty()
    } else {
        monomials_from(group, true)
    }
}

/// The texts that a vector of character vectors holds.
pub open spec fn texts(items: Seq<Vec<char>>) -> Seq<Seq<char>> {
    items.map_values(|item: Vec<char>| item@)
}

/// Cuts the groups out of a text.
fn extract_groups(input: &Vec<char>) -> (result: Vec<Vec<char>>)
    ensures
        texts(result@) == groups(input@),
{
    let n = input.len();
    let mut result: Vec<Vec<char>> = Vec::new();
    let mut pos: usize = 0;
    assert(input@.skip(0) == input@);
    assert(texts(result@) == Seq::<Seq<char>>::empty());
    while pos < n
        invariant
            pos <= n,
            n == input.len(),
            groups(input@) == texts(result@) + groups(input@.skip(pos as int)),
        decreases n - pos,
    {
        let ghost s = input@.skip(pos as int);
        let ghost rest = s.skip(1);
        assert(s[0] == input[pos as int]);
        assert(rest == input@.skip(pos + 1));
        if input[pos] == '(' {
            let mut stop = pos + 1;
            while stop < n && input[stop] != ')' && input[stop] != '\n'
                invariant
                    pos + 1 <= stop <= n,
                    n == input.len(),
                    forall|i: int| pos + 1 <= i < stop ==> (group_text())(input[i]),
                decreases n - stop,
            {
                stop += 1;
            }
            proof {
                assert forall|i: int| 0 <= i < stop - pos - 1 implies (group_text())(
                    #[trigger] rest[i],
                ) by {
                    assert(rest[i] == input[pos + 1 + i]);
                }
                if stop < n {
                    assert(rest[stop - pos - 1] == input[stop as int]);
                }
                lemma_leading_is(rest, group_text(), stop - pos - 1);
            }
            if stop < n && input[stop] == ')' {
                let group = slice_of(input, pos + 1, stop);
                proof {
                    assert(rest.take(stop - pos - 1) == group@);
                    assert(rest.skip(stop - pos - 1 + 1) == input@.skip(stop + 1));
                    assert(texts(result@.push(group)) == texts(result@) + seq![group@]);
                }
                result.push(group);
                pos = stop + 1;
            } else {
                pos += 1;
            }
        } else {
            pos += 1;
        }
    }
    result
}

/// Finds the monomial that begins at position `pos` of a group: where it begins behind its
/// separator, and where it ends.
fn scan_monomial(group: &Vec<char>, pos: usize) -> (result: (usize, usize))
    requires
        pos <= group.len(),
    ensures
        pos <= result.0 <= result.1 <= group.len(),
        result.0 - pos == plus_length(group@.skip(pos as int)),
        result.1 - pos == monomial_end(group@.skip(pos as int)),
{
    let n = group.len();
    let ghost s = group@.skip(pos as int);
    let mut end = pos;
    if end < n && group[end] == '+' {
        end += 1;
    }
    let start = end;
    if end < n && group[end] == '-' {
        end += 1;
    }
    let number = end;
    while end < n && (group[end] == '.' || digit(group[end]))
        invariant
            number <= end <= n,
            n == group.len(),
            forall|i: int| number <= i < end ==> is_numeric(group[i]),
        decreases n - end,
    {
        end += 1;
    }
    proof {
        let tail = s.skip(number - pos);
        assert(tail == group@.skip(number as int));
        assert forall|i: int| 0 <= i < end - number implies (numeric())(#[trigger] tail[i]) by {
            assert(tail[i] == group[number + i]);
        }
        if end < n {
            assert(tail[end - number] == group[end as int]);
        }
        lemma_leading_is(tail, numeric(), end - number);
        assert(leading(s.skip(number - pos), numeric()) == end - number);
        if pos < n {
            assert(s[0] == group[pos as int]);
        }
        if start < n {
            assert(s[start - pos] == group[start as int]);
        }
        if end < n {
            assert(s[end - pos] == group[end as int]);
        }
        assert(plus_length(s) == start - pos);
    }
    if end < n && (group[end] == 'i' || group[end] == 'j' || group[end] == 'k') {
        end += 1;
    }
    (start, end)
}

/// Cuts the monomials out of the text of a group.
fn split_monomials(group: &Vec<char>) -> (result: Vec<Vec<char>>)
    ensures
        texts(result@) == monomials(group@),
{
    let n = group.len();
    let mut result: Vec<Vec<char>> = Vec::new();
    assert(texts(result@) == Seq::<Seq<char>>::empty());
    if n == 0 {
        return result;
    }
    let mut pos: usize = 0;
    let mut fresh = true;
    let mut done = false;
    assert(group@.skip(0) == group@);
    while !done
        invariant
            pos <= n,
            n == group.len(),
            !done ==> monomials(group@) == texts(result@) + monomials_from(
                group@.skip(pos as int),
                fresh,
            ),
            done ==> monomials(group@) == texts(result@),
        decreases n - pos, (if fresh { 1int } else { 0int }), (if done { 0int } else { 1int }),
    {
        let ghost s = group@.skip(pos as int);
        let (start, end) = scan_monomial(group, pos);
        if end > pos {
            let monomial = slice_of(group, start, end);
            proof {
                assert(s.subrange(start - pos, end - pos) == monomial@);
                assert(s.skip(end - pos) == group@.skip(end as int));
                assert(texts(result@.push(monomial)) == texts(result@) + seq![monomial@]);
            }
            result.push(monomial);
            pos = end;
            fresh = false;
        } else if fresh {
            let monomial: Vec<char> = Vec::new();
            proof {
                assert(monomial@ == Seq::<char>::empty());
                assert(texts(result@.push(monomial)) == texts(result@) + seq![monomial@]);
            }
            result.push(monomial);
            fresh = false;
        } else if pos == n {
            done = true;
        } else {
            proof {
                assert(s.skip(1) == group@.skip(pos + 1));
            }
            pos += 1;
            fresh = true;
        }
    }
    result
}

/// The unit that a monomial speaks of: the first of `i`, `j` and `k` that occurs in it, and
/// the real unit where none of them occurs.
pub open spec fn unit_of(monomial: Seq<char>) -> Basis {
    if monomial.contains('i') {
        Basis::I
    } else if monomial.contains('j') {
        Basis::J
    } else if monomial.contains('k') {
        Basis::K
    } else {
        Basis::R
    }
}

/// A monomial without the letter of the unit `t`, wherever the letter occurs in it. The real
/// unit has no letter.
pub open spec fn struck(t: Basis, monomial: Seq<char>) -> Seq<char> {
    match t {
        Basis::R => monomial,
        _ => monomial.filter(except(t.symbol())),
    }
}

/// The numeric text of a monomial of the unit `t`: what is left when the letter is struck
/// out, with a `1` put behind it where it does not end with a digit, so that `-j` has the
/// numeric text `-1` and `j` has the numeric text `1`.
pub open spec fn coefficient_text(t: Basis, monomial: Seq<char>) -> Seq<char> {
    let rest = struck(t, monomial);
    if rest.len() > 0 && is_ascii_digit(rest.last()) {
        rest
    } else {
        rest.push('1')
    }
}

/// The canonical text of the number that `text` is, if it is a number.
pub open spec fn number(text: Seq<char>) -> Option<Seq<char>> {
    if is_literal(text) {
        Some(canonical(text))
    } else {
        None
    }
}

/// The coefficient that a monomial gives to the unit `t`, if its numeric text is a number.
pub open spec fn coefficient(t: Basis, monomial: Seq<char>) -> Option<Seq<char>> {
    number(coefficient_text(t, monomial))
}

/// The coefficient that a monomial gives to its unit. A monomial without a letter is the
/// real part as it stands: nothing is put behind it.
pub open spec fn monomial_value(monomial: Seq<char>) -> Option<Seq<char>> {
    if unit_of(monomial) == Basis::R {
        number(monomial)
    } else {
        coefficient(unit_of(monomial), monomial)
    }
}

/// The quaternion that a sequence of monomials makes: each monomial sets the component of
/// its unit, a later one replaces what an earlier one has set, and a component that none
/// sets is `0`. There is no quaternion if one of the monomials has no value.
pub open spec fn assembled(monomials: Seq<Seq<char>>) -> Option<Quaternion<Seq<char>>>
    decreases monomials.len(),
{
    if monomials.len() == 0 {
        Some(Quaternion::filled(seq!['0']))
    } else {
        match (assembled(monomials.drop_last()), monomial_value(monomials.last())) {
            (Some(q), Some(value)) => Some(q.with(unit_of(monomials.last()), value)),
            _ => None,
        }
    }
}

/// The quaternion that the text of a group makes, if all its monomials have a value.
pub open spec fn group_value(group: Seq<char>) -> Option<Quaternion<Seq<char>>> {
    assembled(monomials(group))
}

/// The quaternions that an expression makes, one for each group and in the order of the
/// groups, if every group makes one.
pub open spec fn parsed(input: Seq<char>) -> Option<Seq<Quaternion<Seq<char>>>> {
    let gs = groups(input);
    if forall|i: int| 0 <= i < gs.len() ==> (#[trigger] group_value(gs[i])) is Some {
        Some(Seq::new(gs.len(), |i: int| group_value(gs[i]).unwrap()))
    } else {
        None
    }
}

/// The texts that a vector of strings holds.
pub open spec fn strings(items: Seq<String>) -> Seq<Seq<char>> {
    items.map_values(|item: String| item@)
}

/// The coefficients that a vector of quaternions holds, as texts.
pub open spec fn values(items: Seq<Quaternion<Decimal>>) -> Seq<Quaternion<Seq<char>>> {
    items.map_values(|item: Quaternion<Decimal>| item@)
}

/// Monomials that follow a sequence without a quaternion cannot give it one.
pub proof fn lemma_assembled_none(monomials: Seq<Seq<char>>, count: int)
    requires
        0 <= count <= monomials.len(),
        assembled(monomials.take(count)) is None,
    ensures
        assembled(monomials) is None,
    decreases monomials.len() - count,
{
    if count < monomials.len() {
        assert(monomials.take(count + 1).drop_last() == monomials.take(count));
        lemma_assembled_none(monomials, count + 1);
    } else {
        assert(monomials.take(count) == monomials);
    }
}

/// Tells whether a character occurs in a text.
fn holds(text: &Vec<char>, c: char) -> (result: bool)
    ensures
        result == text@.contains(c),
{
    let mut i: usize = 0;
    while i < text.len()
        invariant
            i <= text.len(),
            forall|k: int| 0 <= k < i ==> text[k] != c,
        decreases text.len() - i,
    {
        if text[i] == c {
            return true;
        }
        i += 1;
    }
    false
}

/// Finds the unit that a monomial speaks of.
fn unit_in(monomial: &Vec<char>) -> (result: Basis)
    ensures
        result == unit_of(monomial@),
{
    if holds(monomial, 'i') {
        Basis::I
    } else if holds(monomial, 'j') {
        Basis::J
    } else if holds(monomial, 'k') {
        Basis::K
    } else {
        Basis::R
    }
}

/// Copies a text without the occurrences of one character.
fn strike(text: &Vec<char>, c: char) -> (result: Vec<char>)
    ensures
        result@ == text@.filter(except(c)),
{
    let mut result: Vec<char> = Vec::new();
    let mut i: usize = 0;
    proof {
        reveal(Seq::filter);
        assert(text@.take(0) == Seq::<char>::empty());
    }
    while i < text.len()
        invariant
            i <= text.len(),
            result@ == text@.take(i as int).filter(except(c)),
        decreases text.len() - i,
    {
        proof {
            text@.take(i as int).lemma_filter_push(text[i as int], except(c));
            assert(text@.take(i + 1) == text@.take(i as int).push(text[i as int]));
        }
        if text[i] != c {
            result.push(text[i]);
        }
        i += 1;
    }
    proof {
        assert(text@.take(text.len() as int) == text@);
    }
    result
}

/// Reads the coefficient that a monomial gives to the unit `t`.
fn coefficient_of(t: Basis, monomial: &Vec<char>) -> (result: Result<Decimal, QuaternionError>)
    ensures
        match result {
            Ok(value) => coefficient(t, monomial@) == Some(value@),
            Err(e) => coefficient(t, monomial@) is None && e
                == QuaternionError::MalformedNumericLiteral,
        },
{
    let mut rest = match t {
        Basis::R => slice_of(monomial, 0, monomial.len()),
        _ => strike(monomial, t.to_char()),
    };
    proof {
        assert(monomial@.subrange(0, monomial.len() as int) == monomial@);
        assert(rest@ == struck(t, monomial@));
    }
    let n = rest.len();
    if !(n > 0 && rest[n - 1] >= '0' && rest[n - 1] <= '9') {
        rest.push('1');
    }
    Decimal::from_chars(&rest)
}

/// Reads the coefficient that a monomial gives to its unit.
fn value_of(monomial: &Vec<char>) -> (result: Result<(Basis, Decimal), QuaternionError>)
    ensures
        match result {
            Ok((unit, value)) => unit == unit_of(monomial@) && monomial_value(monomial@) == Some(
                value@,
            ),
            Err(e) => monomial_value(monomial@) is None && e
                == QuaternionError::MalformedNumericLiteral,
        },
{
    let unit = unit_in(monomial);
    let value = match unit {
        Basis::R => Decimal::from_chars(monomial),
        _ => coefficient_of(unit, monomial),
    };
    match value {
        Ok(value) => Ok((unit, value)),
        Err(e) => Err(e),
    }
}

/// Makes a quaternion of a sequence of monomials.
fn assemble(monomials: &Vec<Vec<char>>) -> (result: Result<Quaternion<Decimal>, QuaternionError>)
    ensures
        match result {
            Ok(q) => assembled(texts(monomials@)) == Some(q@),
            Err(e) => assembled(texts(monomials@)) is None && e
                == QuaternionError::MalformedNumericLiteral,
        },
{
    let ghost all = texts(monomials@);
    let mut q = Quaternion {
        r: Decimal::zero(),
        i: Decimal::zero(),
        j: Decimal::zero(),
        k: Decimal::zero(),
    };
    let mut count: usize = 0;
    proof {
        assert(all.take(0) == Seq::<Seq<char>>::empty());
    }
    while count < monomials.len()
        invariant
            count <= monomials.len(),
            all == texts(monomials@),
            assembled(all.take(count as int)) == Some(q@),
        decreases monomials.len() - count,
    {
        proof {
            assert(all.take(count + 1).drop_last() == all.take(count as int));
            assert(all.take(count + 1).last() == monomials[count as int]@);
        }
        match value_of(&monomials[count]) {
            Ok((unit, value)) => {
                q.set(unit, value);
            },
            Err(e) => {
                proof {
                    lemma_assembled_none(all, count + 1);
                }
                return Err(e);
            },
        }
        count += 1;
    }
    proof {
        assert(all.take(monomials.len() as int) == all);
    }
    Ok(q)
}

impl Quaternion<Decimal> {
    /// Reads the coefficient that a monomial gives to the unit `t`: the number that is left
    /// when the letter of the unit is struck out, or that number with a `1` behind it where
    /// nothing, a sign or a decimal point is left.
    pub fn get_coefficient(t: Basis, input: &str) -> (result: Result<Decimal, QuaternionError>)
        ensures
            match result {
                Ok(value) => coefficient(t, input@) == Some(value@),
                Err(e) => coefficient(t, input@) is None && e
                    == QuaternionError::MalformedNumericLiteral,
            },
    {
        let monomial = chars_of(input);
        coefficient_of(t, &monomial)
    }

    /// Makes a quaternion of monomials such as `2i`, `-j` and `1`. Each monomial sets the
    /// component of its unit. Where two monomials speak of one unit, the later one counts.
    pub fn new(args: Vec<String>) -> (result: Result<Quaternion<Decimal>, QuaternionError>)
        ensures
            match result {
                Ok(q) => assembled(strings(args@)) == Some(q@),
                Err(e) => assembled(strings(args@)) is None && e
                    == QuaternionError::MalformedNumericLiteral,
            },
    {
        let mut monomials: Vec<Vec<char>> = Vec::new();
        let mut count: usize = 0;
        while count < args.len()
            invariant
                count <= args.len(),
                monomials.len() == count,
                forall|i: int| 0 <= i < count ==> monomials[i]@ == args[i]@,
            decreases args.len() - count,
        {
            monomials.push(chars_of(args[count].as_str()));
            count += 1;
        }
        assert(texts(monomials@) == strings(args@));
        assemble(&monomials)
    }

    /// Reads an expression: one quaternion for each group in parentheses, in the order of the
    /// groups. An expression without a group gives no quaternion, and an empty group gives
    /// the quaternion `0`. The expression is refused as a whole if a monomial of one of its
    /// groups is no number.
    pub fn parse(input: &str) -> (result: Result<Vec<Quaternion<Decimal>>, QuaternionError>)
        ensures
            match result {
                Ok(qs) => parsed(input@) == Some(values(qs@)),
                Err(e) => parsed(input@) is None && e == QuaternionError::MalformedNumericLiteral,
            },
    {
        let text = chars_of(input);
        let found = extract_groups(&text);
        let ghost gs = groups(input@);
        let mut qs: Vec<Quaternion<Decimal>> = Vec::new();
        let mut count: usize = 0;
        while count < found.len()
            invariant
                count <= found.len(),
                gs == groups(input@),
                gs == texts(found@),
                qs.len() == count,
                forall|i: int| 0 <= i < count ==> #[trigger] group_value(gs[i]) == Some(qs[i]@),
            decreases found.len() - count,
        {
            let monomials = split_monomials(&found[count]);
            match assemble(&monomials) {
                Ok(q) => {
                    proof {
                        assert(gs[count as int] == found[count as int]@);
                    }
                    qs.push(q);
                },
                Err(e) => {
                    proof {
                        assert(gs[count as int] == found[count as int]@);
                        assert(group_value(gs[count as int]) is None);
                        assert(0 <= count < gs.len());
                    }
                    return Err(e);
                },
            }
            count += 1;
        }
        proof {
            assert(parsed(input@).unwrap() =~= values(qs@));
        }
        Ok(qs)
    }
}

} // verus!
