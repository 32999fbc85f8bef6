//! Decimal numerals: the text of a coefficient.
//!
//! The library reads coefficients from text and writes them back as text. A `Decimal` is
//! such a text in its canonical form: an optional `-`, digits without superfluous zeros, and
//! a decimal point only where digits follow it. Arithmetic on coefficients is not done here.

use vstd::prelude::*;

use crate::error::QuaternionError;
use crate::text::{
    all_ascii_digits, chars_of, is_ascii_digit, leading, lemma_leading_is, lemma_leading_run,
    lemma_trailing_is, lemma_trailing_run, trailing,
};

verus! {

/// The class of the characters other than the decimal point.
pub open spec fn not_point() -> spec_fn(char) -> bool {
    |c: char| c != '.'
}

/// The class that holds the digit `0` alone.
pub open spec fn zero_digit() -> spec_fn(char) -> bool {
    |c: char| c == '0'
}

/// The length of the sign at the start of `t`: 1 where `t` begins with `-` or `+`, else 0.
pub open spec fn sign_length(t: Seq<char>) -> int {
    if t.len() > 0 && (t[0] == '-' || t[0] == '+') {
        1
    } else {
        0
    }
}

/// What follows the sign of `t`.
pub open spec fn unsigned_part(t: Seq<char>) -> Seq<char> {
    t.skip(sign_length(t))
}

/// What stands between the sign of `t` and its first decimal point.
pub open spec fn integer_part(t: Seq<char>) -> Seq<char> {
    unsigned_part(t).take(leading(unsigned_part(t), not_point()))
}

/// What follows the first decimal point of `t`; nothing where `t` has no decimal point.
pub open spec fn fraction_part(t: Seq<char>) -> Seq<char> {
    let body = unsigned_part(t);
    let whole = leading(body, not_point());
    if whole < body.len() {
        body.skip(whole + 1)
    } else {
        Seq::empty()
    }
}

/// Whether `t` is a number: an optional sign, then digits with at most one decimal point
/// among them, before them or after them, and at least one digit.
pub open spec fn is_literal(t: Seq<char>) -> bool {
    &&& all_ascii_digits(integer_part(t))
    &&& all_ascii_digits(fraction_part(t))
    &&& integer_part(t).len() + fraction_part(t).len() > 0
}

/// The integer digits of `t` without leading zeros; `0` where none is left.
pub open spec fn kept_integer(t: Seq<char>) -> Seq<char> {
    let digits = integer_part(t);
    let zeros = leading(digits, zero_digit());
    if zeros == digits.len() {
        seq!['0']
    } else {
        digits.skip(zeros)
    }
}

/// The fraction digits of `t` without trailing zeros.
pub open spec fn kept_fraction(t: Seq<char>) -> Seq<char> {
    let digits = fraction_part(t);
    digits.take(digits.len() - trailing(digits, zero_digit()))
}

/// The canonical text of the absolute value of the number `t`.
pub open spec fn magnitude(t: Seq<char>) -> Seq<char> {
    if kept_fraction(t).len() == 0 {
        kept_integer(t)
    } else {
        kept_integer(t) + seq!['.'] + kept_fraction(t)
    }
}

/// The canonical text of the number `t`: its value written with no `+`, no superfluous
/// zero and no decimal point without a digit on both sides. Zero is written `0`, whatever
/// its sign in `t`.
pub open spec fn canonical(t: Seq<char>) -> Seq<char> {
    if t.len() > 0 && t[0] == '-' && magnitude(t) != seq!['0'] {
        seq!['-'] + magnitude(t)
    } else {
        magnitude(t)
    }
}

/// Whether `t` is a number in canonical form.
pub open spec fn is_canonical(t: Seq<char>) -> bool {
    is_literal(t) && canonical(t) == t
}

/// Whether `c` can occur in a canonical text: a digit, the sign `-` or the decimal point.
pub open spec fn is_decimal_char(c: char) -> bool {
    is_ascii_digit(c) || c == '-' || c == '.'
}

/// The shape of the magnitude of a number: digits, then perhaps a decimal point and more
/// digits, with a digit at both ends.
pub proof fn lemma_magnitude_shape(t: Seq<char>)
    requires
        is_literal(t),
    ensures
        kept_integer(t).len() >= 1,
        all_ascii_digits(kept_integer(t)),
        all_ascii_digits(kept_fraction(t)),
        kept_integer(t).len() > 1 ==> kept_integer(t)[0] != '0',
        kept_fraction(t).len() > 0 ==> kept_fraction(t).last() != '0',
        magnitude(t).len() >= 1,
        is_ascii_digit(magnitude(t)[0]),
        is_ascii_digit(magnitude(t).last()),
        forall|i: int|
            0 <= i < magnitude(t).len() ==> is_ascii_digit(#[trigger] magnitude(t)[i])
                || magnitude(t)[i] == '.',
{
    let digits = integer_part(t);
    lemma_leading_run(digits, zero_digit());
    let fraction = fraction_part(t);
    lemma_trailing_run(fraction, zero_digit());
    let whole = kept_integer(t);
    let part = kept_fraction(t);
    assert(all_ascii_digits(whole));
    assert(all_ascii_digits(part));
    if part.len() > 0 {
        assert(magnitude(t).last() == part.last());
    }
    assert(magnitude(t)[0] == whole[0]);
    assert forall|i: int| 0 <= i < magnitude(t).len() implies is_ascii_digit(
        #[trigger] magnitude(t)[i],
    ) || magnitude(t)[i] == '.' by {
        if i < whole.len() {
            assert(magnitude(t)[i] == whole[i]);
        } else if i > whole.len() {
            assert(magnitude(t)[i] == part[i - whole.len() - 1]);
        }
    }
}

/// The parts of the canonical text of a number are the parts that were kept of the number.
pub proof fn lemma_canonical_parts(t: Seq<char>)
    requires
        is_literal(t),
    ensures
        sign_length(canonical(t)) == canonical(t).len() - magnitude(t).len(),
        unsigned_part(canonical(t)) == magnitude(t),
        integer_part(canonical(t)) == kept_integer(t),
        fraction_part(canonical(t)) == kept_fraction(t),
{
    lemma_magnitude_shape(t);
    let c = canonical(t);
    let m = magnitude(t);
    let whole = kept_integer(t);
    let part = kept_fraction(t);
    assert(unsigned_part(c) == m);
    assert forall|i: int| 0 <= i < whole.len() implies (not_point())(#[trigger] m[i]) by {
        assert(m[i] == whole[i]);
    }
    lemma_leading_is(m, not_point(), whole.len() as int);
    assert(m.take(whole.len() as int) == whole);
    if part.len() > 0 {
        assert(m.skip(whole.len() as int + 1) == part);
    }
}

/// The canonical text of a number is a number in canonical form.
pub proof fn lemma_canonical_is_canonical(t: Seq<char>)
    requires
        is_literal(t),
    ensures
        is_canonical(canonical(t)),
{
    lemma_magnitude_shape(t);
    lemma_canonical_parts(t);
    let c = canonical(t);
    let whole = kept_integer(t);
    let part = kept_fraction(t);
    if whole.len() == 1 && whole[0] == '0' {
        assert(whole == seq!['0']);
        lemma_leading_is(whole, zero_digit(), 1);
    } else {
        lemma_leading_is(whole, zero_digit(), 0);
        assert(whole.skip(0) == whole);
    }
    assert(kept_integer(c) == whole);
    lemma_trailing_is(part, zero_digit(), 0);
    assert(part.take(part.len() as int) == part);
    assert(kept_fraction(c) == part);
    assert(magnitude(c) == magnitude(t));
}

/// A number in canonical form is not empty, holds nothing but digits, a decimal point and a
/// leading `-`, and ends with a digit.
pub proof fn lemma_canonical_shape(t: Seq<char>)
    requires
        is_canonical(t),
    ensures
        t.len() >= 1,
        is_ascii_digit(t.last()),
        t[0] == '-' || is_ascii_digit(t[0]),
        forall|i: int| 0 <= i < t.len() ==> is_decimal_char(#[trigger] t[i]),
        forall|i: int| 1 <= i < t.len() ==> is_ascii_digit(#[trigger] t[i]) || t[i] == '.',
        t[0] == '-' ==> t.len() >= 2 && is_ascii_digit(t[1]),
{
    lemma_magnitude_shape(t);
    let m = magnitude(t);
    if t.len() > 0 && t[0] == '-' && m != seq!['0'] {
        assert(t == seq!['-'] + m);
        assert(t.last() == m.last());
        assert(t[1] == m[0]);
        assert forall|i: int| 1 <= i < t.len() implies is_ascii_digit(#[trigger] t[i]) || t[i]
            == '.' by {
            assert(t[i] == m[i - 1]);
        }
    } else {
        assert(t == m);
    }
}

/// A decimal numeral in canonical form.
#[derive(Debug, PartialEq, Eq)]
pub struct Decimal {
    text: Vec<char>,
}

impl Clone for Decimal {
    fn clone(&self) -> (result: Self)
        ensures
            result@ == self@,
    {
        proof {
            use_type_invariant(self);
        }
        let text = self.text.clone();
        assert(text@ =~= self.text@);
        Decimal { text }
    }
}

impl View for Decimal {
    type V = Seq<char>;

    closed spec fn view(&self) -> Seq<char> {
        self.text@
    }
}

/// Where the parts of a number lie in its text.
struct Layout {
    /// Where the integer digits begin: behind the sign.
    start: usize,
    /// Where the integer digits end: at the first decimal point, or at the end of the text.
    point: usize,
}

/// Finds the parts of a number in its text, or finds that the text is no number.
fn layout_of(text: &Vec<char>) -> (result: Option<Layout>)
    ensures
        result is Some <==> is_literal(text@),
        result matches Some(layout) ==> {
            &&& layout.start == sign_length(text@)
            &&& layout.start <= layout.point <= text.len()
            &&& layout.point < text.len() ==> text[layout.point as int] == '.'
            &&& integer_part(text@) == text@.subrange(layout.start as int, layout.point as int)
            &&& fraction_part(text@) == if layout.point < text.len() {
                text@.subrange(layout.point + 1, text.len() as int)
            } else {
                Seq::empty()
            }
        },
{
    let n = text.len();
    let start: usize = if n > 0 && (text[0] == '-' || text[0] == '+') {
        1
    } else {
        0
    };
    let ghost body = unsigned_part(text@);
    let mut digits_only = true;
    let mut point = start;
    while point < n && text[point] != '.'
        invariant
            start <= point <= n,
            n == text.len(),
            forall|i: int| start <= i < point ==> text[i] != '.',
            digits_only <==> forall|i: int|
                start <= i < point ==> is_ascii_digit(#[trigger] text[i]),
        decreases n - point,
    {
        if !(text[point] >= '0' && text[point] <= '9') {
            digits_only = false;
        }
        point += 1;
    }
    proof {
        assert forall|i: int| 0 <= i < point - start implies (not_point())(#[trigger] body[i]) by {
            assert(body[i] == text[start + i]);
        }
        lemma_leading_is(body, not_point(), point - start);
        assert(integer_part(text@) == text@.subrange(start as int, point as int));
        if point < n {
            assert(fraction_part(text@) == text@.subrange(point + 1, n as int));
        }
    }
    let ghost whole = integer_part(text@);
    let ghost fraction = fraction_part(text@);
    proof {
        if digits_only {
            assert(all_ascii_digits(whole)) by {
                assert forall|i: int| 0 <= i < whole.len() implies is_ascii_digit(
                    #[trigger] whole[i],
                ) by {
                    assert(whole[i] == text[start + i]);
                }
            }
        } else {
            let i = choose|i: int| start <= i < point && !is_ascii_digit(#[trigger] text[i]);
            assert(whole[i - start] == text[i]);
        }
    }
    if !digits_only {
        return None;
    }
    let mut end = if point < n {
        point + 1
    } else {
        n
    };
    let first = end;
    while end < n
        invariant
            first <= end <= n,
            n == text.len(),
            digits_only <==> forall|i: int| first <= i < end ==> is_ascii_digit(#[trigger] text[i]),
        decreases n - end,
    {
        if !(text[end] >= '0' && text[end] <= '9') {
            digits_only = false;
        }
        end += 1;
    }
    proof {
        if digits_only {
            assert(all_ascii_digits(fraction)) by {
                assert forall|i: int| 0 <= i < fraction.len() implies is_ascii_digit(
                    #[trigger] fraction[i],
                ) by {
                    assert(fraction[i] == text[first + i]);
                }
            }
        } else {
            let i = choose|i: int| first <= i < n && !is_ascii_digit(#[trigger] text[i]);
            assert(fraction[i - first] == text[i]);
        }
    }
    if !digits_only || (point - start) + (n - first) == 0 {
        return None;
    }
    Some(Layout { start, point })
}

/// The text of each character that a canonical text can hold.
fn char_text(c: char) -> (result: &'static str)
    requires
        is_decimal_char(c),
    ensures
        result@ == seq![c],
{
    proof {
        reveal_strlit("0");
        reveal_strlit("1");
        reveal_strlit("2");
        reveal_strlit("3");
        reveal_strlit("4");
        reveal_strlit("5");
        reveal_strlit("6");
        reveal_strlit("7");
        reveal_strlit("8");
        reveal_strlit("9");
        reveal_strlit("-");
        reveal_strlit(".");
    }
    let result = match c {
        '0' => "0",
        '1' => "1",
        '2' => "2",
        '3' => "3",
        '4' => "4",
        '5' => "5",
        '6' => "6",
        '7' => "7",
        '8' => "8",
        '9' => "9",
        '-' => "-",
        _ => ".",
    };
    assert(result@ =~= seq![c]);
    result
}

impl Decimal {
    #[verifier::type_invariant]
    spec fn well_formed(&self) -> bool {
        is_canonical(self.text@)
    }

    /// The numeral `0`.
    pub fn zero() -> (result: Decimal)
        ensures
            result@ == seq!['0'],
    {
        let mut text: Vec<char> = Vec::new();
        text.push('0');
        proof {
            lemma_zero_is_canonical();
            assert(text@ == seq!['0']);
        }
        Decimal { text }
    }

    /// Reads a number and brings it into canonical form. The text is a number if it is an
    /// optional sign followed by digits with at most one decimal point, and holds a digit.
    pub fn from_chars(text: &Vec<char>) -> (result: Result<Decimal, QuaternionError>)
        ensures
            match result {
                Ok(decimal) => is_literal(text@) && decimal@ == canonical(text@),
                Err(e) => !is_literal(text@) && e == QuaternionError::MalformedNumericLiteral,
            },
    {
        let layout = match layout_of(text) {
            Some(layout) => layout,
            None => {
                return Err(QuaternionError::MalformedNumericLiteral);
            },
        };
        let n = text.len();
        let start = layout.start;
        let point = layout.point;
        let ghost whole = integer_part(text@);
        let ghost fraction = fraction_part(text@);
        // The integer digits that stay begin behind the leading zeros.
        let mut from = start;
        while from < point && text[from] == '0'
            invariant
                start <= from <= point <= n,
                n == text.len(),
                forall|i: int| start <= i < from ==> text[i] == '0',
            decreases point - from,
        {
            from += 1;
        }
        proof {
            assert forall|i: int| 0 <= i < from - start implies (zero_digit())(
                #[trigger] whole[i],
            ) by {
                assert(whole[i] == text[start + i]);
            }
            if from < point {
                assert(whole[from - start] == text[from as int]);
            }
            lemma_leading_is(whole, zero_digit(), from - start);
        }
        // The fraction digits that stay end before the trailing zeros.
        let first = if point < n {
            point + 1
        } else {
            n
        };
        let mut to = n;
        while to > first && text[to - 1] == '0'
            invariant
                first <= to <= n,
                n == text.len(),
                forall|i: int| to <= i < n ==> text[i] == '0',
            decreases to,
        {
            to -= 1;
        }
        proof {
            assert forall|i: int| fraction.len() - (n - to) <= i < fraction.len() implies (
            zero_digit())(#[trigger] fraction[i]) by {
                assert(fraction[i] == text[first + i]);
            }
            if to > first {
                assert(fraction[to - first - 1] == text[to - 1]);
            }
            lemma_trailing_is(fraction, zero_digit(), n - to);
            assert(kept_fraction(text@) == text@.subrange(first as int, to as int));
            if from < point {
                assert(kept_integer(text@) == text@.subrange(from as int, point as int));
            }
        }
        let mut out: Vec<char> = Vec::new();
        if text[0] == '-' && (from < point || to > first) {
            out.push('-');
        }
        let ghost sign = out@;
        if from == point {
            out.push('0');
        } else {
            let mut i = from;
            while i < point
                invariant
                    from <= i <= point <= n,
                    n == text.len(),
                    out@ == sign + text@.subrange(from as int, i as int),
                decreases point - i,
            {
                out.push(text[i]);
                i += 1;
            }
        }
        assert(out@ == sign + kept_integer(text@));
        if to > first {
            out.push('.');
            let mut i = first;
            while i < to
                invariant
                    first <= i <= to <= n,
                    n == text.len(),
                    out@ == sign + kept_integer(text@) + seq!['.'] + text@.subrange(
                        first as int,
                        i as int,
                    ),
                decreases to - i,
            {
                out.push(text[i]);
                i += 1;
            }
        }
        proof {
            lemma_magnitude_shape(text@);
            assert(out@ == sign + magnitude(text@));
            if from == point && to <= first {
                assert(magnitude(text@) == seq!['0']);
            } else if from < point {
                assert(kept_integer(text@)[0] != '0');
                assert(magnitude(text@)[0] != '0');
            } else {
                assert(magnitude(text@).len() > 1);
            }
            assert(out@ == canonical(text@));
            lemma_canonical_is_canonical(text@);
        }
        Ok(Decimal { text: out })
    }

    /// Reads a number from a string and brings it into canonical form.
    pub fn from_text(text: &str) -> (result: Result<Decimal, QuaternionError>)
        ensures
            match result {
                Ok(decimal) => is_literal(text@) && decimal@ == canonical(text@),
                Err(e) => !is_literal(text@) && e == QuaternionError::MalformedNumericLiteral,
            },
    {
        let chars = chars_of(text);
        Decimal::from_chars(&chars)
    }

    /// The characters of the numeral.
    pub fn as_chars(&self) -> (result: &Vec<char>)
        ensures
            result@ == self@,
            is_canonical(self@),
    {
        proof {
            use_type_invariant(self);
        }
        &self.text
    }

    /// Writes the numeral at the end of `out`.
    pub fn append_to(&self, out: &mut String)
        ensures
            final(out)@ == old(out)@ + self@,
    {
        proof {
            use_type_invariant(self);
            lemma_canonical_shape(self.text@);
        }
        let mut i: usize = 0;
        while i < self.text.len()
            invariant
                i <= self.text.len(),
                forall|k: int|
                    0 <= k < self.text.len() ==> is_decimal_char(#[trigger] self.text[k]),
                out@ == old(out)@ + self.text@.take(i as int),
            decreases self.text.len() - i,
        {
            out.append(char_text(self.text[i]));
            proof {
                assert(self.text@.take(i + 1) == self.text@.take(i as int).push(
                    self.text[i as int],
                ));
            }
            i += 1;
        }
        proof {
            assert(self.text@.take(self.text.len() as int) == self.text@);
        }
    }

    /// The numeral as a string.
    pub fn to_text(&self) -> (result: String)
        ensures
            result@ == self@,
    {
        let mut out = String::new();
        self.append_to(&mut out);
        out
    }
}

/// The text `0` is a number in canonical form.
pub proof fn lemma_zero_is_canonical()
    ensures
        is_canonical(seq!['0']),
{
    let t = seq!['0'];
    assert(unsigned_part(t) == t);
    lemma_leading_is(t, not_point(), 1);
    assert(integer_part(t) == t);
    lemma_leading_is(t, zero_digit(), 1);
    lemma_trailing_is(fraction_part(t), zero_digit(), 0);
    assert(kept_fraction(t) == Seq::<char>::empty());
}

} // verus!
