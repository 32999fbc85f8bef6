//! Writing quaternions: the canonical text of a quaternion, such as `i-3.4j+1`.

use vstd::prelude::*;
use vstd::string::StringExecFns;

use crate::basis::Basis;
use crate::decimal::{lemma_canonical_shape, Decimal};
use crate::quaternion::Quaternion;
use crate::text::{is_ascii_digit, is_unit_letter};

verus! {

/// The letter that follows a coefficient of the unit `t`. The real unit has none.
pub open spec fn letter(t: Basis) -> Seq<char> {
    match t {
        Basis::R => Seq::empty(),
        Basis::I => seq!['i'],
        Basis::J => seq!['j'],
        Basis::K => seq!['k'],
    }
}

/// The text of one term: the coefficient `value` followed by the letter of the unit `t`.
/// The coefficients `1` and `-1` are left out but for the sign; where that leaves nothing
/// that ends with a digit or a letter, `1` is put behind it, so that the real parts `1` and
/// `-1` stay as they are.
pub open spec fn fragment(t: Basis, value: Seq<char>) -> Seq<char> {
    let out = if value == seq!['1'] {
        letter(t)
    } else if value == seq!['-', '1'] {
        seq!['-'] + letter(t)
    } else {
        value + letter(t)
    };
    if out.len() > 0 && (is_ascii_digit(out.last()) || is_unit_letter(out.last())) {
        out
    } else {
        out.push('1')
    }
}

/// Whether `value` is the canonical text of zero.
pub open spec fn is_zero(value: Seq<char>) -> bool {
    value == seq!['0']
}

/// Whether `value` begins with the sign `-`.
pub open spec fn is_negative(value: Seq<char>) -> bool {
    value.len() > 0 && value[0] == '-'
}

/// The text `sum` with the term of the unit `t` written behind it. A term with the
/// coefficient `0` is left out. A term that is not negative and not the first is joined
/// with `+`; the sign of a negative term joins it by itself.
pub open spec fn with_term(sum: Seq<char>, t: Basis, value: Seq<char>) -> Seq<char> {
    if is_zero(value) {
        sum
    } else if sum.len() > 0 && !is_negative(value) {
        sum + seq!['+'] + fragment(t, value)
    } else {
        sum + fragment(t, value)
    }
}

/// The canonical text of a quaternion: its terms in the order `i`, `j`, `k`, real part, and
/// `0` where it has no term.
pub open spec fn formatted(q: Quaternion<Seq<char>>) -> Seq<char> {
    let sum = with_term(
        with_term(with_term(with_term(Seq::empty(), Basis::I, q.i), Basis::J, q.j), Basis::K, q.k),
        Basis::R,
        q.r,
    );
    if sum.len() == 0 {
        seq!['0']
    } else {
        sum
    }
}

/// The letter that follows a coefficient of the unit `t`.
fn letter_text(t: Basis) -> (result: &'static str)
    ensures
        result@ == letter(t),
{
    proof {
        reveal_strlit("");
        reveal_strlit("i");
        reveal_strlit("j");
        reveal_strlit("k");
    }
    let result = match t {
        Basis::R => "",
        Basis::I => "i",
        Basis::J => "j",
        Basis::K => "k",
    };
    assert(result@ =~= letter(t));
    result
}

/// Writes the term of the unit `t` behind `sum`.
fn append_term(sum: &mut String, t: Basis, value: &Decimal)
    ensures
        final(sum)@ == with_term(old(sum)@, t, value@),
{
    let chars = value.as_chars();
    proof {
        lemma_canonical_shape(value@);
    }
    if chars.len() == 1 && chars[0] == '0' {
        assert(value@ =~= seq!['0']);
        return ;
    }
    if !sum.as_str().is_empty() && chars[0] != '-' {
        proof {
            reveal_strlit("+");
        }
        sum.append("+");
        assert(sum@ == old(sum)@ + seq!['+']);
    }
    let fragment = Quaternion::format_coefficient(t, value);
    sum.append(fragment.as_str());
}

impl Quaternion<Decimal> {
    /// Writes one term: the coefficient `value` followed by the letter of the unit `t`,
    /// where `1i` is written `i` and `-1i` is written `-i`.
    pub fn format_coefficient(t: Basis, value: &Decimal) -> (result: String)
        ensures
            result@ == fragment(t, value@),
    {
        let chars = value.as_chars();
        proof {
            lemma_canonical_shape(value@);
            reveal_strlit("-");
            reveal_strlit("1");
        }
        let one = chars.len() == 1 && chars[0] == '1';
        let minus_one = chars.len() == 2 && chars[0] == '-' && chars[1] == '1';
        assert(one <==> value@ =~= seq!['1']);
        assert(minus_one <==> value@ =~= seq!['-', '1']);
        let mut out = String::new();
        if one {
        } else if minus_one {
            out.append("-");
        } else {
            value.append_to(&mut out);
        }
        out.append(letter_text(t));
        let ghost written = out@;
        let complete = match t {
            Basis::R => !one && !minus_one,
            _ => true,
        };
        proof {
            if !one && !minus_one {
                assert(written.last() == if letter(t).len() > 0 {
                    letter(t).last()
                } else {
                    value@.last()
                });
            }
            assert(complete <==> written.len() > 0 && (is_ascii_digit(written.last())
                || is_unit_letter(written.last())));
        }
        if !complete {
            out.append("1");
            assert(out@ == written.push('1'));
        }
        out
    }

    /// Writes the quaternion in its canonical text: the terms in the order `i`, `j`, `k`,
    /// real part, without the terms that are `0`, and `0` if all of them are.
    pub fn format(&self) -> (result: String)
        ensures
            result@ == formatted(self@),
    {
        let mut sum = String::new();
        append_term(&mut sum, Basis::I, &self.i);
        append_term(&mut sum, Basis::J, &self.j);
        append_term(&mut sum, Basis::K, &self.k);
        append_term(&mut sum, Basis::R, &self.r);
        if sum.as_str().is_empty() {
            proof {
                reveal_strlit("0");
            }
            sum.append("0");
            assert(sum@ == seq!['0']);
        }
        sum
    }
}

} // verus!
