//! Reading back what was written: the parser is the inverse of the formatter.

use vstd::prelude::*;

use crate::basis::Basis;
use crate::decimal::{is_canonical, lemma_canonical_shape, lemma_zero_is_canonical};
use crate::formatter::{formatted, fragment, is_negative, is_zero, letter, with_term};
use crate::parser::{
    assembled, coefficient_text, except, group_text, group_value, groups, monomial_end,
    monomial_value, monomials_from, numeric, parsed, plus_length, struck, unit_of,
};
use crate::quaternion::Quaternion;
use crate::text::{is_ascii_digit, is_numeric, is_unit_letter, lemma_leading_is};

verus! {

/// Whether `c` can occur in the canonical text of a quaternion.
pub open spec fn is_written(c: char) -> bool {
    is_ascii_digit(c) || c == '.' || c == '-' || c == '+' || is_unit_letter(c)
}

/// Whether every character of `s` can occur in the canonical text of a quaternion.
pub open spec fn all_written(s: Seq<char>) -> bool {
    forall|i: int| 0 <= i < s.len() ==> is_written(#[trigger] s[i])
}

/// Whether `rest` can stand behind a term: it is empty, or it begins with a sign.
pub open spec fn can_follow(rest: Seq<char>) -> bool {
    rest.len() == 0 || rest[0] == '+' || rest[0] == '-'
}

/// Whether the monomials of `text`, whatever follows it, are those of `list`.
pub open spec fn reads_as(text: Seq<char>, list: Seq<Seq<char>>) -> bool {
    forall|rest: Seq<char>|
        can_follow(rest) ==> #[trigger] monomials_from(text + rest, true) == list + monomials_from(
            rest,
            false,
        )
}

/// A text that is kept whole by a filter whose class holds all its characters.
proof fn lemma_filter_keeps(s: Seq<char>, class: spec_fn(char) -> bool)
    requires
        forall|i: int| 0 <= i < s.len() ==> class(#[trigger] s[i]),
    ensures
        s.filter(class) == s,
    decreases s.len(),
{
    reveal(Seq::filter);
    if s.len() > 0 {
        let front = s.drop_last();
        assert forall|i: int| 0 <= i < front.len() implies class(#[trigger] front[i]) by {
            assert(front[i] == s[i]);
        }
        lemma_filter_keeps(front, class);
        assert(front.push(s.last()) == s);
    }
}

/// Where a monomial ends that is made of an optional `+`, an optional `-`, digits and
/// decimal points, and an optional letter, and is followed by a sign or by nothing.
proof fn lemma_monomial_cut(
    plus: Seq<char>,
    minus: Seq<char>,
    body: Seq<char>,
    unit: Seq<char>,
    rest: Seq<char>,
)
    requires
        plus.len() == 0 || plus == seq!['+'],
        minus.len() == 0 || minus == seq!['-'],
        forall|i: int| 0 <= i < body.len() ==> is_ascii_digit(#[trigger] body[i]) || body[i] == '.',
        unit.len() == 0 || (unit.len() == 1 && is_unit_letter(unit[0])),
        minus.len() + body.len() + unit.len() > 0,
        can_follow(rest),
    ensures
        plus_length(plus + minus + body + unit + rest) == plus.len(),
        monomial_end(plus + minus + body + unit + rest) == plus.len() + minus.len() + body.len()
            + unit.len(),
        (plus + minus + body + unit + rest).subrange(
            plus.len() as int,
            (plus.len() + minus.len() + body.len() + unit.len()) as int,
        ) == minus + body + unit,
        (plus + minus + body + unit + rest).skip(
            (plus.len() + minus.len() + body.len() + unit.len()) as int,
        ) == rest,
{
    let s = plus + minus + body + unit + rest;
    let signed = plus.len() as int;
    let number = signed + minus.len();
    let tail = body + unit + rest;
    assert(s.skip(number) == tail);
    assert forall|i: int| 0 <= i < body.len() implies (numeric())(#[trigger] tail[i]) by {
        assert(tail[i] == body[i]);
    }
    if body.len() < tail.len() {
        if unit.len() > 0 {
            assert(tail[body.len() as int] == unit[0]);
        } else {
            assert(tail[body.len() as int] == rest[0]);
        }
        assert(!is_numeric(tail[body.len() as int]));
    }
    lemma_leading_is(tail, numeric(), body.len() as int);
    if plus.len() > 0 {
        assert(s[0] == '+');
    } else if minus.len() > 0 {
        assert(s[0] == '-');
    } else if body.len() > 0 {
        assert(s[0] == body[0]);
    } else {
        assert(s[0] == unit[0]);
    }
    if minus.len() > 0 {
        assert(s[signed] == '-');
    } else if body.len() > 0 {
        assert(s[signed] == body[0]);
    } else {
        assert(s[signed] == unit[0]);
    }
    let at = number + body.len();
    if unit.len() > 0 {
        assert(s[at] == unit[0]);
    } else if rest.len() > 0 {
        assert(s[at] == rest[0]);
    }
    assert(plus_length(s) == signed);
    assert(monomial_end(s) == at + unit.len());
}

/// The parts of the text of a term: the sign `-`, the digits and decimal points, and the
/// letter.
proof fn lemma_fragment_parts(t: Basis, v: Seq<char>) -> (parts: (Seq<char>, Seq<char>))
    requires
        is_canonical(v),
    ensures
        fragment(t, v) == parts.0 + parts.1 + letter(t),
        fragment(t, v).len() > 0,
        parts.0.len() == 0 || parts.0 == seq!['-'],
        parts.0.len() > 0 <==> is_negative(v),
        forall|i: int|
            0 <= i < parts.1.len() ==> is_ascii_digit(#[trigger] parts.1[i]) || parts.1[i] == '.',
        t == Basis::R ==> fragment(t, v) == v,
        !(v == seq!['1']) && !(v == seq!['-', '1']) ==> parts.0 + parts.1 == v,
        v == seq!['1'] && t != Basis::R ==> parts.0 + parts.1 == Seq::<char>::empty(),
        v == seq!['-', '1'] && t != Basis::R ==> parts.0 + parts.1 == seq!['-'],
{
    lemma_canonical_shape(v);
    let minus: Seq<char> = if is_negative(v) {
        seq!['-']
    } else {
        Seq::empty()
    };
    let digits = v.skip(minus.len() as int);
    assert(minus + digits == v);
    assert forall|i: int| 0 <= i < digits.len() implies is_ascii_digit(#[trigger] digits[i])
        || digits[i] == '.' by {
        assert(digits[i] == v[i + minus.len()]);
    }
    let one = seq!['1'];
    let minus_one = seq!['-', '1'];
    if v == one {
        assert(v[0] == '1');
        if t == Basis::R {
            assert(letter(t).push('1') == v);
            assert(minus + digits + letter(t) == v);
            (minus, digits)
        } else {
            let none = Seq::<char>::empty();
            assert(none + none + letter(t) == letter(t));
            assert(is_unit_letter(letter(t).last()));
            (none, none)
        }
    } else if v == minus_one {
        assert(v[0] == '-');
        if t == Basis::R {
            assert((seq!['-'] + letter(t)).push('1') == v);
            assert(minus + digits + letter(t) == v);
            (minus, digits)
        } else {
            let none = Seq::<char>::empty();
            assert(minus + none + letter(t) == seq!['-'] + letter(t));
            assert((seq!['-'] + letter(t)).last() == letter(t).last());
            (minus, none)
        }
    } else {
        let out = v + letter(t);
        if letter(t).len() > 0 {
            assert(out.last() == letter(t).last());
        } else {
            assert(out == v);
        }
        assert(minus + digits + letter(t) == out);
        (minus, digits)
    }
}

/// The text of a term is read as one monomial when a sign or nothing follows it, whether or
/// not `+` joins it to what stands before it.
proof fn lemma_term_is_cut(t: Basis, v: Seq<char>, joined: bool, rest: Seq<char>, fresh: bool)
    requires
        is_canonical(v),
        can_follow(rest),
    ensures
        monomials_from(
            (if joined {
                seq!['+']
            } else {
                Seq::empty()
            }) + fragment(t, v) + rest,
            fresh,
        ) == seq![fragment(t, v)] + monomials_from(rest, false),
{
    let parts = lemma_fragment_parts(t, v);
    let plus: Seq<char> = if joined {
        seq!['+']
    } else {
        Seq::empty()
    };
    lemma_monomial_cut(plus, parts.0, parts.1, letter(t), rest);
    let s = plus + fragment(t, v) + rest;
    assert(s == plus + parts.0 + parts.1 + letter(t) + rest);
    assert(parts.0 + parts.1 + letter(t) == fragment(t, v));
}

/// The text of a term gives its coefficient to its unit.
proof fn lemma_term_value(t: Basis, v: Seq<char>)
    requires
        is_canonical(v),
    ensures
        unit_of(fragment(t, v)) == t,
        monomial_value(fragment(t, v)) == Some(v),
{
    let parts = lemma_fragment_parts(t, v);
    lemma_canonical_shape(v);
    let f = fragment(t, v);
    let numeral = parts.0 + parts.1;
    assert(f == numeral + letter(t));
    assert forall|i: int| 0 <= i < numeral.len() implies !is_unit_letter(
        #[trigger] numeral[i],
    ) by {
        if i < parts.0.len() {
            assert(numeral[i] == parts.0[i]);
        } else {
            assert(numeral[i] == parts.1[i - parts.0.len()]);
        }
    }
    assert forall|c: char| is_unit_letter(c) implies (f.contains(c) <==> letter(t) == seq![c]) by {
        if f.contains(c) {
            let i = choose|i: int| 0 <= i < f.len() && f[i] == c;
            if i < numeral.len() {
                assert(f[i] == numeral[i]);
            } else {
                assert(f[i] == letter(t)[i - numeral.len()]);
            }
        }
        if letter(t) == seq![c] {
            assert(f[numeral.len() as int] == c);
        }
    }
    assert(seq!['i'][0] == 'i' && seq!['j'][0] == 'j' && seq!['k'][0] == 'k');
    assert(unit_of(f) == t);
    if t == Basis::R {
        assert(f == v);
    } else {
        let symbol = t.symbol();
        assert(letter(t) == seq![symbol]);
        assert forall|i: int| 0 <= i < numeral.len() implies (except(symbol))(
            #[trigger] numeral[i],
        ) by {
            assert(!is_unit_letter(numeral[i]));
        }
        lemma_filter_keeps(numeral, except(symbol));
        Seq::filter_distributes_over_add(numeral, letter(t), except(symbol));
        assert(letter(t).filter(except(symbol)) == Seq::<char>::empty()) by {
            reveal_with_fuel(Seq::filter, 2);
            assert(letter(t).drop_last() == Seq::<char>::empty());
        }
        assert(struck(t, f) == numeral);
        if v == seq!['1'] {
            assert(numeral.push('1') == v);
        } else if v == seq!['-', '1'] {
            assert(numeral.last() == '-');
            assert(numeral.push('1') == v);
        } else {
            assert(numeral == v);
        }
        assert(coefficient_text(t, f) == v);
    }
}

/// What a sequence of monomials makes when one more monomial is put behind it.
proof fn lemma_assembled_push(list: Seq<Seq<char>>, monomial: Seq<char>)
    ensures
        assembled(list.push(monomial)) == match (assembled(list), monomial_value(monomial)) {
            (Some(q), Some(value)) => Some(q.with(unit_of(monomial), value)),
            _ => None,
        },
{
    assert(list.push(monomial).drop_last() == list);
}

/// One more term behind a text that is read back as it was written is read back as it was
/// written.
proof fn lemma_term_read_back(
    sum: Seq<char>,
    list: Seq<Seq<char>>,
    q: Quaternion<Seq<char>>,
    t: Basis,
    v: Seq<char>,
) -> (longer: Seq<Seq<char>>)
    requires
        is_canonical(v),
        all_written(sum),
        sum.len() == 0 ==> list.len() == 0,
        sum.len() > 0 ==> reads_as(sum, list),
        assembled(list) == Some(q),
        q.component(t) == seq!['0'],
    ensures
        all_written(with_term(sum, t, v)),
        with_term(sum, t, v).len() == 0 ==> longer.len() == 0,
        with_term(sum, t, v).len() > 0 ==> reads_as(with_term(sum, t, v), longer),
        assembled(longer) == Some(q.with(t, v)),
{
    lemma_canonical_shape(v);
    if is_zero(v) {
        assert(q.with(t, v) == q);
        list
    } else {
        let parts = lemma_fragment_parts(t, v);
        let f = fragment(t, v);
        let joined = sum.len() > 0 && !is_negative(v);
        let plus: Seq<char> = if joined {
            seq!['+']
        } else {
            Seq::empty()
        };
        let piece = plus + f;
        let next = with_term(sum, t, v);
        assert(next == sum + piece);
        let longer = list.push(f);
        assert forall|i: int| 0 <= i < f.len() implies is_written(#[trigger] f[i]) by {
            let numeral = parts.0 + parts.1;
            if i < parts.0.len() {
                assert(f[i] == parts.0[i]);
            } else if i < numeral.len() {
                assert(f[i] == parts.1[i - parts.0.len()]);
            } else {
                assert(f[i] == letter(t)[i - numeral.len()]);
            }
        }
        assert forall|i: int| 0 <= i < next.len() implies is_written(#[trigger] next[i]) by {
            if i < sum.len() {
                assert(next[i] == sum[i]);
            } else if i < sum.len() + plus.len() {
                assert(next[i] == '+');
            } else {
                assert(next[i] == f[i - sum.len() - plus.len()]);
            }
        }
        assert forall|rest: Seq<char>| can_follow(rest) implies #[trigger] monomials_from(
            next + rest,
            true,
        ) == longer + monomials_from(rest, false) by {
            let behind = piece + rest;
            assert(next + rest == sum + behind);
            assert(behind == plus + f + rest);
            if sum.len() == 0 {
                assert(sum + behind == behind);
                lemma_term_is_cut(t, v, joined, rest, true);
                assert(longer == seq![f]);
            } else {
                if joined {
                    assert(behind[0] == '+');
                } else {
                    assert(behind[0] == f[0]);
                    assert(f[0] == parts.0[0]);
                }
                assert(can_follow(behind));
                assert(monomials_from(sum + behind, true) == list + monomials_from(behind, false));
                lemma_term_is_cut(t, v, joined, rest, false);
                assert(list + (seq![f] + monomials_from(rest, false)) == longer + monomials_from(
                    rest,
                    false,
                ));
            }
        }
        lemma_term_value(t, v);
        lemma_assembled_push(list, f);
        longer
    }
}

/// A text without a closing parenthesis and without a line feed, put in parentheses, is
/// one group.
proof fn lemma_single_group(text: Seq<char>)
    requires
        forall|i: int| 0 <= i < text.len() ==> (group_text())(#[trigger] text[i]),
    ensures
        groups(seq!['('] + text + seq![')']) == seq![text],
{
    let s = seq!['('] + text + seq![')'];
    let rest = s.skip(1);
    assert(rest == text + seq![')']);
    assert forall|i: int| 0 <= i < text.len() implies (group_text())(#[trigger] rest[i]) by {
        assert(rest[i] == text[i]);
    }
    assert(rest[text.len() as int] == ')');
    lemma_leading_is(rest, group_text(), text.len() as int);
    assert(rest.take(text.len() as int) == text);
    assert(rest.skip(text.len() as int + 1) == Seq::<char>::empty());
    assert(s[0] == '(');
    assert(groups(s) == seq![text] + groups(Seq::<char>::empty()));
}

/// The canonical text of a quaternion, read as a group, gives the quaternion back.
pub proof fn lemma_group_round_trip(q: Quaternion<Seq<char>>)
    requires
        is_canonical(q.r),
        is_canonical(q.i),
        is_canonical(q.j),
        is_canonical(q.k),
    ensures
        all_written(formatted(q)),
        formatted(q).len() > 0,
        group_value(formatted(q)) == Some(q),
{
    let zero = seq!['0'];
    let none = Seq::<char>::empty();
    let q0 = Quaternion::filled(zero);
    let list0 = Seq::<Seq<char>>::empty();
    let sum1 = with_term(none, Basis::I, q.i);
    let list1 = lemma_term_read_back(none, list0, q0, Basis::I, q.i);
    let q1 = q0.with(Basis::I, q.i);
    let sum2 = with_term(sum1, Basis::J, q.j);
    let list2 = lemma_term_read_back(sum1, list1, q1, Basis::J, q.j);
    let q2 = q1.with(Basis::J, q.j);
    let sum3 = with_term(sum2, Basis::K, q.k);
    let list3 = lemma_term_read_back(sum2, list2, q2, Basis::K, q.k);
    let q3 = q2.with(Basis::K, q.k);
    let sum4 = with_term(sum3, Basis::R, q.r);
    let list4 = lemma_term_read_back(sum3, list3, q3, Basis::R, q.r);
    assert(q3.with(Basis::R, q.r) == q);
    if sum4.len() == 0 {
        lemma_zero_is_canonical();
        assert(is_zero(q.i) && is_zero(q.j) && is_zero(q.k) && is_zero(q.r));
        assert(q == q0);
        lemma_term_is_cut(Basis::R, zero, false, none, true);
        lemma_term_value(Basis::R, zero);
        let parts = lemma_fragment_parts(Basis::R, zero);
        assert(none + zero + none == zero);
        assert(monomials_from(zero, true) == seq![zero] + monomials_from(none, false));
        assert(monomials_from(none, false) == Seq::<Seq<char>>::empty());
        lemma_assembled_push(list0, zero);
        assert(list0.push(zero) == seq![zero] + Seq::<Seq<char>>::empty());
        assert(q0.with(Basis::R, zero) == q0);
        assert(zero[0] == '0');
    } else {
        assert(sum4 + none == sum4);
        assert(monomials_from(none, false) == Seq::<Seq<char>>::empty());
        assert(monomials_from(sum4 + none, true) == list4 + monomials_from(none, false));
        assert(list4 + Seq::<Seq<char>>::empty() == list4);
    }
}

/// Reading is the inverse of writing: the canonical text of a quaternion, put in
/// parentheses and read as an expression, gives that quaternion and no other. This holds
/// for every quaternion whose four coefficients are numbers in canonical form.
pub proof fn lemma_round_trip(q: Quaternion<Seq<char>>)
    requires
        is_canonical(q.r),
        is_canonical(q.i),
        is_canonical(q.j),
        is_canonical(q.k),
    ensures
        parsed(seq!['('] + formatted(q) + seq![')']) == Some(seq![q]),
{
    let text = formatted(q);
    lemma_group_round_trip(q);
    assert forall|i: int| 0 <= i < text.len() implies (group_text())(#[trigger] text[i]) by {
        assert(is_written(text[i]));
    }
    lemma_single_group(text);
    let input = seq!['('] + text + seq![')'];
    let gs = groups(input);
    assert(gs.len() == 1 && gs[0] == text);
    assert(parsed(input).unwrap() =~= seq![q]);
}

} // verus!
