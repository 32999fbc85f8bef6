//! The Hamilton product of quaternions over any kind of scalar.
//!
//! The library does not compute with scalars itself. A caller hands the product one
//! function, `step`, with `step(acc, sign, l, r)` standing for `acc + sign * l * r`, and the
//! contracts say which calls of `step` make up the result, and in which order.

use vstd::prelude::*;

use crate::basis::{basis_product, multiply_base, Basis, Sign};
use crate::error::QuaternionError;
use crate::quaternion::Quaternion;

verus! {

/// Whether `after` is `before` with the term of number `term` of the product of `left` and
/// `right` added to it by `step`. The terms are numbered in the order in which they are
/// added: term `4 * p + n` multiplies the component `p` of `left` by the component `n` of
/// `right`, both counted in the order `r`, `i`, `j`, `k`. The table of basis products says
/// which component of the sum the term goes to, and with which sign.
pub open spec fn term_added<T, F: Fn(T, Sign, T, T) -> T>(
    step: F,
    left: Quaternion<T>,
    right: Quaternion<T>,
    term: int,
    before: Quaternion<T>,
    after: Quaternion<T>,
) -> bool {
    let p = Basis::at(term / 4);
    let n = Basis::at(term % 4);
    let target = basis_product(p, n);
    &&& step.ensures(
        (before.component(target.d), target.c, left.component(p), right.component(n)),
        after.component(target.d),
    )
    &&& after == before.with(target.d, after.component(target.d))
}

/// Whether `sums` holds the sums that arise while the first `sums.len() - 1` terms of the
/// product of `left` and `right` are added by `step`, one after the other, to a quaternion
/// of `zero`s.
pub open spec fn is_term_trace<T, F: Fn(T, Sign, T, T) -> T>(
    step: F,
    zero: T,
    left: Quaternion<T>,
    right: Quaternion<T>,
    sums: Seq<Quaternion<T>>,
) -> bool {
    &&& sums.len() >= 1
    &&& sums[0] == Quaternion::filled(zero)
    &&& forall|term: int|
        0 <= term < sums.len() - 1 ==> #[trigger] term_added(
            step,
            left,
            right,
            term,
            sums[term],
            sums[term + 1],
        )
}

/// Whether `result` can come out as the Hamilton product of `left` and `right`, in this
/// order, when `step` adds its sixteen terms to a quaternion of `zero`s.
pub open spec fn is_product<T, F: Fn(T, Sign, T, T) -> T>(
    step: F,
    zero: T,
    left: Quaternion<T>,
    right: Quaternion<T>,
    result: Quaternion<T>,
) -> bool {
    exists|sums: Seq<Quaternion<T>>|
        sums.len() == 17 && sums[16] == result && #[trigger] is_term_trace(
            step,
            zero,
            left,
            right,
            sums,
        )
}

/// Whether `result` can come out when the quaternions of `qs` are multiplied from left to
/// right, `((q0 * q1) * q2) * ...`, for a sequence of at least one quaternion.
pub open spec fn is_folded<T, F: Fn(T, Sign, T, T) -> T>(
    step: F,
    zero: T,
    qs: Seq<Quaternion<T>>,
    result: Quaternion<T>,
) -> bool {
    exists|products: Seq<Quaternion<T>>|
        #![trigger products.len()]
        {
            &&& products.len() == qs.len()
            &&& qs.len() >= 1
            &&& products[0] == qs[0]
            &&& products[qs.len() - 1] == result
            &&& forall|n: int|
                1 <= n < qs.len() ==> #[trigger] is_product(
                    step,
                    zero,
                    products[n - 1],
                    qs[n],
                    products[n],
                )
        }
}

/// Whether `step` treats `zero` and `one` as addition and multiplication treat 0 and 1: a
/// term with a factor `zero` leaves the sum as it is, and a positive term with a factor
/// `one`, added to `zero`, gives the other factor.
pub open spec fn respects_units<T, F: Fn(T, Sign, T, T) -> T>(step: F, zero: T, one: T) -> bool {
    &&& forall|acc: T, sign: Sign, r: T, out: T| #[trigger]
        step.ensures((acc, sign, zero, r), out) ==> out == acc
    &&& forall|acc: T, sign: Sign, l: T, out: T| #[trigger]
        step.ensures((acc, sign, l, zero), out) ==> out == acc
    &&& forall|r: T, out: T| #[trigger] step.ensures((zero, Sign::Plus, one, r), out) ==> out == r
    &&& forall|l: T, out: T| #[trigger] step.ensures((zero, Sign::Plus, l, one), out) ==> out == l
}

/// The quaternion that agrees with `x` in its first `count` components, counted in the
/// order `r`, `i`, `j`, `k`, and holds `zero` in the others.
pub open spec fn leading_components<T>(x: Quaternion<T>, zero: T, count: int) -> Quaternion<T> {
    Quaternion {
        r: if count > 0 { x.r } else { zero },
        i: if count > 1 { x.i } else { zero },
        j: if count > 2 { x.j } else { zero },
        k: if count > 3 { x.k } else { zero },
    }
}

proof fn lemma_left_identity_terms<T, F: Fn(T, Sign, T, T) -> T>(
    step: F,
    zero: T,
    one: T,
    x: Quaternion<T>,
    sums: Seq<Quaternion<T>>,
    count: int,
)
    requires
        respects_units(step, zero, one),
        is_term_trace(step, zero, Quaternion { r: one, i: zero, j: zero, k: zero }, x, sums),
        0 <= count < sums.len() <= 17,
    ensures
        sums[count] == leading_components(x, zero, count),
    decreases count,
{
    if count > 0 {
        let left = Quaternion { r: one, i: zero, j: zero, k: zero };
        lemma_left_identity_terms(step, zero, one, x, sums, count - 1);
        assert(term_added(step, left, x, count - 1, sums[count - 1], sums[count - 1 + 1]));
    }
}

proof fn lemma_right_identity_terms<T, F: Fn(T, Sign, T, T) -> T>(
    step: F,
    zero: T,
    one: T,
    x: Quaternion<T>,
    sums: Seq<Quaternion<T>>,
    count: int,
)
    requires
        respects_units(step, zero, one),
        is_term_trace(step, zero, x, Quaternion { r: one, i: zero, j: zero, k: zero }, sums),
        0 <= count < sums.len() <= 17,
    ensures
        sums[count] == leading_components(x, zero, (count + 3) / 4),
    decreases count,
{
    if count > 0 {
        let right = Quaternion { r: one, i: zero, j: zero, k: zero };
        lemma_right_identity_terms(step, zero, one, x, sums, count - 1);
        assert(term_added(step, x, right, count - 1, sums[count - 1], sums[count - 1 + 1]));
    }
}

/// The quaternion `1` is the identity of the Hamilton product on both sides: whatever comes
/// out as the product of `1` and `x`, or of `x` and `1`, is `x`. This holds for every `step`
/// that respects `zero` and `one`.
pub proof fn lemma_multiplicative_identity<T, F: Fn(T, Sign, T, T) -> T>(
    step: F,
    zero: T,
    one: T,
    x: Quaternion<T>,
    result: Quaternion<T>,
)
    requires
        respects_units(step, zero, one),
        is_product(step, zero, Quaternion { r: one, i: zero, j: zero, k: zero }, x, result)
            || is_product(step, zero, x, Quaternion { r: one, i: zero, j: zero, k: zero }, result),
    ensures
        result == x,
{
    let identity = Quaternion { r: one, i: zero, j: zero, k: zero };
    if is_product(step, zero, identity, x, result) {
        let sums = choose|sums: Seq<Quaternion<T>>|
            sums.len() == 17 && sums[16] == result && #[trigger] is_term_trace(
                step,
                zero,
                identity,
                x,
                sums,
            );
        lemma_left_identity_terms(step, zero, one, x, sums, 16);
    } else {
        let sums = choose|sums: Seq<Quaternion<T>>|
            sums.len() == 17 && sums[16] == result && #[trigger] is_term_trace(
                step,
                zero,
                x,
                identity,
                sums,
            );
        lemma_right_identity_terms(step, zero, one, x, sums, 16);
    }
}

impl<T: Copy> Quaternion<T> {
    /// The Hamilton product of `self` and `a`, in this order.
    ///
    /// The scalars are combined by `step` alone: `step(acc, sign, l, r)` stands for
    /// `acc + sign * l * r`. The sixteen terms are added to a quaternion of `zero`s in a fixed
    /// order, so the result is what `step` makes of that order.
    pub fn multiply<F: Fn(T, Sign, T, T) -> T>(
        &self,
        a: Quaternion<T>,
        zero: T,
        step: &F,
    ) -> (result: Quaternion<T>)
        requires
            forall|acc: T, sign: Sign, l: T, r: T| step.requires((acc, sign, l, r)),
        ensures
            is_product(*step, zero, *self, a, result),
    {
        let order = [Basis::R, Basis::I, Basis::J, Basis::K];
        let mut res = Quaternion { r: zero, i: zero, j: zero, k: zero };
        let ghost mut sums: Seq<Quaternion<T>> = seq![res];
        let mut p: usize = 0;
        while p < 4
            invariant
                p <= 4,
                order@ == seq![Basis::R, Basis::I, Basis::J, Basis::K],
                forall|acc: T, sign: Sign, l: T, r: T| step.requires((acc, sign, l, r)),
                is_term_trace(*step, zero, *self, a, sums),
                sums.len() == 4 * p + 1,
                sums[4 * p] == res,
            decreases 4 - p,
        {
            let mut n: usize = 0;
            while n < 4
                invariant
                    p < 4,
                    n <= 4,
                    order@ == seq![Basis::R, Basis::I, Basis::J, Basis::K],
                    forall|acc: T, sign: Sign, l: T, r: T| step.requires((acc, sign, l, r)),
                    is_term_trace(*step, zero, *self, a, sums),
                    sums.len() == 4 * p + n + 1,
                    sums[4 * p + n] == res,
                decreases 4 - n,
            {
                let target = multiply_base(order[p], order[n]);
                let ghost before = res;
                let value = step(
                    *res.get(target.d),
                    target.c,
                    *self.get(order[p]),
                    *a.get(order[n]),
                );
                res.set(target.d, value);
                proof {
                    let term = 4 * p + n;
                    assert(term / 4 == p && term % 4 == n);
                    assert(Basis::at(p as int) == order[p as int]);
                    assert(Basis::at(n as int) == order[n as int]);
                    assert(term_added(*step, *self, a, term as int, before, res));
                    let ghost longer = sums.push(res);
                    assert forall|t: int| 0 <= t < longer.len() - 1 implies #[trigger] term_added(
                        *step,
                        *self,
                        a,
                        t,
                        longer[t],
                        longer[t + 1],
                    ) by {
                        if t < term {
                            assert(term_added(*step, *self, a, t, sums[t], sums[t + 1]));
                        }
                    }
                    sums = longer;
                }
                n += 1;
            }
            p += 1;
        }
        res
    }
}

/// Multiplies a sequence of quaternions from left to right: `((q0 * q1) * q2) * ...`.
///
/// The order is kept, because the Hamilton product does not commute. A sequence of no
/// quaternions has no product.
pub fn reduce_sequence<T: Copy, F: Fn(T, Sign, T, T) -> T>(
    qs: &Vec<Quaternion<T>>,
    zero: T,
    step: &F,
) -> (result: Result<Quaternion<T>, QuaternionError>)
    requires
        forall|acc: T, sign: Sign, l: T, r: T| step.requires((acc, sign, l, r)),
    ensures
        match result {
            Ok(product) => is_folded(*step, zero, qs@, product),
            Err(e) => qs.len() == 0 && e == QuaternionError::EmptyProductInput,
        },
{
    if qs.len() == 0 {
        return Err(QuaternionError::EmptyProductInput);
    }
    let mut product = qs[0];
    let ghost mut products: Seq<Quaternion<T>> = seq![product];
    let mut count: usize = 1;
    while count < qs.len()
        invariant
            1 <= count <= qs.len(),
            forall|acc: T, sign: Sign, l: T, r: T| step.requires((acc, sign, l, r)),
            products.len() == count,
            products[0] == qs[0],
            products[count - 1] == product,
            forall|n: int|
                1 <= n < count ==> #[trigger] is_product(
                    *step,
                    zero,
                    products[n - 1],
                    qs[n],
                    products[n],
                ),
        decreases qs.len() - count,
    {
        product = product.multiply(qs[count], zero, step);
        proof {
            products = products.push(product);
        }
        count += 1;
    }
    proof {
        assert(products.take(qs.len() as int) == products);
    }
    Ok(product)
}

} // verus!
