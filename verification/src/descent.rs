//! The descent to the ring of half the degree: what the field norm is, shown
//! from the algebra of products, lifts and conjugates.

use crate::ntrugen::{spec_conjugate, spec_field_norm, spec_lift};
use crate::poly::{coef, conv, evens, odds, poly_add, poly_neg, poly_shift, ring_mul};
use crate::poly::{
    lemma_conv_add_left, lemma_conv_add_right, lemma_conv_commutes, lemma_conv_concat_left,
    lemma_conv_neg_right, lemma_conv_shift_left, lemma_conv_single_left, lemma_conv_zero,
};
use vstd::prelude::*;

verus! {

/// The coefficients of `p(x^2)`: those of `p` at the even places, zeros at
/// the odd ones and outside.
pub proof fn lemma_lift_coef(p: Seq<int>, j: int)
    ensures
        coef(spec_lift(p), j) == (if j % 2 == 0 {
            coef(p, j / 2)
        } else {
            0
        }),
{
}

/// Lifting goes with multiplying: `p(x^2) * q(x^2)` is `(p * q)(x^2)`.
pub proof fn lemma_conv_lift(p: Seq<int>, q: Seq<int>, m: int)
    ensures
        conv(spec_lift(p), spec_lift(q), m) == (if m % 2 == 0 {
            conv(p, q, m / 2)
        } else {
            0
        }),
    decreases p.len(),
{
    if p.len() == 0 {
        assert(spec_lift(p).len() == 0);
    } else {
        let front = p.drop_last();
        let x = p.last();
        let h = front.len() as int;
        let tail = seq![x] + seq![0int];
        assert(p =~= front + seq![x]);
        assert(spec_lift(p) =~= spec_lift(front) + tail);
        lemma_conv_lift(front, q, m);
        lemma_conv_concat_left(spec_lift(front), tail, spec_lift(q), m);
        let j = m - 2 * h;
        lemma_conv_concat_left(seq![x], seq![0int], spec_lift(q), j);
        lemma_conv_single_left(x, spec_lift(q), j);
        lemma_conv_single_left(0, spec_lift(q), j - 1);
        assert(0 * coef(spec_lift(q), j - 1) == 0) by (nonlinear_arith);
        lemma_lift_coef(q, j);
        lemma_conv_concat_left(front, seq![x], q, m / 2);
        lemma_conv_single_left(x, q, m / 2 - h);
        if m % 2 == 0 {
            assert(j % 2 == 0);
            assert(j / 2 == m / 2 - h);
        } else {
            assert(j % 2 != 0);
            assert(x * 0 == 0) by (nonlinear_arith);
        }
    }
}

/// The product of a polynomial of even length with its conjugate has no odd
/// coefficients, and its coefficient at `2t` is that of `e^2 - x * o^2` at
/// `t`, with `e` and `o` the even and the odd part.
pub proof fn lemma_conv_conjugate(a: Seq<int>, m: int)
    requires
        a.len() % 2 == 0,
        a.len() > 0,
    ensures
        conv(a, spec_conjugate(a), m) == (if m % 2 == 0 {
            conv(evens(a), evens(a), m / 2) - conv(odds(a), odds(a), m / 2 - 1)
        } else {
            0
        }),
{
    let e = evens(a);
    let o = odds(a);
    let le = spec_lift(e);
    let lo = spec_lift(o);
    let so = poly_shift(lo);
    let c = spec_conjugate(a);
    assert(lo.last() == 0);
    assert(a =~= poly_add(le, so)) by {
        assert forall|i: int| 0 <= i < a.len() implies a[i] == le[i] + so[i] by {
            if i % 2 == 0 {
                if i > 0 {
                    assert(so[i] == lo[i - 1]);
                }
            } else {
                assert(so[i] == lo[i - 1]);
                assert((i - 1) / 2 == i / 2);
            }
        }
    }
    assert(c =~= poly_add(le, poly_neg(so))) by {
        assert forall|i: int| 0 <= i < a.len() implies c[i] == le[i] + poly_neg(so)[i] by {
            if i % 2 == 0 {
                if i > 0 {
                    assert(so[i] == lo[i - 1]);
                }
            } else {
                assert(so[i] == lo[i - 1]);
                assert((i - 1) / 2 == i / 2);
            }
        }
    }
    let ns = poly_neg(so);
    lemma_conv_add_left(le, so, poly_add(le, ns), m);
    lemma_conv_add_right(le, le, ns, m);
    lemma_conv_add_right(so, le, ns, m);
    lemma_conv_neg_right(le, so, m);
    lemma_conv_neg_right(so, so, m);
    lemma_conv_commutes(le, so, m);
    // so * so is lo * lo moved up by two places
    lemma_conv_shift_left(lo, so, m);
    lemma_conv_commutes(lo, so, m - 1);
    lemma_conv_shift_left(lo, lo, m - 1);
    lemma_conv_lift(e, e, m);
    lemma_conv_lift(o, o, m - 2);
    if m % 2 == 0 {
        assert((m - 2) % 2 == 0);
        assert((m - 2) / 2 == m / 2 - 1);
    } else {
        assert((m - 2) % 2 != 0);
    }
}

/// The field norm, lifted back, is the product of a polynomial with its
/// conjugate in the ring modulo `x^n + 1`: the norm is what that product is
/// over the ring of half the degree.
pub proof fn lemma_lift_field_norm(a: Seq<int>)
    requires
        a.len() % 2 == 0,
        a.len() > 0,
    ensures
        spec_lift(spec_field_norm(a)) == ring_mul(a, spec_conjugate(a)),
{
    let n = a.len() as int;
    let h = n / 2;
    let e = evens(a);
    let o = odds(a);
    let c = spec_conjugate(a);
    let left = spec_lift(spec_field_norm(a));
    let right = ring_mul(a, c);
    assert(left.len() == right.len());
    assert forall|k: int| 0 <= k < n implies left[k] == right[k] by {
        lemma_conv_conjugate(a, k);
        lemma_conv_conjugate(a, k + n);
        if k % 2 == 0 {
            let t = k / 2;
            assert((k + n) % 2 == 0);
            assert((k + n) / 2 == t + h);
            assert(right[k] == (conv(e, e, t) - conv(o, o, t - 1)) - (conv(e, e, t + h) - conv(
                o,
                o,
                t + h - 1,
            )));
            if t == 0 {
                lemma_conv_zero(o, o, -1);
                lemma_conv_zero(o, o, 2 * h - 1);
            }
        } else {
            assert((k + n) % 2 != 0);
        }
    }
    assert(left =~= right);
}

} // verus!
