//! Values of polynomials, and what the transform is in their terms: the
//! values at the roots of `x^n + 1`. From this, the product by way of the
//! transform is the product in the ring.

use crate::common::Q;
use crate::modq::{
    lemma_modq_add, lemma_modq_mul, lemma_modq_multiple, lemma_modq_range, lemma_modq_sub,
    lemma_pow7_squares, modq, reduce, reduced,
};
use crate::ntt::{
    lemma_intt_ntt, lemma_ntt_shape, spec_mul_ntt, spec_mul_zq, spec_ntt, valid_size,
};
use crate::ntt_constants::{has_roots, lemma_root_pair, root_exp, spec_root};
use crate::poly::{
    coef, conv, evens, lemma_conv_concat_left, lemma_conv_single_left, lemma_conv_zero, odds,
    poly_add, poly_mul, poly_neg, ring_mul,
};
use vstd::prelude::*;

verus! {

// ---------------------------------------------------------------------
// Values of polynomials
// ---------------------------------------------------------------------

/// The value of the polynomial `f` at `x`.
pub open spec fn eval(f: Seq<int>, x: int) -> int
    decreases f.len(),
{
    if f.len() == 0 {
        0
    } else {
        f[0] + x * eval(f.skip(1), x)
    }
}

/// `x` to the power `n`.
pub open spec fn xpow(x: int, n: nat) -> int
    decreases n,
{
    if n == 0 {
        1
    } else {
        x * xpow(x, (n - 1) as nat)
    }
}

/// The value of a sum is the sum of the values.
pub proof fn lemma_eval_add(f: Seq<int>, g: Seq<int>, x: int)
    requires
        f.len() == g.len(),
    ensures
        eval(poly_add(f, g), x) == eval(f, x) + eval(g, x),
    decreases f.len(),
{
    if f.len() > 0 {
        lemma_eval_add(f.skip(1), g.skip(1), x);
        assert(poly_add(f, g).skip(1) =~= poly_add(f.skip(1), g.skip(1)));
        let u = eval(f.skip(1), x);
        let v = eval(g.skip(1), x);
        assert(x * (u + v) == x * u + x * v) by (nonlinear_arith);
    }
}

/// The value of the negative is the negative of the value.
pub proof fn lemma_eval_neg(f: Seq<int>, x: int)
    ensures
        eval(poly_neg(f), x) == -eval(f, x),
    decreases f.len(),
{
    if f.len() > 0 {
        lemma_eval_neg(f.skip(1), x);
        assert(poly_neg(f).skip(1) =~= poly_neg(f.skip(1)));
        let u = eval(f.skip(1), x);
        assert(x * (-u) == -(x * u)) by (nonlinear_arith);
    }
}

/// The value of two polynomials put end to end: the second counts from the
/// power of `x` that the length of the first gives.
pub proof fn lemma_eval_concat(f: Seq<int>, g: Seq<int>, x: int)
    ensures
        eval(f + g, x) == eval(f, x) + xpow(x, f.len()) * eval(g, x),
    decreases f.len(),
{
    if f.len() == 0 {
        assert(f + g =~= g);
        assert(1 * eval(g, x) == eval(g, x)) by (nonlinear_arith);
    } else {
        let f1 = f.skip(1);
        lemma_eval_concat(f1, g, x);
        assert((f + g).skip(1) =~= f1 + g);
        let u = eval(f1, x);
        let p = xpow(x, f1.len());
        let v = eval(g, x);
        assert(xpow(x, f.len()) == x * p);
        assert(x * (u + p * v) == x * u + (x * p) * v) by (nonlinear_arith);
    }
}

/// The value of a constant multiple of `b`, written out to any length from
/// that of `b` on, is the multiple of the value of `b`.
pub proof fn lemma_eval_scaled(c: int, b: Seq<int>, len: nat, x: int)
    requires
        len >= b.len(),
    ensures
        eval(Seq::new(len, |k: int| c * coef(b, k)), x) == c * eval(b, x),
    decreases len,
{
    let s = Seq::new(len, |k: int| c * coef(b, k));
    if len == 0 {
        assert(c * 0 == 0) by (nonlinear_arith);
    } else if b.len() == 0 {
        let rest = Seq::new((len - 1) as nat, |k: int| c * coef(b, k));
        lemma_eval_scaled(c, b, (len - 1) as nat, x);
        assert(s.skip(1) =~= rest);
        assert(c * 0 == 0) by (nonlinear_arith);
        assert(x * 0 == 0) by (nonlinear_arith);
    } else {
        let b1 = b.skip(1);
        let rest = Seq::new((len - 1) as nat, |k: int| c * coef(b1, k));
        lemma_eval_scaled(c, b1, (len - 1) as nat, x);
        assert(s.skip(1) =~= rest) by {
            assert forall|k: int| 0 <= k < len - 1 implies s.skip(1)[k] == rest[k] by {
                assert(coef(b, k + 1) == coef(b1, k));
            }
        }
        let u = eval(b1, x);
        assert(c * (b[0] + x * u) == c * b[0] + x * (c * u)) by (nonlinear_arith);
    }
}

/// The value of a polynomial of even length, from the values of its even and
/// its odd part at the square.
pub proof fn lemma_eval_split(f: Seq<int>, x: int)
    requires
        f.len() % 2 == 0,
    ensures
        eval(f, x) == eval(evens(f), x * x) + x * eval(odds(f), x * x),
    decreases f.len(),
{
    if f.len() == 0 {
        assert(evens(f).len() == 0);
        assert(odds(f).len() == 0);
        assert(x * 0 == 0) by (nonlinear_arith);
    } else {
        let f1 = f.skip(1);
        let f2 = f1.skip(1);
        lemma_eval_split(f2, x);
        assert(evens(f).skip(1) =~= evens(f2));
        assert(odds(f).skip(1) =~= odds(f2));
        let y = x * x;
        let e = eval(evens(f2), y);
        let o = eval(odds(f2), y);
        assert(eval(f, x) == f[0] + x * eval(f1, x));
        assert(eval(f1, x) == f[1] + x * eval(f2, x));
        assert(eval(evens(f), y) == f[0] + y * e);
        assert(eval(odds(f), y) == f[1] + y * o);
        assert(f[0] + x * (f[1] + x * (e + x * o)) == (f[0] + (x * x) * e) + x * (f[1] + (x * x)
            * o)) by (nonlinear_arith);
    }
}

/// The value of a product is the product of the values.
pub proof fn lemma_eval_mul(a: Seq<int>, b: Seq<int>, x: int)
    ensures
        eval(poly_mul(a, b), x) == eval(a, x) * eval(b, x),
    decreases a.len(),
{
    let p = poly_mul(a, b);
    let len = a.len() + b.len();
    if a.len() == 0 {
        let none = Seq::<int>::empty();
        assert(p =~= Seq::new(len, |k: int| 0 * coef(none, k))) by {
            assert forall|k: int| 0 <= k < len implies p[k] == 0 * coef(none, k) by {
                assert(conv(a, b, k) == 0);
                assert(0 * coef(none, k) == 0) by (nonlinear_arith);
            }
        }
        lemma_eval_scaled(0, none, len, x);
        assert(0 * eval(none, x) == 0) by (nonlinear_arith);
        assert(0 * eval(b, x) == 0) by (nonlinear_arith);
    } else {
        let a0 = a[0];
        let a1 = a.skip(1);
        lemma_eval_mul(a1, b, x);
        let s = Seq::new(len, |k: int| a0 * coef(b, k));
        let t = seq![0int] + poly_mul(a1, b);
        assert(a =~= seq![a0] + a1);
        assert(p =~= poly_add(s, t)) by {
            assert forall|k: int| 0 <= k < len implies p[k] == s[k] + t[k] by {
                lemma_conv_concat_left(seq![a0], a1, b, k);
                lemma_conv_single_left(a0, b, k);
                if k == 0 {
                    lemma_conv_zero(a1, b, -1);
                } else {
                    assert(t[k] == poly_mul(a1, b)[k - 1]);
                }
            }
        }
        lemma_eval_add(s, t, x);
        lemma_eval_scaled(a0, b, len, x);
        assert(t.skip(1) =~= poly_mul(a1, b));
        let u = eval(a1, x);
        let v = eval(b, x);
        assert(eval(t, x) == 0 + x * (u * v));
        assert(a0 * v + x * (u * v) == (a0 + x * u) * v) by (nonlinear_arith);
    }
}

/// Values at points with the same residue have the same residue.
pub proof fn lemma_eval_same_point(f: Seq<int>, x: int, y: int)
    requires
        modq(x) == modq(y),
    ensures
        modq(eval(f, x)) == modq(eval(f, y)),
    decreases f.len(),
{
    if f.len() > 0 {
        let f1 = f.skip(1);
        lemma_eval_same_point(f1, x, y);
        lemma_modq_mul(x, eval(f1, x));
        lemma_modq_mul(y, eval(f1, y));
        lemma_modq_add(f[0], x * eval(f1, x));
        lemma_modq_add(f[0], y * eval(f1, y));
    }
}

/// Taking residues of the coefficients does not change the residue of a
/// value.
pub proof fn lemma_eval_reduce(f: Seq<int>, x: int)
    ensures
        modq(eval(reduce(f), x)) == modq(eval(f, x)),
    decreases f.len(),
{
    if f.len() > 0 {
        let f1 = f.skip(1);
        lemma_eval_reduce(f1, x);
        assert(reduce(f).skip(1) =~= reduce(f1));
        let u = eval(reduce(f1), x);
        let v = eval(f1, x);
        lemma_modq_mul(x, u);
        lemma_modq_mul(x, v);
        lemma_modq_add(modq(f[0]), x * u);
        lemma_modq_add(f[0], x * v);
        lemma_modq_range(f[0]);
    }
}

/// The power with twice the exponent is the power of the square.
pub proof fn lemma_xpow_double(x: int, m: nat)
    ensures
        xpow(x, 2 * m) == xpow(x * x, m),
    decreases m,
{
    if m > 0 {
        lemma_xpow_double(x, (m - 1) as nat);
        let p = xpow(x, (2 * m - 2) as nat);
        assert(xpow(x, 2 * m) == x * xpow(x, (2 * m - 1) as nat));
        assert(xpow(x, (2 * m - 1) as nat) == x * p);
        assert(x * (x * p) == (x * x) * p) by (nonlinear_arith);
    }
}

/// Powers of numbers with the same residue have the same residue.
pub proof fn lemma_xpow_same_base(x: int, y: int, m: nat)
    requires
        modq(x) == modq(y),
    ensures
        modq(xpow(x, m)) == modq(xpow(y, m)),
    decreases m,
{
    if m > 0 {
        lemma_xpow_same_base(x, y, (m - 1) as nat);
        lemma_modq_mul(x, xpow(x, (m - 1) as nat));
        lemma_modq_mul(y, xpow(y, (m - 1) as nat));
    }
}

// ---------------------------------------------------------------------
// The roots and the transform
// ---------------------------------------------------------------------

/// The square of a root of size `n` is, modulo `q`, the root of half the
/// size at half the place.
pub proof fn lemma_root_square(n: nat, k: nat)
    requires
        has_roots(n as int),
        k < n,
    ensures
        0 < spec_root(n, k) < Q,
        modq(spec_root(n, k) * spec_root(n, k)) == spec_root(n / 2, k / 2),
{
    let i = k / 2;
    lemma_root_pair(n, i);
    let w = spec_root(n, 2 * i);
    if k % 2 == 1 {
        assert(k == 2 * i + 1);
        assert((12289 - w) * (12289 - w) == 12289 * (12289 - 2 * w) + w * w) by (nonlinear_arith);
        lemma_modq_multiple(12289 - 2 * w, w * w);
    } else {
        assert(k == 2 * i);
    }
}

/// Every root of size `n` is a root of `x^n + 1` modulo `q`.
pub proof fn lemma_root_power(n: nat, k: nat)
    requires
        valid_size(n as int),
        k < n,
    ensures
        modq(xpow(spec_root(n, k), n)) == Q - 1,
    decreases n,
{
    let w = spec_root(n, k);
    if n == 1 {
        lemma_pow7_squares();
        assert(root_exp(1, k) == 1024);
        assert(xpow(w, 1) == w * xpow(w, 0));
        assert(w * 1 == w) by (nonlinear_arith);
    } else {
        let m = n / 2;
        let v = spec_root(m, k / 2);
        lemma_root_square(n, k);
        lemma_root_power(m, k / 2);
        assert(n == 2 * m);
        lemma_xpow_double(w, m);
        lemma_xpow_same_base(w * w, v, m);
        lemma_modq_range(v);
    }
}

/// What the transform is: entry `k` of the transform of `f` is, modulo `q`,
/// the value of `f` at root `k`.
pub proof fn lemma_ntt_is_evaluation(f: Seq<int>, k: int)
    requires
        valid_size(f.len() as int),
        0 <= k < f.len(),
    ensures
        modq(spec_ntt(f)[k]) == modq(eval(f, spec_root(f.len(), k as nat))),
    decreases f.len(),
{
    let n = f.len();
    if n == 1 {
        assert(f.skip(1).len() == 0);
        let x = spec_root(n, k as nat);
        assert(eval(f, x) == f[0] + x * eval(f.skip(1), x));
        assert(x * 0 == 0) by (nonlinear_arith);
    } else {
        let e = evens(f);
        let o = odds(f);
        let i = k / 2;
        let a = spec_ntt(e);
        let b = spec_ntt(o);
        lemma_ntt_shape(e);
        lemma_ntt_shape(o);
        lemma_ntt_is_evaluation(e, i);
        lemma_ntt_is_evaluation(o, i);
        lemma_root_pair(n, i as nat);
        lemma_root_square(n, (2 * i) as nat);
        let w = spec_root(n, (2 * i) as nat);
        let v = spec_root(n / 2, i as nat);
        assert((2 * i) / 2 == i);
        let ee = eval(e, w * w);
        let oo = eval(o, w * w);
        lemma_eval_same_point(e, w * w, v);
        lemma_eval_same_point(o, w * w, v);
        lemma_modq_range(v);
        // modq(a[i]) == modq(ee), modq(b[i]) == modq(oo)
        lemma_modq_mul(w, b[i]);
        lemma_modq_mul(w, oo);
        assert(modq(w * b[i]) == modq(w * oo));
        lemma_eval_split(f, w);
        if k % 2 == 0 {
            assert(k == 2 * i);
            assert(spec_ntt(f)[k] == modq(a[i] + w * b[i]));
            lemma_modq_add(a[i], w * b[i]);
            lemma_modq_add(ee, w * oo);
            lemma_modq_range(a[i] + w * b[i]);
        } else {
            assert(k == 2 * i + 1);
            assert(k - 1 == 2 * i);
            assert(spec_ntt(f)[k] == modq(a[i] - w * b[i]));
            lemma_modq_sub(a[i], w * b[i]);
            lemma_modq_sub(ee, w * oo);
            lemma_modq_range(a[i] - w * b[i]);
            // the root at k is -w modulo q
            let y = spec_root(n, k as nat);
            assert(y == 12289 - w);
            lemma_eval_split(f, y);
            assert(y * y == 12289 * (12289 - 2 * w) + w * w) by (nonlinear_arith)
                requires
                    y == 12289 - w,
            ;
            lemma_modq_multiple(12289 - 2 * w, w * w);
            lemma_eval_same_point(e, y * y, w * w);
            lemma_eval_same_point(o, y * y, w * w);
            let e2 = eval(e, y * y);
            let o2 = eval(o, y * y);
            assert(y * o2 == 12289 * o2 - w * o2) by (nonlinear_arith)
                requires
                    y == 12289 - w,
            ;
            lemma_modq_multiple(o2, -(w * o2));
            assert(modq(y * o2) == modq(-(w * o2)));
            lemma_modq_mul(w, o2);
            assert(modq(w * o2) == modq(w * oo));
            lemma_modq_sub(0, w * o2);
            lemma_modq_sub(0, w * oo);
            assert(modq(-(w * o2)) == modq(-(w * oo)));
            lemma_modq_add(e2, y * o2);
            lemma_modq_add(ee, -(w * oo));
        }
    }
}

/// The value of a product in the ring modulo `x^n + 1`, at a root of
/// `x^n + 1` modulo `q`, is the product of the values, modulo `q`.
pub proof fn lemma_eval_ring_mul(a: Seq<int>, b: Seq<int>, x: int)
    requires
        a.len() == b.len(),
        modq(xpow(x, a.len())) == Q - 1,
    ensures
        modq(eval(ring_mul(a, b), x)) == modq(eval(a, x) * eval(b, x)),
{
    let n = a.len() as int;
    let p = poly_mul(a, b);
    let lo = p.take(n);
    let hi = p.skip(n);
    assert(p =~= lo + hi);
    lemma_eval_concat(lo, hi, x);
    lemma_eval_mul(a, b, x);
    assert(ring_mul(a, b) =~= poly_add(lo, poly_neg(hi)));
    lemma_eval_add(lo, poly_neg(hi), x);
    lemma_eval_neg(hi, x);
    let l = eval(lo, x);
    let h = eval(hi, x);
    let t = xpow(x, a.len());
    // t * h == -h modulo q
    lemma_modq_mul(t, h);
    assert(12288 * h == 12289 * h - h) by (nonlinear_arith);
    lemma_modq_multiple(h, -h);
    assert(modq(t * h) == modq(-h));
    lemma_modq_add(l, t * h);
    lemma_modq_add(l, -h);
}

/// The transform-based product is the product in the ring modulo `x^n + 1`
/// and `q`: for polynomials `a` and `b` over the integers, of a valid size,
/// multiplying their residues by way of the transform gives the residues of
/// the exact product modulo `x^n + 1`.
pub proof fn lemma_mul_zq_is_ring_mul(a: Seq<int>, b: Seq<int>)
    requires
        valid_size(a.len() as int),
        a.len() == b.len(),
    ensures
        spec_mul_zq(reduce(a), reduce(b)) == reduce(ring_mul(a, b)),
{
    let n = a.len();
    let ra = reduce(a);
    let rb = reduce(b);
    let r = reduce(ring_mul(a, b));
    assert(reduced(r)) by {
        assert forall|i: int| 0 <= i < r.len() implies 0 <= #[trigger] r[i] < Q by {
            lemma_modq_range(ring_mul(a, b)[i]);
        }
    }
    lemma_ntt_shape(ra);
    lemma_ntt_shape(rb);
    lemma_ntt_shape(r);
    let fa = spec_ntt(ra);
    let fb = spec_ntt(rb);
    let fr = spec_ntt(r);
    let prod = spec_mul_ntt(fa, fb);
    assert forall|k: int| 0 <= k < n implies fr[k] == prod[k] by {
        let w = spec_root(n, k as nat);
        lemma_ntt_is_evaluation(ra, k);
        lemma_ntt_is_evaluation(rb, k);
        lemma_ntt_is_evaluation(r, k);
        lemma_eval_reduce(a, w);
        lemma_eval_reduce(b, w);
        lemma_eval_reduce(ring_mul(a, b), w);
        lemma_root_power(n, k as nat);
        lemma_eval_ring_mul(a, b, w);
        lemma_modq_mul(eval(a, w), eval(b, w));
        lemma_modq_mul(fa[k], fb[k]);
        lemma_modq_range(fr[k]);
    }
    assert(fr =~= prod);
    lemma_intt_ntt(r);
}

} // verus!
