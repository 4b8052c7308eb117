//! The number-theoretic transform modulo `q`, and the ring operations on
//! polynomials of residues.

use crate::common::{split, Q};
use crate::evaluation::{eval, lemma_mul_zq_is_ring_mul, lemma_ntt_is_evaluation};
use crate::modq::{
    lemma_inv, lemma_modq_add, lemma_modq_mul, lemma_modq_multiple, lemma_modq_range,
    lemma_modq_same, lemma_modq_sub, modq, reduce, reduced, spec_inv,
};
use crate::ntt_constants::{
    dict_view, get_inv_mod_q, get_roots_dict, has_roots, lemma_dict_lookup, lemma_root_of_two,
    lemma_root_pair, roots_of, spec_inv_table, spec_root, spec_roots_dict, table_of,
};
use crate::poly::{evens, interleave, odds, ring_mul};
use std::collections::HashMap;
use vstd::prelude::*;
use vstd::slice::slice_to_vec;

verus! {

/// The inverse of 2 modulo `q`.
pub const I2: u32 = 6145;

/// The square root of `-1` modulo `q` that the transform of size 2 uses.
pub const SQR1: u32 = 1479;

// ---------------------------------------------------------------------
// The transform, as mathematics
// ---------------------------------------------------------------------

/// A vector of residues as a polynomial over the integers.
pub open spec fn uints(s: Seq<u32>) -> Seq<int> {
    Seq::new(s.len(), |i: int| s[i] as int)
}

/// The sizes that the transform takes: the powers of two from 1 to 1024.
pub open spec fn valid_size(n: int) -> bool {
    n == 1 || has_roots(n)
}

/// The merge step: from the transforms of the even and the odd part of a
/// polynomial to the transform of the polynomial. With `w` the root at `2i`,
/// the entries at `2i` and `2i + 1` are `f0[i] + w * f1[i]` and
/// `f0[i] - w * f1[i]`.
pub open spec fn spec_merge_ntt(f0: Seq<int>, f1: Seq<int>) -> Seq<int> {
    let n = 2 * f0.len();
    Seq::new(
        n,
        |k: int|
            if k % 2 == 0 {
                modq(f0[k / 2] + spec_root(n, k as nat) * f1[k / 2])
            } else {
                modq(f0[k / 2] - spec_root(n, (k - 1) as nat) * f1[k / 2])
            },
    )
}

/// The split step, the inverse of the merge step: half the sum of the
/// entries at `2i` and `2i + 1`, and half their difference divided by the
/// root at `2i`.
pub open spec fn spec_split_ntt(f: Seq<int>) -> (Seq<int>, Seq<int>) {
    let n = f.len();
    (
        Seq::new(n / 2, |i: int| modq(I2 * (f[2 * i] + f[2 * i + 1]))),
        Seq::new(
            n / 2,
            |i: int| modq(I2 * (f[2 * i] - f[2 * i + 1]) * spec_inv(spec_root(n, (2 * i) as nat))),
        ),
    )
}

/// The transform of a polynomial: of one coefficient that coefficient, else
/// the merge of the transforms of the even and of the odd part.
pub open spec fn spec_ntt(f: Seq<int>) -> Seq<int>
    decreases f.len(),
{
    if f.len() <= 1 {
        f
    } else {
        spec_merge_ntt(spec_ntt(evens(f)), spec_ntt(odds(f)))
    }
}

/// The inverse transform: of one entry that entry, else the two halves of
/// the split, each transformed back, woven together.
pub open spec fn spec_intt(f: Seq<int>) -> Seq<int>
    decreases f.len(),
{
    if f.len() <= 1 {
        f
    } else {
        let (f0, f1) = spec_split_ntt(f);
        interleave(spec_intt(f0), spec_intt(f1))
    }
}

/// Entry by entry, the residue of the sum.
pub open spec fn spec_add_zq(f: Seq<int>, g: Seq<int>) -> Seq<int> {
    Seq::new(f.len(), |i: int| modq(f[i] + g[i]))
}

/// Entry by entry, the residue of the negative.
pub open spec fn spec_neg_zq(f: Seq<int>) -> Seq<int> {
    Seq::new(f.len(), |i: int| modq(-f[i]))
}

/// Entry by entry, the residue of the difference.
pub open spec fn spec_sub_zq(f: Seq<int>, g: Seq<int>) -> Seq<int> {
    Seq::new(f.len(), |i: int| modq(f[i] - g[i]))
}

/// Entry by entry, the residue of the product.
pub open spec fn spec_mul_ntt(f: Seq<int>, g: Seq<int>) -> Seq<int> {
    Seq::new(f.len(), |i: int| modq(f[i] * g[i]))
}

/// Entry by entry, the residue of the product with the inverse.
pub open spec fn spec_div_ntt(f: Seq<int>, g: Seq<int>) -> Seq<int> {
    Seq::new(f.len(), |i: int| modq(f[i] * spec_inv(modq(g[i]))))
}

/// Whether some entry has residue zero.
pub open spec fn has_zero(g: Seq<int>) -> bool {
    exists|i: int| 0 <= i < g.len() && modq(#[trigger] g[i]) == 0
}

/// The product of two polynomials in the ring modulo `x^n + 1` and `q`, by
/// way of the transform.
pub open spec fn spec_mul_zq(f: Seq<int>, g: Seq<int>) -> Seq<int> {
    spec_intt(spec_mul_ntt(spec_ntt(f), spec_ntt(g)))
}

/// The quotient of two polynomials in that ring, where the divisor has an
/// inverse: where its transform has no zero.
pub open spec fn spec_div_zq(f: Seq<int>, g: Seq<int>) -> Option<Seq<int>> {
    if has_zero(spec_ntt(g)) {
        None
    } else {
        Some(spec_intt(spec_div_ntt(spec_ntt(f), spec_ntt(g))))
    }
}

// ---------------------------------------------------------------------
// Facts
// ---------------------------------------------------------------------

/// Split undoes merge, entry by entry.
pub proof fn lemma_butterfly_inverse(a: int, b: int, w: int)
    requires
        0 <= a < Q,
        0 <= b < Q,
        0 < w < Q,
    ensures
        modq(I2 * (modq(a + w * b) + modq(a - w * b))) == a,
        modq(I2 * (modq(a + w * b) - modq(a - w * b)) * spec_inv(w)) == b,
{
    let x = a + w * b;
    let y = a - w * b;
    let u = modq(x);
    let v = modq(y);
    let iw = spec_inv(w);
    lemma_inv(w);
    lemma_modq_range(x);
    lemma_modq_range(y);
    lemma_modq_range(1);
    lemma_modq_same(u, x);
    lemma_modq_same(v, y);
    lemma_modq_same(w * iw, 1);
    let ku = u / 12289 - x / 12289;
    let kv = v / 12289 - y / 12289;
    let kw = (w * iw) / 12289 - 1int / 12289;
    let wb = w * b;
    assert(u == a + wb + 12289 * ku);
    assert(v == a - wb + 12289 * kv);
    assert(w * iw == 1 + 12289 * kw);
    assert(6145 * (u + v) == a + 12289 * (a + 6145 * (ku + kv)));
    lemma_modq_multiple(a + 6145 * (ku + kv), a);
    let d = 6145 * (u - v);
    assert(d == 12290 * wb + 12289 * (6145 * (ku - kv)));
    assert(d * iw == 12290 * (wb * iw) + 12289 * (6145 * (ku - kv) * iw)) by (nonlinear_arith)
        requires
            d == 12290 * wb + 12289 * (6145 * (ku - kv)),
    ;
    assert(wb * iw == b + 12289 * (b * kw)) by (nonlinear_arith)
        requires
            wb == w * b,
            w * iw == 1 + 12289 * kw,
    ;
    assert(d * iw == b + 12289 * (b + 12290 * (b * kw) + 6145 * (ku - kv) * iw));
    lemma_modq_multiple(b + 12290 * (b * kw) + 6145 * (ku - kv) * iw, b);
}

/// Merge undoes split, entry by entry.
pub proof fn lemma_butterfly_forward(x: int, y: int, w: int)
    requires
        0 <= x < Q,
        0 <= y < Q,
        0 < w < Q,
    ensures
        modq(modq(I2 * (x + y)) + w * modq(I2 * (x - y) * spec_inv(w))) == x,
        modq(modq(I2 * (x + y)) - w * modq(I2 * (x - y) * spec_inv(w))) == y,
{
    let iw = spec_inv(w);
    lemma_inv(w);
    let s0 = 6145 * (x + y);
    let d0 = 6145 * (x - y) * iw;
    let s = modq(s0);
    let d = modq(d0);
    lemma_modq_range(s0);
    lemma_modq_range(d0);
    lemma_modq_range(1);
    lemma_modq_same(s, s0);
    lemma_modq_same(d, d0);
    lemma_modq_same(w * iw, 1);
    let ks = s / 12289 - s0 / 12289;
    let kd = d / 12289 - d0 / 12289;
    let kw = (w * iw) / 12289 - 1int / 12289;
    let e = 6145 * (x - y);
    assert(d == e * iw + 12289 * kd);
    assert(w * d == e * (w * iw) + 12289 * (w * kd)) by (nonlinear_arith)
        requires
            d == e * iw + 12289 * kd,
    ;
    assert(e * (w * iw) == e + 12289 * (e * kw)) by (nonlinear_arith)
        requires
            w * iw == 1 + 12289 * kw,
    ;
    let m = e * kw + w * kd;
    assert(w * d == e + 12289 * m);
    assert(s + w * d == x + 12289 * (x + ks + m));
    assert(s - w * d == y + 12289 * (y + ks - m));
    lemma_modq_multiple(x + ks + m, x);
    lemma_modq_multiple(y + ks - m, y);
}

/// Splitting what was merged gives the two parts back.
pub proof fn lemma_split_of_merge(a: Seq<int>, b: Seq<int>)
    requires
        a.len() == b.len(),
        has_roots(2 * a.len() as int),
        reduced(a),
        reduced(b),
    ensures
        spec_split_ntt(spec_merge_ntt(a, b)) == (a, b),
{
    let n = 2 * a.len();
    let f = spec_merge_ntt(a, b);
    let (a2, b2) = spec_split_ntt(f);
    assert forall|i: int| 0 <= i < a.len() implies a2[i] == a[i] && b2[i] == b[i] by {
        lemma_root_pair(n, i as nat);
        let w = spec_root(n, (2 * i) as nat);
        assert((2 * i) / 2 == i);
        assert((2 * i + 1) / 2 == i);
        assert(f[2 * i] == modq(a[i] + w * b[i]));
        assert(f[2 * i + 1] == modq(a[i] - w * b[i]));
        lemma_butterfly_inverse(a[i], b[i], w);
    }
    assert(a2 =~= a);
    assert(b2 =~= b);
}

/// Merging the two parts of a split gives the whole back.
pub proof fn lemma_merge_of_split(f: Seq<int>)
    requires
        has_roots(f.len() as int),
        reduced(f),
    ensures
        spec_merge_ntt(spec_split_ntt(f).0, spec_split_ntt(f).1) == f,
{
    let n = f.len();
    let (a, b) = spec_split_ntt(f);
    let g = spec_merge_ntt(a, b);
    assert(g.len() == n);
    assert forall|k: int| 0 <= k < n implies g[k] == f[k] by {
        let i = k / 2;
        lemma_root_pair(n, i as nat);
        let w = spec_root(n, (2 * i) as nat);
        lemma_butterfly_forward(f[2 * i], f[2 * i + 1], w);
        assert(a[i] == modq(I2 * (f[2 * i] + f[2 * i + 1])));
        assert(b[i] == modq(I2 * (f[2 * i] - f[2 * i + 1]) * spec_inv(w)));
        if k % 2 == 0 {
            assert(k == 2 * i);
        } else {
            assert(k == 2 * i + 1);
            assert(k - 1 == 2 * i);
        }
    }
    assert(g =~= f);
}

/// The transform keeps the length, and its entries are residues where the
/// coefficients are.
pub proof fn lemma_ntt_shape(f: Seq<int>)
    requires
        valid_size(f.len() as int),
    ensures
        spec_ntt(f).len() == f.len(),
        reduced(f) ==> reduced(spec_ntt(f)),
        f.len() >= 2 ==> reduced(spec_ntt(f)),
    decreases f.len(),
{
    if f.len() > 1 {
        lemma_ntt_shape(evens(f));
        lemma_ntt_shape(odds(f));
        let r = spec_ntt(f);
        assert forall|k: int| 0 <= k < r.len() implies 0 <= #[trigger] r[k] < Q by {
            let a = spec_ntt(evens(f));
            let b = spec_ntt(odds(f));
            let n = (2 * a.len()) as nat;
            lemma_modq_range(a[k / 2] + spec_root(n, k as nat) * b[k / 2]);
            lemma_modq_range(a[k / 2] - spec_root(n, (k - 1) as nat) * b[k / 2]);
        }
    }
}

/// The inverse transform keeps the length, and its entries are residues where
/// those of its argument are.
pub proof fn lemma_intt_shape(f: Seq<int>)
    requires
        valid_size(f.len() as int),
    ensures
        spec_intt(f).len() == f.len(),
        reduced(f) ==> reduced(spec_intt(f)),
        f.len() >= 2 ==> reduced(spec_intt(f)),
    decreases f.len(),
{
    if f.len() > 1 {
        let (a, b) = spec_split_ntt(f);
        lemma_split_shape(f);
        lemma_intt_shape(a);
        lemma_intt_shape(b);
        let r = spec_intt(f);
        assert forall|k: int| 0 <= k < r.len() implies 0 <= #[trigger] r[k] < Q by {
            let x = spec_intt(a);
            let y = spec_intt(b);
            if k % 2 == 0 {
                assert(r[k] == x[k / 2]);
            } else {
                assert(r[k] == y[k / 2]);
            }
        }
    }
}

/// The two halves of a split are half as long, and their entries are
/// residues.
pub proof fn lemma_split_shape(f: Seq<int>)
    ensures
        spec_split_ntt(f).0.len() == f.len() / 2,
        spec_split_ntt(f).1.len() == f.len() / 2,
        reduced(spec_split_ntt(f).0),
        reduced(spec_split_ntt(f).1),
{
    let (a, b) = spec_split_ntt(f);
    let n = f.len();
    assert forall|i: int| 0 <= i < a.len() implies 0 <= #[trigger] a[i] < Q by {
        lemma_modq_range(I2 * (f[2 * i] + f[2 * i + 1]));
    }
    assert forall|i: int| 0 <= i < b.len() implies 0 <= #[trigger] b[i] < Q by {
        lemma_modq_range(I2 * (f[2 * i] - f[2 * i + 1]) * spec_inv(spec_root(n, (2 * i) as nat)));
    }
}

/// Round trip: the inverse transform of the transform of a polynomial of
/// residues is that polynomial.
pub proof fn lemma_intt_ntt(f: Seq<int>)
    requires
        valid_size(f.len() as int),
        reduced(f),
    ensures
        spec_intt(spec_ntt(f)) == f,
    decreases f.len(),
{
    if f.len() > 1 {
        let e = evens(f);
        let o = odds(f);
        let a = spec_ntt(e);
        let b = spec_ntt(o);
        lemma_ntt_shape(e);
        lemma_ntt_shape(o);
        lemma_ntt_shape(f);
        lemma_intt_ntt(e);
        lemma_intt_ntt(o);
        lemma_split_of_merge(a, b);
        assert(interleave(e, o) =~= f);
    }
}

/// Round trip the other way: the transform of the inverse transform of a
/// vector of residues is that vector.
pub proof fn lemma_ntt_intt(f: Seq<int>)
    requires
        valid_size(f.len() as int),
        reduced(f),
    ensures
        spec_ntt(spec_intt(f)) == f,
    decreases f.len(),
{
    if f.len() > 1 {
        let (a, b) = spec_split_ntt(f);
        lemma_split_shape(f);
        lemma_intt_shape(a);
        lemma_intt_shape(b);
        lemma_intt_shape(f);
        lemma_ntt_intt(a);
        lemma_ntt_intt(b);
        let x = spec_intt(a);
        let y = spec_intt(b);
        let g = spec_intt(f);
        assert(evens(g) =~= x);
        assert(odds(g) =~= y);
        lemma_merge_of_split(f);
    }
}

/// Division undoes multiplication: for polynomials of residues `f` and `g`
/// of a valid size, `g` with a transform without zeros, the quotient of
/// `f * g` by `g` is `f`.
pub proof fn lemma_div_of_mul(f: Seq<int>, g: Seq<int>)
    requires
        valid_size(f.len() as int),
        f.len() == g.len(),
        reduced(f),
        reduced(g),
        !has_zero(spec_ntt(g)),
    ensures
        spec_div_zq(spec_mul_zq(f, g), g) == Some(f),
{
    let ff = spec_ntt(f);
    let gg = spec_ntt(g);
    lemma_ntt_shape(f);
    lemma_ntt_shape(g);
    let hh = spec_mul_ntt(ff, gg);
    assert forall|i: int| 0 <= i < hh.len() implies 0 <= #[trigger] hh[i] < Q by {
        lemma_modq_range(ff[i] * gg[i]);
    }
    lemma_ntt_intt(hh);
    let back = spec_div_ntt(hh, gg);
    assert forall|i: int| 0 <= i < ff.len() implies back[i] == ff[i] by {
        let x = ff[i];
        let y = gg[i];
        lemma_modq_range(y);
        assert(modq(y) != 0);
        let iy = spec_inv(y);
        lemma_inv(y);
        // (x * y) * iy == x * (y * iy) == x, all modulo q
        lemma_modq_mul(x * y, iy);
        assert((x * y) * iy == x * (y * iy)) by (nonlinear_arith);
        lemma_modq_mul(x, y * iy);
        assert(x * 1 == x) by (nonlinear_arith);
        lemma_modq_range(x);
    }
    assert(back =~= ff);
    lemma_intt_ntt(f);
}

/// Multiplication undoes division: for polynomials of residues `f` and `g`
/// of a valid size, `g` with a transform without zeros, the product of the
/// quotient of `f` by `g` with `g` is `f`.
pub proof fn lemma_mul_of_div(f: Seq<int>, g: Seq<int>)
    requires
        valid_size(f.len() as int),
        f.len() == g.len(),
        reduced(f),
        reduced(g),
        !has_zero(spec_ntt(g)),
    ensures
        spec_div_zq(f, g).is_some(),
        spec_mul_zq(spec_div_zq(f, g).unwrap(), g) == f,
{
    let ff = spec_ntt(f);
    let gg = spec_ntt(g);
    lemma_ntt_shape(f);
    lemma_ntt_shape(g);
    let dd = spec_div_ntt(ff, gg);
    assert forall|i: int| 0 <= i < dd.len() implies 0 <= #[trigger] dd[i] < Q by {
        lemma_modq_range(ff[i] * spec_inv(modq(gg[i])));
    }
    lemma_ntt_intt(dd);
    let back = spec_mul_ntt(dd, gg);
    assert forall|i: int| 0 <= i < ff.len() implies back[i] == ff[i] by {
        let x = ff[i];
        let y = gg[i];
        lemma_modq_range(y);
        assert(modq(y) != 0);
        let iy = spec_inv(y);
        lemma_inv(y);
        // (x * iy) * y == x * (y * iy) == x, all modulo q
        lemma_modq_mul(x * iy, y);
        assert((x * iy) * y == x * (y * iy)) by (nonlinear_arith);
        lemma_modq_mul(x, y * iy);
        assert(x * 1 == x) by (nonlinear_arith);
        lemma_modq_range(x);
    }
    assert(back =~= ff);
    lemma_intt_ntt(f);
}

// ---------------------------------------------------------------------
// Arithmetic on residues
// ---------------------------------------------------------------------

/// The residue of a product.
fn mul_mod(a: u32, b: u32) -> (r: u32)
    ensures
        r == modq(a * b),
        r < Q,
{
    assert(a * b <= 0xffff_ffff * 0xffff_ffff) by (nonlinear_arith)
        requires
            0 <= a <= 0xffff_ffff,
            0 <= b <= 0xffff_ffff,
    ;
    assert(a * b >= 0) by (nonlinear_arith)
        requires
            0 <= a,
            0 <= b,
    ;
    (((a as u64) * (b as u64)) % 12289) as u32
}

/// The residue of a sum.
fn add_mod(a: u32, b: u32) -> (r: u32)
    ensures
        r == modq(a + b),
        r < Q,
{
    (((a as u64) + (b as u64)) % 12289) as u32
}

/// The residue of a difference.
fn sub_mod(a: u32, b: u32) -> (r: u32)
    ensures
        r == modq(a - b),
        r < Q,
{
    proof {
        lemma_modq_sub(a as int, b as int);
        lemma_modq_multiple(1, modq(a as int) - modq(b as int));
    }
    (((a % 12289) as u64 + 12289 - ((b % 12289) as u64)) % 12289) as u32
}

// ---------------------------------------------------------------------
// The transform
// ---------------------------------------------------------------------

/// The merge step with the root table at hand.
fn merge_with(f0_ntt: &[u32], f1_ntt: &[u32], w: &Vec<u32>) -> (f_ntt: Vec<u32>)
    requires
        f0_ntt.len() == f1_ntt.len(),
        has_roots(2 * f0_ntt.len()),
        w@ == roots_of((2 * f0_ntt.len()) as nat),
    ensures
        uints(f_ntt@) == spec_merge_ntt(uints(f0_ntt@), uints(f1_ntt@)),
{
    let h: usize = f0_ntt.len();
    let ghost n: nat = (2 * h) as nat;
    let ghost a = uints(f0_ntt@);
    let ghost b = uints(f1_ntt@);
    let mut f_ntt: Vec<u32> = Vec::new();
    let mut i: usize = 0;
    while i < h
        invariant
            i <= h,
            h == f0_ntt.len(),
            h == f1_ntt.len(),
            n == 2 * h,
            has_roots(n as int),
            w@ == roots_of(n),
            a == uints(f0_ntt@),
            b == uints(f1_ntt@),
            f_ntt@.len() == 2 * i,
            forall|k: int| 0 <= k < 2 * i ==> f_ntt@[k] as int == spec_merge_ntt(a, b)[k],
        decreases h - i,
    {
        proof {
            lemma_root_pair(n, i as nat);
            assert((2 * i) / 2 == i);
            assert((2 * i + 1) / 2 == i);
            assert(w@[2 * i] == spec_root(n, (2 * i) as nat));
            lemma_modq_add(a[i as int], w@[2 * i] * b[i as int]);
            lemma_modq_sub(a[i as int], w@[2 * i] * b[i as int]);
        }
        let prod: u32 = mul_mod(w[2 * i], f1_ntt[i]);
        f_ntt.push(add_mod(f0_ntt[i], prod));
        f_ntt.push(sub_mod(f0_ntt[i], prod));
        i += 1;
    }
    assert(uints(f_ntt@) =~= spec_merge_ntt(a, b));
    f_ntt
}

/// The split step with the tables at hand.
fn split_with(f_ntt: &[u32], w: &Vec<u32>, inv: &Vec<u32>) -> (r: (Vec<u32>, Vec<u32>))
    requires
        has_roots(f_ntt.len() as int),
        w@ == roots_of(f_ntt.len() as nat),
        inv@ == spec_inv_table(),
    ensures
        (uints(r.0@), uints(r.1@)) == spec_split_ntt(uints(f_ntt@)),
{
    let n: usize = f_ntt.len();
    let h: usize = n / 2;
    let ghost f = uints(f_ntt@);
    let mut f0_ntt: Vec<u32> = Vec::new();
    let mut f1_ntt: Vec<u32> = Vec::new();
    let mut i: usize = 0;
    while i < h
        invariant
            i <= h,
            h == n / 2,
            n == f_ntt.len(),
            has_roots(n as int),
            w@ == roots_of(n as nat),
            inv@ == spec_inv_table(),
            f == uints(f_ntt@),
            f0_ntt@.len() == i,
            f1_ntt@.len() == i,
            forall|j: int| 0 <= j < i ==> f0_ntt@[j] as int == spec_split_ntt(f).0[j],
            forall|j: int| 0 <= j < i ==> f1_ntt@[j] as int == spec_split_ntt(f).1[j],
        decreases h - i,
    {
        let x: u32 = f_ntt[2 * i];
        let y: u32 = f_ntt[2 * i + 1];
        let root: u32 = w[2 * i];
        proof {
            lemma_root_pair(n as nat, i as nat);
            assert(root == spec_root(n as nat, (2 * i) as nat));
            lemma_inv(root as int);
            assert(inv@[root as int] == spec_inv(root as int));
            lemma_modq_mul(6145, x + y);
            lemma_modq_mul(6145, x - y);
            lemma_modq_mul(6145 * (x - y), spec_inv(root as int));
        }
        let sum: u32 = add_mod(x, y);
        let diff: u32 = sub_mod(x, y);
        f0_ntt.push(mul_mod(I2, sum));
        f1_ntt.push(mul_mod(mul_mod(I2, diff), inv[root as usize]));
        i += 1;
    }
    assert(uints(f0_ntt@) =~= spec_split_ntt(f).0);
    assert(uints(f1_ntt@) =~= spec_split_ntt(f).1);
    (f0_ntt, f1_ntt)
}

/// Splits a transformed vector into the transforms of the even and of the
/// odd part of what it is the transform of.
pub fn split_ntt(f_ntt: &[u32]) -> (r: (Vec<u32>, Vec<u32>))
    requires
        has_roots(f_ntt.len() as int),
    ensures
        (uints(r.0@), uints(r.1@)) == spec_split_ntt(uints(f_ntt@)),
{
    let dict = get_roots_dict();
    let inv = get_inv_mod_q();
    proof {
        lemma_dict_lookup(dict@, f_ntt.len());
    }
    split_with(f_ntt, table_of(&dict, f_ntt.len()), &inv)
}

/// Merges the transforms of the even and of the odd part of a polynomial
/// into the transform of the polynomial.
pub fn merge_ntt(f0_ntt: &[u32], f1_ntt: &[u32]) -> (f_ntt: Vec<u32>)
    requires
        f0_ntt.len() == f1_ntt.len(),
        has_roots(2 * f0_ntt.len()),
    ensures
        uints(f_ntt@) == spec_merge_ntt(uints(f0_ntt@), uints(f1_ntt@)),
{
    let dict = get_roots_dict();
    proof {
        lemma_dict_lookup(dict@, (2 * f0_ntt.len()) as usize);
    }
    merge_with(f0_ntt, f1_ntt, table_of(&dict, 2 * f0_ntt.len()))
}

/// The transform with the root tables at hand.
fn ntt_with(f: &[u32], dict: &HashMap<usize, Vec<u32>>) -> (f_ntt: Vec<u32>)
    requires
        valid_size(f.len() as int),
        dict_view(dict@) == spec_roots_dict(),
    ensures
        uints(f_ntt@) == spec_ntt(uints(f@)),
    decreases f.len(),
{
    let n: usize = f.len();
    let ghost p = uints(f@);
    if n == 1 {
        slice_to_vec(f)
    } else if n == 2 {
        proof {
            lemma_root_of_two();
            let e = evens(p);
            let o = odds(p);
            assert(spec_ntt(e) == e);
            assert(spec_ntt(o) == o);
            lemma_modq_add(p[0], 1479 * p[1]);
            lemma_modq_sub(p[0], 1479 * p[1]);
        }
        let prod: u32 = mul_mod(SQR1, f[1]);
        let mut f_ntt: Vec<u32> = Vec::new();
        f_ntt.push(add_mod(f[0], prod));
        f_ntt.push(sub_mod(f[0], prod));
        assert(uints(f_ntt@) =~= spec_ntt(p));
        f_ntt
    } else {
        let (f0, f1) = split(f);
        proof {
            assert(uints(f0@) =~= evens(p));
            assert(uints(f1@) =~= odds(p));
        }
        let f0_ntt = ntt_with(f0.as_slice(), dict);
        let f1_ntt = ntt_with(f1.as_slice(), dict);
        proof {
            lemma_ntt_shape(evens(p));
            lemma_ntt_shape(odds(p));
            assert(uints(f0_ntt@).len() == f0_ntt@.len());
            assert(uints(f1_ntt@).len() == f1_ntt@.len());
            lemma_dict_lookup(dict@, n);
        }
        merge_with(f0_ntt.as_slice(), f1_ntt.as_slice(), table_of(dict, n))
    }
}

/// The inverse transform with the tables at hand.
fn intt_with(f_ntt: &[u32], dict: &HashMap<usize, Vec<u32>>, inv: &Vec<u32>) -> (f: Vec<u32>)
    requires
        valid_size(f_ntt.len() as int),
        dict_view(dict@) == spec_roots_dict(),
        inv@ == spec_inv_table(),
    ensures
        uints(f@) == spec_intt(uints(f_ntt@)),
    decreases f_ntt.len(),
{
    let n: usize = f_ntt.len();
    let ghost p = uints(f_ntt@);
    if n == 1 {
        slice_to_vec(f_ntt)
    } else {
        proof {
            lemma_dict_lookup(dict@, n);
        }
        let (f0_ntt, f1_ntt) = split_with(f_ntt, table_of(dict, n), inv);
        proof {
            lemma_split_shape(p);
            assert(uints(f0_ntt@).len() == f0_ntt@.len());
            assert(uints(f1_ntt@).len() == f1_ntt@.len());
        }
        let f0 = intt_with(f0_ntt.as_slice(), dict, inv);
        let f1 = intt_with(f1_ntt.as_slice(), dict, inv);
        proof {
            lemma_intt_shape(spec_split_ntt(p).0);
            lemma_intt_shape(spec_split_ntt(p).1);
            assert(uints(f0@).len() == f0@.len());
            assert(uints(f1@).len() == f1@.len());
        }
        let h: usize = n / 2;
        let mut f: Vec<u32> = Vec::new();
        let mut i: usize = 0;
        while i < h
            invariant
                i <= h,
                h == f0@.len(),
                h == f1@.len(),
                f@.len() == 2 * i,
                forall|k: int|
                    0 <= k < 2 * i ==> f@[k] == (if k % 2 == 0 {
                        f0@[k / 2]
                    } else {
                        f1@[k / 2]
                    }),
            decreases h - i,
        {
            f.push(f0[i]);
            f.push(f1[i]);
            i += 1;
        }
        assert(uints(f@) =~= interleave(uints(f0@), uints(f1@)));
        f
    }
}

/// The transform of a polynomial whose length is a power of two from 1 to
/// 1024.
pub fn ntt(f: &[u32]) -> (f_ntt: Vec<u32>)
    requires
        valid_size(f.len() as int),
    ensures
        uints(f_ntt@) == spec_ntt(uints(f@)),
        f_ntt@.len() == f@.len(),
        reduced(uints(f@)) ==> spec_intt(uints(f_ntt@)) == uints(f@),
        forall|k: int|
            0 <= k < f@.len() ==> modq(#[trigger] f_ntt@[k] as int) == modq(
                eval(uints(f@), spec_root(f@.len(), k as nat)),
            ),
{
    let dict = get_roots_dict();
    let f_ntt = ntt_with(f, &dict);
    proof {
        lemma_ntt_shape(uints(f@));
        assert(uints(f_ntt@).len() == f_ntt@.len());
        if reduced(uints(f@)) {
            lemma_intt_ntt(uints(f@));
        }
        assert forall|k: int| 0 <= k < f@.len() implies modq(#[trigger] f_ntt@[k] as int)
            == modq(eval(uints(f@), spec_root(f@.len(), k as nat))) by {
            lemma_ntt_is_evaluation(uints(f@), k);
            assert(uints(f_ntt@)[k] == f_ntt@[k]);
        }
    }
    f_ntt
}

/// The inverse transform of a vector whose length is a power of two from 1
/// to 1024.
pub fn intt(f_ntt: &[u32]) -> (f: Vec<u32>)
    requires
        valid_size(f_ntt.len() as int),
    ensures
        uints(f@) == spec_intt(uints(f_ntt@)),
        f@.len() == f_ntt@.len(),
        reduced(uints(f_ntt@)) ==> spec_ntt(uints(f@)) == uints(f_ntt@),
{
    let dict = get_roots_dict();
    let inv = get_inv_mod_q();
    let f = intt_with(f_ntt, &dict, &inv);
    proof {
        lemma_intt_shape(uints(f_ntt@));
        assert(uints(f@).len() == f@.len());
        if reduced(uints(f_ntt@)) {
            lemma_ntt_intt(uints(f_ntt@));
        }
    }
    f
}


// ---------------------------------------------------------------------
// Ring operations
// ---------------------------------------------------------------------

/// Sum of two polynomials modulo `q`, coefficient by coefficient.
pub fn add_zq(f: &[u32], g: &[u32]) -> (r: Vec<u32>)
    requires
        f.len() == g.len(),
    ensures
        uints(r@) == spec_add_zq(uints(f@), uints(g@)),
{
    let n: usize = f.len();
    let mut r: Vec<u32> = Vec::new();
    let mut i: usize = 0;
    while i < n
        invariant
            i <= n,
            n == f.len(),
            n == g.len(),
            r@.len() == i,
            forall|j: int| 0 <= j < i ==> r@[j] as int == spec_add_zq(uints(f@), uints(g@))[j],
        decreases n - i,
    {
        r.push(add_mod(f[i], g[i]));
        i += 1;
    }
    assert(uints(r@) =~= spec_add_zq(uints(f@), uints(g@)));
    r
}

/// Negative of a polynomial modulo `q`, coefficient by coefficient.
pub fn neg_zq(f: &[u32]) -> (r: Vec<u32>)
    ensures
        uints(r@) == spec_neg_zq(uints(f@)),
{
    let n: usize = f.len();
    let mut r: Vec<u32> = Vec::new();
    let mut i: usize = 0;
    while i < n
        invariant
            i <= n,
            n == f.len(),
            r@.len() == i,
            forall|j: int| 0 <= j < i ==> r@[j] as int == spec_neg_zq(uints(f@))[j],
        decreases n - i,
    {
        r.push(sub_mod(0, f[i]));
        i += 1;
    }
    assert(uints(r@) =~= spec_neg_zq(uints(f@)));
    r
}

/// Difference of two polynomials modulo `q`, coefficient by coefficient.
pub fn sub_zq(f: &[u32], g: &[u32]) -> (r: Vec<u32>)
    requires
        f.len() == g.len(),
    ensures
        uints(r@) == spec_sub_zq(uints(f@), uints(g@)),
{
    let n: usize = f.len();
    let mut r: Vec<u32> = Vec::new();
    let mut i: usize = 0;
    while i < n
        invariant
            i <= n,
            n == f.len(),
            n == g.len(),
            r@.len() == i,
            forall|j: int| 0 <= j < i ==> r@[j] as int == spec_sub_zq(uints(f@), uints(g@))[j],
        decreases n - i,
    {
        r.push(sub_mod(f[i], g[i]));
        i += 1;
    }
    assert(uints(r@) =~= spec_sub_zq(uints(f@), uints(g@)));
    r
}

/// Sum of two transformed vectors: entry by entry, as for polynomials.
pub fn add_ntt(f: &[u32], g: &[u32]) -> (r: Vec<u32>)
    requires
        f.len() == g.len(),
    ensures
        uints(r@) == spec_add_zq(uints(f@), uints(g@)),
{
    let n: usize = f.len();
    let mut r: Vec<u32> = Vec::new();
    let mut i: usize = 0;
    while i < n
        invariant
            i <= n,
            n == f.len(),
            n == g.len(),
            r@.len() == i,
            forall|j: int| 0 <= j < i ==> r@[j] as int == spec_add_zq(uints(f@), uints(g@))[j],
        decreases n - i,
    {
        r.push(add_mod(f[i], g[i]));
        i += 1;
    }
    assert(uints(r@) =~= spec_add_zq(uints(f@), uints(g@)));
    r
}

/// Difference of two transformed vectors: entry by entry, as for polynomials.
pub fn sub_ntt(f: &[u32], g: &[u32]) -> (r: Vec<u32>)
    requires
        f.len() == g.len(),
    ensures
        uints(r@) == spec_sub_zq(uints(f@), uints(g@)),
{
    let n: usize = f.len();
    let mut r: Vec<u32> = Vec::new();
    let mut i: usize = 0;
    while i < n
        invariant
            i <= n,
            n == f.len(),
            n == g.len(),
            r@.len() == i,
            forall|j: int| 0 <= j < i ==> r@[j] as int == spec_sub_zq(uints(f@), uints(g@))[j],
        decreases n - i,
    {
        r.push(sub_mod(f[i], g[i]));
        i += 1;
    }
    assert(uints(r@) =~= spec_sub_zq(uints(f@), uints(g@)));
    r
}

/// Product of two transformed vectors, entry by entry: the transform of the
/// product of what they are the transforms of.
pub fn mul_ntt(f: &[u32], g: &[u32]) -> (r: Vec<u32>)
    requires
        f.len() == g.len(),
    ensures
        uints(r@) == spec_mul_ntt(uints(f@), uints(g@)),
{
    let n: usize = f.len();
    let mut r: Vec<u32> = Vec::new();
    let mut i: usize = 0;
    while i < n
        invariant
            i <= n,
            n == f.len(),
            n == g.len(),
            r@.len() == i,
            forall|j: int| 0 <= j < i ==> r@[j] as int == spec_mul_ntt(uints(f@), uints(g@))[j],
        decreases n - i,
    {
        r.push(mul_mod(f[i], g[i]));
        i += 1;
    }
    assert(uints(r@) =~= spec_mul_ntt(uints(f@), uints(g@)));
    r
}

/// Entry-by-entry quotient with the table of inverses at hand; `None` where
/// an entry of the divisor has residue zero.
fn div_entries(f: &[u32], g: &[u32], inv: &Vec<u32>) -> (r: Option<Vec<u32>>)
    requires
        f.len() == g.len(),
        inv@ == spec_inv_table(),
    ensures
        r.is_none() == has_zero(uints(g@)),
        r.is_some() ==> uints(r.unwrap()@) == spec_div_ntt(uints(f@), uints(g@)),
{
    let n: usize = f.len();
    let ghost gg = uints(g@);
    let mut r: Vec<u32> = Vec::new();
    let mut i: usize = 0;
    while i < n
        invariant
            i <= n,
            n == f.len(),
            n == g.len(),
            gg == uints(g@),
            inv@ == spec_inv_table(),
            r@.len() == i,
            forall|j: int| 0 <= j < i ==> modq(#[trigger] gg[j]) != 0,
            forall|j: int| 0 <= j < i ==> r@[j] as int == spec_div_ntt(uints(f@), gg)[j],
        decreases n - i,
    {
        let b: u32 = g[i] % 12289;
        if b == 0 {
            assert(modq(gg[i as int]) == 0);
            return None;
        }
        proof {
            assert(modq(gg[i as int]) == b);
            lemma_inv(b as int);
            assert(inv@[b as int] == spec_inv(b as int));
        }
        r.push(mul_mod(f[i], inv[b as usize]));
        i += 1;
    }
    assert(uints(r@) =~= spec_div_ntt(uints(f@), gg));
    Some(r)
}

/// Quotient of two transformed vectors, entry by entry. No entry of the
/// divisor may have residue zero.
pub fn div_ntt(f_ntt: &[u32], g_ntt: &[u32]) -> (r: Vec<u32>)
    requires
        f_ntt.len() == g_ntt.len(),
        !has_zero(uints(g_ntt@)),
    ensures
        uints(r@) == spec_div_ntt(uints(f_ntt@), uints(g_ntt@)),
{
    let inv = get_inv_mod_q();
    div_entries(f_ntt, g_ntt, &inv).unwrap()
}

/// Product of two polynomials in the ring modulo `x^n + 1` and `q`:
/// transform, multiply entry by entry, transform back.
pub fn mul_zq(f: &[u32], g: &[u32]) -> (r: Vec<u32>)
    requires
        f.len() == g.len(),
        valid_size(f.len() as int),
    ensures
        uints(r@) == spec_mul_zq(uints(f@), uints(g@)),
        reduced(uints(f@)) && reduced(uints(g@)) ==> uints(r@) == reduce(
            ring_mul(uints(f@), uints(g@)),
        ),
{
    let dict = get_roots_dict();
    let inv = get_inv_mod_q();
    let f_ntt = ntt_with(f, &dict);
    let g_ntt = ntt_with(g, &dict);
    proof {
        lemma_ntt_shape(uints(f@));
        lemma_ntt_shape(uints(g@));
        assert(uints(f_ntt@).len() == f_ntt@.len());
        assert(uints(g_ntt@).len() == g_ntt@.len());
        if reduced(uints(f@)) && reduced(uints(g@)) {
            lemma_mul_zq_is_ring_mul(uints(f@), uints(g@));
            assert(reduce(uints(f@)) =~= uints(f@));
            assert(reduce(uints(g@)) =~= uints(g@));
        }
    }
    let h_ntt = mul_ntt(f_ntt.as_slice(), g_ntt.as_slice());
    assert(uints(h_ntt@).len() == h_ntt@.len());
    intt_with(h_ntt.as_slice(), &dict, &inv)
}

/// View of the result of a division: the quotient, or nothing.
pub open spec fn quotient_view(r: Result<Vec<u32>, &'static str>) -> Option<Seq<int>> {
    match r {
        Ok(v) => Some(uints(v@)),
        Err(_) => None,
    }
}

/// Quotient of two polynomials in the ring modulo `x^n + 1` and `q`:
/// transform, divide entry by entry, transform back. Where an entry of the
/// divisor's transform is zero the divisor has no inverse, and the result is
/// the error `"ZeroDivisionError"`.
pub fn div_zq(f: &[u32], g: &[u32]) -> (r: Result<Vec<u32>, &'static str>)
    requires
        f.len() == g.len(),
        valid_size(f.len() as int),
    ensures
        quotient_view(r) == spec_div_zq(uints(f@), uints(g@)),
        r is Err <==> has_zero(spec_ntt(uints(g@))),
        r is Err ==> r->Err_0@ == "ZeroDivisionError"@,
        r is Ok && reduced(uints(f@)) && reduced(uints(g@)) ==> spec_mul_zq(
            uints(r->Ok_0@),
            uints(g@),
        ) == uints(f@),
{
    let dict = get_roots_dict();
    let inv = get_inv_mod_q();
    let f_ntt = ntt_with(f, &dict);
    let g_ntt = ntt_with(g, &dict);
    proof {
        lemma_ntt_shape(uints(f@));
        lemma_ntt_shape(uints(g@));
        assert(uints(f_ntt@).len() == f_ntt@.len());
        assert(uints(g_ntt@).len() == g_ntt@.len());
        if !has_zero(spec_ntt(uints(g@))) && reduced(uints(f@)) && reduced(uints(g@)) {
            lemma_mul_of_div(uints(f@), uints(g@));
        }
    }
    match div_entries(f_ntt.as_slice(), g_ntt.as_slice(), &inv) {
        None => Err("ZeroDivisionError"),
        Some(h_ntt) => {
            assert(uints(h_ntt@).len() == h_ntt@.len());
            Ok(intt_with(h_ntt.as_slice(), &dict, &inv))
        },
    }
}

} // verus!
