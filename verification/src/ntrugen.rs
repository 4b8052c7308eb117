//! Exact arithmetic in the ring of integer polynomials modulo `x^n + 1`, as
//! key generation needs it.

use crate::poly::{
    abs, coef, conv, conv_upto, evens, is_pow2, norm1, odds, poly_add, poly_mul, ring_mul,
};
use crate::poly::{
    lemma_conv_add_left, lemma_conv_add_right, lemma_conv_bound, lemma_conv_zero,
    lemma_karatsuba_step, lemma_norm1_add, lemma_norm1_concat, lemma_norm1_index,
    lemma_norm1_nonneg, lemma_pow2_half,
};
use vstd::prelude::*;
use vstd::slice::slice_subrange;

verus! {

// ---------------------------------------------------------------------
// Models
// ---------------------------------------------------------------------

/// A coefficient vector as a polynomial over the integers.
pub open spec fn ints(s: Seq<i64>) -> Seq<int> {
    Seq::new(s.len(), |i: int| s[i] as int)
}

/// Whether the product of two polynomials can be computed in 64-bit
/// arithmetic: the two norms and their product are within range.
pub open spec fn product_fits(a: Seq<int>, b: Seq<int>) -> bool {
    norm1(a) <= i64::MAX && norm1(b) <= i64::MAX && norm1(a) * norm1(b) <= i64::MAX
}

/// The polynomial with the sign of every odd coefficient changed: its image
/// under `x -> -x`.
pub open spec fn spec_conjugate(a: Seq<int>) -> Seq<int> {
    Seq::new(
        a.len(),
        |i: int|
            if i % 2 == 0 {
                a[i]
            } else {
                -a[i]
            },
    )
}

/// The polynomial `a(x^2)`: the coefficients of `a` at the even positions,
/// zeros between them.
pub open spec fn spec_lift(a: Seq<int>) -> Seq<int> {
    Seq::new(
        2 * a.len(),
        |k: int|
            if k % 2 == 0 {
                a[k / 2]
            } else {
                0
            },
    )
}

/// The norm of `a` down to the ring of half the degree. With `e` and `o` the
/// even and the odd part of `a`, it is `e^2 - x * o^2` modulo `x^h + 1`.
pub open spec fn spec_field_norm(a: Seq<int>) -> Seq<int> {
    let e = evens(a);
    let o = odds(a);
    let h = a.len() / 2;
    Seq::new(
        h,
        |i: int|
            if i == 0 {
                ring_mul(e, e)[0] + ring_mul(o, o)[h - 1]
            } else {
                ring_mul(e, e)[i] - ring_mul(o, o)[i - 1]
            },
    )
}

/// Number of bytes that it takes to write `m` down.
pub open spec fn byte_len(m: nat) -> nat
    decreases m,
{
    if m == 0 {
        0
    } else {
        1 + byte_len(m / 256)
    }
}

/// The greatest common divisor of two natural numbers.
pub open spec fn gcd(a: nat, b: nat) -> nat
    decreases b,
{
    if b == 0 {
        a
    } else {
        gcd(b, a % b)
    }
}

/// Division that rounds towards zero.
pub open spec fn trunc_div(b: int, n: int) -> int {
    if (b < 0) == (n < 0) {
        abs(b) / abs(n)
    } else {
        -(abs(b) / abs(n))
    }
}

/// What is left after division that rounds towards zero; it has the sign of
/// the dividend.
pub open spec fn trunc_rem(b: int, n: int) -> int {
    if b < 0 {
        -(abs(b) % abs(n))
    } else {
        abs(b) % abs(n)
    }
}

// ---------------------------------------------------------------------
// Facts
// ---------------------------------------------------------------------

/// Norms of parts multiply to no more than the norms of the wholes.
pub proof fn lemma_part_products(s0: int, s1: int, t0: int, t1: int)
    requires
        s0 >= 0,
        s1 >= 0,
        t0 >= 0,
        t1 >= 0,
    ensures
        s0 * t0 >= 0,
        s1 * t1 >= 0,
        s0 * t1 >= 0,
        s1 * t0 >= 0,
        s0 * t0 + s1 * t1 <= (s0 + s1) * (t0 + t1),
        s0 * t1 + s1 * t0 <= (s0 + s1) * (t0 + t1),
        (s0 + s1) * (t0 + t1) == s0 * t0 + s0 * t1 + s1 * t0 + s1 * t1,
{
    assert(s0 * t0 >= 0) by (nonlinear_arith)
        requires
            s0 >= 0,
            t0 >= 0,
    ;
    assert(s1 * t1 >= 0) by (nonlinear_arith)
        requires
            s1 >= 0,
            t1 >= 0,
    ;
    assert(s0 * t1 >= 0) by (nonlinear_arith)
        requires
            s0 >= 0,
            t1 >= 0,
    ;
    assert(s1 * t0 >= 0) by (nonlinear_arith)
        requires
            s1 >= 0,
            t0 >= 0,
    ;
    assert((s0 + s1) * (t0 + t1) == s0 * t0 + s0 * t1 + s1 * t0 + s1 * t1) by (nonlinear_arith);
}

/// A smaller pair of norms fits where a larger one does.
pub proof fn lemma_fits_smaller(a: Seq<int>, b: Seq<int>, c: Seq<int>, d: Seq<int>)
    requires
        product_fits(a, b),
        norm1(c) <= norm1(a),
        norm1(d) <= norm1(b),
    ensures
        product_fits(c, d),
        norm1(c) * norm1(d) <= norm1(a) * norm1(b),
{
    lemma_norm1_nonneg(c);
    lemma_norm1_nonneg(d);
    assert(norm1(c) * norm1(d) <= norm1(a) * norm1(b)) by (nonlinear_arith)
        requires
            0 <= norm1(c) <= norm1(a),
            0 <= norm1(d) <= norm1(b),
    ;
}

/// The bounds that the three half-size products of one multiplication step
/// keep: with `n` the product of the norms of the two whole factors, the sum
/// of the low and the high product, the middle term and every coefficient of
/// the whole product are at most `n` in absolute value.
pub proof fn lemma_step_bounds(a0: Seq<int>, a1: Seq<int>, b0: Seq<int>, b1: Seq<int>, i: int)
    requires
        a0.len() == a1.len(),
        b0.len() == b1.len(),
        a0.len() == b0.len(),
    ensures
        abs(conv(a0, b0, i) + conv(a1, b1, i)) <= norm1(a0 + a1) * norm1(b0 + b1),
        abs(
            conv(poly_add(a0, a1), poly_add(b0, b1), i) - (conv(a0, b0, i) + conv(a1, b1, i)),
        ) <= norm1(a0 + a1) * norm1(b0 + b1),
{
    lemma_norm1_concat(a0, a1);
    lemma_norm1_concat(b0, b1);
    lemma_norm1_nonneg(a0);
    lemma_norm1_nonneg(a1);
    lemma_norm1_nonneg(b0);
    lemma_norm1_nonneg(b1);
    lemma_part_products(norm1(a0), norm1(a1), norm1(b0), norm1(b1));
    lemma_conv_bound(a0, b0, i);
    lemma_conv_bound(a1, b1, i);
    lemma_conv_bound(a0, b1, i);
    lemma_conv_bound(a1, b0, i);
    let bx = poly_add(b0, b1);
    lemma_conv_add_left(a0, a1, bx, i);
    lemma_conv_add_right(a0, b0, b1, i);
    lemma_conv_add_right(a1, b0, b1, i);
}

/// Two coefficients of a polynomial that lie at least its length apart are
/// not both there, so their difference is no larger than the norm.
pub proof fn lemma_coef_pair_bound(b: Seq<int>, j: int, n: int)
    requires
        n >= b.len(),
    ensures
        abs(coef(b, j) - coef(b, j + n)) <= norm1(b),
{
    lemma_norm1_nonneg(b);
    if 0 <= j < b.len() {
        lemma_norm1_index(b, j);
    }
    if 0 <= j + n < b.len() {
        lemma_norm1_index(b, j + n);
    }
}

/// No coefficient of a product modulo `x^n + 1` is larger in absolute value
/// than the product of the norms (for the first `m` coefficients of the left
/// factor).
pub proof fn lemma_ring_upto_bound(a: Seq<int>, b: Seq<int>, k: int, n: int, m: nat)
    requires
        m <= a.len(),
        n >= b.len(),
    ensures
        abs(conv_upto(a, b, k, m) - conv_upto(a, b, k + n, m)) <= norm1(a.take(m as int))
            * norm1(b),
    decreases m,
{
    let nb = norm1(b);
    lemma_norm1_nonneg(b);
    if m == 0 {
        assert(a.take(0).len() == 0);
        assert(norm1(a.take(0)) * nb == 0) by (nonlinear_arith)
            requires
                norm1(a.take(0)) == 0,
        ;
    } else {
        let p = (m - 1) as nat;
        lemma_ring_upto_bound(a, b, k, n, p);
        let t = a.take(m as int);
        assert(t.drop_last() =~= a.take(p as int));
        assert(t.last() == a[m - 1]);
        let x = a[m - 1];
        let y = coef(b, k - (m - 1));
        let z = coef(b, k + n - (m - 1));
        lemma_coef_pair_bound(b, k - (m - 1), n);
        let np = norm1(a.take(p as int));
        assert(abs(x * y - x * z) <= abs(x) * nb) by (nonlinear_arith)
            requires
                abs(y - z) <= nb,
                nb >= 0,
        ;
        assert((np + abs(x)) * nb == np * nb + abs(x) * nb) by (nonlinear_arith);
    }
}

/// No coefficient of a product modulo `x^n + 1` is larger in absolute value
/// than the product of the norms.
pub proof fn lemma_ring_bound(a: Seq<int>, b: Seq<int>, k: int)
    requires
        a.len() == b.len(),
    ensures
        abs(conv(a, b, k) - conv(a, b, k + a.len())) <= norm1(a) * norm1(b),
{
    lemma_ring_upto_bound(a, b, k, a.len() as int, a.len());
    assert(a.take(a.len() as int) =~= a);
}

/// The norm of a polynomial is the sum of the norms of its even and its odd
/// part.
pub proof fn lemma_norm1_evens_odds(a: Seq<int>)
    requires
        a.len() % 2 == 0,
    ensures
        norm1(a) == norm1(evens(a)) + norm1(odds(a)),
    decreases a.len(),
{
    if a.len() > 0 {
        let d = a.drop_last();
        let b = d.drop_last();
        lemma_norm1_evens_odds(b);
        assert(norm1(a) == norm1(d) + abs(a.last()));
        assert(norm1(d) == norm1(b) + abs(d.last()));
        assert(norm1(evens(a)) == norm1(evens(a).drop_last()) + abs(evens(a).last()));
        assert(norm1(odds(a)) == norm1(odds(a).drop_last()) + abs(odds(a).last()));
        assert(evens(a).drop_last() =~= evens(b));
        assert(odds(a).drop_last() =~= odds(b));
        assert(evens(a).last() == a[a.len() - 2]);
        assert(odds(a).last() == a[a.len() - 1]);
        assert(a.drop_last().last() == a[a.len() - 2]);
    } else {
        assert(evens(a).len() == 0);
        assert(odds(a).len() == 0);
    }
}

// ---------------------------------------------------------------------
// Ring arithmetic
// ---------------------------------------------------------------------

/// Whether `n` is a power of two: what the ring operations ask of the
/// length of their arguments.
pub fn is_power_of_two(n: usize) -> (r: bool)
    ensures
        r == is_pow2(n as int),
{
    if n == 0 {
        return false;
    }
    let mut m: usize = n;
    while m % 2 == 0
        invariant
            m >= 1,
            is_pow2(m as int) == is_pow2(n as int),
        decreases m,
    {
        m = m / 2;
    }
    m == 1
}

/// The sum of the absolute values of the coefficients.
fn norm_of(a: &[i64]) -> (r: u128)
    ensures
        r == norm1(ints(a@)),
{
    let ghost fa = ints(a@);
    let mut r: u128 = 0;
    let mut i: usize = 0;
    assert(fa.take(0) =~= Seq::<int>::empty());
    while i < a.len()
        invariant
            i <= a.len(),
            fa == ints(a@),
            r == norm1(fa.take(i as int)),
            r <= i * 0x8000_0000_0000_0000,
        decreases a.len() - i,
    {
        let c: i64 = a[i];
        let m: u128 = if c < 0 {
            (-(c as i128)) as u128
        } else {
            c as u128
        };
        proof {
            let t = fa.take(i + 1);
            assert(t.drop_last() =~= fa.take(i as int));
            assert(t.last() == c);
            assert(m == abs(c as int));
            assert((i + 1) * 0x8000_0000_0000_0000 <= 0x1_0000_0000_0000_0000
                * 0x8000_0000_0000_0000) by (nonlinear_arith)
                requires
                    i + 1 <= 0x1_0000_0000_0000_0000,
            ;
        }
        r = r + m;
        i += 1;
    }
    assert(fa.take(a.len() as int) =~= fa);
    r
}

/// Whether the product of two polynomials can be computed in 64-bit
/// arithmetic: what `karatsuba`, `karamul` and `field_norm` ask of their
/// arguments.
pub fn norms_fit(a: &[i64], b: &[i64]) -> (ok: bool)
    ensures
        ok == product_fits(ints(a@), ints(b@)),
{
    let na: u128 = norm_of(a);
    let nb: u128 = norm_of(b);
    if na > 0x7fff_ffff_ffff_ffff || nb > 0x7fff_ffff_ffff_ffff {
        return false;
    }
    assert(na * nb <= 0x7fff_ffff_ffff_ffff * 0x7fff_ffff_ffff_ffff) by (nonlinear_arith)
        requires
            0 <= na <= 0x7fff_ffff_ffff_ffff,
            0 <= nb <= 0x7fff_ffff_ffff_ffff,
    ;
    na * nb <= 0x7fff_ffff_ffff_ffff
}

/// Coefficient-wise sum of two vectors of the same length.
fn add_halves(x: &[i64], y: &[i64]) -> (s: Vec<i64>)
    requires
        x.len() == y.len(),
        norm1(ints(x@)) + norm1(ints(y@)) <= i64::MAX,
    ensures
        ints(s@) == poly_add(ints(x@), ints(y@)),
{
    let mut s: Vec<i64> = Vec::new();
    let mut i: usize = 0;
    while i < x.len()
        invariant
            i <= x.len(),
            x.len() == y.len(),
            norm1(ints(x@)) + norm1(ints(y@)) <= i64::MAX,
            s@.len() == i,
            forall|j: int| 0 <= j < i ==> s@[j] == x@[j] + y@[j],
        decreases x.len() - i,
    {
        proof {
            lemma_norm1_index(ints(x@), i as int);
            lemma_norm1_index(ints(y@), i as int);
            lemma_norm1_nonneg(ints(x@));
            lemma_norm1_nonneg(ints(y@));
        }
        s.push(x[i] + y[i]);
        i += 1;
    }
    assert(ints(s@) =~= poly_add(ints(x@), ints(y@)));
    s
}

/// Product of two polynomials of length `n`, a power of two, by divide and
/// conquer: the `2n` coefficients of `a * b`, nothing reduced.
pub fn karatsuba(a: &[i64], b: &[i64], n: usize) -> (ab: Vec<i64>)
    requires
        a.len() == n,
        b.len() == n,
        is_pow2(n as int),
        2 * n <= usize::MAX,
        product_fits(ints(a@), ints(b@)),
    ensures
        ints(ab@) == poly_mul(ints(a@), ints(b@)),
    decreases n,
{
    let ghost fa = ints(a@);
    let ghost fb = ints(b@);
    if n == 1 {
        proof {
            lemma_conv_bound(fa, fb, 0);
            lemma_conv_zero(fa, fb, 1);
            reveal_with_fuel(conv_upto, 2);
            assert(conv(fa, fb, 0) == a@[0] * b@[0]);
        }
        let mut ab: Vec<i64> = Vec::new();
        ab.push(a[0] * b[0]);
        ab.push(0);
        assert(ints(ab@) =~= poly_mul(fa, fb));
        ab
    } else {
        let n2: usize = n / 2;
        proof {
            lemma_pow2_half(n as int);
        }
        let a0 = slice_subrange(a, 0, n2);
        let a1 = slice_subrange(a, n2, n);
        let b0 = slice_subrange(b, 0, n2);
        let b1 = slice_subrange(b, n2, n);
        let ghost fa0 = ints(a0@);
        let ghost fa1 = ints(a1@);
        let ghost fb0 = ints(b0@);
        let ghost fb1 = ints(b1@);
        proof {
            assert(fa =~= fa0 + fa1);
            assert(fb =~= fb0 + fb1);
            lemma_norm1_concat(fa0, fa1);
            lemma_norm1_concat(fb0, fb1);
            lemma_norm1_nonneg(fa0);
            lemma_norm1_nonneg(fa1);
            lemma_norm1_nonneg(fb0);
            lemma_norm1_nonneg(fb1);
        }
        let ax = add_halves(a0, a1);
        let bx = add_halves(b0, b1);
        proof {
            lemma_norm1_add(fa0, fa1);
            lemma_norm1_add(fb0, fb1);
            lemma_fits_smaller(fa, fb, fa0, fb0);
            lemma_fits_smaller(fa, fb, fa1, fb1);
            lemma_fits_smaller(fa, fb, ints(ax@), ints(bx@));
        }
        let a0b0 = karatsuba(a0, b0, n2);
        let a1b1 = karatsuba(a1, b1, n2);
        let axbx = karatsuba(ax.as_slice(), bx.as_slice(), n2);
        let ghost r0 = poly_mul(fa0, fb0);
        let ghost r1 = poly_mul(fa1, fb1);
        let ghost rx = poly_mul(poly_add(fa0, fa1), poly_add(fb0, fb1));
        assert(ints(a0b0@) == r0);
        assert(ints(a1b1@) == r1);
        assert(ints(axbx@) == rx);
        let mut ab: Vec<i64> = Vec::new();
        let mut k: usize = 0;
        while k < 2 * n
            invariant
                k <= 2 * n,
                2 * n <= usize::MAX,
                n == 2 * n2,
                n2 >= 1,
                fa0.len() == n2,
                fa1.len() == n2,
                fb0.len() == n2,
                fb1.len() == n2,
                fa == fa0 + fa1,
                fb == fb0 + fb1,
                product_fits(fa, fb),
                ints(a0b0@) == r0,
                ints(a1b1@) == r1,
                ints(axbx@) == rx,
                r0 == poly_mul(fa0, fb0),
                r1 == poly_mul(fa1, fb1),
                rx == poly_mul(poly_add(fa0, fa1), poly_add(fb0, fb1)),
                ab@.len() == k,
                forall|j: int| 0 <= j < k ==> ab@[j] as int == conv(fa, fb, j),
            decreases 2 * n - k,
        {
            proof {
                lemma_karatsuba_step(fa0, fa1, fb0, fb1, k as int);
                lemma_conv_bound(fa, fb, k as int);
                if k >= n {
                    lemma_conv_zero(fa0, fb0, k as int);
                } else {
                    lemma_conv_zero(fa1, fb1, k - n);
                }
                if !(n2 <= k && k < n2 + n) {
                    lemma_conv_zero(fa0, fb0, k - n2);
                    lemma_conv_zero(fa1, fb1, k - n2);
                    lemma_conv_zero(poly_add(fa0, fa1), poly_add(fb0, fb1), k - n2);
                }
                lemma_step_bounds(fa0, fa1, fb0, fb1, k - n2);
                assert(ints(a0b0@).len() == a0b0@.len());
                assert(ints(a1b1@).len() == a1b1@.len());
                assert(ints(axbx@).len() == axbx@.len());
                assert(a0b0@.len() == n);
                assert(a1b1@.len() == n);
                assert(axbx@.len() == n);
                if k < n {
                    assert(ints(a0b0@)[k as int] == conv(fa0, fb0, k as int));
                } else {
                    assert(ints(a1b1@)[k - n] == conv(fa1, fb1, k - n));
                }
                if n2 <= k && k < n2 + n {
                    let i = k - n2;
                    assert(ints(a0b0@)[i] == conv(fa0, fb0, i));
                    assert(ints(a1b1@)[i] == conv(fa1, fb1, i));
                    assert(ints(axbx@)[i] == conv(poly_add(fa0, fa1), poly_add(fb0, fb1), i));
                }
            }
            let low: i64 = if k < n {
                a0b0[k]
            } else {
                a1b1[k - n]
            };
            let value: i64 = if n2 <= k && k < n2 + n {
                let i: usize = k - n2;
                let outer: i64 = a0b0[i] + a1b1[i];
                let middle: i64 = axbx[i] - outer;
                low + middle
            } else {
                low
            };
            ab.push(value);
            k += 1;
        }
        assert(ints(ab@) =~= poly_mul(fa, fb));
        ab
    }
}

/// Product of two polynomials of the same power-of-two length in the ring
/// modulo `x^n + 1`.
pub fn karamul(a: &[i64], b: &[i64]) -> (r: Vec<i64>)
    requires
        a.len() == b.len(),
        is_pow2(a.len() as int),
        2 * a.len() <= usize::MAX,
        product_fits(ints(a@), ints(b@)),
    ensures
        ints(r@) == ring_mul(ints(a@), ints(b@)),
{
    let n: usize = a.len();
    let ab = karatsuba(a, b, n);
    let ghost fa = ints(a@);
    let ghost fb = ints(b@);
    let mut r: Vec<i64> = Vec::new();
    let mut i: usize = 0;
    while i < n
        invariant
            i <= n,
            n == a.len(),
            a.len() == b.len(),
            2 * n <= usize::MAX,
            fa == ints(a@),
            fb == ints(b@),
            product_fits(fa, fb),
            ints(ab@) == poly_mul(fa, fb),
            r@.len() == i,
            forall|j: int| 0 <= j < i ==> r@[j] as int == conv(fa, fb, j) - conv(fa, fb, j + n),
        decreases n - i,
    {
        proof {
            lemma_ring_bound(fa, fb, i as int);
            assert(ints(ab@).len() == ab@.len());
            assert(ab@.len() == 2 * n);
            assert(ints(ab@)[i as int] == conv(fa, fb, i as int));
            assert(ints(ab@)[i + n] == conv(fa, fb, i + n));
        }
        r.push(ab[i] - ab[i + n]);
        i += 1;
    }
    assert(ints(r@) =~= ring_mul(fa, fb));
    r
}

/// The image of a polynomial under `x -> -x`: every odd coefficient changes
/// its sign.
pub fn galois_conjugate(a: &[i64]) -> (r: Vec<i64>)
    requires
        forall|i: int| 0 <= i < a.len() && i % 2 == 1 ==> a@[i] > i64::MIN,
    ensures
        ints(r@) == spec_conjugate(ints(a@)),
{
    let n: usize = a.len();
    let mut r: Vec<i64> = Vec::new();
    let mut i: usize = 0;
    while i < n
        invariant
            i <= n,
            n == a.len(),
            forall|j: int| 0 <= j < a.len() && j % 2 == 1 ==> a@[j] > i64::MIN,
            r@.len() == i,
            forall|j: int|
                0 <= j < i ==> r@[j] as int == (if j % 2 == 0 {
                    a@[j] as int
                } else {
                    -(a@[j] as int)
                }),
        decreases n - i,
    {
        let c: i64 = if i % 2 == 0 {
            a[i]
        } else {
            -a[i]
        };
        r.push(c);
        i += 1;
    }
    assert(ints(r@) =~= spec_conjugate(ints(a@)));
    r
}

/// The coefficients of `a` at the positions `offset`, `offset + 2`, ...
fn every_other(a: &[i64], offset: usize) -> (r: Vec<i64>)
    requires
        offset < 2,
        a.len() % 2 == 0,
    ensures
        offset == 0 ==> ints(r@) == evens(ints(a@)),
        offset == 1 ==> ints(r@) == odds(ints(a@)),
{
    let h: usize = a.len() / 2;
    let mut r: Vec<i64> = Vec::new();
    let mut i: usize = 0;
    while i < h
        invariant
            i <= h,
            h == a.len() / 2,
            a.len() % 2 == 0,
            offset < 2,
            r@.len() == i,
            forall|j: int| 0 <= j < i ==> r@[j] == a@[2 * j + offset],
        decreases h - i,
    {
        r.push(a[2 * i + offset]);
        i += 1;
    }
    if offset == 0 {
        assert(ints(r@) =~= evens(ints(a@)));
    } else {
        assert(ints(r@) =~= odds(ints(a@)));
    }
    r
}

/// The field norm of `a`, a polynomial of power-of-two length at least two:
/// the product of `a` and its conjugate, as an element of the ring of half
/// the degree.
pub fn field_norm(a: &[i64]) -> (r: Vec<i64>)
    requires
        a.len() >= 2,
        is_pow2(a.len() as int),
        product_fits(ints(a@), ints(a@)),
    ensures
        ints(r@) == spec_field_norm(ints(a@)),
{
    let ghost fa = ints(a@);
    proof {
        lemma_pow2_half(a.len() as int);
    }
    let n2: usize = a.len() / 2;
    let ae = every_other(a, 0);
    let ao = every_other(a, 1);
    let ghost e = evens(fa);
    let ghost o = odds(fa);
    proof {
        lemma_norm1_evens_odds(fa);
        lemma_norm1_nonneg(e);
        lemma_norm1_nonneg(o);
        lemma_fits_smaller(fa, fa, e, e);
        lemma_fits_smaller(fa, fa, o, o);
        lemma_part_products(norm1(e), norm1(o), norm1(e), norm1(o));
    }
    let ae_squared = karamul(ae.as_slice(), ae.as_slice());
    let ao_squared = karamul(ao.as_slice(), ao.as_slice());
    let ghost ee = ring_mul(e, e);
    let ghost oo = ring_mul(o, o);
    let mut r: Vec<i64> = Vec::new();
    let mut i: usize = 0;
    while i < n2
        invariant
            i <= n2,
            n2 >= 1,
            e.len() == n2,
            o.len() == n2,
            ee == ring_mul(e, e),
            oo == ring_mul(o, o),
            ints(ae_squared@) == ee,
            ints(ao_squared@) == oo,
            norm1(e) * norm1(e) + norm1(o) * norm1(o) <= i64::MAX,
            r@.len() == i,
            forall|j: int|
                0 <= j < i ==> r@[j] as int == (if j == 0 {
                    ee[0] + oo[n2 - 1]
                } else {
                    ee[j] - oo[j - 1]
                }),
        decreases n2 - i,
    {
        proof {
            assert(ints(ae_squared@).len() == ae_squared@.len());
            assert(ints(ao_squared@).len() == ao_squared@.len());
            assert(ae_squared@.len() == n2);
            assert(ao_squared@.len() == n2);
            lemma_ring_bound(e, e, i as int);
            assert(ints(ae_squared@)[i as int] == ee[i as int]);
            if i == 0 {
                lemma_ring_bound(o, o, n2 - 1);
                assert(ints(ao_squared@)[n2 - 1] == oo[n2 - 1]);
            } else {
                lemma_ring_bound(o, o, i - 1);
                assert(ints(ao_squared@)[i - 1] == oo[i - 1]);
            }
        }
        let c: i64 = if i == 0 {
            ae_squared[0] + ao_squared[n2 - 1]
        } else {
            ae_squared[i] - ao_squared[i - 1]
        };
        r.push(c);
        i += 1;
    }
    assert(ints(r@) =~= spec_field_norm(fa));
    r
}

/// The polynomial `a(x^2)`, twice as long as `a`.
pub fn lift(a: &[i64]) -> (r: Vec<i64>)
    requires
        2 * a.len() <= usize::MAX,
    ensures
        ints(r@) == spec_lift(ints(a@)),
{
    let n: usize = a.len();
    let mut r: Vec<i64> = Vec::new();
    let mut i: usize = 0;
    while i < n
        invariant
            i <= n,
            n == a.len(),
            r@.len() == 2 * i,
            forall|k: int|
                0 <= k < 2 * i ==> r@[k] == (if k % 2 == 0 {
                    a@[k / 2]
                } else {
                    0i64
                }),
        decreases n - i,
    {
        r.push(a[i]);
        r.push(0);
        i += 1;
    }
    assert(ints(r@) =~= spec_lift(ints(a@)));
    r
}

/// The bound below which a 64-bit number lies after `bytes` of its bytes
/// have been taken off: `256^(8 - bytes)`.
pub open spec fn room(bytes: int) -> int {
    if bytes <= 0 {
        0x1_0000_0000_0000_0000
    } else if bytes == 1 {
        0x100_0000_0000_0000
    } else if bytes == 2 {
        0x1_0000_0000_0000
    } else if bytes == 3 {
        0x100_0000_0000
    } else if bytes == 4 {
        0x1_0000_0000
    } else if bytes == 5 {
        0x100_0000
    } else if bytes == 6 {
        0x1_0000
    } else if bytes == 7 {
        0x100
    } else {
        1
    }
}

/// Number of bytes that it takes to write the absolute value of `a` down:
/// none for zero, eight at most.
pub fn bitsize(a: i64) -> (r: u32)
    ensures
        r == byte_len(abs(a as int) as nat),
        r <= 8,
{
    let mut val: u64 = if a == i64::MIN {
        0x8000_0000_0000_0000
    } else if a < 0 {
        (-a) as u64
    } else {
        a as u64
    };
    let mut res: u32 = 0;
    let ghost start = val;
    while val != 0
        invariant
            res <= 8,
            val < room(res as int),
            byte_len(start as nat) == res + byte_len(val as nat),
        decreases val,
    {
        res += 1;
        val = val / 256;
    }
    res
}

/// Quotient and remainder of a division that rounds towards zero.
fn div_rem(b: i64, n: i64) -> (qr: (i64, i64))
    requires
        n != 0,
        b > i64::MIN,
        n > i64::MIN,
    ensures
        qr.0 == trunc_div(b as int, n as int),
        qr.1 == trunc_rem(b as int, n as int),
{
    let ab: i64 = if b < 0 {
        -b
    } else {
        b
    };
    let an: i64 = if n < 0 {
        -n
    } else {
        n
    };
    let q: i64 = ab / an;
    let r: i64 = ab % an;
    let sq: i64 = if (b < 0) == (n < 0) {
        q
    } else {
        -q
    };
    let sr: i64 = if b < 0 {
        -r
    } else {
        r
    };
    (sq, sr)
}


/// The sign and the size of a product.
pub proof fn lemma_mul_sign_abs(u: int, v: int)
    ensures
        abs(u * v) == abs(u) * abs(v),
        (u == 0 || v == 0) ==> u * v == 0,
        ((u > 0 && v > 0) || (u < 0 && v < 0)) ==> u * v > 0,
        ((u > 0 && v < 0) || (u < 0 && v > 0)) ==> u * v < 0,
{
    assert(abs(u * v) == abs(u) * abs(v)) by (nonlinear_arith);
    assert((u == 0 || v == 0) ==> u * v == 0) by (nonlinear_arith);
    assert(((u > 0 && v > 0) || (u < 0 && v < 0)) ==> u * v > 0) by (nonlinear_arith);
    assert(((u > 0 && v < 0) || (u < 0 && v > 0)) ==> u * v < 0) by (nonlinear_arith);
}

/// Division that rounds towards zero: quotient and remainder make up the
/// dividend, and the remainder is smaller than the divisor and has the
/// dividend's sign.
pub proof fn lemma_trunc_div_rem(b: int, n: int)
    requires
        n != 0,
    ensures
        b == trunc_div(b, n) * n + trunc_rem(b, n),
        abs(trunc_rem(b, n)) == abs(b) % abs(n),
        abs(trunc_div(b, n)) == abs(b) / abs(n),
        abs(b) == abs(trunc_div(b, n)) * abs(n) + abs(trunc_rem(b, n)),
        abs(trunc_rem(b, n)) < abs(n),
        b >= 0 ==> trunc_rem(b, n) >= 0,
        b <= 0 ==> trunc_rem(b, n) <= 0,
        trunc_div(b, n) > 0 ==> ((b > 0) == (n > 0)) && b != 0,
        trunc_div(b, n) < 0 ==> ((b > 0) != (n > 0)) && b != 0,
{
    let ab = abs(b);
    let an = abs(n);
    let q = ab / an;
    let r = ab % an;
    vstd::arithmetic::div_mod::lemma_fundamental_div_mod(ab, an);
    assert(ab == an * q + r);
    assert(0 <= r < an);
    assert(q >= 0) by (nonlinear_arith)
        requires
            ab == an * q + r,
            0 <= r < an,
            ab >= 0,
    ;
    assert(an * q == q * an) by (nonlinear_arith);
    assert((-q) * n == -(q * n)) by (nonlinear_arith);
    assert(q * (-n) == -(q * n)) by (nonlinear_arith);
    if q > 0 {
        assert(ab > 0) by (nonlinear_arith)
            requires
                ab == an * q + r,
                r >= 0,
                an > 0,
                q > 0,
        ;
    }
}

/// Whether the signs of a pair of coefficients and of a pair of remainders
/// stand against each other: one pair agrees in sign where the other does
/// not, or one of the four numbers is zero.
pub open spec fn opposed(x0: int, x1: int, b: int, n: int) -> bool {
    x0 == 0 || x1 == 0 || b == 0 || n == 0 || (((x0 > 0) == (x1 > 0)) != ((b > 0) == (n > 0)))
}

/// One step of the extended Euclidean algorithm keeps the coefficients
/// small: with `m` the weighted sum of the sizes of the two coefficients
/// before the step, the sum after it is `m` again, so neither the new
/// coefficient nor the product that it is made from is larger than `m`.
pub proof fn lemma_xgcd_step(x0: int, x1: int, b: int, n: int, m: int)
    requires
        n != 0,
        abs(x0) * abs(n) + abs(x1) * abs(b) == m,
        opposed(x0, x1, b, n),
    ensures
        abs(x1) * abs(trunc_rem(b, n)) + abs(x0 - trunc_div(b, n) * x1) * abs(n) == m,
        opposed(x1, x0 - trunc_div(b, n) * x1, n, trunc_rem(b, n)),
        abs(trunc_div(b, n) * x1) <= m,
        abs(x0 - trunc_div(b, n) * x1) <= m,
{
    let q = trunc_div(b, n);
    let r = trunc_rem(b, n);
    let p = q * x1;
    let next = x0 - p;
    lemma_trunc_div_rem(b, n);
    lemma_mul_sign_abs(q, x1);
    let aq = abs(q);
    let ax0 = abs(x0);
    let ax1 = abs(x1);
    let ab = abs(b);
    let an = abs(n);
    let ar = abs(r);
    assert(abs(p) == aq * ax1);
    assert(abs(next) == ax0 + abs(p));
    assert(ax1 * ar + (ax0 + aq * ax1) * an == ax0 * an + ax1 * ab) by (nonlinear_arith)
        requires
            ab == aq * an + ar,
    ;
    assert(ax1 * ar >= 0) by (nonlinear_arith)
        requires
            ax1 >= 0,
            ar >= 0,
    ;
    assert(abs(next) <= m) by (nonlinear_arith)
        requires
            ax1 * ar + abs(next) * an == m,
            ax1 * ar >= 0,
            an >= 1,
            abs(next) >= 0,
    ;
}

/// The extended Euclidean algorithm from a state on: `b` and `n` are the
/// last two remainders, `(x0, y0)` and `(x1, y1)` the coefficients that make
/// them of the two numbers that the algorithm started with. Division rounds
/// towards zero.
pub open spec fn xgcd_from(b: int, n: int, x0: int, x1: int, y0: int, y1: int) -> (int, int, int)
    decreases abs(n),
{
    if n == 0 {
        (b, x0, y0)
    } else {
        let q = trunc_div(b, n);
        xgcd_from(n, trunc_rem(b, n), x1, x0 - q * x1, y1, y0 - q * y1)
    }
}

/// What the extended Euclidean algorithm returns for `b` and `n`.
pub open spec fn spec_xgcd(b: int, n: int) -> (int, int, int) {
    xgcd_from(b, n, 1, 0, 0, 1)
}

/// Extended Euclidean algorithm on signed integers.
///
/// Returns `(g, x, y)` with `g == b * x + n * y`, where `g` is, up to its
/// sign, the greatest common divisor of `b` and `n`; it is not negative where
/// neither `b` nor `n` is.
pub fn xgcd(b: i64, n: i64) -> (r: (i64, i64, i64))
    requires
        b > i64::MIN,
        n > i64::MIN,
    ensures
        (r.0 as int, r.1 as int, r.2 as int) == spec_xgcd(b as int, n as int),
        r.0 == b * r.1 + n * r.2,
        abs(r.0 as int) == gcd(abs(b as int) as nat, abs(n as int) as nat),
        b >= 0 && n >= 0 ==> r.0 >= 0,
{
    let ghost b0: int = b as int;
    let ghost n0: int = n as int;
    let mut b: i64 = b;
    let mut n: i64 = n;
    let mut x0: i64 = 1;
    let mut x1: i64 = 0;
    let mut y0: i64 = 0;
    let mut y1: i64 = 1;
    proof {
        assert(abs(x0 as int) * abs(n as int) + abs(x1 as int) * abs(b as int) == abs(n0))
            by (nonlinear_arith)
            requires
                x0 == 1,
                x1 == 0,
                n == n0,
        ;
        assert(abs(y0 as int) * abs(n as int) + abs(y1 as int) * abs(b as int) == abs(b0))
            by (nonlinear_arith)
            requires
                y0 == 0,
                y1 == 1,
                b == b0,
        ;
        assert(b == x0 * b0 + y0 * n0) by (nonlinear_arith)
            requires
                x0 == 1,
                y0 == 0,
                b == b0,
        ;
        assert(n == x1 * b0 + y1 * n0) by (nonlinear_arith)
            requires
                x1 == 0,
                y1 == 1,
                n == n0,
        ;
    }
    while n != 0
        invariant
            b > i64::MIN,
            n > i64::MIN,
            i64::MIN < b0 <= i64::MAX,
            i64::MIN < n0 <= i64::MAX,
            b == x0 * b0 + y0 * n0,
            n == x1 * b0 + y1 * n0,
            abs(x0 as int) * abs(n as int) + abs(x1 as int) * abs(b as int) == abs(n0),
            abs(y0 as int) * abs(n as int) + abs(y1 as int) * abs(b as int) == abs(b0),
            opposed(x0 as int, x1 as int, b as int, n as int),
            opposed(y0 as int, y1 as int, b as int, n as int),
            gcd(abs(b as int) as nat, abs(n as int) as nat) == gcd(abs(b0) as nat, abs(n0) as nat),
            b0 >= 0 && n0 >= 0 ==> b >= 0 && n >= 0,
            spec_xgcd(b0, n0) == xgcd_from(
                b as int,
                n as int,
                x0 as int,
                x1 as int,
                y0 as int,
                y1 as int,
            ),
        decreases abs(n as int),
    {
        let (q, r) = div_rem(b, n);
        proof {
            lemma_trunc_div_rem(b as int, n as int);
            lemma_xgcd_step(x0 as int, x1 as int, b as int, n as int, abs(n0));
            lemma_xgcd_step(y0 as int, y1 as int, b as int, n as int, abs(b0));
            assert(r == (x0 - q * x1) * b0 + (y0 - q * y1) * n0) by (nonlinear_arith)
                requires
                    b == x0 * b0 + y0 * n0,
                    n == x1 * b0 + y1 * n0,
                    b == q * n + r,
            ;
        }
        let qx: i64 = q * x1;
        let qy: i64 = q * y1;
        let next_x: i64 = x0 - qx;
        let next_y: i64 = y0 - qy;
        b = n;
        n = r;
        x0 = x1;
        x1 = next_x;
        y0 = y1;
        y1 = next_y;
    }
    proof {
        assert(b == b0 * x0 + n0 * y0) by (nonlinear_arith)
            requires
                b == x0 * b0 + y0 * n0,
        ;
    }
    (b, x0, y0)
}

/// The greatest common divisor divides both numbers.
pub proof fn lemma_gcd_divides(a: nat, b: nat)
    ensures
        gcd(a, b) > 0 ==> a % gcd(a, b) == 0 && b % gcd(a, b) == 0,
        gcd(a, b) == 0 ==> a == 0 && b == 0,
    decreases b,
{
    if b > 0 {
        let g = gcd(a, b);
        let r = a % b;
        lemma_gcd_divides(b, r);
        vstd::arithmetic::div_mod::lemma_fundamental_div_mod(a as int, b as int);
        if g > 0 {
            let q = (a / b) as int;
            let kb = (b / g) as int;
            let kr = (r / g) as int;
            vstd::arithmetic::div_mod::lemma_fundamental_div_mod(b as int, g as int);
            vstd::arithmetic::div_mod::lemma_fundamental_div_mod(r as int, g as int);
            assert(a == g * (kb * q + kr)) by (nonlinear_arith)
                requires
                    a == b * q + r,
                    b == g * kb,
                    r == g * kr,
            ;
            vstd::arithmetic::div_mod::lemma_mod_multiples_basic(kb * q + kr, g as int);
            assert(g * (kb * q + kr) == (kb * q + kr) * g) by (nonlinear_arith);
        }
    }
}

/// The greatest common divisor is the greatest: every common divisor of
/// two numbers divides it.
pub proof fn lemma_gcd_greatest(a: nat, b: nat, d: nat)
    requires
        d > 0,
        a % d == 0,
        b % d == 0,
    ensures
        gcd(a, b) % d == 0,
    decreases b,
{
    if b > 0 {
        let r = a % b;
        let q = (a / b) as int;
        let ka = (a / d) as int;
        let kb = (b / d) as int;
        vstd::arithmetic::div_mod::lemma_fundamental_div_mod(a as int, b as int);
        vstd::arithmetic::div_mod::lemma_fundamental_div_mod(a as int, d as int);
        vstd::arithmetic::div_mod::lemma_fundamental_div_mod(b as int, d as int);
        assert(r == (ka - kb * q) * d) by (nonlinear_arith)
            requires
                a == b * q + r,
                a == d * ka,
                b == d * kb,
        ;
        vstd::arithmetic::div_mod::lemma_mod_multiples_basic(ka - kb * q, d as int);
        lemma_gcd_greatest(b, r, d);
    }
}

} // verus!
