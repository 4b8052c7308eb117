//! Polynomials over the integers as sequences of coefficients: products,
//! norms, and the laws of the product.

use vstd::prelude::*;

verus! {

// ---------------------------------------------------------------------
// Polynomials as sequences of integers
// ---------------------------------------------------------------------

/// Absolute value.
pub open spec fn abs(x: int) -> int {
    if x < 0 {
        -x
    } else {
        x
    }
}

/// Whether `n` is a power of two (1, 2, 4, ...).
pub open spec fn is_pow2(n: int) -> bool
    decreases n,
{
    n == 1 || (n > 1 && n % 2 == 0 && is_pow2(n / 2))
}

/// Coefficient `j` of a polynomial; zero outside its length.
pub open spec fn coef(b: Seq<int>, j: int) -> int {
    if 0 <= j < b.len() {
        b[j]
    } else {
        0
    }
}

/// Sum of the absolute values of the coefficients.
pub open spec fn norm1(s: Seq<int>) -> int
    decreases s.len(),
{
    if s.len() == 0 {
        0
    } else {
        norm1(s.drop_last()) + abs(s.last())
    }
}

/// Coefficient-wise sum of two polynomials of the same length.
pub open spec fn poly_add(a: Seq<int>, b: Seq<int>) -> Seq<int> {
    Seq::new(a.len(), |i: int| a[i] + b[i])
}

/// The part of coefficient `k` of the product `a * b` that the first `m`
/// coefficients of `a` contribute: the sum of `a[i] * b[k - i]` over `i < m`.
pub open spec fn conv_upto(a: Seq<int>, b: Seq<int>, k: int, m: nat) -> int
    decreases m,
{
    if m == 0 {
        0
    } else {
        conv_upto(a, b, k, (m - 1) as nat) + a[m - 1] * coef(b, k - (m - 1))
    }
}

/// Coefficient `k` of the product `a * b`: the sum of `a[i] * b[j]` over
/// `i + j == k`.
pub open spec fn conv(a: Seq<int>, b: Seq<int>, k: int) -> int {
    conv_upto(a, b, k, a.len())
}

/// The product of two polynomials, with one coefficient for each of the two
/// lengths (the last one is zero).
pub open spec fn poly_mul(a: Seq<int>, b: Seq<int>) -> Seq<int> {
    Seq::new(a.len() + b.len(), |k: int| conv(a, b, k))
}

/// The product in the ring of polynomials modulo `x^n + 1`, `n` the length of
/// `a`: what lies `n` places higher comes back with its sign changed.
pub open spec fn ring_mul(a: Seq<int>, b: Seq<int>) -> Seq<int> {
    Seq::new(a.len(), |k: int| conv(a, b, k) - conv(a, b, k + a.len()))
}

/// The coefficients at even positions.
pub open spec fn evens(f: Seq<int>) -> Seq<int> {
    Seq::new(f.len() / 2, |i: int| f[2 * i])
}

/// The coefficients at odd positions.
pub open spec fn odds(f: Seq<int>) -> Seq<int> {
    Seq::new(f.len() / 2, |i: int| f[2 * i + 1])
}

/// Two polynomials of the same length woven into one: the first gives the
/// even positions, the second the odd ones.
pub open spec fn interleave(f0: Seq<int>, f1: Seq<int>) -> Seq<int> {
    Seq::new(
        2 * f0.len(),
        |k: int|
            if k % 2 == 0 {
                f0[k / 2]
            } else {
                f1[k / 2]
            },
    )
}

// ---------------------------------------------------------------------
// Sizes
// ---------------------------------------------------------------------

/// A power of two above one has a half that is a power of two.
pub proof fn lemma_pow2_half(n: int)
    requires
        is_pow2(n),
        n > 1,
    ensures
        n % 2 == 0,
        is_pow2(n / 2),
        n / 2 >= 1,
{
}

// ---------------------------------------------------------------------
// The norm
// ---------------------------------------------------------------------

/// The norm is not negative.
pub proof fn lemma_norm1_nonneg(s: Seq<int>)
    ensures
        norm1(s) >= 0,
    decreases s.len(),
{
    if s.len() > 0 {
        lemma_norm1_nonneg(s.drop_last());
    }
}

/// No coefficient is larger in absolute value than the norm.
pub proof fn lemma_norm1_index(s: Seq<int>, i: int)
    requires
        0 <= i < s.len(),
    ensures
        abs(s[i]) <= norm1(s),
    decreases s.len(),
{
    lemma_norm1_nonneg(s.drop_last());
    if i < s.len() - 1 {
        lemma_norm1_index(s.drop_last(), i);
    }
}

/// The norm of two polynomials put end to end is the sum of their norms.
pub proof fn lemma_norm1_concat(a: Seq<int>, b: Seq<int>)
    ensures
        norm1(a + b) == norm1(a) + norm1(b),
    decreases b.len(),
{
    if b.len() == 0 {
        assert(a + b =~= a);
    } else {
        lemma_norm1_concat(a, b.drop_last());
        assert((a + b).drop_last() =~= a + b.drop_last());
        assert((a + b).last() == b.last());
    }
}

/// The norm of a sum is at most the sum of the norms.
pub proof fn lemma_norm1_add(a: Seq<int>, b: Seq<int>)
    requires
        a.len() == b.len(),
    ensures
        norm1(poly_add(a, b)) <= norm1(a) + norm1(b),
    decreases a.len(),
{
    if a.len() > 0 {
        lemma_norm1_add(a.drop_last(), b.drop_last());
        assert(poly_add(a, b).drop_last() =~= poly_add(a.drop_last(), b.drop_last()));
    }
}

// ---------------------------------------------------------------------
// Products
// ---------------------------------------------------------------------

/// The contribution of the first `m` coefficients depends on those
/// coefficients alone.
pub proof fn lemma_conv_upto_prefix(a: Seq<int>, c: Seq<int>, b: Seq<int>, k: int, m: nat)
    requires
        m <= a.len(),
        m <= c.len(),
        forall|i: int| 0 <= i < m ==> a[i] == c[i],
    ensures
        conv_upto(a, b, k, m) == conv_upto(c, b, k, m),
    decreases m,
{
    if m > 0 {
        lemma_conv_upto_prefix(a, c, b, k, (m - 1) as nat);
    }
}

/// No coefficient of a product is larger in absolute value than the product
/// of the norms.
pub proof fn lemma_conv_upto_bound(a: Seq<int>, b: Seq<int>, k: int, m: nat)
    requires
        m <= a.len(),
    ensures
        abs(conv_upto(a, b, k, m)) <= norm1(a.take(m as int)) * norm1(b),
    decreases m,
{
    let nb = norm1(b);
    lemma_norm1_nonneg(b);
    if m == 0 {
        assert(a.take(0).len() == 0);
        assert(norm1(a.take(0)) * nb == 0) by (nonlinear_arith)
            requires
                norm1(a.take(0)) == 0,
        ;
    } else {
        let p = (m - 1) as nat;
        lemma_conv_upto_bound(a, b, k, p);
        let t = a.take(m as int);
        assert(t.drop_last() =~= a.take(p as int));
        assert(t.last() == a[m - 1]);
        let x = a[m - 1];
        let y = coef(b, k - (m - 1));
        if 0 <= k - (m - 1) < b.len() {
            lemma_norm1_index(b, k - (m - 1));
        }
        assert(abs(y) <= nb);
        let np = norm1(a.take(p as int));
        assert(abs(x * y) <= abs(x) * nb) by (nonlinear_arith)
            requires
                abs(y) <= nb,
                nb >= 0,
        ;
        assert((np + abs(x)) * nb == np * nb + abs(x) * nb) by (nonlinear_arith);
    }
}

/// No coefficient of a product is larger in absolute value than the product
/// of the norms.
pub proof fn lemma_conv_bound(a: Seq<int>, b: Seq<int>, k: int)
    ensures
        abs(conv(a, b, k)) <= norm1(a) * norm1(b),
{
    lemma_conv_upto_bound(a, b, k, a.len());
    assert(a.take(a.len() as int) =~= a);
}

/// Contributions to a coefficient that lies outside the product are zero.
pub proof fn lemma_conv_upto_zero(a: Seq<int>, b: Seq<int>, k: int, m: nat)
    requires
        m <= a.len(),
        k < 0 || k >= m + b.len() - 1,
    ensures
        conv_upto(a, b, k, m) == 0,
    decreases m,
{
    if m > 0 {
        lemma_conv_upto_zero(a, b, k, (m - 1) as nat);
        assert(coef(b, k - (m - 1)) == 0);
        assert(a[m - 1] * coef(b, k - (m - 1)) == 0) by (nonlinear_arith)
            requires
                coef(b, k - (m - 1)) == 0,
        ;
    }
}

/// A product has no coefficients below zero or from the sum of the lengths
/// less one on.
pub proof fn lemma_conv_zero(a: Seq<int>, b: Seq<int>, k: int)
    requires
        k < 0 || k >= a.len() + b.len() - 1,
    ensures
        conv(a, b, k) == 0,
{
    lemma_conv_upto_zero(a, b, k, a.len());
}

/// The product with a polynomial of two parts, split on the left: the second
/// part's product comes in shifted by the length of the first.
pub proof fn lemma_conv_upto_concat_left(
    a0: Seq<int>,
    a1: Seq<int>,
    b: Seq<int>,
    k: int,
    m: nat,
)
    requires
        m <= a1.len(),
    ensures
        conv_upto(a0 + a1, b, k, a0.len() + m) == conv(a0, b, k) + conv_upto(
            a1,
            b,
            k - a0.len(),
            m,
        ),
    decreases m,
{
    let a = a0 + a1;
    if m == 0 {
        lemma_conv_upto_prefix(a, a0, b, k, a0.len());
    } else {
        lemma_conv_upto_concat_left(a0, a1, b, k, (m - 1) as nat);
        assert(a[a0.len() + m - 1] == a1[m - 1]);
    }
}

/// Splitting the left factor: `(a0 ++ a1) * b = a0 * b + x^|a0| * (a1 * b)`.
pub proof fn lemma_conv_concat_left(a0: Seq<int>, a1: Seq<int>, b: Seq<int>, k: int)
    ensures
        conv(a0 + a1, b, k) == conv(a0, b, k) + conv(a1, b, k - a0.len()),
{
    lemma_conv_upto_concat_left(a0, a1, b, k, a1.len());
}

/// Splitting the right factor, for the first `m` coefficients of the left.
pub proof fn lemma_conv_upto_concat_right(
    a: Seq<int>,
    b0: Seq<int>,
    b1: Seq<int>,
    k: int,
    m: nat,
)
    requires
        m <= a.len(),
    ensures
        conv_upto(a, b0 + b1, k, m) == conv_upto(a, b0, k, m) + conv_upto(
            a,
            b1,
            k - b0.len(),
            m,
        ),
    decreases m,
{
    if m > 0 {
        lemma_conv_upto_concat_right(a, b0, b1, k, (m - 1) as nat);
        let j = k - (m - 1);
        let x = a[m - 1];
        assert(coef(b0 + b1, j) == coef(b0, j) + coef(b1, j - b0.len()));
        assert(x * (coef(b0, j) + coef(b1, j - b0.len())) == x * coef(b0, j) + x * coef(
            b1,
            j - b0.len(),
        )) by (nonlinear_arith);
    }
}

/// Splitting the right factor: `a * (b0 ++ b1) = a * b0 + x^|b0| * (a * b1)`.
pub proof fn lemma_conv_concat_right(a: Seq<int>, b0: Seq<int>, b1: Seq<int>, k: int)
    ensures
        conv(a, b0 + b1, k) == conv(a, b0, k) + conv(a, b1, k - b0.len()),
{
    lemma_conv_upto_concat_right(a, b0, b1, k, a.len());
}

/// The product is additive in its left factor, for the first `m`
/// coefficients.
pub proof fn lemma_conv_upto_add_left(a: Seq<int>, c: Seq<int>, b: Seq<int>, k: int, m: nat)
    requires
        a.len() == c.len(),
        m <= a.len(),
    ensures
        conv_upto(poly_add(a, c), b, k, m) == conv_upto(a, b, k, m) + conv_upto(c, b, k, m),
    decreases m,
{
    if m > 0 {
        lemma_conv_upto_add_left(a, c, b, k, (m - 1) as nat);
        let y = coef(b, k - (m - 1));
        assert((a[m - 1] + c[m - 1]) * y == a[m - 1] * y + c[m - 1] * y) by (nonlinear_arith);
    }
}

/// The product is additive in its left factor.
pub proof fn lemma_conv_add_left(a: Seq<int>, c: Seq<int>, b: Seq<int>, k: int)
    requires
        a.len() == c.len(),
    ensures
        conv(poly_add(a, c), b, k) == conv(a, b, k) + conv(c, b, k),
{
    lemma_conv_upto_add_left(a, c, b, k, a.len());
}

/// The product is additive in its right factor, for the first `m`
/// coefficients of the left.
pub proof fn lemma_conv_upto_add_right(a: Seq<int>, b: Seq<int>, d: Seq<int>, k: int, m: nat)
    requires
        b.len() == d.len(),
        m <= a.len(),
    ensures
        conv_upto(a, poly_add(b, d), k, m) == conv_upto(a, b, k, m) + conv_upto(a, d, k, m),
    decreases m,
{
    if m > 0 {
        lemma_conv_upto_add_right(a, b, d, k, (m - 1) as nat);
        let j = k - (m - 1);
        let x = a[m - 1];
        assert(coef(poly_add(b, d), j) == coef(b, j) + coef(d, j));
        assert(x * (coef(b, j) + coef(d, j)) == x * coef(b, j) + x * coef(d, j))
            by (nonlinear_arith);
    }
}

/// The product is additive in its right factor.
pub proof fn lemma_conv_add_right(a: Seq<int>, b: Seq<int>, d: Seq<int>, k: int)
    requires
        b.len() == d.len(),
    ensures
        conv(a, poly_add(b, d), k) == conv(a, b, k) + conv(a, d, k),
{
    lemma_conv_upto_add_right(a, b, d, k, a.len());
}

/// The identity behind divide-and-conquer multiplication. With both factors
/// cut in halves of length `h`, every coefficient of the product is made of
/// the products of the low halves, of the high halves (two halves higher),
/// and of the sums of the halves less those two (one half higher).
pub proof fn lemma_karatsuba_step(
    a0: Seq<int>,
    a1: Seq<int>,
    b0: Seq<int>,
    b1: Seq<int>,
    k: int,
)
    requires
        a0.len() == a1.len(),
        b0.len() == b1.len(),
        a0.len() == b0.len(),
    ensures
        conv(a0 + a1, b0 + b1, k) == conv(a0, b0, k) + conv(a1, b1, k - 2 * a0.len()) + (conv(
            poly_add(a0, a1),
            poly_add(b0, b1),
            k - a0.len(),
        ) - conv(a0, b0, k - a0.len()) - conv(a1, b1, k - a0.len())),
{
    let h = a0.len() as int;
    lemma_conv_concat_left(a0, a1, b0 + b1, k);
    lemma_conv_concat_right(a0, b0, b1, k);
    lemma_conv_concat_right(a1, b0, b1, k - h);
    let ax = poly_add(a0, a1);
    let bx = poly_add(b0, b1);
    lemma_conv_add_left(a0, a1, bx, k - h);
    lemma_conv_add_right(a0, b0, b1, k - h);
    lemma_conv_add_right(a1, b0, b1, k - h);
}


/// Coefficient-wise negative of a polynomial.
pub open spec fn poly_neg(a: Seq<int>) -> Seq<int> {
    Seq::new(a.len(), |i: int| -a[i])
}

/// A polynomial moved up by one place: a zero in front, the last
/// coefficient left out.
pub open spec fn poly_shift(a: Seq<int>) -> Seq<int> {
    seq![0int] + a.drop_last()
}

/// The product of a constant with a polynomial.
pub proof fn lemma_conv_single_left(x: int, b: Seq<int>, k: int)
    ensures
        conv(seq![x], b, k) == x * coef(b, k),
{
    let a = seq![x];
    assert(a.len() == 1);
    assert(conv_upto(a, b, k, 0) == 0);
    assert(conv_upto(a, b, k, 1) == conv_upto(a, b, k, 0) + a[0] * coef(b, k - 0));
}

/// The product of the first `m` coefficients of a polynomial with a constant.
pub proof fn lemma_conv_upto_single_right(a: Seq<int>, x: int, k: int, m: nat)
    requires
        m <= a.len(),
    ensures
        conv_upto(a, seq![x], k, m) == (if 0 <= k < m {
            x * a[k]
        } else {
            0
        }),
    decreases m,
{
    if m > 0 {
        lemma_conv_upto_single_right(a, x, k, (m - 1) as nat);
        let c = coef(seq![x], k - (m - 1));
        let y = a[m - 1];
        if k == m - 1 {
            assert(c == x);
            assert(y * x == x * y) by (nonlinear_arith);
        } else {
            assert(c == 0);
            assert(y * c == 0) by (nonlinear_arith)
                requires
                    c == 0,
            ;
        }
    }
}

/// The product of a polynomial with a constant.
pub proof fn lemma_conv_single_right(a: Seq<int>, x: int, k: int)
    ensures
        conv(a, seq![x], k) == x * coef(a, k),
{
    lemma_conv_upto_single_right(a, x, k, a.len());
    if !(0 <= k < a.len()) {
        assert(x * 0 == 0) by (nonlinear_arith);
    }
}

/// The product with a polynomial that has no coefficients but zeros is zero.
pub proof fn lemma_conv_upto_zero_right(a: Seq<int>, b: Seq<int>, k: int, m: nat)
    requires
        m <= a.len(),
        forall|j: int| coef(b, j) == 0,
    ensures
        conv_upto(a, b, k, m) == 0,
    decreases m,
{
    if m > 0 {
        lemma_conv_upto_zero_right(a, b, k, (m - 1) as nat);
        let c = coef(b, k - (m - 1));
        assert(a[m - 1] * c == 0) by (nonlinear_arith)
            requires
                c == 0,
        ;
    }
}

/// The product of polynomials does not depend on the order of the factors.
pub proof fn lemma_conv_commutes(a: Seq<int>, b: Seq<int>, k: int)
    ensures
        conv(a, b, k) == conv(b, a, k),
    decreases a.len(),
{
    if a.len() == 0 {
        lemma_conv_upto_zero_right(b, a, k, b.len());
    } else {
        let a1 = a.drop_last();
        let x = a.last();
        assert(a =~= a1 + seq![x]);
        lemma_conv_concat_left(a1, seq![x], b, k);
        lemma_conv_concat_right(b, a1, seq![x], k);
        lemma_conv_single_left(x, b, k - a1.len());
        lemma_conv_single_right(b, x, k - a1.len());
        lemma_conv_commutes(a1, b, k);
    }
}

/// The product with the negative is the negative of the product (for the
/// first `m` coefficients of the left factor).
pub proof fn lemma_conv_upto_neg_right(a: Seq<int>, b: Seq<int>, k: int, m: nat)
    requires
        m <= a.len(),
    ensures
        conv_upto(a, poly_neg(b), k, m) == -conv_upto(a, b, k, m),
    decreases m,
{
    if m > 0 {
        lemma_conv_upto_neg_right(a, b, k, (m - 1) as nat);
        let j = k - (m - 1);
        let x = a[m - 1];
        assert(coef(poly_neg(b), j) == -coef(b, j));
        assert(x * (-coef(b, j)) == -(x * coef(b, j))) by (nonlinear_arith);
    }
}

/// The product with the negative is the negative of the product.
pub proof fn lemma_conv_neg_right(a: Seq<int>, b: Seq<int>, k: int)
    ensures
        conv(a, poly_neg(b), k) == -conv(a, b, k),
{
    lemma_conv_upto_neg_right(a, b, k, a.len());
}

/// Moving a factor whose last coefficient is zero up by one place moves the
/// product up by one place.
pub proof fn lemma_conv_shift_left(a: Seq<int>, b: Seq<int>, k: int)
    requires
        a.len() > 0,
        a.last() == 0,
    ensures
        conv(poly_shift(a), b, k) == conv(a, b, k - 1),
{
    let s = poly_shift(a);
    let z = seq![0int];
    assert(s + z =~= z + a);
    lemma_conv_concat_left(s, z, b, k);
    lemma_conv_concat_left(z, a, b, k);
    lemma_conv_single_left(0, b, k);
    lemma_conv_single_left(0, b, k - s.len());
    assert(0 * coef(b, k) == 0) by (nonlinear_arith);
    assert(0 * coef(b, k - s.len()) == 0) by (nonlinear_arith);
}

} // verus!
