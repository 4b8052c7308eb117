//! The modulus, and the splitting and weaving of polynomials by the parity of
//! their coefficients' positions.

use vstd::prelude::*;
use vstd::std_specs::convert::IntoSpec;

verus! {

/// The modulus of the integer ring: `12 * 1024 + 1`, a prime.
pub const Q: i32 = 12289;

/// The entries of `f` at even positions, in order.
pub open spec fn spec_evens<T>(f: Seq<T>) -> Seq<T> {
    Seq::new(f.len() / 2, |i: int| f[2 * i])
}

/// The entries of `f` at odd positions, in order.
pub open spec fn spec_odds<T>(f: Seq<T>) -> Seq<T> {
    Seq::new(f.len() / 2, |i: int| f[2 * i + 1])
}

/// Two sequences of the same length woven into one: the first gives the even
/// positions, the second the odd ones.
pub open spec fn spec_weave<T>(f0: Seq<T>, f1: Seq<T>) -> Seq<T> {
    Seq::new(
        2 * f0.len(),
        |k: int|
            if k % 2 == 0 {
                f0[k / 2]
            } else {
                f1[k / 2]
            },
    )
}

/// Splits a polynomial into its even-indexed and its odd-indexed
/// coefficients. Of an odd number of coefficients the last is left out.
pub fn split<T: Copy>(f: &[T]) -> (r: (Vec<T>, Vec<T>))
    ensures
        r.0@ == spec_evens(f@),
        r.1@ == spec_odds(f@),
        f@.len() % 2 == 0 ==> spec_weave(r.0@, r.1@) == f@,
{
    let n: usize = f.len();
    let h: usize = n / 2;
    let mut f0: Vec<T> = Vec::with_capacity(h);
    let mut f1: Vec<T> = Vec::with_capacity(h);
    let mut i: usize = 0;
    while i < h
        invariant
            i <= h,
            h == f.len() / 2,
            f0@.len() == i,
            f1@.len() == i,
            forall|j: int| 0 <= j < i ==> f0@[j] == f@[2 * j],
            forall|j: int| 0 <= j < i ==> f1@[j] == f@[2 * j + 1],
        decreases h - i,
    {
        f0.push(f[2 * i]);
        f1.push(f[2 * i + 1]);
        i += 1;
    }
    assert(f0@ =~= spec_evens(f@));
    assert(f1@ =~= spec_odds(f@));
    proof {
        if f@.len() % 2 == 0 {
            lemma_split_merge(f0@, f1@, f@);
        }
    }
    (f0, f1)
}

/// Weaves two polynomials of the same length into one: the inverse of
/// `split`.
pub fn merge<T: Copy + Default>(f_list: (&[T], &[T])) -> (f: Vec<T>)
    requires
        f_list.0.len() == f_list.1.len(),
        2 * f_list.0.len() <= usize::MAX,
    ensures
        f@ == spec_weave(f_list.0@, f_list.1@),
        spec_evens(f@) == f_list.0@,
        spec_odds(f@) == f_list.1@,
{
    let (f0, f1) = f_list;
    let h: usize = f0.len();
    let mut f: Vec<T> = Vec::new();
    let mut i: usize = 0;
    while i < h
        invariant
            i <= h,
            h == f0.len(),
            h == f1.len(),
            f@.len() == 2 * i,
            forall|k: int|
                0 <= k < 2 * i ==> f@[k] == (if k % 2 == 0 {
                    f0@[k / 2]
                } else {
                    f1@[k / 2]
                }),
        decreases h - i,
    {
        f.push(f0[i]);
        f.push(f1[i]);
        i += 1;
    }
    assert(f@ =~= spec_weave(f0@, f1@));
    proof {
        lemma_split_merge(f0@, f1@, f@);
    }
    f
}

/// Splitting what was woven gives the two parts back, and weaving the parts
/// of a polynomial of even length gives the polynomial back.
pub proof fn lemma_split_merge<T>(f0: Seq<T>, f1: Seq<T>, f: Seq<T>)
    requires
        f0.len() == f1.len(),
        f.len() % 2 == 0,
    ensures
        spec_evens(spec_weave(f0, f1)) == f0,
        spec_odds(spec_weave(f0, f1)) == f1,
        spec_weave(spec_evens(f), spec_odds(f)) == f,
{
    assert(spec_evens(spec_weave(f0, f1)) =~= f0);
    assert(spec_odds(spec_weave(f0, f1)) =~= f1);
    assert(spec_weave(spec_evens(f), spec_odds(f)) =~= f);
}


/// The sum of the squares of the entries of one polynomial.
pub open spec fn sq_sum(row: Seq<int>) -> int
    decreases row.len(),
{
    if row.len() == 0 {
        0
    } else {
        sq_sum(row.drop_last()) + row.last() * row.last()
    }
}

/// The sum of the squares of all entries of a vector of polynomials: the
/// square of its Euclidean norm.
pub open spec fn sq_sum_all(rows: Seq<Seq<int>>) -> int
    decreases rows.len(),
{
    if rows.len() == 0 {
        0
    } else {
        sq_sum_all(rows.drop_last()) + sq_sum(rows.last())
    }
}

/// A vector of polynomials as sequences of integers.
pub open spec fn as_rows<T: Into<i64>>(v: Seq<Vec<T>>) -> Seq<Seq<int>> {
    Seq::new(v.len(), |i: int| Seq::new(v[i]@.len(), |j: int| v[i]@[j].into_spec() as int))
}

/// Sums of squares are not negative.
pub proof fn lemma_sq_sum_nonneg(row: Seq<int>)
    ensures
        sq_sum(row) >= 0,
    decreases row.len(),
{
    if row.len() > 0 {
        lemma_sq_sum_nonneg(row.drop_last());
        assert(row.last() * row.last() >= 0) by (nonlinear_arith);
    }
}

/// Sums of squares are not negative.
pub proof fn lemma_sq_sum_all_nonneg(rows: Seq<Seq<int>>)
    ensures
        sq_sum_all(rows) >= 0,
    decreases rows.len(),
{
    if rows.len() > 0 {
        lemma_sq_sum_all_nonneg(rows.drop_last());
        lemma_sq_sum_nonneg(rows.last());
    }
}

/// The sum over a front part of a polynomial is at most the sum over the
/// whole.
pub proof fn lemma_sq_sum_prefix(row: Seq<int>, m: int)
    requires
        0 <= m <= row.len(),
    ensures
        sq_sum(row.take(m)) <= sq_sum(row),
    decreases row.len() - m,
{
    if m == row.len() {
        assert(row.take(m) =~= row);
    } else {
        lemma_sq_sum_prefix(row, m + 1);
        let t = row.take(m + 1);
        assert(t.drop_last() =~= row.take(m));
        assert(t.last() * t.last() >= 0) by (nonlinear_arith);
    }
}

/// The sum over the first polynomials of a vector is at most the sum over
/// all of them.
pub proof fn lemma_sq_sum_all_prefix(rows: Seq<Seq<int>>, m: int)
    requires
        0 <= m <= rows.len(),
    ensures
        sq_sum_all(rows.take(m)) <= sq_sum_all(rows),
    decreases rows.len() - m,
{
    if m == rows.len() {
        assert(rows.take(m) =~= rows);
    } else {
        lemma_sq_sum_all_prefix(rows, m + 1);
        let t = rows.take(m + 1);
        assert(t.drop_last() =~= rows.take(m));
        lemma_sq_sum_nonneg(t.last());
    }
}

/// Whether the square of the Euclidean norm fits in 64 bits: what `sqnorm`
/// asks of its argument.
pub fn sqnorm_fits<T: Into<i64> + Copy>(v: &[Vec<T>]) -> (ok: bool)
    requires
        <T as IntoSpec<i64>>::obeys_into_spec(),
    ensures
        ok == (sq_sum_all(as_rows(v@)) <= i64::MAX),
{
    let ghost rows = as_rows(v@);
    let mut res: u128 = 0;
    let mut i: usize = 0;
    assert(rows.take(0) =~= Seq::<Seq<int>>::empty());
    while i < v.len()
        invariant
            i <= v.len(),
            rows == as_rows(v@),
            <T as IntoSpec<i64>>::obeys_into_spec(),
            res == sq_sum_all(rows.take(i as int)),
            res <= i64::MAX,
        decreases v.len() - i,
    {
        let elt = &v[i];
        let ghost row = rows[i as int];
        let ghost base = res as int;
        proof {
            lemma_sq_sum_all_prefix(rows, i + 1);
            assert(rows.take(i + 1).drop_last() =~= rows.take(i as int));
            assert(rows.take(i + 1).last() == row);
            assert(row.take(0) =~= Seq::<int>::empty());
        }
        let mut j: usize = 0;
        while j < elt.len()
            invariant
                j <= elt.len(),
                row.len() == elt@.len(),
                <T as IntoSpec<i64>>::obeys_into_spec(),
                forall|k: int| 0 <= k < row.len() ==> row[k] == elt@[k].into_spec() as int,
                0 <= base,
                rows == as_rows(v@),
                base + sq_sum(row) <= sq_sum_all(rows),
                res == base + sq_sum(row.take(j as int)),
                res <= i64::MAX,
            decreases elt.len() - j,
        {
            let coef: i64 = elt[j].into();
            let m: u128 = if coef < 0 {
                (-(coef as i128)) as u128
            } else {
                coef as u128
            };
            proof {
                lemma_sq_sum_prefix(row, j + 1);
                assert(row.take(j + 1).drop_last() =~= row.take(j as int));
                assert(row.take(j + 1).last() == coef);
                assert(m * m == coef * coef) by (nonlinear_arith)
                    requires
                        m == coef || m == -coef,
                ;
                assert(m * m <= 0x8000_0000_0000_0000 * 0x8000_0000_0000_0000)
                    by (nonlinear_arith)
                    requires
                        0 <= m <= 0x8000_0000_0000_0000,
                ;
            }
            let next: u128 = res + m * m;
            if next > 0x7fff_ffff_ffff_ffff {
                return false;
            }
            res = next;
            j += 1;
        }
        assert(row.take(row.len() as int) =~= row);
        i += 1;
    }
    assert(rows.take(rows.len() as int) =~= rows);
    true
}

/// The square of the Euclidean norm of a vector of polynomials.
pub fn sqnorm<T: Into<i64> + Copy>(v: &[Vec<T>]) -> (res: i64)
    requires
        <T as IntoSpec<i64>>::obeys_into_spec(),
        sq_sum_all(as_rows(v@)) <= i64::MAX,
    ensures
        res == sq_sum_all(as_rows(v@)),
{
    let ghost rows = as_rows(v@);
    let mut res: i64 = 0;
    let mut i: usize = 0;
    assert(rows.take(0) =~= Seq::<Seq<int>>::empty());
    while i < v.len()
        invariant
            i <= v.len(),
            rows == as_rows(v@),
            <T as IntoSpec<i64>>::obeys_into_spec(),
            sq_sum_all(rows) <= i64::MAX,
            res == sq_sum_all(rows.take(i as int)),
        decreases v.len() - i,
    {
        let elt = &v[i];
        let ghost row = rows[i as int];
        let ghost base = res as int;
        proof {
            lemma_sq_sum_all_prefix(rows, i + 1);
            assert(rows.take(i + 1).drop_last() =~= rows.take(i as int));
            assert(rows.take(i + 1).last() == row);
            lemma_sq_sum_all_nonneg(rows.take(i as int));
            assert(row.take(0) =~= Seq::<int>::empty());
        }
        let mut j: usize = 0;
        while j < elt.len()
            invariant
                j <= elt.len(),
                row.len() == elt@.len(),
                <T as IntoSpec<i64>>::obeys_into_spec(),
                forall|k: int| 0 <= k < row.len() ==> row[k] == elt@[k].into_spec() as int,
                base >= 0,
                base + sq_sum(row) <= i64::MAX,
                res == base + sq_sum(row.take(j as int)),
            decreases elt.len() - j,
        {
            let coef: i64 = elt[j].into();
            proof {
                lemma_sq_sum_prefix(row, j + 1);
                assert(row.take(j + 1).drop_last() =~= row.take(j as int));
                assert(row.take(j + 1).last() == coef);
                lemma_sq_sum_nonneg(row.take(j as int));
                assert(coef * coef >= 0) by (nonlinear_arith);
            }
            res += coef * coef;
            j += 1;
        }
        assert(row.take(row.len() as int) =~= row);
        i += 1;
    }
    assert(rows.take(rows.len() as int) =~= rows);
    res
}

} // verus!
