//! The root tables of the transform and the table of inverses modulo `q`.

use crate::common::Q;
use crate::falcon::spec_logn;
use crate::modq::{
    lemma_inv, lemma_modq_range, lemma_pow7_add, lemma_pow7_range, lemma_pow7_squares,
    lemma_pow7_turn, modq, pow7, spec_inv,
};
use std::collections::HashMap;
use vstd::prelude::*;

verus! {

broadcast use vstd::std_specs::hash::group_hash_axioms;

// ---------------------------------------------------------------------
// The roots, as mathematics
// ---------------------------------------------------------------------

/// Whether a size has a root table: the powers of two from 2 to 1024.
pub open spec fn has_roots(n: int) -> bool {
    spec_logn(n).is_some()
}

/// The exponent `e` for which `7^e` is root `k` of size `n`.
///
/// The roots of size `n` are the `n` roots of `x^n + 1` modulo `q`. They come
/// in pairs: the roots at `2i` and `2i + 1` are the two square roots of root
/// `i` of half the size, the smaller one first. The one root of size 1 is
/// `-1`, which is `7^1024`.
pub open spec fn root_exp(n: nat, k: nat) -> nat
    decreases n,
{
    if n <= 1 {
        1024
    } else {
        let h = root_exp(n / 2, k / 2) / 2;
        let low = if pow7(h) < Q - pow7(h) {
            h
        } else {
            h + 1024
        };
        if k % 2 == 0 {
            low
        } else {
            ((low + 1024) % 2048) as nat
        }
    }
}

/// Root `k` of size `n`.
pub open spec fn spec_root(n: nat, k: nat) -> int {
    pow7(root_exp(n, k))
}

/// The root table of size `n`.
pub open spec fn roots_of(n: nat) -> Seq<u32> {
    Seq::new(n, |k: int| spec_root(n, k as nat) as u32)
}

/// The dictionary of all root tables: one for each power of two from 2 to
/// 1024.
pub open spec fn spec_roots_dict() -> Map<usize, Seq<u32>> {
    Map::new(|n: usize| has_roots(n as int), |n: usize| roots_of(n as nat))
}

/// The table of inverses: entry `x` is the inverse of `x` modulo `q`, entry
/// zero is zero.
pub open spec fn spec_inv_table() -> Seq<u32> {
    Seq::new(Q as nat, |x: int| spec_inv(x) as u32)
}

/// Whether `e` is a multiple of the step of size `n`, which is `1024 / n`.
pub open spec fn aligned(n: int, e: int) -> bool {
    if n <= 1 {
        e % 1024 == 0
    } else if n == 2 {
        e % 512 == 0
    } else if n == 4 {
        e % 256 == 0
    } else if n == 8 {
        e % 128 == 0
    } else if n == 16 {
        e % 64 == 0
    } else if n == 32 {
        e % 32 == 0
    } else if n == 64 {
        e % 16 == 0
    } else if n == 128 {
        e % 8 == 0
    } else if n == 256 {
        e % 4 == 0
    } else if n == 512 {
        e % 2 == 0
    } else {
        true
    }
}

/// The exponent of a root is below the order of seven, and it is a multiple
/// of the step of its size: so it is even for every size below 1024.
pub proof fn lemma_root_exp_shape(n: nat, k: nat)
    requires
        n == 1 || has_roots(n as int),
    ensures
        root_exp(n, k) < 2048,
        aligned(n as int, root_exp(n, k) as int),
        n <= 512 ==> root_exp(n, k) % 2 == 0,
    decreases n,
{
    if n > 1 {
        lemma_root_exp_shape(n / 2, k / 2);
        let e = root_exp(n / 2, k / 2);
        let h = e / 2;
        let low: nat = if pow7(h) < Q - pow7(h) {
            h
        } else {
            h + 1024
        };
        let high = ((low + 1024) % 2048) as nat;
        assert(h < 1024);
        assert(high == h || high == h + 1024);
        assert(root_exp(n, k) == h || root_exp(n, k) == h + 1024);
        if n == 2 {
            assert(e % 1024 == 0);
            assert(h % 512 == 0);
            assert((h + 1024) % 512 == 0);
        } else if n == 4 {
            assert(e % 512 == 0);
            assert(h % 256 == 0);
            assert((h + 1024) % 256 == 0);
        } else if n == 8 {
            assert(e % 256 == 0);
            assert(h % 128 == 0);
            assert((h + 1024) % 128 == 0);
        } else if n == 16 {
            assert(e % 128 == 0);
            assert(h % 64 == 0);
            assert((h + 1024) % 64 == 0);
        } else if n == 32 {
            assert(e % 64 == 0);
            assert(h % 32 == 0);
            assert((h + 1024) % 32 == 0);
        } else if n == 64 {
            assert(e % 32 == 0);
            assert(h % 16 == 0);
            assert((h + 1024) % 16 == 0);
        } else if n == 128 {
            assert(e % 16 == 0);
            assert(h % 8 == 0);
            assert((h + 1024) % 8 == 0);
        } else if n == 256 {
            assert(e % 8 == 0);
            assert(h % 4 == 0);
            assert((h + 1024) % 4 == 0);
        } else if n == 512 {
            assert(e % 4 == 0);
            assert(h % 2 == 0);
            assert((h + 1024) % 2 == 0);
        } else if n == 1024 {
            assert(e % 2 == 0);
            assert(h % 1 == 0);
            assert((h + 1024) % 1 == 0);
        }
    }
}

/// What makes the roots of size `n` the roots of `x^n + 1`: they are residues
/// other than zero; the root at `2i + 1` is the negative of the root at `2i`
/// and the larger of the two; and the square of either is root `i` of half
/// the size.
pub proof fn lemma_root_pair(n: nat, i: nat)
    requires
        has_roots(n as int),
        2 * i < n,
    ensures
        0 < spec_root(n, 2 * i) < Q,
        spec_root(n, 2 * i + 1) == Q - spec_root(n, 2 * i),
        spec_root(n, 2 * i) < spec_root(n, 2 * i + 1),
        modq(spec_root(n, 2 * i) * spec_root(n, 2 * i)) == spec_root(n / 2, i),
{
    let m = n / 2;
    lemma_root_exp_shape(m, i);
    let e = root_exp(m, i);
    let h = e / 2;
    assert((2 * i) / 2 == i);
    assert((2 * i + 1) / 2 == i);
    assert(e == root_exp(n / 2, (2 * i) / 2));
    assert(e == root_exp(n / 2, (2 * i + 1) / 2));
    lemma_pow7_range(h);
    lemma_pow7_turn(h);
    let low: nat = if pow7(h) < Q - pow7(h) {
        h
    } else {
        h + 1024
    };
    assert(root_exp(n, 2 * i) == low);
    let high = ((low + 1024) % 2048) as nat;
    assert(root_exp(n, 2 * i + 1) == high);
    lemma_pow7_range(low);
    lemma_pow7_turn(low);
    if low == h + 1024 {
        assert(high == h);
    }
    assert(pow7(high) == Q - pow7(low));
    assert(pow7(low) != Q - pow7(low));
    lemma_pow7_add(low, low);
    if low == h + 1024 {
        lemma_pow7_turn(e);
        assert(low + low == e + 2048);
    } else {
        assert(low + low == e);
    }
}

/// The one root of size 2 that comes first is 1479, a square root of `-1`.
pub proof fn lemma_root_of_two()
    ensures
        spec_root(2, 0) == 1479,
        spec_root(2, 1) == 10810,
{
    lemma_pow7_squares();
    lemma_pow7_turn(512);
    assert(root_exp(1, 0) == 1024);
    assert(root_exp(2, 0) == 1536) by {
        assert(root_exp(2nat / 2, 0nat / 2) == 1024);
    }
    assert(root_exp(2, 1) == 512) by {
        assert(root_exp(2nat / 2, 1nat / 2) == 1024);
    }
}

// ---------------------------------------------------------------------
// The tables
// ---------------------------------------------------------------------

/// The powers of seven, from `7^0` to `7^2047`.
fn powers() -> (pw: Vec<u32>)
    ensures
        pw@.len() == 2048,
        forall|e: int| 0 <= e < 2048 ==> pw@[e] == pow7(e as nat),
{
    let mut pw: Vec<u32> = Vec::new();
    pw.push(1);
    let mut e: usize = 1;
    while e < 2048
        invariant
            1 <= e <= 2048,
            pw@.len() == e,
            forall|j: int| 0 <= j < e ==> pw@[j] == pow7(j as nat),
        decreases 2048 - e,
    {
        proof {
            lemma_pow7_range((e - 1) as nat);
            lemma_modq_range(7 * pow7((e - 1) as nat));
        }
        let next: u64 = (7 * (pw[e - 1] as u64)) % 12289;
        pw.push(next as u32);
        e += 1;
    }
    pw
}

/// The exponents and the roots of size `n`, from the exponents of half the
/// size.
fn next_level(pw: &Vec<u32>, prev: &Vec<u32>, n: usize) -> (r: (Vec<u32>, Vec<u32>))
    requires
        pw@.len() == 2048,
        forall|e: int| 0 <= e < 2048 ==> pw@[e] == pow7(e as nat),
        2 <= n <= 1024,
        n == 2 * prev@.len(),
        forall|i: int| 0 <= i < prev@.len() ==> prev@[i] == root_exp((n / 2) as nat, i as nat),
        forall|i: int| 0 <= i < prev@.len() ==> prev@[i] < 2048,
    ensures
        r.0@.len() == n,
        forall|k: int| 0 <= k < n ==> r.0@[k] == root_exp(n as nat, k as nat),
        forall|k: int| 0 <= k < n ==> r.0@[k] < 2048,
        r.1@ == roots_of(n as nat),
{
    let half: usize = n / 2;
    let mut exps: Vec<u32> = Vec::new();
    let mut vals: Vec<u32> = Vec::new();
    let mut i: usize = 0;
    while i < half
        invariant
            i <= half,
            half == n / 2,
            n == 2 * prev@.len(),
            2 <= n <= 1024,
            pw@.len() == 2048,
            forall|e: int| 0 <= e < 2048 ==> pw@[e] == pow7(e as nat),
            forall|j: int| 0 <= j < prev@.len() ==> prev@[j] == root_exp((n / 2) as nat, j as nat),
            forall|j: int| 0 <= j < prev@.len() ==> prev@[j] < 2048,
            exps@.len() == 2 * i,
            vals@.len() == 2 * i,
            forall|k: int| 0 <= k < 2 * i ==> exps@[k] == root_exp(n as nat, k as nat),
            forall|k: int| 0 <= k < 2 * i ==> exps@[k] < 2048,
            forall|k: int| 0 <= k < 2 * i ==> vals@[k] == spec_root(n as nat, k as nat),
        decreases half - i,
    {
        let h: u32 = prev[i] / 2;
        let s: u32 = pw[h as usize];
        proof {
            lemma_pow7_range(h as nat);
            assert((2 * i) / 2 == i);
            assert((2 * i + 1) / 2 == i);
            assert(root_exp((n / 2) as nat, ((2 * i) / 2) as nat) == prev@[i as int]);
            assert(root_exp((n / 2) as nat, ((2 * i + 1) / 2) as nat) == prev@[i as int]);
        }
        let low: u32 = if s < 12289 - s {
            h
        } else {
            h + 1024
        };
        let high: u32 = (low + 1024) % 2048;
        proof {
            assert(root_exp(n as nat, (2 * i) as nat) == low);
            assert(root_exp(n as nat, (2 * i + 1) as nat) == high);
            lemma_pow7_range(low as nat);
            lemma_pow7_range(high as nat);
        }
        exps.push(low);
        exps.push(high);
        vals.push(pw[low as usize]);
        vals.push(pw[high as usize]);
        i += 1;
    }
    assert(vals@ =~= roots_of(n as nat)) by {
        assert forall|k: int| 0 <= k < n implies vals@[k] == roots_of(n as nat)[k] by {
            lemma_pow7_range(root_exp(n as nat, k as nat));
        }
    }
    (exps, vals)
}

/// The sizes whose base-two logarithm is at most `levels`.
pub open spec fn sizes_upto(levels: nat) -> Set<usize> {
    Set::new(|n: usize| has_roots(n as int) && spec_logn(n as int).unwrap() <= levels)
}

/// The size with base-two logarithm `level`, from 1 to 10.
pub open spec fn size_of_level(level: nat) -> usize {
    if level <= 1 {
        2
    } else if level == 2 {
        4
    } else if level == 3 {
        8
    } else if level == 4 {
        16
    } else if level == 5 {
        32
    } else if level == 6 {
        64
    } else if level == 7 {
        128
    } else if level == 8 {
        256
    } else if level == 9 {
        512
    } else {
        1024
    }
}

/// There are as many sizes up to a level as the level says, and ten at most.
pub proof fn lemma_sizes_upto(levels: nat)
    ensures
        sizes_upto(levels).finite(),
        sizes_upto(levels).len() == (if levels <= 10 {
            levels
        } else {
            10
        }),
    decreases levels,
{
    if levels == 0 {
        assert(sizes_upto(levels) =~= Set::<usize>::empty());
    } else if levels > 10 {
        lemma_sizes_upto((levels - 1) as nat);
        assert(sizes_upto(levels) =~= sizes_upto((levels - 1) as nat));
    } else {
        let below = sizes_upto((levels - 1) as nat);
        let top = size_of_level(levels);
        lemma_sizes_upto((levels - 1) as nat);
        assert(spec_logn(top as int) == Some(levels as int));
        assert(!below.contains(top));
        assert(sizes_upto(levels) =~= below.insert(top));
    }
}

/// The view of a dictionary of tables: every table seen as a sequence.
pub open spec fn dict_view(m: Map<usize, Vec<u32>>) -> Map<usize, Seq<u32>> {
    Map::new(|n: usize| m.contains_key(n), |n: usize| m[n]@)
}

/// Builds the root tables of the integer transform: for every power of two
/// `n` from 2 to 1024 the `n` roots of `x^n + 1` modulo `q`, in the order in
/// which the transform uses them.
pub fn roots_dict_zq() -> (d: HashMap<usize, Vec<u32>>)
    ensures
        dict_view(d@) == spec_roots_dict(),
        d@.len() == 10,
{
    let pw = powers();
    let mut d: HashMap<usize, Vec<u32>> = HashMap::new();
    let mut exps: Vec<u32> = Vec::new();
    exps.push(1024);
    let mut n: usize = 1;
    let mut level: usize = 0;
    assert(d@.dom() =~= sizes_upto(0));
    while level < 10
        invariant
            level <= 10,
            level == 0 ==> n == 1,
            level > 0 ==> spec_logn(n as int) == Some(level as int),
            pw@.len() == 2048,
            forall|e: int| 0 <= e < 2048 ==> pw@[e] == pow7(e as nat),
            exps@.len() == n,
            forall|i: int| 0 <= i < n ==> exps@[i] == root_exp(n as nat, i as nat),
            forall|i: int| 0 <= i < n ==> exps@[i] < 2048,
            d@.dom() == sizes_upto(level as nat),
            forall|m: usize| d@.contains_key(m) ==> (#[trigger] d@[m])@ == roots_of(m as nat),
        decreases 10 - level,
    {
        let size: usize = 2 * n;
        let (next_exps, vals) = next_level(&pw, &exps, size);
        let ghost before = d@;
        d.insert(size, vals);
        exps = next_exps;
        n = size;
        level += 1;
        assert(d@.dom() =~= sizes_upto(level as nat)) by {
            assert forall|m: usize| d@.dom().contains(m) <==> sizes_upto(level as nat).contains(
                m,
            ) by {
                if m != size {
                    assert(d@.dom().contains(m) == before.dom().contains(m));
                }
            }
        }
    }
    proof {
        lemma_sizes_upto(10);
        assert(dict_view(d@) =~= spec_roots_dict());
    }
    d
}

/// The root tables; the same as `roots_dict_zq`.
pub fn get_roots_dict() -> (d: HashMap<usize, Vec<u32>>)
    ensures
        dict_view(d@) == spec_roots_dict(),
        d@.len() == 10,
{
    roots_dict_zq()
}

/// The table of size `n` of a dictionary that has one.
pub fn table_of(dict: &HashMap<usize, Vec<u32>>, n: usize) -> (w: &Vec<u32>)
    requires
        dict@.contains_key(n),
    ensures
        *w == dict@[n],
{
    dict.get(&n).unwrap()
}

/// In the dictionary of all root tables the sizes from 2 to 1024 are found,
/// each with its table.
pub proof fn lemma_dict_lookup(m: Map<usize, Vec<u32>>, n: usize)
    requires
        dict_view(m) == spec_roots_dict(),
        has_roots(n as int),
    ensures
        m.contains_key(n),
        m[n]@ == roots_of(n as nat),
{
    assert(spec_roots_dict().contains_key(n));
    assert(dict_view(m).contains_key(n));
    assert(dict_view(m)[n] == m[n]@);
}

/// Builds the table of inverses modulo `q`: `q` entries, entry `x` the
/// inverse of `x`, entry zero zero.
pub fn get_inv_mod_q() -> (inv: Vec<u32>)
    ensures
        inv@ == spec_inv_table(),
{
    let mut inv: Vec<u32> = Vec::new();
    inv.push(0);
    inv.push(1);
    let mut x: usize = 2;
    while x < 12289
        invariant
            2 <= x <= 12289,
            inv@.len() == x,
            forall|j: int| 0 <= j < x ==> inv@[j] == spec_inv(j),
            forall|j: int| 0 <= j < x ==> inv@[j] < 12289,
        decreases 12289 - x,
    {
        let r: usize = 12289 % x;
        let t: u64 = (12289 / x) as u64;
        proof {
            lemma_modq_range((12289 - t) * spec_inv(r as int));
            assert(spec_inv(x as int) == modq(
                (Q - (Q as int) / (x as int)) * spec_inv((Q as int) % (x as int)),
            ));
            assert((12289 - t) * inv@[r as int] <= 12289 * 12289) by (nonlinear_arith)
                requires
                    0 <= 12289 - t <= 12289,
                    0 <= inv@[r as int] <= 12289,
            ;
        }
        let y: u64 = ((12289 - t) * (inv[r] as u64)) % 12289;
        inv.push(y as u32);
        x += 1;
    }
    assert(inv@ =~= spec_inv_table()) by {
        assert forall|j: int| 0 <= j < 12289 implies inv@[j] == spec_inv_table()[j] by {
            if j > 0 {
                lemma_inv(j);
            }
        }
    }
    inv
}

} // verus!
