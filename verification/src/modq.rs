//! Arithmetic modulo the prime `q`: residues, inverses, and the powers of a
//! number of order 2048 from which the roots of the transform are taken.

use crate::common::Q;
use vstd::arithmetic::div_mod::{
    lemma_add_mod_noop, lemma_fundamental_div_mod, lemma_mod_multiples_basic,
    lemma_mod_multiples_vanish, lemma_mul_mod_noop_general, lemma_sub_mod_noop,
};
use vstd::prelude::*;

verus! {

// ---------------------------------------------------------------------
// Residues modulo q
// ---------------------------------------------------------------------

/// The residue of `x` modulo `q`, between `0` and `q - 1`.
pub open spec fn modq(x: int) -> int {
    x % (Q as int)
}

/// Whether every entry is a residue: at least `0` and below `q`.
pub open spec fn reduced(f: Seq<int>) -> bool {
    forall|i: int| 0 <= i < f.len() ==> 0 <= #[trigger] f[i] < Q
}

/// Every entry taken modulo `q`.
pub open spec fn reduce(f: Seq<int>) -> Seq<int> {
    Seq::new(f.len(), |i: int| modq(f[i]))
}

/// A residue lies between `0` and `q - 1`, and a number in that range is its
/// own residue.
pub proof fn lemma_modq_range(x: int)
    ensures
        0 <= modq(x) < Q,
        0 <= x < Q ==> modq(x) == x,
        modq(modq(x)) == modq(x),
{
}

/// Residues may be taken before adding.
pub proof fn lemma_modq_add(x: int, y: int)
    ensures
        modq(x + y) == modq(modq(x) + modq(y)),
        modq(x + y) == modq(modq(x) + y),
        modq(x + y) == modq(x + modq(y)),
{
    lemma_add_mod_noop(x, y, Q as int);
    lemma_add_mod_noop(modq(x), y, Q as int);
    lemma_add_mod_noop(x, modq(y), Q as int);
}

/// Residues may be taken before subtracting.
pub proof fn lemma_modq_sub(x: int, y: int)
    ensures
        modq(x - y) == modq(modq(x) - modq(y)),
        modq(x - y) == modq(modq(x) - y),
        modq(x - y) == modq(x - modq(y)),
{
    lemma_sub_mod_noop(x, y, Q as int);
    lemma_sub_mod_noop(modq(x), y, Q as int);
    lemma_sub_mod_noop(x, modq(y), Q as int);
}

/// Residues may be taken before multiplying.
pub proof fn lemma_modq_mul(x: int, y: int)
    ensures
        modq(x * y) == modq(modq(x) * modq(y)),
        modq(x * y) == modq(modq(x) * y),
        modq(x * y) == modq(x * modq(y)),
{
    lemma_mul_mod_noop_general(x, y, Q as int);
}

/// Multiples of `q` do not change a residue.
pub proof fn lemma_modq_multiple(k: int, x: int)
    ensures
        modq(Q * k + x) == modq(x),
        modq(x + Q * k) == modq(x),
        modq(x - Q * k) == modq(x),
{
    lemma_mod_multiples_vanish(k, x, Q as int);
    lemma_mod_multiples_vanish(-k, x, Q as int);
    assert(Q * (-k) == -(Q * k)) by (nonlinear_arith);
}

/// Two numbers with the same residue differ by a multiple of `q`.
pub proof fn lemma_modq_same(x: int, y: int)
    requires
        modq(x) == modq(y),
    ensures
        x - y == Q * (x / (Q as int) - y / (Q as int)),
{
    lemma_fundamental_div_mod(x, Q as int);
    lemma_fundamental_div_mod(y, Q as int);
    assert(Q * (x / (Q as int)) - Q * (y / (Q as int)) == Q * (x / (Q as int) - y / (Q as int)))
        by (nonlinear_arith);
}

// ---------------------------------------------------------------------
// q is prime
// ---------------------------------------------------------------------

/// No number from 2 to 110 divides `q`.
proof fn lemma_no_small_divisor(d: int)
    requires
        2 <= d <= 110,
    ensures
        12289int % d != 0,
{
    if d == 2 {
        assert(12289int % 2 == 1);
    } else if d == 3 {
        assert(12289int % 3 == 1);
    } else if d == 4 {
        assert(12289int % 4 == 1);
    } else if d == 5 {
        assert(12289int % 5 == 4);
    } else if d == 6 {
        assert(12289int % 6 == 1);
    } else if d == 7 {
        assert(12289int % 7 == 4);
    } else if d == 8 {
        assert(12289int % 8 == 1);
    } else if d == 9 {
        assert(12289int % 9 == 4);
    } else if d == 10 {
        assert(12289int % 10 == 9);
    } else if d == 11 {
        assert(12289int % 11 == 2);
    } else if d == 12 {
        assert(12289int % 12 == 1);
    } else if d == 13 {
        assert(12289int % 13 == 4);
    } else if d == 14 {
        assert(12289int % 14 == 11);
    } else if d == 15 {
        assert(12289int % 15 == 4);
    } else if d == 16 {
        assert(12289int % 16 == 1);
    } else if d == 17 {
        assert(12289int % 17 == 15);
    } else if d == 18 {
        assert(12289int % 18 == 13);
    } else if d == 19 {
        assert(12289int % 19 == 15);
    } else if d == 20 {
        assert(12289int % 20 == 9);
    } else if d == 21 {
        assert(12289int % 21 == 4);
    } else if d == 22 {
        assert(12289int % 22 == 13);
    } else if d == 23 {
        assert(12289int % 23 == 7);
    } else if d == 24 {
        assert(12289int % 24 == 1);
    } else if d == 25 {
        assert(12289int % 25 == 14);
    } else if d == 26 {
        assert(12289int % 26 == 17);
    } else if d == 27 {
        assert(12289int % 27 == 4);
    } else if d == 28 {
        assert(12289int % 28 == 25);
    } else if d == 29 {
        assert(12289int % 29 == 22);
    } else if d == 30 {
        assert(12289int % 30 == 19);
    } else if d == 31 {
        assert(12289int % 31 == 13);
    } else if d == 32 {
        assert(12289int % 32 == 1);
    } else if d == 33 {
        assert(12289int % 33 == 13);
    } else if d == 34 {
        assert(12289int % 34 == 15);
    } else if d == 35 {
        assert(12289int % 35 == 4);
    } else if d == 36 {
        assert(12289int % 36 == 13);
    } else if d == 37 {
        assert(12289int % 37 == 5);
    } else if d == 38 {
        assert(12289int % 38 == 15);
    } else if d == 39 {
        assert(12289int % 39 == 4);
    } else if d == 40 {
        assert(12289int % 40 == 9);
    } else if d == 41 {
        assert(12289int % 41 == 30);
    } else if d == 42 {
        assert(12289int % 42 == 25);
    } else if d == 43 {
        assert(12289int % 43 == 34);
    } else if d == 44 {
        assert(12289int % 44 == 13);
    } else if d == 45 {
        assert(12289int % 45 == 4);
    } else if d == 46 {
        assert(12289int % 46 == 7);
    } else if d == 47 {
        assert(12289int % 47 == 22);
    } else if d == 48 {
        assert(12289int % 48 == 1);
    } else if d == 49 {
        assert(12289int % 49 == 39);
    } else if d == 50 {
        assert(12289int % 50 == 39);
    } else if d == 51 {
        assert(12289int % 51 == 49);
    } else if d == 52 {
        assert(12289int % 52 == 17);
    } else if d == 53 {
        assert(12289int % 53 == 46);
    } else if d == 54 {
        assert(12289int % 54 == 31);
    } else if d == 55 {
        assert(12289int % 55 == 24);
    } else if d == 56 {
        assert(12289int % 56 == 25);
    } else if d == 57 {
        assert(12289int % 57 == 34);
    } else if d == 58 {
        assert(12289int % 58 == 51);
    } else if d == 59 {
        assert(12289int % 59 == 17);
    } else if d == 60 {
        assert(12289int % 60 == 49);
    } else if d == 61 {
        assert(12289int % 61 == 28);
    } else if d == 62 {
        assert(12289int % 62 == 13);
    } else if d == 63 {
        assert(12289int % 63 == 4);
    } else if d == 64 {
        assert(12289int % 64 == 1);
    } else if d == 65 {
        assert(12289int % 65 == 4);
    } else if d == 66 {
        assert(12289int % 66 == 13);
    } else if d == 67 {
        assert(12289int % 67 == 28);
    } else if d == 68 {
        assert(12289int % 68 == 49);
    } else if d == 69 {
        assert(12289int % 69 == 7);
    } else if d == 70 {
        assert(12289int % 70 == 39);
    } else if d == 71 {
        assert(12289int % 71 == 6);
    } else if d == 72 {
        assert(12289int % 72 == 49);
    } else if d == 73 {
        assert(12289int % 73 == 25);
    } else if d == 74 {
        assert(12289int % 74 == 5);
    } else if d == 75 {
        assert(12289int % 75 == 64);
    } else if d == 76 {
        assert(12289int % 76 == 53);
    } else if d == 77 {
        assert(12289int % 77 == 46);
    } else if d == 78 {
        assert(12289int % 78 == 43);
    } else if d == 79 {
        assert(12289int % 79 == 44);
    } else if d == 80 {
        assert(12289int % 80 == 49);
    } else if d == 81 {
        assert(12289int % 81 == 58);
    } else if d == 82 {
        assert(12289int % 82 == 71);
    } else if d == 83 {
        assert(12289int % 83 == 5);
    } else if d == 84 {
        assert(12289int % 84 == 25);
    } else if d == 85 {
        assert(12289int % 85 == 49);
    } else if d == 86 {
        assert(12289int % 86 == 77);
    } else if d == 87 {
        assert(12289int % 87 == 22);
    } else if d == 88 {
        assert(12289int % 88 == 57);
    } else if d == 89 {
        assert(12289int % 89 == 7);
    } else if d == 90 {
        assert(12289int % 90 == 49);
    } else if d == 91 {
        assert(12289int % 91 == 4);
    } else if d == 92 {
        assert(12289int % 92 == 53);
    } else if d == 93 {
        assert(12289int % 93 == 13);
    } else if d == 94 {
        assert(12289int % 94 == 69);
    } else if d == 95 {
        assert(12289int % 95 == 34);
    } else if d == 96 {
        assert(12289int % 96 == 1);
    } else if d == 97 {
        assert(12289int % 97 == 67);
    } else if d == 98 {
        assert(12289int % 98 == 39);
    } else if d == 99 {
        assert(12289int % 99 == 13);
    } else if d == 100 {
        assert(12289int % 100 == 89);
    } else if d == 101 {
        assert(12289int % 101 == 68);
    } else if d == 102 {
        assert(12289int % 102 == 49);
    } else if d == 103 {
        assert(12289int % 103 == 32);
    } else if d == 104 {
        assert(12289int % 104 == 17);
    } else if d == 105 {
        assert(12289int % 105 == 4);
    } else if d == 106 {
        assert(12289int % 106 == 99);
    } else if d == 107 {
        assert(12289int % 107 == 91);
    } else if d == 108 {
        assert(12289int % 108 == 85);
    } else if d == 109 {
        assert(12289int % 109 == 81);
    } else if d == 110 {
        assert(12289int % 110 == 79);
    }
}

/// `q` is prime: no number strictly between 1 and `q` divides it.
pub proof fn lemma_q_prime(d: int)
    requires
        1 < d < Q,
    ensures
        (Q as int) % d != 0,
{
    if d <= 110 {
        lemma_no_small_divisor(d);
    } else if 12289int % d == 0 {
        let k = 12289int / d;
        lemma_fundamental_div_mod(12289, d);
        assert(12289 == d * k);
        assert(2 <= k <= 110) by (nonlinear_arith)
            requires
                12289 == d * k,
                111 <= d < 12289,
        ;
        lemma_no_small_divisor(k);
        lemma_mod_multiples_basic(d, k);
        assert(d * k == k * d) by (nonlinear_arith);
    }
}

// ---------------------------------------------------------------------
// Inverses
// ---------------------------------------------------------------------

/// The inverse of `x` modulo `q`, for `0 < x < q`; zero for zero.
pub open spec fn spec_inv(x: int) -> int
    decreases x,
    when 0 <= x
    via spec_inv_decreases
{
    if x <= 0 {
        0
    } else if x == 1 {
        1
    } else {
        modq((Q - (Q as int) / x) * spec_inv((Q as int) % x))
    }
}

#[via_fn]
proof fn spec_inv_decreases(x: int) {
    if x > 1 {
        assert(0 <= 12289int % x < x) by (nonlinear_arith)
            requires
                x > 1,
        ;
    }
}

/// `spec_inv(x)` is the inverse of `x`: a residue other than zero whose
/// product with `x` has residue one.
pub proof fn lemma_inv(x: int)
    requires
        0 < x < Q,
    ensures
        0 < spec_inv(x) < Q,
        modq(x * spec_inv(x)) == 1,
    decreases x,
{
    if x > 1 {
        let r = 12289int % x;
        let t = 12289int / x;
        lemma_fundamental_div_mod(12289, x);
        lemma_q_prime(x);
        assert(0 < r < x) by (nonlinear_arith)
            requires
                x > 1,
                r == 12289int % x,
                r != 0,
        ;
        lemma_inv(r);
        let ir = spec_inv(r);
        let y = (12289 - t) * ir;
        assert(spec_inv(x) == modq(y));
        lemma_modq_mul(x, y);
        assert(x * y == 12289 * ((x - 1) * ir) + r * ir) by (nonlinear_arith)
            requires
                12289 == x * t + r,
                y == (12289 - t) * ir,
        ;
        lemma_modq_multiple((x - 1) * ir, r * ir);
        assert(modq(x * modq(y)) == 1);
        if modq(y) == 0 {
            assert(x * modq(y) == 0) by (nonlinear_arith)
                requires
                    modq(y) == 0,
            ;
        }
    }
}

/// A product with residue zero has a factor with residue zero.
pub proof fn lemma_no_zero_divisors(x: int, y: int)
    requires
        modq(x * y) == 0,
    ensures
        modq(x) == 0 || modq(y) == 0,
{
    let a = modq(x);
    if a != 0 {
        lemma_inv(a);
        let ia = spec_inv(a);
        lemma_modq_mul(x, y);
        assert(modq(a * y) == 0);
        // y == (ia * a) * y == ia * (a * y) == 0, all modulo q
        lemma_modq_mul(ia, a * y);
        assert(modq(ia * (a * y)) == modq(ia * 0));
        assert(ia * (a * y) == (a * ia) * y) by (nonlinear_arith);
        lemma_modq_mul(a * ia, y);
        assert(modq((a * ia) * y) == modq(1 * y));
    }
}

// ---------------------------------------------------------------------
// Powers of seven
// ---------------------------------------------------------------------

/// The residue of `7^e`. Seven has order 2048 modulo `q`.
pub open spec fn pow7(e: nat) -> int
    decreases e,
{
    if e == 0 {
        1
    } else {
        modq(7 * pow7((e - 1) as nat))
    }
}

/// Powers of seven are residues other than zero.
pub proof fn lemma_pow7_range(e: nat)
    ensures
        0 < pow7(e) < Q,
    decreases e,
{
    if e > 0 {
        let y = pow7((e - 1) as nat);
        lemma_pow7_range((e - 1) as nat);
        if modq(7 * y) == 0 {
            lemma_no_zero_divisors(7, y);
        }
    }
}

/// Exponents add where powers multiply.
pub proof fn lemma_pow7_add(a: nat, b: nat)
    ensures
        pow7(a + b) == modq(pow7(a) * pow7(b)),
    decreases b,
{
    if b == 0 {
        lemma_pow7_range(a);
        assert(pow7(a) * 1 == pow7(a)) by (nonlinear_arith);
    } else {
        let c = (b - 1) as nat;
        lemma_pow7_add(a, c);
        let x = pow7(a);
        let y = pow7(c);
        assert(pow7(a + b) == modq(7 * pow7((a + b - 1) as nat)));
        assert((a + b - 1) as nat == a + c);
        lemma_modq_mul(7, x * y);
        lemma_modq_mul(x, 7 * y);
        assert(7 * (x * y) == x * (7 * y)) by (nonlinear_arith);
    }
}

/// The powers of seven whose exponents are powers of two, up to the order
/// of seven.
pub proof fn lemma_pow7_squares()
    ensures
        pow7(1) == 7,
        pow7(2) == 49,
        pow7(4) == 2401,
        pow7(8) == 1260,
        pow7(16) == 2319,
        pow7(32) == 7468,
        pow7(64) == 3542,
        pow7(128) == 10984,
        pow7(256) == 7143,
        pow7(512) == 10810,
        pow7(1024) == 12288,
        pow7(2048) == 1,
{
    assert(pow7(1) == 7) by {
        assert(pow7(0) == 1);
        assert(pow7(1) == modq(7 * pow7(0)));
    }
    lemma_pow7_add(1, 1);
    assert(modq(7int * 7) == 49);
    assert(pow7(2) == 49);
    lemma_pow7_add(2, 2);
    assert(modq(49int * 49) == 2401);
    assert(pow7(4) == 2401);
    lemma_pow7_add(4, 4);
    assert(modq(2401int * 2401) == 1260);
    assert(pow7(8) == 1260);
    lemma_pow7_add(8, 8);
    assert(modq(1260int * 1260) == 2319);
    assert(pow7(16) == 2319);
    lemma_pow7_add(16, 16);
    assert(modq(2319int * 2319) == 7468);
    assert(pow7(32) == 7468);
    lemma_pow7_add(32, 32);
    assert(modq(7468int * 7468) == 3542);
    assert(pow7(64) == 3542);
    lemma_pow7_add(64, 64);
    assert(modq(3542int * 3542) == 10984);
    assert(pow7(128) == 10984);
    lemma_pow7_add(128, 128);
    assert(modq(10984int * 10984) == 7143);
    assert(pow7(256) == 7143);
    lemma_pow7_add(256, 256);
    assert(modq(7143int * 7143) == 10810);
    assert(pow7(512) == 10810);
    lemma_pow7_add(512, 512);
    assert(modq(10810int * 10810) == 12288);
    assert(pow7(1024) == 12288);
    lemma_pow7_add(1024, 1024);
    assert(modq(12288int * 12288) == 1);
    assert(pow7(2048) == 1);
}

/// Seven has order 2048: adding 2048 to an exponent changes nothing, and
/// adding 1024 changes the sign.
pub proof fn lemma_pow7_turn(e: nat)
    ensures
        pow7(e + 2048) == pow7(e),
        pow7(e + 1024) == Q - pow7(e),
{
    lemma_pow7_squares();
    lemma_pow7_range(e);
    lemma_pow7_add(e, 2048);
    lemma_pow7_add(e, 1024);
    let x = pow7(e);
    assert(x * 1 == x) by (nonlinear_arith);
    assert(x * 12288 == 12289 * (x - 1) + (12289 - x)) by (nonlinear_arith);
    lemma_modq_multiple(x - 1, 12289 - x);
}

} // verus!
