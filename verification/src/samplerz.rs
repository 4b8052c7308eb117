//! The integer steps of the discrete Gaussian sampler: the base sample from a
//! table, the fixed-point approximation of the exponential, and the
//! byte-by-byte acceptance test.

use crate::rng::{advanced, can_serve, emitted, ChaCha20, ChaChaView};
use vstd::prelude::*;

verus! {

/// Number of bits of the random integer that the base sampler draws.
pub const RCDT_PREC: usize = 72;

/// The reverse cumulative distribution table of the half Gaussian of
/// deviation `MAX_SIGMA`, scaled to 72 bits: a falling row of thresholds.
pub const RCDT: [u128; 18] = [
    3024686241123004913666,
    1564742784480091954050,
    636254429462080897535,
    199560484645026482916,
    47667343854657281903,
    8595902006365044063,
    1163297957344668388,
    117656387352093658,
    8867391802663976,
    496969357462633,
    20680885154299,
    638331848991,
    14602316184,
    247426747,
    3104126,
    28824,
    198,
    1,
];

/// The coefficients of the polynomial that approximates `exp(-x)` on
/// `[0, ln 2]`, in 63-bit fixed point, from the highest degree down.
pub const C: [u64; 13] = [
    0x00000004741183A3,
    0x00000036548CFC06,
    0x0000024FDCBF140A,
    0x0000171D939DE045,
    0x0000D00CF58F6F84,
    0x000680681CF796E3,
    0x002D82D8305B0FEA,
    0x011111110E066FD0,
    0x0555555555070F00,
    0x155555555581FF00,
    0x400000000002B400,
    0x7FFFFFFFFFFF4800,
    0x8000000000000000,
];

// ---------------------------------------------------------------------
// Models
// ---------------------------------------------------------------------

/// The 72-bit number that nine bytes spell, least significant byte first.
pub open spec fn le72(buf: Seq<u8>) -> int {
    buf[0] + 0x100 * buf[1] + 0x1_0000 * buf[2] + 0x100_0000 * buf[3] + 0x1_0000_0000 * buf[4]
        + 0x100_0000_0000 * buf[5] + 0x1_0000_0000_0000 * buf[6] + 0x100_0000_0000_0000 * buf[7]
        + 0x1_0000_0000_0000_0000 * buf[8]
}

/// How many of the first `m` thresholds of the table lie above `u`.
pub open spec fn rcdt_rank(u: int, m: nat) -> nat
    decreases m,
{
    if m == 0 {
        0
    } else {
        rcdt_rank(u, (m - 1) as nat) + if u < RCDT[m - 1] {
            1nat
        } else {
            0nat
        }
    }
}

/// The base sample that nine random bytes give: the number of thresholds
/// above the number that they spell, from 0 to 18.
pub open spec fn spec_base_sample(buf: Seq<u8>) -> nat {
    rcdt_rank(le72(buf), 18)
}

/// The polynomial of `C` evaluated at `z` by Horner's rule in fixed point,
/// as far as coefficient `i`. Every product is shifted down by 63 bits.
pub open spec fn horner(z: int, i: nat) -> int
    decreases i,
{
    if i == 0 {
        C[0] as int
    } else {
        C[i as int] - (z * horner(z, (i - 1) as nat)) / 0x8000_0000_0000_0000
    }
}

/// The fixed-point approximation of `ccs * exp(-x)`, scaled by `2^64`. The
/// arguments are `x` and `ccs` scaled by `2^63`.
pub open spec fn spec_approxexp(x63: int, ccs63: int) -> int {
    (2 * ccs63 * horner(x63, 12)) / 0x8000_0000_0000_0000
}

/// `2^k` for `k` from 0 to 63.
pub open spec fn pow2_64(k: nat) -> int
    decreases k,
{
    if k == 0 {
        1
    } else {
        2 * pow2_64((k - 1) as nat)
    }
}

/// The 64-bit threshold that the acceptance test compares random bytes
/// with: the approximation less one, shifted down by `s` bits, at most 63.
pub open spec fn threshold(s: nat, v: int) -> int {
    (v - 1) / pow2_64(if s < 63 { s } else { 63 })
}

/// Byte `j` of a 64-bit number, the most significant byte first.
pub open spec fn be_byte(z: int, j: int) -> int {
    if j == 0 {
        (z / 0x100_0000_0000_0000) % 0x100
    } else if j == 1 {
        (z / 0x1_0000_0000_0000) % 0x100
    } else if j == 2 {
        (z / 0x100_0000_0000) % 0x100
    } else if j == 3 {
        (z / 0x1_0000_0000) % 0x100
    } else if j == 4 {
        (z / 0x100_0000) % 0x100
    } else if j == 5 {
        (z / 0x1_0000) % 0x100
    } else if j == 6 {
        (z / 0x100) % 0x100
    } else {
        z % 0x100
    }
}

/// What one random byte decides: acceptance where it is below byte `j` of
/// the threshold, rejection where it is above, nothing where they are equal.
pub open spec fn spec_berexp_step(z: int, j: int, p: u8) -> Option<bool> {
    if p < be_byte(z, j) {
        Some(true)
    } else if p > be_byte(z, j) {
        Some(false)
    } else {
        None
    }
}

/// Whether a generator can hand out `count` single bytes, one at a time.
pub open spec fn can_draw(g: ChaChaView, count: nat) -> bool {
    count <= 512 && (g.pending.len() >= count || g.ctr + 8 <= u64::MAX)
}

/// The acceptance test from byte `j` on: bytes are drawn one at a time, the
/// most significant byte of the threshold is compared first, and the first
/// byte that differs decides. Eight equal bytes reject. The result comes
/// with the generator as the test leaves it.
pub open spec fn berexp_run(z: int, g: ChaChaView, j: nat) -> (bool, ChaChaView)
    decreases 8 - j,
{
    if j >= 8 {
        (false, g)
    } else {
        let p = emitted(g, 1)[0];
        let next = advanced(g, 1);
        match spec_berexp_step(z, j as int, p) {
            Some(accept) => (accept, next),
            None => berexp_run(z, next, j + 1),
        }
    }
}

/// The candidate that a base sample and a sign bit give: with `b` the bit,
/// `b + (2b - 1) * z0`, which is `z0 + 1` for a set bit and `-z0` for a clear
/// one.
pub open spec fn spec_reflect(b: u8, z0: int) -> int {
    if b % 2 == 1 {
        z0 + 1
    } else {
        -z0
    }
}

// ---------------------------------------------------------------------
// Facts
// ---------------------------------------------------------------------

/// The coefficients rise, and none is above `2^63`.
pub proof fn lemma_coefficients_rise(i: int)
    requires
        0 <= i < 12,
    ensures
        C[i] <= C[i + 1],
        C[i + 1] <= 0x8000_0000_0000_0000,
{
    if i == 0 {
    } else if i == 1 {
    } else if i == 2 {
    } else if i == 3 {
    } else if i == 4 {
    } else if i == 5 {
    } else if i == 6 {
    } else if i == 7 {
    } else if i == 8 {
    } else if i == 9 {
    } else if i == 10 {
    } else {
    }
}

/// For `z` below `2^63` every stage of Horner's rule lies between zero and
/// its coefficient.
pub proof fn lemma_horner_range(z: int, i: nat)
    requires
        0 <= z < 0x8000_0000_0000_0000,
        i <= 12,
    ensures
        0 <= horner(z, i) <= C[i as int],
    decreases i,
{
    if i > 0 {
        let y = horner(z, (i - 1) as nat);
        lemma_horner_range(z, (i - 1) as nat);
        lemma_coefficients_rise(i - 1);
        lemma_scaled_product(z, y);
    }
}

/// A product with a factor below `2^63`, shifted down by 63 bits, is not
/// negative and not above the other factor.
pub proof fn lemma_scaled_product(z: int, y: int)
    requires
        0 <= z < 0x8000_0000_0000_0000,
        0 <= y,
    ensures
        0 <= (z * y) / 0x8000_0000_0000_0000 <= y,
        0 <= z * y <= 0x8000_0000_0000_0000 * y,
{
    assert(0 <= z * y <= 0x8000_0000_0000_0000 * y) by (nonlinear_arith)
        requires
            0 <= z < 0x8000_0000_0000_0000,
            0 <= y,
    ;
    vstd::arithmetic::div_mod::lemma_div_is_ordered(z * y, 0x8000_0000_0000_0000 * y, 0x8000_0000_0000_0000);
    vstd::arithmetic::div_mod::lemma_div_multiples_vanish(y, 0x8000_0000_0000_0000);
    vstd::arithmetic::div_mod::lemma_div_pos_is_pos(z * y, 0x8000_0000_0000_0000);
}

// ---------------------------------------------------------------------
// The sampler's integer steps
// ---------------------------------------------------------------------

/// The base sample that nine random bytes give: the bytes spell a 72-bit
/// number, and the sample is the number of table thresholds above it.
pub fn base_sample(buf: &[u8]) -> (z0: u32)
    requires
        buf.len() == 9,
    ensures
        z0 == spec_base_sample(buf@),
        z0 <= 18,
{
    let u: u128 = buf[0] as u128 + 0x100 * (buf[1] as u128) + 0x1_0000 * (buf[2] as u128)
        + 0x100_0000 * (buf[3] as u128) + 0x1_0000_0000 * (buf[4] as u128) + 0x100_0000_0000 * (
    buf[5] as u128) + 0x1_0000_0000_0000 * (buf[6] as u128) + 0x100_0000_0000_0000 * (
    buf[7] as u128) + 0x1_0000_0000_0000_0000 * (buf[8] as u128);
    let mut z0: u32 = 0;
    let mut i: usize = 0;
    while i < 18
        invariant
            i <= 18,
            z0 <= i,
            z0 == rcdt_rank(u as int, i as nat),
        decreases 18 - i,
    {
        if u < RCDT[i] {
            z0 += 1;
        }
        i += 1;
    }
    z0
}

/// Draws nine bytes from the generator and gives their base sample.
pub fn basesampler(rng: &mut ChaCha20) -> (z0: u32)
    requires
        can_serve(old(rng)@, 9),
    ensures
        z0 == spec_base_sample(emitted(old(rng)@, 9)),
        z0 <= 18,
        final(rng)@ == advanced(old(rng)@, 9),
{
    let buf = rng.randombytes(9);
    base_sample(buf.as_slice())
}

/// The fixed-point approximation of `ccs * exp(-x)`, scaled by `2^64`, for
/// `x` in `[0, 1)` and `ccs` in `[0, 1]`, both given scaled by `2^63`.
pub fn approxexp(x63: u64, ccs63: u64) -> (v: u128)
    requires
        x63 < 0x8000_0000_0000_0000,
        ccs63 <= 0x8000_0000_0000_0000,
    ensures
        v == spec_approxexp(x63 as int, ccs63 as int),
        v <= 0x1_0000_0000_0000_0000,
{
    let mut y: u64 = C[0];
    let mut i: usize = 1;
    while i < 13
        invariant
            1 <= i <= 13,
            x63 < 0x8000_0000_0000_0000,
            y == horner(x63 as int, (i - 1) as nat),
        decreases 13 - i,
    {
        proof {
            lemma_horner_range(x63 as int, (i - 1) as nat);
            lemma_horner_range(x63 as int, i as nat);
            lemma_scaled_product(x63 as int, y as int);
            lemma_coefficients_rise(i - 1);
        }
        let t: u128 = ((x63 as u128) * (y as u128)) / 0x8000_0000_0000_0000;
        y = C[i] - (t as u64);
        i += 1;
    }
    proof {
        lemma_horner_range(x63 as int, 12);
        assert(2 * ccs63 * y <= 0x1_0000_0000_0000_0000 * 0x8000_0000_0000_0000)
            by (nonlinear_arith)
            requires
                0 <= ccs63 <= 0x8000_0000_0000_0000,
                0 <= y <= 0x8000_0000_0000_0000,
        ;
        assert(2 * ccs63 * y >= 0) by (nonlinear_arith)
            requires
                0 <= ccs63,
                0 <= y,
        ;
        assert(2 * ccs63 * y == (2 * ccs63) * y) by (nonlinear_arith);
    }
    let z2: u128 = 2 * (ccs63 as u128);
    (z2 * (y as u128)) / 0x8000_0000_0000_0000
}

/// `2^k` for `k` up to 63.
fn two_to(k: u32) -> (p: u64)
    requires
        k <= 63,
    ensures
        p == pow2_64(k as nat),
        p >= 1,
{
    let mut p: u64 = 1;
    let mut i: u32 = 0;
    while i < k
        invariant
            i <= k <= 63,
            p == pow2_64(i as nat),
            1 <= p,
            i <= 62 ==> p <= 0x4000_0000_0000_0000,
            i == 63 ==> p == 0x8000_0000_0000_0000,
            i < 62 ==> p <= 0x2000_0000_0000_0000,
        decreases k - i,
    {
        proof {
            lemma_pow2_64_bound(i as nat);
            lemma_pow2_64_bound((i + 1) as nat);
        }
        p = 2 * p;
        i += 1;
    }
    p
}

/// Powers of two rise with the exponent.
pub proof fn lemma_pow2_64_rises(k: nat, m: nat)
    requires
        k <= m,
    ensures
        1 <= pow2_64(k) <= pow2_64(m),
    decreases m,
{
    if m > k {
        lemma_pow2_64_rises(k, (m - 1) as nat);
    } else if k > 0 {
        lemma_pow2_64_rises((k - 1) as nat, (k - 1) as nat);
    }
}

/// The sizes of the powers of two up to `2^63`.
pub proof fn lemma_pow2_64_bound(k: nat)
    requires
        k <= 63,
    ensures
        1 <= pow2_64(k) <= 0x8000_0000_0000_0000,
        k < 63 ==> pow2_64(k) <= 0x4000_0000_0000_0000,
        k < 62 ==> pow2_64(k) <= 0x2000_0000_0000_0000,
        k == 63 ==> pow2_64(k) == 0x8000_0000_0000_0000,
{
    assert(pow2_64(61) == 0x2000_0000_0000_0000) by {
        reveal_with_fuel(pow2_64, 64);
    }
    assert(pow2_64(62) == 2 * pow2_64(61));
    assert(pow2_64(63) == 2 * pow2_64(62));
    lemma_pow2_64_rises(k, 63);
    if k < 63 {
        lemma_pow2_64_rises(k, 62);
    }
    if k < 62 {
        lemma_pow2_64_rises(k, 61);
    }
}

/// The threshold of the acceptance test: the approximation less one, shifted
/// down by `s` bits, where `s` above 63 counts as 63.
pub fn berexp_threshold(s: u32, v: u128) -> (z: u64)
    requires
        1 <= v <= 0x1_0000_0000_0000_0000,
    ensures
        z == threshold(s as nat, v as int),
{
    let shift: u32 = if s < 63 {
        s
    } else {
        63
    };
    let p: u64 = two_to(shift);
    let z: u128 = (v - 1) / (p as u128);
    proof {
        vstd::arithmetic::div_mod::lemma_div_is_ordered_by_denominator((v - 1) as int, 1, p as int);
    }
    z as u64
}

/// Byte `j` of `z`, the most significant byte first.
fn byte_of(z: u64, j: usize) -> (b: u8)
    requires
        j < 8,
    ensures
        b == be_byte(z as int, j as int),
{
    let shifted: u64 = if j == 0 {
        z / 0x100_0000_0000_0000
    } else if j == 1 {
        z / 0x1_0000_0000_0000
    } else if j == 2 {
        z / 0x100_0000_0000
    } else if j == 3 {
        z / 0x1_0000_0000
    } else if j == 4 {
        z / 0x100_0000
    } else if j == 5 {
        z / 0x1_0000
    } else if j == 6 {
        z / 0x100
    } else {
        z
    };
    (shifted % 0x100) as u8
}

/// What the random byte `p` decides at byte `j` of the threshold `z`:
/// `Some(true)` to accept, `Some(false)` to reject, `None` to go on to the
/// next byte.
pub fn berexp_step(z: u64, j: usize, p: u8) -> (r: Option<bool>)
    requires
        j < 8,
    ensures
        r == spec_berexp_step(z as int, j as int, p),
{
    let b: u8 = byte_of(z, j);
    if p < b {
        Some(true)
    } else if p > b {
        Some(false)
    } else {
        None
    }
}

/// The acceptance test against the threshold `z`, with bytes drawn from the
/// generator one at a time until one decides.
pub fn berexp(z: u64, rng: &mut ChaCha20) -> (accept: bool)
    requires
        can_draw(old(rng)@, 8),
    ensures
        accept == berexp_run(z as int, old(rng)@, 0).0,
        final(rng)@ == berexp_run(z as int, old(rng)@, 0).1,
{
    let mut j: usize = 0;
    while j < 8
        invariant
            j <= 8,
            can_draw(rng@, (8 - j) as nat),
            berexp_run(z as int, old(rng)@, 0) == berexp_run(z as int, rng@, j as nat),
        decreases 8 - j,
    {
        let ghost before = rng@;
        let bytes = rng.randombytes(1);
        let p: u8 = bytes[0];
        match berexp_step(z, j, p) {
            Some(accept) => {
                return accept;
            },
            None => {},
        }
        j += 1;
    }
    false
}

/// The candidate that a base sample and a sign byte give: `z0 + 1` where the
/// lowest bit of the byte is set, `-z0` where it is clear.
pub fn reflect(b: u8, z0: u32) -> (z: i32)
    requires
        z0 < i32::MAX,
    ensures
        z == spec_reflect(b, z0 as int),
{
    let bit: i32 = (b % 2) as i32;
    if bit == 1 {
        1 + z0 as i32
    } else {
        -(z0 as i32)
    }
}

} // verus!
