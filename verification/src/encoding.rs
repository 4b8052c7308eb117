//! The compressed form of a signature: a bit-level format for vectors of
//! small integers in which every vector has one encoding only.

use vstd::prelude::*;

verus! {

// ---------------------------------------------------------------------
// The bit-level format
// ---------------------------------------------------------------------

/// Absolute value of a coefficient, as a natural number.
pub open spec fn magnitude(c: i32) -> nat {
    if c < 0 {
        (-(c as int)) as nat
    } else {
        c as nat
    }
}

/// The seven-bit field of `m < 128`, most significant bit first.
pub open spec fn low_bits(m: nat) -> Seq<bool> {
    seq![
        (m / 64) % 2 == 1,
        (m / 32) % 2 == 1,
        (m / 16) % 2 == 1,
        (m / 8) % 2 == 1,
        (m / 4) % 2 == 1,
        (m / 2) % 2 == 1,
        m % 2 == 1,
    ]
}

/// The number that a bit stands for.
pub open spec fn bit_weight(b: bool) -> int {
    if b {
        1
    } else {
        0
    }
}

/// The number that the seven bits `u[from..from + 7]` spell, most significant
/// bit first.
pub open spec fn low_value(u: Seq<bool>, from: int) -> nat {
    (64 * bit_weight(u[from]) + 32 * bit_weight(u[from + 1]) + 16 * bit_weight(u[from + 2]) + 8
        * bit_weight(u[from + 3]) + 4 * bit_weight(u[from + 4]) + 2 * bit_weight(u[from + 5])
        + bit_weight(u[from + 6])) as nat
}

/// The bits of one coefficient: a sign bit, the low seven bits of the
/// magnitude, then the rest of the magnitude in unary (that many zeros and a
/// closing one).
pub open spec fn coef_bits(c: i32) -> Seq<bool> {
    seq![c < 0] + low_bits(magnitude(c) % 128) + Seq::new(magnitude(c) / 128, |j: int| false)
        + seq![true]
}

/// The bits of a whole vector: its coefficients' bits one after the other.
pub open spec fn encode(v: Seq<i32>) -> Seq<bool>
    decreases v.len(),
{
    if v.len() == 0 {
        Seq::empty()
    } else {
        coef_bits(v[0]) + encode(v.skip(1))
    }
}

/// Bit `p` of a bit string that is thought of as followed by zeros for ever.
pub open spec fn bit_at(bits: Seq<bool>, p: int) -> bool {
    0 <= p < bits.len() && bits[p]
}

/// The byte that the eight bits from position `p` on spell, most significant
/// bit first.
pub open spec fn byte_at(bits: Seq<bool>, p: int) -> int {
    128 * bit_weight(bit_at(bits, p)) + 64 * bit_weight(bit_at(bits, p + 1)) + 32 * bit_weight(
        bit_at(bits, p + 2),
    ) + 16 * bit_weight(bit_at(bits, p + 3)) + 8 * bit_weight(bit_at(bits, p + 4)) + 4
        * bit_weight(bit_at(bits, p + 5)) + 2 * bit_weight(bit_at(bits, p + 6)) + bit_weight(
        bit_at(bits, p + 7),
    )
}

/// A bit string, padded with zeros on the right, as `slen` bytes.
pub open spec fn pack(bits: Seq<bool>, slen: nat) -> Seq<u8> {
    Seq::new(slen, |i: int| byte_at(bits, 8 * i) as u8)
}

/// Bit `j` of a byte, counted from the most significant one.
pub open spec fn byte_bit(b: u8, j: int) -> bool {
    if j == 0 {
        (b / 128) % 2 == 1
    } else if j == 1 {
        (b / 64) % 2 == 1
    } else if j == 2 {
        (b / 32) % 2 == 1
    } else if j == 3 {
        (b / 16) % 2 == 1
    } else if j == 4 {
        (b / 8) % 2 == 1
    } else if j == 5 {
        (b / 4) % 2 == 1
    } else if j == 6 {
        (b / 2) % 2 == 1
    } else {
        b % 2 == 1
    }
}

/// The bits of a byte string, eight for each byte.
pub open spec fn unpack(x: Seq<u8>) -> Seq<bool> {
    Seq::new(8 * x.len(), |p: int| byte_bit(x[p / 8], p % 8))
}

/// Length of a bit string once the zeros at its end are taken off.
pub open spec fn stripped_len(bits: Seq<bool>) -> nat
    decreases bits.len(),
{
    if bits.len() == 0 {
        0
    } else if bits.last() {
        bits.len()
    } else {
        stripped_len(bits.drop_last())
    }
}

/// Number of zeros in a row that start at position `from`.
pub open spec fn zero_run(u: Seq<bool>, from: int) -> nat
    decreases u.len() - from,
{
    if from < 0 || from >= u.len() || u[from] {
        0
    } else {
        1 + zero_run(u, from + 1)
    }
}

/// The coefficient with the given sign bit and magnitude.
pub open spec fn signed(negative: bool, mag: nat) -> i32 {
    if negative {
        (-(mag as int)) as i32
    } else {
        mag as i32
    }
}

/// Whether a sign bit and a magnitude name a coefficient: the magnitude is in
/// range, and zero comes with a positive sign only.
pub open spec fn admissible(negative: bool, mag: nat) -> bool {
    if negative {
        0 < mag <= 0x8000_0000
    } else {
        mag <= 0x7fff_ffff
    }
}

/// The coefficient at the front of a bit string, with the number of bits it
/// takes; `None` where the string is too short, the unary part is not closed
/// or sign and magnitude are not admissible.
pub open spec fn parse_one(u: Seq<bool>) -> Option<(i32, nat)> {
    if u.len() < 9 {
        None
    } else {
        let high = zero_run(u, 8);
        let mag = low_value(u, 1) + 128 * high;
        if 8 + high >= u.len() || !admissible(u[0], mag) {
            None
        } else {
            Some((signed(u[0], mag), 9 + high))
        }
    }
}

/// What a bit string decodes to when exactly `n` coefficients are expected and
/// nothing may be left over.
pub open spec fn parse(u: Seq<bool>, n: nat) -> Option<Seq<i32>>
    decreases n,
{
    if n == 0 {
        if u.len() == 0 {
            Some(Seq::empty())
        } else {
            None
        }
    } else {
        match parse_one(u) {
            None => None,
            Some((c, used)) => match parse(u.skip(used as int), (n - 1) as nat) {
                Some(rest) => Some(seq![c] + rest),
                None => None,
            },
        }
    }
}

/// The compressed form of `v` in `slen` bytes, where it fits.
pub open spec fn spec_compress(v: Seq<i32>, slen: nat) -> Option<Seq<u8>> {
    if encode(v).len() > 8 * slen {
        None
    } else {
        Some(pack(encode(v), slen))
    }
}

/// The vector of `n` coefficients that `x` stands for, where it stands for
/// one and is at most `slen` bytes long.
pub open spec fn spec_decompress(x: Seq<u8>, slen: nat, n: nat) -> Option<Seq<i32>> {
    if x.len() > slen {
        None
    } else {
        let u = unpack(x);
        parse(u.take(stripped_len(u) as int), n)
    }
}

/// View of an optional byte vector.
pub open spec fn opt_bytes(r: Option<Vec<u8>>) -> Option<Seq<u8>> {
    match r {
        Some(w) => Some(w@),
        None => None,
    }
}

/// View of an optional coefficient vector.
pub open spec fn opt_coefs(r: Option<Vec<i32>>) -> Option<Seq<i32>> {
    match r {
        Some(w) => Some(w@),
        None => None,
    }
}

// ---------------------------------------------------------------------
// Facts about the format
// ---------------------------------------------------------------------

/// The seven-bit field spells the number it was made from.
pub proof fn lemma_low_bits_value(m: nat)
    requires
        m < 128,
    ensures
        low_value(low_bits(m), 0) == m,
{
    let x: u32 = m as u32;
    assert(64 * (if (x / 64) % 2 == 1 { 1u32 } else { 0u32 }) + 32 * (if (x / 32) % 2 == 1 {
        1u32
    } else {
        0u32
    }) + 16 * (if (x / 16) % 2 == 1 { 1u32 } else { 0u32 }) + 8 * (if (x / 8) % 2 == 1 {
        1u32
    } else {
        0u32
    }) + 4 * (if (x / 4) % 2 == 1 { 1u32 } else { 0u32 }) + 2 * (if (x / 2) % 2 == 1 {
        1u32
    } else {
        0u32
    }) + (if x % 2 == 1 { 1u32 } else { 0u32 }) == x) by (bit_vector)
        requires
            x < 128,
    ;
}

/// Every coefficient takes `9 + magnitude / 128` bits, the last of them a one.
pub proof fn lemma_coef_bits_shape(c: i32)
    ensures
        coef_bits(c).len() == 9 + magnitude(c) / 128,
        coef_bits(c).last(),
        coef_bits(c)[0] == (c < 0),
        low_value(coef_bits(c), 1) == magnitude(c) % 128,
        forall|j: int| 8 <= j < 8 + magnitude(c) / 128 ==> !#[trigger] coef_bits(c)[j],
{
    let m = magnitude(c) % 128;
    let lb = low_bits(m);
    let cb = coef_bits(c);
    lemma_low_bits_value(m);
    assert(lb.len() == 7);
    assert(cb[1] == lb[0]);
    assert(cb[2] == lb[1]);
    assert(cb[3] == lb[2]);
    assert(cb[4] == lb[3]);
    assert(cb[5] == lb[4]);
    assert(cb[6] == lb[5]);
    assert(cb[7] == lb[6]);
    assert(low_value(cb, 1) == low_value(lb, 0));
}

/// The bits of a vector are those of a front part followed by those of the
/// rest.
pub proof fn lemma_encode_split(v: Seq<i32>, k: int)
    requires
        0 <= k <= v.len(),
    ensures
        encode(v) == encode(v.take(k)) + encode(v.skip(k)),
    decreases k,
{
    if k == 0 {
        assert(v.take(0) =~= Seq::<i32>::empty());
        assert(v.skip(0) =~= v);
        assert(encode(v.take(0)) + encode(v.skip(0)) =~= encode(v));
    } else {
        let t = v.skip(1);
        lemma_encode_split(t, k - 1);
        assert(t.take(k - 1) =~= v.take(k).skip(1));
        assert(t.skip(k - 1) =~= v.skip(k));
        assert(v.take(k)[0] == v[0]);
        assert(encode(v) =~= encode(v.take(k)) + encode(v.skip(k)));
    }
}

/// The bits of a vector of one coefficient are that coefficient's bits.
pub proof fn lemma_encode_single(s: Seq<i32>)
    requires
        s.len() == 1,
    ensures
        encode(s) == coef_bits(s[0]),
{
    let t = s.skip(1);
    assert(t.len() == 0);
    assert(encode(t) =~= Seq::<bool>::empty());
    assert(encode(s) == coef_bits(s[0]) + encode(t));
    assert(coef_bits(s[0]) + encode(t) =~= coef_bits(s[0]));
}

/// Taking one more coefficient appends that coefficient's bits.
pub proof fn lemma_encode_push(v: Seq<i32>, i: int)
    requires
        0 <= i < v.len(),
    ensures
        encode(v.take(i + 1)) == encode(v.take(i)) + coef_bits(v[i]),
{
    let w = v.take(i + 1);
    lemma_encode_split(w, i);
    assert(w.take(i) =~= v.take(i));
    let last = w.skip(i);
    assert(last.len() == 1);
    assert(last[0] == v[i]);
    lemma_encode_single(last);
}

/// A vector's bits are empty or end in a one.
pub proof fn lemma_encode_ends_in_one(v: Seq<i32>)
    ensures
        encode(v).len() == 0 || encode(v).last(),
        v.len() > 0 ==> encode(v).len() > 0,
    decreases v.len(),
{
    if v.len() > 0 {
        let k = v.len() - 1;
        lemma_encode_split(v, k);
        let last = v.skip(k);
        lemma_encode_single(last);
        lemma_coef_bits_shape(v[k]);
    }
}

/// Unpacking what was packed gives the bits back, followed by zeros.
pub proof fn lemma_unpack_pack(bits: Seq<bool>, slen: nat, p: int)
    requires
        0 <= p < 8 * slen,
    ensures
        unpack(pack(bits, slen)).len() == 8 * slen,
        unpack(pack(bits, slen))[p] == bit_at(bits, p),
{
    let i = p / 8;
    let j = p % 8;
    let b = byte_at(bits, 8 * i);
    assert(0 <= b < 256);
    assert(pack(bits, slen)[i] == b as u8);
    assert(byte_bit(b as u8, j) == bit_at(bits, 8 * i + j));
}

/// Zeros at the end of a bit string do not change what is left after
/// stripping.
pub proof fn lemma_strip_padding(bits: Seq<bool>, u: Seq<bool>)
    requires
        bits.len() <= u.len(),
        forall|p: int| 0 <= p < u.len() ==> u[p] == bit_at(bits, p),
        bits.len() == 0 || bits.last(),
    ensures
        stripped_len(u) == bits.len(),
        u.take(stripped_len(u) as int) == bits,
    decreases u.len(),
{
    if u.len() == bits.len() {
        assert(u =~= bits);
        assert(u.take(u.len() as int) =~= u);
    } else {
        assert(!u.last());
        lemma_strip_padding(bits, u.drop_last());
        assert(u.drop_last().take(bits.len() as int) =~= u.take(bits.len() as int));
    }
}

/// A run of exactly `h` zeros that a one closes is counted as `h`.
pub proof fn lemma_zero_run(u: Seq<bool>, from: int, h: nat)
    requires
        0 <= from,
        from + h < u.len(),
        forall|j: int| from <= j < from + h ==> !#[trigger] u[j],
        u[from + h],
    ensures
        zero_run(u, from) == h,
    decreases h,
{
    if h > 0 {
        lemma_zero_run(u, from + 1, (h - 1) as nat);
    }
}

/// A run of zeros that reaches the end of the string is as long as what is
/// left of the string.
pub proof fn lemma_zero_run_all(u: Seq<bool>, from: int)
    requires
        0 <= from <= u.len(),
        forall|j: int| from <= j < u.len() ==> !#[trigger] u[j],
    ensures
        zero_run(u, from) == u.len() - from,
    decreases u.len() - from,
{
    if from < u.len() {
        lemma_zero_run_all(u, from + 1);
    }
}

/// Parsing the bits of a vector gives the vector back.
pub proof fn lemma_parse_encode(v: Seq<i32>)
    ensures
        parse(encode(v), v.len()) == Some(v),
    decreases v.len(),
{
    if v.len() == 0 {
        assert(v =~= Seq::<i32>::empty());
    } else {
        let c = v[0];
        let rest = v.skip(1);
        let cb = coef_bits(c);
        let u = encode(v);
        let h: int = (magnitude(c) / 128) as int;
        lemma_coef_bits_shape(c);
        lemma_parse_encode(rest);
        assert(u == cb + encode(rest));
        assert(forall|j: int| 0 <= j < cb.len() ==> u[j] == cb[j]);
        assert(cb[8 + h]);
        assert forall|j: int| 8 <= j < 8 + h implies !#[trigger] u[j] by {
            assert(!cb[j]);
        }
        lemma_zero_run(u, 8, h as nat);
        assert(low_value(u, 1) == low_value(cb, 1));
        let mag: nat = (low_value(u, 1) + 128 * h) as nat;
        assert(mag == magnitude(c));
        assert(admissible(u[0], mag));
        assert(signed(u[0], mag) == c);
        assert(parse_one(u) == Some((c, (9 + h) as nat)));
        assert(u.skip(9 + h) =~= encode(rest));
        assert(seq![c] + rest =~= v);
    }
}

/// Round trip: whatever `spec_compress` makes of a vector, `spec_decompress`
/// turns back into that vector, given the same byte length and the vector's
/// own length.
pub proof fn lemma_decompress_compress(v: Seq<i32>, slen: nat)
    requires
        spec_compress(v, slen).is_some(),
    ensures
        spec_decompress(spec_compress(v, slen).unwrap(), slen, v.len()) == Some(v),
{
    let bits = encode(v);
    let x = pack(bits, slen);
    let u = unpack(x);
    assert(u.len() == 8 * slen);
    assert forall|p: int| 0 <= p < u.len() implies u[p] == bit_at(bits, p) by {
        lemma_unpack_pack(bits, slen, p);
    }
    lemma_encode_ends_in_one(v);
    lemma_strip_padding(bits, u);
    lemma_parse_encode(v);
}

/// A zero with a negative sign is never accepted: if, after the bits of some
/// coefficients, the input goes on with a set sign bit, seven zero bits and a
/// closing one, then no count of expected coefficients makes it parse.
pub proof fn lemma_negative_zero_rejected(front: Seq<i32>, tail: Seq<bool>, n: nat)
    requires
        tail.len() >= 9,
        tail[0],
        forall|j: int| 1 <= j < 8 ==> !#[trigger] tail[j],
        tail[8],
    ensures
        parse(encode(front) + tail, n).is_none(),
    decreases front.len(),
{
    let u = encode(front) + tail;
    if front.len() == 0 {
        assert(u =~= tail);
        if n > 0 {
            assert(zero_run(u, 8) == 0);
            assert(low_value(u, 1) == 0);
            assert(parse_one(u).is_none());
        }
    } else if n > 0 {
        let c = front[0];
        let rest = front.skip(1);
        let cb = coef_bits(c);
        let h: int = (magnitude(c) / 128) as int;
        lemma_coef_bits_shape(c);
        assert(u =~= cb + (encode(rest) + tail));
        assert(forall|j: int| 0 <= j < cb.len() ==> u[j] == cb[j]);
        assert(cb[8 + h]);
        assert forall|j: int| 8 <= j < 8 + h implies !#[trigger] u[j] by {
            assert(!cb[j]);
        }
        lemma_zero_run(u, 8, h as nat);
        assert(low_value(u, 1) == low_value(cb, 1));
        assert(parse_one(u).is_none() || parse_one(u).unwrap().1 == 9 + h);
        assert(u.skip(9 + h) =~= encode(rest) + tail);
        lemma_negative_zero_rejected(rest, tail, (n - 1) as nat);
    }
}

/// A run of zeros is made of zeros, and what follows it inside the string
/// is a one.
pub proof fn lemma_zero_run_shape(u: Seq<bool>, from: int)
    requires
        0 <= from,
    ensures
        forall|j: int| from <= j < from + zero_run(u, from) ==> !#[trigger] u[j],
        from + zero_run(u, from) <= u.len() || zero_run(u, from) == 0,
        from + zero_run(u, from) < u.len() ==> u[from + zero_run(u, from)],
    decreases u.len() - from,
{
    if from < u.len() && !u[from] {
        lemma_zero_run_shape(u, from + 1);
        assert forall|j: int| from <= j < from + zero_run(u, from) implies !#[trigger] u[j] by {
            if j > from {
                assert(from + 1 <= j < from + 1 + zero_run(u, from + 1));
            }
        }
    }
}

/// Seven bits are the seven-bit field of the number that they spell.
pub proof fn lemma_low_bits_of_value(u: Seq<bool>, from: int)
    requires
        0 <= from,
        from + 7 <= u.len(),
    ensures
        low_value(u, from) < 128,
        u.subrange(from, from + 7) == low_bits(low_value(u, from)),
{
    let m = low_value(u, from);
    let w0 = bit_weight(u[from]);
    let w1 = bit_weight(u[from + 1]);
    let w2 = bit_weight(u[from + 2]);
    let w3 = bit_weight(u[from + 3]);
    let w4 = bit_weight(u[from + 4]);
    let w5 = bit_weight(u[from + 5]);
    let w6 = bit_weight(u[from + 6]);
    assert(m == 64 * w0 + 32 * w1 + 16 * w2 + 8 * w3 + 4 * w4 + 2 * w5 + w6);
    assert(m / 64 == w0);
    assert(m / 32 == 2 * w0 + w1);
    assert(m / 16 == 4 * w0 + 2 * w1 + w2);
    assert(m / 8 == 8 * w0 + 4 * w1 + 2 * w2 + w3);
    assert(m / 4 == 16 * w0 + 8 * w1 + 4 * w2 + 2 * w3 + w4);
    assert(m / 2 == 32 * w0 + 16 * w1 + 8 * w2 + 4 * w3 + 2 * w4 + w5);
    assert(u.subrange(from, from + 7) =~= low_bits(m));
}

/// What is read off the front of a bit string is written the way it was
/// read: the bits that a coefficient was parsed from are the bits of that
/// coefficient.
pub proof fn lemma_parse_one_canonical(u: Seq<bool>)
    requires
        parse_one(u).is_some(),
    ensures
        parse_one(u).unwrap().1 <= u.len(),
        u.take(parse_one(u).unwrap().1 as int) == coef_bits(parse_one(u).unwrap().0),
{
    let (c, used) = parse_one(u).unwrap();
    let high = zero_run(u, 8);
    let low = low_value(u, 1);
    let mag = low + 128 * high;
    lemma_zero_run_shape(u, 8);
    lemma_low_bits_of_value(u, 1);
    assert(magnitude(c) == mag);
    assert((c < 0) == u[0]);
    assert(mag % 128 == low);
    assert(mag / 128 == high);
    let cb = coef_bits(c);
    let t = u.take(used as int);
    assert(cb.len() == t.len());
    assert forall|j: int| 0 <= j < t.len() implies t[j] == cb[j] by {
        if 1 <= j < 8 {
            assert(u.subrange(1, 8)[j - 1] == u[j]);
            assert(cb[j] == low_bits(low)[j - 1]);
        } else if 8 <= j < 8 + high {
            assert(!u[j]);
        }
    }
    assert(t =~= cb);
}

/// What parses is canonical: a bit string from which `n` coefficients were
/// parsed is the encoding of those coefficients.
pub proof fn lemma_parse_canonical(u: Seq<bool>, n: nat)
    requires
        parse(u, n).is_some(),
    ensures
        parse(u, n).unwrap().len() == n,
        encode(parse(u, n).unwrap()) == u,
    decreases n,
{
    let v = parse(u, n).unwrap();
    if n == 0 {
        assert(u =~= Seq::<bool>::empty());
    } else {
        let (c, used) = parse_one(u).unwrap();
        let rest = parse(u.skip(used as int), (n - 1) as nat).unwrap();
        lemma_parse_one_canonical(u);
        lemma_parse_canonical(u.skip(used as int), (n - 1) as nat);
        assert(v == seq![c] + rest);
        assert(v[0] == c);
        assert(v.skip(1) =~= rest);
        assert(u =~= u.take(used as int) + u.skip(used as int));
    }
}

/// What is left after stripping is followed by zeros only.
pub proof fn lemma_stripped_zeros(u: Seq<bool>, p: int)
    requires
        stripped_len(u) <= p < u.len(),
    ensures
        !u[p],
    decreases u.len(),
{
    if p < u.len() - 1 {
        lemma_stripped_zeros(u.drop_last(), p);
    }
}

/// A byte is spelled by its eight bits.
pub proof fn lemma_byte_of_bits(b: u8)
    ensures
        128 * bit_weight(byte_bit(b, 0)) + 64 * bit_weight(byte_bit(b, 1)) + 32 * bit_weight(
            byte_bit(b, 2),
        ) + 16 * bit_weight(byte_bit(b, 3)) + 8 * bit_weight(byte_bit(b, 4)) + 4 * bit_weight(
            byte_bit(b, 5),
        ) + 2 * bit_weight(byte_bit(b, 6)) + bit_weight(byte_bit(b, 7)) == b,
{
    let h1 = b / 2;
    let h2 = b / 4;
    let h3 = b / 8;
    let h4 = b / 16;
    let h5 = b / 32;
    let h6 = b / 64;
    let h7 = b / 128;
    assert(b == 2 * h1 + b % 2);
    assert(h1 == 2 * h2 + h1 % 2);
    assert(h2 == 2 * h3 + h2 % 2);
    assert(h3 == 2 * h4 + h3 % 2);
    assert(h4 == 2 * h5 + h4 % 2);
    assert(h5 == 2 * h6 + h5 % 2);
    assert(h6 == 2 * h7 + h6 % 2);
    assert(h7 % 2 == h7);
}

/// The other round trip, which makes the format canonical: a byte string of
/// the full length that decodes to a vector is the compressed form of that
/// vector. So no two byte strings of one length decode to the same vector.
pub proof fn lemma_compress_decompress(x: Seq<u8>, n: nat)
    requires
        spec_decompress(x, x.len(), n).is_some(),
    ensures
        spec_compress(spec_decompress(x, x.len(), n).unwrap(), x.len()) == Some(x),
{
    let slen = x.len();
    let u = unpack(x);
    let bits = u.take(stripped_len(u) as int);
    let v = parse(bits, n).unwrap();
    lemma_stripped_le(u);
    lemma_parse_canonical(bits, n);
    assert(encode(v) == bits);
    let packed = pack(bits, slen);
    assert forall|i: int| 0 <= i < slen implies packed[i] == x[i] by {
        assert forall|j: int| 0 <= j < 8 implies bit_at(bits, 8 * i + j) == byte_bit(x[i], j) by {
            let p = 8 * i + j;
            assert(u[p] == byte_bit(x[p / 8], p % 8));
            if p >= bits.len() {
                lemma_stripped_zeros(u, p);
            }
        }
        lemma_byte_of_bits(x[i]);
        assert(bit_at(bits, 8 * i) == byte_bit(x[i], 0));
        assert(bit_at(bits, 8 * i + 1) == byte_bit(x[i], 1));
        assert(bit_at(bits, 8 * i + 2) == byte_bit(x[i], 2));
        assert(bit_at(bits, 8 * i + 3) == byte_bit(x[i], 3));
        assert(bit_at(bits, 8 * i + 4) == byte_bit(x[i], 4));
        assert(bit_at(bits, 8 * i + 5) == byte_bit(x[i], 5));
        assert(bit_at(bits, 8 * i + 6) == byte_bit(x[i], 6));
        assert(bit_at(bits, 8 * i + 7) == byte_bit(x[i], 7));
        assert(byte_at(bits, 8 * i) == x[i]);
    }
    assert(packed =~= x);
}

/// Stripping never lengthens.
pub proof fn lemma_stripped_le(u: Seq<bool>)
    ensures
        stripped_len(u) <= u.len(),
    decreases u.len(),
{
    if u.len() > 0 && !u.last() {
        lemma_stripped_le(u.drop_last());
    }
}

// ---------------------------------------------------------------------
// The codec
// ---------------------------------------------------------------------

/// A front part put before an optional rest.
pub open spec fn prepend(front: Seq<i32>, rest: Option<Seq<i32>>) -> Option<Seq<i32>> {
    match rest {
        Some(r) => Some(front + r),
        None => None,
    }
}

/// `1` where bit `p` of the zero-padded string is set, else `0`.
fn padded_bit(bits: &Vec<bool>, p: usize) -> (w: u8)
    ensures
        w == bit_weight(bit_at(bits@, p as int)),
{
    if p < bits.len() && bits[p] {
        1
    } else {
        0
    }
}

/// `1` for a set bit, `0` for a clear one.
fn weight(b: bool) -> (w: u32)
    ensures
        w == bit_weight(b),
{
    if b {
        1
    } else {
        0
    }
}

/// Appends the bits of one coefficient, if at most `room` bits are needed;
/// says whether it did.
fn push_coef(bits: &mut Vec<bool>, c: i32, room: usize) -> (done: bool)
    ensures
        done == (coef_bits(c).len() <= room),
        done ==> final(bits)@ == old(bits)@ + coef_bits(c),
        !done ==> final(bits)@ == old(bits)@,
{
    let negative: bool = c < 0;
    let m: u32 = if negative {
        (-(c as i64)) as u32
    } else {
        c as u32
    };
    let low: u32 = m % 128;
    let high: u32 = m / 128;
    if room < 9 || ((room - 9) as u64) < (high as u64) {
        return false;
    }
    let ghost before = bits@;
    bits.push(negative);
    bits.push((low / 64) % 2 == 1);
    bits.push((low / 32) % 2 == 1);
    bits.push((low / 16) % 2 == 1);
    bits.push((low / 8) % 2 == 1);
    bits.push((low / 4) % 2 == 1);
    bits.push((low / 2) % 2 == 1);
    bits.push(low % 2 == 1);
    let ghost head = before + seq![negative] + low_bits(low as nat);
    assert(bits@ =~= head);
    let mut z: u32 = 0;
    while z < high
        invariant
            z <= high,
            bits@ == head + Seq::new(z as nat, |j: int| false),
        decreases high - z,
    {
        bits.push(false);
        z += 1;
        assert(bits@ =~= head + Seq::new(z as nat, |j: int| false));
    }
    bits.push(true);
    assert(bits@ =~= before + coef_bits(c));
    true
}

/// Compresses a coefficient vector into exactly `slen` bytes.
///
/// Each coefficient is written as a sign bit, the seven low bits of its
/// magnitude and the remaining magnitude in unary; the whole is padded with
/// zero bits. The result is `None` exactly when the bits do not fit.
pub fn compress(v: &[i32], slen: usize) -> (r: Option<Vec<u8>>)
    requires
        8 * slen <= usize::MAX,
    ensures
        opt_bytes(r) == spec_compress(v@, slen as nat),
{
    let limit: usize = 8 * slen;
    let mut bits: Vec<bool> = Vec::new();
    let mut i: usize = 0;
    assert(v@.take(0) =~= Seq::<i32>::empty());
    while i < v.len()
        invariant
            i <= v.len(),
            limit == 8 * slen,
            bits@ == encode(v@.take(i as int)),
            bits@.len() <= limit,
        decreases v.len() - i,
    {
        proof {
            lemma_encode_push(v@, i as int);
            lemma_encode_split(v@, i + 1);
        }
        let room: usize = limit - bits.len();
        if !push_coef(&mut bits, v[i], room) {
            return None;
        }
        i += 1;
    }
    assert(v@.take(v.len() as int) =~= v@);
    let mut out: Vec<u8> = Vec::new();
    let mut k: usize = 0;
    assert(out@ =~= pack(bits@, 0));
    while k < slen
        invariant
            k <= slen,
            8 * slen <= usize::MAX,
            out@ == pack(bits@, k as nat),
        decreases slen - k,
    {
        let p: usize = 8 * k;
        let b0: u8 = padded_bit(&bits, p);
        let b1: u8 = padded_bit(&bits, p + 1);
        let b2: u8 = padded_bit(&bits, p + 2);
        let b3: u8 = padded_bit(&bits, p + 3);
        let b4: u8 = padded_bit(&bits, p + 4);
        let b5: u8 = padded_bit(&bits, p + 5);
        let b6: u8 = padded_bit(&bits, p + 6);
        let b7: u8 = padded_bit(&bits, p + 7);
        let byte: u8 = 128 * b0 + 64 * b1 + 32 * b2 + 16 * b3 + 8 * b4 + 4 * b5 + 2 * b6 + b7;
        out.push(byte);
        k += 1;
        assert(out@ =~= pack(bits@, k as nat));
    }
    Some(out)
}

/// The bits of a byte string.
fn unpack_bits(x: &[u8]) -> (bits: Vec<bool>)
    requires
        8 * x.len() <= usize::MAX,
    ensures
        bits@ == unpack(x@),
{
    let mut bits: Vec<bool> = Vec::new();
    let mut k: usize = 0;
    assert(bits@ =~= unpack(x@.take(0)));
    while k < x.len()
        invariant
            k <= x.len(),
            8 * x.len() <= usize::MAX,
            bits@ == unpack(x@.take(k as int)),
        decreases x.len() - k,
    {
        let b: u8 = x[k];
        bits.push((b / 128) % 2 == 1);
        bits.push((b / 64) % 2 == 1);
        bits.push((b / 32) % 2 == 1);
        bits.push((b / 16) % 2 == 1);
        bits.push((b / 8) % 2 == 1);
        bits.push((b / 4) % 2 == 1);
        bits.push((b / 2) % 2 == 1);
        bits.push(b % 2 == 1);
        k += 1;
        assert(bits@ =~= unpack(x@.take(k as int)));
    }
    assert(x@.take(x.len() as int) =~= x@);
    bits
}

/// The number that the seven bits from position `from` on spell.
fn read_low(bits: &Vec<bool>, from: usize) -> (low: u32)
    requires
        from + 7 <= bits.len(),
    ensures
        low == low_value(bits@, from as int),
        low < 128,
{
    let w0: u32 = weight(bits[from]);
    let w1: u32 = weight(bits[from + 1]);
    let w2: u32 = weight(bits[from + 2]);
    let w3: u32 = weight(bits[from + 3]);
    let w4: u32 = weight(bits[from + 4]);
    let w5: u32 = weight(bits[from + 5]);
    let w6: u32 = weight(bits[from + 6]);
    64 * w0 + 32 * w1 + 16 * w2 + 8 * w3 + 4 * w4 + 2 * w5 + w6
}

/// The first position from `from` on, below `end`, that holds a one; `end`
/// where there is none.
fn skip_zeros(bits: &Vec<bool>, from: usize, end: usize) -> (i: usize)
    requires
        from <= end <= bits.len(),
    ensures
        from <= i <= end,
        i - from == zero_run(bits@.take(end as int), from as int),
{
    let ghost u = bits@.take(end as int);
    let mut i: usize = from;
    while i < end && !bits[i]
        invariant
            from <= i <= end <= bits.len(),
            u == bits@.take(end as int),
            forall|j: int| from <= j < i ==> !#[trigger] u[j],
        decreases end - i,
    {
        i += 1;
    }
    proof {
        if i >= end {
            lemma_zero_run_all(u, from as int);
        } else {
            assert(u[i as int]);
            lemma_zero_run(u, from as int, (i - from) as nat);
        }
    }
    i
}

/// Moving the start of a string moves the runs of zeros with it.
pub proof fn lemma_zero_run_skip(u: Seq<bool>, k: int, from: int)
    requires
        0 <= k,
        0 <= from,
        k + from <= u.len(),
    ensures
        zero_run(u.skip(k), from) == zero_run(u, k + from),
    decreases u.len() - k - from,
{
    let s = u.skip(k);
    if from < s.len() && !s[from] {
        lemma_zero_run_skip(u, k, from + 1);
    }
}

/// Reads the coefficient that starts at bit `idx` of `bits[..end]`; gives it
/// together with the position just behind it.
fn read_coef(bits: &Vec<bool>, idx: usize, end: usize) -> (r: Option<(i32, usize)>)
    requires
        idx <= end <= bits.len(),
    ensures
        match r {
            Some((c, next)) => idx < next <= end && parse_one(
                bits@.subrange(idx as int, end as int),
            ) == Some((c, (next - idx) as nat)),
            None => parse_one(bits@.subrange(idx as int, end as int)).is_none(),
        },
{
    let ghost us = bits@.subrange(idx as int, end as int);
    if end - idx < 9 {
        return None;
    }
    let negative: bool = bits[idx];
    let low: u32 = read_low(bits, idx + 1);
    let i: usize = skip_zeros(bits, idx + 8, end);
    let high: usize = i - (idx + 8);
    proof {
        assert(us[0] == negative);
        assert(low_value(us, 1) == low_value(bits@, idx + 1));
        assert(us =~= bits@.take(end as int).skip(idx as int));
        lemma_zero_run_skip(bits@.take(end as int), idx as int, 8);
        assert(zero_run(us, 8) == high);
    }
    if i >= end {
        return None;
    }
    if high > 0x0100_0000 {
        return None;
    }
    let mag: u64 = low as u64 + 128 * (high as u64);
    if negative {
        if mag == 0 || mag > 0x8000_0000 {
            return None;
        }
    } else {
        if mag > 0x7fff_ffff {
            return None;
        }
    }
    let coef: i32 = if negative {
        (-(mag as i64)) as i32
    } else {
        mag as i32
    };
    Some((coef, i + 1))
}

/// Reads a coefficient vector of length `n` back from at most `slen` bytes.
///
/// The zero bits at the end are padding. The result is `None` when the input
/// is longer than `slen`, when a coefficient's unary part is not closed, when
/// the bits do not hold exactly `n` coefficients, when a magnitude does not
/// fit, or when a zero carries a negative sign.
pub fn decompress(x: &[u8], slen: usize, n: usize) -> (r: Option<Vec<i32>>)
    requires
        8 * x.len() <= usize::MAX,
    ensures
        opt_coefs(r) == spec_decompress(x@, slen as nat, n as nat),
{
    if x.len() > slen {
        return None;
    }
    let bits = unpack_bits(x);
    let mut end: usize = bits.len();
    assert(bits@.take(end as int) =~= bits@);
    while end > 0 && !bits[end - 1]
        invariant
            end <= bits.len(),
            stripped_len(bits@) == stripped_len(bits@.take(end as int)),
        decreases end,
    {
        assert(bits@.take(end as int).drop_last() =~= bits@.take(end - 1));
        end -= 1;
    }
    let ghost u = bits@.take(end as int);
    assert(stripped_len(bits@) == end);
    let mut v: Vec<i32> = Vec::new();
    let mut idx: usize = 0;
    assert(u.skip(0) =~= u);
    assert(v@ + Seq::<i32>::empty() =~= v@);
    assert(prepend(v@, parse(u, n as nat)) == parse(u, n as nat)) by {
        if parse(u, n as nat).is_some() {
            assert(v@ + parse(u, n as nat).unwrap() =~= parse(u, n as nat).unwrap());
        }
    }
    while v.len() < n
        invariant
            idx <= end <= bits.len(),
            v.len() <= n,
            u == bits@.take(end as int),
            bits@ == unpack(x@),
            stripped_len(bits@) == end,
            x.len() <= slen,
            parse(u, n as nat) == prepend(v@, parse(u.skip(idx as int), (n - v.len()) as nat)),
        decreases n - v.len(),
    {
        assert(u.skip(idx as int) =~= bits@.subrange(idx as int, end as int));
        match read_coef(&bits, idx, end) {
            None => {
                return None;
            },
            Some((coef, next)) => {
                proof {
                    assert(u.skip(idx as int).skip(next - idx) =~= u.skip(next as int));
                    let rest = parse(u.skip(next as int), (n - v.len() - 1) as nat);
                    if rest.is_some() {
                        assert(v@ + (seq![coef] + rest.unwrap()) =~= v@.push(coef)
                            + rest.unwrap());
                    }
                }
                v.push(coef);
                idx = next;
            },
        }
    }
    if idx != end {
        return None;
    }
    proof {
        assert(u.skip(idx as int).len() == 0);
        assert(v@ + Seq::<i32>::empty() =~= v@);
    }
    Some(v)
}

} // verus!
