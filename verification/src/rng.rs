//! The keystream generator: a cipher of twenty rounds in counter mode, seeded
//! with 56 bytes.

use vstd::prelude::*;

verus! {

/// Number of bytes that one block step produces.
pub const BLOCK_BYTES: usize = 512;

// ---------------------------------------------------------------------
// The keystream as a mathematical object
// ---------------------------------------------------------------------

/// What a generator is, seen from outside: the fourteen seed words, the block
/// counter, and the bytes that were generated but not handed out yet.
pub struct ChaChaView {
    pub words: Seq<u32>,
    pub ctr: u64,
    pub pending: Seq<u8>,
}

/// The four constant words at the head of every block.
pub open spec fn constant_word(i: int) -> u32 {
    if i == 0 {
        0x61707865
    } else if i == 1 {
        0x3320646e
    } else if i == 2 {
        0x79622d32
    } else {
        0x6b206574
    }
}

/// The 32-bit word that four bytes from position `p` on spell, least
/// significant byte first.
pub open spec fn le_word(src: Seq<u8>, p: int) -> u32 {
    (src[p] + 0x100 * src[p + 1] + 0x1_0000 * src[p + 2] + 0x100_0000 * src[p + 3]) as u32
}

/// Byte `j` (0 to 3) of a word, least significant first.
pub open spec fn le_byte(w: u32, j: int) -> u8 {
    if j == 0 {
        (w % 0x100) as u8
    } else if j == 1 {
        ((w / 0x100) % 0x100) as u8
    } else if j == 2 {
        ((w / 0x1_0000) % 0x100) as u8
    } else {
        (w / 0x100_0000) as u8
    }
}

/// The fourteen words of a seed of at least 56 bytes.
pub open spec fn seed_words(seed: Seq<u8>) -> Seq<u32> {
    Seq::new(14, |i: int| le_word(seed, 4 * i))
}

/// The generator that a seed makes: its counter starts at the number that
/// the last two seed words spell, and nothing is pending.
pub open spec fn initial(seed: Seq<u8>) -> ChaChaView {
    let words = seed_words(seed);
    ChaChaView {
        words,
        ctr: (words[12] + 0x1_0000_0000 * words[13]) as u64,
        pending: Seq::empty(),
    }
}

/// Rotation of a word to the left by `n` bits, `0 < n < 32`.
pub open spec fn spec_roll(x: u32, n: u32) -> u32 {
    (x << n) | (x >> ((32 - n) as u32))
}

/// One quarter round on the words at positions `a`, `b`, `c`, `d`.
pub open spec fn quarter(st: Seq<u32>, a: int, b: int, c: int, d: int) -> Seq<u32> {
    let a0 = st[a];
    let b0 = st[b];
    let c0 = st[c];
    let d0 = st[d];
    let a1 = a0.wrapping_add(b0);
    let d1 = spec_roll(d0 ^ a1, 16);
    let c1 = c0.wrapping_add(d1);
    let b1 = spec_roll(b0 ^ c1, 12);
    let a2 = a1.wrapping_add(b1);
    let d2 = spec_roll(d1 ^ a2, 8);
    let c2 = c1.wrapping_add(d2);
    let b2 = spec_roll(b1 ^ c2, 7);
    st.update(a, a2).update(b, b2).update(c, c2).update(d, d2)
}

/// Two rounds: four quarter rounds down the columns, four along the
/// diagonals.
pub open spec fn double_round(st: Seq<u32>) -> Seq<u32> {
    let s1 = quarter(st, 0, 4, 8, 12);
    let s2 = quarter(s1, 1, 5, 9, 13);
    let s3 = quarter(s2, 2, 6, 10, 14);
    let s4 = quarter(s3, 3, 7, 11, 15);
    let s5 = quarter(s4, 0, 5, 10, 15);
    let s6 = quarter(s5, 1, 6, 11, 12);
    let s7 = quarter(s6, 2, 7, 8, 13);
    quarter(s7, 3, 4, 9, 14)
}

/// `k` double rounds.
pub open spec fn rounds(st: Seq<u32>, k: nat) -> Seq<u32>
    decreases k,
{
    if k == 0 {
        st
    } else {
        double_round(rounds(st, (k - 1) as nat))
    }
}

/// The sixteen words that the round network starts from: four constants,
/// ten seed words, and two seed words mixed with the halves of the counter.
pub open spec fn input_block(words: Seq<u32>, ctr: u64) -> Seq<u32> {
    Seq::new(
        16,
        |i: int|
            if i < 4 {
                constant_word(i)
            } else if i < 14 {
                words[i - 4]
            } else if i == 14 {
                words[10] ^ ((ctr % 0x1_0000_0000) as u32)
            } else {
                words[11] ^ ((ctr / 0x1_0000_0000) as u32)
            },
    )
}

/// One sub-block of sixteen words: twenty rounds on the input block, and the
/// input block added to what comes out.
pub open spec fn sub_block(words: Seq<u32>, ctr: u64) -> Seq<u32> {
    let start = input_block(words, ctr);
    let mixed = rounds(start, 10);
    Seq::new(16, |i: int| mixed[i].wrapping_add(start[i]))
}

/// The 128 words of a block: eight sub-blocks with consecutive counters,
/// interleaved word by word.
pub open spec fn block_words(words: Seq<u32>, ctr: u64) -> Seq<u32> {
    Seq::new(128, |k: int| sub_block(words, (ctr + k % 8) as u64)[k / 8])
}

/// The 512 bytes of a block: its words, each with the least significant byte
/// first.
pub open spec fn block_bytes(words: Seq<u32>, ctr: u64) -> Seq<u8> {
    Seq::new(512, |p: int| le_byte(block_words(words, ctr)[p / 4], p % 4))
}

/// Whether a generator can serve a request for `k` bytes: no more than a
/// block is asked for, and a fresh block, where one is needed, does not
/// exhaust the counter.
pub open spec fn can_serve(g: ChaChaView, k: nat) -> bool {
    k <= 512 && (k <= g.pending.len() || g.ctr + 8 <= u64::MAX)
}

/// The generator as it stands when a request for `k` bytes is about to be
/// served from the pending bytes: where they do not suffice, they are dropped
/// and a fresh block takes their place.
pub open spec fn refilled(g: ChaChaView, k: nat) -> ChaChaView {
    if k <= g.pending.len() {
        g
    } else {
        ChaChaView {
            words: g.words,
            ctr: (g.ctr + 8) as u64,
            pending: block_bytes(g.words, g.ctr),
        }
    }
}

/// The bytes that a request for `k` bytes returns.
pub open spec fn emitted(g: ChaChaView, k: nat) -> Seq<u8> {
    refilled(g, k).pending.take(k as int)
}

/// The generator after a request for `k` bytes.
pub open spec fn advanced(g: ChaChaView, k: nat) -> ChaChaView {
    let r = refilled(g, k);
    ChaChaView { words: r.words, ctr: r.ctr, pending: r.pending.skip(k as int) }
}

/// Whether a generator can serve a whole sequence of requests, one after the
/// other.
pub open spec fn can_serve_all(g: ChaChaView, ks: Seq<nat>) -> bool
    decreases ks.len(),
{
    ks.len() == 0 || (can_serve(g, ks[0]) && can_serve_all(advanced(g, ks[0]), ks.skip(1)))
}

/// The outputs of a sequence of requests, one after the other.
pub open spec fn stream(g: ChaChaView, ks: Seq<nat>) -> Seq<Seq<u8>>
    decreases ks.len(),
{
    if ks.len() == 0 {
        Seq::empty()
    } else {
        seq![emitted(g, ks[0])] + stream(advanced(g, ks[0]), ks.skip(1))
    }
}

/// Determinism: two seeds that agree on their first 56 bytes make the same
/// generator, which answers any sequence of requests with the same bytes.
pub proof fn lemma_same_seed_same_stream(seed1: Seq<u8>, seed2: Seq<u8>, ks: Seq<nat>)
    requires
        seed1.len() >= 56,
        seed2.len() >= 56,
        seed1.take(56) == seed2.take(56),
    ensures
        initial(seed1) == initial(seed2),
        stream(initial(seed1), ks) == stream(initial(seed2), ks),
        can_serve_all(initial(seed1), ks) == can_serve_all(initial(seed2), ks),
{
    assert forall|p: int| 0 <= p < 56 implies seed1[p] == seed2[p] by {
        assert(seed1.take(56)[p] == seed1[p]);
        assert(seed2.take(56)[p] == seed2[p]);
    }
    assert(seed_words(seed1) =~= seed_words(seed2));
}

// ---------------------------------------------------------------------
// The generator
// ---------------------------------------------------------------------

/// Rotation of a word to the left by `n` bits.
fn roll(x: u32, n: u32) -> (r: u32)
    requires
        0 < n < 32,
    ensures
        r == spec_roll(x, n),
{
    (x << n) | (x >> (32 - n))
}

/// The word that four bytes from position `p` on spell.
fn read_word(src: &[u8], p: usize) -> (w: u32)
    requires
        p + 4 <= src.len(),
    ensures
        w == le_word(src@, p as int),
{
    let b0: u32 = src[p] as u32;
    let b1: u32 = src[p + 1] as u32;
    let b2: u32 = src[p + 2] as u32;
    let b3: u32 = src[p + 3] as u32;
    b0 + 0x100 * b1 + 0x1_0000 * b2 + 0x100_0000 * b3
}

/// A seeded keystream generator: twenty rounds of a quarter-round network on
/// blocks of sixteen words, with a 64-bit block counter.
pub struct ChaCha20 {
    s: [u32; 14],
    ctr: u64,
    hexbytes: Vec<u8>,
}

impl View for ChaCha20 {
    type V = ChaChaView;

    closed spec fn view(&self) -> ChaChaView {
        ChaChaView { words: self.s@, ctr: self.ctr, pending: self.hexbytes@ }
    }
}

impl ChaCha20 {
    /// A generator from the first 56 bytes of `src`.
    pub fn new(src: &[u8]) -> (g: Self)
        requires
            src.len() >= 56,
        ensures
            g@ == initial(src@),
    {
        let s: [u32; 14] = [
            read_word(src, 0),
            read_word(src, 4),
            read_word(src, 8),
            read_word(src, 12),
            read_word(src, 16),
            read_word(src, 20),
            read_word(src, 24),
            read_word(src, 28),
            read_word(src, 32),
            read_word(src, 36),
            read_word(src, 40),
            read_word(src, 44),
            read_word(src, 48),
            read_word(src, 52),
        ];
        let ctr: u64 = s[12] as u64 + 0x1_0000_0000 * (s[13] as u64);
        let g = ChaCha20 { s, ctr, hexbytes: Vec::new() };
        assert(g.s@ =~= seed_words(src@));
        g
    }

    /// Whether a request for `k` bytes can be served.
    pub fn can_emit(&self, k: usize) -> (ok: bool)
        ensures
            ok == can_serve(self@, k as nat),
    {
        k <= BLOCK_BYTES && (k <= self.hexbytes.len() || self.ctr <= u64::MAX - 8)
    }

    /// One quarter round on four words of a block.
    fn qround(state: &mut [u32; 16], a: usize, b: usize, c: usize, d: usize)
        requires
            a < 16,
            b < 16,
            c < 16,
            d < 16,
        ensures
            final(state)@ == quarter(old(state)@, a as int, b as int, c as int, d as int),
    {
        let mut a_: u32 = state[a];
        let mut b_: u32 = state[b];
        let mut c_: u32 = state[c];
        let mut d_: u32 = state[d];
        a_ = a_.wrapping_add(b_);
        d_ = roll(d_ ^ a_, 16);
        c_ = c_.wrapping_add(d_);
        b_ = roll(b_ ^ c_, 12);
        a_ = a_.wrapping_add(b_);
        d_ = roll(d_ ^ a_, 8);
        c_ = c_.wrapping_add(d_);
        b_ = roll(b_ ^ c_, 7);
        state[a] = a_;
        state[b] = b_;
        state[c] = c_;
        state[d] = d_;
    }

    /// The next sub-block of sixteen words; the counter goes up by one.
    fn update(&mut self) -> (out: [u32; 16])
        requires
            old(self).ctr < u64::MAX,
        ensures
            out@ == sub_block(old(self)@.words, old(self)@.ctr),
            final(self)@.words == old(self)@.words,
            final(self)@.ctr == old(self)@.ctr + 1,
            final(self)@.pending == old(self)@.pending,
    {
        let lo: u32 = (self.ctr % 0x1_0000_0000) as u32;
        let hi: u32 = (self.ctr / 0x1_0000_0000) as u32;
        let start: [u32; 16] = [
            0x61707865,
            0x3320646e,
            0x79622d32,
            0x6b206574,
            self.s[0],
            self.s[1],
            self.s[2],
            self.s[3],
            self.s[4],
            self.s[5],
            self.s[6],
            self.s[7],
            self.s[8],
            self.s[9],
            self.s[10] ^ lo,
            self.s[11] ^ hi,
        ];
        assert(start@ =~= input_block(self@.words, self@.ctr));
        let mut state: [u32; 16] = start;
        let mut r: usize = 0;
        while r < 10
            invariant
                r <= 10,
                state@ == rounds(start@, r as nat),
            decreases 10 - r,
        {
            Self::qround(&mut state, 0, 4, 8, 12);
            Self::qround(&mut state, 1, 5, 9, 13);
            Self::qround(&mut state, 2, 6, 10, 14);
            Self::qround(&mut state, 3, 7, 11, 15);
            Self::qround(&mut state, 0, 5, 10, 15);
            Self::qround(&mut state, 1, 6, 11, 12);
            Self::qround(&mut state, 2, 7, 8, 13);
            Self::qround(&mut state, 3, 4, 9, 14);
            r += 1;
        }
        let ghost mixed = state@;
        let mut i: usize = 0;
        while i < 16
            invariant
                i <= 16,
                mixed.len() == 16,
                forall|j: int| 0 <= j < i ==> state@[j] == mixed[j].wrapping_add(start@[j]),
                forall|j: int| i <= j < 16 ==> state@[j] == mixed[j],
            decreases 16 - i,
        {
            state[i] = state[i].wrapping_add(start[i]);
            i += 1;
        }
        assert(state@ =~= sub_block(self@.words, self@.ctr));
        self.ctr = self.ctr + 1;
        state
    }

    /// The next block of 512 bytes; the counter goes up by eight.
    fn block_update(&mut self) -> (out: Vec<u8>)
        requires
            old(self).ctr + 8 <= u64::MAX,
        ensures
            out@ == block_bytes(old(self)@.words, old(self)@.ctr),
            final(self)@.words == old(self)@.words,
            final(self)@.ctr == old(self)@.ctr + 8,
            final(self)@.pending == old(self)@.pending,
    {
        let ghost words = self@.words;
        let ghost ctr0 = self@.ctr;
        let mut block: Vec<u32> = Vec::new();
        let mut k: usize = 0;
        while k < 128
            invariant
                k <= 128,
                block@.len() == k,
            decreases 128 - k,
        {
            block.push(0);
            k += 1;
        }
        let mut i: usize = 0;
        while i < 8
            invariant
                i <= 8,
                block@.len() == 128,
                self@.words == words,
                self@.ctr == ctr0 + i,
                self@.pending == old(self)@.pending,
                ctr0 + 8 <= u64::MAX,
                forall|k: int|
                    0 <= k < 128 && k % 8 < i ==> block@[k] == sub_block(
                        words,
                        (ctr0 + k % 8) as u64,
                    )[k / 8],
            decreases 8 - i,
        {
            let update = self.update();
            let ghost prev = block@;
            let mut j: usize = 0;
            while j < 16
                invariant
                    j <= 16,
                    i < 8,
                    block@.len() == 128,
                    prev.len() == 128,
                    forall|k: int|
                        0 <= k < 128 && (k % 8 != i || k / 8 >= j) ==> block@[k] == prev[k],
                    forall|k: int|
                        0 <= k < 128 && k % 8 == i && k / 8 < j ==> block@[k] == update@[k / 8],
                decreases 16 - j,
            {
                block[i + 8 * j] = update[j];
                j += 1;
            }
            assert forall|k: int| 0 <= k < 128 && k % 8 < i + 1 implies block@[k] == sub_block(
                words,
                (ctr0 + k % 8) as u64,
            )[k / 8] by {
                if k % 8 == i {
                    assert(block@[k] == update@[k / 8]);
                } else {
                    assert(block@[k] == prev[k]);
                }
            }
            i += 1;
        }
        assert(block@ =~= block_words(words, ctr0));
        let mut out: Vec<u8> = Vec::new();
        let mut w: usize = 0;
        while w < 128
            invariant
                w <= 128,
                block@.len() == 128,
                out@.len() == 4 * w,
                forall|p: int| 0 <= p < 4 * w ==> out@[p] == le_byte(block@[p / 4], p % 4),
            decreases 128 - w,
        {
            let word: u32 = block[w];
            out.push((word % 0x100) as u8);
            out.push(((word / 0x100) % 0x100) as u8);
            out.push(((word / 0x1_0000) % 0x100) as u8);
            out.push((word / 0x100_0000) as u8);
            w += 1;
        }
        assert(out@ =~= block_bytes(words, ctr0));
        out
    }

    /// The next `k` bytes of the keystream.
    ///
    /// They come from the pending bytes; where those are fewer than `k`, they
    /// are dropped and a fresh block is generated first. What is left of the
    /// pending bytes stays for the next call.
    pub fn randombytes(&mut self, k: usize) -> (out: Vec<u8>)
        requires
            can_serve(old(self)@, k as nat),
        ensures
            out@ == emitted(old(self)@, k as nat),
            out@.len() == k,
            final(self)@ == advanced(old(self)@, k as nat),
    {
        if k > self.hexbytes.len() {
            let fresh = self.block_update();
            self.hexbytes = fresh;
        }
        assert(self@ == refilled(old(self)@, k as nat));
        let ghost pending = self.hexbytes@;
        let mut out: Vec<u8> = Vec::new();
        let mut rest: Vec<u8> = Vec::new();
        let n: usize = self.hexbytes.len();
        let mut i: usize = 0;
        while i < k
            invariant
                i <= k <= n,
                n == self.hexbytes.len(),
                self.hexbytes@ == pending,
                out@ == pending.take(i as int),
            decreases k - i,
        {
            out.push(self.hexbytes[i]);
            i += 1;
            assert(out@ =~= pending.take(i as int));
        }
        while i < n
            invariant
                k <= i <= n,
                n == self.hexbytes.len(),
                self.hexbytes@ == pending,
                rest@ == pending.subrange(k as int, i as int),
            decreases n - i,
        {
            rest.push(self.hexbytes[i]);
            i += 1;
            assert(rest@ =~= pending.subrange(k as int, i as int));
        }
        assert(rest@ =~= pending.skip(k as int));
        self.hexbytes = rest;
        out
    }
}

} // verus!
