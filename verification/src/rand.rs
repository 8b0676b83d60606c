use vstd::prelude::*;
pub mod slice;
use vstd::arithmetic::div_mod::{lemma_add_mod_noop_right, lemma_fundamental_div_mod, lemma_fundamental_div_mod_converse, lemma_mod_breakdown, lemma_mod_pos_bound};

verus! {

/// Number of ChaCha blocks one refill computes.
pub const BLOCKS_PER_BUFFER: usize = 8;

/// Number of words in the output buffer.
pub const BUF_WORDS: usize = 128;

/// `x` rotated left by `n` bits, `0 < n < 32`.
pub open spec fn rotl(x: u32, n: u32) -> u32 {
    (x << n) | (x >> ((32 - n) as u32))
}

/// The ChaCha quarter round on words `a`, `b`, `c`, `d` of the state `x`.
pub open spec fn qr(x: Seq<u32>, a: int, b: int, c: int, d: int) -> Seq<u32> {
    let x1 = x.update(a, x[a].wrapping_add(x[b]));
    let x2 = x1.update(d, rotl(x1[d] ^ x1[a], 16));
    let x3 = x2.update(c, x2[c].wrapping_add(x2[d]));
    let x4 = x3.update(b, rotl(x3[b] ^ x3[c], 12));
    let x5 = x4.update(a, x4[a].wrapping_add(x4[b]));
    let x6 = x5.update(d, rotl(x5[d] ^ x5[a], 8));
    let x7 = x6.update(c, x6[c].wrapping_add(x6[d]));
    x7.update(b, rotl(x7[b] ^ x7[c], 7))
}

/// A ChaCha double round: four column rounds, then four diagonal rounds.
pub open spec fn double_round(x: Seq<u32>) -> Seq<u32> {
    let c1 = qr(x, 0, 4, 8, 12);
    let c2 = qr(c1, 1, 5, 9, 13);
    let c3 = qr(c2, 2, 6, 10, 14);
    let c4 = qr(c3, 3, 7, 11, 15);
    let d1 = qr(c4, 0, 5, 10, 15);
    let d2 = qr(d1, 1, 6, 11, 12);
    let d3 = qr(d2, 2, 7, 8, 13);
    qr(d3, 3, 4, 9, 14)
}

/// `n` double rounds applied to `x`.
pub open spec fn rounds(x: Seq<u32>, n: nat) -> Seq<u32>
    decreases n,
{
    if n == 0 {
        x
    } else {
        double_round(rounds(x, (n - 1) as nat))
    }
}

/// The ChaCha20 block of the state `s`: twenty rounds, then the state added word by word.
#[verifier::opaque]
pub open spec fn chacha_block(s: Seq<u32>) -> Seq<u32> {
    Seq::new(16, |i: int| rounds(s, 10)[i].wrapping_add(s[i]))
}

/// The 64-bit block counter held in two words.
pub open spec fn ctr(lo: u32, hi: u32) -> int {
    hi as int * 0x1_0000_0000 + lo as int
}

/// The state `s` with the block counter set to `c`.
pub open spec fn with_counter(s: Seq<u32>, c: int) -> Seq<u32> {
    s.update(12, (c % 0x1_0000_0000) as u32).update(13, ((c / 0x1_0000_0000) % 0x1_0000_0000) as u32)
}

/// Word `i` of block `b` of the buffer that a refill computes from the state `s`: the
/// blocks for the eight counters from the one in `s` on.
pub open spec fn buffer_word(s: Seq<u32>, b: int, i: int) -> u32 {
    chacha_block(with_counter(s, (ctr(s[12], s[13]) + b) % 0x1_0000_0000_0000_0000))[i]
}

/// Word `n` of the key stream of the state `s`.
pub open spec fn stream_word(s: Seq<u32>, n: int) -> u32 {
    chacha_block(with_counter(s, (n / 16) % 0x1_0000_0000_0000_0000))[n % 16]
}

proof fn lemma_counter_split(lo: u32, hi: u32)
    ensures
        ctr(lo, hi) % 0x1_0000_0000 == lo,
        (ctr(lo, hi) / 0x1_0000_0000) % 0x1_0000_0000 == hi,
        0 <= ctr(lo, hi) < 0x1_0000_0000_0000_0000,
{
    lemma_fundamental_div_mod_converse(ctr(lo, hi), 0x1_0000_0000, hi as int, lo as int);
    lemma_fundamental_div_mod_converse(hi as int, 0x1_0000_0000, 0, hi as int);
}

fn quarter(x: &mut [u32; 16], a: usize, b: usize, c: usize, d: usize)
    requires
        a < 16,
        b < 16,
        c < 16,
        d < 16,
    ensures
        final(x)@ == qr(old(x)@, a as int, b as int, c as int, d as int),
{
    x[a] = x[a].wrapping_add(x[b]);
    x[d] = (x[d] ^ x[a]) << 16u32 | (x[d] ^ x[a]) >> 16u32;
    x[c] = x[c].wrapping_add(x[d]);
    x[b] = (x[b] ^ x[c]) << 12u32 | (x[b] ^ x[c]) >> 20u32;
    x[a] = x[a].wrapping_add(x[b]);
    x[d] = (x[d] ^ x[a]) << 8u32 | (x[d] ^ x[a]) >> 24u32;
    x[c] = x[c].wrapping_add(x[d]);
    x[b] = (x[b] ^ x[c]) << 7u32 | (x[b] ^ x[c]) >> 25u32;
}

fn chacha_rounds(s: &[u32; 16]) -> (x: [u32; 16])
    ensures
        x@ == rounds(s@, 10),
{
    let mut x = *s;
    let mut i: usize = 0;
    while i < 10
        invariant
            i <= 10,
            x@ == rounds(s@, i as nat),
        decreases 10 - i,
    {
        quarter(&mut x, 0, 4, 8, 12);
        quarter(&mut x, 1, 5, 9, 13);
        quarter(&mut x, 2, 6, 10, 14);
        quarter(&mut x, 3, 7, 11, 15);
        quarter(&mut x, 0, 5, 10, 15);
        quarter(&mut x, 1, 6, 11, 12);
        quarter(&mut x, 2, 7, 8, 13);
        quarter(&mut x, 3, 4, 9, 14);
        i = i + 1;
    }
    x
}

/// The counter eight blocks before `lo`, `hi`, with the borrow from the high word.
fn back_eight(lo: u32, hi: u32) -> (r: (u32, u32))
    ensures
        ctr(r.0, r.1) == (ctr(lo, hi) - 8) % 0x1_0000_0000_0000_0000,
{
    if lo >= 8 {
        (lo - 8, hi)
    } else {
        (lo.wrapping_sub(8), hi.wrapping_sub(1))
    }
}

/// The counter after `lo`, `hi`, with the carry into the high word.
fn next_counter(lo: u32, hi: u32) -> (r: (u32, u32))
    ensures
        ctr(r.0, r.1) == (ctr(lo, hi) + 1) % 0x1_0000_0000_0000_0000,
{
    let new_lo = lo.wrapping_add(1);
    let new_hi = if new_lo == 0 {
        hi.wrapping_add(1)
    } else {
        hi
    };
    (new_lo, new_hi)
}

/// The ChaCha20 random number generator: a state of sixteen words (constants, key,
/// block counter, stream) and a buffer of eight blocks of output.
#[derive(Clone)]
pub struct ChaCha20Rng {
    state: [u32; 16],
    buffer: [u32; 128],
    idx: usize,
}

/// Position in the key stream of buffer word `idx`, when the counter is `c`; from
/// `idx == 128` on, the buffer is used up and the next word is the first of block `c`.
#[verifier::opaque]
pub open spec fn word_pos(c: int, idx: int) -> int {
    if idx < 128 {
        (((c - 8) % 0x1_0000_0000_0000_0000) * 16 + idx) % 0x10_0000_0000_0000_0000
    } else {
        c * 16
    }
}

/// The state without its block counter.
pub open spec fn key_of(s: Seq<u32>) -> Seq<u32> {
    s.update(12, 0u32).update(13, 0u32)
}

impl View for ChaCha20Rng {
    /// The state without its counter, the position in the key stream in words, and the
    /// block counter, which is the block the next refill starts at.
    type V = (Seq<u32>, int, int);

    closed spec fn view(&self) -> (Seq<u32>, int, int) {
        let c = ctr(self.state@[12], self.state@[13]);
        (key_of(self.state@), word_pos(c, self.idx as int), c)
    }
}

impl ChaCha20Rng {
    /// Whether the buffer holds the eight blocks before the counter, from `idx` on unread.
    #[verifier::opaque]
    pub closed spec fn wf(&self) -> bool {
        &&& self.idx <= 128
        &&& self.state@.len() == 16
        &&& self.idx < 128 ==> forall|b: int, i: int|
            0 <= b < 8 && 0 <= i < 16 ==> #[trigger] self.buffer@[b * 16 + i] == chacha_block(
                with_counter(
                    self.state@,
                    (ctr(self.state@[12], self.state@[13]) - 8 + b) % 0x1_0000_0000_0000_0000,
                ),
            )[i]
    }

    proof fn lemma_view_bounds(&self)
        requires
            self.wf(),
        ensures
            0 <= self@.1 < 0x10_0000_0000_0000_0000,
            0 <= self@.2 < 0x1_0000_0000_0000_0000,
    {
        reveal(ChaCha20Rng::wf);
        lemma_counter_split(self.state@[12], self.state@[13]);
        lemma_pos_bounds(ctr(self.state@[12], self.state@[13]), self.idx as int);
    }

    fn refill(&mut self)
        requires
            old(self).state@.len() == 16,
        ensures
            final(self).wf(),
            final(self).idx == 0,
            key_of(final(self).state@) == key_of(old(self).state@),
            ctr(final(self).state@[12], final(self).state@[13]) == (ctr(old(self).state@[12], old(self).state@[13]) + 8) % 0x1_0000_0000_0000_0000,
    {
        proof {
            reveal(ChaCha20Rng::wf);
        }
        let ghost st = self.state@;
        let ghost c0 = ctr(st[12], st[13]);
        let mut c_lo = self.state[12];
        let mut c_hi = self.state[13];
        let mut b: usize = 0;
        while b < 8
            invariant
                self.state@ == st,
                st.len() == 16,
                c0 == ctr(st[12], st[13]),
                b <= 8,
                ctr(c_lo, c_hi) == (c0 + b) % 0x1_0000_0000_0000_0000,
                forall|bb: int, i: int| 0 <= bb < b && 0 <= i < 16 ==> #[trigger] self.buffer@[bb * 16 + i]
                    == chacha_block(with_counter(st, (c0 + bb) % 0x1_0000_0000_0000_0000))[i],
            decreases 8 - b,
        {
            let mut s = self.state;
            s[12] = c_lo;
            s[13] = c_hi;
            proof {
                lemma_counter_split(c_lo, c_hi);
                assert(s@ =~= with_counter(st, (c0 + b) % 0x1_0000_0000_0000_0000));
            }
            let x = chacha_rounds(&s);
            let off = b * 16;
            let mut i: usize = 0;
            while i < 16
                invariant
                    self.state@ == st,
                    st.len() == 16,
                    b < 8,
                    off == b * 16,
                    i <= 16,
                    x@ == rounds(s@, 10),
                    s@ == with_counter(st, (c0 + b) % 0x1_0000_0000_0000_0000),
                    forall|bb: int, k: int| 0 <= bb < b && 0 <= k < 16 ==> #[trigger] self.buffer@[bb * 16 + k]
                        == chacha_block(with_counter(st, (c0 + bb) % 0x1_0000_0000_0000_0000))[k],
                    forall|k: int| 0 <= k < i ==> #[trigger] self.buffer@[b * 16 + k] == chacha_block(s@)[k],
                decreases 16 - i,
            {
                self.buffer[off + i] = x[i].wrapping_add(s[i]);
                assert(chacha_block(s@)[i as int] == x@[i as int].wrapping_add(s@[i as int])) by {
                    reveal(chacha_block);
                }
                proof {
                    assert forall|bb: int, k: int| 0 <= bb < b && 0 <= k < 16 implies #[trigger] self.buffer@[bb * 16 + k]
                        == chacha_block(with_counter(st, (c0 + bb) % 0x1_0000_0000_0000_0000))[k] by {
                        assert(bb * 16 + k < b * 16 + i);
                    }
                }
                i = i + 1;
            }
            let (nl, nh) = next_counter(c_lo, c_hi);
            c_lo = nl;
            c_hi = nh;
            b = b + 1;
        }
        self.state[12] = c_lo;
        self.state[13] = c_hi;
        self.idx = 0;
        proof {
            lemma_counter_split(c_lo, c_hi);
            lemma_counter_split(st[12], st[13]);
            assert(key_of(self.state@) =~= key_of(st));
            assert forall|bb: int, i: int| 0 <= bb < 8 && 0 <= i < 16 implies #[trigger] self.buffer@[bb * 16 + i]
                == chacha_block(with_counter(self.state@, (ctr(self.state@[12], self.state@[13]) - 8 + bb) % 0x1_0000_0000_0000_0000))[i] by {
                assert(with_counter(self.state@, (ctr(self.state@[12], self.state@[13]) - 8 + bb) % 0x1_0000_0000_0000_0000)
                    =~= with_counter(st, (c0 + bb) % 0x1_0000_0000_0000_0000));
            }
        }
    }
}

proof fn lemma_stream_pos(c: int, idx: int)
    requires
        0 <= c < 0x1_0000_0000_0000_0000,
        0 <= idx < 128,
    ensures
        ({
            let wp = (((c - 8) % 0x1_0000_0000_0000_0000) * 16 + idx) % 0x10_0000_0000_0000_0000;
            &&& (wp / 16) % 0x1_0000_0000_0000_0000 == (c - 8 + idx / 16) % 0x1_0000_0000_0000_0000
            &&& wp % 16 == idx % 16
            &&& 0 <= wp < 0x10_0000_0000_0000_0000
        }),
{
    let m: int = 0x1_0000_0000_0000_0000;
    let big: int = 0x10_0000_0000_0000_0000;
    let k: int = if c >= 8 {
        0
    } else {
        -1
    };
    let g: int = c - 8 - k * m;
    lemma_fundamental_div_mod_converse(c - 8, m, k, g);
    lemma_fundamental_div_mod(idx, 16);
    lemma_mod_pos_bound(idx, 16);
    let b = idx / 16;
    let i = idx % 16;
    let t = g * 16 + idx;
    assert(t == (g + b) * 16 + i);
    if g + b < m {
        lemma_fundamental_div_mod_converse(t, big, 0, t);
        lemma_fundamental_div_mod_converse(t, 16, g + b, i);
        lemma_fundamental_div_mod_converse(g + b, m, 0, g + b);
        lemma_fundamental_div_mod_converse(c - 8 + b, m, k, g + b);
    } else {
        let w = t - big;
        lemma_fundamental_div_mod_converse(t, big, 1, w);
        lemma_fundamental_div_mod_converse(w, 16, g + b - m, i);
        lemma_fundamental_div_mod_converse(g + b - m, m, 0, g + b - m);
        lemma_fundamental_div_mod_converse(c - 8 + b, m, k + 1, g + b - m);
    }
}

proof fn lemma_pos_step(c: int, idx: int)
    requires
        0 <= c < 0x1_0000_0000_0000_0000,
        0 <= idx < 128,
    ensures
        word_pos(c, idx + 1) == (word_pos(c, idx) + 1) % 0x10_0000_0000_0000_0000,
{
    reveal(word_pos);
    let m: int = 0x1_0000_0000_0000_0000;
    let big: int = 0x10_0000_0000_0000_0000;
    let k: int = if c >= 8 {
        0
    } else {
        -1
    };
    let g: int = c - 8 - k * m;
    lemma_fundamental_div_mod_converse(c - 8, m, k, g);
    let t = g * 16 + idx;
    let q: int = if t >= big {
        1
    } else {
        0
    };
    lemma_fundamental_div_mod_converse(t, big, q, t - q * big);
    if idx + 1 < 128 {
        let q2: int = if t + 1 >= big {
            1
        } else {
            0
        };
        lemma_fundamental_div_mod_converse(t + 1, big, q2, t + 1 - q2 * big);
        lemma_fundamental_div_mod_converse(t - q * big + 1, big, q2 - q, t + 1 - q2 * big);
    } else {
        let kk: int = if g + 8 >= m {
            1
        } else {
            0
        };
        assert(c == g + 8 - kk * m);
        lemma_fundamental_div_mod_converse(t - q * big + 1, big, kk - q, c * 16);
    }
}

proof fn lemma_mod_add(x: int, d: int)
    ensures
        ((x % 0x10_0000_0000_0000_0000) + d) % 0x10_0000_0000_0000_0000 == (x + d)
            % 0x10_0000_0000_0000_0000,
{
    lemma_add_mod_noop_right(d, x, 0x10_0000_0000_0000_0000);
}

proof fn lemma_pos_not_end(c: int, idx: int)
    requires
        0 <= c < 0x1_0000_0000_0000_0000,
        0 <= idx < 128,
    ensures
        word_pos(c, idx) != c * 16,
{
    reveal(word_pos);
    let m: int = 0x1_0000_0000_0000_0000;
    let big: int = 0x10_0000_0000_0000_0000;
    let k: int = if c >= 8 {
        0
    } else {
        -1
    };
    let g: int = c - 8 - k * m;
    lemma_fundamental_div_mod_converse(c - 8, m, k, g);
    let t = g * 16 + idx;
    let q: int = if t >= big {
        1
    } else {
        0
    };
    lemma_fundamental_div_mod_converse(t, big, q, t - q * big);
}

proof fn lemma_pos_end(c: int)
    ensures
        word_pos(c, 128) == c * 16,
{
    reveal(word_pos);
}

proof fn lemma_pos_bounds(c: int, idx: int)
    requires
        0 <= c < 0x1_0000_0000_0000_0000,
        0 <= idx <= 128,
    ensures
        0 <= word_pos(c, idx) < 0x10_0000_0000_0000_0000,
{
    reveal(word_pos);
    vstd::arithmetic::div_mod::lemma_mod_bound(((c - 8) % 0x1_0000_0000_0000_0000) * 16 + idx, 0x10_0000_0000_0000_0000);
}

proof fn lemma_pos_refill(c: int)
    requires
        0 <= c < 0x1_0000_0000_0000_0000,
    ensures
        word_pos((c + 8) % 0x1_0000_0000_0000_0000, 0) == word_pos(c, 128),
{
    reveal(word_pos);
    let m: int = 0x1_0000_0000_0000_0000;
    let big: int = 0x10_0000_0000_0000_0000;
    let q: int = if c + 8 >= m {
        1
    } else {
        0
    };
    lemma_fundamental_div_mod_converse(c + 8, m, q, c + 8 - q * m);
    let c2 = c + 8 - q * m;
    lemma_fundamental_div_mod_converse(c2 - 8, m, -q, c);
    lemma_fundamental_div_mod_converse(c * 16, big, 0, c * 16);
}

proof fn lemma_read_word(st: Seq<u32>, buf: Seq<u32>, idx: int)
    requires
        st.len() == 16,
        0 <= idx < 128,
        forall|b: int, i: int|
            0 <= b < 8 && 0 <= i < 16 ==> #[trigger] buf[b * 16 + i] == chacha_block(
                with_counter(st, (ctr(st[12], st[13]) - 8 + b) % 0x1_0000_0000_0000_0000),
            )[i],
    ensures
        buf[idx] == stream_word(key_of(st), word_pos(ctr(st[12], st[13]), idx)),
{
    reveal(word_pos);
    let c = ctr(st[12], st[13]);
    lemma_counter_split(st[12], st[13]);
    lemma_stream_pos(c, idx);
    lemma_fundamental_div_mod(idx, 16);
    lemma_mod_pos_bound(idx, 16);
    assert(buf[(idx / 16) * 16 + idx % 16] == buf[idx]);
    assert(with_counter(key_of(st), (c - 8 + idx / 16) % 0x1_0000_0000_0000_0000) =~= with_counter(
        st,
        (c - 8 + idx / 16) % 0x1_0000_0000_0000_0000,
    ));
}

impl ChaCha20Rng {
    /// The next word of the key stream.
    pub fn next_u32(&mut self) -> (r: u32)
        requires
            old(self).wf(),
        ensures
            final(self).wf(),
            final(self)@.0 == old(self)@.0,
            final(self)@.1 == (old(self)@.1 + 1) % 0x10_0000_0000_0000_0000,
            final(self)@.2 == if old(self)@.1 == old(self)@.2 * 16 {
                (old(self)@.2 + 8) % 0x1_0000_0000_0000_0000
            } else {
                old(self)@.2
            },
            r == stream_word(old(self)@.0, old(self)@.1),
    {
        proof {
            reveal(ChaCha20Rng::wf);
        }
        proof {
            lemma_counter_split(self.state@[12], self.state@[13]);
            if self.idx < 128 {
                lemma_pos_not_end(ctr(self.state@[12], self.state@[13]), self.idx as int);
            } else {
                lemma_pos_end(ctr(self.state@[12], self.state@[13]));
            }
        }
        if self.idx >= 128 {
            let ghost c = ctr(self.state@[12], self.state@[13]);
            proof {
                lemma_counter_split(self.state@[12], self.state@[13]);
            }
            self.refill();
            proof {
                lemma_pos_refill(c);
            }
        }
        let i = self.idx;
        let v = self.buffer[i];
        proof {
            lemma_read_word(self.state@, self.buffer@, i as int);
            lemma_counter_split(self.state@[12], self.state@[13]);
            lemma_pos_step(ctr(self.state@[12], self.state@[13]), i as int);
        }
        self.idx = self.idx + 1;
        v
    }
}

/// The little-endian word of `b[k..k + 4]`.
pub open spec fn le32(b: Seq<u8>, k: int) -> u32 {
    b[k] as u32 | (b[k + 1] as u32) << 8u32 | (b[k + 2] as u32) << 16u32 | (b[k + 3] as u32) << 24u32
}

/// The ChaCha constants `"expand 32-byte k"`.
pub open spec fn chacha_const(i: int) -> u32 {
    if i == 0 {
        0x61707865
    } else if i == 1 {
        0x3320646e
    } else if i == 2 {
        0x79622d32
    } else {
        0x6b206574
    }
}

/// The state for a 32-byte key: constants, the key as eight little-endian words, and
/// a zero counter and stream.
pub open spec fn seed_state(seed: Seq<u8>) -> Seq<u32> {
    Seq::new(
        16,
        |i: int|
            if i < 4 {
                chacha_const(i)
            } else if i < 12 {
                le32(seed, 4 * (i - 4))
            } else {
                0u32
            },
    )
}

/// One step of the SplitMix64 generator: the next state.
pub open spec fn mix_step(x: u64) -> u64 {
    let x1 = (x ^ (x >> 30u64)).wrapping_mul(0xBF58476D1CE4E5B9);
    (x1 ^ (x1 >> 27u64)).wrapping_mul(0x94D049BB133111EB)
}

/// The SplitMix64 state after `n + 1` steps from the seed `s`.
pub open spec fn mix_state(s: u64, n: nat) -> u64
    decreases n,
{
    if n == 0 {
        mix_step(s.wrapping_add(0x9E3779B97F4A7C15))
    } else {
        mix_step(mix_state(s, (n - 1) as nat))
    }
}

/// Byte `k` of the 32-byte key that `seed_from_u64` makes of `s`: the outputs of four
/// SplitMix64 steps, little-endian.
pub open spec fn mix_seed_byte(s: u64, k: int) -> u8 {
    let y = mix_state(s, (k / 8) as nat);
    let z = y ^ (y >> 31u64);
    (z >> ((8 * (k % 8)) as u64)) as u8
}

/// Seeding of a generator from a 32-byte key or from a `u64`.
pub trait SeedableRng: Sized {
    fn from_seed(seed: [u8; 32]) -> Self;

    fn seed_from_u64(state: u64) -> Self;
}

impl SeedableRng for ChaCha20Rng {
    /// A generator for the key `seed`, at the start of stream 0.
    fn from_seed(seed: [u8; 32]) -> (r: ChaCha20Rng)
        ensures
            r.wf(),
            r@ == (key_of(seed_state(seed@)), 0int, 0int),
    {
        proof {
            reveal(ChaCha20Rng::wf);
            reveal(word_pos);
        }
        let mut state = [0u32; 16];
        state[0] = 0x61707865;
        state[1] = 0x3320646e;
        state[2] = 0x79622d32;
        state[3] = 0x6b206574;
        let mut i: usize = 0;
        while i < 8
            invariant
                i <= 8,
                state@.len() == 16,
                forall|j: int| 0 <= j < 4 ==> state@[j] == chacha_const(j),
                forall|j: int| 4 <= j < 4 + i ==> state@[j] == le32(seed@, 4 * (j - 4)),
                forall|j: int| 4 + i <= j < 16 ==> state@[j] == 0,
            decreases 8 - i,
        {
            let k = 4 * i;
            state[4 + i] = seed[k] as u32 | (seed[k + 1] as u32) << 8u32 | (seed[k + 2] as u32) << 16u32 | (seed[k + 3] as u32) << 24u32;
            i = i + 1;
        }
        let r = ChaCha20Rng { state, buffer: [0u32; 128], idx: 128 };
        assert(state@ =~= seed_state(seed@));
        r
    }

    /// A generator whose key comes from `state` by SplitMix64.
    fn seed_from_u64(state: u64) -> (r: ChaCha20Rng)
        ensures
            r.wf(),
            r@ == (key_of(seed_state(Seq::new(32, |k: int| mix_seed_byte(state, k)))), 0int, 0int),
    {
        let mut s = [0u8; 32];
        let mut x = state.wrapping_add(0x9E3779B97F4A7C15);
        let mut c: usize = 0;
        while c < 4
            invariant
                c <= 4,
                c > 0 ==> x == mix_state(state, (c - 1) as nat),
                c == 0 ==> x == state.wrapping_add(0x9E3779B97F4A7C15),
                forall|k: int| 0 <= k < 8 * c ==> s@[k] == mix_seed_byte(state, k),
            decreases 4 - c,
        {
            let x1 = (x ^ (x >> 30u64)).wrapping_mul(0xBF58476D1CE4E5B9);
            x = (x1 ^ (x1 >> 27u64)).wrapping_mul(0x94D049BB133111EB);
            let y = x ^ (x >> 31u64);
            let mut j: usize = 0;
            while j < 8
                invariant
                    c < 4,
                    j <= 8,
                    x == mix_state(state, c as nat),
                    y == x ^ (x >> 31u64),
                    forall|k: int| 0 <= k < 8 * c ==> s@[k] == mix_seed_byte(state, k),
                    forall|k: int| 8 * c <= k < 8 * c + j ==> s@[k] == mix_seed_byte(state, k),
                decreases 8 - j,
            {
                s[8 * c + j] = (y >> ((8 * j) as u64)) as u8;
                proof {
                    let k = 8 * c + j;
                    lemma_fundamental_div_mod_converse(k as int, 8, c as int, j as int);
                }
                j = j + 1;
            }
            c = c + 1;
        }
        let ghost seed = Seq::new(32, |k: int| mix_seed_byte(state, k));
        assert(s@ =~= seed);
        Self::from_seed(s)
    }
}

impl ChaCha20Rng {
    /// Switches to stream `stream`; the next word is the first of the block at the
    /// counter.
    pub fn set_stream(&mut self, stream: u64)
        requires
            old(self).wf(),
        ensures
            final(self).wf(),
            final(self)@ == (
                old(self)@.0.update(14, stream as u32).update(15, (stream >> 32u64) as u32),
                old(self)@.1,
                old(self)@.2,
            ),
    {
        proof {
            reveal(word_pos);
        }
        proof {
            reveal(ChaCha20Rng::wf);
        }
        let ghost c0 = ctr(self.state@[12], self.state@[13]);
        self.state[14] = stream as u32;
        self.state[15] = (stream >> 32u64) as u32;
        if self.idx < 128 {
            let idx = self.idx;
            let (lo, hi) = back_eight(self.state[12], self.state[13]);
            self.state[12] = lo;
            self.state[13] = hi;
            self.refill();
            self.idx = idx;
            proof {
                lemma_counter_split(old(self).state@[12], old(self).state@[13]);
                assert(ctr(self.state@[12], self.state@[13]) == c0);
            }
        }
        assert(key_of(self.state@) =~= key_of(old(self).state@).update(14, stream as u32).update(15, (stream >> 32u64) as u32));
    }

    /// The next two words of the key stream, the first as the low half.
    pub fn next_u64(&mut self) -> (r: u64)
        requires
            old(self).wf(),
        ensures
            final(self).wf(),
            final(self)@.0 == old(self)@.0,
            final(self)@.1 == (old(self)@.1 + 2) % 0x10_0000_0000_0000_0000,
            r == (stream_word(old(self)@.0, old(self)@.1) as u64) | ((stream_word(
                old(self)@.0,
                (old(self)@.1 + 1) % 0x10_0000_0000_0000_0000,
            ) as u64) << 32u64),
    {
        let ghost p = self@.1;
        let w0 = self.next_u32();
        let w1 = self.next_u32();
        proof {
            lemma_mod_add(p + 1, 1);
        }
        (w0 as u64) | ((w1 as u64) << 32u64)
    }
}

/// The four bytes of `w`, least significant first.
pub open spec fn le_bytes(w: u32) -> Seq<u8> {
    seq![w as u8, (w >> 8u32) as u8, (w >> 16u32) as u8, (w >> 24u32) as u8]
}

/// The bytes of `n` words of the key stream from position `p`.
pub open spec fn stream_bytes(k: Seq<u32>, p: int, n: nat) -> Seq<u8>
    decreases n,
{
    if n == 0 {
        Seq::empty()
    } else {
        stream_bytes(k, p, (n - 1) as nat) + le_bytes(
            stream_word(k, (p + n - 1) % 0x10_0000_0000_0000_0000),
        )
    }
}

/// The 64-bit draw at position `p`: two words, the first as the low half.
pub open spec fn draw_u64(k: Seq<u32>, p: int) -> u64 {
    (stream_word(k, p) as u64) | ((stream_word(k, (p + 1) % 0x10_0000_0000_0000_0000) as u64)
        << 32u64)
}

/// How many 64-bit draws from position `p` it takes to get one below `zone`, counting
/// at most `n`.
pub open spec fn draws_u64(k: Seq<u32>, p: int, zone: int, n: nat) -> nat
    decreases n,
{
    if n <= 1 || (draw_u64(k, p) as int) < zone {
        1
    } else {
        1 + draws_u64(k, (p + 2) % 0x10_0000_0000_0000_0000, zone, (n - 1) as nat)
    }
}

/// How many 32-bit draws from position `p` it takes to get one below `zone`, counting
/// at most `n`.
pub open spec fn draws_u32(k: Seq<u32>, p: int, zone: int, n: nat) -> nat
    decreases n,
{
    if n <= 1 || (stream_word(k, p) as int) < zone {
        1
    } else {
        1 + draws_u32(k, (p + 1) % 0x10_0000_0000_0000_0000, zone, (n - 1) as nat)
    }
}

/// The 64-bit draws kept for a span: those below the largest multiple of `span`
/// that `u64::MAX` reaches.
#[verifier::opaque]
pub open spec fn zone_u64(span: int) -> int {
    u64::MAX as int - (u64::MAX as int) % span
}

/// The 32-bit draws kept for a span: those below the largest multiple of `span` up
/// to 2^32.
#[verifier::opaque]
pub open spec fn zone_u32(span: int) -> int {
    0x1_0000_0000int - 0x1_0000_0000int % span
}

proof fn lemma_draws_u64_step(k: Seq<u32>, p: int, zone: int, n: nat)
    requires
        n > 1,
        draw_u64(k, p) as int >= zone,
    ensures
        draws_u64(k, p, zone, n) == 1 + draws_u64(k, (p + 2) % 0x10_0000_0000_0000_0000, zone, (n - 1) as nat),
{
}

proof fn lemma_draws_u32_step(k: Seq<u32>, p: int, zone: int, n: nat)
    requires
        n > 1,
        stream_word(k, p) as int >= zone,
    ensures
        draws_u32(k, p, zone, n) == 1 + draws_u32(k, (p + 1) % 0x10_0000_0000_0000_0000, zone, (n - 1) as nat),
{
}

/// The largest number of draws a range sample takes before it keeps the last one.
pub open spec fn max_draws() -> nat {
    0xFFFF_FFFF_FFFF_FFFF
}

impl ChaCha20Rng {
    /// Moves to word `pos` of the key stream, taken modulo 2^68.
    pub fn set_word_pos(&mut self, pos: u128)
        requires
            old(self).wf(),
        ensures
            final(self).wf(),
            final(self)@.0 == old(self)@.0,
            final(self)@.1 == pos as int % 0x10_0000_0000_0000_0000,
            final(self)@.2 == ((pos as int / 16) % 0x1_0000_0000_0000_0000 / 8 * 8 + 8)
                % 0x1_0000_0000_0000_0000,
    {
        proof {
            reveal(word_pos);
        }
        proof {
            reveal(ChaCha20Rng::wf);
        }
        let block = (pos >> 4u32) as u64;
        let group = block & !7u64;
        let lo = group as u32;
        let hi = (group >> 32u64) as u32;
        proof {
            assert(block == ((pos >> 4u32) % 0x1_0000_0000_0000_0000) as u64) by (bit_vector)
                requires
                    block == (pos >> 4u32) as u64,
            ;
            assert(pos >> 4u32 == pos / 16) by (bit_vector);
            assert(group == block - block % 8) by (bit_vector)
                requires
                    group == block & !7u64,
            ;
            assert(lo == group % 0x1_0000_0000 && hi == group / 0x1_0000_0000) by (bit_vector)
                requires
                    lo == group as u32,
                    hi == (group >> 32u64) as u32,
            ;
            lemma_fundamental_div_mod(group as int, 0x1_0000_0000);
            lemma_fundamental_div_mod(block as int, 8);
        }
        self.state[12] = lo;
        self.state[13] = hi;
        assert(key_of(self.state@) =~= key_of(old(self).state@));
        self.refill();
        proof {
            assert(pos & 0xF == pos % 16) by (bit_vector);
        }
        let idx = ((block - group) as usize) * 16 + (pos & 0xF) as usize;
        proof {
            let m: int = 0x1_0000_0000_0000_0000;
            let c2 = ctr(self.state@[12], self.state@[13]);
            lemma_fundamental_div_mod_converse(group + 8, m, if group + 8 >= m { 1int } else { 0int }, c2);
            lemma_fundamental_div_mod_converse(c2 - 8, m, if group + 8 >= m { -1int } else { 0int }, group as int);
            lemma_mod_breakdown(pos as int, 16, m);
            lemma_fundamental_div_mod(block as int, 8);
            assert(group as int * 16 + idx == block as int * 16 + pos as int % 16);
            lemma_fundamental_div_mod_converse(pos as int / 16, m, (pos as int / 16) / m, block as int);
        }
        self.idx = idx;
    }
}

impl ChaCha20Rng {
    /// Fills `dst` with key-stream bytes, four per word, least significant first; a
    /// last partial word is used up.
    pub fn fill_bytes(&mut self, dst: &mut [u8])
        requires
            old(self).wf(),
        ensures
            final(self).wf(),
            final(self)@.0 == old(self)@.0,
            final(dst)@.len() == old(dst)@.len(),
            final(dst)@ == stream_bytes(old(self)@.0, old(self)@.1, ((old(dst)@.len() + 3) / 4) as nat).take(
                old(dst)@.len() as int,
            ),
            final(self)@.1 == (old(self)@.1 + (old(dst)@.len() + 3) / 4) % 0x10_0000_0000_0000_0000,
    {
        proof {
            self.lemma_view_bounds();
        }
        let ghost k = self@.0;
        let ghost p = self@.1;
        let n = dst.len();
        let mut i: usize = 0;
        let ghost mut w: nat = 0;
        while n - i >= 4
            invariant
                self.wf(),
                self@.0 == k,
                dst@.len() == n,
                n == old(dst)@.len(),
                i == 4 * w,
                i <= n,
                self@.1 == (p + w) % 0x10_0000_0000_0000_0000,
                dst@.subrange(0, i as int) == stream_bytes(k, p, w),
            decreases n - i,
        {
            let v = self.next_u32();
            dst[i] = v as u8;
            dst[i + 1] = (v >> 8u32) as u8;
            dst[i + 2] = (v >> 16u32) as u8;
            dst[i + 3] = (v >> 24u32) as u8;
            proof {
                lemma_mod_add(p + w, 1);
                w = w + 1;
                assert(dst@.subrange(0, i + 4) =~= stream_bytes(k, p, (w - 1) as nat) + le_bytes(v));
            }
            i = i + 4;
        }
        let rem = n - i;
        if rem > 0 {
            let v = self.next_u32();
            dst[i] = v as u8;
            if rem > 1 {
                dst[i + 1] = (v >> 8u32) as u8;
            }
            if rem > 2 {
                dst[i + 2] = (v >> 16u32) as u8;
            }
            proof {
                lemma_mod_add(p + w, 1);
                lemma_fundamental_div_mod_converse(n + 3, 4, (w + 1) as int, n + 3 - 4 * (w + 1));
                let all = stream_bytes(k, p, w + 1);
                assert(all =~= stream_bytes(k, p, w) + le_bytes(v));
                assert(dst@ =~= all.take(n as int));
            }
        } else {
            proof {
                lemma_fundamental_div_mod_converse(n + 3, 4, w as int, 3);
                assert(dst@ =~= stream_bytes(k, p, w).take(n as int));
            }
        }
    }

    /// A value in `low..high`, drawn without bias by rejection: 64-bit draws at or
    /// above the largest multiple of the span are dropped; after `max_draws()` draws
    /// the last is kept.
    pub fn gen_range_u64(&mut self, low: u64, high: u64) -> (r: u64)
        requires
            old(self).wf(),
            low < high,
        ensures
            final(self).wf(),
            final(self)@.0 == old(self)@.0,
            ({
                let span = (high - low) as int;
                let d = draws_u64(old(self)@.0, old(self)@.1, zone_u64(span), max_draws());
                &&& final(self)@.1 == (old(self)@.1 + 2 * d) % 0x10_0000_0000_0000_0000
                &&& r == low + (draw_u64(old(self)@.0, (old(self)@.1 + 2 * (d - 1)) % 0x10_0000_0000_0000_0000) as int) % span
            }),
    {
        proof {
            self.lemma_view_bounds();
            reveal(zone_u64);
        }
        let span = high - low;
        let zone = u64::MAX - (u64::MAX % span);
        let ghost k = self@.0;
        let ghost p = self@.1;
        let ghost z = zone_u64(span as int);
        let mut tries: u64 = 0xFFFF_FFFF_FFFF_FFFF;
        let ghost mut done: nat = 0;
        loop
            invariant
                self.wf(),
                self@.0 == k,
                k == old(self)@.0,
                p == old(self)@.1,
                span == high - low,
                low < high,
                zone as int == z,
                z == zone_u64(span as int),
                tries >= 1,
                done + tries == max_draws(),
                self@.1 == (p + 2 * done) % 0x10_0000_0000_0000_0000,
                draws_u64(k, p, z, max_draws()) == done + draws_u64(k, self@.1, z, tries as nat),
            decreases tries,
        {
            let ghost cur = self@.1;
            let v = self.next_u64();
            proof {
                lemma_mod_add(cur, 1);
                lemma_mod_add(p + 2 * done, 2);
            }
            if v < zone || tries == 1 {
                proof {
                    vstd::arithmetic::div_mod::lemma_mod_bound(v as int, span as int);
                }
                return low + v % span;
            }
            proof {
                lemma_draws_u64_step(k, cur, z, tries as nat);
                done = done + 1;
            }
            tries = tries - 1;
        }
    }

    /// A value in `low..high`, drawn without bias by rejection over 32-bit draws; after
    /// `max_draws()` draws the last is kept.
    pub fn gen_range_u32(&mut self, low: u32, high: u32) -> (r: u32)
        requires
            old(self).wf(),
            low < high,
        ensures
            final(self).wf(),
            final(self)@.0 == old(self)@.0,
            ({
                let span = (high - low) as int;
                let d = draws_u32(old(self)@.0, old(self)@.1, zone_u32(span), max_draws());
                &&& final(self)@.1 == (old(self)@.1 + d) % 0x10_0000_0000_0000_0000
                &&& r == low + (stream_word(old(self)@.0, (old(self)@.1 + (d - 1)) % 0x10_0000_0000_0000_0000) as int) % span
            }),
    {
        proof {
            self.lemma_view_bounds();
            reveal(zone_u32);
        }
        let span = (high - low) as u64;
        let zone = 0x1_0000_0000u64 - (0x1_0000_0000u64 % span);
        let ghost k = self@.0;
        let ghost p = self@.1;
        let ghost z = zone_u32(span as int);
        let mut tries: u64 = 0xFFFF_FFFF_FFFF_FFFF;
        let ghost mut done: nat = 0;
        loop
            invariant
                self.wf(),
                self@.0 == k,
                k == old(self)@.0,
                p == old(self)@.1,
                span == high - low,
                low < high,
                zone as int == z,
                z == zone_u32(span as int),
                tries >= 1,
                done + tries == max_draws(),
                self@.1 == (p + done) % 0x10_0000_0000_0000_0000,
                draws_u32(k, p, z, max_draws()) == done + draws_u32(k, self@.1, z, tries as nat),
            decreases tries,
        {
            let ghost cur = self@.1;
            let w = self.next_u32();
            let v = w as u64;
            proof {
                lemma_mod_add(p + done, 1);
            }
            if v < zone || tries == 1 {
                proof {
                    vstd::arithmetic::div_mod::lemma_mod_bound(v as int, span as int);
                }
                return low + (v % span) as u32;
            }
            proof {
                lemma_draws_u32_step(k, cur, z, tries as nat);
                done = done + 1;
            }
            tries = tries - 1;
        }
    }
}

/// A uniform distribution over `low..high` for `u32`.
pub struct UniformU32 {
    low: u32,
    span: u32,
}

impl UniformU32 {
    /// The bounds: `low` and the width of the range.
    pub closed spec fn bounds(&self) -> (u32, u32) {
        (self.low, self.span)
    }

    /// Whether the range is non-empty and within `u32`.
    pub closed spec fn wf(&self) -> bool {
        self.span > 0 && self.low + self.span <= u32::MAX + 1
    }

    /// The uniform distribution over `low..high`.
    pub fn new(low: u32, high: u32) -> (u: UniformU32)
        requires
            low < high,
        ensures
            u.wf(),
            u.bounds() == (low, (high - low) as u32),
    {
        UniformU32 { low, span: high - low }
    }

    /// A sample: `low` plus a value drawn in `0..span`.
    pub fn sample(&self, rng: &mut ChaCha20Rng) -> (r: u32)
        requires
            old(rng).wf(),
            self.wf(),
        ensures
            final(rng).wf(),
            final(rng)@.0 == old(rng)@.0,
            ({
                let d = draws_u32(old(rng)@.0, old(rng)@.1, zone_u32(self.bounds().1 as int), max_draws());
                &&& final(rng)@.1 == (old(rng)@.1 + d) % 0x10_0000_0000_0000_0000
                &&& r == self.bounds().0 + (stream_word(old(rng)@.0, (old(rng)@.1 + (d - 1)) % 0x10_0000_0000_0000_0000) as int) % (self.bounds().1 as int)
            }),
    {
        let v = rng.gen_range_u32(0, self.span);
        self.low + v
    }
}

/// A uniform distribution over `low..high` for `u64`.
pub struct UniformU64 {
    low: u64,
    span: u64,
}

impl UniformU64 {
    /// The bounds: `low` and the width of the range.
    pub closed spec fn bounds(&self) -> (u64, u64) {
        (self.low, self.span)
    }

    /// Whether the range is non-empty and within `u64`.
    pub closed spec fn wf(&self) -> bool {
        self.span > 0 && self.low + self.span <= u64::MAX + 1
    }

    /// The uniform distribution over `low..high`.
    pub fn new(low: u64, high: u64) -> (u: UniformU64)
        requires
            low < high,
        ensures
            u.wf(),
            u.bounds() == (low, (high - low) as u64),
    {
        UniformU64 { low, span: high - low }
    }

    /// A sample: `low` plus a value drawn in `0..span`.
    pub fn sample(&self, rng: &mut ChaCha20Rng) -> (r: u64)
        requires
            old(rng).wf(),
            self.wf(),
        ensures
            final(rng).wf(),
            final(rng)@.0 == old(rng)@.0,
            ({
                let d = draws_u64(old(rng)@.0, old(rng)@.1, zone_u64(self.bounds().1 as int), max_draws());
                &&& final(rng)@.1 == (old(rng)@.1 + 2 * d) % 0x10_0000_0000_0000_0000
                &&& r == self.bounds().0 + (draw_u64(old(rng)@.0, (old(rng)@.1 + 2 * (d - 1)) % 0x10_0000_0000_0000_0000) as int) % (self.bounds().1 as int)
            }),
    {
        let v = rng.gen_range_u64(0, self.span);
        self.low + v
    }
}

/// The standard distribution: a whole word for `u32`, two for `u64`, the lowest bit of
/// a word for `bool`.
pub struct Standard;

impl Standard {
    /// A `u32` sample: the next word.
    pub fn sample_u32(&self, rng: &mut ChaCha20Rng) -> (r: u32)
        requires
            old(rng).wf(),
        ensures
            final(rng).wf(),
            final(rng)@.0 == old(rng)@.0,
            final(rng)@.1 == (old(rng)@.1 + 1) % 0x10_0000_0000_0000_0000,
            r == stream_word(old(rng)@.0, old(rng)@.1),
    {
        rng.next_u32()
    }

    /// A `u64` sample: the next two words.
    pub fn sample_u64(&self, rng: &mut ChaCha20Rng) -> (r: u64)
        requires
            old(rng).wf(),
        ensures
            final(rng).wf(),
            final(rng)@.0 == old(rng)@.0,
            final(rng)@.1 == (old(rng)@.1 + 2) % 0x10_0000_0000_0000_0000,
            r == draw_u64(old(rng)@.0, old(rng)@.1),
    {
        rng.next_u64()
    }

    /// A `bool` sample: the lowest bit of the next word.
    pub fn sample_bool(&self, rng: &mut ChaCha20Rng) -> (r: bool)
        requires
            old(rng).wf(),
        ensures
            final(rng).wf(),
            final(rng)@.0 == old(rng)@.0,
            final(rng)@.1 == (old(rng)@.1 + 1) % 0x10_0000_0000_0000_0000,
            r == (stream_word(old(rng)@.0, old(rng)@.1) & 1 == 1),
    {
        rng.next_u32() & 1 == 1
    }
}

/// Why a weighted distribution could not be built.
#[derive(Debug)]
pub struct WeightedError(pub &'static str);

} // verus!
