//! Bit-stream framing of the per-frame compressed body.
//!
//! Codewords abut without alignment in 32-bit little-endian words, most
//! significant bit first. The last word is padded with zero bits.

use vstd::prelude::*;

use crate::error::{Error, Result};
use crate::bits::{
    bit32, bit64, lemma_same_bits, lemma_stream_append_word, lemma_stream_past_end,
    lemma_window_bits, lemma_word_bytes, packs, stream_bit, top_bits, window_at, word_at,
};

verus! {

/// Bits of a 64-bit accumulator after it is shifted left by `n`.
proof fn lemma_shl_bits(acc: u64, n: u32, j: int)
    requires
        n <= 32,
        0 <= j < 64,
    ensures
        bit64(acc << (n as u64), j) == (j + n < 64 && bit64(acc, j + n)),
{
    let s = (63 - j) as u64;
    let m = n as u64;
    if j + n < 64 {
        let t = (63 - (j + n)) as u64;
        assert(((acc << m) >> s) & 1 == (acc >> t) & 1) by (bit_vector)
            requires
                m <= 32,
                s < 64,
                s == t + m,
        ;
    } else {
        assert(((acc << m) >> s) & 1 == 0) by (bit_vector)
            requires
                m <= 32,
                s < m,
        ;
    }
}

/// Bits of a 64-bit accumulator after `word` is placed below its top `at` bits.
proof fn lemma_place_bits(acc: u64, word: u32, at: u32, j: int)
    requires
        at <= 32,
        0 <= j < 64,
    ensures
        bit64(acc | ((word as u64) << ((32 - at) as u64)), j) == (bit64(acc, j) || (at <= j < at + 32
            && bit32(word, j - at))),
{
    let s = (63 - j) as u64;
    let m = (32 - at) as u64;
    assert((acc >> s) & 1 == 0 || (acc >> s) & 1 == 1) by (bit_vector);
    if at <= j < at + 32 {
        let t = (31 - (j - at)) as u32;
        assert((word >> t) & 1 == 0 || (word >> t) & 1 == 1) by (bit_vector);
        assert(((acc | ((word as u64) << m)) >> s) & 1 == ((acc >> s) & 1) | ((word >> t) & 1) as u64)
            by (bit_vector)
            requires
                m <= 32,
                s < 64,
                t < 32,
                s == t + m,
        ;
        let (p, q) = ((acc >> s) & 1, ((word >> t) & 1) as u64);
        assert(p | q == 1 <==> (p == 1 || q == 1)) by (bit_vector)
            requires
                p <= 1,
                q <= 1,
        ;
    } else {
        assert(((acc | ((word as u64) << m)) >> s) & 1 == (acc >> s) & 1) by (bit_vector)
            requires
                m <= 32,
                s < 64,
                s < m || s >= m + 32,
        ;
    }
}

/// The upper half of a 64-bit accumulator holds its first 32 bits.
proof fn lemma_high_half_bits(acc: u64, j: int)
    requires
        0 <= j < 32,
    ensures
        bit32((acc >> 32) as u32, j) == bit64(acc, j),
{
    let s = (31 - j) as u32;
    let t = (63 - j) as u64;
    assert((((acc >> 32) as u32) >> s) & 1 == ((acc >> t) & 1) as u32) by (bit_vector)
        requires
            s < 32,
            t == s + 32,
    ;
    assert((acc >> t) & 1 <= 1) by (bit_vector);
}

/// An empty accumulator has no bit set.
proof fn lemma_zero_bits(j: int)
    requires
        0 <= j < 64,
    ensures
        !bit64(0, j),
{
    let s = (63 - j) as u64;
    assert((0u64 >> s) & 1 == 0) by (bit_vector)
        requires
            s < 64,
    ;
}

/// Reads a buffer as a bit stream through a 32-bit look-ahead window.
///
/// The reader keeps the next bits of the stream in a 64-bit accumulator, the
/// next unread bit on top, and tops it up word by word.
pub struct BitReader<'a> {
    data: &'a [u8],
    /// Bits consumed so far, modulo 2^64.
    cursor_bits: u64,
    /// The next unread bits, left-aligned; zero below `valid_bits`.
    acc: u64,
    /// How many bits of `acc` come from `data`.
    valid_bits: u32,
    /// Index of the next word to load.
    next_word: usize,
    /// Bits consumed so far.
    consumed: Ghost<nat>,
}

impl<'a> BitReader<'a> {
    /// The buffer being read.
    pub closed spec fn source(&self) -> Seq<u8> {
        self.data@
    }

    /// The number of bits consumed.
    pub closed spec fn pos(&self) -> nat {
        self.consumed@
    }

    /// The reader's internal invariant.
    pub closed spec fn wf(&self) -> bool {
        &&& self.cursor_bits == self.consumed@ % 0x1_0000_0000_0000_0000
        &&& self.accumulator_wf()
        &&& self.valid_bits > 32 || 4 * self.next_word >= self.data@.len()
    }

    /// What links the accumulator to the stream.
    spec fn accumulator_wf(&self) -> bool {
        &&& self.valid_bits <= 64
        &&& 4 * self.next_word < self.data@.len() + 4
        &&& self.valid_bits > 0 ==> self.consumed@ + self.valid_bits == 32 * self.next_word
        &&& self.valid_bits == 0 ==> self.consumed@ >= 32 * self.next_word
        &&& self.valid_bits == 0 && 4 * self.next_word < self.data@.len() ==> self.consumed@ == 32
            * self.next_word
        &&& forall|j: int|
            0 <= j < 64 ==> #[trigger] bit64(self.acc, j) == (j < self.valid_bits && stream_bit(
                self.data@,
                self.consumed@ + j,
            ))
    }

    /// A reader at the start of `data`.
    pub fn new(data: &'a [u8]) -> (r: Self)
        ensures
            r.wf(),
            r.source() == data@,
            r.pos() == 0,
    {
        let mut r = Self {
            data,
            cursor_bits: 0,
            acc: 0,
            valid_bits: 0,
            next_word: 0,
            consumed: Ghost(0),
        };
        proof {
            assert forall|j: int| 0 <= j < 64 implies !#[trigger] bit64(r.acc, j) by {
                lemma_zero_bits(j);
            }
        }
        r.refill();
        r
    }

    /// Bits consumed since construction, modulo 2^64.
    pub fn cursor_bits(&self) -> (n: u64)
        requires
            self.wf(),
        ensures
            n == self.pos() % 0x1_0000_0000_0000_0000,
    {
        self.cursor_bits
    }

    /// Bytes the cursor has crossed, rounded up to whole words.
    pub fn bytes_consumed(&self) -> (n: usize)
        requires
            self.wf(),
            self.pos() <= 8 * (usize::MAX - 3),
            self.pos() <= u64::MAX,
        ensures
            n == 4 * ((self.pos() + 31) / 32),
    {
        let words: u64 = self.cursor_bits / 32 + (if self.cursor_bits % 32 != 0 {
            1
        } else {
            0
        });
        (words as usize) * 4
    }

    /// The next 32 bits, the next unread one on top; zero past the end.
    pub fn peek_window(&self) -> (w: u32)
        requires
            self.wf(),
        ensures
            w == window_at(self.source(), self.pos() as int),
    {
        let w = (self.acc >> 32) as u32;
        proof {
            let v = window_at(self.data@, self.consumed@ as int);
            assert forall|j: int| 0 <= j < 32 implies bit32(w, j) == bit32(v, j) by {
                lemma_high_half_bits(self.acc, j);
                lemma_window_bits(self.data@, self.consumed@ as int, j);
                if j >= self.valid_bits {
                    assert(self.consumed@ + j >= 32 * self.next_word);
                    assert((self.consumed@ + j) / 32 >= self.next_word);
                    lemma_stream_past_end(self.data@, self.consumed@ + j);
                }
            }
            lemma_same_bits(w, v);
        }
        w
    }

    /// Advances by `n_bits`, which has to lie in `1..=32`.
    pub fn consume_bits(&mut self, n_bits: u32) -> (r: Result<()>)
        requires
            old(self).wf(),
        ensures
            final(self).wf(),
            final(self).source() == old(self).source(),
            r is Ok <==> 1 <= n_bits <= 32,
            r is Ok ==> final(self).pos() == old(self).pos() + n_bits,
            r is Err ==> r->Err_0 is InvalidData && *final(self) == *old(self),
    {
        if n_bits == 0 || n_bits > 32 {
            return Err(Error::invalid("BitReader: consume_bits out of 1..=32"));
        }
        self.consume_bits_trusted(n_bits);
        Ok(())
    }

    /// Advances by `n_bits`.
    pub fn consume_bits_trusted(&mut self, n_bits: u32)
        requires
            old(self).wf(),
            1 <= n_bits <= 32,
        ensures
            final(self).wf(),
            final(self).source() == old(self).source(),
            final(self).pos() == old(self).pos() + n_bits,
    {
        let ghost before = *self;
        let kept: u32 = if self.valid_bits >= n_bits {
            self.valid_bits - n_bits
        } else {
            0
        };
        self.cursor_bits = self.cursor_bits.wrapping_add(n_bits as u64);
        self.acc = self.acc << (n_bits as u64);
        self.valid_bits = kept;
        self.consumed = Ghost((self.consumed@ + n_bits) as nat);
        proof {
            assert forall|j: int| 0 <= j < 64 implies #[trigger] bit64(self.acc, j) == (j
                < self.valid_bits && stream_bit(self.data@, self.consumed@ + j)) by {
                lemma_shl_bits(before.acc, n_bits, j);
                if j + n_bits < 64 {
                    assert(bit64(before.acc, j + n_bits) == (j + n_bits < before.valid_bits
                        && stream_bit(before.data@, before.consumed@ + (j + n_bits))));
                }
            }
        }
        if self.valid_bits <= 32 {
            self.refill();
        }
    }

    /// Loads whole words until more than 32 bits are valid or the buffer ends.
    fn refill(&mut self)
        requires
            old(self).accumulator_wf(),
            old(self).cursor_bits == old(self).consumed@ % 0x1_0000_0000_0000_0000,
        ensures
            final(self).wf(),
            final(self).data == old(self).data,
            final(self).consumed == old(self).consumed,
    {
        let len = self.data.len();
        while self.valid_bits <= 32 && self.next_word < len && self.next_word <= (len - 1) / 4
            invariant
                self.accumulator_wf(),
                self.data == old(self).data,
                self.consumed == old(self).consumed,
                self.cursor_bits == old(self).cursor_bits,
                len == self.data@.len(),
            decreases 64 - self.valid_bits,
        {
            let ghost before = *self;
            let word = self.read_word_le(self.next_word);
            self.acc = self.acc | ((word as u64) << ((32 - self.valid_bits) as u64));
            self.next_word = self.next_word + 1;
            self.valid_bits = self.valid_bits + 32;
            proof {
                assert(before.consumed@ + before.valid_bits == 32 * before.next_word);
                assert forall|j: int| 0 <= j < 64 implies #[trigger] bit64(self.acc, j) == (j
                    < self.valid_bits && stream_bit(self.data@, self.consumed@ + j)) by {
                    lemma_place_bits(before.acc, word, before.valid_bits, j);
                    assert(bit64(before.acc, j) == (j < before.valid_bits && stream_bit(
                        before.data@,
                        before.consumed@ + j,
                    )));
                    if before.valid_bits <= j < before.valid_bits + 32 {
                        let k = self.consumed@ + j;
                        assert(k == 32 * before.next_word + (j - before.valid_bits));
                        assert(k / 32 == before.next_word && k % 32 == j - before.valid_bits);
                    }
                }
            }
        }
    }

    /// Word `w` of the buffer; bytes past its end read as zero.
    fn read_word_le(&self, w: usize) -> (word: u32)
        requires
            4 * w < self.data@.len(),
        ensures
            word == word_at(self.data@, w as int),
    {
        let len: usize = self.data.len();
        let base: usize = 4 * w;
        let left: usize = len - base;
        let b0: u8 = self.data[base];
        let b1: u8 = if left > 1 {
            self.data[base + 1]
        } else {
            0
        };
        let b2: u8 = if left > 2 {
            self.data[base + 2]
        } else {
            0
        };
        let b3: u8 = if left > 3 {
            self.data[base + 3]
        } else {
            0
        };
        (b0 as u32) | ((b1 as u32) << 8) | ((b2 as u32) << 16) | ((b3 as u32) << 24)
    }
}

/// Writes a bit stream into a byte buffer.
///
/// Bits that do not yet fill a word wait in the top of a 64-bit accumulator.
pub struct BitWriter {
    out: Vec<u8>,
    /// Waiting bits, left-aligned; zero below `bits_buffered`.
    acc: u64,
    /// How many bits wait: fewer than 32 between calls.
    bits_buffered: u32,
}

impl BitWriter {
    /// The bits written so far.
    pub closed spec fn bits(&self) -> Seq<bool> {
        Seq::new(
            8 * self.out@.len() + self.bits_buffered as nat,
            |k: int|
                if k < 8 * self.out@.len() {
                    stream_bit(self.out@, k)
                } else {
                    bit64(self.acc, k - 8 * self.out@.len())
                },
        )
    }

    /// The writer's internal invariant.
    pub closed spec fn wf(&self) -> bool {
        &&& self.out@.len() % 4 == 0
        &&& self.bits_buffered < 32
        &&& forall|j: int| self.bits_buffered <= j < 64 ==> !#[trigger] bit64(self.acc, j)
    }

    /// An empty writer.
    pub fn new() -> (w: Self)
        ensures
            w.wf(),
            w.bits() == Seq::<bool>::empty(),
    {
        let w = Self { out: Vec::new(), acc: 0, bits_buffered: 0 };
        proof {
            assert forall|j: int| 0 <= j < 64 implies !#[trigger] bit64(w.acc, j) by {
                lemma_zero_bits(j);
            }
        }
        w
    }

    /// Appends the top `n_bits` of `code`, whose other bits have to be zero.
    pub fn write_msb(&mut self, code: u32, n_bits: u32)
        requires
            old(self).wf(),
            1 <= n_bits <= 32,
            forall|j: int| n_bits <= j < 32 ==> !bit32(code, j),
        ensures
            final(self).wf(),
            final(self).bits() == old(self).bits() + top_bits(code, n_bits as nat),
    {
        let ghost before = *self;
        let b: u32 = self.bits_buffered;
        self.acc = self.acc | ((code as u64) << ((32 - b) as u64));
        self.bits_buffered = b + n_bits;
        proof {
            assert forall|j: int| 0 <= j < 64 implies #[trigger] bit64(self.acc, j) == ((j < b
                && bit64(before.acc, j)) || (b <= j < b + n_bits && bit32(code, j - b))) by {
                lemma_place_bits(before.acc, code, b, j);
            }
        }
        let ghost wide = *self;
        let ghost added = old(self).bits() + top_bits(code, n_bits as nat);
        assert(wide.bits() =~= added);
        if self.bits_buffered >= 32 {
            let word = (self.acc >> 32) as u32;
            self.push_word(word);
            self.acc = self.acc << 32u64;
            self.bits_buffered = self.bits_buffered - 32;
            proof {
                assert forall|j: int| 0 <= j < 64 implies #[trigger] bit64(self.acc, j) == (j + 32
                    < 64 && bit64(wide.acc, j + 32)) by {
                    lemma_shl_bits(wide.acc, 32, j);
                }
                assert forall|k: int| 0 <= k < added.len() implies self.bits()[k] == added[k] by {
                    if 8 * wide.out@.len() <= k < 8 * wide.out@.len() + 32 {
                        lemma_high_half_bits(wide.acc, k - 8 * wide.out@.len());
                    } else if k >= 8 * wide.out@.len() + 32 {
                        let j = k - 8 * wide.out@.len() - 32;
                        assert(bit64(self.acc, j) == bit64(wide.acc, j + 32));
                    }
                }
                assert(self.bits() =~= added);
            }
        }
    }

    /// Appends a whole word to the buffer.
    fn push_word(&mut self, word: u32)
        requires
            old(self).out@.len() % 4 == 0,
        ensures
            final(self).acc == old(self).acc,
            final(self).bits_buffered == old(self).bits_buffered,
            final(self).out@.len() == old(self).out@.len() + 4,
            forall|k: int|
                0 <= k < 8 * old(self).out@.len() ==> #[trigger] stream_bit(final(self).out@, k)
                    == stream_bit(old(self).out@, k),
            forall|k: int|
                8 * old(self).out@.len() <= k < 8 * final(self).out@.len()
                    ==> #[trigger] stream_bit(final(self).out@, k) == bit32(
                    word,
                    k - 8 * old(self).out@.len(),
                ),
    {
        self.out.push((word & 0xFF) as u8);
        self.out.push(((word >> 8) & 0xFF) as u8);
        self.out.push(((word >> 16) & 0xFF) as u8);
        self.out.push(((word >> 24) & 0xFF) as u8);
        proof {
            lemma_word_bytes(word);
            lemma_stream_append_word(old(self).out@, self.out@, word);
        }
    }

    /// The finished buffer: the bits written, padded with zeros to a whole word.
    pub fn finish(self) -> (out: Vec<u8>)
        requires
            self.wf(),
        ensures
            packs(out@, self.bits()),
    {
        let mut w = self;
        if w.bits_buffered > 0 {
            let word = (w.acc >> 32) as u32;
            w.push_word(word);
            proof {
                assert forall|k: int| 0 <= k < 8 * w.out@.len() implies #[trigger] stream_bit(
                    w.out@,
                    k,
                ) == (k < self.bits().len() && self.bits()[k]) by {
                    if k >= 8 * self.out@.len() {
                        lemma_high_half_bits(self.acc, k - 8 * self.out@.len());
                    }
                }
            }
        }
        w.out
    }
}

impl Default for BitWriter {
    fn default() -> (w: Self)
        ensures
            w.wf(),
            w.bits() == Seq::<bool>::empty(),
    {
        Self::new()
    }
}

} // verus!
