//! A reader of byte buffers, most significant bit first.
//!
//! Payloads are stored with the bytes of every 32-bit word reversed;
//! [`unswap_payload`] restores the order in which the bits are read.

use vstd::prelude::*;
use vstd::arithmetic::power2::{lemma2_to64, lemma_pow2_strictly_increases, lemma_pow2_unfold, pow2};

use crate::error::{Error, Result};

verus! {

/// Bit `j` of a byte, counted from the most significant end.
pub open spec fn bit8(b: u8, j: int) -> bool {
    (b >> ((7 - j) as u8)) & 1 == 1
}

/// Bit `k` of a buffer.
pub open spec fn buffer_bit(data: Seq<u8>, k: int) -> bool {
    bit8(data[k / 8], k % 8)
}

/// The number that `n` bits from position `pos` on spell.
pub open spec fn bits_value(data: Seq<u8>, pos: int, n: nat) -> int
    decreases n,
{
    if n == 0 {
        0
    } else {
        2 * bits_value(data, pos, (n - 1) as nat) + if buffer_bit(data, pos + n - 1) {
            1int
        } else {
            0
        }
    }
}

/// `n` bits spell a number below `2^n`.
pub proof fn lemma_bits_value_bound(data: Seq<u8>, pos: int, n: nat)
    ensures
        0 <= bits_value(data, pos, n) < pow2(n),
    decreases n,
{
    if n > 0 {
        lemma_bits_value_bound(data, pos, (n - 1) as nat);
        lemma_pow2_unfold(n);
    } else {
        lemma2_to64();
    }
}

/// Reads a buffer bit by bit.
pub struct BitReader<'a> {
    src: &'a [u8],
    /// The byte that holds the next bit.
    byte: usize,
    /// How many of its bits have been read.
    bit: u8,
}

impl<'a> BitReader<'a> {
    /// The buffer being read.
    pub closed spec fn source(&self) -> Seq<u8> {
        self.src@
    }

    /// The number of bits read.
    pub closed spec fn pos(&self) -> int {
        8 * self.byte + self.bit
    }

    /// The reader's invariant.
    pub closed spec fn wf(&self) -> bool {
        self.bit < 8 && 8 * self.byte + self.bit <= 8 * self.src@.len()
    }

    /// The reader has not passed the end of the buffer.
    pub proof fn lemma_wf(&self)
        requires
            self.wf(),
        ensures
            0 <= self.pos() <= 8 * self.source().len(),
    {
    }

    /// A reader at the start of `src`.
    pub fn new(src: &'a [u8]) -> (r: Self)
        ensures
            r.wf(),
            r.source() == src@,
            r.pos() == 0,
    {
        Self { src, byte: 0, bit: 0 }
    }

    /// Whole bytes read so far.
    pub fn byte_pos(&self) -> (n: usize)
        requires
            self.wf(),
        ensures
            n == self.pos() / 8,
    {
        self.byte
    }

    /// Reads one bit.
    pub fn read_bit(&mut self) -> (r: Result<u32>)
        requires
            old(self).wf(),
        ensures
            final(self).wf(),
            final(self).source() == old(self).source(),
            r is Ok <==> old(self).pos() < 8 * old(self).source().len(),
            r matches Ok(v) ==> v == (if buffer_bit(old(self).source(), old(self).pos()) {
                1u32
            } else {
                0
            }) && final(self).pos() == old(self).pos() + 1,
            r matches Err(e) ==> e is Eof && final(self).pos() == old(self).pos(),
    {
        if self.byte >= self.src.len() {
            return Err(Error::Eof);
        }
        let b: u8 = self.src[self.byte];
        let shift: u8 = 7 - self.bit;
        let v: u8 = (b >> shift) & 1;
        assert((b >> shift) & 1 <= 1) by (bit_vector);
        proof {
            let (byte, bit) = (self.byte as int, self.bit as int);
            let k = 8 * byte + bit;
            assert(k / 8 == byte && k % 8 == bit);
        }
        if self.bit == 7 {
            self.byte = self.byte + 1;
            self.bit = 0;
        } else {
            self.bit = self.bit + 1;
        }
        Ok(v as u32)
    }

    /// At least `n` bits are left.
    fn has_bits(&self, n: u8) -> (b: bool)
        requires
            self.wf(),
            n <= 32,
        ensures
            b == (self.pos() + n <= 8 * self.source().len()),
    {
        let left: usize = self.src.len() - self.byte;
        if left > 5 {
            true
        } else {
            8 * left >= self.bit as usize + n as usize
        }
    }

    /// Reads `n` bits as a number. Where fewer are left, none is read.
    pub fn read_bits(&mut self, n: u8) -> (r: Result<u32>)
        requires
            old(self).wf(),
            n <= 32,
        ensures
            final(self).wf(),
            final(self).source() == old(self).source(),
            r is Ok <==> old(self).pos() + n <= 8 * old(self).source().len(),
            r matches Ok(v) ==> v == bits_value(old(self).source(), old(self).pos(), n as nat)
                && final(self).pos() == old(self).pos() + n,
            r matches Err(e) ==> e is Eof && final(self).pos() == old(self).pos(),
    {
        if !self.has_bits(n) {
            return Err(Error::Eof);
        }
        let ghost (data, start) = (self.source(), self.pos());
        let mut value: u64 = 0;
        let mut i: u8 = 0;
        proof {
            lemma2_to64();
        }
        while i < n
            invariant
                i <= n <= 32,
                self.wf(),
                self.source() == data,
                self.pos() == start + i,
                start + n <= 8 * data.len(),
                value == bits_value(data, start, i as nat),
                value < pow2(i as nat),
            decreases n - i,
        {
            let bit: u32 = self.read_bit()?;
            proof {
                lemma_pow2_unfold((i + 1) as nat);
                lemma2_to64();
                lemma_bits_value_bound(data, start, (i + 1) as nat);
                if i < 32 {
                    lemma_pow2_strictly_increases(i as nat, 33);
                }
            }
            value = 2 * value + bit as u64;
            i = i + 1;
        }
        proof {
            lemma2_to64();
            if n < 32 {
                lemma_pow2_strictly_increases(n as nat, 32);
            }
        }
        Ok(value as u32)
    }
}

/// The bits that reads took, together; a read that fails takes none.
pub open spec fn bits_taken(taken: Seq<nat>) -> nat
    decreases taken.len(),
{
    if taken.len() == 0 {
        0
    } else {
        bits_taken(taken.drop_last()) + taken.last()
    }
}

/// A reader that starts at the front stands, after any reads, behind as many
/// whole bytes as the bits fill that the reads took.
pub proof fn law_byte_pos_counts_bits<'a>(readers: Seq<BitReader<'a>>, taken: Seq<nat>)
    requires
        readers.len() == taken.len() + 1,
        readers[0].pos() == 0,
        forall|i: int|
            0 <= i < taken.len() ==> readers[i + 1].pos() == readers[i].pos()
                + #[trigger] taken[i],
    ensures
        readers.last().pos() == bits_taken(taken),
        readers.last().pos() / 8 == bits_taken(taken) / 8,
    decreases taken.len(),
{
    if taken.len() > 0 {
        let front = readers.drop_last();
        let fewer = taken.drop_last();
        assert forall|i: int| 0 <= i < fewer.len() implies front[i + 1].pos() == front[i].pos()
            + #[trigger] fewer[i] by {
            assert(fewer[i] == taken[i]);
        }
        law_byte_pos_counts_bits(front, fewer);
        assert(taken[taken.len() - 1] == taken.last());
    }
}

/// A buffer with the bytes of every 32-bit word reversed; bytes behind the last
/// whole word are dropped.
pub open spec fn reversed_words(src: Seq<u8>) -> Seq<u8> {
    Seq::new((src.len() / 4 * 4) as nat, |i: int| src[i - i % 4 + 3 - i % 4])
}

/// Reverses the bytes of every 32-bit word; bytes behind the last whole word are
/// dropped.
pub fn unswap_payload(src: &[u8]) -> (out: Vec<u8>)
    ensures
        out@ == reversed_words(src@),
{
    let words: usize = src.len() / 4;
    let mut out: Vec<u8> = Vec::new();
    let mut w: usize = 0;
    while w < words
        invariant
            w <= words,
            words == src@.len() / 4,
            4 * words <= usize::MAX,
            out@.len() == 4 * w,
            forall|k: int| 0 <= k < 4 * w ==> #[trigger] out@[k] == reversed_words(src@)[k],
        decreases words - w,
    {
        let off: usize = 4 * w;
        out.push(src[off + 3]);
        out.push(src[off + 2]);
        out.push(src[off + 1]);
        out.push(src[off]);
        w = w + 1;
    }
    assert(out@ =~= reversed_words(src@));
    out
}

/// Reversing the bytes of every word twice changes nothing but for the dropped
/// bytes.
pub proof fn law_reversing_twice(src: Seq<u8>)
    ensures
        reversed_words(reversed_words(src)) == src.take((src.len() / 4 * 4) as int),
        src.len() % 4 == 0 ==> reversed_words(reversed_words(src)) == src,
{
    assert(reversed_words(reversed_words(src)) =~= src.take((src.len() / 4 * 4) as int));
    if src.len() % 4 == 0 {
        assert(src.take((src.len() / 4 * 4) as int) =~= src);
    }
}

} // verus!
