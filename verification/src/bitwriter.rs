//! A writer of byte buffers, most significant bit first.

use vstd::prelude::*;
use vstd::arithmetic::power2::{lemma2_to64, lemma_pow2_unfold, pow2};

use crate::bitreader::{
    bit8, bits_value, buffer_bit, law_reversing_twice, reversed_words, unswap_payload,
};

verus! {

/// The low `n` bits of a number, most significant first.
pub open spec fn low_bits(value: u32, n: nat) -> Seq<bool> {
    Seq::new(n, |j: int| (value >> ((n - 1 - j) as u32)) & 1 == 1)
}

/// A buffer holds `bits`, padded with zero bits to a whole number of bytes.
pub open spec fn packs_bytes(data: Seq<u8>, bits: Seq<bool>) -> bool {
    &&& data.len() == (bits.len() + 7) / 8
    &&& forall|k: int|
        0 <= k < 8 * data.len() ==> #[trigger] buffer_bit(data, k) == (k < bits.len() && bits[k])
}

/// Appends bits to a byte buffer.
pub struct BitWriter {
    out: Vec<u8>,
    /// The byte being filled, from the top; zero below `bits_in`.
    pending: u8,
    /// How many of its bits are filled.
    bits_in: u8,
    /// The bits written so far.
    written: Ghost<Seq<bool>>,
}

impl BitWriter {
    /// The bits written so far.
    pub closed spec fn bits(&self) -> Seq<bool> {
        self.written@
    }

    /// The writer's invariant.
    pub closed spec fn wf(&self) -> bool {
        &&& self.bits_in < 8
        &&& self.written@.len() == 8 * self.out@.len() + self.bits_in
        &&& forall|k: int|
            0 <= k < 8 * self.out@.len() ==> #[trigger] buffer_bit(self.out@, k)
                == self.written@[k]
        &&& forall|j: int|
            0 <= j < 8 ==> #[trigger] bit8(self.pending, j) == (j < self.bits_in
                && self.written@[8 * self.out@.len() + j])
    }

    /// A writer of nothing.
    pub fn new() -> (w: Self)
        ensures
            w.wf(),
            w.bits() == Seq::<bool>::empty(),
    {
        proof {
            lemma_zero_byte();
        }
        Self { out: Vec::new(), pending: 0, bits_in: 0, written: Ghost(Seq::empty()) }
    }

    /// A writer of nothing with room for `capacity` bytes.
    pub fn with_capacity(capacity: usize) -> (w: Self)
        ensures
            w.wf(),
            w.bits() == Seq::<bool>::empty(),
    {
        proof {
            lemma_zero_byte();
        }
        Self {
            out: Vec::with_capacity(capacity),
            pending: 0,
            bits_in: 0,
            written: Ghost(Seq::empty()),
        }
    }

    /// Appends one bit.
    fn push_bit(&mut self, bit: u8)
        requires
            old(self).wf(),
            bit <= 1,
        ensures
            final(self).wf(),
            final(self).bits() == old(self).bits().push(bit == 1),
    {
        let at: u8 = self.bits_in;
        let (p, b): (u8, u8) = (self.pending, bit);
        let q: u8 = p | (b << (7 - at));
        let ghost before = *self;
        proof {
            assert forall|j: int| 0 <= j < 8 implies #[trigger] bit8(q, j) == (if j == at {
                b == 1
            } else {
                bit8(p, j)
            }) by {
                lemma_set_bit(p, b, at, j);
            }
        }
        self.written = Ghost(self.written@.push(bit == 1));
        if at == 7 {
            self.out.push(q);
            self.pending = 0;
            self.bits_in = 0;
            proof {
                lemma_zero_byte();
                let n = before.out@.len() as int;
                assert forall|k: int| 0 <= k < 8 * self.out@.len() implies #[trigger] buffer_bit(
                    self.out@,
                    k,
                ) == self.written@[k] by {
                    if k < 8 * n {
                        assert(buffer_bit(before.out@, k) == before.written@[k]);
                        assert(k / 8 < n);
                    } else {
                        assert(k / 8 == n && k % 8 == k - 8 * n);
                        assert(bit8(q, k - 8 * n) == bit8(q, k % 8));
                    }
                }
            }
        } else {
            self.pending = q;
            self.bits_in = at + 1;
        }
    }

    /// Appends the low `n` bits of `value`, most significant first.
    pub fn write_bits(&mut self, n: u8, value: u32)
        requires
            old(self).wf(),
            n <= 32,
        ensures
            final(self).wf(),
            final(self).bits() == old(self).bits() + low_bits(value, n as nat),
    {
        let ghost start = self.bits();
        let mut i: u8 = n;
        while i > 0
            invariant
                i <= n <= 32,
                self.wf(),
                self.bits() == start + low_bits(value, n as nat).take(n - i),
            decreases i,
        {
            i = i - 1;
            let bit: u8 = ((value >> (i as u32)) & 1) as u8;
            proof {
                let s = i as u32;
                assert((value >> s) & 1 <= 1) by (bit_vector);
                let all = low_bits(value, n as nat);
                assert(all[n - 1 - i] == ((value >> s) & 1 == 1));
                assert(all.take(n - 1 - i).push(bit == 1) =~= all.take(n - i));
                assert(start + all.take(n - i) =~= (start + all.take(n - 1 - i)).push(bit == 1));
            }
            self.push_bit(bit);
        }
        assert(low_bits(value, n as nat).take(n as int) =~= low_bits(value, n as nat));
    }

    /// Pads with zero bits to a whole byte, and returns the buffer.
    pub fn finish(self) -> (out: Vec<u8>)
        requires
            self.wf(),
        ensures
            packs_bytes(out@, self.bits()),
    {
        let mut out: Vec<u8> = self.out;
        if self.bits_in != 0 {
            out.push(self.pending);
            proof {
                let n = self.out@.len() as int;
                assert forall|k: int| 0 <= k < 8 * out@.len() implies #[trigger] buffer_bit(
                    out@,
                    k,
                ) == (k < self.written@.len() && self.written@[k]) by {
                    if k < 8 * n {
                        assert(buffer_bit(self.out@, k) == self.written@[k]);
                        assert(k / 8 < n);
                    } else {
                        assert(k / 8 == n && k % 8 == k - 8 * n);
                        assert(bit8(self.pending, k - 8 * n) == bit8(self.pending, k % 8));
                    }
                }
            }
        }
        out
    }

    /// The number of bits written so far.
    pub fn bit_count(&self) -> (n: usize)
        requires
            self.wf(),
            self.bits().len() <= usize::MAX,
        ensures
            n == self.bits().len(),
    {
        self.out.len() * 8 + self.bits_in as usize
    }
}

impl Default for BitWriter {
    fn default() -> (w: Self)
        ensures
            w.wf(),
            w.bits() == Seq::<bool>::empty(),
    {
        Self::new()
    }
}

/// A zero byte has no bit set.
proof fn lemma_zero_byte()
    ensures
        forall|j: int| 0 <= j < 8 ==> !#[trigger] bit8(0, j),
{
    assert forall|j: int| 0 <= j < 8 implies !#[trigger] bit8(0, j) by {
        let s = (7 - j) as u8;
        assert((0u8 >> s) & 1 == 0) by (bit_vector)
            requires
                s < 8,
        ;
    }
}

/// The bits of a byte after a clear one is set.
proof fn lemma_set_bit(p: u8, b: u8, at: u8, j: int)
    requires
        at < 8,
        b <= 1,
        0 <= j < 8,
        !bit8(p, at as int),
    ensures
        bit8(p | (b << ((7 - at) as u8)), j) == (if j == at {
            b == 1
        } else {
            bit8(p, j)
        }),
{
    let s = (7 - j) as u8;
    let m = (7 - at) as u8;
    if j == at {
        assert(((p | (b << m)) >> s) & 1 == 1 <==> b == 1) by (bit_vector)
            requires
                s == m,
                m < 8,
                b <= 1,
                (p >> m) & 1 != 1,
        ;
    } else {
        assert(((p | (b << m)) >> s) & 1 == (p >> s) & 1) by (bit_vector)
            requires
                s != m,
                s < 8,
                m < 8,
                b <= 1,
        ;
    }
}

/// Reverses the bytes of every 32-bit word; bytes behind the last whole word are
/// dropped.
pub fn swap_payload(src: &[u8]) -> (out: Vec<u8>)
    ensures
        out@ == reversed_words(src@),
{
    unswap_payload(src)
}

/// The low bits of a number spell it.
proof fn lemma_low_bits_value(data: Seq<u8>, pos: int, value: u32, n: nat, i: nat)
    requires
        i <= n <= 32,
        forall|j: int| 0 <= j < n ==> #[trigger] buffer_bit(data, pos + j) == low_bits(value, n)[j],
    ensures
        bits_value(data, pos, i) == ((value as int) / (pow2((n - i) as nat) as int)) % (pow2(i) as int),
    decreases i,
{
    lemma2_to64();
    if i == 0 {
    } else {
        lemma_low_bits_value(data, pos, value, n, (i - 1) as nat);
        let s = (n - i) as u32;
        assert(buffer_bit(data, pos + (i - 1)) == low_bits(value, n)[i - 1]);
        let v = value as int;
        let d = pow2((n - i) as nat) as int;
        vstd::arithmetic::power2::lemma_pow2_pos((n - i) as nat);
        vstd::arithmetic::power2::lemma_pow2_pos((i - 1) as nat);
        lemma_pow2_unfold((n - i + 1) as nat);
        lemma_pow2_unfold(i);
        let q = v / d;
        vstd::arithmetic::div_mod::lemma_div_denominator(v, d, 2);
        assert(d * 2 == pow2((n - i + 1) as nat));
        assert(v / (d * 2) == q / 2);
        vstd::bits::lemma_u32_shr_is_div(value, s);
        let x = value >> s;
        assert(x as int == q);
        assert(x & 1 == x % 2) by (bit_vector);
        let h = pow2((i - 1) as nat) as int;
        assert((q / 2) % h * 2 + q % 2 == q % (2 * h)) by {
            vstd::arithmetic::div_mod::lemma_mod_breakdown(q, 2, h);
        }
    }
}

/// Where a buffer carries the low bits of a number, that number is read back.
pub proof fn law_written_bits_are_read(
    data: Seq<u8>,
    bits: Seq<bool>,
    pos: int,
    value: u32,
    n: nat,
)
    requires
        packs_bytes(data, bits),
        n <= 32,
        0 <= pos,
        pos + n <= bits.len(),
        bits.subrange(pos, pos + n) == low_bits(value, n),
    ensures
        bits_value(data, pos, n) == (value as int) % (pow2(n) as int),
{
    assert forall|j: int| 0 <= j < n implies #[trigger] buffer_bit(data, pos + j) == low_bits(
        value,
        n,
    )[j] by {
        assert(bits.subrange(pos, pos + n)[j] == bits[pos + j]);
    }
    lemma_low_bits_value(data, pos, value, n, n);
    lemma2_to64();
    let one = pow2((n - n) as nat) as int;
    assert(one == 1);
    assert((value as int) / one == value as int) by (nonlinear_arith)
        requires
            one == 1,
    ;
}

/// Restoring a stored payload gives it back.
pub proof fn law_unswap_undoes_swap(src: Seq<u8>)
    requires
        src.len() % 4 == 0,
    ensures
        reversed_words(reversed_words(src)) == src,
{
    law_reversing_twice(src);
}

/// The bits of the low bits of values, one after another.
pub open spec fn values_written(values: Seq<(u8, u32)>) -> Seq<bool>
    decreases values.len(),
{
    if values.len() == 0 {
        Seq::empty()
    } else {
        values_written(values.drop_last()) + low_bits(values.last().1, values.last().0 as nat)
    }
}

/// How many bits values take.
pub open spec fn value_widths(values: Seq<(u8, u32)>) -> nat
    decreases values.len(),
{
    if values.len() == 0 {
        0
    } else {
        value_widths(values.drop_last()) + values.last().0 as nat
    }
}

/// As many bits are written as the values are wide.
proof fn lemma_values_written(values: Seq<(u8, u32)>)
    ensures
        values_written(values).len() == value_widths(values),
    decreases values.len(),
{
    if values.len() > 0 {
        lemma_values_written(values.drop_last());
    }
}

/// The bits of each value stand behind those of the values before it.
proof fn lemma_value_in_place(values: Seq<(u8, u32)>, i: int)
    requires
        0 <= i < values.len(),
    ensures
        value_widths(values.take(i)) + values[i].0 <= values_written(values).len(),
        values_written(values).subrange(
            value_widths(values.take(i)) as int,
            value_widths(values.take(i)) + values[i].0,
        ) == low_bits(values[i].1, values[i].0 as nat),
    decreases values.len(),
{
    let front = values.drop_last();
    let (before, own) = (values_written(front), low_bits(values.last().1, values.last().0 as nat));
    lemma_values_written(front);
    let at = value_widths(values.take(i)) as int;
    let n = values[i].0 as int;
    if i == values.len() - 1 {
        assert(values.take(i) =~= front);
        assert((before + own).subrange(at, at + n) =~= own);
    } else {
        lemma_value_in_place(front, i);
        assert(front.take(i) =~= values.take(i));
        assert(front[i] == values[i]);
        assert((before + own).subrange(at, at + n) =~= before.subrange(at, at + n));
    }
}

/// Values written one after another are read back in order, each without the bits
/// above its width. Only zero bits follow the last one, up to a whole byte.
pub proof fn law_values_are_read(values: Seq<(u8, u32)>, data: Seq<u8>)
    requires
        forall|i: int| 0 <= i < values.len() ==> (#[trigger] values[i]).0 <= 32,
        packs_bytes(data, values_written(values)),
    ensures
        values_written(values).len() == value_widths(values),
        data.len() == (value_widths(values) + 7) / 8,
        forall|i: int|
            0 <= i < values.len() ==> {
                let pos = value_widths(values.take(i)) as int;
                let (n, v) = #[trigger] values[i];
                &&& pos + n <= 8 * data.len()
                &&& bits_value(data, pos, n as nat) == (v as int) % (pow2(n as nat) as int)
            },
        forall|k: int|
            value_widths(values) <= k < 8 * data.len() ==> !#[trigger] buffer_bit(data, k),
{
    let bits = values_written(values);
    lemma_values_written(values);
    assert forall|i: int| 0 <= i < values.len() implies {
        let pos = value_widths(values.take(i)) as int;
        let (n, v) = #[trigger] values[i];
        &&& pos + n <= 8 * data.len()
        &&& bits_value(data, pos, n as nat) == (v as int) % (pow2(n as nat) as int)
    } by {
        lemma_value_in_place(values, i);
        let pos = value_widths(values.take(i)) as int;
        law_written_bits_are_read(data, bits, pos, values[i].1, values[i].0 as nat);
    }
}

} // verus!
