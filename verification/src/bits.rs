//! Bits of machine words, and byte buffers read as a bit stream.
//!
//! A buffer is a sequence of 32-bit little-endian words. The first bit of the
//! stream is the most significant bit of the first word, and so on down to the
//! least significant bit, after which the next word follows. Bytes past the end
//! of the buffer count as zero.

use vstd::prelude::*;

verus! {

/// Bit `j` of `x`, counted from the most significant end.
pub open spec fn bit32(x: u32, j: int) -> bool {
    (x >> ((31 - j) as u32)) & 1 == 1
}

/// Bit `j` of `x`, counted from the most significant end.
pub open spec fn bit64(x: u64, j: int) -> bool {
    (x >> ((63 - j) as u64)) & 1 == 1
}

/// The top `n` bits of `x`, most significant first.
pub open spec fn top_bits(x: u32, n: nat) -> Seq<bool> {
    Seq::new(n, |j: int| bit32(x, j))
}

/// Byte `i` of `data`, or zero past its end.
pub open spec fn byte_at(data: Seq<u8>, i: int) -> u8 {
    if 0 <= i < data.len() {
        data[i]
    } else {
        0
    }
}

/// The value of four little-endian bytes.
pub open spec fn le32(b0: u8, b1: u8, b2: u8, b3: u8) -> u32 {
    (b0 as u32) | ((b1 as u32) << 8) | ((b2 as u32) << 16) | ((b3 as u32) << 24)
}

/// Word `w` of `data`.
pub open spec fn word_at(data: Seq<u8>, w: int) -> u32 {
    le32(
        byte_at(data, 4 * w),
        byte_at(data, 4 * w + 1),
        byte_at(data, 4 * w + 2),
        byte_at(data, 4 * w + 3),
    )
}

/// Bit `k` of the stream that `data` holds.
pub open spec fn stream_bit(data: Seq<u8>, k: int) -> bool {
    bit32(word_at(data, k / 32), k % 32)
}

/// The 32 stream bits from position `pos` on, the first of them in the top bit.
pub open spec fn window_at(data: Seq<u8>, pos: int) -> u32 {
    let off = (pos % 32) as u32;
    if off == 0 {
        word_at(data, pos / 32)
    } else {
        (word_at(data, pos / 32) << off) | (word_at(data, pos / 32 + 1) >> ((32 - off) as u32))
    }
}

/// `data` holds `bits`, padded with zero bits to a whole number of words.
pub open spec fn packs(data: Seq<u8>, bits: Seq<bool>) -> bool {
    &&& data.len() == 4 * ((bits.len() + 31) / 32)
    &&& forall|k: int|
        0 <= k < 8 * data.len() ==> #[trigger] stream_bit(data, k) == (k < bits.len() && bits[k])
}

/// Words agree on their top `n` bits exactly when they agree bit by bit there.
pub proof fn lemma_prefix_bits(x: u32, y: u32, n: nat)
    requires
        1 <= n <= 32,
    ensures
        (forall|j: int| 0 <= j < n ==> bit32(x, j) == bit32(y, j)) <==> x >> ((32 - n) as u32) == y
            >> ((32 - n) as u32),
    decreases n,
{
    if x >> ((32 - n) as u32) == y >> ((32 - n) as u32) {
        assert forall|j: int| 0 <= j < n implies bit32(x, j) == bit32(y, j) by {
            let s = (31 - j) as u32;
            let m = (32 - n) as u32;
            assert((x >> s) & 1 == (y >> s) & 1) by (bit_vector)
                requires
                    x >> m == y >> m,
                    m <= s < 32,
            ;
        }
    }
    if forall|j: int| 0 <= j < n ==> bit32(x, j) == bit32(y, j) {
        let last = n - 1;
        assert(bit32(x, last) == bit32(y, last));
        let m = (32 - n) as u32;
        assert((31 - last) as u32 == m);
        let (bx, by) = ((x >> m) & 1, (y >> m) & 1);
        assert((x >> m) & 1 == 0 || (x >> m) & 1 == 1) by (bit_vector);
        assert((y >> m) & 1 == 0 || (y >> m) & 1 == 1) by (bit_vector);
        if n == 1 {
            assert(x >> m == y >> m) by (bit_vector)
                requires
                    m == 31,
                    (x >> m) & 1 == (y >> m) & 1,
            ;
        } else {
            lemma_prefix_bits(x, y, (n - 1) as nat);
            let m1 = (32 - (n - 1)) as u32;
            assert(x >> m == y >> m) by (bit_vector)
                requires
                    m < 31,
                    m1 == m + 1,
                    x >> m1 == y >> m1,
                    (x >> m) & 1 == (y >> m) & 1,
            ;
        }
    }
}

/// Words that agree in every bit are equal.
pub proof fn lemma_same_bits(x: u32, y: u32)
    requires
        forall|j: int| 0 <= j < 32 ==> bit32(x, j) == bit32(y, j),
    ensures
        x == y,
{
    lemma_prefix_bits(x, y, 32);
    assert(x >> 0u32 == x && y >> 0u32 == y) by (bit_vector);
}

/// The window at `pos` shows the stream from `pos` on.
pub proof fn lemma_window_bits(data: Seq<u8>, pos: int, j: int)
    requires
        0 <= pos,
        0 <= j < 32,
    ensures
        bit32(window_at(data, pos), j) == stream_bit(data, pos + j),
{
    let off = (pos % 32) as u32;
    let w0 = word_at(data, pos / 32);
    let w1 = word_at(data, pos / 32 + 1);
    let s = (31 - j) as u32;
    if off == 0 {
        assert((pos + j) / 32 == pos / 32 && (pos + j) % 32 == j);
    } else if off + j < 32 {
        assert((pos + j) / 32 == pos / 32 && (pos + j) % 32 == off + j);
        let t = (31 - (off + j)) as u32;
        assert((((w0 << off) | (w1 >> ((32 - off) as u32))) >> s) & 1 == (w0 >> t) & 1)
            by (bit_vector)
            requires
                0 < off < 32,
                s < 32,
                t < 32,
                s == t + off,
        ;
    } else {
        assert((pos + j) / 32 == pos / 32 + 1 && (pos + j) % 32 == off + j - 32);
        let t = (31 - (off + j - 32)) as u32;
        assert((((w0 << off) | (w1 >> ((32 - off) as u32))) >> s) & 1 == (w1 >> t) & 1)
            by (bit_vector)
            requires
                0 < off < 32,
                s < 32,
                t < 32,
                s + 32 == t + off,
        ;
    }
}

/// Past the end of the buffer the stream is all zero.
pub proof fn lemma_stream_past_end(data: Seq<u8>, k: int)
    requires
        k >= 0,
        4 * (k / 32) >= data.len(),
    ensures
        !stream_bit(data, k),
{
    assert(word_at(data, k / 32) == 0) by {
        assert(le32(0, 0, 0, 0) == 0) by (bit_vector);
    }
    let s = (31 - k % 32) as u32;
    assert((0u32 >> s) & 1 == 0) by (bit_vector)
        requires
            s < 32,
    ;
}

/// Splitting a word into four bytes and reading them back gives the word.
pub proof fn lemma_word_bytes(word: u32)
    ensures
        le32(
            (word & 0xFF) as u8,
            ((word >> 8) & 0xFF) as u8,
            ((word >> 16) & 0xFF) as u8,
            ((word >> 24) & 0xFF) as u8,
        ) == word,
{
    assert(((((word & 0xFF) as u8) as u32) | (((((word >> 8) & 0xFF) as u8) as u32) << 8) | ((((
    (word >> 16) & 0xFF) as u8) as u32) << 16) | (((((word >> 24) & 0xFF) as u8) as u32) << 24))
        == word) by (bit_vector);
}

/// The bits of a buffer stay where they are when a whole word is appended,
/// and the word's bits follow them.
pub proof fn lemma_stream_append_word(data: Seq<u8>, longer: Seq<u8>, word: u32)
    requires
        data.len() % 4 == 0,
        longer.len() == data.len() + 4,
        forall|i: int| 0 <= i < data.len() ==> longer[i] == data[i],
        le32(
            longer[data.len() as int],
            longer[data.len() as int + 1],
            longer[data.len() as int + 2],
            longer[data.len() as int + 3],
        ) == word,
    ensures
        forall|k: int|
            0 <= k < 8 * data.len() ==> #[trigger] stream_bit(longer, k) == stream_bit(data, k),
        forall|k: int|
            8 * data.len() <= k < 8 * longer.len() ==> #[trigger] stream_bit(longer, k) == bit32(
                word,
                k - 8 * data.len(),
            ),
{
    assert forall|k: int| 0 <= k < 8 * data.len() implies #[trigger] stream_bit(longer, k)
        == stream_bit(data, k) by {
        assert(4 * (k / 32) + 3 < data.len());
    }
    assert forall|k: int| 8 * data.len() <= k < 8 * longer.len() implies #[trigger] stream_bit(
        longer,
        k,
    ) == bit32(word, k - 8 * data.len()) by {
        assert(k / 32 == data.len() / 4);
        assert(k % 32 == k - 8 * data.len());
    }
}

/// Four bytes are determined by the word that they make.
proof fn lemma_le32_injective(a: (u8, u8, u8, u8), b: (u8, u8, u8, u8))
    requires
        le32(a.0, a.1, a.2, a.3) == le32(b.0, b.1, b.2, b.3),
    ensures
        a == b,
{
    let (a0, a1, a2, a3) = a;
    let (b0, b1, b2, b3) = b;
    assert(a0 == b0 && a1 == b1 && a2 == b2 && a3 == b3) by (bit_vector)
        requires
            (a0 as u32) | ((a1 as u32) << 8) | ((a2 as u32) << 16) | ((a3 as u32) << 24) == (
            b0 as u32) | ((b1 as u32) << 8) | ((b2 as u32) << 16) | ((b3 as u32) << 24),
    ;
}

/// Bits are packed in one way only.
pub proof fn law_packing_is_unique(a: Seq<u8>, b: Seq<u8>, bits: Seq<bool>)
    requires
        packs(a, bits),
        packs(b, bits),
    ensures
        a == b,
{
    assert forall|i: int| 0 <= i < a.len() implies a[i] == b[i] by {
        let w = i / 4;
        assert(4 * w + 3 < a.len());
        let (x, y) = (word_at(a, w), word_at(b, w));
        assert forall|j: int| 0 <= j < 32 implies bit32(x, j) == bit32(y, j) by {
            let k = 32 * w + j;
            assert(k / 32 == w && k % 32 == j);
            assert(stream_bit(a, k) == (k < bits.len() && bits[k]));
            assert(stream_bit(b, k) == (k < bits.len() && bits[k]));
        }
        lemma_same_bits(x, y);
        lemma_le32_injective(
            (a[4 * w], a[4 * w + 1], a[4 * w + 2], a[4 * w + 3]),
            (b[4 * w], b[4 * w + 1], b[4 * w + 2], b[4 * w + 3]),
        );
    }
    assert(a =~= b);
}

/// The stream of `data` starts with `bits`.
pub open spec fn starts_with(data: Seq<u8>, bits: Seq<bool>) -> bool {
    forall|k: int| 0 <= k < bits.len() ==> #[trigger] stream_bit(data, k) == bits[k]
}

/// A buffer that packs `bits` starts with them, whatever bytes follow it.
pub proof fn lemma_packed_bits(data: Seq<u8>, more: Seq<u8>, bits: Seq<bool>)
    requires
        packs(data, bits),
    ensures
        starts_with(data + more, bits),
{
    assert forall|k: int| 0 <= k < bits.len() implies #[trigger] stream_bit(data + more, k)
        == bits[k] by {
        assert(stream_bit(data, k) == bits[k]);
        assert(4 * (k / 32) + 3 < data.len());
    }
}

/// Where a stream carries the top `n` bits of `code` at position `pos`, the
/// window there starts with them.
pub proof fn lemma_window_shows_code(data: Seq<u8>, bits: Seq<bool>, pos: int, code: u32, n: nat)
    requires
        starts_with(data, bits),
        0 <= pos,
        1 <= n <= 32,
        pos + n <= bits.len(),
        bits.subrange(pos, pos + n) == top_bits(code, n),
    ensures
        window_at(data, pos) >> ((32 - n) as u32) == code >> ((32 - n) as u32),
{
    let w = window_at(data, pos);
    assert forall|j: int| 0 <= j < n implies bit32(w, j) == bit32(code, j) by {
        lemma_window_bits(data, pos, j);
        assert(bits.subrange(pos, pos + n)[j] == bits[pos + j]);
        assert(top_bits(code, n)[j] == bit32(code, j));
    }
    lemma_prefix_bits(w, code, n);
}

/// The bits of the top bits of codes, one after another.
pub open spec fn codes_written(codes: Seq<(u32, u32)>) -> Seq<bool>
    decreases codes.len(),
{
    if codes.len() == 0 {
        Seq::empty()
    } else {
        codes_written(codes.drop_last()) + top_bits(codes.last().0, codes.last().1 as nat)
    }
}

/// How many bits codes take.
pub open spec fn code_widths(codes: Seq<(u32, u32)>) -> nat
    decreases codes.len(),
{
    if codes.len() == 0 {
        0
    } else {
        code_widths(codes.drop_last()) + codes.last().1 as nat
    }
}

/// As many bits are written as the codes are wide.
proof fn lemma_codes_written(codes: Seq<(u32, u32)>)
    ensures
        codes_written(codes).len() == code_widths(codes),
    decreases codes.len(),
{
    if codes.len() > 0 {
        lemma_codes_written(codes.drop_last());
    }
}

/// The bits of each code stand behind those of the codes before it.
proof fn lemma_code_in_place(codes: Seq<(u32, u32)>, i: int)
    requires
        0 <= i < codes.len(),
    ensures
        code_widths(codes.take(i)) + codes[i].1 <= codes_written(codes).len(),
        codes_written(codes).subrange(
            code_widths(codes.take(i)) as int,
            code_widths(codes.take(i)) + codes[i].1,
        ) == top_bits(codes[i].0, codes[i].1 as nat),
    decreases codes.len(),
{
    let front = codes.drop_last();
    let (before, own) = (codes_written(front), top_bits(codes.last().0, codes.last().1 as nat));
    lemma_codes_written(front);
    let at = code_widths(codes.take(i)) as int;
    let n = codes[i].1 as int;
    if i == codes.len() - 1 {
        assert(codes.take(i) =~= front);
        assert((before + own).subrange(at, at + n) =~= own);
    } else {
        lemma_code_in_place(front, i);
        assert(front.take(i) =~= codes.take(i));
        assert(front[i] == codes[i]);
        assert((before + own).subrange(at, at + n) =~= before.subrange(at, at + n));
    }
}

/// Codes written one after another are read back in order: the window behind the
/// codes before it starts with each code. Only zero bits follow the last one, up
/// to a whole word.
pub proof fn law_codes_are_read(codes: Seq<(u32, u32)>, data: Seq<u8>)
    requires
        forall|i: int| 0 <= i < codes.len() ==> 1 <= (#[trigger] codes[i]).1 <= 32,
        packs(data, codes_written(codes)),
    ensures
        data.len() == 4 * ((code_widths(codes) + 31) / 32),
        forall|i: int|
            0 <= i < codes.len() ==> window_at(data, code_widths(codes.take(i)) as int) >> ((32
                - codes[i].1) as u32) == (#[trigger] codes[i]).0 >> ((32 - codes[i].1) as u32),
        forall|k: int| code_widths(codes) <= k < 8 * data.len() ==> !#[trigger] stream_bit(data, k),
{
    let bits = codes_written(codes);
    lemma_codes_written(codes);
    lemma_packed_bits(data, Seq::empty(), bits);
    assert(data + Seq::<u8>::empty() =~= data);
    assert forall|i: int| 0 <= i < codes.len() implies window_at(
        data,
        code_widths(codes.take(i)) as int,
    ) >> ((32 - codes[i].1) as u32) == (#[trigger] codes[i]).0 >> ((32 - codes[i].1) as u32) by {
        lemma_code_in_place(codes, i);
        lemma_window_shows_code(
            data,
            bits,
            code_widths(codes.take(i)) as int,
            codes[i].0,
            codes[i].1 as nat,
        );
    }
}

} // verus!
