//! Where the bits of buffers lie, what they are looked up as, and what runs of
//! lengths spell.

use vstd::prelude::*;
use vstd::arithmetic::power2::pow2;

use crate::bitreader::{bits_value, buffer_bit, reversed_words};
use crate::bits::{byte_at, lemma_window_bits, stream_bit, window_at};
use crate::canonical::{
    code_start, code_width, is_complete, lemma_start_aligned, lemma_starts_disjoint,
    lemma_width_divides,
};
use crate::huffman::code_value;
use crate::rle::{expand, repeated, run_at};
use crate::tables::{first_match, lookup, shows, HuffEntry};

verus! {

/// A frame's bits come word by word. The first bit of a word is the top bit of its
/// last byte, and the last bit the lowest of its first byte; bytes that are
/// missing count as zero.
pub proof fn law_stream_bit_place(data: Seq<u8>, k: int)
    requires
        k >= 0,
    ensures
        ({
            let i = 4 * (k / 32) + 3 - (k % 32) / 8;
            stream_bit(data, k) == (i < data.len() && (data[i] >> ((7 - k % 8) as u8)) & 1 == 1)
        }),
{
    let w = k / 32;
    let j = k % 32;
    let (b0, b1, b2, b3) = (
        byte_at(data, 4 * w),
        byte_at(data, 4 * w + 1),
        byte_at(data, 4 * w + 2),
        byte_at(data, 4 * w + 3),
    );
    let s = (31 - j) as u32;
    let t = (7 - k % 8) as u8;
    assert(k % 8 == j % 8);
    assert((0u8 >> t) & 1 == 0) by (bit_vector)
        requires
            t < 8,
    ;
    if j < 8 {
        assert((((b0 as u32) | ((b1 as u32) << 8) | ((b2 as u32) << 16) | ((b3 as u32) << 24)) >> s)
            & 1 == ((b3 >> t) & 1) as u32) by (bit_vector)
            requires
                t < 8,
                s == t + 24,
        ;
    } else if j < 16 {
        assert((((b0 as u32) | ((b1 as u32) << 8) | ((b2 as u32) << 16) | ((b3 as u32) << 24)) >> s)
            & 1 == ((b2 >> t) & 1) as u32) by (bit_vector)
            requires
                t < 8,
                s == t + 16,
        ;
    } else if j < 24 {
        assert((((b0 as u32) | ((b1 as u32) << 8) | ((b2 as u32) << 16) | ((b3 as u32) << 24)) >> s)
            & 1 == ((b1 >> t) & 1) as u32) by (bit_vector)
            requires
                t < 8,
                s == t + 8,
        ;
    } else {
        assert((((b0 as u32) | ((b1 as u32) << 8) | ((b2 as u32) << 16) | ((b3 as u32) << 24)) >> s)
            & 1 == ((b0 >> t) & 1) as u32) by (bit_vector)
            requires
                t < 8,
                s == t as u32,
        ;
    }
}

/// Eight bits from a byte boundary on spell the byte, and reading two stretches of
/// bits spells what reading them together does.
pub proof fn law_bits_spell_bytes(data: Seq<u8>, i: int, pos: int, m: nat, n: nat)
    requires
        0 <= i < data.len(),
    ensures
        bits_value(data, 8 * i, 8) == data[i],
        bits_value(data, pos, m + n) == bits_value(data, pos, m) * pow2(n) + bits_value(
            data,
            pos + m,
            n,
        ),
{
    lemma_bits_join(data, pos, m, n);
    let b = data[i];
    let k = 8 * i;
    assert(forall|j: int| 0 <= j < 8 ==> (#[trigger] buffer_bit(data, k + j)) == ((b >> ((7 - j) as u8))
        & 1 == 1)) by {
        assert forall|j: int| 0 <= j < 8 implies (#[trigger] buffer_bit(data, k + j)) == ((b >> ((7
            - j) as u8)) & 1 == 1) by {
            assert((k + j) / 8 == i && (k + j) % 8 == j);
        }
    }
    assert(buffer_bit(data, k + 0) == ((b >> 7u8) & 1 == 1));
    assert(buffer_bit(data, k + 1) == ((b >> 6u8) & 1 == 1));
    assert(buffer_bit(data, k + 2) == ((b >> 5u8) & 1 == 1));
    assert(buffer_bit(data, k + 3) == ((b >> 4u8) & 1 == 1));
    assert(buffer_bit(data, k + 4) == ((b >> 3u8) & 1 == 1));
    assert(buffer_bit(data, k + 5) == ((b >> 2u8) & 1 == 1));
    assert(buffer_bit(data, k + 6) == ((b >> 1u8) & 1 == 1));
    assert(buffer_bit(data, k + 7) == ((b >> 0u8) & 1 == 1));
    assert(b == 128 * ((b >> 7u8) & 1) + 64 * ((b >> 6u8) & 1) + 32 * ((b >> 5u8) & 1) + 16 * ((b
        >> 4u8) & 1) + 8 * ((b >> 3u8) & 1) + 4 * ((b >> 2u8) & 1) + 2 * ((b >> 1u8) & 1) + ((b
        >> 0u8) & 1) && ((b >> 7u8) & 1) <= 1 && ((b >> 6u8) & 1) <= 1 && ((b >> 5u8) & 1) <= 1
        && ((b >> 4u8) & 1) <= 1 && ((b >> 3u8) & 1) <= 1 && ((b >> 2u8) & 1) <= 1 && ((b >> 1u8)
        & 1) <= 1 && ((b >> 0u8) & 1) <= 1) by (bit_vector);
    reveal_with_fuel(bits_value, 9);
}

/// Bits read in two stretches.
proof fn lemma_bits_join(data: Seq<u8>, pos: int, m: nat, n: nat)
    ensures
        bits_value(data, pos, m + n) == bits_value(data, pos, m) * pow2(n) + bits_value(
            data,
            pos + m,
            n,
        ),
    decreases n,
{
    let a = bits_value(data, pos, m) as int;
    if n == 0 {
        vstd::arithmetic::power2::lemma2_to64();
        assert(a * 1 == a);
    } else {
        lemma_bits_join(data, pos, m, (n - 1) as nat);
        vstd::arithmetic::power2::lemma_pow2_unfold(n);
        let q = pow2((n - 1) as nat) as int;
        assert(2 * (a * q) == a * (2 * q)) by (nonlinear_arith);
        assert(pos + (m + n) - 1 == (pos + m) + n - 1);
        assert((m + n) as nat - 1 == m + (n - 1) as nat);
    }
}

/// A run of up to seven lengths is one byte, `v + 32 * count`. The lengths behind
/// it follow.
pub proof fn law_short_run(src: Seq<u8>, pos: int, v: u8, count: u8, n: int)
    requires
        0 <= pos < src.len(),
        v < 32,
        1 <= count <= 7,
        src[pos] == v + 32 * count,
        n >= 0,
    ensures
        expand(src, pos, count + n) == (match expand(src, pos + 1, n) {
            Some((rest, end)) => Some((Seq::new(count as nat, |i: int| v) + rest, end)),
            None => None,
        }),
        count > 1 ==> expand(src, pos, count - 1) is None,
{
    assert(repeated(v, count as nat) =~= Seq::new(count as nat, |i: int| v));
    assert(run_at(src, pos) == Some((v, count as int, pos + 1)));
}

/// A run of up to 255 lengths is two bytes, the length and the count. The lengths
/// behind it follow.
pub proof fn law_long_run(src: Seq<u8>, pos: int, v: u8, count: u8, n: int)
    requires
        0 <= pos,
        pos + 1 < src.len(),
        v < 32,
        src[pos] == v,
        src[pos + 1] == count,
        n >= 0,
        count + n > 0,
    ensures
        expand(src, pos, count + n) == (match expand(src, pos + 2, n) {
            Some((rest, end)) => Some((Seq::new(count as nat, |i: int| v) + rest, end)),
            None => None,
        }),
        count > 1 ==> expand(src, pos, count - 1) is None,
{
    assert(repeated(v, count as nat) =~= Seq::new(count as nat, |i: int| v));
    assert(run_at(src, pos) == Some((v, count as int, pos + 2)));
}

/// Runs end where the lengths asked for are there, and it is an error where the
/// bytes end before.
pub proof fn law_runs_end(src: Seq<u8>, pos: int, n: int)
    ensures
        expand(src, pos, 0) == Some((Seq::<u8>::empty(), pos)),
        n > 0 && pos >= src.len() ==> expand(src, pos, n) is None,
        n > 0 && 0 <= pos == src.len() - 1 && src[pos] < 32 ==> expand(src, pos, n) is None,
{
}

/// In the code that a length table describes, the codewords of longer length come
/// before those of shorter length, and those of lower symbols before those of
/// higher symbols of the same length.
pub proof fn law_codewords_ordered(lens: Seq<u8>, s: int, t: int)
    requires
        is_complete(lens),
        0 <= s < lens.len(),
        0 <= t < lens.len(),
        lens[s] > 0,
        lens[t] > 0,
        lens[s] > lens[t] || (lens[s] == lens[t] && s < t),
    ensures
        (code_value(lens, s) + 1) * pow2((32 - lens[s]) as nat) <= code_value(lens, t) * pow2(
            (32 - lens[t]) as nat,
        ),
        0 <= code_value(lens, t) < pow2(lens[t] as nat),
{
    lemma_start_aligned(lens, s);
    lemma_start_aligned(lens, t);
    lemma_starts_disjoint(lens, s, t);
    lemma_width_divides(lens[s] as int, 0);
    lemma_width_divides(lens[t] as int, 0);
    lemma_value_times_width(lens, s);
    lemma_value_times_width(lens, t);
    let (v, w) = (code_value(lens, s), code_width(lens[s] as int));
    assert((v + 1) * w == v * w + w) by (nonlinear_arith);
    let (x, y) = (code_value(lens, t), code_width(lens[t] as int));
    let z = pow2(lens[t] as nat) as int;
    vstd::arithmetic::power2::lemma_pow2_adds(lens[t] as nat, (32 - lens[t]) as nat);
    vstd::arithmetic::power2::lemma2_to64();
    assert(0 <= x < z) by (nonlinear_arith)
        requires
            0 <= x * y,
            x * y + y <= z * y,
            y > 0,
    ;
}

/// A codeword starts at its value times its share of the code space.
proof fn lemma_value_times_width(lens: Seq<u8>, s: int)
    requires
        is_complete(lens),
        0 <= s < lens.len(),
        lens[s] > 0,
    ensures
        code_value(lens, s) * code_width(lens[s] as int) == code_start(lens, s),
{
    lemma_start_aligned(lens, s);
    lemma_width_divides(lens[s] as int, 0);
    let (a, d) = (code_start(lens, s), code_width(lens[s] as int));
    vstd::arithmetic::div_mod::lemma_fundamental_div_mod(a, d);
    let q = a / d;
    assert(q * d == d * q) by (nonlinear_arith);
}

/// A window shows the next 32 bits of a stream, the first of them on top.
pub proof fn law_window_shows_stream(data: Seq<u8>, pos: int, j: int)
    requires
        0 <= pos,
        0 <= j < 32,
    ensures
        ((window_at(data, pos) >> ((31 - j) as u32)) & 1 == 1) == stream_bit(data, pos + j),
{
    lemma_window_bits(data, pos, j);
}

/// Reversed words keep their places, and their bytes come in the opposite order.
/// Up to three bytes at the end that make no word are dropped.
pub proof fn law_words_reversed(src: Seq<u8>, w: int)
    requires
        0 <= w,
        4 * w + 4 <= src.len(),
    ensures
        reversed_words(src).len() == src.len() - src.len() % 4,
        reversed_words(src)[4 * w] == src[4 * w + 3],
        reversed_words(src)[4 * w + 1] == src[4 * w + 2],
        reversed_words(src)[4 * w + 2] == src[4 * w + 1],
        reversed_words(src)[4 * w + 3] == src[4 * w],
{
}

/// A window is looked up as a symbol whose codeword it starts with, and as none
/// where there is no such symbol. Where there are several, one with a codeword of
/// at most 16 bits comes before one with a longer one, and a lower symbol before
/// a higher one.
pub proof fn law_lookup_order(entries: Seq<HuffEntry>, w: u32)
    requires
        entries.len() <= 256,
    ensures
        match lookup(entries, w) {
            Some((s, n)) => {
                &&& s < entries.len()
                &&& n == entries[s as int].length
                &&& 1 <= n <= 32
                &&& w >> ((32 - n) as u32) == entries[s as int].code >> ((32 - n) as u32)
                &&& forall|t: int|
                    0 <= t < entries.len() && #[trigger] shows(entries[t], w) ==> if n <= 16 {
                        entries[t].length <= 16 ==> s <= t
                    } else {
                        entries[t].length > 16 && s <= t
                    }
            },
            None => forall|t: int|
                0 <= t < entries.len() ==> !(1 <= (#[trigger] entries[t]).length <= 32 && w >> ((32
                    - entries[t].length) as u32) == entries[t].code >> ((32
                    - entries[t].length) as u32)),
        },
{
    lemma_first_match(entries, w, false, 0);
    lemma_first_match(entries, w, true, 0);
    if lookup(entries, w) is None {
        assert forall|t: int| 0 <= t < entries.len() implies !(1 <= (
        #[trigger] entries[t]).length <= 32 && w >> ((32 - entries[t].length) as u32)
            == entries[t].code >> ((32 - entries[t].length) as u32)) by {
            assert(!shows(entries[t], w));
        }
    }
}

/// The first match is a match, and nothing before it is one.
proof fn lemma_first_match(entries: Seq<HuffEntry>, w: u32, long: bool, from: int)
    requires
        0 <= from <= entries.len(),
    ensures
        match first_match(entries, w, long, from) {
            Some(s) => {
                &&& from <= s < entries.len()
                &&& (entries[s].length > 16) == long
                &&& shows(entries[s], w)
                &&& forall|t: int|
                    from <= t < s ==> !((entries[t].length > 16) == long && #[trigger] shows(
                        entries[t],
                        w,
                    ))
            },
            None => forall|t: int|
                from <= t < entries.len() ==> !((entries[t].length > 16) == long
                    && #[trigger] shows(entries[t], w)),
        },
    decreases entries.len() - from,
{
    if from < entries.len() && !((entries[from].length > 16) == long && shows(entries[from], w)) {
        lemma_first_match(entries, w, long, from + 1);
    }
}

} // verus!
