//! Huffman tables over the 256 byte values.

use vstd::prelude::*;
use vstd::arithmetic::power2::{lemma2_to64, pow2};

use crate::bits::bit32;
use crate::canonical::{
    assign_codes, code_start, code_width, comes_before, is_complete, kraft_total,
    lemma_start_aligned, lemma_starts_disjoint, lemma_width_divides, CODE_SPACE,
};
use crate::error::{Error, Result};
use crate::rle::{decode_lengths, expand, lemma_expand_shape};
use crate::rle_encode::{compress, encode_lengths, law_expand_compress, low_five};

pub use crate::classic::classic_blob_bytes;
pub use crate::code_lengths::compute_canonical_lengths;
pub use crate::v1x::{v1x_codes_set_a, v1x_codes_set_b, v1x_lengths_set_a, v1x_lengths_set_b};

verus! {

/// The longest codeword length that a table holds.
pub const MAX_LENGTH: u8 = 31;

/// One symbol's codeword, left-aligned in 32 bits, and its length; length zero
/// where the symbol has none.
#[derive(Debug, Clone, Copy, PartialEq, Eq, Structural)]
pub struct HuffEntry {
    pub code: u32,
    pub length: u8,
}

/// The window `w` starts with the codeword of `e`.
pub open spec fn shows(e: HuffEntry, w: u32) -> bool {
    1 <= e.length <= 32 && w >> ((32 - e.length) as u32) == e.code >> ((32 - e.length) as u32)
}

/// The codewords of `e` have an admissible length and no bits below it.
pub open spec fn entry_wf(e: HuffEntry) -> bool {
    &&& e.length <= MAX_LENGTH
    &&& e.length > 0 ==> (e.code >> ((32 - e.length) as u32)) << ((32 - e.length) as u32) == e.code
}

/// The entries of a table are admissible.
pub open spec fn entries_wf(entries: Seq<HuffEntry>) -> bool {
    &&& entries.len() == 256
    &&& forall|s: int| 0 <= s < 256 ==> entry_wf(#[trigger] entries[s])
}

/// The first symbol, from `from` on, whose codeword has a length of at most 16
/// (or, where `long` is set, of more than 16) and starts the window `w`.
pub open spec fn first_match(entries: Seq<HuffEntry>, w: u32, long: bool, from: int) -> Option<int>
    decreases entries.len() - from,
{
    if from >= entries.len() {
        None
    } else if (entries[from].length > 16) == long && shows(entries[from], w) {
        Some(from)
    } else {
        first_match(entries, w, long, from + 1)
    }
}

/// The symbol whose codeword starts the window `w`, with the codeword's length.
/// Where codewords overlap, the short ones come before the long ones, and lower
/// symbols before higher ones.
pub open spec fn lookup(entries: Seq<HuffEntry>, w: u32) -> Option<(u8, u8)> {
    match first_match(entries, w, false, 0) {
        Some(s) => Some((s as u8, entries[s].length)),
        None => match first_match(entries, w, true, 0) {
            Some(s) => Some((s as u8, entries[s].length)),
            None => None,
        },
    }
}

/// No window starts with two codewords.
pub open spec fn is_prefix_free(entries: Seq<HuffEntry>) -> bool {
    forall|s: int, t: int, w: u32|
        0 <= s < entries.len() && 0 <= t < entries.len() && #[trigger] shows(entries[s], w)
            && #[trigger] shows(entries[t], w) ==> s == t
}

/// What a match means.
pub proof fn lemma_first_match(entries: Seq<HuffEntry>, w: u32, long: bool, from: int)
    requires
        0 <= from,
    ensures
        first_match(entries, w, long, from) matches Some(s) ==> from <= s < entries.len()
            && (entries[s].length > 16) == long && shows(entries[s], w),
        first_match(entries, w, long, from) is None ==> forall|s: int|
            from <= s < entries.len() && (entries[s].length > 16) == long ==> !shows(
                #[trigger] entries[s],
                w,
            ),
    decreases entries.len() - from,
{
    if from < entries.len() {
        if !((entries[from].length > 16) == long && shows(entries[from], w)) {
            lemma_first_match(entries, w, long, from + 1);
        }
    }
}

/// In a prefix-free table, a window that starts with the codeword of `s` is
/// looked up as `s`.
pub proof fn law_lookup_finds_symbol(entries: Seq<HuffEntry>, w: u32, s: int)
    requires
        is_prefix_free(entries),
        0 <= s < entries.len(),
        shows(entries[s], w),
    ensures
        lookup(entries, w) == Some((s as u8, entries[s].length)),
{
    lemma_first_match(entries, w, false, 0);
    lemma_first_match(entries, w, true, 0);
}

/// A lookup gives the length of a codeword that starts the window.
pub proof fn lemma_lookup_length(entries: Seq<HuffEntry>, w: u32)
    requires
        entries_wf(entries),
    ensures
        lookup(entries, w) matches Some((s, l)) ==> 1 <= l <= MAX_LENGTH && l
            == entries[s as int].length && shows(entries[s as int], w),
{
    lemma_first_match(entries, w, false, 0);
    lemma_first_match(entries, w, true, 0);
}

/// A left-aligned codeword starts the window `w` exactly where `w` lies in the
/// codeword's share of the code space.
pub proof fn lemma_shows_is_range(e: HuffEntry, w: u32)
    requires
        entry_wf(e),
        e.length > 0,
    ensures
        shows(e, w) <==> e.code <= w < e.code + code_width(e.length as int),
{
    let m = (32 - e.length) as u32;
    let c = e.code;
    lemma2_to64();
    vstd::bits::lemma_u32_shl_is_mul(1, m);
    vstd::bits::lemma_u32_pow2_no_overflow(m as nat);
    assert(code_width(e.length as int) == 1u32 << m);
    assert(w >> m == c >> m <==> (c <= w && w - c < (1u32 << m))) by (bit_vector)
        requires
            m < 32,
            (c >> m) << m == c,
    ;
}

/// Within one half-word, a short codeword starts the window exactly where the
/// window's upper half lies in the codeword's range of half-words.
proof fn lemma_short_range(e: HuffEntry, w: u32)
    requires
        entry_wf(e),
        1 <= e.length <= 16,
    ensures
        shows(e, w) <==> (e.code >> 16) <= (w >> 16) < (e.code >> 16) + (1u32 << ((16
            - e.length) as u32)),
        (e.code >> 16) + (1u32 << ((16 - e.length) as u32)) <= 0x1_0000,
        1 <= 1u32 << ((16 - e.length) as u32) <= 0x8000,
{
    let m = (32 - e.length) as u32;
    let q = (16 - e.length) as u32;
    let c = e.code;
    assert((w >> m == c >> m <==> ((c >> 16) <= (w >> 16) && (w >> 16) - (c >> 16) < (1u32 << q)))
        && (c >> 16) + (1u32 << q) <= 0x1_0000 && 1 <= (1u32 << q) && (1u32 << q) <= 0x8000)
        by (bit_vector)
        requires
            16 <= m < 32,
            q + 16 == m,
            (c >> m) << m == c,
    ;
}

/// A left-aligned codeword has no bits below its length.
pub proof fn lemma_entry_low_bits(e: HuffEntry, j: int)
    requires
        entry_wf(e),
        e.length > 0,
        e.length <= j < 32,
    ensures
        !bit32(e.code, j),
{
    let m = (32 - e.length) as u32;
    let s = (31 - j) as u32;
    let c = e.code;
    assert((c >> s) & 1 == 0) by (bit_vector)
        requires
            s < m < 32,
            (c >> m) << m == c,
    ;
}

/// The cell of the direct lookup table for a symbol and its codeword length.
spec fn cell(entries: Seq<HuffEntry>, found: Option<int>) -> int {
    match found {
        Some(s) => s * 256 + entries[s].length,
        None => 0,
    }
}

/// A Huffman table ready for decoding: the entries, and a table that is indexed
/// by the upper half of a window and answers for codewords of up to 16 bits.
#[derive(Debug)]
pub struct HuffTable {
    pub entries: [HuffEntry; 256],
    lut: Vec<u16>,
}

impl HuffTable {
    /// The entries, by symbol.
    pub closed spec fn view(&self) -> Seq<HuffEntry> {
        self.entries@
    }

    /// The direct lookup table agrees with the entries.
    pub closed spec fn wf(&self) -> bool {
        &&& entries_wf(self.entries@)
        &&& lut_agrees(self.lut@, self.entries@, 0)
    }

    /// The entries of a table whose invariant holds are admissible.
    pub proof fn lemma_wf(&self)
        requires
            self.wf(),
        ensures
            entries_wf(self@),
    {
    }

    /// The entry of symbol `sym`.
    pub fn entry(&self, sym: u8) -> (e: HuffEntry)
        ensures
            e == self@[sym as int],
    {
        self.entries[sym as usize]
    }

    /// A table with the given entries.
    fn from_entries(entries: [HuffEntry; 256]) -> (t: Self)
        requires
            entries_wf(entries@),
        ensures
            t.wf(),
            t@ == entries@,
    {
        let mut lut: Vec<u16> = vec![0u16; 65536];
        proof {
            assert forall|w: u32| lut@[#[trigger] upper_half(w)] == 0 by {
                lemma_upper_half(w);
            }
        }
        let mut s: usize = 256;
        while s > 0
            invariant
                s <= 256,
                entries_wf(entries@),
                lut_agrees(lut@, entries@, s as int),
            decreases s,
        {
            s = s - 1;
            let e: HuffEntry = entries[s];
            if 1 <= e.length && e.length <= 16 {
                let base: u32 = e.code >> 16;
                let span: u32 = 1u32 << ((16 - e.length) as u32);
                let value: u16 = (s as u16) * 256 + e.length as u16;
                let ghost before = lut@;
                proof {
                    lemma_short_range(e, e.code);
                }
                let mut k: u32 = 0;
                while k < span
                    invariant
                        k <= span,
                        base + span <= 65536,
                        lut@.len() == 65536,
                        before.len() == 65536,
                        forall|i: int|
                            0 <= i < 65536 ==> #[trigger] lut@[i] == (if base <= i < base + k {
                                value
                            } else {
                                before[i]
                            }),
                    decreases span - k,
                {
                    lut.set((base + k) as usize, value);
                    k = k + 1;
                }
                proof {
                    assert forall|w: u32| lut@[#[trigger] upper_half(w)] == cell(
                        entries@,
                        first_match(entries@, w, false, s as int),
                    ) by {
                        lemma_short_range(e, w);
                        lemma_upper_half(w);
                        assert(before[upper_half(w)] == cell(
                            entries@,
                            first_match(entries@, w, false, s as int + 1),
                        ));
                    }
                }
            } else {
                proof {
                    assert forall|w: u32| lut@[#[trigger] upper_half(w)] == cell(
                        entries@,
                        first_match(entries@, w, false, s as int),
                    ) by {
                        assert(lut@[upper_half(w)] == cell(
                            entries@,
                            first_match(entries@, w, false, s as int + 1),
                        ));
                    }
                }
            }
        }
        Self { entries, lut }
    }

    /// The canonical table for a length table. Lengths above 31, and lengths
    /// whose codewords do not cover the code space exactly, are refused.
    pub fn build_from_lengths(lengths: &[u8; 256]) -> (r: Result<Self>)
        ensures
            r is Ok <==> lengths_ok(lengths@),
            r matches Ok(t) ==> t.wf() && t@ == canonical_entries(lengths@),
            r matches Err(e) ==> e is InvalidData,
    {
        let mut i: usize = 0;
        while i < 256
            invariant
                i <= 256,
                forall|s: int| 0 <= s < i ==> #[trigger] lengths@[s] <= MAX_LENGTH,
            decreases 256 - i,
        {
            if lengths[i] > MAX_LENGTH {
                return Err(Error::invalid("code length exceeds 31"));
            }
            i = i + 1;
        }
        let total = kraft_total(lengths);
        if total != CODE_SPACE as u128 {
            return Err(Error::invalid("code lengths fail the Kraft equality"));
        }
        let codes = assign_codes(lengths);
        let mut entries: [HuffEntry; 256] = [HuffEntry { code: 0, length: 0 };256];
        let mut s: usize = 0;
        while s < 256
            invariant
                s <= 256,
                lengths_ok(lengths@),
                codes@.len() == 256,
                forall|t: int|
                    0 <= t < 256 ==> #[trigger] codes@[t] == (if lengths@[t] > 0 {
                        code_start(lengths@, t)
                    } else {
                        0
                    }),
                forall|t: int|
                    0 <= t < s ==> #[trigger] entries@[t] == canonical_entries(lengths@)[t],
            decreases 256 - s,
        {
            entries[s] = HuffEntry { code: codes[s], length: lengths[s] };
            assert(codes@[s as int] == canonical_entries(lengths@)[s as int].code) by {
                if lengths@[s as int] > 0 {
                    lemma_start_aligned(lengths@, s as int);
                }
            }
            s = s + 1;
        }
        proof {
            assert(entries@ =~= canonical_entries(lengths@));
            lemma_canonical_entries(lengths@);
        }
        Ok(Self::from_entries(entries))
    }
}

impl Clone for HuffTable {
    fn clone(&self) -> (t: Self)
        ensures
            t@ == self@,
            self.wf() ==> t.wf(),
    {
        let lut = self.lut.clone();
        assert(lut@ =~= self.lut@);
        Self { entries: self.entries, lut }
    }
}

/// The upper half of a window.
pub open spec fn upper_half(w: u32) -> int {
    (w >> 16) as int
}

proof fn lemma_upper_half(w: u32)
    ensures
        0 <= upper_half(w) < 65536,
{
    assert((w >> 16) < 65536) by (bit_vector);
}

/// Each cell names the first short match from symbol `from` on.
spec fn lut_agrees(lut: Seq<u16>, entries: Seq<HuffEntry>, from: int) -> bool {
    &&& lut.len() == 65536
    &&& forall|w: u32|
        lut[#[trigger] upper_half(w)] == cell(entries, first_match(entries, w, false, from))
}

/// A length table that describes a complete code with lengths of at most 31.
pub open spec fn lengths_ok(lens: Seq<u8>) -> bool {
    &&& lens.len() == 256
    &&& forall|s: int| 0 <= s < 256 ==> #[trigger] lens[s] <= MAX_LENGTH
    &&& is_complete(lens)
}

/// The entries of the canonical code for a length table.
pub open spec fn canonical_entries(lens: Seq<u8>) -> Seq<HuffEntry> {
    Seq::new(
        256,
        |s: int|
            HuffEntry {
                code: if lens[s] > 0 {
                    code_start(lens, s) as u32
                } else {
                    0
                },
                length: lens[s],
            },
    )
}

/// The canonical entries of a complete code are admissible and prefix-free.
pub proof fn lemma_canonical_entries(lens: Seq<u8>)
    requires
        lengths_ok(lens),
    ensures
        entries_wf(canonical_entries(lens)),
        is_prefix_free(canonical_entries(lens)),
{
    let entries = canonical_entries(lens);
    assert forall|s: int| 0 <= s < 256 implies entry_wf(#[trigger] entries[s]) by {
        if lens[s] > 0 {
            lemma_start_aligned(lens, s);
            lemma_width_divides(lens[s] as int, 0);
            let m = (32 - lens[s]) as u32;
            let c = entries[s].code;
            assert(c as int == code_start(lens, s));
            vstd::bits::lemma_u32_shr_is_div(c, m);
            let w = code_width(lens[s] as int);
            assert(w == pow2(m as nat));
            vstd::arithmetic::div_mod::lemma_fundamental_div_mod(c as int, w);
            let q = c >> m;
            assert(q * pow2(m as nat) == c) by {
                vstd::arithmetic::mul::lemma_mul_is_commutative(q as int, w);
            }
            vstd::bits::lemma_u32_shl_is_mul(q, m);
        }
    }
    assert forall|s: int, t: int, w: u32|
        0 <= s < entries.len() && 0 <= t < entries.len() && #[trigger] shows(entries[s], w)
            && #[trigger] shows(entries[t], w) implies s == t by {
        lemma_shows_is_range(entries[s], w);
        lemma_shows_is_range(entries[t], w);
        lemma_start_aligned(lens, s);
        lemma_start_aligned(lens, t);
        lemma_width_divides(lens[s] as int, 0);
        lemma_width_divides(lens[t] as int, 0);
        if s != t {
            if comes_before(lens, s, t) {
                lemma_starts_disjoint(lens, s, t);
            } else {
                lemma_starts_disjoint(lens, t, s);
            }
        }
    }
}

/// The entries for codeword lengths with right-aligned codewords: each codeword
/// is moved up to the top of its 32 bits.
pub open spec fn pair_entries(lens: Seq<u8>, codes: Seq<u8>) -> Seq<HuffEntry> {
    Seq::new(
        256,
        |s: int|
            HuffEntry {
                code: if lens[s] > 0 {
                    (codes[s] as u32) << ((32 - lens[s]) as u32)
                } else {
                    0
                },
                length: lens[s],
            },
    )
}

/// Entries made from right-aligned codewords are admissible.
pub proof fn lemma_pair_entries(lens: Seq<u8>, codes: Seq<u8>)
    requires
        lens.len() == 256,
        forall|s: int| 0 <= s < 256 ==> #[trigger] lens[s] <= MAX_LENGTH,
    ensures
        entries_wf(pair_entries(lens, codes)),
{
    let entries = pair_entries(lens, codes);
    assert forall|s: int| 0 <= s < 256 implies entry_wf(#[trigger] entries[s]) by {
        assert(lens[s] <= MAX_LENGTH);
        if lens[s] > 0 {
            let m = (32 - lens[s]) as u32;
            let c = codes[s] as u32;
            assert(((c << m) >> m) << m == c << m) by (bit_vector)
                requires
                    m < 32,
            ;
        }
    }
}

/// Every codeword of a table made from right-aligned codewords decodes to some
/// symbol, even where codewords overlap.
pub proof fn law_pair_table_decodes_something(lens: Seq<u8>, codes: Seq<u8>, s: int)
    requires
        lens.len() == 256,
        forall|t: int| 0 <= t < 256 ==> #[trigger] lens[t] <= MAX_LENGTH,
        0 <= s < 256,
        lens[s] > 0,
    ensures
        lookup(pair_entries(lens, codes), pair_entries(lens, codes)[s].code) is Some,
{
    let entries = pair_entries(lens, codes);
    lemma_first_match(entries, entries[s].code, false, 0);
    lemma_first_match(entries, entries[s].code, true, 0);
    assert(shows(entries[s], entries[s].code));
}

/// The table for codeword lengths with right-aligned codewords. Lengths above
/// 31 are refused; nothing else is asked of the code.
pub fn v1x_table_from_pair(lengths: &[u8; 256], codes: &[u8; 256]) -> (r: Result<HuffTable>)
    ensures
        r is Ok <==> (forall|s: int| 0 <= s < 256 ==> #[trigger] lengths@[s] <= MAX_LENGTH),
        r matches Ok(t) ==> t.wf() && t@ == pair_entries(lengths@, codes@),
        r matches Err(e) ==> e is InvalidData,
{
    let mut entries: [HuffEntry; 256] = [HuffEntry { code: 0, length: 0 };256];
    let mut s: usize = 0;
    while s < 256
        invariant
            s <= 256,
            forall|t: int| 0 <= t < s ==> #[trigger] lengths@[t] <= MAX_LENGTH,
            forall|t: int|
                0 <= t < s ==> #[trigger] entries@[t] == pair_entries(lengths@, codes@)[t],
        decreases 256 - s,
    {
        let length: u8 = lengths[s];
        if length > MAX_LENGTH {
            return Err(Error::invalid("code length exceeds 31"));
        }
        let code: u32 = if length > 0 {
            (codes[s] as u32) << ((32 - length) as u32)
        } else {
            0
        };
        entries[s] = HuffEntry { code, length };
        s = s + 1;
    }
    proof {
        assert(entries@ =~= pair_entries(lengths@, codes@));
        lemma_pair_entries(lengths@, codes@);
    }
    Ok(HuffTable::from_entries(entries))
}

/// Every symbol of a freshly built table decodes from its own codeword,
/// whatever follows the codeword in the window.
pub proof fn law_table_decodes_itself(lens: Seq<u8>, s: int, w: u32)
    requires
        lengths_ok(lens),
        0 <= s < 256,
        lens[s] > 0,
        shows(canonical_entries(lens)[s], w),
    ensures
        lookup(canonical_entries(lens), w) == Some((s as u8, lens[s])),
{
    lemma_canonical_entries(lens);
    law_lookup_finds_symbol(canonical_entries(lens), w, s);
}

/// Decodes the codeword at the top of `window`; returns the symbol and the
/// codeword's length.
pub fn decode_one(table: &HuffTable, window: u32) -> (r: Result<(u8, u8)>)
    requires
        table.wf(),
    ensures
        r is Ok <==> lookup(table@, window) is Some,
        r matches Ok(found) ==> lookup(table@, window) == Some(found) && 1 <= found.1
            <= MAX_LENGTH,
        r matches Err(e) ==> e is InvalidData,
{
    proof {
        lemma_upper_half(window);
        lemma_first_match(table@, window, false, 0);
        lemma_lookup_length(table@, window);
    }
    let hit: u16 = table.lut[(window >> 16) as usize];
    assert(hit == cell(table@, first_match(table@, window, false, 0))) by {
        assert(table.lut@[upper_half(window)] == hit);
    }
    if hit != 0 {
        return Ok(((hit / 256) as u8, (hit % 256) as u8));
    }
    decode_one_slow(table, window)
}

/// Decodes a codeword of more than 16 bits by walking the entries.
fn decode_one_slow(table: &HuffTable, window: u32) -> (r: Result<(u8, u8)>)
    requires
        entries_wf(table@),
    ensures
        match first_match(table@, window, true, 0) {
            Some(s) => r == Ok::<(u8, u8), Error>((s as u8, table@[s].length)),
            None => r is Err && r->Err_0 is InvalidData,
        },
{
    let mut s: usize = 0;
    while s < 256
        invariant
            s <= 256,
            entries_wf(table@),
            first_match(table@, window, true, s as int) == first_match(
                table@,
                window,
                true,
                0,
            ),
        decreases 256 - s,
    {
        let e: HuffEntry = table.entry(s as u8);
        assert(entry_wf(table@[s as int]));
        if e.length > 16 {
            let m: u32 = (32 - e.length) as u32;
            if window >> m == e.code >> m {
                return Ok((s as u8, e.length));
            }
        }
        s = s + 1;
    }
    Err(Error::invalid("no codeword starts the bit window"))
}

/// Three length tables, one after another.
pub open spec fn three_lengths(src: Seq<u8>) -> Option<(Seq<u8>, Seq<u8>, Seq<u8>)> {
    match expand(src, 0, 256) {
        None => None,
        Some((l1, e1)) => match expand(src, e1, 256) {
            None => None,
            Some((l2, e2)) => match expand(src, e2, 256) {
                None => None,
                Some((l3, e3)) => Some((l1, l2, l3)),
            },
        },
    }
}

/// Decodes one length table from the front of `src` and moves `src` behind it.
/// Where the table is malformed `src` stays as it is.
pub fn rle_decode_one_channel(src: &mut &[u8]) -> (r: Result<[u8; 256]>)
    ensures
        r is Ok <==> expand(old(src)@, 0, 256) is Some,
        r matches Ok(lens) ==> (expand(old(src)@, 0, 256) matches Some((l, end)) && l == lens@
            && final(src)@ == old(src)@.subrange(end, old(src)@.len() as int)),
        r matches Err(e) ==> e is InvalidData && final(src)@ == old(src)@,
{
    let data: &[u8] = *src;
    let (lens, end) = decode_table(data, 0)?;
    *src = &data[end..data.len()];
    Ok(lens)
}

/// Decodes the length table at `pos`; returns it with the position behind it.
fn decode_table(src: &[u8], pos: usize) -> (r: Result<([u8; 256], usize)>)
    requires
        pos <= src@.len(),
    ensures
        r is Ok <==> expand(src@, pos as int, 256) is Some,
        r matches Ok((lens, end)) ==> expand(src@, pos as int, 256) == Some((lens@, end as int))
            && end <= src@.len(),
        r matches Err(e) ==> e is InvalidData,
{
    let tail: &[u8] = &src[pos..src.len()];
    proof {
        lemma_expand_tail(src@, pos as int, 0, 256);
        lemma_expand_shape(src@, pos as int, 256);
    }
    let (list, used) = decode_lengths(tail, 256)?;
    let mut lens: [u8; 256] = [0u8;256];
    let mut i: usize = 0;
    while i < 256
        invariant
            i <= 256,
            list@.len() == 256,
            forall|k: int| 0 <= k < i ==> #[trigger] lens@[k] == list@[k],
        decreases 256 - i,
    {
        lens[i] = list[i];
        i = i + 1;
    }
    assert(lens@ =~= list@);
    Ok((lens, pos + used))
}

/// Expanding the tail of a buffer is expanding the buffer further on.
pub proof fn lemma_expand_tail(src: Seq<u8>, from: int, pos: int, n: int)
    requires
        0 <= from <= src.len(),
        0 <= pos <= src.len() - from,
    ensures
        match expand(src, from + pos, n) {
            None => expand(src.subrange(from, src.len() as int), pos, n) is None,
            Some((lens, end)) => expand(src.subrange(from, src.len() as int), pos, n) == Some(
                (lens, end - from),
            ),
        },
    decreases src.len() - from - pos,
{
    let tail = src.subrange(from, src.len() as int);
    if n > 0 {
        if let Some((v, count, next)) = crate::rle::run_at(tail, pos) {
            assert(crate::rle::run_at(src, from + pos) == Some((v, count, from + next)));
            if count <= n {
                lemma_expand_tail(src, from, next, n - count);
            }
        }
    }
}

/// Decodes three length tables, one after another.
pub fn rle_decode_three_channels(src: &[u8]) -> (r: Result<[[u8; 256]; 3]>)
    ensures
        r is Ok <==> three_lengths(src@) is Some,
        r matches Ok(t) ==> three_lengths(src@) == Some((t@[0]@, t@[1]@, t@[2]@)),
        r matches Err(e) ==> e is InvalidData,
{
    let (l1, e1) = decode_table(src, 0)?;
    let (l2, e2) = decode_table(src, e1)?;
    let (l3, e3) = decode_table(src, e2)?;
    Ok([l1, l2, l3])
}

/// Encodes one length table and appends it to `out`. Lengths above 31 are
/// refused, and `out` then stays as it is.
pub fn rle_encode_one_channel(lengths: &[u8; 256], out: &mut Vec<u8>) -> (r: Result<()>)
    ensures
        r is Ok <==> (forall|s: int| 0 <= s < 256 ==> #[trigger] lengths@[s] <= MAX_LENGTH),
        r is Ok ==> final(out)@ == old(out)@ + compress(lengths@),
        r matches Err(e) ==> e is InvalidData && final(out)@ == old(out)@,
{
    let mut i: usize = 0;
    while i < 256
        invariant
            i <= 256,
            forall|s: int| 0 <= s < i ==> #[trigger] lengths@[s] <= MAX_LENGTH,
        decreases 256 - i,
    {
        if lengths[i] > MAX_LENGTH {
            return Err(Error::invalid("code length exceeds 31"));
        }
        i = i + 1;
    }
    let mut bytes = encode_lengths(lengths);
    out.append(&mut bytes);
    Ok(())
}

/// Encodes three length tables, one after another.
pub fn rle_encode_three_channels(lengths: &[[u8; 256]; 3]) -> (r: Result<Vec<u8>>)
    ensures
        r is Ok <==> (forall|c: int, s: int|
            0 <= c < 3 && 0 <= s < 256 ==> #[trigger] lengths@[c]@[s] <= MAX_LENGTH),
        r matches Ok(out) ==> out@ == compress(lengths@[0]@) + compress(lengths@[1]@) + compress(
            lengths@[2]@,
        ),
        r matches Err(e) ==> e is InvalidData,
{
    let mut out: Vec<u8> = Vec::new();
    rle_encode_one_channel(&lengths[0], &mut out)?;
    rle_encode_one_channel(&lengths[1], &mut out)?;
    rle_encode_one_channel(&lengths[2], &mut out)?;
    proof {
        assert(out@ =~= compress(lengths@[0]@) + compress(lengths@[1]@) + compress(lengths@[2]@));
    }
    Ok(out)
}

/// Decoding three encoded length tables gives them back.
pub proof fn law_three_channels_round_trip(l1: Seq<u8>, l2: Seq<u8>, l3: Seq<u8>)
    requires
        l1.len() == 256 && l2.len() == 256 && l3.len() == 256,
        forall|s: int| 0 <= s < 256 ==> #[trigger] l1[s] <= MAX_LENGTH,
        forall|s: int| 0 <= s < 256 ==> #[trigger] l2[s] <= MAX_LENGTH,
        forall|s: int| 0 <= s < 256 ==> #[trigger] l3[s] <= MAX_LENGTH,
    ensures
        three_lengths(compress(l1) + compress(l2) + compress(l3)) == Some((l1, l2, l3)),
{
    let (a, b, c) = (compress(l1), compress(l2), compress(l3));
    let e = Seq::<u8>::empty();
    assert(low_five(l1) =~= l1 && low_five(l2) =~= l2 && low_five(l3) =~= l3);
    law_expand_compress(l1, e, b + c);
    law_expand_compress(l2, a, c);
    law_expand_compress(l3, a + b, e);
    assert(a + b + c =~= e + a + (b + c));
    assert(a + b + c =~= (a + b) + c + e);
}

} // verus!
