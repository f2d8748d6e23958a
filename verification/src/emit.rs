//! Residual bytes as codewords: their statistics, and the bit stream.

use vstd::prelude::*;

use crate::bitio::BitWriter;
use crate::bits::{bit32, packs, top_bits};
use crate::decoder::Codebooks;
use crate::error::{text_with_hex, with_hex, Error, Result};
use crate::header::{Method, PixelFamily};
use crate::layout::{slot_at, slot_of, Slot};
use crate::tables::{entries_wf, entry_wf, lemma_entry_low_bits, HuffEntry, HuffTable};

verus! {

// ---------------------------------------------------------------------------
// Statistics
// ---------------------------------------------------------------------------

/// How often `sym` is to be coded with the codebook `slot`.
pub open spec fn symbol_count(
    family: PixelFamily,
    decorrelate: bool,
    body: Seq<u8>,
    slot: Slot,
    sym: int,
) -> nat
    decreases body.len(),
{
    if body.len() == 0 {
        0
    } else {
        let before = symbol_count(family, decorrelate, body.drop_last(), slot, sym);
        if slot_of(family, decorrelate, body.len() - 1) == slot && body.last() == sym {
            before + 1
        } else {
            before
        }
    }
}

/// The histogram of the symbols that are coded with the codebook `slot`.
pub open spec fn histogram(
    family: PixelFamily,
    decorrelate: bool,
    body: Seq<u8>,
    slot: Slot,
) -> Seq<u32> {
    Seq::new(256, |s: int| symbol_count(family, decorrelate, body, slot, s) as u32)
}

/// No symbol occurs more often than a histogram can count.
pub open spec fn countable(family: PixelFamily, decorrelate: bool, body: Seq<u8>) -> bool {
    forall|slot: Slot, s: int| #[trigger]
        symbol_count(family, decorrelate, body, slot, s) <= u32::MAX
}

/// A longer body counts no less.
proof fn lemma_count_prefix(
    family: PixelFamily,
    decorrelate: bool,
    body: Seq<u8>,
    n: int,
    slot: Slot,
    sym: int,
)
    requires
        0 <= n <= body.len(),
    ensures
        symbol_count(family, decorrelate, body.take(n), slot, sym) <= symbol_count(
            family,
            decorrelate,
            body,
            slot,
            sym,
        ),
    decreases body.len(),
{
    if n == body.len() {
        assert(body.take(n) =~= body);
    } else {
        lemma_count_prefix(family, decorrelate, body.drop_last(), n, slot, sym);
        assert(body.drop_last().take(n) =~= body.take(n));
    }
}

/// No count exceeds the number of bytes.
pub proof fn law_count_bounded(
    family: PixelFamily,
    decorrelate: bool,
    body: Seq<u8>,
    slot: Slot,
    sym: int,
)
    ensures
        symbol_count(family, decorrelate, body, slot, sym) <= body.len(),
    decreases body.len(),
{
    if body.len() > 0 {
        law_count_bounded(family, decorrelate, body.drop_last(), slot, sym);
    }
}

/// Counts the symbols of each codebook.
pub fn histogramise(family: PixelFamily, method: Method, body: &[u8]) -> (h: (
    [u32; 256],
    [u32; 256],
    [u32; 256],
))
    requires
        countable(family, method.decorrelates(), body@),
    ensures
        h.0@ == histogram(family, method.decorrelates(), body@, Slot::First),
        h.1@ == histogram(family, method.decorrelates(), body@, Slot::Second),
        h.2@ == histogram(family, method.decorrelates(), body@, Slot::Third),
{
    let decorrelate: bool = method.decorrelate();
    let mut h1: [u32; 256] = [0u32;256];
    let mut h2: [u32; 256] = [0u32;256];
    let mut h3: [u32; 256] = [0u32;256];
    let len: usize = body.len();
    let mut i: usize = 0;
    while i < len
        invariant
            i <= len,
            len == body@.len(),
            countable(family, decorrelate, body@),
            forall|s: int|
                0 <= s < 256 ==> #[trigger] h1@[s] == symbol_count(
                    family,
                    decorrelate,
                    body@.take(i as int),
                    Slot::First,
                    s,
                ),
            forall|s: int|
                0 <= s < 256 ==> #[trigger] h2@[s] == symbol_count(
                    family,
                    decorrelate,
                    body@.take(i as int),
                    Slot::Second,
                    s,
                ),
            forall|s: int|
                0 <= s < 256 ==> #[trigger] h3@[s] == symbol_count(
                    family,
                    decorrelate,
                    body@.take(i as int),
                    Slot::Third,
                    s,
                ),
        decreases len - i,
    {
        let sym: usize = body[i] as usize;
        let slot = slot_at(family, decorrelate, i);
        proof {
            let next = body@.take(i + 1);
            assert(next.drop_last() =~= body@.take(i as int));
            assert(next.last() == body@[i as int]);
            lemma_count_prefix(family, decorrelate, body@, i + 1, slot, sym as int);
            assert(symbol_count(family, decorrelate, body@, slot, sym as int) <= u32::MAX);
        }
        match slot {
            Slot::First => {
                h1[sym] = h1[sym] + 1;
            },
            Slot::Second => {
                h2[sym] = h2[sym] + 1;
            },
            Slot::Third => {
                h3[sym] = h3[sym] + 1;
            },
        }
        i = i + 1;
    }
    proof {
        assert(body@.take(len as int) =~= body@);
        assert forall|slot: Slot, s: int| #[trigger]
            symbol_count(family, decorrelate, body@, slot, s) <= u32::MAX by {}
        assert(h1@ =~= histogram(family, decorrelate, body@, Slot::First));
        assert(h2@ =~= histogram(family, decorrelate, body@, Slot::Second));
        assert(h3@ =~= histogram(family, decorrelate, body@, Slot::Third));
    }
    (h1, h2, h3)
}

// ---------------------------------------------------------------------------
// Codewords
// ---------------------------------------------------------------------------

/// Every residual has a codeword in its codebook.
pub open spec fn has_codewords(
    books: Codebooks,
    family: PixelFamily,
    decorrelate: bool,
    body: Seq<u8>,
) -> bool {
    forall|i: int|
        0 <= i < body.len() ==> books.slot(slot_of(family, decorrelate, i))[#[trigger] body[i] as int].length
            > 0
}

/// `i` is the first residual without a codeword.
pub open spec fn is_first_uncoded(
    books: Codebooks,
    family: PixelFamily,
    decorrelate: bool,
    body: Seq<u8>,
    i: int,
) -> bool {
    &&& 0 <= i < body.len()
    &&& books.slot(slot_of(family, decorrelate, i))[body[i] as int].length == 0
    &&& forall|k: int|
        0 <= k < i ==> books.slot(slot_of(family, decorrelate, k))[#[trigger] body[k] as int].length
            > 0
}

/// The codewords of the residuals, one after another.
pub open spec fn code_stream(
    books: Codebooks,
    family: PixelFamily,
    decorrelate: bool,
    body: Seq<u8>,
) -> Seq<bool>
    decreases body.len(),
{
    if body.len() == 0 {
        Seq::empty()
    } else {
        let e = books.slot(slot_of(family, decorrelate, body.len() - 1))[body.last() as int];
        code_stream(books, family, decorrelate, body.drop_last()) + top_bits(
            e.code,
            e.length as nat,
        )
    }
}

/// The bytes of a field: the four uncompressed ones, and the packed codewords of
/// its residuals.
pub open spec fn is_coded_field(
    books: Codebooks,
    family: PixelFamily,
    decorrelate: bool,
    seed: Seq<u8>,
    body: Seq<u8>,
    out: Seq<u8>,
) -> bool {
    &&& out.len() >= 4
    &&& out.subrange(0, 4) == seed
    &&& packs(out.subrange(4, out.len() as int), code_stream(books, family, decorrelate, body))
}

/// The entries of three tables.
pub open spec fn books_of(s1: HuffTable, s2: HuffTable, s3: HuffTable) -> Codebooks {
    Codebooks { first: s1@, second: s2@, third: s3@ }
}

/// Looks for residuals without a codeword.
pub fn verify_body_in_table(
    family: PixelFamily,
    method: Method,
    body: &[u8],
    s1: &HuffTable,
    s2: &HuffTable,
    s3: &HuffTable,
) -> (r: Result<()>)
    ensures
        r is Ok <==> has_codewords(books_of(*s1, *s2, *s3), family, method.decorrelates(), body@),
        r matches Err(e) ==> exists|i: int| #[trigger]
            is_first_uncoded(books_of(*s1, *s2, *s3), family, method.decorrelates(), body@, i) && (
            e matches Error::Unsupported(m) && m@ == with_hex(
                "v1.x compat: residual symbol 0x"@,
                body@[i],
                " not in v1.x codebook"@,
            )),
{
    let decorrelate: bool = method.decorrelate();
    let len: usize = body.len();
    let mut i: usize = 0;
    while i < len
        invariant
            i <= len,
            len == body@.len(),
            decorrelate == method.decorrelates(),
            forall|k: int|
                0 <= k < i ==> books_of(*s1, *s2, *s3).slot(
                    slot_of(family, decorrelate, k),
                )[#[trigger] body@[k] as int].length > 0,
        decreases len - i,
    {
        let entry = match slot_at(family, decorrelate, i) {
            Slot::First => s1.entry(body[i]),
            Slot::Second => s2.entry(body[i]),
            Slot::Third => s3.entry(body[i]),
        };
        if entry.length == 0 {
            proof {
                let k = i as int;
                assert(is_first_uncoded(books_of(*s1, *s2, *s3), family, decorrelate, body@, k));
            }
            let text: String = text_with_hex(
                "v1.x compat: residual symbol 0x",
                body[i],
                " not in v1.x codebook",
            );
            return Err(Error::Unsupported(text));
        }
        i = i + 1;
    }
    Ok(())
}

/// The codeword of a symbol, and its length.
pub fn lookup_code(table: &HuffTable, sym: u8) -> (r: Result<(u32, u32)>)
    ensures
        r is Ok <==> table@[sym as int].length > 0,
        r matches Ok((code, n)) ==> code == table@[sym as int].code && n
            == table@[sym as int].length,
        r matches Err(e) ==> (e matches Error::InvalidData(m) && m@ == with_hex(
            "encoder: symbol 0x"@,
            sym,
            " not in Huffman table"@,
        )),
{
    let entry: HuffEntry = table.entry(sym);
    if entry.length == 0 {
        let text: String = text_with_hex("encoder: symbol 0x", sym, " not in Huffman table");
        return Err(Error::InvalidData(text));
    }
    Ok((entry.code, entry.length as u32))
}

/// The bytes of a field. Fails where a residual has no codeword.
pub fn emit_bitstream_parts(
    family: PixelFamily,
    method: Method,
    seed: &[u8; 4],
    body: &[u8],
    slot1: &HuffTable,
    slot2: &HuffTable,
    slot3: &HuffTable,
) -> (r: Result<Vec<u8>>)
    requires
        slot1.wf(),
        slot2.wf(),
        slot3.wf(),
    ensures
        r is Ok <==> has_codewords(
            books_of(*slot1, *slot2, *slot3),
            family,
            method.decorrelates(),
            body@,
        ),
        r matches Ok(out) ==> is_coded_field(
            books_of(*slot1, *slot2, *slot3),
            family,
            method.decorrelates(),
            seed@,
            body@,
            out@,
        ),
        r matches Err(e) ==> e is InvalidData,
{
    let ghost books = books_of(*slot1, *slot2, *slot3);
    let decorrelate: bool = method.decorrelate();
    let len: usize = body.len();
    let mut writer = BitWriter::new();
    let mut i: usize = 0;
    proof {
        assert(body@.take(0) =~= Seq::<u8>::empty());
        slot1.lemma_wf();
        slot2.lemma_wf();
        slot3.lemma_wf();
    }
    while i < len
        invariant
            i <= len,
            len == body@.len(),
            decorrelate == method.decorrelates(),
            writer.wf(),
            books == books_of(*slot1, *slot2, *slot3),
            entries_wf(slot1@),
            entries_wf(slot2@),
            entries_wf(slot3@),
            writer.bits() == code_stream(books, family, decorrelate, body@.take(i as int)),
            forall|k: int|
                0 <= k < i ==> books.slot(
                    slot_of(family, decorrelate, k),
                )[#[trigger] body@[k] as int].length > 0,
        decreases len - i,
    {
        let sym: u8 = body[i];
        let slot = slot_at(family, decorrelate, i);
        let ghost e = books.slot(slot)[sym as int];
        let found = match slot {
            Slot::First => lookup_code(slot1, sym),
            Slot::Second => lookup_code(slot2, sym),
            Slot::Third => lookup_code(slot3, sym),
        };
        let (code, n) = match found {
            Ok(pair) => pair,
            Err(err) => {
                proof {
                    let k = i as int;
                    assert(books.slot(slot_of(family, decorrelate, k))[body@[k] as int].length
                        == 0);
                }
                return Err(err);
            },
        };
        proof {
            assert(entry_wf(e));
            assert forall|j: int| n <= j < 32 implies !bit32(code, j) by {
                lemma_entry_low_bits(e, j);
            }
            let next = body@.take(i + 1);
            assert(next.drop_last() =~= body@.take(i as int));
            assert(next.last() == sym);
        }
        writer.write_msb(code, n);
        i = i + 1;
    }
    proof {
        assert(body@.take(len as int) =~= body@);
    }
    let mut packed: Vec<u8> = writer.finish();
    let ghost bits = packed@;
    let mut out: Vec<u8> = Vec::new();
    out.extend_from_slice(seed);
    out.append(&mut packed);
    proof {
        assert(out@ =~= seed@ + bits);
        assert(out@.subrange(0, 4) =~= seed@);
        assert(out@.subrange(4, out@.len() as int) =~= bits);
    }
    Ok(out)
}

} // verus!
