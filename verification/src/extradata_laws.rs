//! What codec-private extradata says, byte by byte.

use vstd::prelude::*;
use vstd::arithmetic::power2::pow2;

use crate::extradata::{
    length_tables, parse_extradata, FormatVersion, InterlaceMode, Predictor, V2Colorspace,
};
use crate::rle::expand;
use crate::tally::tally;

verus! {

/// The first byte holds the predictor in its low six bits and the decorrelation
/// flag in the next one. The version byte, the fourth, tells what the second and
/// the third one mean: in version 0 the second is the number of bits per pixel; in
/// version 1 its low nibble holds the two chroma shifts, its high nibble the bits
/// per sample less one, and the low three bits of the third byte say which
/// planes there are. The third byte also holds the field mode in bits 4 and 5, and
/// in bit 6 whether frames bring their own tables.
pub proof fn law_extradata_bytes(src: Seq<u8>)
    ensures
        src.len() < 4 ==> parse_extradata(src) is None,
        parse_extradata(src) matches Some(x) ==> {
            &&& src[0] % 64 == (match x.predictor {
                Predictor::Left => 0,
                Predictor::Gradient => 1,
                Predictor::Median => 2int,
            })
            &&& x.decorrelate == (src[0] % 128 >= 64)
            &&& x.per_frame_tables == (src[2] % 128 >= 64)
            &&& match x.interlace {
                InterlaceMode::Interlaced => 16 <= src[2] % 64 < 32,
                InterlaceMode::Progressive => 32 <= src[2] % 64 < 48,
                InterlaceMode::AutoByHeight => src[2] % 64 < 16 || src[2] % 64 >= 48,
            }
            &&& match x.format {
                FormatVersion::V2(c) => {
                    &&& src[3] == 0
                    &&& src[1] == (match c {
                        V2Colorspace::Yuv420 => 12,
                        V2Colorspace::Yuv422 => 16,
                        V2Colorspace::Rgb24 => 24,
                        V2Colorspace::Bgra32 => 32int,
                    })
                    &&& x.tables.len() == 3
                },
                FormatVersion::V3(v) => {
                    &&& src[3] == 1
                    &&& v.bps >= 8
                    &&& v.chroma_h_shift < 4
                    &&& v.chroma_v_shift < 4
                    &&& src[1] == 16 * (v.bps - 1) + 4 * v.chroma_v_shift + v.chroma_h_shift
                    &&& v.yuv == (src[2] % 2 == 1)
                    &&& v.chroma == (src[2] % 4 > 0)
                    &&& v.alpha == (src[2] % 8 >= 4)
                    &&& x.tables.len() == (if v.chroma {
                        3int
                    } else {
                        1
                    }) + (if v.alpha {
                        1int
                    } else {
                        0
                    })
                },
            }
        },
{
    if src.len() >= 4 {
        if let Some(x) = parse_extradata(src) {
            lemma_table_count(src, 4, x.format.tables(), x.format.symbols());
        }
    }
}

/// As many tables are read as were asked for.
proof fn lemma_table_count(src: Seq<u8>, pos: int, count: nat, n: nat)
    ensures
        length_tables(src, pos, count, n) matches Some(tables) ==> tables.len() == count,
    decreases count,
{
    if count > 0 {
        if let Some((_, end)) = expand(src, pos, n as int) {
            lemma_table_count(src, end, (count - 1) as nat, n);
        }
    }
}

/// Tables stand one after another from a place on: `ends` holds the place of each
/// table, and the place behind the last one.
pub open spec fn stand_in_a_row(
    src: Seq<u8>,
    n: int,
    tables: Seq<Seq<u8>>,
    ends: Seq<int>,
) -> bool {
    &&& ends.len() == tables.len() + 1
    &&& forall|i: int|
        0 <= i < tables.len() ==> expand(src, ends[i], n) == Some(
            (#[trigger] tables[i], ends[i + 1]),
        )
}

/// Extradata is well-formed where its four bytes name a predictor and a layout and
/// the tables that the layout has follow, each with one length for every sample
/// value, up to 16384 of them, and each filling the code space. Those are then
/// its tables, in their order. Without such tables it is malformed. Bytes behind
/// the last table do not count.
pub proof fn law_extradata_tables(src: Seq<u8>, n: int)
    requires
        src.len() >= 4,
        src[0] % 64 <= 2,
        src[3] == 0 ==> (src[1] == 12 || src[1] == 16 || src[1] == 24 || src[1] == 32) && n == 256,
        src[3] != 0 ==> src[3] == 1 && src[1] >= 112 && n == pow2(
            if src[1] / 16 + 1 < 14 {
                (src[1] / 16 + 1) as nat
            } else {
                14
            },
        ),
    ensures
        forall|tables: Seq<Seq<u8>>, ends: Seq<int>| #[trigger]
            stand_in_a_row(src, n, tables, ends) && ends[0] == 4 && (forall|i: int|
                0 <= i < tables.len() ==> fills_code_space(#[trigger] tables[i]))
                && tables.len() == (if src[3] == 0 {
                3int
            } else {
                (if src[2] % 4 > 0 {
                    3int
                } else {
                    1
                }) + (if src[2] % 8 >= 4 {
                    1int
                } else {
                    0
                })
            }) ==> (parse_extradata(src) matches Some(x) && x.tables == tables),
        parse_extradata(src) matches Some(x) ==> (exists|ends: Seq<int>| #[trigger]
            stand_in_a_row(src, n, x.tables, ends) && ends[0] == 4) && forall|i: int|
            0 <= i < x.tables.len() ==> fills_code_space(#[trigger] x.tables[i]),
{
    vstd::arithmetic::power2::lemma2_to64();
    let count: nat = if src[3] == 0 {
        3
    } else {
        (1 + (if src[2] % 4 > 0 {
            2nat
        } else {
            0
        }) + (if src[2] % 8 >= 4 {
            1nat
        } else {
            0
        })) as nat
    };
    assert forall|tables: Seq<Seq<u8>>, ends: Seq<int>| #[trigger]
        stand_in_a_row(src, n, tables, ends) && ends[0] == 4 && (forall|i: int|
            0 <= i < tables.len() ==> fills_code_space(#[trigger] tables[i])) && tables.len()
            == count implies (parse_extradata(src) matches Some(x) && x.tables == tables) by {
        lemma_row_is_read(src, n as nat, tables, ends);
    }
    if let Some(x) = parse_extradata(src) {
        assert(x.format.tables() == count && x.format.symbols() == n);
        assert(length_tables(src, 4, count, n as nat) == Some(x.tables));
        lemma_read_is_row(src, 4, count, n as nat);
    }
}

/// Every length fits, and the codewords take up all of the code space.
pub open spec fn fills_code_space(lens: Seq<u8>) -> bool {
    &&& lens.len() > 0
    &&& forall|s: int| 0 <= s < lens.len() ==> #[trigger] lens[s] <= 32
    &&& tally(
        |s: int|
            if lens[s] == 0 {
                0
            } else {
                pow2((32 - lens[s]) as nat) as int
            },
        lens.len() as int,
    ) == pow2(32)
}

/// A table fills the code space where it describes a complete code.
proof fn lemma_fills(lens: Seq<u8>)
    ensures
        fills_code_space(lens) == crate::huffman::is_code(lens),
{
    vstd::arithmetic::power2::lemma2_to64();
    if forall|s: int| 0 <= s < lens.len() ==> #[trigger] lens[s] <= 32 {
        lemma_same_shares(lens, lens.len() as int);
    }
}

/// The shares of some symbols.
pub proof fn lemma_same_shares(lens: Seq<u8>, upto: int)
    requires
        0 <= upto <= lens.len(),
        forall|s: int| 0 <= s < lens.len() ==> #[trigger] lens[s] <= 32,
    ensures
        tally(
            |s: int|
                if lens[s] == 0 {
                    0
                } else {
                    pow2((32 - lens[s]) as nat) as int
                },
            upto,
        ) == tally(crate::canonical::all_shares(lens), upto),
    decreases upto,
{
    if upto > 0 {
        lemma_same_shares(lens, upto - 1);
        assert(lens[upto - 1] <= 32);
    }
}

/// Tables in a row are read.
proof fn lemma_row_is_read(src: Seq<u8>, n: nat, tables: Seq<Seq<u8>>, ends: Seq<int>)
    requires
        stand_in_a_row(src, n as int, tables, ends),
        forall|i: int| 0 <= i < tables.len() ==> fills_code_space(#[trigger] tables[i]),
    ensures
        length_tables(src, ends[0], tables.len(), n) == Some(tables),
    decreases tables.len(),
{
    if tables.len() > 0 {
        let (rest, more) = (tables.skip(1), ends.skip(1));
        assert(fills_code_space(tables[0]));
        lemma_fills(tables[0]);
        assert forall|i: int| 0 <= i < rest.len() implies expand(src, more[i], n as int) == Some(
            (#[trigger] rest[i], more[i + 1]),
        ) by {
            assert(rest[i] == tables[i + 1]);
        }
        assert forall|i: int| 0 <= i < rest.len() implies fills_code_space(
            #[trigger] rest[i],
        ) by {
            assert(rest[i] == tables[i + 1]);
        }
        lemma_row_is_read(src, n, rest, more);
        assert(seq![tables[0]] + rest =~= tables);
    } else {
        assert(tables =~= Seq::empty());
    }
}

/// What is read stands in a row.
proof fn lemma_read_is_row(src: Seq<u8>, pos: int, count: nat, n: nat)
    ensures
        length_tables(src, pos, count, n) matches Some(tables) ==> (exists|ends: Seq<int>|
            #[trigger]
            stand_in_a_row(src, n as int, tables, ends) && ends[0] == pos) && forall|i: int|
            0 <= i < tables.len() ==> fills_code_space(#[trigger] tables[i]),
    decreases count,
{
    if let Some(tables) = length_tables(src, pos, count, n) {
        if count == 0 {
            assert(stand_in_a_row(src, n as int, tables, seq![pos]));
        } else if let Some((lens, end)) = expand(src, pos, n as int) {
            lemma_read_is_row(src, end, (count - 1) as nat, n);
            lemma_fills(lens);
            if let Some(rest) = length_tables(src, end, (count - 1) as nat, n) {
                let more = choose|ends: Seq<int>| #[trigger]
                    stand_in_a_row(src, n as int, rest, ends) && ends[0] == end;
                let ends = seq![pos] + more;
                assert forall|i: int| 0 <= i < tables.len() implies expand(
                    src,
                    ends[i],
                    n as int,
                ) == Some((#[trigger] tables[i], ends[i + 1])) by {
                    if i > 0 {
                        assert(tables[i] == rest[i - 1]);
                    }
                }
                assert(stand_in_a_row(src, n as int, tables, ends));
                assert forall|i: int| 0 <= i < tables.len() implies fills_code_space(
                    #[trigger] tables[i],
                ) by {
                    if i > 0 {
                        assert(tables[i] == rest[i - 1]);
                    }
                }
            }
        }
    }
}

} // verus!
