//! Built-in length tables for streams with extradata.
//!
//! Each pair of pixel family and method has a default set of three length
//! tables, one per channel slot, chosen by how widely the channel's residuals
//! are expected to spread.

use vstd::prelude::*;
use vstd::arithmetic::power2::lemma2_to64;

use crate::canonical::{all_shares, code_width, kraft_sum, CODE_SPACE};
use crate::header::{Method, PixelFamily};
use crate::rle::{expand, lemma_expand_shape, repeated, run_at};
use crate::tables::{lengths_ok, three_lengths};
use crate::tally::{lemma_tally_const, lemma_tally_same};

verus! {

/// Run-length coded code lengths for sharply peaked residuals.
pub const NARROW: [u8; 31] = [
    34, 67, 36, 69, 38, 71, 40, 41, 74, 43, 44, 77, 46, 79, 144, 17,
    210, 112, 79, 46, 77, 44, 43, 74, 41, 72, 39, 70, 37, 68, 35,
];

/// Run-length coded code lengths for moderately spread residuals.
pub const MEDIUM: [u8; 36] = [
    67, 68, 101, 102, 103, 104, 105, 106, 107, 76, 109, 110, 111, 112, 177, 18,
    48, 19, 74, 18, 47, 177, 112, 111, 110, 109, 76, 107, 106, 105, 104, 103,
    102, 101, 68, 35,
];

/// Run-length coded code lengths for widely spread residuals.
pub const WIDE: [u8; 38] = [
    100, 197, 166, 199, 168, 201, 170, 171, 204, 205, 206, 175, 208, 241, 18, 8,
    19, 16, 20, 56, 19, 16, 18, 8, 209, 208, 207, 174, 205, 204, 171, 202,
    169, 200, 167, 198, 165, 68,
];

/// `c` codewords of `l` bits cover this share of the code space.
pub open spec fn total_share(c: int, l: int) -> int {
    if l == 1 {
        c * 0x80000000
    } else if l == 2 {
        c * 0x40000000
    } else if l == 3 {
        c * 0x20000000
    } else if l == 4 {
        c * 0x10000000
    } else if l == 5 {
        c * 0x8000000
    } else if l == 6 {
        c * 0x4000000
    } else if l == 7 {
        c * 0x2000000
    } else if l == 8 {
        c * 0x1000000
    } else if l == 9 {
        c * 0x800000
    } else if l == 10 {
        c * 0x400000
    } else if l == 11 {
        c * 0x200000
    } else if l == 12 {
        c * 0x100000
    } else if l == 13 {
        c * 0x80000
    } else if l == 14 {
        c * 0x40000
    } else if l == 15 {
        c * 0x20000
    } else if l == 16 {
        c * 0x10000
    } else if l == 17 {
        c * 0x8000
    } else if l == 18 {
        c * 0x4000
    } else if l == 19 {
        c * 0x2000
    } else if l == 20 {
        c * 0x1000
    } else if l == 21 {
        c * 0x800
    } else if l == 22 {
        c * 0x400
    } else if l == 23 {
        c * 0x200
    } else if l == 24 {
        c * 0x100
    } else if l == 25 {
        c * 0x80
    } else if l == 26 {
        c * 0x40
    } else if l == 27 {
        c * 0x20
    } else if l == 28 {
        c * 0x10
    } else if l == 29 {
        c * 0x8
    } else if l == 30 {
        c * 0x4
    } else if l == 31 {
        c * 0x2
    } else {
        0
    }
}

/// The share of the code space that the `n` lengths coded from `pos` on cover,
/// and the position behind their last run; none where a length is zero.
pub open spec fn runs_share(src: Seq<u8>, pos: int, n: int) -> Option<(int, int)>
    decreases src.len() - pos,
{
    if n <= 0 {
        Some((0, pos))
    } else {
        match run_at(src, pos) {
            None => None,
            Some((v, count, next)) => if count > n || v == 0 {
                None
            } else {
                match runs_share(src, next, n - count) {
                    None => None,
                    Some((share, end)) => Some((total_share(count, v as int) + share, end)),
                }
            },
        }
    }
}

/// A sum over two sequences laid end to end is the sum of the sums.
proof fn lemma_kraft_concat(a: Seq<u8>, b: Seq<u8>)
    ensures
        kraft_sum(a + b) == kraft_sum(a) + kraft_sum(b),
    decreases b.len(),
{
    if b.len() == 0 {
        assert(a + b =~= a);
    } else {
        let c = b.drop_last();
        lemma_kraft_concat(a, c);
        let n = b.len() - 1;
        lemma_tally_same(all_shares(a + b), all_shares(a + c), a.len() + n);
        lemma_tally_same(all_shares(b), all_shares(c), n as int);
    }
}

/// The share of a run.
proof fn lemma_kraft_repeated(v: u8, c: nat)
    requires
        v < 32,
    ensures
        kraft_sum(repeated(v, c)) == total_share(c as int, v as int),
{
    lemma_tally_const(all_shares(repeated(v, c)), c as int, code_width(v as int));
    lemma2_to64();
    let w = code_width(v as int);
    let n = c as int;
    assert(total_share(1, v as int) == w);
    assert(total_share(n, v as int) == n * w) by (nonlinear_arith)
        requires
            total_share(1, v as int) == w,
            0 <= v < 32,
    ;
}

/// Every symbol has a codeword.
pub open spec fn has_all(lens: Seq<u8>) -> bool {
    forall|s: int| 0 <= s < lens.len() ==> #[trigger] lens[s] > 0
}

/// [`runs_share`] is the share of what [`expand`] gives.
proof fn lemma_runs_share(src: Seq<u8>, pos: int, n: int)
    requires
        0 <= pos <= src.len(),
        n >= 0,
    ensures
        runs_share(src, pos, n) matches Some((share, end)) ==> (expand(src, pos, n) matches Some(
            (lens, e),
        ) && e == end && kraft_sum(lens) == share && has_all(lens)),
    decreases src.len() - pos,
{
    if n > 0 {
        if let Some((v, count, next)) = run_at(src, pos) {
            if count <= n {
                lemma_runs_share(src, next, n - count);
                if let Some((rest, end)) = expand(src, next, n - count) {
                    lemma_kraft_repeated(v, count as nat);
                    lemma_kraft_concat(repeated(v, count as nat), rest);
                }
            }
        }
    }
}

/// What the runs of a table say does not depend on what stands around it.
pub proof fn lemma_expand_inside(
    before: Seq<u8>,
    src: Seq<u8>,
    after: Seq<u8>,
    pos: int,
    n: int,
)
    requires
        0 <= pos <= src.len(),
        expand(src, pos, n) is Some,
    ensures
        expand(src, pos, n) matches Some((lens, end)) && expand(
            before + src + after,
            before.len() + pos,
            n,
        ) == Some((lens, before.len() + end)),
    decreases src.len() - pos,
{
    let all = before + src + after;
    if n > 0 {
        assert(all[before.len() + pos] == src[pos]);
        if let Some((v, count, next)) = run_at(src, pos) {
            if next == pos + 2 {
                assert(all[before.len() + pos + 1] == src[pos + 1]);
            }
            lemma_expand_inside(before, src, after, next, n - count);
        }
    }
}

proof fn lemma_narrow()
    ensures
        runs_share(NARROW@, 0, 256) == Some((CODE_SPACE as int, NARROW@.len() as int)),
{
    let src = NARROW@;
    assert(runs_share(src, 25, 9) == Some((0x54000000int, 31int))) by {
        reveal_with_fuel(runs_share, 10);
    }
    assert(runs_share(src, 17, 22) == Some((0x554b0000int, 31int))) by {
        reveal_with_fuel(runs_share, 10);
    }
    assert(runs_share(src, 8, 245) == Some((0x56800000int, 31int))) by {
        reveal_with_fuel(runs_share, 10);
    }
    assert(runs_share(src, 0, 256) == Some((0x100000000int, 31int))) by {
        reveal_with_fuel(runs_share, 10);
    }
}

proof fn lemma_medium()
    ensures
        runs_share(MEDIUM@, 0, 256) == Some((CODE_SPACE as int, MEDIUM@.len() as int)),
{
    let src = MEDIUM@;
    assert(runs_share(src, 35, 1) == Some((0x20000000int, 36int))) by {
        reveal_with_fuel(runs_share, 10);
    }
    assert(runs_share(src, 27, 24) == Some((0x6fa00000int, 36int))) by {
        reveal_with_fuel(runs_share, 10);
    }
    assert(runs_share(src, 17, 164) == Some((0x70048000int, 36int))) by {
        reveal_with_fuel(runs_share, 10);
    }
    assert(runs_share(src, 8, 234) == Some((0x70c00000int, 36int))) by {
        reveal_with_fuel(runs_share, 10);
    }
    assert(runs_share(src, 0, 256) == Some((0x100000000int, 36int))) by {
        reveal_with_fuel(runs_share, 10);
    }
}

proof fn lemma_wide()
    ensures
        runs_share(WIDE@, 0, 256) == Some((CODE_SPACE as int, WIDE@.len() as int)),
{
    let src = WIDE@;
    assert(runs_share(src, 37, 2) == Some((0x20000000int, 38int))) by {
        reveal_with_fuel(runs_share, 10);
    }
    assert(runs_share(src, 29, 46) == Some((0x75000000int, 38int))) by {
        reveal_with_fuel(runs_share, 10);
    }
    assert(runs_share(src, 18, 155) == Some((0x75608000int, 38int))) by {
        reveal_with_fuel(runs_share, 10);
    }
    assert(runs_share(src, 8, 215) == Some((0x76200000int, 38int))) by {
        reveal_with_fuel(runs_share, 10);
    }
    assert(runs_share(src, 0, 256) == Some((0x100000000int, 38int))) by {
        reveal_with_fuel(runs_share, 10);
    }
}

/// A channel's default length table.
pub open spec fn is_default(table: Seq<u8>) -> bool {
    table == NARROW@ || table == MEDIUM@ || table == WIDE@
}

/// A default length table codes a complete code, and nothing beyond it.
proof fn lemma_default(table: Seq<u8>)
    requires
        is_default(table),
    ensures
        expand(table, 0, 256) matches Some((lens, end)) && end == table.len() && lengths_ok(lens)
            && has_all(lens),
{
    lemma_narrow();
    lemma_medium();
    lemma_wide();
    lemma_runs_share(table, 0, 256);
    lemma_expand_shape(table, 0, 256);
}

/// The three default length tables for a pixel family and method.
pub open spec fn classic_parts(family: PixelFamily, method: Method) -> (Seq<u8>, Seq<u8>, Seq<u8>) {
    if family.rgb() {
        match method {
            Method::LeftDecorr => (NARROW@, WIDE@, NARROW@),
            Method::GradientDecorr => (NARROW@, MEDIUM@, NARROW@),
            _ => (WIDE@, WIDE@, WIDE@),
        }
    } else {
        match method {
            Method::Gradient => (MEDIUM@, NARROW@, NARROW@),
            Method::Median => (WIDE@, NARROW@, NARROW@),
            _ => (WIDE@, MEDIUM@, MEDIUM@),
        }
    }
}

/// The default length tables for a pixel family and method, one after another.
pub open spec fn classic_blob(family: PixelFamily, method: Method) -> Seq<u8> {
    let (a, b, c) = classic_parts(family, method);
    a + b + c
}

/// The default length tables decode to three complete codes with a codeword for
/// every symbol.
pub proof fn lemma_classic_blob(family: PixelFamily, method: Method)
    ensures
        three_lengths(classic_blob(family, method)) matches Some((l1, l2, l3)) && lengths_ok(l1)
            && lengths_ok(l2) && lengths_ok(l3) && has_all(l1) && has_all(l2) && has_all(l3),
        classic_blob(family, method).len() > 0,
        classic_blob(family, method).len() < 1000,
{
    let (a, b, c) = classic_parts(family, method);
    let blob = classic_blob(family, method);
    lemma_default(a);
    lemma_default(b);
    lemma_default(c);
    assert(blob =~= Seq::<u8>::empty() + a + (b + c));
    lemma_expand_inside(Seq::empty(), a, b + c, 0, 256);
    lemma_expand_inside(a, b, c, 0, 256);
    assert(blob =~= (a + b) + c + Seq::<u8>::empty());
    lemma_expand_inside(a + b, c, Seq::empty(), 0, 256);
}

/// The default length tables for a pixel family and method, run-length coded
/// one after another.
pub fn classic_blob_bytes(family: PixelFamily, method: Method) -> (blob: Vec<u8>)
    ensures
        blob@ == classic_blob(family, method),
{
    let mut blob: Vec<u8> = Vec::new();
    if family.is_rgb() {
        match method {
            Method::LeftDecorr => {
                blob.extend_from_slice(&NARROW);
                blob.extend_from_slice(&WIDE);
                blob.extend_from_slice(&NARROW);
            },
            Method::GradientDecorr => {
                blob.extend_from_slice(&NARROW);
                blob.extend_from_slice(&MEDIUM);
                blob.extend_from_slice(&NARROW);
            },
            _ => {
                blob.extend_from_slice(&WIDE);
                blob.extend_from_slice(&WIDE);
                blob.extend_from_slice(&WIDE);
            },
        }
    } else {
        match method {
            Method::Gradient => {
                blob.extend_from_slice(&MEDIUM);
                blob.extend_from_slice(&NARROW);
                blob.extend_from_slice(&NARROW);
            },
            Method::Median => {
                blob.extend_from_slice(&WIDE);
                blob.extend_from_slice(&NARROW);
                blob.extend_from_slice(&NARROW);
            },
            _ => {
                blob.extend_from_slice(&WIDE);
                blob.extend_from_slice(&MEDIUM);
                blob.extend_from_slice(&MEDIUM);
            },
        }
    }
    assert(blob@ =~= classic_blob(family, method));
    blob
}

} // verus!
