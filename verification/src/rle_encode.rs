//! Run-length encoding of code-length tables, the mirror image of
//! [`crate::rle::decode_lengths`].

use vstd::prelude::*;

use crate::rle::{expand, repeated, run_at};

verus! {

/// How many symbols from `i` on, up to `cap`, share symbol `i`'s value.
pub open spec fn run_length(lens: Seq<u8>, i: int, cap: int) -> int
    decreases cap,
{
    if i >= lens.len() || cap <= 0 {
        0
    } else if i + 1 < lens.len() && lens[i + 1] % 32 == lens[i] % 32 {
        1 + run_length(lens, i + 1, cap - 1)
    } else {
        1
    }
}

/// The bytes of one run.
pub open spec fn run_bytes(v: u8, count: int) -> Seq<u8> {
    if count < 8 {
        seq![(v + 32 * count) as u8]
    } else {
        seq![v, count as u8]
    }
}

/// The encoded form of the lengths from `i` on: maximal runs of at most 255.
pub open spec fn compress_from(lens: Seq<u8>, i: int) -> Seq<u8>
    decreases lens.len() - i,
    via compress_from_decreases
{
    if i >= lens.len() {
        Seq::empty()
    } else {
        let count = run_length(lens, i, 255);
        run_bytes(lens[i] % 32, count) + compress_from(lens, i + count)
    }
}

/// The encoded form of a length table.
pub open spec fn compress(lens: Seq<u8>) -> Seq<u8> {
    compress_from(lens, 0)
}

#[via_fn]
proof fn compress_from_decreases(lens: Seq<u8>, i: int) {
    if i < lens.len() {
        lemma_run_length(lens, i, 255);
    }
}

/// A run is not empty, does not pass the end of the table or the cap, and all
/// of it carries one value.
pub proof fn lemma_run_length(lens: Seq<u8>, i: int, cap: int)
    requires
        i < lens.len(),
        cap > 0,
    ensures
        1 <= run_length(lens, i, cap) <= cap,
        i + run_length(lens, i, cap) <= lens.len(),
        forall|k: int|
            i <= k < i + run_length(lens, i, cap) ==> #[trigger] lens[k] % 32 == lens[i] % 32,
    decreases cap,
{
    if i + 1 < lens.len() && lens[i + 1] % 32 == lens[i] % 32 && cap > 1 {
        lemma_run_length(lens, i + 1, cap - 1);
    } else if cap == 1 {
        assert(run_length(lens, i + 1, 0) == 0);
    }
}

/// A run that could be longer is longer.
proof fn lemma_run_length_from(lens: Seq<u8>, i: int, cap: int, run: int)
    requires
        0 <= i,
        1 <= run <= cap,
        i + run <= lens.len(),
        forall|k: int| i <= k < i + run ==> #[trigger] lens[k] % 32 == lens[i] % 32,
        run == cap || i + run == lens.len() || lens[i + run] % 32 != lens[i] % 32,
    ensures
        run_length(lens, i, cap) == run,
    decreases cap,
{
    if run > 1 {
        assert(lens[i + 1] % 32 == lens[i] % 32);
        lemma_run_length_from(lens, i + 1, cap - 1, run - 1);
    } else if cap > 1 && i + 1 < lens.len() {
        assert(lens[i + 1] % 32 != lens[i] % 32);
    } else if cap == 1 {
        assert(run_length(lens, i + 1, 0) == 0);
    }
}

/// The encoded form is no longer than the lengths.
pub proof fn law_compress_not_longer(lens: Seq<u8>, i: int)
    requires
        0 <= i <= lens.len(),
    ensures
        compress_from(lens, i).len() <= lens.len() - i,
    decreases lens.len() - i,
{
    if i < lens.len() {
        lemma_run_length(lens, i, 255);
        law_compress_not_longer(lens, i + run_length(lens, i, 255));
    }
}

/// The bytes that `n` equal lengths take.
spec fn run_cost(n: int) -> int {
    2 * (n / 255) + (if n % 255 == 0 {
        0int
    } else if n % 255 < 8 {
        1
    } else {
        2
    })
}

/// The `n` lengths from `i` on are equal, and the next one, if any, is not.
spec fn is_whole_run(lens: Seq<u8>, i: int, n: int) -> bool {
    &&& 0 <= i
    &&& 0 <= n
    &&& i + n <= lens.len()
    &&& forall|k: int| i <= k < i + n ==> #[trigger] lens[k] % 32 == lens[i] % 32
    &&& n > 0 && i + n < lens.len() ==> lens[i + n] % 32 != lens[i] % 32
}

/// Equal lengths take as many bytes as their number says.
proof fn lemma_run_cost(lens: Seq<u8>, i: int, n: int)
    requires
        is_whole_run(lens, i, n),
    ensures
        compress_from(lens, i).len() == run_cost(n) + compress_from(lens, i + n).len(),
    decreases n,
{
    if n > 0 {
        let count = if n < 255 {
            n
        } else {
            255
        };
        assert(lens[i + n - 1] % 32 == lens[i] % 32);
        if count < n {
            assert(lens[i + count] % 32 == lens[i] % 32);
        }
        lemma_run_length_from(lens, i, 255, count);
        lemma_run_cost(lens, i + count, n - count);
        assert(run_cost(n) == (if count < 8 {
            1int
        } else {
            2
        }) + run_cost(n - count));
    }
}

/// The lengths equal to the one at `i` that follow it.
proof fn lemma_whole_run(lens: Seq<u8>, i: int) -> (n: int)
    requires
        0 <= i < lens.len(),
    ensures
        n >= 1,
        is_whole_run(lens, i, n),
    decreases lens.len() - i,
{
    if i + 1 < lens.len() && lens[i + 1] % 32 == lens[i] % 32 {
        let m = lemma_whole_run(lens, i + 1);
        assert forall|k: int| i <= k < i + 1 + m implies #[trigger] lens[k] % 32 == lens[i]
            % 32 by {}
        m + 1
    } else {
        1
    }
}

/// Taking a shorter run first saves nothing.
proof fn lemma_short_run(n: int, c: int)
    requires
        1 <= c <= n,
        c <= 255,
    ensures
        run_cost(n) <= (if c < 8 {
            1int
        } else {
            2
        }) + run_cost(n - c),
{
    let (q, r) = (n / 255, n % 255);
    if c <= r {
        assert((n - c) / 255 == q && (n - c) % 255 == r - c);
    } else {
        assert((n - c) / 255 == q - 1 && (n - c) % 255 == r - c + 255);
    }
}

/// Runs that hold the lengths from `i` on take no fewer bytes than their encoded
/// form.
proof fn lemma_no_shorter(lens: Seq<u8>, i: int, src: Seq<u8>, pos: int)
    requires
        0 <= i <= lens.len(),
        0 <= pos <= src.len(),
    ensures
        expand(src, pos, lens.len() - i) matches Some((found, end)) ==> (found == low_five(
            lens,
        ).subrange(i, lens.len() as int) ==> compress_from(lens, i).len() <= end - pos),
    decreases src.len() - pos,
{
    let n = lens.len() as int;
    let want = low_five(lens).subrange(i, n);
    let runs = expand(src, pos, n - i);
    let (found, end) = runs.unwrap();
    if i < n && runs is Some && found == want {
        let (v, c, next) = run_at(src, pos).unwrap();
        let (rest, _) = expand(src, next, n - i - c).unwrap();
        crate::rle::lemma_expand_shape(src, next, n - i - c);
        assert(found == repeated(v, c as nat) + rest);
        assert(rest =~= low_five(lens).subrange(i + c, n)) by {
            assert forall|k: int| 0 <= k < rest.len() implies rest[k] == low_five(lens)[i + c
                + k] by {
                assert(rest[k] == found[c + k]);
                assert(want[c + k] == low_five(lens)[i + c + k]);
            }
        }
        lemma_no_shorter(lens, i + c, src, next);
        if c > 0 {
            assert forall|k: int| i <= k < i + c implies #[trigger] lens[k] % 32 == v by {
                assert(found[k - i] == v);
                assert(want[k - i] == low_five(lens)[k]);
            }
            let whole = lemma_whole_run(lens, i);
            if whole < c {
                assert(lens[i + whole] % 32 == v && lens[i] % 32 == v);
            }
            assert(is_whole_run(lens, i + c, whole - c)) by {
                if c < whole {
                    assert(lens[i + c] % 32 == lens[i] % 32);
                }
            }
            lemma_run_cost(lens, i, whole);
            lemma_run_cost(lens, i + c, whole - c);
            lemma_short_run(whole, c);
        }
    }
}

/// The encoded form is the shortest: no bytes that hold the same lengths are
/// fewer.
pub proof fn law_compress_shortest(lens: Seq<u8>, src: Seq<u8>)
    ensures
        expand(src, 0, lens.len() as int) matches Some((found, end)) ==> (found == low_five(lens)
            ==> compress(lens).len() <= end <= src.len()),
{
    if let Some((found, end)) = expand(src, 0, lens.len() as int) {
        crate::rle::lemma_expand_shape(src, 0, lens.len() as int);
        assert(low_five(lens).subrange(0, lens.len() as int) =~= low_five(lens));
        lemma_no_shorter(lens, 0, src, 0);
    }
}

/// Encodes a length table; only the low five bits of each length count.
pub fn encode_lengths(lengths: &[u8]) -> (out: Vec<u8>)
    ensures
        out@ == compress(lengths@),
{
    let mut out: Vec<u8> = Vec::new();
    let n: usize = lengths.len();
    let mut i: usize = 0;
    while i < n
        invariant
            n == lengths@.len(),
            i <= n,
            out@ + compress_from(lengths@, i as int) =~= compress(lengths@),
        decreases n - i,
    {
        let v: u8 = lengths[i] % 32;
        let mut run: usize = 1;
        while run < 255 && run < n - i && lengths[i + run] % 32 == v
            invariant
                n == lengths@.len(),
                i < n,
                1 <= run <= 255,
                run <= n - i,
                v == lengths@[i as int] % 32,
                forall|k: int| i <= k < i + run ==> #[trigger] lengths@[k] % 32 == v,
            decreases 255 - run,
        {
            run = run + 1;
        }
        proof {
            lemma_run_length_from(lengths@, i as int, 255, run as int);
        }
        let ghost before = out@;
        if run < 8 {
            out.push(v + 32 * (run as u8));
        } else {
            out.push(v);
            out.push(run as u8);
        }
        assert(out@ =~= before + run_bytes(v, run as int));
        i = i + run;
    }
    out
}

/// The length table with each length cut to its low five bits.
pub open spec fn low_five(lens: Seq<u8>) -> Seq<u8> {
    lens.map_values(|l: u8| (l % 32) as u8)
}

/// Decoding an encoded length table gives the table back, each length cut to
/// its low five bits, and reads exactly the encoded bytes, whatever comes
/// before or after them.
pub proof fn law_expand_compress(lens: Seq<u8>, before: Seq<u8>, after: Seq<u8>)
    ensures
        expand(before + compress(lens) + after, before.len() as int, lens.len() as int) == Some(
            (low_five(lens), (before.len() + compress(lens).len()) as int),
        ),
{
    lemma_expand_compress_from(lens, 0, before, after);
    assert(low_five(lens).subrange(0, lens.len() as int) =~= low_five(lens));
}

proof fn lemma_expand_compress_from(lens: Seq<u8>, i: int, before: Seq<u8>, after: Seq<u8>)
    requires
        0 <= i <= lens.len(),
    ensures
        expand(before + compress_from(lens, i) + after, before.len() as int, lens.len() - i) == Some(
            (
                low_five(lens).subrange(i, lens.len() as int),
                (before.len() + compress_from(lens, i).len()) as int,
            ),
        ),
    decreases lens.len() - i,
{
    let src = before + compress_from(lens, i) + after;
    let pos = before.len() as int;
    if i >= lens.len() {
        assert(low_five(lens).subrange(i, lens.len() as int) =~= Seq::<u8>::empty());
    } else {
        let count = run_length(lens, i, 255);
        lemma_run_length(lens, i, 255);
        let v = lens[i] % 32;
        let bytes = run_bytes(v, count);
        let rest = compress_from(lens, i + count);
        assert(src =~= (before + bytes) + rest + after);
        lemma_expand_compress_from(lens, i + count, before + bytes, after);
        assert(src[pos] == bytes[0]);
        if count < 8 {
            assert(bytes[0] == v + 32 * count);
            assert((v + 32 * count) / 32 == count && (v + 32 * count) % 32 == v as int);
        } else {
            assert(src[pos + 1] == bytes[1]);
        }
        assert(run_at(src, pos) == Some((v, count, pos + bytes.len())));
        assert(repeated(v, count as nat) + low_five(lens).subrange(i + count, lens.len() as int)
            =~= low_five(lens).subrange(i, lens.len() as int)) by {
            assert forall|k: int| i <= k < i + count implies #[trigger] low_five(lens)[k] == v by {
                assert(lens[k] % 32 == lens[i] % 32);
            }
        }
    }
}

} // verus!
