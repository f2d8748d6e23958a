//! Run-length decoding of code-length tables.
//!
//! A table is a sequence of runs. The low five bits of a byte are the length
//! value; its high three bits are the run count, or zero where the count (which
//! may itself be zero) is the byte that follows.

use vstd::prelude::*;

use crate::error::{Error, Result};

verus! {

/// `n` times the value `v`.
pub open spec fn repeated(v: u8, n: nat) -> Seq<u8> {
    Seq::new(n, |i: int| v)
}

/// The run at `pos`: its value, its count, and the position behind it.
pub open spec fn run_at(src: Seq<u8>, pos: int) -> Option<(u8, int, int)> {
    if pos >= src.len() {
        None
    } else if src[pos] / 32 != 0 {
        Some((src[pos] % 32, (src[pos] / 32) as int, pos + 1))
    } else if pos + 1 >= src.len() {
        None
    } else {
        Some((src[pos] % 32, src[pos + 1] as int, pos + 2))
    }
}

/// The `n` lengths that the runs from `pos` on hold, and the position behind
/// the last run. `None` where the runs end early or overshoot `n`.
pub open spec fn expand(src: Seq<u8>, pos: int, n: int) -> Option<(Seq<u8>, int)>
    decreases src.len() - pos,
{
    if n <= 0 {
        Some((Seq::empty(), pos))
    } else {
        match run_at(src, pos) {
            None => None,
            Some((v, count, next)) => if count > n {
                None
            } else {
                match expand(src, next, n - count) {
                    None => None,
                    Some((rest, end)) => Some((repeated(v, count as nat) + rest, end)),
                }
            },
        }
    }
}

/// What [`expand`] gives back has the number of lengths asked for, each below
/// 32, and a position within the source.
pub proof fn lemma_expand_shape(src: Seq<u8>, pos: int, n: int)
    requires
        0 <= pos <= src.len(),
        n >= 0,
    ensures
        expand(src, pos, n) matches Some((lens, end)) ==> lens.len() == n && pos <= end <= src.len()
            && (forall|i: int| 0 <= i < n ==> #[trigger] lens[i] < 32),
    decreases src.len() - pos,
{
    if n > 0 {
        if let Some((v, count, next)) = run_at(src, pos) {
            if count <= n {
                lemma_expand_shape(src, next, n - count);
            }
        }
    }
}

/// Decodes `n_symbols` lengths from the start of `src`; returns them with the
/// number of bytes read.
pub fn decode_lengths(src: &[u8], n_symbols: usize) -> (r: Result<(Vec<u8>, usize)>)
    ensures
        r is Ok <==> expand(src@, 0, n_symbols as int) is Some,
        r matches Ok((lens, used)) ==> expand(src@, 0, n_symbols as int) == Some(
            (lens@, used as int),
        ),
        r matches Err(e) ==> e is InvalidData,
{
    let mut out: Vec<u8> = Vec::new();
    let mut pos: usize = 0;
    let len: usize = src.len();
    while out.len() < n_symbols
        invariant
            len == src@.len(),
            pos <= len,
            out@.len() <= n_symbols,
            match expand(src@, pos as int, n_symbols - out@.len()) {
                None => expand(src@, 0, n_symbols as int) is None,
                Some((rest, end)) => expand(src@, 0, n_symbols as int) == Some((out@ + rest, end)),
            },
        decreases len - pos,
    {
        if pos >= len {
            return Err(Error::invalid("huffyuv RLE: truncated table"));
        }
        let b: u8 = src[pos];
        let ghost start = pos as int;
        pos = pos + 1;
        let val: u8 = b % 32;
        let mut repeat: usize = (b / 32) as usize;
        if repeat == 0 {
            if pos >= len {
                return Err(Error::invalid("huffyuv RLE: truncated long-run extension byte"));
            }
            repeat = src[pos] as usize;
            pos = pos + 1;
        }
        assert(run_at(src@, start) == Some((val, repeat as int, pos as int)));
        let remaining: usize = n_symbols - out.len();
        if repeat > remaining {
            return Err(Error::invalid("huffyuv RLE: run overshoots the remaining symbols"));
        }
        let ghost before = out@;
        let ghost tail = expand(src@, pos as int, remaining - repeat);
        push_run(&mut out, val, repeat);
        proof {
            if let Some((rest, end)) = tail {
                assert(before + (repeated(val, repeat as nat) + rest) =~= out@ + rest);
            }
        }
    }
    proof {
        assert(out@ + Seq::<u8>::empty() =~= out@);
    }
    Ok((out, pos))
}

/// Appends `count` times the value `v`.
pub fn push_run(out: &mut Vec<u8>, v: u8, count: usize)
    ensures
        final(out)@ == old(out)@ + repeated(v, count as nat),
{
    let mut k: usize = 0;
    while k < count
        invariant
            k <= count,
            out@ =~= old(out)@ + repeated(v, k as nat),
        decreases count - k,
    {
        out.push(v);
        k = k + 1;
    }
}

} // verus!
