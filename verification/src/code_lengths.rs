//! Optimal code lengths for a histogram of byte values.

use vstd::prelude::*;
use vstd::arithmetic::power2::{lemma2_to64, lemma_pow2_unfold, pow2};

use crate::canonical::{all_shares, code_width, kraft_sum, CODE_SPACE};
use crate::error::{Error, Result};
use crate::package_merge::{
    as_ints, depth, is_sorted, leaf_length, leaf_lengths, lemma_leaf_lengths,
    lemma_leaf_lengths_optimal, taken,
};
use crate::tables::{lengths_ok, MAX_LENGTH};
use crate::tally::{lemma_tally_over_order, lemma_tally_same, tally};

verus! {

/// The number of code bits that the counted symbols take together.
pub open spec fn code_bits(hist: Seq<u32>, lens: Seq<u8>) -> int {
    tally(bit_shares(hist, lens), 256)
}

/// The number of code bits that each symbol takes.
pub open spec fn bit_shares(hist: Seq<u32>, lens: Seq<u8>) -> spec_fn(int) -> int {
    |s: int| hist[s] as int * lens[s] as int
}

/// The lengths give every counted symbol a codeword of at most 31 bits, and the
/// codewords of the counted symbols fit into the code space.
pub open spec fn covers(hist: Seq<u32>, lens: Seq<u8>) -> bool {
    &&& lens.len() == 256
    &&& forall|s: int| 0 <= s < 256 && hist[s] > 0 ==> 1 <= #[trigger] lens[s] <= MAX_LENGTH
    &&& tally(counted_shares(hist, lens), 256) <= CODE_SPACE
}

/// The shares of the code space of the counted symbols.
pub open spec fn counted_shares(hist: Seq<u32>, lens: Seq<u8>) -> spec_fn(int) -> int {
    |s: int|
        if hist[s] > 0 {
            code_width(lens[s] as int)
        } else {
            0
        }
}

/// At least one symbol is counted.
pub open spec fn has_symbol(hist: Seq<u32>) -> bool {
    exists|s: int| 0 <= s < 256 && #[trigger] hist[s] > 0
}

/// `s` is the only symbol counted.
pub open spec fn only_symbol(hist: Seq<u32>, s: int) -> bool {
    &&& 0 <= s < 256
    &&& hist[s] > 0
    &&& forall|t: int| 0 <= t < 256 && t != s ==> #[trigger] hist[t] == 0
}

/// The lengths describe a complete code that gives every counted symbol a
/// codeword, no other symbol one (but for the second of two where only one
/// symbol is counted), and that takes as few code bits as any.
pub open spec fn is_best(hist: Seq<u32>, lens: Seq<u8>) -> bool {
    &&& lengths_ok(lens)
    &&& covers(hist, lens)
    &&& forall|s: int| 0 <= s < 256 && hist[s] > 0 ==> #[trigger] lens[s] > 0
    &&& forall|s: int| #[trigger] only_symbol(hist, s) ==> lens == single_lengths(s)
    &&& (forall|s: int| !only_symbol(hist, s)) ==> forall|s: int|
        0 <= s < 256 && hist[s] == 0 ==> #[trigger] lens[s] == 0
    &&& forall|other: Seq<u8>| #[trigger]
        covers(hist, other) ==> code_bits(hist, lens) <= code_bits(hist, other)
}

/// No code for the counted symbols takes fewer than `n` code bits, and one takes
/// that many.
pub open spec fn is_least(hist: Seq<u32>, n: int) -> bool {
    &&& exists|lens: Seq<u8>| #[trigger] covers(hist, lens) && code_bits(hist, lens) == n
    &&& forall|lens: Seq<u8>| #[trigger] covers(hist, lens) ==> n <= code_bits(hist, lens)
}

/// The least number of code bits that the counted symbols can take.
pub open spec fn least_bits(hist: Seq<u32>) -> int {
    choose|n: int| is_least(hist, n)
}

/// The best lengths take the least number of code bits.
pub proof fn lemma_best_is_least(hist: Seq<u32>, lens: Seq<u8>)
    requires
        is_best(hist, lens),
    ensures
        least_bits(hist) == code_bits(hist, lens),
{
    assert(is_least(hist, code_bits(hist, lens)));
    let n = least_bits(hist);
    assert(is_least(hist, n));
    let other = choose|other: Seq<u8>| #[trigger]
        covers(hist, other) && code_bits(hist, other) == n;
}

/// No lengths take fewer code bits than the least number.
pub proof fn lemma_best_is_smallest(hist: Seq<u32>, lens: Seq<u8>)
    requires
        hist.len() == 256,
        covers(hist, lens),
    ensures
        least_bits(hist) <= code_bits(hist, lens),
{
    if has_symbol(hist) {
        law_best_lengths(hist);
        lemma_best_is_least(hist, best_lengths(hist));
    } else {
        lemma_nothing_counted(hist);
        assert forall|s: int| 0 <= s < 256 implies #[trigger] bit_shares(hist, lens)(s) == 0 by {
            assert(hist[s] == 0);
        }
        crate::tally::lemma_tally_const(bit_shares(hist, lens), 256, 0);
    }
}

/// Without counted symbols there are no code bits.
pub proof fn lemma_nothing_counted(hist: Seq<u32>)
    requires
        !has_symbol(hist),
        hist.len() == 256,
    ensures
        least_bits(hist) == 0,
{
    assert forall|lens: Seq<u8>| code_bits(hist, lens) == 0 by {
        assert forall|s: int| 0 <= s < 256 implies #[trigger] bit_shares(hist, lens)(s) == 0 by {
            assert(hist[s] == 0);
        }
        crate::tally::lemma_tally_const(bit_shares(hist, lens), 256, 0);
    }
    let ones = Seq::new(256, |s: int| 1u8);
    assert forall|s: int| 0 <= s < 256 implies #[trigger] counted_shares(hist, ones)(s) == 0 by {
        assert(hist[s] == 0);
    }
    crate::tally::lemma_tally_const(counted_shares(hist, ones), 256, 0);
    assert(covers(hist, ones));
    assert(is_least(hist, 0));
    let n = least_bits(hist);
    assert(is_least(hist, n));
}

/// The lengths for a histogram with the single symbol `s`: one bit for it, and
/// one for the lowest other symbol, so that the code is complete.
pub open spec fn single_lengths(s: int) -> Seq<u8> {
    Seq::new(
        256,
        |t: int|
            if t == s || t == (if s == 0 {
                1int
            } else {
                0
            }) {
                1u8
            } else {
                0u8
            },
    )
}

/// The symbols of a histogram up to `upto`, ordered by count and, where counts
/// are equal, by value.
pub open spec fn is_order(order: Seq<usize>, hist: Seq<u32>, upto: int) -> bool {
    &&& forall|r: int| 0 <= r < order.len() ==> #[trigger] order[r] < upto && hist[order[r] as int] > 0
    &&& forall|q: int, r: int| 0 <= q < r < order.len() ==> order[q] != order[r]
    &&& forall|q: int, r: int|
        0 <= q <= r < order.len() ==> hist[order[q] as int] <= hist[order[r] as int]
    &&& forall|q: int, r: int|
        0 <= q < r < order.len() && hist[order[q] as int] == hist[order[r] as int] ==> order[q]
            < order[r]
    &&& forall|s: int| 0 <= s < upto && #[trigger] hist[s] > 0 ==> order.contains(s as usize)
}

/// A symbol above all ordered ones goes behind those that count no more.
proof fn lemma_insert_keeps_order(before: Seq<usize>, hist: Seq<u32>, s: usize, j: int)
    requires
        is_order(before, hist, s as int),
        s < 256,
        hist[s as int] > 0,
        0 <= j <= before.len(),
        forall|r: int| j <= r < before.len() ==> hist[#[trigger] before[r] as int] > hist[s as int],
        j > 0 ==> hist[before[j - 1] as int] <= hist[s as int],
    ensures
        is_order(before.insert(j, s), hist, s + 1),
{
    let order = before.insert(j, s);
    assert forall|r: int| 0 <= r < order.len() implies #[trigger] order[r] == (if r < j {
        before[r]
    } else if r == j {
        s
    } else {
        before[r - 1]
    }) by {}
    assert forall|q: int, r: int| 0 <= q <= r < order.len() implies hist[order[q] as int]
        <= hist[order[r] as int] by {
        if j > 0 && q <= j - 1 && r == j {
            assert(hist[before[q] as int] <= hist[before[j - 1] as int]);
        }
    }
    assert forall|q: int, r: int|
        0 <= q < r < order.len() && hist[order[q] as int] == hist[order[r] as int] implies order[q]
        < order[r] by {
        if q == j {
            assert(hist[before[r - 1] as int] > hist[s as int]);
        }
    }
    assert forall|t: int| 0 <= t < s + 1 && #[trigger] hist[t] > 0 implies order.contains(
        t as usize,
    ) by {
        if t == s {
            assert(order[j as int] == t as usize);
        } else {
            assert(before.contains(t as usize));
            let r = choose|r: int| 0 <= r < before.len() && before[r] == t as usize;
            if r < j {
                assert(order[r] == t as usize);
            } else {
                assert(order[r + 1] == t as usize);
            }
        }
    }
}

/// The place of a symbol among ordered ones.
proof fn find_place(order: Seq<usize>, hist: Seq<u32>, s: usize, upto: int) -> (j: int)
    requires
        0 <= upto <= order.len(),
        forall|r: int|
            upto <= r < order.len() ==> hist[#[trigger] order[r] as int] > hist[s as int],
    ensures
        0 <= j <= order.len(),
        forall|r: int| j <= r < order.len() ==> hist[#[trigger] order[r] as int] > hist[s as int],
        j > 0 ==> hist[order[j - 1] as int] <= hist[s as int],
    decreases upto,
{
    if upto > 0 && hist[order[upto - 1] as int] > hist[s as int] {
        find_place(order, hist, s, upto - 1)
    } else {
        upto
    }
}

/// The symbols of a histogram can be ordered.
proof fn order_exists(hist: Seq<u32>, upto: int) -> (order: Seq<usize>)
    requires
        0 <= upto <= 256,
    ensures
        is_order(order, hist, upto),
        order.len() <= upto,
    decreases upto,
{
    if upto == 0 {
        Seq::empty()
    } else {
        let before = order_exists(hist, upto - 1);
        let s = (upto - 1) as usize;
        if hist[upto - 1] > 0 {
            let j = find_place(before, hist, s, before.len() as int);
            lemma_insert_keeps_order(before, hist, s, j);
            before.insert(j, s)
        } else {
            assert forall|t: int| 0 <= t < upto && #[trigger] hist[t] > 0 implies before.contains(
                t as usize,
            ) by {}
            before
        }
    }
}

/// The counted symbols, by ascending count and, where counts are equal, by
/// ascending value.
fn symbols_by_count(hist: &[u32; 256]) -> (order: Vec<usize>)
    ensures
        is_order(order@, hist@, 256),
        order@.len() <= 256,
{
    let mut order: Vec<usize> = Vec::new();
    let mut s: usize = 0;
    while s < 256
        invariant
            s <= 256,
            is_order(order@, hist@, s as int),
            order@.len() <= s,
        decreases 256 - s,
    {
        if hist[s] > 0 {
            let mut j: usize = order.len();
            while j > 0 && hist[order[j - 1]] > hist[s]
                invariant
                    s < 256,
                    j <= order@.len(),
                    is_order(order@, hist@, s as int),
                    forall|r: int|
                        j <= r < order@.len() ==> hist@[#[trigger] order@[r] as int]
                            > hist@[s as int],
                decreases j,
            {
                j = j - 1;
            }
            proof {
                lemma_insert_keeps_order(order@, hist@, s, j as int);
            }
            order.insert(j, s);
        } else {
            proof {
                assert forall|t: int| 0 <= t < s + 1 && #[trigger] hist@[t] > 0 implies
                    order@.contains(t as usize) by {}
            }
        }
        s = s + 1;
    }
    order
}

/// Orders agree place by place.
proof fn lemma_same_order(a: Seq<usize>, b: Seq<usize>, hist: Seq<u32>, r: int)
    requires
        is_order(a, hist, 256),
        is_order(b, hist, 256),
        0 <= r < a.len(),
    ensures
        r < b.len(),
        a[r] == b[r],
    decreases r,
{
    assert forall|k: int| 0 <= k < r implies k < b.len() && #[trigger] a[k] == b[k] by {
        lemma_same_order(a, b, hist, k);
    }
    let x = a[r];
    assert(hist[x as int] > 0);
    assert(b.contains(x));
    let i = choose|i: int| 0 <= i < b.len() && b[i] == x;
    if i < r {
        assert(a[i] == b[i]);
    }
    if i > r {
        let y = b[r];
        assert(hist[y as int] > 0);
        assert(a.contains(y));
        let j = choose|j: int| 0 <= j < a.len() && a[j] == y;
        if j < r {
            assert(a[j] == b[j]);
        }
        assert(j > r);
        assert(hist[a[r] as int] <= hist[a[j] as int]);
        assert(hist[b[r] as int] <= hist[b[i] as int]);
    }
}

/// There is only one order.
proof fn lemma_one_order(a: Seq<usize>, b: Seq<usize>, hist: Seq<u32>)
    requires
        is_order(a, hist, 256),
        is_order(b, hist, 256),
    ensures
        a == b,
{
    if a.len() > 0 {
        lemma_same_order(a, b, hist, a.len() - 1);
    }
    if b.len() > 0 {
        lemma_same_order(b, a, hist, b.len() - 1);
    }
    assert forall|r: int| 0 <= r < a.len() implies a[r] == b[r] by {
        lemma_same_order(a, b, hist, r);
    }
    assert(a =~= b);
}

/// The counted symbols in order.
pub open spec fn the_order(hist: Seq<u32>) -> Seq<usize> {
    choose|order: Seq<usize>| is_order(order, hist, 256)
}

/// The counts of ordered symbols.
pub open spec fn ordered_counts(order: Seq<usize>, hist: Seq<u32>) -> Seq<int> {
    Seq::new(order.len(), |r: int| hist[order[r] as int] as int)
}

/// The lengths for a histogram: those of the leaves that its ordered counts
/// make.
pub open spec fn best_lengths(hist: Seq<u32>) -> Seq<u8> {
    let order = the_order(hist);
    if order.len() == 1 {
        single_lengths(order[0] as int)
    } else {
        Seq::new(
            256,
            |s: int|
                if hist[s] > 0 {
                    leaf_length(ordered_counts(order, hist), order.index_of(s as usize)) as u8
                } else {
                    0
                },
        )
    }
}

/// The order as integers.
spec fn places(order: Seq<usize>) -> Seq<int> {
    order.map_values(|s: usize| s as int)
}

/// Sums over the counted symbols can be taken in any order.
proof fn lemma_sum_by_order(order: Seq<usize>, hist: Seq<u32>, g: spec_fn(int) -> int)
    requires
        is_order(order, hist, 256),
        forall|s: int| 0 <= s < 256 && hist[s] == 0 ==> #[trigger] g(s) == 0,
    ensures
        tally(g, 256) == tally(|r: int| g(order[r] as int), order.len() as int),
{
    let p = places(order);
    assert forall|s: int| 0 <= s < 256 && !p.contains(s) implies #[trigger] g(s) == 0 by {
        if hist[s] > 0 {
            assert(order.contains(s as usize));
            let r = choose|r: int| 0 <= r < order.len() && order[r] == s as usize;
            assert(p[r] == s);
        }
    }
    lemma_tally_over_order(p, g, 256);
    lemma_tally_same(|r: int| g(p[r]), |r: int| g(order[r] as int), order.len() as int);
}

/// The lengths that leaves get add up to a complete code for their symbols.
proof fn lemma_lengths_complete(order: Seq<usize>, hist: Seq<u32>, w: Seq<int>, lens: Seq<u8>)
    requires
        is_order(order, hist, 256),
        2 <= order.len() <= 256,
        lens.len() == 256,
        w.len() == order.len(),
        is_sorted(w),
        forall|r: int|
            0 <= r < order.len() ==> lens[#[trigger] order[r] as int] == leaf_length(w, r),
        forall|s: int| 0 <= s < 256 && hist[s] == 0 ==> #[trigger] lens[s] == 0,
    ensures
        lengths_ok(lens),
        forall|s: int| 0 <= s < 256 && hist[s] > 0 ==> #[trigger] lens[s] > 0,
{
    let n = order.len() as int;
    lemma_leaf_lengths(w);
    assert forall|s: int| 0 <= s < 256 implies #[trigger] lens[s] <= MAX_LENGTH && (hist[s] > 0
        ==> lens[s] > 0) by {
        if hist[s] > 0 {
            assert(order.contains(s as usize));
            let r = choose|r: int| 0 <= r < order.len() && order[r] == s as usize;
            assert(1 <= leaf_length(w, r) <= 31);
            assert(lens[order[r] as int] == leaf_length(w, r));
        }
    }
    let g = all_shares(lens);
    lemma_sum_by_order(order, hist, g);
    let small = |r: int| pow2((31 - leaf_length(w, r)) as nat) as int;
    let wide = |r: int| g(order[r] as int);
    assert forall|r: int| 0 <= r < n implies #[trigger] wide(r) == small(r) + small(r) by {
        assert(1 <= leaf_length(w, r) <= 31);
        assert(lens[order[r] as int] == leaf_length(w, r));
        lemma_pow2_unfold((32 - leaf_length(w, r)) as nat);
    }
    crate::tally::lemma_tally_add(small, small, wide, n);
    lemma2_to64();
}

/// The lengths that leaves get are the best possible for the histogram.
proof fn lemma_lengths_optimal(
    order: Seq<usize>,
    hist: Seq<u32>,
    w: Seq<int>,
    lens: Seq<u8>,
    other: Seq<u8>,
)
    requires
        is_order(order, hist, 256),
        2 <= order.len() <= 256,
        lens.len() == 256,
        w.len() == order.len(),
        is_sorted(w),
        forall|r: int| 0 <= r < order.len() ==> #[trigger] w[r] == hist[order[r] as int],
        forall|r: int|
            0 <= r < order.len() ==> lens[#[trigger] order[r] as int] == leaf_length(w, r),
        covers(hist, other),
    ensures
        code_bits(hist, lens) <= code_bits(hist, other),
{
    let n = order.len() as int;
    let cost = bit_shares(hist, lens);
    let cost2 = bit_shares(hist, other);
    assert forall|s: int| 0 <= s < 256 && hist[s] == 0 implies #[trigger] cost(s) == 0 && cost2(s)
        == 0 by {
        let (a, b) = (lens[s] as int, other[s] as int);
        assert(0 * a == 0 && 0 * b == 0) by (nonlinear_arith);
    }
    lemma_sum_by_order(order, hist, cost);
    lemma_sum_by_order(order, hist, cost2);
    let len = |r: int| other[order[r] as int] as int;
    assert forall|r: int| 0 <= r < n implies 0 <= #[trigger] len(r) <= 31 by {
        assert(hist[order[r] as int] > 0);
    }
    let g = counted_shares(hist, other);
    lemma_sum_by_order(order, hist, g);
    let small = |r: int| pow2((31 - len(r)) as nat) as int;
    let wide = |r: int| g(order[r] as int);
    assert forall|r: int| 0 <= r < n implies #[trigger] wide(r) == small(r) + small(r) by {
        assert(hist[order[r] as int] > 0);
        assert(1 <= other[order[r] as int] <= 31);
        lemma_pow2_unfold((32 - len(r)) as nat);
    }
    crate::tally::lemma_tally_add(small, small, wide, n);
    lemma2_to64();
    lemma_leaf_lengths_optimal(w, len);
    lemma_tally_same(
        |r: int| cost(order[r] as int),
        |r: int| w[r] * leaf_length(w, r),
        n,
    );
    lemma_tally_same(|r: int| cost2(order[r] as int), |r: int| w[r] * len(r), n);
}

/// The lengths for a single symbol are complete and the best possible.
proof fn lemma_single_lengths(hist: Seq<u32>, s: int)
    requires
        hist.len() == 256,
        only_symbol(hist, s),
    ensures
        lengths_ok(single_lengths(s)),
        forall|other: Seq<u8>| #[trigger]
            covers(hist, other) ==> code_bits(hist, single_lengths(s)) <= code_bits(hist, other),
{
    let lens = single_lengths(s);
    let d = if s == 0 {
        1int
    } else {
        0
    };
    let zero = |t: int| 0int;
    crate::tally::lemma_tally_const(zero, 256, 0);
    let one = |t: int|
        if t == s {
            code_width(1)
        } else {
            0
        };
    crate::tally::lemma_tally_bump(zero, one, 256, s);
    crate::tally::lemma_tally_bump(one, all_shares(lens), 256, d);
    lemma2_to64();
    assert(kraft_sum(lens) == CODE_SPACE);
    assert forall|other: Seq<u8>| #[trigger] covers(hist, other) implies code_bits(hist, lens)
        <= code_bits(hist, other) by {
        let cost = bit_shares(hist, lens);
        let cost2 = bit_shares(hist, other);
        assert forall|t: int| 0 <= t < 256 implies #[trigger] cost(t) <= cost2(t) by {
            let (h, a, b) = (hist[t] as int, lens[t] as int, other[t] as int);
            if t == s {
                assert(1 <= other[t]);
                assert(h * a <= h * b) by (nonlinear_arith)
                    requires
                        h >= 0,
                        a <= b,
                ;
            } else {
                assert(h * a <= h * b) by (nonlinear_arith)
                    requires
                        h == 0,
                ;
            }
        }
        crate::tally::lemma_tally_le(cost, cost2, 256);
    }
}

/// A complete code in which every counted symbol has a codeword covers them.
proof fn lemma_complete_covers(hist: Seq<u32>, lens: Seq<u8>)
    requires
        lengths_ok(lens),
        forall|s: int| 0 <= s < 256 && hist[s] > 0 ==> #[trigger] lens[s] > 0,
    ensures
        covers(hist, lens),
{
    assert forall|s: int| 0 <= s < 256 implies #[trigger] counted_shares(hist, lens)(s)
        <= all_shares(lens)(s) by {
        crate::canonical::lemma_width_nonneg(lens[s] as int);
    }
    crate::tally::lemma_tally_le(counted_shares(hist, lens), all_shares(lens), 256);
}

/// The lengths for a histogram are the best there are.
pub proof fn law_best_lengths(hist: Seq<u32>)
    requires
        hist.len() == 256,
        has_symbol(hist),
    ensures
        is_best(hist, best_lengths(hist)),
{
    let order = order_exists(hist, 256);
    lemma_one_order(order, the_order(hist), hist);
    let lens = best_lengths(hist);
    let s0 = choose|s: int| 0 <= s < 256 && #[trigger] hist[s] > 0;
    assert(order.contains(s0 as usize));
    if order.len() == 1 {
        let s = order[0] as int;
        assert forall|t: int| 0 <= t < 256 && t != s implies #[trigger] hist[t] == 0 by {
            if hist[t] > 0 {
                assert(order.contains(t as usize));
            }
        }
        assert(only_symbol(hist, s));
        assert forall|t: int| #[trigger] only_symbol(hist, t) implies t == s by {
            if t != s {
                assert(hist[t] == 0);
            }
        }
        lemma_single_lengths(hist, s);
        lemma_complete_covers(hist, lens);
    } else {
        let w = ordered_counts(order, hist);
        assert(is_sorted(w));
        lemma_leaf_lengths(w);
        assert forall|r: int| 0 <= r < order.len() implies lens[#[trigger] order[r] as int]
            == leaf_length(w, r) by {
            assert(order.contains(order[r]));
            let q = order.index_of(order[r]);
            assert(order[q] == order[r]);
            assert(1 <= leaf_length(w, r) <= 31);
        }
        lemma_lengths_complete(order, hist, w, lens);
        lemma_complete_covers(hist, lens);
        assert forall|other: Seq<u8>| #[trigger] covers(hist, other) implies code_bits(hist, lens)
            <= code_bits(hist, other) by {
            lemma_lengths_optimal(order, hist, w, lens, other);
        }
        assert forall|s: int| !only_symbol(hist, s) by {
            if only_symbol(hist, s) {
                let t = if order[0] == s {
                    order[1] as int
                } else {
                    order[0] as int
                };
                assert(order[0] != order[1]);
                assert(hist[order[0] as int] > 0 && hist[order[1] as int] > 0);
                assert(hist[t] == 0);
            }
        }
    }
}

/// A histogram with a single symbol gives it one bit, and one bit to the lowest
/// other symbol.
pub proof fn law_single_symbol(hist: Seq<u32>, s: int, t: int)
    requires
        hist.len() == 256,
        0 <= s < 256,
        0 < hist[s],
        forall|u: int| 0 <= u < 256 && u != s ==> #[trigger] hist[u] == 0,
        0 <= t < 256,
    ensures
        best_lengths(hist)[t] == (if t == s || t == (if s == 0 {
            1int
        } else {
            0
        }) {
            1int
        } else {
            0
        }),
{
    law_best_lengths(hist);
    assert(only_symbol(hist, s));
}

/// Leaves further on are not taken more often.
proof fn lemma_depth_falls(w: Seq<int>, k: nat, m: int, q: int, r: int)
    requires
        q <= r,
    ensures
        depth(w, k, m, q) >= depth(w, k, m, r),
    decreases k,
{
    if k > 0 {
        let c = taken(w, k, m);
        lemma_depth_falls(w, (k - 1) as nat, 2 * (m - c), q, r);
    }
}

/// Of two counted symbols the rarer one has the longer codeword, if they differ;
/// where both are counted as often, it is the lower symbol.
pub proof fn law_rarer_is_longer(hist: Seq<u32>, s: int, t: int)
    requires
        hist.len() == 256,
        0 <= s < 256,
        0 <= t < 256,
        0 < hist[s],
        hist[s] < hist[t] || (hist[s] == hist[t] && s < t),
    ensures
        best_lengths(hist)[s] >= best_lengths(hist)[t],
{
    let order = order_exists(hist, 256);
    lemma_one_order(order, the_order(hist), hist);
    assert(order.contains(s as usize) && order.contains(t as usize));
    let (q, r) = (order.index_of(s as usize), order.index_of(t as usize));
    assert(order[q] == s && order[r] == t);
    assert(q != r);
    assert(q < r);
    let w = ordered_counts(order, hist);
    assert(is_sorted(w));
    lemma_leaf_lengths(w);
    lemma_depth_falls(w, 31, 2 * w.len() - 2, q, r);
    assert(1 <= leaf_length(w, q) <= 31 && 1 <= leaf_length(w, r) <= 31);
}

/// Code lengths of at most 31 bits for the counted symbols, such that the code
/// is complete and no other such lengths take fewer code bits. Fails where no
/// symbol is counted.
pub fn compute_canonical_lengths(hist: &[u32; 256]) -> (r: Result<[u8; 256]>)
    ensures
        r is Ok <==> has_symbol(hist@),
        r matches Ok(lens) ==> lens@ == best_lengths(hist@) && is_best(hist@, lens@),
        r matches Err(e) ==> e is InvalidData,
{
    let order = symbols_by_count(hist);
    proof {
        lemma_one_order(order@, the_order(hist@), hist@);
    }
    let n: usize = order.len();
    let mut lens: [u8; 256] = [0u8;256];
    if n == 0 {
        proof {
            assert forall|s: int| 0 <= s < 256 implies #[trigger] hist@[s] == 0 by {
                if hist@[s] > 0 {
                    assert(order@.contains(s as usize));
                }
            }
        }
        return Err(Error::invalid("empty histogram has no code lengths"));
    }
    assert(hist@[order@[0] as int] > 0);
    if n == 1 {
        let s: usize = order[0];
        let other: usize = if s == 0 {
            1
        } else {
            0
        };
        lens[s] = 1;
        lens[other] = 1;
        proof {
            assert(lens@ =~= single_lengths(s as int));
            law_best_lengths(hist@);
        }
        return Ok(lens);
    }
    let mut weights: Vec<u64> = Vec::new();
    let mut i: usize = 0;
    while i < n
        invariant
            n == order@.len(),
            i <= n,
            is_order(order@, hist@, 256),
            weights@.len() == i,
            forall|r: int| 0 <= r < i ==> #[trigger] weights@[r] == hist@[order@[r] as int],
        decreases n - i,
    {
        let s: usize = order[i];
        weights.push(hist[s] as u64);
        i = i + 1;
    }
    let ghost w = as_ints(weights@);
    proof {
        assert forall|r: int| 0 <= r < n implies #[trigger] w[r] == hist@[order@[r] as int] by {
            assert(weights@[r] == hist@[order@[r] as int]);
        }
        assert(is_sorted(w));
    }
    let leaf_lens = leaf_lengths(&weights);
    i = 0;
    while i < n
        invariant
            n == order@.len(),
            i <= n,
            is_order(order@, hist@, 256),
            leaf_lens@.len() == n,
            w.len() == n,
            forall|r: int| 0 <= r < n ==> #[trigger] leaf_lens@[r] == leaf_length(w, r),
            forall|r: int|
                0 <= r < i ==> lens@[#[trigger] order@[r] as int] == leaf_length(w, r),
            forall|s: int| 0 <= s < 256 && hist@[s] == 0 ==> #[trigger] lens@[s] == 0,
        decreases n - i,
    {
        let s: usize = order[i];
        lens[s] = leaf_lens[i];
        i = i + 1;
    }
    proof {
        assert(w =~= ordered_counts(order@, hist@));
        assert forall|s: int| 0 <= s < 256 implies #[trigger] lens@[s] == best_lengths(hist@)[s] by {
            if hist@[s] > 0 {
                assert(order@.contains(s as usize));
                let r = order@.index_of(s as usize);
                assert(order@[r] == s as usize);
                assert(lens@[order@[r] as int] == leaf_length(w, r));
            }
        }
        assert(lens@ =~= best_lengths(hist@));
        law_best_lengths(hist@);
    }
    Ok(lens)
}

} // verus!
