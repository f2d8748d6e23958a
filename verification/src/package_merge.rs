//! Length-limited Huffman code lengths by the package-merge method.
//!
//! The leaves are the symbol weights in ascending order. The list of the first
//! level is the leaves; the list of each further level merges the leaves with
//! the sums of neighbouring pairs of the list before. Taking items from the
//! front of the last list, and for each pair taken its two items from the list
//! before, counts for each leaf the levels in which it is taken: its length.

use vstd::prelude::*;
use vstd::arithmetic::power2::{lemma_pow2_pos, lemma_pow2_unfold, pow2};

use crate::tally::{lemma_tally_add, lemma_tally_nonneg, lemma_tally_same, tally};

verus! {

/// After `a` leaves and `b` packages the merge of the leaves `w` with the
/// packages `p` goes on with a leaf. On equal weights the leaf comes first.
pub open spec fn leaf_is_next(w: Seq<int>, p: Seq<int>, a: int, b: int) -> bool {
    a < w.len() && (b >= p.len() || w[a] <= p[b])
}

/// The number of leaves among the first `m` items of the merge.
pub open spec fn leaves_in(w: Seq<int>, p: Seq<int>, m: int) -> int
    decreases m,
{
    if m <= 0 {
        0
    } else {
        let a = leaves_in(w, p, m - 1);
        if leaf_is_next(w, p, a, m - 1 - a) {
            a + 1
        } else {
            a
        }
    }
}

/// Item `m` of the merge is a leaf.
pub open spec fn next_is_leaf(w: Seq<int>, p: Seq<int>, m: int) -> bool {
    leaf_is_next(w, p, leaves_in(w, p, m), m - leaves_in(w, p, m))
}

/// The merge of the leaves `w` with the packages `p`.
pub open spec fn merged(w: Seq<int>, p: Seq<int>) -> Seq<int> {
    Seq::new(
        w.len() + p.len(),
        |m: int|
            if next_is_leaf(w, p, m) {
                w[leaves_in(w, p, m)]
            } else {
                p[m - leaves_in(w, p, m)]
            },
    )
}

/// The sums of neighbouring pairs; an item left over is dropped.
pub open spec fn pairs(list: Seq<int>) -> Seq<int> {
    Seq::new(list.len() / 2, |i: int| list[2 * i] + list[2 * i + 1])
}

/// The list of level `k`.
pub open spec fn level(w: Seq<int>, k: nat) -> Seq<int>
    decreases k,
{
    if k == 0 {
        Seq::empty()
    } else {
        merged(w, pairs(level(w, (k - 1) as nat)))
    }
}

/// The number of leaves among the first `m` items of the list of level `k`.
pub open spec fn taken(w: Seq<int>, k: nat, m: int) -> int {
    if k == 0 {
        0
    } else {
        leaves_in(w, pairs(level(w, (k - 1) as nat)), m)
    }
}

/// In how many of the levels up to `k` leaf `r` is taken, when `m` items are
/// taken at level `k`.
pub open spec fn depth(w: Seq<int>, k: nat, m: int, r: int) -> int
    decreases k,
{
    if k == 0 {
        0
    } else {
        let c = taken(w, k, m);
        (if r < c {
            1int
        } else {
            0
        }) + depth(w, (k - 1) as nat, 2 * (m - c), r)
    }
}

/// Ascending, and not negative.
pub open spec fn is_sorted(s: Seq<int>) -> bool {
    &&& forall|i: int, j: int| 0 <= i <= j < s.len() ==> s[i] <= s[j]
    &&& forall|i: int| 0 <= i < s.len() ==> 0 <= #[trigger] s[i]
}

/// The sum of the first `m` items.
pub open spec fn front_sum(s: Seq<int>, m: int) -> int {
    tally(|i: int| s[i], m)
}

/// A front of the merge is a front of the leaves with a front of the packages,
/// and nothing outside it is lighter than anything inside.
proof fn lemma_leaves_in(w: Seq<int>, p: Seq<int>, m: int)
    requires
        is_sorted(w),
        is_sorted(p),
        0 <= m <= w.len() + p.len(),
    ensures
        0 <= leaves_in(w, p, m) <= m,
        leaves_in(w, p, m) <= w.len(),
        m - leaves_in(w, p, m) <= p.len(),
        0 < m - leaves_in(w, p, m) && leaves_in(w, p, m) < w.len() ==> p[m - leaves_in(w, p, m) - 1]
            < w[leaves_in(w, p, m)],
        0 < leaves_in(w, p, m) && m - leaves_in(w, p, m) < p.len() ==> w[leaves_in(w, p, m) - 1]
            <= p[m - leaves_in(w, p, m)],
    decreases m,
{
    if m > 0 {
        lemma_leaves_in(w, p, m - 1);
    }
}

/// A leaf counted in a front of the merge is an item of that front.
proof fn lemma_leaf_position(w: Seq<int>, p: Seq<int>, m: int, r: int) -> (at: int)
    requires
        is_sorted(w),
        is_sorted(p),
        0 <= m <= w.len() + p.len(),
        0 <= r < leaves_in(w, p, m),
    ensures
        0 <= at < m,
        merged(w, p)[at] == w[r],
    decreases m,
{
    lemma_leaves_in(w, p, m - 1);
    if leaves_in(w, p, m - 1) > r {
        lemma_leaf_position(w, p, m - 1, r)
    } else {
        m - 1
    }
}

/// The merge of sorted lists is sorted.
proof fn lemma_merged_sorted(w: Seq<int>, p: Seq<int>)
    requires
        is_sorted(w),
        is_sorted(p),
    ensures
        is_sorted(merged(w, p)),
        merged(w, p).len() == w.len() + p.len(),
{
    let out = merged(w, p);
    assert forall|i: int| 0 <= i < out.len() implies 0 <= #[trigger] out[i] by {
        lemma_leaves_in(w, p, i);
    }
    assert forall|i: int, j: int| 0 <= i <= j < out.len() implies out[i] <= out[j] by {
        lemma_merged_ascends(w, p, i, j);
    }
}

proof fn lemma_merged_ascends(w: Seq<int>, p: Seq<int>, i: int, j: int)
    requires
        is_sorted(w),
        is_sorted(p),
        0 <= i <= j < w.len() + p.len(),
    ensures
        merged(w, p)[i] <= merged(w, p)[j],
    decreases j - i,
{
    if i < j {
        lemma_merged_ascends(w, p, i, j - 1);
        lemma_leaves_in(w, p, j - 1);
        lemma_leaves_in(w, p, j);
    }
}

/// The pair sums of a sorted list are sorted.
proof fn lemma_pairs_sorted(list: Seq<int>)
    requires
        is_sorted(list),
    ensures
        is_sorted(pairs(list)),
{
    let out = pairs(list);
    assert forall|i: int, j: int| 0 <= i <= j < out.len() implies out[i] <= out[j] by {
        assert(list[2 * i] <= list[2 * j]);
        assert(list[2 * i + 1] <= list[2 * j + 1]);
    }
}

/// Every level's list is sorted.
proof fn lemma_level_sorted(w: Seq<int>, k: nat)
    requires
        is_sorted(w),
    ensures
        is_sorted(level(w, k)),
        k > 0 ==> level(w, k).len() == w.len() + level(w, (k - 1) as nat).len() / 2,
        k > 0 ==> is_sorted(pairs(level(w, (k - 1) as nat))),
    decreases k,
{
    if k > 0 {
        lemma_level_sorted(w, (k - 1) as nat);
        lemma_pairs_sorted(level(w, (k - 1) as nat));
        lemma_merged_sorted(w, pairs(level(w, (k - 1) as nat)));
    }
}

/// What is taken at level `k`, and what that takes from the level before.
proof fn lemma_taken(w: Seq<int>, k: nat, m: int)
    requires
        is_sorted(w),
        k > 0,
        0 <= m <= level(w, k).len(),
    ensures
        0 <= taken(w, k, m) <= w.len(),
        taken(w, k, m) <= m,
        0 <= 2 * (m - taken(w, k, m)) <= level(w, (k - 1) as nat).len(),
{
    lemma_level_sorted(w, k);
    lemma_leaves_in(w, pairs(level(w, (k - 1) as nat)), m);
}

/// A level takes at least the leaves that the level before it takes.
proof fn lemma_taken_shrinks(w: Seq<int>, k: nat, m: int)
    requires
        is_sorted(w),
        k > 0,
        0 <= m <= level(w, k).len(),
    ensures
        taken(w, (k - 1) as nat, 2 * (m - taken(w, k, m))) <= taken(w, k, m),
{
    let below = level(w, (k - 1) as nat);
    let p = pairs(below);
    let a = taken(w, k, m);
    let b = m - a;
    lemma_taken(w, k, m);
    lemma_level_sorted(w, k);
    lemma_leaves_in(w, p, m);
    if k > 1 {
        let q = pairs(level(w, (k - 2) as nat));
        lemma_level_sorted(w, (k - 1) as nat);
        lemma_taken(w, (k - 1) as nat, 2 * b);
        if taken(w, (k - 1) as nat, 2 * b) > a {
            let at = lemma_leaf_position(w, q, 2 * b, a);
            assert(below[at] == w[a]);
            let j = at / 2;
            assert(p[j] == below[2 * j] + below[2 * j + 1]);
            assert(p[j] >= w[a]);
            assert(p[j] <= p[b - 1]);
            assert(false);
        }
    }
}

/// A leaf that is not taken at level `k` is not taken below it either, and no
/// leaf is taken more often than there are levels.
proof fn lemma_depth_bounds(w: Seq<int>, k: nat, m: int, r: int)
    requires
        is_sorted(w),
        0 <= m <= level(w, k).len(),
    ensures
        0 <= depth(w, k, m, r) <= k,
        r >= taken(w, k, m) ==> depth(w, k, m, r) == 0,
    decreases k,
{
    if k > 0 {
        lemma_taken(w, k, m);
        lemma_taken_shrinks(w, k, m);
        lemma_depth_bounds(w, (k - 1) as nat, 2 * (m - taken(w, k, m)), r);
    }
}

/// What a codeword of length `len` leaves of the code space of `k` bits.
pub open spec fn slack(k: nat, len: int) -> int {
    pow2(k) as int - pow2((k - len) as nat) as int
}

/// One more level doubles the slack and adds half of the code space.
proof fn lemma_slack_step(k: nat, len: int)
    requires
        k > 0,
        1 <= len <= k,
    ensures
        slack(k, len) == pow2((k - 1) as nat) + slack((k - 1) as nat, len - 1),
        slack(k, 0) == 0,
{
    lemma_pow2_unfold(k);
}

/// Taking `m` items at level `k` leaves a total slack of half `m` code spaces.
proof fn lemma_slack_total(w: Seq<int>, k: nat, m: int)
    requires
        is_sorted(w),
        0 <= m <= level(w, k).len(),
    ensures
        2 * tally(|r: int| slack(k, depth(w, k, m, r)), w.len() as int) == m * pow2(k),
    decreases k,
{
    let n = w.len() as int;
    let f = |r: int| slack(k, depth(w, k, m, r));
    if k == 0 {
        crate::tally::lemma_tally_const(f, n, 0);
        assert(n * 0 == 0 && m * pow2(k) == 0) by (nonlinear_arith)
            requires
                m == 0,
        ;
    } else {
        let c = taken(w, k, m);
        let k1 = (k - 1) as nat;
        let m1 = 2 * (m - c);
        lemma_taken(w, k, m);
        lemma_slack_total(w, k1, m1);
        let g = |r: int| slack(k1, depth(w, k1, m1, r));
        let half = |r: int|
            if r < c {
                pow2(k1) as int
            } else {
                0
            };
        assert forall|r: int| 0 <= r < n implies #[trigger] f(r) == half(r) + g(r) by {
            lemma_depth_bounds(w, k, m, r);
            lemma_depth_bounds(w, k1, m1, r);
            lemma_slack_step(k, if r < c { depth(w, k, m, r) } else { 1 });
        }
        lemma_tally_add(half, g, f, n);
        lemma_tally_front(half, n, c, pow2(k1) as int);
        lemma_pow2_unfold(k);
        let h = pow2(k1) as int;
        assert(2 * (c * h) + (2 * (m - c)) * h == m * (2 * h)) by (nonlinear_arith);
    }
}

/// The sum of terms that are `v` below `c` and zero from there on.
proof fn lemma_tally_front(f: spec_fn(int) -> int, n: int, c: int, v: int)
    requires
        0 <= c <= n,
        forall|r: int|
            0 <= r < n ==> #[trigger] f(r) == (if r < c {
                v
            } else {
                0
            }),
    ensures
        tally(f, n) == c * v,
    decreases n,
{
    if n == c {
        crate::tally::lemma_tally_const(f, n, v);
    } else {
        lemma_tally_front(f, n - 1, c, v);
        assert(f(n - 1) == 0);
    }
}

/// The list of level 31 has one item less than twice the leaves.
proof fn lemma_last_level_len(w: Seq<int>)
    requires
        is_sorted(w),
        2 <= w.len() <= 256,
    ensures
        level(w, 31).len() == 2 * w.len() - 1,
{
    let n = w.len() as int;
    assert(level(w, 0).len() == 0);
    lemma_level_sorted(w, 1);
    lemma_level_sorted(w, 2);
    lemma_level_sorted(w, 3);
    lemma_level_sorted(w, 4);
    lemma_level_sorted(w, 5);
    lemma_level_sorted(w, 6);
    lemma_level_sorted(w, 7);
    lemma_level_sorted(w, 8);
    lemma_level_sorted(w, 9);
    assert(2 * n - level(w, 1).len() <= 256);
    assert(2 * n - level(w, 2).len() <= 128);
    assert(2 * n - level(w, 3).len() <= 64);
    assert(2 * n - level(w, 4).len() <= 32);
    assert(2 * n - level(w, 5).len() <= 16);
    assert(2 * n - level(w, 6).len() <= 8);
    assert(2 * n - level(w, 7).len() <= 4);
    assert(2 * n - level(w, 8).len() <= 2);
    assert(level(w, 9).len() == 2 * n - 1);
    lemma_level_len_stable(w, 9, 31);
}

proof fn lemma_level_len_stable(w: Seq<int>, from: nat, to: nat)
    requires
        is_sorted(w),
        1 <= w.len(),
        from <= to,
        level(w, from).len() == 2 * w.len() - 1,
    ensures
        level(w, to).len() == 2 * w.len() - 1,
    decreases to - from,
{
    if from < to {
        lemma_level_sorted(w, from + 1);
        lemma_level_len_stable(w, from + 1, to);
    }
}

/// No list is longer than twice the leaves.
proof fn lemma_level_len_bound(w: Seq<int>, k: nat)
    requires
        is_sorted(w),
    ensures
        level(w, k).len() <= 2 * w.len(),
    decreases k,
{
    if k > 0 {
        lemma_level_len_bound(w, (k - 1) as nat);
        lemma_level_sorted(w, k);
    }
}

/// The length that leaf `r` of `w` gets.
pub open spec fn leaf_length(w: Seq<int>, r: int) -> int {
    depth(w, 31, 2 * w.len() - 2, r)
}

/// The lengths lie in `1..=31` and fill the code space of 31 bits exactly.
pub proof fn lemma_leaf_lengths(w: Seq<int>)
    requires
        is_sorted(w),
        2 <= w.len() <= 256,
    ensures
        forall|r: int| 0 <= r < w.len() ==> 1 <= #[trigger] leaf_length(w, r) <= 31,
        tally(|r: int| pow2((31 - leaf_length(w, r)) as nat) as int, w.len() as int) == pow2(31),
{
    let n = w.len() as int;
    let m = 2 * n - 2;
    lemma_last_level_len(w);
    lemma_slack_total(w, 31, m);
    let f = |r: int| slack(31, depth(w, 31, m, r));
    let g = |r: int| pow2((31 - leaf_length(w, r)) as nat) as int;
    let full = |r: int| pow2(31) as int;
    lemma_tally_add(f, g, full, n);
    crate::tally::lemma_tally_const(full, n, pow2(31) as int);
    let v = pow2(31) as int;
    assert(n * v - (n - 1) * v == v) by (nonlinear_arith);
    assert(m * v == 2 * ((n - 1) * v)) by (nonlinear_arith)
        requires
            m == 2 * n - 2,
    ;
    assert(tally(g, n) == v);
    assert forall|r: int| 0 <= r < n implies 1 <= #[trigger] leaf_length(w, r) <= 31 by {
        lemma_depth_bounds(w, 31, m, r);
        if leaf_length(w, r) == 0 {
            let other = if r == 0 {
                1int
            } else {
                0
            };
            assert forall|t: int| 0 <= t < n implies #[trigger] g(t) >= 1 by {
                lemma_depth_bounds(w, 31, m, t);
                lemma_pow2_pos((31 - leaf_length(w, t)) as nat);
            }
            let without = |t: int|
                if t == r {
                    0
                } else {
                    g(t)
                };
            crate::tally::lemma_tally_bump(g, without, n, r);
            assert(g(r) == v);
            crate::tally::lemma_tally_term(without, n, other);
            assert(g(other) >= 1);
        }
    }
}

// ---------------------------------------------------------------------------
// Optimality
// ---------------------------------------------------------------------------

/// The sum of the first items of the merge.
proof fn lemma_merged_front_sum(w: Seq<int>, p: Seq<int>, m: int)
    requires
        is_sorted(w),
        is_sorted(p),
        0 <= m <= w.len() + p.len(),
    ensures
        front_sum(merged(w, p), m) == front_sum(w, leaves_in(w, p, m)) + front_sum(
            p,
            m - leaves_in(w, p, m),
        ),
    decreases m,
{
    if m > 0 {
        lemma_merged_front_sum(w, p, m - 1);
        lemma_leaves_in(w, p, m - 1);
        lemma_leaves_in(w, p, m);
    }
}

/// The sum of the first pairs is the sum of their items.
proof fn lemma_pairs_front_sum(list: Seq<int>, b: int)
    requires
        0 <= b <= pairs(list).len(),
    ensures
        front_sum(pairs(list), b) == front_sum(list, 2 * b),
    decreases b,
{
    if b > 0 {
        lemma_pairs_front_sum(list, b - 1);
        assert(front_sum(list, 2 * b) == front_sum(list, 2 * b - 1) + list[2 * b - 1]);
        assert(front_sum(list, 2 * b - 1) == front_sum(list, 2 * b - 2) + list[2 * b - 2]);
    }
}

/// The weighted length total of the leaves is the weight of the items taken.
proof fn lemma_depth_cost(w: Seq<int>, k: nat, m: int)
    requires
        is_sorted(w),
        0 <= m <= level(w, k).len(),
    ensures
        tally(|r: int| w[r] * depth(w, k, m, r), w.len() as int) == front_sum(level(w, k), m),
    decreases k,
{
    let n = w.len() as int;
    let f = |r: int| w[r] * depth(w, k, m, r);
    if k == 0 {
        assert forall|r: int| 0 <= r < n implies #[trigger] f(r) == 0 by {
            assert(w[r] * 0 == 0) by (nonlinear_arith);
        }
        crate::tally::lemma_tally_const(f, n, 0);
        assert(n * 0 == 0) by (nonlinear_arith);
    } else {
        let c = taken(w, k, m);
        let k1 = (k - 1) as nat;
        let m1 = 2 * (m - c);
        let p = pairs(level(w, k1));
        lemma_taken(w, k, m);
        lemma_level_sorted(w, k);
        lemma_depth_cost(w, k1, m1);
        let g = |r: int| w[r] * depth(w, k1, m1, r);
        let here = |r: int|
            if r < c {
                w[r]
            } else {
                0
            };
        assert forall|r: int| 0 <= r < n implies #[trigger] f(r) == here(r) + g(r) by {
            let d1 = depth(w, k1, m1, r);
            let x = w[r];
            assert(x * (1 + d1) == x + x * d1) by (nonlinear_arith);
            assert(x * (0 + d1) == x * d1);
        }
        lemma_tally_add(here, g, f, n);
        lemma_front_only(w, here, n, c);
        lemma_merged_front_sum(w, p, m);
        lemma_pairs_front_sum(level(w, k1), m - c);
    }
}

/// The sum of terms that are those of `w` below `c` and zero from there on.
proof fn lemma_front_only(w: Seq<int>, f: spec_fn(int) -> int, n: int, c: int)
    requires
        0 <= c <= n,
        forall|r: int|
            0 <= r < n ==> #[trigger] f(r) == (if r < c {
                w[r]
            } else {
                0
            }),
    ensures
        tally(f, n) == front_sum(w, c),
    decreases n,
{
    if n == c {
        lemma_tally_same(f, |i: int| w[i], n);
    } else {
        lemma_front_only(w, f, n - 1, c);
        assert(f(n - 1) == 0);
    }
}

/// A longer front of items that are not negative is not lighter.
proof fn lemma_front_grows(s: Seq<int>, a: int, b: int)
    requires
        is_sorted(s),
        0 <= a <= b <= s.len(),
    ensures
        front_sum(s, a) <= front_sum(s, b),
    decreases b - a,
{
    if a < b {
        lemma_front_grows(s, a, b - 1);
        assert(0 <= s[b - 1]);
    }
}

/// No choice of `x` leaves and `m - x` packages is lighter than the first `m`
/// items of the merge.
proof fn lemma_merge_is_lightest(w: Seq<int>, p: Seq<int>, m: int, x: int)
    requires
        is_sorted(w),
        is_sorted(p),
        0 <= x <= w.len(),
        0 <= m - x <= p.len(),
    ensures
        front_sum(merged(w, p), m) <= front_sum(w, x) + front_sum(p, m - x),
    decreases (if x >= leaves_in(w, p, m) {
        x - leaves_in(w, p, m)
    } else {
        leaves_in(w, p, m) - x
    }),
{
    let a = leaves_in(w, p, m);
    lemma_leaves_in(w, p, m);
    lemma_merged_front_sum(w, p, m);
    if x > a {
        lemma_merge_is_lightest(w, p, m, x - 1);
        assert(p[m - a - 1] < w[a]);
        assert(w[a] <= w[x - 1]);
        assert(p[m - x] <= p[m - a - 1]);
        assert(front_sum(w, x) == front_sum(w, x - 1) + w[x - 1]);
        assert(front_sum(p, m - x + 1) == front_sum(p, m - x) + p[m - x]);
    } else if x < a {
        lemma_merge_is_lightest(w, p, m, x + 1);
        assert(w[a - 1] <= p[m - a]);
        assert(w[x] <= w[a - 1]);
        assert(p[m - a] <= p[m - x - 1]);
        assert(front_sum(w, x + 1) == front_sum(w, x) + w[x]);
        assert(front_sum(p, m - x) == front_sum(p, m - x - 1) + p[m - x - 1]);
    }
}

/// How many of the first `n` leaves have a positive length.
spec fn positive_count(len: spec_fn(int) -> int, n: int) -> int {
    tally(
        |r: int|
            if len(r) >= 1 {
                1
            } else {
                0
            },
        n,
    )
}

/// The weight of the first `n` leaves that have a positive length.
spec fn positive_weight(w: Seq<int>, len: spec_fn(int) -> int, n: int) -> int {
    tally(
        |r: int|
            if len(r) >= 1 {
                w[r]
            } else {
                0
            },
        n,
    )
}

/// Leaves chosen among sorted ones are not lighter than as many from the front.
proof fn lemma_chosen_weight(w: Seq<int>, len: spec_fn(int) -> int, n: int)
    requires
        is_sorted(w),
        0 <= n <= w.len(),
    ensures
        0 <= positive_count(len, n) <= n,
        front_sum(w, positive_count(len, n)) <= positive_weight(w, len, n),
    decreases n,
{
    if n > 0 {
        lemma_chosen_weight(w, len, n - 1);
        let x = positive_count(len, n - 1);
        if len(n - 1) >= 1 {
            assert(front_sum(w, x + 1) == front_sum(w, x) + w[x]);
            assert(w[x] <= w[n - 1]);
        }
    }
}

/// Lengths of at most `k` bits whose total slack is at least half of `m` code
/// spaces weigh at least the first `m` items of the list of level `k`.
proof fn lemma_level_is_lightest(w: Seq<int>, k: nat, m: int, len: spec_fn(int) -> int)
    requires
        is_sorted(w),
        0 <= m,
        forall|r: int| 0 <= r < w.len() ==> 0 <= #[trigger] len(r) <= k,
        m * pow2(k) <= 2 * tally(|r: int| slack(k, len(r)), w.len() as int),
    ensures
        m <= level(w, k).len(),
        front_sum(level(w, k), m) <= tally(|r: int| w[r] * len(r), w.len() as int),
    decreases k,
{
    let n = w.len() as int;
    let f = |r: int| slack(k, len(r));
    let cost = |r: int| w[r] * len(r);
    if k == 0 {
        assert forall|r: int| 0 <= r < n implies #[trigger] f(r) == 0 && cost(r) == 0 by {
            assert(len(r) == 0);
            assert(w[r] * 0 == 0) by (nonlinear_arith);
        }
        crate::tally::lemma_tally_const(f, n, 0);
        assert(n * 0 == 0) by (nonlinear_arith);
        lemma_pow2_pos(0);
        assert(m == 0) by (nonlinear_arith)
            requires
                m >= 0,
                m * pow2(0) <= 0,
                pow2(0) > 0,
        ;
        lemma_tally_nonneg(cost, n);
    } else {
        let k1 = (k - 1) as nat;
        let len1 = |r: int|
            if len(r) >= 1 {
                len(r) - 1
            } else {
                0
            };
        let x = positive_count(len, n);
        lemma_chosen_weight(w, len, n);
        lemma_level_sorted(w, k);
        let p = pairs(level(w, k1));
        // The slack of one level less.
        let g = |r: int| slack(k1, len1(r));
        let ones = |r: int|
            if len(r) >= 1 {
                1int
            } else {
                0
            };
        let h = pow2(k1) as int;
        let half = |r: int| ones(r) * h;
        assert forall|r: int| 0 <= r < n implies #[trigger] f(r) == half(r) + g(r) by {
            assert(0 <= len(r) <= k);
            lemma_slack_step(k, if len(r) >= 1 { len(r) } else { 1 });
            assert(1 * h == h && 0 * h == 0) by (nonlinear_arith);
        }
        lemma_tally_add(half, g, f, n);
        lemma_tally_scale(ones, half, n, h);
        lemma_tally_same(
            ones,
            |r: int|
                if len(r) >= 1 {
                    1
                } else {
                    0
                },
            n,
        );
        assert(tally(half, n) == x * h);
        lemma_pow2_unfold(k);
        let x1 = if x <= m {
            x
        } else {
            m
        };
        let m1 = 2 * (m - x1);
        assert forall|r: int| 0 <= r < n implies #[trigger] g(r) >= 0 by {
            lemma_slack_nonneg(k1, len1(r));
        }
        lemma_tally_nonneg(g, n);
        lemma_pow2_pos(k1);
        assert(m1 * h <= 2 * tally(g, n)) by {
            let t = tally(g, n);
            if x <= m {
                assert(m * (2 * h) <= 2 * (x * h + t));
                assert((2 * (m - x)) * h == m * (2 * h) - 2 * (x * h)) by (nonlinear_arith);
            } else {
                assert(0 * h == 0) by (nonlinear_arith);
            }
        }
        assert forall|r: int| 0 <= r < n implies 0 <= #[trigger] len1(r) <= k1 by {
            assert(0 <= len(r) <= k);
        }
        lemma_level_is_lightest(w, k1, m1, len1);
        assert(m - x1 <= p.len());
        lemma_merge_is_lightest(w, p, m, x1);
        lemma_pairs_front_sum(level(w, k1), m - x1);
        lemma_front_grows(w, x1, x);
        // The cost splits likewise.
        let chosen = |r: int|
            if len(r) >= 1 {
                w[r]
            } else {
                0
            };
        let cost1 = |r: int| w[r] * len1(r);
        assert forall|r: int| 0 <= r < n implies #[trigger] cost(r) == chosen(r) + cost1(r) by {
            let (v, l) = (w[r], len(r));
            assert(0 <= l);
            if l >= 1 {
                assert(v * l == v + v * (l - 1)) by (nonlinear_arith);
            }
        }
        lemma_tally_add(chosen, cost1, cost, n);
        lemma_tally_same(
            chosen,
            |r: int|
                if len(r) >= 1 {
                    w[r]
                } else {
                    0
                },
            n,
        );
    }
}

proof fn lemma_slack_nonneg(k: nat, len: int)
    requires
        0 <= len <= k,
    ensures
        slack(k, len) >= 0,
{
    if len > 0 {
        vstd::arithmetic::power2::lemma_pow2_strictly_increases((k - len) as nat, k);
    }
}

/// A common factor moves out of a sum.
proof fn lemma_tally_scale(f: spec_fn(int) -> int, g: spec_fn(int) -> int, n: int, c: int)
    requires
        forall|i: int| 0 <= i < n ==> #[trigger] g(i) == f(i) * c,
    ensures
        tally(g, n) == tally(f, n) * c,
    decreases n,
{
    if n > 0 {
        lemma_tally_scale(f, g, n - 1, c);
        assert(g(n - 1) == f(n - 1) * c);
        let (a, b) = (tally(f, n - 1), f(n - 1));
        assert(a * c + b * c == (a + b) * c) by (nonlinear_arith);
    } else {
        assert(0 * c == 0) by (nonlinear_arith);
    }
}

/// No lengths of at most 31 that fit into the code space of 31 bits have a
/// smaller weighted total.
pub proof fn lemma_leaf_lengths_optimal(w: Seq<int>, len: spec_fn(int) -> int)
    requires
        is_sorted(w),
        2 <= w.len() <= 256,
        forall|r: int| 0 <= r < w.len() ==> 0 <= #[trigger] len(r) <= 31,
        tally(|r: int| pow2((31 - len(r)) as nat) as int, w.len() as int) <= pow2(31),
    ensures
        tally(|r: int| w[r] * leaf_length(w, r), w.len() as int) <= tally(
            |r: int| w[r] * len(r),
            w.len() as int,
        ),
{
    let n = w.len() as int;
    let m = 2 * n - 2;
    let v = pow2(31) as int;
    let f = |r: int| slack(31, len(r));
    let g = |r: int| pow2((31 - len(r)) as nat) as int;
    let full = |r: int| v;
    lemma_tally_add(f, g, full, n);
    crate::tally::lemma_tally_const(full, n, v);
    assert(m * v == 2 * (n * v - v)) by (nonlinear_arith)
        requires
            m == 2 * n - 2,
    ;
    lemma_level_is_lightest(w, 31, m, len);
    lemma_depth_cost(w, 31, m);
    lemma_tally_same(
        |r: int| w[r] * leaf_length(w, r),
        |r: int| w[r] * depth(w, 31, m, r),
        n,
    );
}

// ---------------------------------------------------------------------------
// Computing the lengths
// ---------------------------------------------------------------------------

/// The weights as integers.
pub open spec fn as_ints(v: Seq<u64>) -> Seq<int> {
    v.map_values(|x: u64| x as int)
}

/// Items at most double from level to level.
proof fn lemma_level_bound(w: Seq<int>, k: nat)
    requires
        is_sorted(w),
        forall|i: int| 0 <= i < w.len() ==> #[trigger] w[i] <= u32::MAX,
    ensures
        forall|i: int| 0 <= i < level(w, k).len() ==> #[trigger] level(w, k)[i] <= pow2(31 + k),
    decreases k,
{
    if k > 0 {
        let k1 = (k - 1) as nat;
        let below = level(w, k1);
        let p = pairs(below);
        lemma_level_bound(w, k1);
        lemma_level_sorted(w, k);
        lemma_pow2_unfold(31 + k);
        vstd::arithmetic::power2::lemma2_to64();
        if k > 1 {
            vstd::arithmetic::power2::lemma_pow2_strictly_increases(32, 31 + k);
        }
        assert forall|i: int| 0 <= i < level(w, k).len() implies #[trigger] level(w, k)[i] <= pow2(
            31 + k,
        ) by {
            lemma_leaves_in(w, p, i);
            let a = leaves_in(w, p, i);
            if next_is_leaf(w, p, i) {
                assert(w[a] <= u32::MAX);
            } else {
                let b = i - a;
                assert(b < p.len()) by {
                    lemma_leaves_in(w, p, i + 1);
                }
                assert(below[2 * b] <= pow2(31 + k1));
                assert(below[2 * b + 1] <= pow2(31 + k1));
            }
        }
    }
}

/// The sums of neighbouring pairs.
fn pair_sums(list: &Vec<u64>) -> (p: Vec<u64>)
    requires
        forall|i: int| 0 <= i < list@.len() ==> #[trigger] list@[i] <= 0x4000_0000_0000_0000,
    ensures
        as_ints(p@) == pairs(as_ints(list@)),
{
    let mut p: Vec<u64> = Vec::new();
    let len: usize = list.len();
    let half: usize = len / 2;
    let mut i: usize = 0;
    while i < half
        invariant
            len == list@.len(),
            half == len / 2,
            i <= half,
            p@.len() == i,
            forall|i: int| 0 <= i < list@.len() ==> #[trigger] list@[i] <= 0x4000_0000_0000_0000,
            forall|j: int| 0 <= j < i ==> #[trigger] p@[j] == pairs(as_ints(list@))[j],
        decreases half - i,
    {
        let (x, y) = (list[2 * i], list[2 * i + 1]);
        p.push(x + y);
        assert(as_ints(list@)[2 * i as int] == x && as_ints(list@)[2 * i as int + 1] == y);
        i = i + 1;
    }
    assert(as_ints(p@) =~= pairs(as_ints(list@)));
    p
}

/// The merge of leaves and packages, with the number of leaves in each of its
/// fronts.
fn merge(w: &Vec<u64>, p: &Vec<u64>) -> (r: (Vec<u64>, Vec<usize>))
    requires
        is_sorted(as_ints(w@)),
        is_sorted(as_ints(p@)),
        w@.len() + p@.len() < usize::MAX,
    ensures
        as_ints(r.0@) == merged(as_ints(w@), as_ints(p@)),
        r.1@.len() == w@.len() + p@.len() + 1,
        forall|m: int|
            0 <= m <= w@.len() + p@.len() ==> #[trigger] r.1@[m] == leaves_in(
                as_ints(w@),
                as_ints(p@),
                m,
            ),
{
    let ghost (ws, ps) = (as_ints(w@), as_ints(p@));
    let total: usize = w.len() + p.len();
    let mut out: Vec<u64> = Vec::new();
    let mut counts: Vec<usize> = Vec::new();
    counts.push(0);
    let mut a: usize = 0;
    let mut m: usize = 0;
    while m < total
        invariant
            ws == as_ints(w@),
            ps == as_ints(p@),
            is_sorted(ws),
            is_sorted(ps),
            total == w@.len() + p@.len(),
            total < usize::MAX,
            m <= total,
            a == leaves_in(ws, ps, m as int),
            out@.len() == m,
            counts@.len() == m + 1,
            forall|j: int| 0 <= j < m ==> #[trigger] out@[j] == merged(ws, ps)[j],
            forall|j: int| 0 <= j <= m ==> #[trigger] counts@[j] == leaves_in(ws, ps, j),
        decreases total - m,
    {
        proof {
            lemma_leaves_in(ws, ps, m as int);
            lemma_leaves_in(ws, ps, m as int + 1);
        }
        let b: usize = m - a;
        if a < w.len() && (b >= p.len() || w[a] <= p[b]) {
            out.push(w[a]);
            a = a + 1;
        } else {
            out.push(p[b]);
        }
        m = m + 1;
        counts.push(a);
    }
    assert(as_ints(out@) =~= merged(ws, ps));
    (out, counts)
}

/// The lengths of the leaves, by ascending weight.
pub fn leaf_lengths(w: &Vec<u64>) -> (lens: Vec<u8>)
    requires
        is_sorted(as_ints(w@)),
        2 <= w@.len() <= 256,
        forall|i: int| 0 <= i < w@.len() ==> #[trigger] w@[i] <= u32::MAX,
    ensures
        lens@.len() == w@.len(),
        forall|r: int|
            0 <= r < w@.len() ==> #[trigger] lens@[r] == leaf_length(as_ints(w@), r),
{
    let ghost ws = as_ints(w@);
    let n: usize = w.len();
    let mut list: Vec<u64> = Vec::new();
    let mut counts: Vec<Vec<usize>> = Vec::new();
    let mut k: usize = 0;
    assert(as_ints(list@) =~= level(ws, 0));
    while k < 31
        invariant
            ws == as_ints(w@),
            n == w@.len(),
            is_sorted(ws),
            2 <= n <= 256,
            forall|i: int| 0 <= i < w@.len() ==> #[trigger] w@[i] <= u32::MAX,
            k <= 31,
            as_ints(list@) == level(ws, k as nat),
            list@.len() <= 2 * n,
            counts@.len() == k,
            forall|j: int|
                0 <= j < k ==> (#[trigger] counts@[j])@.len() == level(ws, (j + 1) as nat).len() + 1,
            forall|j: int, m: int|
                0 <= j < k && 0 <= m <= level(ws, (j + 1) as nat).len()
                    ==> #[trigger] counts@[j]@[m] == taken(ws, (j + 1) as nat, m),
        decreases 31 - k,
    {
        proof {
            assert(forall|i: int| 0 <= i < ws.len() ==> #[trigger] ws[i] == w@[i]);
            lemma_level_bound(ws, k as nat);
            lemma_level_sorted(ws, (k + 1) as nat);
            lemma_level_sorted(ws, k as nat);
            vstd::arithmetic::power2::lemma2_to64_rest();
            if k < 30 {
                vstd::arithmetic::power2::lemma_pow2_strictly_increases((31 + k) as nat, 61);
            }
            assert forall|i: int| 0 <= i < list@.len() implies #[trigger] list@[i]
                <= 0x4000_0000_0000_0000 by {
                assert(as_ints(list@)[i] == list@[i]);
                assert(level(ws, k as nat)[i] <= pow2(31 + k as nat));
            }
        }
        let p = pair_sums(&list);
        proof {
            assert(p@.len() == as_ints(p@).len());
            assert(list@.len() == as_ints(list@).len());
        }
        let (next, c) = merge(w, &p);
        list = next;
        let ghost before = counts@;
        counts.push(c);
        k = k + 1;
        proof {
            assert(list@.len() == as_ints(list@).len());
            assert forall|j: int, m: int|
                0 <= j < k && 0 <= m <= level(ws, (j + 1) as nat).len() implies
                #[trigger] counts@[j]@[m] == taken(ws, (j + 1) as nat, m) by {
                if j < k - 1 {
                    assert(counts@[j] == before[j]);
                }
            }
        }
    }
    proof {
        lemma_last_level_len(ws);
    }
    let mut lens: Vec<u8> = vec![0u8; n];
    let mut m: usize = 2 * n - 2;
    while k > 0
        invariant
            ws == as_ints(w@),
            n == w@.len(),
            is_sorted(ws),
            2 <= n <= 256,
            k <= 31,
            m <= level(ws, k as nat).len(),
            counts@.len() == 31,
            forall|j: int|
                0 <= j < 31 ==> (#[trigger] counts@[j])@.len() == level(ws, (j + 1) as nat).len() + 1,
            forall|j: int, m: int|
                0 <= j < 31 && 0 <= m <= level(ws, (j + 1) as nat).len()
                    ==> #[trigger] counts@[j]@[m] == taken(ws, (j + 1) as nat, m),
            lens@.len() == n,
            forall|r: int|
                0 <= r < n ==> #[trigger] lens@[r] + depth(ws, k as nat, m as int, r) == leaf_length(
                    ws,
                    r,
                ),
            forall|r: int| 0 <= r < n ==> #[trigger] lens@[r] <= 31 - k,
        decreases k,
    {
        proof {
            lemma_taken(ws, k as nat, m as int);
            lemma_level_len_bound(ws, k as nat);
            lemma_level_len_bound(ws, (k - 1) as nat);
        }
        let c: usize = counts[k - 1][m];
        let ghost before = lens@;
        let mut r: usize = 0;
        while r < c
            invariant
                r <= c <= n,
                1 <= k <= 31,
                lens@.len() == n,
                before.len() == n,
                forall|q: int| 0 <= q < n ==> #[trigger] before[q] <= 31 - k,
                forall|q: int|
                    0 <= q < n ==> #[trigger] lens@[q] == before[q] + (if q < r {
                        1int
                    } else {
                        0
                    }),
            decreases c - r,
        {
            let l: u8 = lens[r];
            assert(before[r as int] <= 31 - k);
            lens.set(r, l + 1);
            r = r + 1;
        }
        m = 2 * (m - c);
        k = k - 1;
        proof {
            assert forall|q: int| 0 <= q < n implies #[trigger] lens@[q] + depth(
                ws,
                k as nat,
                m as int,
                q,
            ) == leaf_length(ws, q) by {
                assert(before[q] <= 31 - (k + 1));
            }
        }
    }
    lens
}

} // verus!
