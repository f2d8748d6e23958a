//! The cost of the lengths that joining the lightest groups gives.
//!
//! No code spends fewer bits on the symbols. Two of the longest codewords of a
//! code can be handed to the two lightest groups without making it dearer, and
//! what then remains is a code for the groups with those two joined.

use vstd::prelude::*;
use vstd::arithmetic::div_mod::{
    lemma_add_mod_noop, lemma_fundamental_div_mod, lemma_mod_multiples_basic, lemma_small_mod,
};
use vstd::arithmetic::power2::{lemma_pow2_adds, lemma_pow2_pos, lemma_pow2_unfold, pow2};

use crate::length_builder::{
    all_joined, cap_of, coded_symbols, fitted_lengths, is_forest, joined, joined_lengths,
    lemma_all_joined, lemma_coded_symbols, lemma_joined, lemma_lightest, lemma_present,
    lemma_seedlings, lightest, present, seedlings, weight, within, Forest,
};
use crate::tally::{
    lemma_tally_add, lemma_tally_bump, lemma_tally_const, lemma_tally_le, lemma_tally_over_order,
    lemma_tally_same, tally,
};

verus! {

// ---------------------------------------------------------------------------
// Sums
// ---------------------------------------------------------------------------

/// The terms of a sequence together.
spec fn sum(s: Seq<int>) -> int
    decreases s.len(),
{
    if s.len() == 0 {
        0
    } else {
        sum(s.drop_last()) + s.last()
    }
}

/// Taking a term out takes it from the sum.
proof fn lemma_sum_without(s: Seq<int>, i: int)
    requires
        0 <= i < s.len(),
    ensures
        sum(s) == s[i] + sum(s.remove(i)),
    decreases s.len(),
{
    let rest = s.remove(i);
    if i == s.len() - 1 {
        assert(rest =~= s.drop_last());
    } else {
        lemma_sum_without(s.drop_last(), i);
        assert(rest.drop_last() =~= s.drop_last().remove(i));
        assert(rest.last() == s.last());
    }
}

/// Changing a term changes the sum by as much.
proof fn lemma_sum_update(s: Seq<int>, i: int, x: int)
    requires
        0 <= i < s.len(),
    ensures
        sum(s.update(i, x)) == sum(s) - s[i] + x,
{
    lemma_sum_without(s, i);
    lemma_sum_without(s.update(i, x), i);
    assert(s.update(i, x).remove(i) =~= s.remove(i));
}

/// A term put at the end is added.
proof fn lemma_sum_push(s: Seq<int>, x: int)
    ensures
        sum(s.push(x)) == sum(s) + x,
{
    assert(s.push(x).drop_last() =~= s);
}

/// A sum of terms that are not negative is not negative.
proof fn lemma_sum_nonneg(s: Seq<int>)
    requires
        forall|i: int| 0 <= i < s.len() ==> #[trigger] s[i] >= 0,
    ensures
        sum(s) >= 0,
    decreases s.len(),
{
    if s.len() > 0 {
        assert(s[s.len() - 1] >= 0);
        assert forall|i: int| 0 <= i < s.drop_last().len() implies #[trigger] s.drop_last()[i]
            >= 0 by {
            assert(s[i] >= 0);
        }
        lemma_sum_nonneg(s.drop_last());
    }
}

/// A sum of multiples of `d` is one.
proof fn lemma_sum_multiple(s: Seq<int>, d: int)
    requires
        d > 0,
        forall|i: int| 0 <= i < s.len() ==> #[trigger] s[i] % d == 0,
    ensures
        sum(s) % d == 0,
    decreases s.len(),
{
    lemma_small_mod(0, d as nat);
    if s.len() > 0 {
        let front = s.drop_last();
        assert(s[s.len() - 1] % d == 0);
        assert forall|i: int| 0 <= i < front.len() implies #[trigger] front[i] % d == 0 by {
            assert(s[i] % d == 0);
        }
        lemma_sum_multiple(front, d);
        lemma_add_mod_noop(sum(front), s.last(), d);
    }
}

/// A sum of a sequence is the sum of its terms by place.
proof fn lemma_sum_tally(s: Seq<int>, f: spec_fn(int) -> int)
    requires
        forall|i: int| 0 <= i < s.len() ==> #[trigger] s[i] == f(i),
    ensures
        sum(s) == tally(f, s.len() as int),
    decreases s.len(),
{
    if s.len() > 0 {
        let front = s.drop_last();
        assert(s[s.len() - 1] == f(s.len() - 1));
        assert forall|i: int| 0 <= i < front.len() implies #[trigger] front[i] == f(i) by {
            assert(s[i] == f(i));
        }
        lemma_sum_tally(front, f);
    }
}

// ---------------------------------------------------------------------------
// Codes for groups
// ---------------------------------------------------------------------------

/// What the codeword of each group takes of a code space of `2^d`.
spec fn shares(l: Seq<int>, d: nat) -> Seq<int> {
    Seq::new(l.len(), |i: int| pow2((d - l[i]) as nat) as int)
}

/// What each group spends.
spec fn costs(groups: Seq<(int, int)>, l: Seq<int>) -> Seq<int> {
    Seq::new(l.len(), |i: int| groups[i].0 * l[i])
}

/// Codewords of these lengths have room beside each other.
spec fn has_room(l: Seq<int>, d: nat) -> bool {
    &&& forall|i: int| 0 <= i < l.len() ==> 0 <= #[trigger] l[i] <= d
    &&& sum(shares(l, d)) <= pow2(d)
}

/// The place of the longest length.
proof fn lemma_longest(l: Seq<int>) -> (m: int)
    requires
        l.len() > 0,
    ensures
        0 <= m < l.len(),
        forall|i: int| 0 <= i < l.len() ==> #[trigger] l[i] <= l[m],
    decreases l.len(),
{
    if l.len() == 1 {
        0
    } else {
        let front = l.drop_last();
        let k = lemma_longest(front);
        let m = if l.last() > l[k] {
            l.len() - 1
        } else {
            k
        };
        assert forall|i: int| 0 <= i < l.len() implies #[trigger] l[i] <= l[m] by {
            if i < front.len() {
                assert(front[i] == l[i]);
                assert(front[i] <= front[k]);
            }
        }
        m
    }
}

/// A codeword longer than all others can lose a bit.
proof fn lemma_shorten(l: Seq<int>, m: int, d: nat)
    requires
        has_room(l, d),
        0 <= m < l.len(),
        l[m] >= 1,
        forall|j: int| 0 <= j < l.len() && j != m ==> #[trigger] l[j] < l[m],
    ensures
        has_room(l.update(m, l[m] - 1), d),
{
    let top = l[m];
    let s = shares(l, d);
    let rest = s.remove(m);
    let u = pow2((d - top) as nat) as int;
    let w = pow2((d - top + 1) as nat) as int;
    lemma_pow2_pos((d - top + 1) as nat);
    lemma_pow2_unfold((d - top + 1) as nat);
    assert forall|i: int| 0 <= i < rest.len() implies #[trigger] rest[i] % w == 0 by {
        let j = if i < m {
            i
        } else {
            i + 1
        };
        assert(rest[i] == s[j]);
        assert(l[j] < top);
        lemma_pow2_adds((top - 1 - l[j]) as nat, (d - top + 1) as nat);
        lemma_mod_multiples_basic(pow2((top - 1 - l[j]) as nat) as int, w);
    }
    lemma_sum_multiple(rest, w);
    lemma_sum_without(s, m);
    lemma_pow2_adds((top - 1) as nat, (d - top + 1) as nat);
    let x = sum(rest);
    let r = pow2((top - 1) as nat) as int;
    let q = x / w;
    lemma_fundamental_div_mod(x, w);
    assert(x + w <= r * w) by (nonlinear_arith)
        requires
            w == 2 * u,
            u > 0,
            x == w * q,
            u + x <= r * w,
    ;
    let shorter = l.update(m, top - 1);
    lemma_sum_update(s, m, w);
    assert(shares(shorter, d) =~= s.update(m, w));
}

/// Handing the longer of two codewords to the lighter of two groups makes a code
/// no dearer.
proof fn lemma_swap(groups: Seq<(int, int)>, l: Seq<int>, i: int, j: int, d: nat)
    requires
        has_room(l, d),
        groups.len() == l.len(),
        0 <= i < l.len(),
        0 <= j < l.len(),
        i != j,
        groups[i].0 <= groups[j].0,
        l[i] <= l[j],
    ensures
        has_room(l.update(i, l[j]).update(j, l[i]), d),
        sum(costs(groups, l.update(i, l[j]).update(j, l[i]))) <= sum(costs(groups, l)),
{
    let t = l.update(i, l[j]).update(j, l[i]);
    let s = shares(l, d);
    lemma_sum_update(s, i, s[j]);
    lemma_sum_update(s.update(i, s[j]), j, s[i]);
    assert(shares(t, d) =~= s.update(i, s[j]).update(j, s[i]));
    let c = costs(groups, l);
    let (p, q) = (groups[i].0 * l[j], groups[j].0 * l[i]);
    lemma_sum_update(c, i, p);
    lemma_sum_update(c.update(i, p), j, q);
    assert(costs(groups, t) =~= c.update(i, p).update(j, q));
    let (gi, gj, li, lj) = (groups[i].0, groups[j].0, l[i], l[j]);
    assert(gi * lj + gj * li <= gi * li + gj * lj) by (nonlinear_arith)
        requires
            gi <= gj,
            li <= lj,
    ;
}

/// The place before place `a` was taken out.
spec fn before(a: int, b: int) -> int {
    if b < a {
        b
    } else {
        b + 1
    }
}

/// Two groups with codewords of one length, joined, need a codeword one bit
/// shorter.
proof fn lemma_merge(f: Forest, l: Seq<int>, d: nat, a: int, b: int)
    requires
        f.groups.len() >= 2,
        l.len() == f.groups.len(),
        has_room(l, d),
        a == lightest(f.groups),
        b == lightest(f.groups.remove(a)),
        0 <= a < l.len(),
        0 <= b < l.len() - 1,
        l[a] == l[before(a, b)],
        l[a] >= 1,
    ensures
        has_room(l.remove(a).remove(b).push(l[a] - 1), d),
        joined(f).groups.len() == l.len() - 1,
        sum(costs(joined(f).groups, l.remove(a).remove(b).push(l[a] - 1))) == sum(
            costs(f.groups, l),
        ) - f.groups[a].0 - f.groups.remove(a)[b].0,
{
    let top = l[a];
    let t = l.remove(a).remove(b).push(top - 1);
    let g = joined(f).groups;
    let (wa, wb) = (f.groups[a].0, f.groups.remove(a)[b].0);
    assert(l.remove(a)[b] == l[before(a, b)]);
    assert(f.groups.remove(a)[b] == f.groups[before(a, b)]);
    assert forall|i: int| 0 <= i < t.len() implies 0 <= #[trigger] t[i] <= d by {
        if i < t.len() - 1 {
            assert(t[i] == l[before(a, before(b, i))]);
        }
    }
    let s = shares(l, d);
    let two = s.remove(a).remove(b);
    let w = pow2((d - top + 1) as nat) as int;
    lemma_sum_without(s, a);
    lemma_sum_without(s.remove(a), b);
    lemma_sum_push(two, w);
    lemma_pow2_unfold((d - top + 1) as nat);
    assert(s.remove(a)[b] == s[before(a, b)]);
    assert(shares(t, d) =~= two.push(w)) by {
        assert forall|i: int| 0 <= i < two.len() implies shares(t, d)[i] == #[trigger] two[i] by {
            assert(two[i] == s[before(a, before(b, i))]);
            assert(t[i] == l[before(a, before(b, i))]);
        }
    }
    let c = costs(f.groups, l);
    let rest = c.remove(a).remove(b);
    lemma_sum_without(c, a);
    lemma_sum_without(c.remove(a), b);
    lemma_sum_push(rest, (wa + wb) * (top - 1));
    assert(c.remove(a)[b] == c[before(a, b)]);
    assert(costs(g, t) =~= rest.push((wa + wb) * (top - 1))) by {
        assert forall|i: int| 0 <= i < rest.len() implies costs(g, t)[i] == #[trigger] rest[i] by {
            let k = before(a, before(b, i));
            assert(rest[i] == c[k]);
            assert(t[i] == l[k]);
            assert(g[i] == f.groups.remove(a).remove(b)[i]);
            assert(g[i] == f.groups[k]);
        }
    }
    assert((wa + wb) * (top - 1) == wa * top + wb * top - wa - wb) by (nonlinear_arith);
}

/// Two groups or more cannot all have the empty codeword.
proof fn lemma_not_all_empty(l: Seq<int>, d: nat, m: int)
    requires
        has_room(l, d),
        l.len() >= 2,
        0 <= m < l.len(),
        forall|i: int| 0 <= i < l.len() ==> #[trigger] l[i] <= l[m],
    ensures
        l[m] >= 1,
{
    if l[m] == 0 {
        let s = shares(l, d);
        let rest = s.remove(0);
        lemma_sum_without(s, 0);
        lemma_sum_without(rest, 0);
        assert(l[0] == 0 && l[1] == 0);
        assert(rest[0] == s[1]);
        let last = rest.remove(0);
        assert forall|i: int| 0 <= i < last.len() implies #[trigger] last[i] >= 0 by {
            assert(last[i] == s[i + 2]);
        }
        lemma_sum_nonneg(last);
        lemma_pow2_pos(d);
    }
}

// ---------------------------------------------------------------------------
// The least cost
// ---------------------------------------------------------------------------

/// The weights of all groups that joining makes, together.
spec fn join_cost(f: Forest) -> int
    decreases f.groups.len(),
    via join_cost_decreases
{
    if f.groups.len() < 2 {
        0
    } else {
        joined(f).groups.last().0 + join_cost(joined(f))
    }
}

#[via_fn]
proof fn join_cost_decreases(f: Forest) {
    if f.groups.len() >= 2 {
        lemma_lightest(f.groups);
        lemma_lightest(f.groups.remove(lightest(f.groups)));
    }
}

/// The two lightest groups can have two of the longest codewords.
proof fn lemma_lightest_longest(
    groups: Seq<(int, int)>,
    l: Seq<int>,
    d: nat,
    m: int,
    k: int,
    a: int,
    c: int,
) -> (t: Seq<int>)
    requires
        has_room(l, d),
        groups.len() == l.len(),
        0 <= m < l.len(),
        0 <= k < l.len(),
        0 <= a < l.len(),
        0 <= c < l.len(),
        m != k,
        a != c,
        l[m] == l[k],
        forall|i: int| 0 <= i < l.len() ==> #[trigger] l[i] <= l[m],
        forall|i: int| 0 <= i < l.len() ==> groups[a].0 <= (#[trigger] groups[i]).0,
        forall|i: int|
            0 <= i < l.len() && i != a ==> groups[c].0 <= (#[trigger] groups[i]).0,
    ensures
        has_room(t, d),
        t.len() == l.len(),
        t[a] == l[m],
        t[c] == l[m],
        sum(costs(groups, t)) <= sum(costs(groups, l)),
{
    let top = l[m];
    let x = if m != c {
        m
    } else {
        k
    };
    let (p, y) = if l[a] == top {
        (
            l,
            if m != a {
                m
            } else {
                k
            },
        )
    } else {
        (
            l.update(a, l[x]).update(x, l[a]),
            if x == m {
                k
            } else {
                m
            },
        )
    };
    if l[a] != top {
        assert(l[a] <= top);
        assert(groups[a].0 <= groups[x].0);
        lemma_swap(groups, l, a, x, d);
    }
    assert(p[a] == top && p[y] == top && y != a);
    assert forall|i: int| 0 <= i < p.len() implies #[trigger] p[i] <= top by {
        assert(l[i] <= top && l[a] <= top);
    }
    if p[c] == top {
        p
    } else {
        assert(p[c] <= top);
        assert(groups[c].0 <= groups[y].0);
        lemma_swap(groups, p, c, y, d);
        p.update(c, p[y]).update(y, p[c])
    }
}

/// No code for the groups costs less than joining them.
proof fn lemma_join_cheapest(f: Forest, l: Seq<int>, d: nat)
    requires
        f.groups.len() >= 1,
        l.len() == f.groups.len(),
        has_room(l, d),
        forall|i: int| 0 <= i < f.groups.len() ==> 0 <= (#[trigger] f.groups[i]).0,
    ensures
        join_cost(f) <= sum(costs(f.groups, l)),
    decreases f.groups.len(), sum(l),
{
    let n = f.groups.len();
    if n == 1 {
        let c = costs(f.groups, l);
        let (w, x) = (f.groups[0].0, l[0]);
        assert(w * x >= 0) by (nonlinear_arith)
            requires
                w >= 0,
                x >= 0,
        ;
        lemma_sum_nonneg(c);
    } else {
        let m = lemma_longest(l);
        let top = l[m];
        lemma_not_all_empty(l, d, m);
        if forall|j: int| 0 <= j < n && j != m ==> #[trigger] l[j] < top {
            let t = l.update(m, top - 1);
            lemma_shorten(l, m, d);
            lemma_sum_update(l, m, top - 1);
            lemma_sum_nonneg(t);
            let c = costs(f.groups, l);
            let w = f.groups[m].0;
            lemma_sum_update(c, m, w * (top - 1));
            assert(costs(f.groups, t) =~= c.update(m, w * (top - 1)));
            assert(w * (top - 1) <= w * top) by (nonlinear_arith)
                requires
                    w >= 0,
            ;
            lemma_join_cheapest(f, t, d);
        } else {
            let k = choose|j: int| 0 <= j < n && j != m && !(#[trigger] l[j] < top);
            let a = lightest(f.groups);
            let rest = f.groups.remove(a);
            let b = lightest(rest);
            lemma_lightest(f.groups);
            lemma_lightest(rest);
            let c = before(a, b);
            assert(rest[b] == f.groups[c]);
            assert forall|i: int| 0 <= i < n && i != a implies f.groups[c].0
                <= (#[trigger] f.groups[i]).0 by {
                let j = if i < a {
                    i
                } else {
                    i - 1
                };
                assert(rest[j] == f.groups[i]);
            }
            let t = lemma_lightest_longest(f.groups, l, d, m, k, a, c);
            lemma_merge(f, t, d, a, b);
            let g = joined(f);
            assert forall|i: int| 0 <= i < g.groups.len() implies 0
                <= (#[trigger] g.groups[i]).0 by {
                if i < g.groups.len() - 1 {
                    assert(g.groups[i] == rest.remove(b)[i]);
                    assert(g.groups[i] == f.groups[before(a, before(b, i))]);
                }
            }
            lemma_join_cheapest(g, t.remove(a).remove(b).push(t[a] - 1), d);
        }
    }
}

// ---------------------------------------------------------------------------
// The cost of the levels
// ---------------------------------------------------------------------------

/// The weights of the symbols of a group.
spec fn members(f: Forest, freqs: Seq<u64>, id: int) -> spec_fn(int) -> int {
    |s: int|
        if f.owner[s] == id {
            weight(freqs, s)
        } else {
            0
        }
}

/// The weight of each group is that of its symbols.
spec fn has_weights(f: Forest, freqs: Seq<u64>) -> bool {
    forall|i: int|
        0 <= i < f.groups.len() ==> (#[trigger] f.groups[i]).0 == tally(
            members(f, freqs, f.groups[i].1),
            freqs.len() as int,
        )
}

/// What each symbol spends at its level.
spec fn level_costs(f: Forest, freqs: Seq<u64>) -> spec_fn(int) -> int {
    |s: int| weight(freqs, s) * f.level[s]
}

/// Joining two groups costs what they weigh.
proof fn lemma_joined_cost(f: Forest, freqs: Seq<u64>, start: int, unit: nat)
    requires
        is_forest(f, freqs.len() as int, start, unit),
        has_weights(f, freqs),
        f.groups.len() >= 2,
    ensures
        has_weights(joined(f), freqs),
        tally(level_costs(joined(f), freqs), freqs.len() as int) == tally(
            level_costs(f, freqs),
            freqs.len() as int,
        ) + joined(f).groups.last().0,
{
    let n = freqs.len() as int;
    let a = lightest(f.groups);
    let rest = f.groups.remove(a);
    let b = lightest(rest);
    lemma_lightest(f.groups);
    lemma_lightest(rest);
    let c = before(a, b);
    let (ga, gb) = (f.groups[a], f.groups[c]);
    assert(rest[b] == gb);
    assert(ga.1 != gb.1);
    let g = joined(f);
    let (fa, fb) = (members(f, freqs, ga.1), members(f, freqs, gb.1));
    let fg = members(g, freqs, f.next);
    assert forall|s: int| 0 <= s < n implies #[trigger] fg(s) == fa(s) + fb(s) by {
        lemma_owner_below(f, n, start, unit, s);
    }
    lemma_tally_add(fa, fb, fg, n);
    assert forall|i: int| 0 <= i < g.groups.len() implies (#[trigger] g.groups[i]).0 == tally(
        members(g, freqs, g.groups[i].1),
        n,
    ) by {
        if i < g.groups.len() - 1 {
            let k = before(a, before(b, i));
            assert(g.groups[i] == rest.remove(b)[i]);
            assert(g.groups[i] == f.groups[k]);
            assert(k != a && k != c);
            let id = f.groups[k].1;
            assert(id != ga.1 && id != gb.1 && id < f.next);
            lemma_tally_same(members(g, freqs, id), members(f, freqs, id), n);
        }
    }
    let (lf, lg) = (level_costs(f, freqs), level_costs(g, freqs));
    assert forall|s: int| 0 <= s < n implies #[trigger] lg(s) == lf(s) + fg(s) by {
        lemma_owner_below(f, n, start, unit, s);
        let (w, x) = (weight(freqs, s), f.level[s]);
        assert(w * (x + 1) == w * x + w) by (nonlinear_arith);
    }
    lemma_tally_add(lf, fg, lg, n);
}

/// No symbol lies in a group that is yet to be made.
proof fn lemma_owner_below(f: Forest, n: int, start: int, unit: nat, s: int)
    requires
        is_forest(f, n, start, unit),
        0 <= s < n,
    ensures
        f.owner[s] < f.next,
{
    if f.owner[s] != -1 {
        let i = choose|i: int| 0 <= i < f.groups.len() && (#[trigger] f.groups[i]).1 == f.owner[s];
        assert(0 <= f.groups[i].1 < f.next);
    }
}

/// The levels cost what joining does.
proof fn lemma_levels_cost(f: Forest, freqs: Seq<u64>, start: int, unit: nat)
    requires
        is_forest(f, freqs.len() as int, start, unit),
        has_weights(f, freqs),
    ensures
        tally(level_costs(all_joined(f), freqs), freqs.len() as int) == tally(
            level_costs(f, freqs),
            freqs.len() as int,
        ) + join_cost(f),
    decreases f.groups.len(),
{
    if f.groups.len() >= 2 {
        lemma_joined_cost(f, freqs, start, unit);
        lemma_joined(f, freqs.len() as int, start, unit);
        lemma_levels_cost(joined(f), freqs, start, unit);
    }
}

/// Each symbol alone is a group of its own weight.
proof fn lemma_seedling_weights(freqs: Seq<u64>)
    requires
        freqs.len() >= 2,
    ensures
        has_weights(seedlings(freqs), freqs),
        tally(level_costs(seedlings(freqs), freqs), freqs.len() as int) == 0,
{
    let n = freqs.len() as int;
    let f = seedlings(freqs);
    let w = coded_symbols(freqs);
    let zero = |s: int| 0int;
    lemma_coded_symbols(freqs);
    lemma_tally_const(zero, n, 0);
    assert forall|i: int| 0 <= i < f.groups.len() implies (#[trigger] f.groups[i]).0 == tally(
        members(f, freqs, f.groups[i].1),
        n,
    ) by {
        let id = w[i];
        assert(w.contains(id));
        lemma_tally_bump(zero, members(f, freqs, id), n, id);
    }
    let costs_now = level_costs(f, freqs);
    assert forall|s: int| 0 <= s < n implies #[trigger] costs_now(s) == zero(s) by {
        let x = weight(freqs, s);
        assert(x * 0 == 0) by (nonlinear_arith);
    }
    lemma_tally_same(costs_now, zero, n);
}

// ---------------------------------------------------------------------------
// The laws
// ---------------------------------------------------------------------------

/// The bits that symbols of these frequencies take with codewords of these
/// lengths.
pub open spec fn coded_bits(freqs: Seq<u64>, lens: Seq<nat>) -> int {
    tally(|s: int| freqs[s] * lens[s], freqs.len() as int)
}

/// What the codeword of each symbol that occurs takes of a code space of `2^d`.
pub open spec fn present_shares(freqs: Seq<u64>, lens: Seq<nat>, d: nat) -> spec_fn(int) -> int {
    |s: int|
        if freqs[s] > 0 {
            pow2((d - lens[s]) as nat) as int
        } else {
            0
        }
}

/// Codewords of these lengths, none of them empty and none above `d`, have room
/// beside each other for all symbols that occur.
pub open spec fn codes_within(freqs: Seq<u64>, lens: Seq<nat>, d: nat) -> bool {
    &&& lens.len() == freqs.len()
    &&& forall|s: int| 0 <= s < freqs.len() && freqs[s] > 0 ==> 1 <= #[trigger] lens[s] <= d
    &&& tally(present_shares(freqs, lens, d), freqs.len() as int) <= pow2(d)
}

/// Lengths as numbers.
pub open spec fn as_numbers(lens: Seq<u8>) -> Seq<nat> {
    Seq::new(lens.len(), |s: int| lens[s] as nat)
}

/// The lengths that joining gives are the cheapest: codewords of other lengths
/// that have room beside each other take at least as many bits.
pub proof fn law_joined_lengths_cheapest(freqs: Seq<u64>, lens: Seq<nat>, d: nat)
    requires
        freqs.len() >= 2,
        codes_within(freqs, lens, d),
    ensures
        coded_bits(freqs, as_numbers(joined_lengths(freqs))) <= coded_bits(freqs, lens),
{
    let n = freqs.len() as int;
    let w = coded_symbols(freqs);
    let start = seedlings(freqs);
    let f = all_joined(start);
    let unit = w.len();
    let ours = as_numbers(joined_lengths(freqs));
    lemma_coded_symbols(freqs);
    lemma_seedlings(freqs, unit);
    lemma_all_joined(start, n, w.len() as int, unit);
    let ours_each = |s: int| freqs[s] * ours[s];
    let each = |s: int| freqs[s] * lens[s];
    if present(freqs, n).len() < 2 {
        assert forall|s: int| 0 <= s < n implies #[trigger] ours_each(s) <= each(s) by {
            let (x, y, z) = (freqs[s] as int, ours[s] as int, lens[s] as int);
            assert(0 <= f.level[s] <= 1);
            if x == 0 {
                assert(x * y == 0 && x * z == 0) by (nonlinear_arith)
                    requires
                        x == 0,
                ;
            } else {
                assert(x * y <= x * z) by (nonlinear_arith)
                    requires
                        x >= 0,
                        y <= z,
                ;
            }
        }
        lemma_tally_le(ours_each, each, n);
    } else {
        lemma_present(freqs, n);
        lemma_seedling_weights(freqs);
        lemma_levels_cost(start, freqs, w.len() as int, unit);
        let levels = level_costs(f, freqs);
        assert forall|s: int| 0 <= s < n implies #[trigger] ours_each(s) <= levels(s) by {
            let (x, y, z) = (freqs[s] as int, ours[s] as int, f.level[s]);
            let v = weight(freqs, s);
            assert(0 <= f.level[s]);
            assert(x * y <= v * z) by (nonlinear_arith)
                requires
                    0 <= x <= v,
                    0 <= y <= z,
            ;
        }
        lemma_tally_le(ours_each, levels, n);
        let l = Seq::new(w.len(), |i: int| lens[w[i]] as int);
        let taken = present_shares(freqs, lens, d);
        assert forall|s: int| 0 <= s < n && !w.contains(s) implies #[trigger] each(s) == 0
            && taken(s) == 0 by {
            let (x, z) = (freqs[s] as int, lens[s] as int);
            assert(freqs[s] == 0);
            assert(x * z == 0) by (nonlinear_arith)
                requires
                    x == 0,
            ;
        }
        assert forall|s: int| 0 <= s < n && !w.contains(s) implies #[trigger] taken(s) == 0 by {
            assert(each(s) == 0 && taken(s) == 0);
        }
        lemma_tally_over_order(w, each, n);
        lemma_tally_over_order(w, taken, n);
        lemma_sum_tally(shares(l, d), |i: int| taken(w[i]));
        lemma_sum_tally(costs(start.groups, l), |i: int| each(w[i]));
        lemma_join_cheapest(start, l, d);
    }
}

/// Lengths that need no cutting are the cheapest.
pub proof fn law_uncut_lengths_cheapest(
    freqs: Seq<u64>,
    max_length: u8,
    lens: Seq<nat>,
    d: nat,
)
    requires
        freqs.len() >= 2,
        within(joined_lengths(freqs), cap_of(max_length)),
        codes_within(freqs, lens, d),
    ensures
        coded_bits(freqs, as_numbers(fitted_lengths(freqs, max_length))) <= coded_bits(
            freqs,
            lens,
        ),
{
    law_joined_lengths_cheapest(freqs, lens, d);
}

} // verus!
