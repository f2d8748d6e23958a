//! Codeword lengths from symbol frequencies.
//!
//! The two lightest groups of symbols are joined until one group is left; each
//! time, the symbols of both move one level down. Where a level exceeds the cap,
//! the lengths are cut to the cap, and the shortest of them grow until the
//! codewords fit again.

use vstd::prelude::*;
use vstd::arithmetic::power2::{lemma2_to64, lemma_pow2_adds, lemma_pow2_pos, lemma_pow2_unfold, pow2};

use crate::canonical::{all_shares, is_complete, kraft_sum, kraft_total, CODE_SPACE};
use crate::error::{Error, Result};
use crate::tally::{
    lemma_tally_add, lemma_tally_bump, lemma_tally_const, lemma_tally_nonneg, lemma_tally_same,
    tally,
};

verus! {

/// The longest codeword length that is ever given.
pub const ABSOLUTE_MAX_LEN: u8 = 31;

// ---------------------------------------------------------------------------
// Symbols
// ---------------------------------------------------------------------------

/// The symbols below `upto` that occur.
pub open spec fn present(freqs: Seq<u64>, upto: int) -> Seq<int>
    decreases upto,
{
    if upto <= 0 {
        Seq::empty()
    } else if freqs[upto - 1] > 0 {
        present(freqs, upto - 1).push(upto - 1)
    } else {
        present(freqs, upto - 1)
    }
}

/// The symbols that get a codeword: those that occur, and the lowest others
/// where fewer than two do.
pub open spec fn coded_symbols(freqs: Seq<u64>) -> Seq<int> {
    let p = present(freqs, freqs.len() as int);
    if p.len() >= 2 {
        p
    } else if p.len() == 1 {
        p.push(
            if p[0] == 0 {
                1
            } else {
                0
            },
        )
    } else {
        seq![0int, 1int]
    }
}

/// The weight of a symbol.
pub open spec fn weight(freqs: Seq<u64>, s: int) -> int {
    if freqs[s] > 0 {
        freqs[s] as int
    } else {
        1
    }
}

/// The symbols that occur are in ascending order.
pub proof fn lemma_present(freqs: Seq<u64>, upto: int)
    requires
        0 <= upto <= freqs.len(),
    ensures
        forall|i: int|
            0 <= i < present(freqs, upto).len() ==> 0 <= #[trigger] present(freqs, upto)[i] < upto
                && freqs[present(freqs, upto)[i]] > 0,
        forall|i: int, j: int|
            0 <= i < j < present(freqs, upto).len() ==> present(freqs, upto)[i] < present(
                freqs,
                upto,
            )[j],
        forall|s: int|
            0 <= s < upto && #[trigger] freqs[s] > 0 ==> present(freqs, upto).contains(s),
    decreases upto,
{
    if upto > 0 {
        lemma_present(freqs, upto - 1);
        let before = present(freqs, upto - 1);
        let p = present(freqs, upto);
        assert forall|s: int| 0 <= s < upto && #[trigger] freqs[s] > 0 implies p.contains(s) by {
            if s == upto - 1 {
                assert(p[before.len() as int] == s);
            } else {
                assert(before.contains(s));
                let i = choose|i: int| 0 <= i < before.len() && before[i] == s;
                assert(p[i] == s);
            }
        }
    }
}

/// The symbols that get a codeword are different, and there are at least two.
pub proof fn lemma_coded_symbols(freqs: Seq<u64>)
    requires
        freqs.len() >= 2,
    ensures
        coded_symbols(freqs).len() >= 2,
        forall|i: int|
            0 <= i < coded_symbols(freqs).len() ==> 0 <= #[trigger] coded_symbols(freqs)[i]
                < freqs.len(),
        forall|i: int, j: int|
            0 <= i < j < coded_symbols(freqs).len() ==> coded_symbols(freqs)[i] != coded_symbols(
                freqs,
            )[j],
        forall|s: int|
            0 <= s < freqs.len() && #[trigger] freqs[s] > 0 ==> coded_symbols(freqs).contains(s),
{
    lemma_present(freqs, freqs.len() as int);
    let p = present(freqs, freqs.len() as int);
    let w = coded_symbols(freqs);
    assert forall|s: int| 0 <= s < freqs.len() && #[trigger] freqs[s] > 0 implies w.contains(s) by {
        assert(p.contains(s));
        let i = choose|i: int| 0 <= i < p.len() && p[i] == s;
        assert(w[i] == s);
    }
}

// ---------------------------------------------------------------------------
// Joining groups
// ---------------------------------------------------------------------------

/// Groups of symbols with their weights, oldest first; the group and the level
/// of each symbol; and the number of the next group.
pub struct Forest {
    pub groups: Seq<(int, int)>,
    pub owner: Seq<int>,
    pub level: Seq<int>,
    pub next: int,
}

/// The oldest of the lightest groups.
pub open spec fn lightest(groups: Seq<(int, int)>) -> int
    decreases groups.len(),
{
    if groups.len() <= 1 {
        0
    } else {
        let k = lightest(groups.drop_last());
        if groups.last().0 < groups[k].0 {
            groups.len() - 1
        } else {
            k
        }
    }
}

/// Joins two groups: their symbols move one level down.
pub open spec fn joined(f: Forest) -> Forest {
    let a = lightest(f.groups);
    let rest = f.groups.remove(a);
    let b = lightest(rest);
    let (ga, gb) = (f.groups[a], rest[b]);
    Forest {
        groups: rest.remove(b).push((ga.0 + gb.0, f.next)),
        owner: Seq::new(
            f.owner.len(),
            |s: int|
                if f.owner[s] == ga.1 || f.owner[s] == gb.1 {
                    f.next
                } else {
                    f.owner[s]
                },
        ),
        level: Seq::new(
            f.owner.len(),
            |s: int|
                if f.owner[s] == ga.1 || f.owner[s] == gb.1 {
                    f.level[s] + 1
                } else {
                    f.level[s]
                },
        ),
        next: f.next + 1,
    }
}

/// Joins the lightest groups until one is left.
pub open spec fn all_joined(f: Forest) -> Forest
    decreases f.groups.len(),
    via all_joined_decreases
{
    if f.groups.len() < 2 {
        f
    } else {
        all_joined(joined(f))
    }
}

#[via_fn]
proof fn all_joined_decreases(f: Forest) {
    if f.groups.len() >= 2 {
        lemma_lightest(f.groups);
        lemma_lightest(f.groups.remove(lightest(f.groups)));
    }
}

/// One group for each symbol.
pub open spec fn seedlings(freqs: Seq<u64>) -> Forest {
    let w = coded_symbols(freqs);
    Forest {
        groups: Seq::new(w.len(), |i: int| (weight(freqs, w[i]), w[i])),
        owner: Seq::new(
            freqs.len(),
            |s: int|
                if w.contains(s) {
                    s
                } else {
                    -1int
                },
        ),
        level: Seq::new(freqs.len(), |s: int| 0int),
        next: freqs.len() as int,
    }
}

/// The lightest group is one of the groups.
pub proof fn lemma_lightest(groups: Seq<(int, int)>)
    requires
        groups.len() > 0,
    ensures
        0 <= lightest(groups) < groups.len(),
        forall|i: int| 0 <= i < groups.len() ==> groups[lightest(groups)].0 <= (#[trigger] groups[i]).0,
    decreases groups.len(),
{
    if groups.len() > 1 {
        let front = groups.drop_last();
        lemma_lightest(front);
        assert forall|i: int| 0 <= i < groups.len() implies groups[lightest(groups)].0
            <= (#[trigger] groups[i]).0 by {
            if i < front.len() {
                assert(front[i] == groups[i]);
            }
        }
    }
}

/// What is joined first is the oldest of the lightest groups.
pub proof fn law_lightest_is_oldest(groups: Seq<(int, int)>, i: int)
    requires
        0 <= i < groups.len(),
    ensures
        0 <= lightest(groups) < groups.len(),
        groups[lightest(groups)].0 <= groups[i].0,
        i < lightest(groups) ==> groups[lightest(groups)].0 < groups[i].0,
    decreases groups.len(),
{
    lemma_lightest(groups);
    if groups.len() > 1 {
        let front = groups.drop_last();
        lemma_lightest(front);
        if i < front.len() {
            law_lightest_is_oldest(front, i);
            assert(front[i] == groups[i]);
        }
    }
}

/// The share of the code space that a symbol takes of its group's.
pub open spec fn group_shares(f: Forest, id: int, unit: nat) -> spec_fn(int) -> int {
    |s: int|
        if f.owner[s] == id {
            pow2((unit - f.level[s]) as nat) as int
        } else {
            0
        }
}

/// The symbols of each group fill its share exactly.
pub open spec fn is_forest(f: Forest, symbols: int, start: int, unit: nat) -> bool {
    &&& f.owner.len() == symbols
    &&& f.level.len() == symbols
    &&& symbols <= f.next
    &&& forall|i: int| 0 <= i < f.groups.len() ==> 0 <= (#[trigger] f.groups[i]).1 < f.next
    &&& forall|i: int, j: int| 0 <= i < j < f.groups.len() ==> f.groups[i].1 != f.groups[j].1
    &&& forall|s: int|
        0 <= s < symbols && #[trigger] f.owner[s] != -1 ==> exists|i: int|
            0 <= i < f.groups.len() && (#[trigger] f.groups[i]).1 == f.owner[s]
    &&& forall|s: int|
        0 <= s < symbols && #[trigger] f.owner[s] == -1 ==> f.level[s] == 0
    &&& forall|s: int|
        0 <= s < symbols && f.owner[s] != -1 && #[trigger] f.level[s] == 0 ==> f.owner[s] == s
    &&& forall|s: int|
        0 <= s < symbols ==> 0 <= #[trigger] f.level[s] <= start - f.groups.len()
    &&& f.groups.len() <= start <= unit
    &&& forall|i: int|
        0 <= i < f.groups.len() ==> tally(
            group_shares(f, (#[trigger] f.groups[i]).1, unit),
            symbols,
        ) == pow2(unit)
}

/// The place before place `i` was taken out.
spec fn skipping(i: int, m: int) -> int {
    if m < i {
        m
    } else {
        m + 1
    }
}

/// Joining two groups keeps every group's share filled.
pub proof fn lemma_joined(f: Forest, symbols: int, start: int, unit: nat)
    requires
        is_forest(f, symbols, start, unit),
        f.groups.len() >= 2,
    ensures
        is_forest(joined(f), symbols, start, unit),
        joined(f).groups.len() == f.groups.len() - 1,
        joined(f).groups.last().1 == f.next,
        joined(f).next == f.next + 1,
        forall|s: int| 0 <= s < symbols ==> (#[trigger] joined(f).owner[s] == -1) == (f.owner[s] == -1),
{
    let a = lightest(f.groups);
    let rest = f.groups.remove(a);
    let b = lightest(rest);
    lemma_lightest(f.groups);
    lemma_lightest(rest);
    let c = skipping(a, b);
    let (ga, gb) = (f.groups[a], f.groups[c]);
    assert(rest[b] == gb);
    let g = joined(f);
    let n = f.groups.len();
    assert forall|i: int| 0 <= i < n - 2 implies #[trigger] g.groups[i] == f.groups[skipping(
        a,
        skipping(b, i),
    )] by {
        assert(g.groups[i] == rest.remove(b)[i]);
        assert(rest.remove(b)[i] == rest[skipping(b, i)]);
    }
    assert(ga.1 != gb.1);
    assert forall|i: int| 0 <= i < g.groups.len() implies 0 <= (#[trigger] g.groups[i]).1 < g.next by {
        if i < n - 2 {
            assert(g.groups[i] == f.groups[skipping(a, skipping(b, i))]);
        }
    }
    assert forall|i: int, j: int| 0 <= i < j < g.groups.len() implies g.groups[i].1
        != g.groups[j].1 by {
        assert(g.groups[i] == f.groups[skipping(a, skipping(b, i))]);
        if j < n - 2 {
            assert(g.groups[j] == f.groups[skipping(a, skipping(b, j))]);
        }
    }
    assert forall|s: int| 0 <= s < symbols && #[trigger] g.owner[s] != -1 implies exists|i: int|
        0 <= i < g.groups.len() && (#[trigger] g.groups[i]).1 == g.owner[s] by {
        if g.owner[s] == f.next {
            assert(g.groups[n - 2].1 == g.owner[s]);
        } else {
            assert(f.owner[s] != -1);
            let k = choose|k: int|
                0 <= k < f.groups.len() && (#[trigger] f.groups[k]).1 == f.owner[s];
            let m = if k < a {
                k
            } else {
                k - 1
            };
            let i = if m < b {
                m
            } else {
                m - 1
            };
            assert(k != a && k != c);
            assert(skipping(a, skipping(b, i)) == k);
            assert(g.groups[i].1 == g.owner[s]);
        }
    }
    assert forall|i: int| 0 <= i < g.groups.len() implies tally(
        group_shares(g, (#[trigger] g.groups[i]).1, unit),
        symbols,
    ) == pow2(unit) by {
        if i < n - 2 {
            let k = skipping(a, skipping(b, i));
            let id = f.groups[k].1;
            assert(g.groups[i] == f.groups[k]);
            assert(k != a && k != c);
            assert(id != ga.1 && id != gb.1);
            lemma_tally_same(group_shares(g, id, unit), group_shares(f, id, unit), symbols);
            assert(tally(group_shares(f, f.groups[k].1, unit), symbols) == pow2(unit));
        } else {
            lemma_joined_share(f, ga.1, gb.1, symbols, start, unit);
        }
    }
}

/// Two groups one level down fill one group's share.
proof fn lemma_joined_share(f: Forest, a: int, b: int, symbols: int, start: int, unit: nat)
    requires
        is_forest(f, symbols, start, unit),
        f.groups.len() >= 2,
        a != b,
        a == f.groups[lightest(f.groups)].1,
        b == f.groups.remove(lightest(f.groups))[lightest(
            f.groups.remove(lightest(f.groups)),
        )].1,
        tally(group_shares(f, a, unit), symbols) == pow2(unit),
        tally(group_shares(f, b, unit), symbols) == pow2(unit),
        forall|s: int| 0 <= s < symbols ==> #[trigger] f.owner[s] < f.next,
    ensures
        tally(group_shares(joined(f), f.next, unit), symbols) == pow2(unit),
{
    let g = joined(f);
    let (fa, fb) = (group_shares(f, a, unit), group_shares(f, b, unit));
    let fg = group_shares(g, f.next, unit);
    let twice = |s: int| fg(s) + fg(s);
    assert forall|s: int| 0 <= s < symbols implies #[trigger] twice(s) == fa(s) + fb(s) by {
        assert(f.owner[s] < f.next);
        assert(0 <= f.level[s] <= start - f.groups.len());
        if f.owner[s] == a || f.owner[s] == b {
            lemma_pow2_unfold((unit - f.level[s]) as nat);
        }
    }
    lemma_tally_add(fa, fb, twice, symbols);
    lemma_tally_add(fg, fg, twice, symbols);
}

/// Joining all groups leaves one, and every symbol of it lies below the top.
pub proof fn lemma_all_joined(f: Forest, symbols: int, start: int, unit: nat)
    requires
        is_forest(f, symbols, start, unit),
        f.groups.len() >= 1,
        f.groups.len() >= 2 || f.groups[0].1 >= symbols,
    ensures
        is_forest(all_joined(f), symbols, start, unit),
        all_joined(f).groups.len() == 1,
        all_joined(f).groups[0].1 >= symbols,
        forall|s: int|
            0 <= s < symbols ==> (#[trigger] all_joined(f).owner[s] == -1) == (f.owner[s] == -1),
    decreases f.groups.len(),
{
    if f.groups.len() >= 2 {
        lemma_joined(f, symbols, start, unit);
        lemma_all_joined(joined(f), symbols, start, unit);
    }
}

/// A single symbol at the top fills its group's share.
pub proof fn lemma_seedlings(freqs: Seq<u64>, unit: nat)
    requires
        freqs.len() >= 2,
        unit >= coded_symbols(freqs).len(),
    ensures
        is_forest(
            seedlings(freqs),
            freqs.len() as int,
            coded_symbols(freqs).len() as int,
            unit,
        ),
{
    let f = seedlings(freqs);
    let w = coded_symbols(freqs);
    let n = freqs.len() as int;
    lemma_coded_symbols(freqs);
    assert forall|s: int| 0 <= s < n && #[trigger] f.owner[s] != -1 implies exists|i: int|
        0 <= i < f.groups.len() && (#[trigger] f.groups[i]).1 == f.owner[s] by {
        let i = choose|i: int| 0 <= i < w.len() && w[i] == s;
        assert(f.groups[i].1 == f.owner[s]);
    }
    assert forall|i: int| 0 <= i < f.groups.len() implies 0 <= (#[trigger] f.groups[i]).1 < f.next by {
        assert(0 <= w[i] < n);
    }
    assert forall|i: int, j: int| 0 <= i < j < f.groups.len() implies f.groups[i].1
        != f.groups[j].1 by {
        assert(w[i] != w[j]);
    }
    assert forall|i: int| 0 <= i < f.groups.len() implies tally(
        group_shares(f, (#[trigger] f.groups[i]).1, unit),
        n,
    ) == pow2(unit) by {
        let id = f.groups[i].1;
        assert(w[i] == id && 0 <= id < n);
        assert(w.contains(id));
        let zero = |s: int| 0int;
        let shares = group_shares(f, id, unit);
        lemma_tally_const(zero, n, 0);
        lemma_tally_bump(zero, shares, n, id);
    }
}

/// The lengths that joining gives, held to what a byte holds.
pub open spec fn joined_lengths(freqs: Seq<u64>) -> Seq<u8> {
    let f = all_joined(seedlings(freqs));
    Seq::new(
        freqs.len(),
        |s: int|
            if f.level[s] < 255 {
                f.level[s] as u8
            } else {
                255
            },
    )
}

/// No length exceeds `cap`.
pub open spec fn within(lens: Seq<u8>, cap: u8) -> bool {
    forall|s: int| 0 <= s < lens.len() ==> #[trigger] lens[s] <= cap
}

/// Every symbol that occurs has a codeword.
pub open spec fn codes_present(freqs: Seq<u64>, lens: Seq<u8>) -> bool {
    forall|s: int| 0 <= s < freqs.len() && freqs[s] > 0 ==> #[trigger] lens[s] > 0
}

/// The lengths that joining gives describe a complete code with a codeword for
/// every symbol that occurs, unless some exceed 31.
pub proof fn law_joined_lengths(freqs: Seq<u64>)
    requires
        freqs.len() >= 2,
    ensures
        joined_lengths(freqs).len() == freqs.len(),
        codes_present(freqs, joined_lengths(freqs)),
        within(joined_lengths(freqs), 31) ==> is_complete(joined_lengths(freqs)),
{
    let n = freqs.len() as int;
    let w = coded_symbols(freqs);
    let unit = (w.len() + 32) as nat;
    let start = seedlings(freqs);
    let f = all_joined(start);
    let lens = joined_lengths(freqs);
    lemma_coded_symbols(freqs);
    lemma_seedlings(freqs, unit);
    lemma_all_joined(start, n, w.len() as int, unit);
    let id = f.groups[0].1;
    assert forall|s: int| 0 <= s < n && f.owner[s] != -1 implies f.owner[s] == id
        && #[trigger] f.level[s] > 0 by {
        let i = choose|i: int| 0 <= i < f.groups.len() && (#[trigger] f.groups[i]).1 == f.owner[s];
        assert(i == 0);
    }
    assert forall|s: int| 0 <= s < n && freqs[s] > 0 implies #[trigger] lens[s] > 0 by {
        assert(w.contains(s));
        assert(start.owner[s] == s);
        assert(f.owner[s] != -1);
        assert(f.level[s] > 0);
    }
    if within(lens, 31) {
        let big = pow2((unit - 32) as nat) as int;
        let shares = all_shares(lens);
        let scaled = group_shares(f, id, unit);
        lemma_pow2_pos((unit - 32) as nat);
        assert forall|s: int| 0 <= s < n implies #[trigger] scaled(s) == shares(s) * big by {
            assert(lens[s] <= 31);
            if f.owner[s] != -1 {
                assert(f.level[s] > 0);
                lemma_pow2_adds((32 - f.level[s]) as nat, (unit - 32) as nat);
            } else {
                assert(f.level[s] == 0);
                assert(shares(s) * big == 0) by (nonlinear_arith)
                    requires
                        shares(s) == 0,
                ;
            }
        }
        lemma_tally_scaled(shares, scaled, n, big);
        assert(tally(scaled, n) == pow2(unit));
        lemma_pow2_adds(32, (unit - 32) as nat);
        lemma2_to64();
        let total = tally(shares, n);
        assert(total == CODE_SPACE) by (nonlinear_arith)
            requires
                total * big == CODE_SPACE * big,
                big > 0,
        ;
    }
}

/// A sum of multiples is the multiple of the sum.
proof fn lemma_tally_scaled(f: spec_fn(int) -> int, g: spec_fn(int) -> int, n: int, c: int)
    requires
        n >= 0,
        forall|i: int| 0 <= i < n ==> #[trigger] g(i) == f(i) * c,
    ensures
        tally(g, n) == tally(f, n) * c,
    decreases n,
{
    if n > 0 {
        lemma_tally_scaled(f, g, n - 1, c);
        assert(g(n - 1) == f(n - 1) * c);
        let (x, y) = (tally(f, n - 1), f(n - 1));
        assert((x + y) * c == x * c + y * c) by (nonlinear_arith);
    } else {
        assert(0 * c == 0) by (nonlinear_arith);
    }
}

// ---------------------------------------------------------------------------
// The cap
// ---------------------------------------------------------------------------

/// Shares of the code space in units of a codeword of `cap` bits.
pub open spec fn capped_shares(lens: Seq<u8>, cap: u8) -> spec_fn(int) -> int {
    |s: int|
        if lens[s] > 0 {
            pow2((cap - lens[s]) as nat) as int
        } else {
            0
        }
}

/// The code space taken, in units of a codeword of `cap` bits.
pub open spec fn capped_sum(lens: Seq<u8>, cap: u8) -> int {
    tally(capped_shares(lens, cap), lens.len() as int)
}

/// The first of the shortest lengths below the cap among the symbols below
/// `upto`; `-1` where there is none.
pub open spec fn shortest(lens: Seq<u8>, cap: u8, upto: int) -> int
    decreases upto,
{
    if upto <= 0 {
        -1
    } else {
        let k = shortest(lens, cap, upto - 1);
        let l = lens[upto - 1];
        if 0 < l < cap && (k == -1 || l < lens[k]) {
            upto - 1
        } else {
            k
        }
    }
}

/// Grows the shortest length by one while the codewords take too much space.
pub open spec fn balanced(lens: Seq<u8>, cap: u8) -> Seq<u8>
    decreases capped_sum(lens, cap),
    via balanced_decreases
{
    let k = shortest(lens, cap, lens.len() as int);
    if capped_sum(lens, cap) > pow2(cap as nat) && k != -1 {
        balanced(lens.update(k, (lens[k] + 1) as u8), cap)
    } else {
        lens
    }
}

#[via_fn]
proof fn balanced_decreases(lens: Seq<u8>, cap: u8) {
    let k = shortest(lens, cap, lens.len() as int);
    if k != -1 {
        lemma_grow(lens, cap, k);
    }
}

/// Growing a length below the cap takes less space.
proof fn lemma_grow(lens: Seq<u8>, cap: u8, k: int)
    requires
        k == shortest(lens, cap, lens.len() as int),
        k != -1,
    ensures
        0 <= k < lens.len(),
        0 < lens[k] < cap,
        0 <= capped_sum(lens.update(k, (lens[k] + 1) as u8), cap) < capped_sum(lens, cap),
{
    lemma_shortest(lens, cap, lens.len() as int);
    let longer = lens.update(k, (lens[k] + 1) as u8);
    let (f, g) = (capped_shares(lens, cap), capped_shares(longer, cap));
    lemma_tally_bump(f, g, lens.len() as int, k);
    lemma_pow2_unfold((cap - lens[k]) as nat);
    lemma_pow2_pos((cap - lens[k] - 1) as nat);
    lemma_tally_nonneg(g, lens.len() as int);
}

/// The shortest length found is below the cap.
proof fn lemma_shortest(lens: Seq<u8>, cap: u8, upto: int)
    requires
        upto <= lens.len(),
    ensures
        shortest(lens, cap, upto) == -1 || (0 <= shortest(lens, cap, upto) < upto && 0
            < lens[shortest(lens, cap, upto)] < cap),
    decreases upto,
{
    if upto > 0 {
        lemma_shortest(lens, cap, upto - 1);
    }
}

/// Growing lengths keeps them within the cap, and no codeword vanishes.
proof fn lemma_balanced(lens: Seq<u8>, cap: u8)
    requires
        within(lens, cap),
    ensures
        balanced(lens, cap).len() == lens.len(),
        within(balanced(lens, cap), cap),
        forall|s: int|
            0 <= s < lens.len() ==> (#[trigger] balanced(lens, cap)[s] > 0 <==> lens[s] > 0),
    decreases capped_sum(lens, cap),
{
    let k = shortest(lens, cap, lens.len() as int);
    if capped_sum(lens, cap) > pow2(cap as nat) && k != -1 {
        lemma_grow(lens, cap, k);
        let longer = lens.update(k, (lens[k] + 1) as u8);
        lemma_balanced(longer, cap);
        assert forall|s: int| 0 <= s < lens.len() implies (#[trigger] balanced(lens, cap)[s] > 0
            <==> lens[s] > 0) by {
            assert(longer[s] > 0 <==> lens[s] > 0);
        }
    }
}

/// What is grown is the first of the shortest lengths that can still grow.
pub proof fn law_shortest_grows(lens: Seq<u8>, cap: u8, upto: int)
    requires
        0 <= upto <= lens.len(),
    ensures
        ({
            let k = shortest(lens, cap, upto);
            if exists|s: int| 0 <= s < upto && 0 < #[trigger] lens[s] < cap {
                &&& 0 <= k < upto
                &&& 0 < lens[k] < cap
                &&& forall|s: int|
                    0 <= s < upto && 0 < #[trigger] lens[s] < cap ==> lens[k] < lens[s]
                        || (lens[k] == lens[s] && k <= s)
            } else {
                k == -1
            }
        }),
    decreases upto,
{
    if upto > 0 {
        law_shortest_grows(lens, cap, upto - 1);
    }
}

/// Lengths that do not fit grow until they do, and no further: none becomes
/// shorter, none exceeds the cap, and symbols without a codeword stay without.
/// They grow evenly, so that a length that grew is at most one above the others,
/// and the last step was still needed.
pub proof fn law_lengths_grow(lens: Seq<u8>, cap: u8)
    requires
        within(lens, cap),
    ensures
        ({
            let grown = balanced(lens, cap);
            &&& grown.len() == lens.len()
            &&& forall|s: int|
                0 <= s < lens.len() ==> lens[s] <= #[trigger] grown[s] <= cap && (lens[s] == 0
                    ==> grown[s] == 0)
            &&& capped_sum(grown, cap) <= pow2(cap as nat) || forall|s: int|
                0 <= s < lens.len() && lens[s] > 0 ==> #[trigger] grown[s] == cap
            &&& capped_sum(lens, cap) <= pow2(cap as nat) ==> grown == lens
            &&& forall|s: int, t: int|
                0 <= s < lens.len() && 0 <= t < lens.len() && lens[t] > 0 && #[trigger] grown[s]
                    > lens[s] ==> grown[s] <= #[trigger] grown[t] + 1
            &&& grown != lens ==> last_step_needed(lens, grown, cap)
        }),
    decreases capped_sum(lens, cap),
{
    let k = shortest(lens, cap, lens.len() as int);
    law_shortest_grows(lens, cap, lens.len() as int);
    let grown = balanced(lens, cap);
    if capped_sum(lens, cap) > pow2(cap as nat) && k != -1 {
        lemma_grow(lens, cap, k);
        let longer = lens.update(k, (lens[k] + 1) as u8);
        law_lengths_grow(longer, cap);
        assert forall|s: int| 0 <= s < lens.len() implies lens[s] <= #[trigger] grown[s] <= cap && (
        lens[s] == 0 ==> grown[s] == 0) by {
            assert(longer[s] <= grown[s]);
        }
        assert forall|s: int, t: int|
            0 <= s < lens.len() && 0 <= t < lens.len() && lens[t] > 0 && #[trigger] grown[s]
                > lens[s] implies grown[s] <= #[trigger] grown[t] + 1 by {
            assert(longer[t] > 0);
            if s == k && grown[s] == longer[s] {
                assert(lens[t] <= grown[t]);
                assert(lens[t] <= cap);
            } else {
                assert(grown[s] > longer[s]);
            }
        }
        if grown == longer {
            assert(grown.update(k, (grown[k] - 1) as u8) =~= lens);
            assert(grown[k] > lens[k]);
            assert(last_step_needed(lens, grown, cap));
        } else {
            let j = choose|j: int|
                0 <= j < longer.len() && #[trigger] grown[j] > longer[j] && capped_sum(
                    grown.update(j, (grown[j] - 1) as u8),
                    cap,
                ) > pow2(cap as nat);
            assert(grown[j] > lens[j]);
        }
    }
}

/// Some length grew in a step without which the codewords take too much space.
pub open spec fn last_step_needed(lens: Seq<u8>, grown: Seq<u8>, cap: u8) -> bool {
    exists|k: int|
        0 <= k < lens.len() && #[trigger] grown[k] > lens[k] && capped_sum(
            grown.update(k, (grown[k] - 1) as u8),
            cap,
        ) > pow2(cap as nat)
}

/// Lengths cut to the cap.
pub open spec fn cut(lens: Seq<u8>, cap: u8) -> Seq<u8> {
    Seq::new(
        lens.len(),
        |s: int|
            if lens[s] > cap {
                cap
            } else {
                lens[s]
            },
    )
}

/// The cap that a builder works with.
pub open spec fn cap_of(max_length: u8) -> u8 {
    if max_length < ABSOLUTE_MAX_LEN {
        max_length
    } else {
        ABSOLUTE_MAX_LEN
    }
}

/// The lengths for frequencies under a cap, whether or not they fill the code
/// space.
pub open spec fn fitted_lengths(freqs: Seq<u64>, max_length: u8) -> Seq<u8> {
    let lens = joined_lengths(freqs);
    let cap = cap_of(max_length);
    if within(lens, cap) {
        lens
    } else {
        balanced(cut(lens, cap), cap)
    }
}

/// Lengths that need no cutting fill the code space.
pub proof fn law_uncut_lengths_complete(freqs: Seq<u64>, max_length: u8)
    requires
        freqs.len() >= 2,
        within(joined_lengths(freqs), cap_of(max_length)),
    ensures
        fitted_lengths(freqs, max_length) == joined_lengths(freqs),
        is_complete(fitted_lengths(freqs, max_length)),
{
    law_joined_lengths(freqs);
    assert(within(joined_lengths(freqs), 31));
}

/// Fitted lengths respect the cap, and every symbol that occurs keeps a
/// codeword.
pub proof fn law_fitted_lengths(freqs: Seq<u64>, max_length: u8)
    requires
        freqs.len() >= 2,
        max_length >= 1,
    ensures
        fitted_lengths(freqs, max_length).len() == freqs.len(),
        within(fitted_lengths(freqs, max_length), cap_of(max_length)),
        codes_present(freqs, fitted_lengths(freqs, max_length)),
{
    law_joined_lengths(freqs);
    let lens = joined_lengths(freqs);
    let cap = cap_of(max_length);
    if !within(lens, cap) {
        let c = cut(lens, cap);
        lemma_balanced(c, cap);
        assert forall|s: int| 0 <= s < freqs.len() && freqs[s] > 0 implies #[trigger]
            fitted_lengths(freqs, max_length)[s] > 0 by {
            assert(lens[s] > 0);
            assert(c[s] > 0);
        }
    }
}

/// Where two symbols or more occur, only those that occur have a codeword.
/// Otherwise two symbols have one, of one bit each.
pub open spec fn codes_needed_only(freqs: Seq<u64>, lens: Seq<u8>) -> bool {
    if present(freqs, freqs.len() as int).len() >= 2 {
        forall|s: int| 0 <= s < freqs.len() && freqs[s] == 0 ==> #[trigger] lens[s] == 0
    } else {
        exists|a: int, b: int|
            0 <= a < b < lens.len() && #[trigger] lens[a] == 1 && #[trigger] lens[b] == 1
                && forall|s: int|
                0 <= s < lens.len() && s != a && s != b ==> #[trigger] lens[s] == 0
    }
}

/// The symbols that joining gives a codeword are those that get one.
proof fn lemma_coded_only(freqs: Seq<u64>)
    requires
        freqs.len() >= 2,
    ensures
        forall|s: int|
            0 <= s < freqs.len() ==> (#[trigger] joined_lengths(freqs)[s] > 0 <==> coded_symbols(
                freqs,
            ).contains(s)),
        coded_symbols(freqs).len() == 2 ==> within(joined_lengths(freqs), 1),
{
    let n = freqs.len() as int;
    let w = coded_symbols(freqs);
    let start = seedlings(freqs);
    let f = all_joined(start);
    let lens = joined_lengths(freqs);
    lemma_coded_symbols(freqs);
    lemma_seedlings(freqs, w.len());
    lemma_all_joined(start, n, w.len() as int, w.len());
    assert forall|s: int| 0 <= s < n implies (#[trigger] lens[s] > 0 <==> w.contains(s)) by {
        assert((f.owner[s] == -1) == (start.owner[s] == -1));
        assert(0 <= f.level[s]);
        if f.owner[s] != -1 {
            let i = choose|i: int|
                0 <= i < f.groups.len() && (#[trigger] f.groups[i]).1 == f.owner[s];
            assert(i == 0);
        }
    }
    if w.len() == 2 {
        assert forall|s: int| 0 <= s < lens.len() implies #[trigger] lens[s] <= 1 by {
            assert(0 <= f.level[s] <= 1);
        }
    }
}

/// Fitting takes no codeword away and adds none.
proof fn lemma_fitted_support(freqs: Seq<u64>, max_length: u8, s: int)
    requires
        freqs.len() >= 2,
        max_length >= 1,
        0 <= s < freqs.len(),
    ensures
        fitted_lengths(freqs, max_length)[s] > 0 <==> joined_lengths(freqs)[s] > 0,
{
    let cap = cap_of(max_length);
    let lens = joined_lengths(freqs);
    if !within(lens, cap) {
        let c = cut(lens, cap);
        lemma_balanced(c, cap);
        assert(c[s] > 0 <==> lens[s] > 0);
        assert(balanced(c, cap)[s] > 0 <==> c[s] > 0);
    }
}

/// Where two symbols or more occur, joining gives no other a codeword.
proof fn lemma_absent_uncoded(freqs: Seq<u64>, s: int)
    requires
        present(freqs, freqs.len() as int).len() >= 2,
        freqs.len() >= 2,
        0 <= s < freqs.len(),
        freqs[s] == 0,
    ensures
        joined_lengths(freqs)[s] == 0,
{
    let n = freqs.len() as int;
    let p = present(freqs, n);
    lemma_coded_only(freqs);
    assert(joined_lengths(freqs)[s] > 0 <==> p.contains(s));
    if p.contains(s) {
        lemma_present(freqs, n);
        let i = choose|i: int| 0 <= i < p.len() && p[i] == s;
        assert(freqs[p[i]] > 0);
    }
}

/// Where fewer than two symbols occur, joining gives two symbols a codeword of
/// one bit.
proof fn lemma_two_coded(freqs: Seq<u64>) -> (pair: (int, int))
    requires
        present(freqs, freqs.len() as int).len() < 2,
        freqs.len() >= 2,
    ensures
        within(joined_lengths(freqs), 1),
        0 <= pair.0 < pair.1 < freqs.len(),
        joined_lengths(freqs)[pair.0] == 1,
        joined_lengths(freqs)[pair.1] == 1,
        forall|s: int|
            0 <= s < freqs.len() && s != pair.0 && s != pair.1 ==> #[trigger] joined_lengths(
                freqs,
            )[s] == 0,
{
    let w = coded_symbols(freqs);
    let lens = joined_lengths(freqs);
    lemma_coded_symbols(freqs);
    lemma_coded_only(freqs);
    let (x, y) = (w[0], w[1]);
    assert(w.contains(x) && w.contains(y));
    assert(lens[x] == 1 && lens[y] == 1);
    assert forall|s: int| 0 <= s < freqs.len() && s != x && s != y implies #[trigger] lens[s]
        == 0 by {
        if w.contains(s) {
            let i = choose|i: int| 0 <= i < w.len() && w[i] == s;
        }
    }
    if x < y {
        (x, y)
    } else {
        (y, x)
    }
}

/// Fitted lengths give no codeword that is not needed.
pub proof fn law_absent_symbols(freqs: Seq<u64>, max_length: u8)
    requires
        freqs.len() >= 2,
        max_length >= 1,
    ensures
        codes_needed_only(freqs, fitted_lengths(freqs, max_length)),
{
    let fitted = fitted_lengths(freqs, max_length);
    if present(freqs, freqs.len() as int).len() >= 2 {
        assert forall|s: int| 0 <= s < freqs.len() && freqs[s] == 0 implies #[trigger] fitted[s]
            == 0 by {
            lemma_absent_uncoded(freqs, s);
            lemma_fitted_support(freqs, max_length, s);
        }
    } else {
        let (a, b) = lemma_two_coded(freqs);
        assert(fitted == joined_lengths(freqs));
        assert(fitted[a] == 1 && fitted[b] == 1);
    }
}

/// Where at most one symbol occurs, two symbols get one bit each, and the others
/// nothing: the one that occurs and the lowest other one, or the two lowest where
/// none occurs.
pub proof fn law_lone_symbol(freqs: Seq<u64>, max_length: u8, s: int)
    requires
        freqs.len() >= 2,
        max_length >= 1,
        0 <= s < freqs.len(),
        forall|t: int| 0 <= t < freqs.len() && t != s ==> #[trigger] freqs[t] == 0,
        freqs[s] == 0 ==> s == 0,
    ensures
        forall|t: int|
            0 <= t < freqs.len() ==> #[trigger] fitted_lengths(freqs, max_length)[t] == (if t == s
                || t == (if s == 0 {
                1int
            } else {
                0
            }) {
                1int
            } else {
                0
            }),
{
    let n = freqs.len() as int;
    let p = present(freqs, n);
    lemma_present(freqs, n);
    assert forall|i: int| 0 <= i < p.len() implies #[trigger] p[i] == s by {
        assert(freqs[p[i]] > 0);
    }
    assert(p.len() <= 1) by {
        if p.len() > 1 {
            assert(p[0] < p[1]);
        }
    }
    if freqs[s] > 0 {
        assert(p.contains(s));
        assert(p =~= seq![s]);
    } else {
        assert(p =~= Seq::empty()) by {
            if p.len() > 0 {
                assert(freqs[p[0]] > 0);
            }
        }
    }
    let w = coded_symbols(freqs);
    let d = if s == 0 {
        1int
    } else {
        0
    };
    assert(w =~= seq![s, d]);
    assert(w[0] == s && w[1] == d);
    assert(w.contains(s) && w.contains(d));
    lemma_coded_only(freqs);
    let lens = joined_lengths(freqs);
    let cap = cap_of(max_length);
    assert(within(lens, cap)) by {
        assert forall|t: int| 0 <= t < lens.len() implies #[trigger] lens[t] <= cap by {
            assert(lens[t] <= 1);
        }
    }
    assert forall|t: int| 0 <= t < freqs.len() implies #[trigger] fitted_lengths(
        freqs,
        max_length,
    )[t] == (if t == s || t == d {
        1int
    } else {
        0
    }) by {
        assert(lens[t] > 0 <==> w.contains(t));
        assert(lens[t] <= 1);
    }
}

// ---------------------------------------------------------------------------
// Building
// ---------------------------------------------------------------------------

/// The weights of some groups together.
pub open spec fn total_weight(groups: Seq<(int, int)>) -> int
    decreases groups.len(),
{
    if groups.len() == 0 {
        0
    } else {
        total_weight(groups.drop_last()) + groups.last().0
    }
}

/// Taking a group out takes its weight away.
proof fn lemma_weight_without(groups: Seq<(int, int)>, i: int)
    requires
        0 <= i < groups.len(),
    ensures
        total_weight(groups) == groups[i].0 + total_weight(groups.remove(i)),
    decreases groups.len(),
{
    let rest = groups.remove(i);
    if i == groups.len() - 1 {
        assert(rest =~= groups.drop_last());
    } else {
        lemma_weight_without(groups.drop_last(), i);
        assert(rest.drop_last() =~= groups.drop_last().remove(i));
        assert(rest.last() == groups.last());
    }
}

/// Weights are not negative, nor are their sums.
proof fn lemma_weight_nonneg(groups: Seq<(int, int)>)
    requires
        forall|i: int| 0 <= i < groups.len() ==> 0 <= (#[trigger] groups[i]).0,
    ensures
        total_weight(groups) >= 0,
    decreases groups.len(),
{
    if groups.len() > 0 {
        assert(0 <= groups[groups.len() - 1].0);
        assert forall|i: int| 0 <= i < groups.drop_last().len() implies 0
            <= (#[trigger] groups.drop_last()[i]).0 by {
            assert(groups.drop_last()[i] == groups[i]);
        }
        lemma_weight_nonneg(groups.drop_last());
    }
}

/// Joining keeps the weight of all groups together, of which the joined group
/// has at most all.
proof fn lemma_joined_weight(f: Forest)
    requires
        f.groups.len() >= 2,
        forall|i: int| 0 <= i < f.groups.len() ==> 0 <= (#[trigger] f.groups[i]).0,
    ensures
        total_weight(joined(f).groups) == total_weight(f.groups),
        joined(f).groups.last().0 <= total_weight(f.groups),
        forall|i: int|
            0 <= i < joined(f).groups.len() ==> 0 <= (#[trigger] joined(f).groups[i]).0,
{
    let a = lightest(f.groups);
    let rest = f.groups.remove(a);
    let b = lightest(rest);
    lemma_lightest(f.groups);
    lemma_lightest(rest);
    lemma_weight_without(f.groups, a);
    lemma_weight_without(rest, b);
    let last = rest.remove(b);
    let g = joined(f).groups;
    assert(g.drop_last() =~= last);
    assert forall|i: int| 0 <= i < rest.len() implies 0 <= (#[trigger] rest[i]).0 by {
        assert(rest[i] == f.groups[skipping(a, i)]);
    }
    assert forall|i: int| 0 <= i < last.len() implies 0 <= (#[trigger] last[i]).0 by {
        assert(last[i] == rest[skipping(b, i)]);
    }
    lemma_weight_nonneg(last);
    assert forall|i: int| 0 <= i < g.len() implies 0 <= (#[trigger] g[i]).0 by {
        if i < last.len() {
            assert(g[i] == last[i]);
        }
    }
}

/// Machine numbers as integers.
spec fn group_view(v: Seq<(u64, u128)>) -> Seq<(int, int)> {
    Seq::new(v.len(), |i: int| (v[i].0 as int, v[i].1 as int))
}

/// The number that stands for no group.
const NO_GROUP: u128 = 0xFFFF_FFFF_FFFF_FFFF_FFFF_FFFF_FFFF_FFFF;

/// Group numbers as integers.
spec fn owner_view(v: Seq<u128>) -> Seq<int> {
    Seq::new(
        v.len(),
        |s: int|
            if v[s] == NO_GROUP {
                -1int
            } else {
                v[s] as int
            },
    )
}

/// Levels as integers.
spec fn level_view(v: Seq<usize>) -> Seq<int> {
    Seq::new(v.len(), |s: int| v[s] as int)
}

/// The oldest of the lightest groups.
fn find_lightest(groups: &Vec<(u64, u128)>) -> (k: usize)
    requires
        groups@.len() > 0,
    ensures
        k == lightest(group_view(groups@)),
        k < groups@.len(),
{
    let ghost all = group_view(groups@);
    let n: usize = groups.len();
    let mut k: usize = 0;
    let mut i: usize = 1;
    while i < n
        invariant
            1 <= i <= n,
            n == groups@.len(),
            all == group_view(groups@),
            k < i,
            k == lightest(all.take(i as int)),
        decreases n - i,
    {
        proof {
            let next = all.take(i + 1);
            assert(next.drop_last() =~= all.take(i as int));
            assert(next.last() == all[i as int]);
            assert(next[k as int] == all[k as int]);
        }
        if groups[i].0 < groups[k].0 {
            k = i;
        }
        i = i + 1;
    }
    assert(all.take(n as int) =~= all);
    k
}

/// The symbols that get a codeword.
fn find_coded_symbols(freqs: &[u64]) -> (w: Vec<usize>)
    requires
        freqs@.len() >= 2,
    ensures
        w@.len() == coded_symbols(freqs@).len(),
        forall|i: int| 0 <= i < w@.len() ==> #[trigger] w@[i] == coded_symbols(freqs@)[i],
{
    let n: usize = freqs.len();
    let mut w: Vec<usize> = Vec::new();
    let mut s: usize = 0;
    while s < n
        invariant
            s <= n,
            n == freqs@.len(),
            w@.len() == present(freqs@, s as int).len(),
            forall|i: int|
                0 <= i < w@.len() ==> #[trigger] w@[i] == present(freqs@, s as int)[i],
        decreases n - s,
    {
        if freqs[s] > 0 {
            w.push(s);
        }
        s = s + 1;
    }
    if w.len() == 1 {
        if w[0] == 0 {
            w.push(1);
        } else {
            w.push(0);
        }
    } else if w.len() == 0 {
        w.push(0);
        w.push(1);
    }
    w
}

/// The lengths that joining the lightest groups gives.
fn find_joined_lengths(freqs: &[u64]) -> (lens: Vec<u8>)
    requires
        freqs@.len() >= 2,
        total_weight(seedlings(freqs@).groups) <= u64::MAX,
    ensures
        lens@ == joined_lengths(freqs@),
{
    let n: usize = freqs.len();
    let w: Vec<usize> = find_coded_symbols(freqs);
    let count: usize = w.len();
    let ghost start = seedlings(freqs@);
    let ghost unit = count as nat;
    let mut groups: Vec<(u64, u128)> = Vec::new();
    let mut owner: Vec<u128> = vec![NO_GROUP; n];
    let mut level: Vec<usize> = vec![0usize; n];
    proof {
        lemma_coded_symbols(freqs@);
        lemma_seedlings(freqs@, unit);
    }
    let mut i: usize = 0;
    while i < count
        invariant
            i <= count,
            count == w@.len(),
            n == freqs@.len(),
            n >= 2,
            n <= usize::MAX,
            w@.len() == coded_symbols(freqs@).len(),
            forall|k: int| 0 <= k < w@.len() ==> #[trigger] w@[k] == coded_symbols(freqs@)[k],
            forall|k: int|
                0 <= k < w@.len() ==> 0 <= #[trigger] coded_symbols(freqs@)[k] < freqs@.len(),
            start == seedlings(freqs@),
            groups@.len() == i,
            forall|k: int| 0 <= k < i ==> #[trigger] group_view(groups@)[k] == start.groups[k],
            owner@.len() == n,
            forall|s: int|
                0 <= s < n ==> #[trigger] owner@[s] == (if coded_symbols(freqs@).take(
                    i as int,
                ).contains(s) {
                    s as u128
                } else {
                    NO_GROUP
                }),
        decreases count - i,
    {
        let s: usize = w[i];
        let ghost all = coded_symbols(freqs@);
        assert(all[i as int] == s);
        let c: u64 = if freqs[s] > 0 {
            freqs[s]
        } else {
            1
        };
        let ghost before = groups@;
        groups.push((c, s as u128));
        owner.set(s, s as u128);
        proof {
            assert forall|k: int| 0 <= k < i + 1 implies #[trigger] group_view(groups@)[k]
                == start.groups[k] by {
                if k < i {
                    assert(group_view(before)[k] == start.groups[k]);
                }
            }
            assert forall|t: int| 0 <= t < n implies #[trigger] owner@[t] == (if all.take(
                i + 1,
            ).contains(t) {
                t as u128
            } else {
                NO_GROUP
            }) by {
                let (old_part, new_part) = (all.take(i as int), all.take(i + 1));
                if t == s {
                    assert(new_part[i as int] == t);
                } else if old_part.contains(t) {
                    let k = choose|k: int| 0 <= k < old_part.len() && old_part[k] == t;
                    assert(new_part[k] == t);
                } else if new_part.contains(t) {
                    let k = choose|k: int| 0 <= k < new_part.len() && new_part[k] == t;
                    assert(old_part[k] == t);
                }
            }
        }
        i = i + 1;
    }
    let mut next: u128 = n as u128;
    let ghost mut f = start;
    proof {
        assert(coded_symbols(freqs@).take(count as int) =~= coded_symbols(freqs@));
        assert(group_view(groups@) =~= start.groups);
        assert(owner_view(owner@) =~= start.owner);
        assert(level_view(level@) =~= start.level);
        assert forall|i: int| 0 <= i < start.groups.len() implies 0
            <= (#[trigger] start.groups[i]).0 by {}
    }
    while groups.len() >= 2
        invariant
            n == freqs@.len(),
            n <= usize::MAX,
            count <= usize::MAX,
            f.groups == group_view(groups@),
            f.owner == owner_view(owner@),
            f.level == level_view(level@),
            f.next == next,
            next + groups@.len() <= 2 * usize::MAX + 2,
            owner@.len() == n,
            level@.len() == n,
            groups@.len() >= 1,
            is_forest(f, n as int, count as int, unit),
            unit == count,
            total_weight(f.groups) <= u64::MAX,
            forall|i: int| 0 <= i < f.groups.len() ==> 0 <= (#[trigger] f.groups[i]).0,
            all_joined(f) == all_joined(seedlings(freqs@)),
        decreases groups@.len(),
    {
        proof {
            lemma_joined(f, n as int, count as int, unit);
            lemma_joined_weight(f);
        }
        let ghost g = joined(f);
        let a: usize = find_lightest(&groups);
        let ga: (u64, u128) = groups.remove(a);
        assert(group_view(groups@) =~= f.groups.remove(a as int));
        let b: usize = find_lightest(&groups);
        let gb: (u64, u128) = groups.remove(b);
        assert(group_view(groups@) =~= f.groups.remove(a as int).remove(b as int));
        assert(g.groups.last() == (ga.0 + gb.0, next as int));
        groups.push((ga.0 + gb.0, next));
        assert(group_view(groups@) =~= g.groups);
        let mut s: usize = 0;
        while s < n
            invariant
                s <= n,
                n == freqs@.len(),
                owner@.len() == n,
                level@.len() == n,
                f.groups.len() >= 2,
                is_forest(f, n as int, count as int, unit),
                g == joined(f),
                ga.0 == f.groups[lightest(f.groups)].0,
                ga.1 == f.groups[lightest(f.groups)].1,
                gb.1 == f.groups.remove(lightest(f.groups))[lightest(
                    f.groups.remove(lightest(f.groups)),
                )].1,
                ga.1 < NO_GROUP,
                gb.1 < NO_GROUP,
                f.next == next,
                next < NO_GROUP,
                count <= usize::MAX,
                forall|t: int| s <= t < n ==> #[trigger] owner_view(owner@)[t] == f.owner[t],
                forall|t: int| s <= t < n ==> #[trigger] level_view(level@)[t] == f.level[t],
                forall|t: int| 0 <= t < s ==> #[trigger] owner_view(owner@)[t] == g.owner[t],
                forall|t: int| 0 <= t < s ==> #[trigger] level_view(level@)[t] == g.level[t],
            decreases n - s,
        {
            let ghost (o, l) = (owner@, level@);
            assert(owner_view(o)[s as int] == f.owner[s as int]);
            assert(level_view(l)[s as int] == f.level[s as int]);
            if owner[s] == ga.1 || owner[s] == gb.1 {
                let d: usize = level[s];
                owner.set(s, next);
                level.set(s, d + 1);
            }
            proof {
                assert forall|t: int| 0 <= t < n && t != s implies #[trigger] owner_view(owner@)[t]
                    == owner_view(o)[t] by {}
                assert forall|t: int| 0 <= t < n && t != s implies #[trigger] level_view(level@)[t]
                    == level_view(l)[t] by {}
            }
            s = s + 1;
        }
        next = next + 1;
        proof {
            assert(owner_view(owner@) =~= g.owner);
            assert(level_view(level@) =~= g.level);
            f = g;
        }
    }
    let mut lens: Vec<u8> = Vec::new();
    let mut s: usize = 0;
    while s < n
        invariant
            s <= n,
            n == freqs@.len(),
            level@.len() == n,
            f == all_joined(seedlings(freqs@)),
            f.level == level_view(level@),
            lens@.len() == s,
            forall|t: int| 0 <= t < s ==> #[trigger] lens@[t] == joined_lengths(freqs@)[t],
        decreases n - s,
    {
        let d: usize = level[s];
        assert(level_view(level@)[s as int] == d);
        lens.push(
            if d < 255 {
                d as u8
            } else {
                255
            },
        );
        s = s + 1;
    }
    assert(lens@ =~= joined_lengths(freqs@));
    lens
}

/// The code space taken, in units of a codeword of `cap` bits.
fn find_capped_sum(lens: &[u8], cap: u8) -> (total: u128)
    requires
        cap <= 31,
        within(lens@, cap),
    ensures
        total == capped_sum(lens@, cap),
{
    let ghost shares = capped_shares(lens@, cap);
    let n: usize = lens.len();
    let mut total: u128 = 0;
    let mut i: usize = 0;
    while i < n
        invariant
            i <= n,
            n == lens@.len(),
            n <= usize::MAX,
            cap <= 31,
            within(lens@, cap),
            shares == capped_shares(lens@, cap),
            total == tally(shares, i as int),
            total <= i * 0x8000_0000,
        decreases n - i,
    {
        let l: u8 = lens[i];
        assert(lens@[i as int] <= cap);
        if l > 0 {
            let m: u64 = (cap - l) as u64;
            proof {
                lemma2_to64();
                vstd::bits::lemma_u64_pow2_no_overflow(m as nat);
                vstd::bits::lemma_u64_shl_is_mul(1, m);
                vstd::arithmetic::power2::lemma_pow2_strictly_increases(m as nat, 31);
            }
            total = total + (1u64 << m) as u128;
        }
        i = i + 1;
    }
    total
}

/// The first of the shortest lengths below the cap.
fn find_shortest(lens: &[u8], cap: u8) -> (k: Option<usize>)
    ensures
        match k {
            Some(i) => i == shortest(lens@, cap, lens@.len() as int) && i < lens@.len() && 0
                < lens@[i as int] < cap,
            None => shortest(lens@, cap, lens@.len() as int) == -1,
        },
{
    let n: usize = lens.len();
    let mut best: Option<usize> = None;
    let mut i: usize = 0;
    while i < n
        invariant
            i <= n,
            n == lens@.len(),
            match best {
                Some(k) => k == shortest(lens@, cap, i as int) && k < i && 0 < lens@[k as int] < cap,
                None => shortest(lens@, cap, i as int) == -1,
            },
        decreases n - i,
    {
        let l: u8 = lens[i];
        if l > 0 && l < cap {
            let better: bool = match best {
                Some(k) => l < lens[k],
                None => true,
            };
            if better {
                best = Some(i);
            }
        }
        i = i + 1;
    }
    best
}

/// Cuts lengths to the cap, and grows the shortest of them while the codewords
/// take too much space.
pub fn enforce_max_length(lengths: &mut [u8], cap: u8)
    requires
        1 <= cap <= 31,
    ensures
        final(lengths)@ == balanced(cut(old(lengths)@, cap), cap),
        within(final(lengths)@, cap),
{
    let n: usize = lengths.len();
    let mut i: usize = 0;
    while i < n
        invariant
            i <= n,
            n == lengths@.len(),
            n == old(lengths)@.len(),
            forall|s: int| 0 <= s < i ==> #[trigger] lengths@[s] == cut(old(lengths)@, cap)[s],
            forall|s: int| i <= s < n ==> #[trigger] lengths@[s] == old(lengths)@[s],
        decreases n - i,
    {
        if lengths[i] > cap {
            lengths[i] = cap;
        }
        i = i + 1;
    }
    assert(lengths@ =~= cut(old(lengths)@, cap));
    let target: u128 = (1u64 << (cap as u64)) as u128;
    proof {
        lemma2_to64();
        vstd::bits::lemma_u64_pow2_no_overflow(cap as nat);
        vstd::bits::lemma_u64_shl_is_mul(1, cap as u64);
        assert(target == pow2(cap as nat));
    }
    let mut sum: u128 = find_capped_sum(lengths, cap);
    while sum > target
        invariant_except_break
            1 <= cap <= 31,
            target == pow2(cap as nat),
            within(lengths@, cap),
            sum == capped_sum(lengths@, cap),
            balanced(lengths@, cap) == balanced(cut(old(lengths)@, cap), cap),
        ensures
            within(lengths@, cap),
            lengths@ == balanced(cut(old(lengths)@, cap), cap),
        decreases capped_sum(lengths@, cap),
    {
        match find_shortest(lengths, cap) {
            Some(k) => {
                proof {
                    lemma_grow(lengths@, cap, k as int);
                }
                let ghost before = lengths@;
                let l: u8 = lengths[k];
                lengths[k] = l + 1;
                proof {
                    assert(lengths@ =~= before.update(k as int, (before[k as int] + 1) as u8));
                }
            },
            None => {
                break;
            },
        }
        sum = find_capped_sum(lengths, cap);
    }
}

/// Refuses lengths that do not fill the code space or exceed the cap.
fn validated(lengths: Vec<u8>, cap: u8) -> (r: Result<Vec<u8>>)
    requires
        cap <= 31,
    ensures
        r is Ok <==> within(lengths@, cap) && kraft_sum(lengths@) == CODE_SPACE,
        r matches Ok(lens) ==> lens@ == lengths@,
        r matches Err(e) ==> e is InvalidData,
{
    let n: usize = lengths.len();
    let mut i: usize = 0;
    while i < n
        invariant
            i <= n,
            n == lengths@.len(),
            forall|s: int| 0 <= s < i ==> #[trigger] lengths@[s] <= cap,
        decreases n - i,
    {
        if lengths[i] > cap {
            return Err(Error::invalid("huffyuv length-builder: produced length exceeds cap"));
        }
        i = i + 1;
    }
    let total: u128 = kraft_total(lengths.as_slice());
    if total != CODE_SPACE as u128 {
        return Err(Error::invalid("huffyuv length-builder: lengths fail Kraft-McMillan"));
    }
    Ok(lengths)
}

/// Codeword lengths for symbol frequencies, none above `max_length`. Symbols
/// that do not occur get length zero, except that at least two symbols get a
/// codeword. Fails without symbols, without room for a codeword, and where the
/// lengths cannot be fitted under the cap.
pub fn build_lengths(freqs: &[u64], max_length: u8) -> (r: Result<Vec<u8>>)
    requires
        freqs@.len() == 1 ==> max_length == 0,
        freqs@.len() >= 2 && max_length >= 1 ==> total_weight(seedlings(freqs@).groups)
            <= u64::MAX,
    ensures
        r is Ok <==> freqs@.len() >= 2 && max_length >= 1 && kraft_sum(
            fitted_lengths(freqs@, max_length),
        ) == CODE_SPACE,
        r matches Ok(lens) ==> {
            &&& lens@ == fitted_lengths(freqs@, max_length)
            &&& lens@.len() == freqs@.len()
            &&& within(lens@, cap_of(max_length))
            &&& is_complete(lens@)
            &&& codes_present(freqs@, lens@)
            &&& codes_needed_only(freqs@, lens@)
        },
        r matches Err(e) ==> e is InvalidData,
{
    if freqs.len() == 0 {
        return Err(Error::invalid("huffyuv length-builder: empty alphabet"));
    }
    if max_length == 0 {
        return Err(Error::invalid("huffyuv length-builder: max_length must be at least 1"));
    }
    let cap: u8 = if max_length < ABSOLUTE_MAX_LEN {
        max_length
    } else {
        ABSOLUTE_MAX_LEN
    };
    proof {
        law_fitted_lengths(freqs@, max_length);
        law_absent_symbols(freqs@, max_length);
    }
    let mut lens: Vec<u8> = find_joined_lengths(freqs);
    let n: usize = lens.len();
    let mut fits: bool = true;
    let mut i: usize = 0;
    while i < n
        invariant
            i <= n,
            n == lens@.len(),
            fits == (forall|s: int| 0 <= s < i ==> #[trigger] lens@[s] <= cap),
        decreases n - i,
    {
        if lens[i] > cap {
            fits = false;
        }
        i = i + 1;
    }
    if !fits {
        enforce_max_length(lens.as_mut_slice(), cap);
    }
    assert(lens@ == fitted_lengths(freqs@, max_length));
    validated(lens, cap)
}

} // verus!
