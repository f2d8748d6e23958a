//! Finite sums.

use vstd::prelude::*;

verus! {

/// `f(0) + f(1) + .. + f(n - 1)`.
pub open spec fn tally(f: spec_fn(int) -> int, n: int) -> int
    decreases n,
{
    if n <= 0 {
        0
    } else {
        tally(f, n - 1) + f(n - 1)
    }
}

/// Equal terms give equal sums.
pub proof fn lemma_tally_same(f: spec_fn(int) -> int, g: spec_fn(int) -> int, n: int)
    requires
        forall|i: int| 0 <= i < n ==> #[trigger] f(i) == g(i),
    ensures
        tally(f, n) == tally(g, n),
    decreases n,
{
    if n > 0 {
        lemma_tally_same(f, g, n - 1);
        assert(f(n - 1) == g(n - 1));
    }
}

/// Larger terms give a larger sum.
pub proof fn lemma_tally_le(f: spec_fn(int) -> int, g: spec_fn(int) -> int, n: int)
    requires
        forall|i: int| 0 <= i < n ==> #[trigger] f(i) <= g(i),
    ensures
        tally(f, n) <= tally(g, n),
    decreases n,
{
    if n > 0 {
        lemma_tally_le(f, g, n - 1);
        assert(f(n - 1) <= g(n - 1));
    }
}

/// The sum of two term sequences.
pub proof fn lemma_tally_add(
    f: spec_fn(int) -> int,
    g: spec_fn(int) -> int,
    h: spec_fn(int) -> int,
    n: int,
)
    requires
        forall|i: int| 0 <= i < n ==> #[trigger] h(i) == f(i) + g(i),
    ensures
        tally(h, n) == tally(f, n) + tally(g, n),
    decreases n,
{
    if n > 0 {
        lemma_tally_add(f, g, h, n - 1);
        assert(h(n - 1) == f(n - 1) + g(n - 1));
    }
}

/// Sums of terms that differ in one place differ by that term's change.
pub proof fn lemma_tally_bump(f: spec_fn(int) -> int, g: spec_fn(int) -> int, n: int, k: int)
    requires
        0 <= k < n,
        forall|i: int| 0 <= i < n && i != k ==> #[trigger] f(i) == g(i),
    ensures
        tally(g, n) == tally(f, n) + g(k) - f(k),
    decreases n,
{
    if k == n - 1 {
        lemma_tally_same(f, g, n - 1);
    } else {
        lemma_tally_bump(f, g, n - 1, k);
        assert(f(n - 1) == g(n - 1));
    }
}

/// A sum of terms that are each `c` is `n` times `c`.
pub proof fn lemma_tally_const(f: spec_fn(int) -> int, n: int, c: int)
    requires
        n >= 0,
        forall|i: int| 0 <= i < n ==> #[trigger] f(i) == c,
    ensures
        tally(f, n) == n * c,
    decreases n,
{
    if n > 0 {
        lemma_tally_const(f, n - 1, c);
        assert(f(n - 1) == c);
        assert((n - 1) * c + c == n * c) by (nonlinear_arith);
    } else {
        assert(n * c == 0) by (nonlinear_arith)
            requires
                n == 0,
        ;
    }
}

/// A sum of terms that are all multiples of `d` is one.
pub proof fn lemma_tally_multiple(f: spec_fn(int) -> int, n: int, d: int)
    requires
        d > 0,
        forall|i: int| 0 <= i < n ==> #[trigger] f(i) % d == 0,
    ensures
        tally(f, n) % d == 0,
    decreases n,
{
    if n > 0 {
        lemma_tally_multiple(f, n - 1, d);
        assert(f(n - 1) % d == 0);
        vstd::arithmetic::div_mod::lemma_add_mod_noop(tally(f, n - 1), f(n - 1), d);
        vstd::arithmetic::div_mod::lemma_small_mod(0, d as nat);
    } else {
        vstd::arithmetic::div_mod::lemma_small_mod(0, d as nat);
    }
}

/// Every term of a sum of terms that are not negative is at most the sum.
pub proof fn lemma_tally_term(f: spec_fn(int) -> int, n: int, k: int)
    requires
        0 <= k < n,
        forall|i: int| 0 <= i < n ==> #[trigger] f(i) >= 0,
    ensures
        0 <= f(k) <= tally(f, n),
    decreases n,
{
    let zero = |i: int| 0int;
    lemma_tally_const(zero, n - 1, 0);
    lemma_tally_le(zero, f, n - 1);
    assert(f(n - 1) >= 0);
    assert((n - 1) * 0 == 0) by (nonlinear_arith);
    if k < n - 1 {
        lemma_tally_term(f, n - 1, k);
    }
}

/// A sum of terms that are not negative is not negative.
pub proof fn lemma_tally_nonneg(f: spec_fn(int) -> int, n: int)
    requires
        forall|i: int| 0 <= i < n ==> #[trigger] f(i) >= 0,
    ensures
        tally(f, n) >= 0,
    decreases n,
{
    if n > 0 {
        lemma_tally_nonneg(f, n - 1);
        assert(f(n - 1) >= 0);
    }
}

/// A sum whose terms vanish outside the places that `order` lists, each once,
/// is the sum over those places.
pub proof fn lemma_tally_over_order(order: Seq<int>, g: spec_fn(int) -> int, n: int)
    requires
        forall|r: int| 0 <= r < order.len() ==> 0 <= #[trigger] order[r] < n,
        forall|q: int, r: int| 0 <= q < r < order.len() ==> order[q] != order[r],
        forall|s: int| 0 <= s < n && !order.contains(s) ==> #[trigger] g(s) == 0,
    ensures
        tally(g, n) == tally(|r: int| g(order[r]), order.len() as int),
    decreases order.len(),
{
    if order.len() == 0 {
        lemma_tally_const(g, if n >= 0 { n } else { 0 }, 0);
        assert((if n >= 0 { n } else { 0 }) * 0 == 0) by (nonlinear_arith);
    } else {
        let k = order.len() - 1;
        let last = order[k];
        let rest = order.drop_last();
        let h = |s: int|
            if s == last {
                0
            } else {
                g(s)
            };
        assert forall|s: int| 0 <= s < n && !rest.contains(s) implies #[trigger] h(s) == 0 by {
            if s != last {
                assert forall|r: int| 0 <= r < order.len() implies order[r] != s by {
                    if r < k {
                        assert(rest[r] == order[r]);
                    }
                }
                assert(!order.contains(s));
            }
        }
        lemma_tally_over_order(rest, h, n);
        lemma_tally_bump(h, g, n, last);
        assert forall|r: int| 0 <= r < k implies h(#[trigger] rest[r]) == g(order[r]) by {
            assert(order[r] != order[k]);
        }
        lemma_tally_same(|r: int| h(rest[r]), |r: int| g(order[r]), k);
    }
}

} // verus!
