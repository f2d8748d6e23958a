//! Predictors over single rows of samples, with the registers that carry a
//! prediction from row to row.
//!
//! Each inverse finds, in place, the row whose residuals were given, and returns
//! the registers for the next row.

use vstd::prelude::*;

use crate::predict::{gradient, median};

verus! {

/// The sample before sample `i` of a row; the register before the first.
pub open spec fn before(row: Seq<u8>, register: u8, i: int) -> u8 {
    if i == 0 {
        register
    } else {
        row[i - 1]
    }
}

/// The register behind a row: its last sample, or the register before it.
pub open spec fn behind(row: Seq<u8>, register: u8) -> u8 {
    before(row, register, row.len() as int)
}

/// Differences to the sample before.
pub open spec fn row_left_residuals(row: Seq<u8>, left: u8) -> Seq<u8> {
    Seq::new(row.len(), |i: int| row[i].wrapping_sub(before(row, left, i)))
}

/// Differences to `left + above - above_left`.
pub open spec fn row_gradient_residuals(row: Seq<u8>, top: Seq<u8>, left: u8, top_left: u8) -> Seq<
    u8,
> {
    Seq::new(
        row.len(),
        |i: int|
            row[i].wrapping_sub(gradient(before(row, left, i), top[i], before(top, top_left, i))),
    )
}

/// Differences to the median of left, above and `left + above - above_left`.
pub open spec fn row_median_residuals(row: Seq<u8>, top: Seq<u8>, left: u8, top_left: u8) -> Seq<
    u8,
> {
    Seq::new(
        row.len(),
        |i: int|
            row[i].wrapping_sub(median(before(row, left, i), top[i], before(top, top_left, i))),
    )
}

/// Undoes left prediction of a row; returns the left register behind it.
pub fn pred_left_inplace(row: &mut [u8], left: u8) -> (register: u8)
    ensures
        row_left_residuals(final(row)@, left) == old(row)@,
        register == behind(final(row)@, left),
{
    let n: usize = row.len();
    let mut register: u8 = left;
    let mut i: usize = 0;
    while i < n
        invariant
            i <= n,
            n == row@.len(),
            n == old(row)@.len(),
            register == before(row@, left, i as int),
            forall|k: int| i <= k < n ==> #[trigger] old(row)@[k] == row@[k],
            forall|k: int|
                0 <= k < i ==> #[trigger] old(row)@[k] == row@[k].wrapping_sub(
                    before(row@, left, k),
                ),
        decreases n - i,
    {
        assert(old(row)@[i as int] == row@[i as int]);
        let next: u8 = register.wrapping_add(row[i]);
        row[i] = next;
        register = next;
        i = i + 1;
    }
    assert(row_left_residuals(row@, left) =~= old(row)@);
    register
}

/// Undoes gradient prediction of a row; returns the left register and the
/// above-left register behind it.
pub fn pred_gradient_inplace_full(row: &mut [u8], top: &[u8], left: u8, top_left: u8) -> (r: (
    u8,
    u8,
))
    requires
        old(row)@.len() == top@.len(),
    ensures
        row_gradient_residuals(final(row)@, top@, left, top_left) == old(row)@,
        r == (behind(final(row)@, left), behind(top@, top_left)),
{
    let n: usize = row.len();
    let mut l: u8 = left;
    let mut tl: u8 = top_left;
    let mut i: usize = 0;
    while i < n
        invariant
            i <= n,
            n == row@.len(),
            n == old(row)@.len(),
            n == top@.len(),
            l == before(row@, left, i as int),
            tl == before(top@, top_left, i as int),
            forall|k: int| i <= k < n ==> #[trigger] old(row)@[k] == row@[k],
            forall|k: int|
                0 <= k < i ==> #[trigger] old(row)@[k] == row@[k].wrapping_sub(
                    gradient(before(row@, left, k), top@[k], before(top@, top_left, k)),
                ),
        decreases n - i,
    {
        assert(old(row)@[i as int] == row@[i as int]);
        let s: u8 = l.wrapping_add(top[i]).wrapping_sub(tl).wrapping_add(row[i]);
        row[i] = s;
        tl = top[i];
        l = s;
        i = i + 1;
    }
    assert(row_gradient_residuals(row@, top@, left, top_left) =~= old(row)@);
    (l, tl)
}

/// Undoes gradient prediction of a row with nothing above its left; returns the
/// left register behind it.
pub fn pred_gradient_inplace(row: &mut [u8], top: &[u8], left: u8) -> (register: u8)
    requires
        old(row)@.len() == top@.len(),
    ensures
        row_gradient_residuals(final(row)@, top@, left, 0) == old(row)@,
        register == behind(final(row)@, left),
{
    pred_gradient_inplace_full(row, top, left, 0).0
}

/// Undoes median prediction of a row; returns the left register behind it.
pub fn pred_median_inplace(row: &mut [u8], top: &[u8], left: u8, top_left: u8) -> (register: u8)
    requires
        old(row)@.len() == top@.len(),
    ensures
        row_median_residuals(final(row)@, top@, left, top_left) == old(row)@,
        register == behind(final(row)@, left),
{
    pred_median_inplace_full(row, top, left, top_left).0
}

/// Undoes median prediction of a row; returns the left register and the
/// above-left register behind it.
pub fn pred_median_inplace_full(row: &mut [u8], top: &[u8], left: u8, top_left: u8) -> (r: (u8, u8))
    requires
        old(row)@.len() == top@.len(),
    ensures
        row_median_residuals(final(row)@, top@, left, top_left) == old(row)@,
        r == (behind(final(row)@, left), behind(top@, top_left)),
{
    let n: usize = row.len();
    let mut l: u8 = left;
    let mut tl: u8 = top_left;
    let mut i: usize = 0;
    while i < n
        invariant
            i <= n,
            n == row@.len(),
            n == old(row)@.len(),
            n == top@.len(),
            l == before(row@, left, i as int),
            tl == before(top@, top_left, i as int),
            forall|k: int| i <= k < n ==> #[trigger] old(row)@[k] == row@[k],
            forall|k: int|
                0 <= k < i ==> #[trigger] old(row)@[k] == row@[k].wrapping_sub(
                    median(before(row@, left, k), top@[k], before(top@, top_left, k)),
                ),
        decreases n - i,
    {
        assert(old(row)@[i as int] == row@[i as int]);
        let s: u8 = paeth_median_u8(l, top[i], tl).wrapping_add(row[i]);
        row[i] = s;
        tl = top[i];
        l = s;
        i = i + 1;
    }
    assert(row_median_residuals(row@, top@, left, top_left) =~= old(row)@);
    (l, tl)
}

/// The median of left, above and `left + above - above_left`, which wraps before
/// the values are compared.
pub fn paeth_median_u8(l: u8, t: u8, tl: u8) -> (m: u8)
    ensures
        m == median(l, t, tl),
{
    let c: u8 = l.wrapping_add(t).wrapping_sub(tl);
    let (lo, hi): (u8, u8) = if l <= t {
        (l, t)
    } else {
        (t, l)
    };
    let raised: u8 = if c >= lo {
        c
    } else {
        lo
    };
    if raised <= hi {
        raised
    } else {
        hi
    }
}

proof fn lemma_left_row_same(a: Seq<u8>, b: Seq<u8>, left: u8, i: int)
    requires
        a.len() == b.len(),
        row_left_residuals(a, left) == row_left_residuals(b, left),
        0 <= i < a.len(),
    ensures
        a[i] == b[i],
    decreases i,
{
    let (x, y) = (row_left_residuals(a, left)[i], row_left_residuals(b, left)[i]);
    assert(x == a[i].wrapping_sub(before(a, left, i)));
    assert(y == b[i].wrapping_sub(before(b, left, i)));
    if i > 0 {
        lemma_left_row_same(a, b, left, i - 1);
    }
}

/// Left residuals determine a row.
pub proof fn law_row_left_determines(a: Seq<u8>, b: Seq<u8>, left: u8)
    requires
        row_left_residuals(a, left) == row_left_residuals(b, left),
    ensures
        a == b,
{
    assert(row_left_residuals(a, left).len() == a.len());
    assert(row_left_residuals(b, left).len() == b.len());
    assert forall|i: int| 0 <= i < a.len() implies a[i] == b[i] by {
        lemma_left_row_same(a, b, left, i);
    }
    assert(a =~= b);
}

proof fn lemma_gradient_row_same(
    a: Seq<u8>,
    b: Seq<u8>,
    top: Seq<u8>,
    left: u8,
    top_left: u8,
    i: int,
)
    requires
        a.len() == b.len(),
        row_gradient_residuals(a, top, left, top_left) == row_gradient_residuals(
            b,
            top,
            left,
            top_left,
        ),
        0 <= i < a.len(),
    ensures
        a[i] == b[i],
    decreases i,
{
    let x = row_gradient_residuals(a, top, left, top_left)[i];
    let y = row_gradient_residuals(b, top, left, top_left)[i];
    let tl = before(top, top_left, i);
    assert(x == a[i].wrapping_sub(gradient(before(a, left, i), top[i], tl)));
    assert(y == b[i].wrapping_sub(gradient(before(b, left, i), top[i], tl)));
    if i > 0 {
        lemma_gradient_row_same(a, b, top, left, top_left, i - 1);
    }
}

/// Gradient residuals determine a row.
pub proof fn law_row_gradient_determines(
    a: Seq<u8>,
    b: Seq<u8>,
    top: Seq<u8>,
    left: u8,
    top_left: u8,
)
    requires
        row_gradient_residuals(a, top, left, top_left) == row_gradient_residuals(
            b,
            top,
            left,
            top_left,
        ),
    ensures
        a == b,
{
    assert(row_gradient_residuals(a, top, left, top_left).len() == a.len());
    assert(row_gradient_residuals(b, top, left, top_left).len() == b.len());
    assert forall|i: int| 0 <= i < a.len() implies a[i] == b[i] by {
        lemma_gradient_row_same(a, b, top, left, top_left, i);
    }
    assert(a =~= b);
}

proof fn lemma_median_row_same(
    a: Seq<u8>,
    b: Seq<u8>,
    top: Seq<u8>,
    left: u8,
    top_left: u8,
    i: int,
)
    requires
        a.len() == b.len(),
        row_median_residuals(a, top, left, top_left) == row_median_residuals(
            b,
            top,
            left,
            top_left,
        ),
        0 <= i < a.len(),
    ensures
        a[i] == b[i],
    decreases i,
{
    let x = row_median_residuals(a, top, left, top_left)[i];
    let y = row_median_residuals(b, top, left, top_left)[i];
    let tl = before(top, top_left, i);
    if i > 0 {
        lemma_median_row_same(a, b, top, left, top_left, i - 1);
    }
    let m = median(before(a, left, i), top[i], tl);
    assert(m == median(before(b, left, i), top[i], tl));
    assert(x == a[i].wrapping_sub(m));
    assert(y == b[i].wrapping_sub(m));
}

/// Median residuals determine a row.
pub proof fn law_row_median_determines(
    a: Seq<u8>,
    b: Seq<u8>,
    top: Seq<u8>,
    left: u8,
    top_left: u8,
)
    requires
        row_median_residuals(a, top, left, top_left) == row_median_residuals(
            b,
            top,
            left,
            top_left,
        ),
    ensures
        a == b,
{
    assert(row_median_residuals(a, top, left, top_left).len() == a.len());
    assert(row_median_residuals(b, top, left, top_left).len() == b.len());
    assert forall|i: int| 0 <= i < a.len() implies a[i] == b[i] by {
        lemma_median_row_same(a, b, top, left, top_left, i);
    }
    assert(a =~= b);
}

/// Rows can be predicted one after another: the register behind the first row is
/// the one before the second.
pub proof fn law_left_register_threads(a: Seq<u8>, b: Seq<u8>, left: u8)
    ensures
        row_left_residuals(a + b, left) == row_left_residuals(a, left) + row_left_residuals(
            b,
            behind(a, left),
        ),
        behind(a + b, left) == behind(b, behind(a, left)),
{
    assert(row_left_residuals(a + b, left) =~= row_left_residuals(a, left) + row_left_residuals(
        b,
        behind(a, left),
    ));
}

/// Stretches of a row can be gradient-predicted one after another, both
/// registers being carried over.
pub proof fn law_gradient_registers_thread(
    a: Seq<u8>,
    b: Seq<u8>,
    top_a: Seq<u8>,
    top_b: Seq<u8>,
    left: u8,
    top_left: u8,
)
    requires
        a.len() == top_a.len(),
        b.len() == top_b.len(),
    ensures
        row_gradient_residuals(a + b, top_a + top_b, left, top_left) == row_gradient_residuals(
            a,
            top_a,
            left,
            top_left,
        ) + row_gradient_residuals(b, top_b, behind(a, left), behind(top_a, top_left)),
{
    assert(row_gradient_residuals(a + b, top_a + top_b, left, top_left) =~= row_gradient_residuals(
        a,
        top_a,
        left,
        top_left,
    ) + row_gradient_residuals(b, top_b, behind(a, left), behind(top_a, top_left)));
}

/// Stretches of a row can be median-predicted one after another, both registers
/// being carried over.
pub proof fn law_median_registers_thread(
    a: Seq<u8>,
    b: Seq<u8>,
    top_a: Seq<u8>,
    top_b: Seq<u8>,
    left: u8,
    top_left: u8,
)
    requires
        a.len() == top_a.len(),
        b.len() == top_b.len(),
    ensures
        row_median_residuals(a + b, top_a + top_b, left, top_left) == row_median_residuals(
            a,
            top_a,
            left,
            top_left,
        ) + row_median_residuals(b, top_b, behind(a, left), behind(top_a, top_left)),
{
    assert(row_median_residuals(a + b, top_a + top_b, left, top_left) =~= row_median_residuals(
        a,
        top_a,
        left,
        top_left,
    ) + row_median_residuals(b, top_b, behind(a, left), behind(top_a, top_left)));
}

} // verus!
