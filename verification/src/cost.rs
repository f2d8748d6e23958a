//! What codebooks cost: the bits that residuals take with them.

use vstd::prelude::*;

use crate::canonical::{code_width, lemma_width_nonneg, CODE_SPACE};
use crate::code_lengths::{
    bit_shares, code_bits, counted_shares, covers, has_symbol, law_best_lengths, least_bits,
    lemma_best_is_least, lemma_best_is_smallest, lemma_nothing_counted,
};
use crate::decoder::Codebooks;
use crate::emit::{code_stream, countable, has_codewords, histogram, symbol_count};
use crate::encoder::{
    body_cost, body_lengths, is_decodable, law_mode_books, mode_books, ExtradataMode,
};
use crate::header::{Method, PixelFamily};
use crate::layout::{slot_of, unit, Slot};
use crate::tables::{
    entries_wf, entry_wf, is_prefix_free, lemma_shows_is_range, shows, HuffEntry,
};
use crate::tally::{
    lemma_tally_add, lemma_tally_bump, lemma_tally_const, lemma_tally_le, lemma_tally_same, tally,
};

verus! {

/// The codeword lengths of a codebook.
pub open spec fn entry_lengths(entries: Seq<HuffEntry>) -> Seq<u8> {
    Seq::new(256, |s: int| entries[s].length)
}

/// The bits that each symbol takes with one codebook.
spec fn symbol_bits(
    entries: Seq<HuffEntry>,
    family: PixelFamily,
    decorrelate: bool,
    body: Seq<u8>,
    slot: Slot,
) -> spec_fn(int) -> int {
    |s: int| symbol_count(family, decorrelate, body, slot, s) as int * entries[s].length as int
}

/// The bits that a body takes with one codebook.
spec fn slot_bits(
    books: Codebooks,
    family: PixelFamily,
    decorrelate: bool,
    body: Seq<u8>,
    slot: Slot,
) -> int {
    tally(symbol_bits(books.slot(slot), family, decorrelate, body, slot), 256)
}

/// One more residual adds the length of its codeword, and that to its own
/// codebook only.
proof fn lemma_one_more(
    books: Codebooks,
    family: PixelFamily,
    decorrelate: bool,
    body: Seq<u8>,
    slot: Slot,
)
    requires
        body.len() > 0,
    ensures
        slot_bits(books, family, decorrelate, body, slot) == slot_bits(
            books,
            family,
            decorrelate,
            body.drop_last(),
            slot,
        ) + (if slot_of(family, decorrelate, body.len() - 1) == slot {
            books.slot(slot)[body.last() as int].length as int
        } else {
            0
        }),
{
    let entries = books.slot(slot);
    let front = body.drop_last();
    let f = symbol_bits(entries, family, decorrelate, front, slot);
    let g = symbol_bits(entries, family, decorrelate, body, slot);
    let k = body.last() as int;
    if slot_of(family, decorrelate, body.len() - 1) == slot {
        assert forall|s: int| 0 <= s < 256 && s != k implies #[trigger] f(s) == g(s) by {}
        lemma_tally_bump(f, g, 256, k);
        let (n, l) = (
            symbol_count(family, decorrelate, front, slot, k) as int,
            entries[k].length as int,
        );
        assert((n + 1) * l == n * l + l) by (nonlinear_arith);
    } else {
        assert forall|s: int| 0 <= s < 256 implies #[trigger] f(s) == g(s) by {}
        lemma_tally_same(f, g, 256);
    }
}

/// The codewords of a body have as many bits as its symbols take with their
/// codebooks.
proof fn lemma_stream_bits(
    books: Codebooks,
    family: PixelFamily,
    decorrelate: bool,
    body: Seq<u8>,
)
    ensures
        code_stream(books, family, decorrelate, body).len() == slot_bits(
            books,
            family,
            decorrelate,
            body,
            Slot::First,
        ) + slot_bits(books, family, decorrelate, body, Slot::Second) + slot_bits(
            books,
            family,
            decorrelate,
            body,
            Slot::Third,
        ),
    decreases body.len(),
{
    if body.len() == 0 {
        lemma_no_bits(books, family, decorrelate, body, Slot::First);
        lemma_no_bits(books, family, decorrelate, body, Slot::Second);
        lemma_no_bits(books, family, decorrelate, body, Slot::Third);
    } else {
        lemma_stream_bits(books, family, decorrelate, body.drop_last());
        lemma_one_more(books, family, decorrelate, body, Slot::First);
        lemma_one_more(books, family, decorrelate, body, Slot::Second);
        lemma_one_more(books, family, decorrelate, body, Slot::Third);
    }
}

/// An empty body takes no bits.
proof fn lemma_no_bits(
    books: Codebooks,
    family: PixelFamily,
    decorrelate: bool,
    body: Seq<u8>,
    slot: Slot,
)
    requires
        body.len() == 0,
    ensures
        slot_bits(books, family, decorrelate, body, slot) == 0,
{
    let f = symbol_bits(books.slot(slot), family, decorrelate, body, slot);
    assert forall|s: int| 0 <= s < 256 implies #[trigger] f(s) == 0 by {
        let l = books.slot(slot)[s].length as int;
        assert(0 * l == 0) by (nonlinear_arith);
    }
    lemma_tally_const(f, 256, 0);
}

/// The bits that a body takes with one codebook are those of its histogram.
proof fn lemma_slot_bits(
    books: Codebooks,
    family: PixelFamily,
    decorrelate: bool,
    body: Seq<u8>,
    slot: Slot,
)
    requires
        countable(family, decorrelate, body),
    ensures
        slot_bits(books, family, decorrelate, body, slot) == code_bits(
            histogram(family, decorrelate, body, slot),
            entry_lengths(books.slot(slot)),
        ),
{
    let hist = histogram(family, decorrelate, body, slot);
    let f = symbol_bits(books.slot(slot), family, decorrelate, body, slot);
    let g = bit_shares(hist, entry_lengths(books.slot(slot)));
    assert forall|s: int| 0 <= s < 256 implies #[trigger] f(s) == g(s) by {
        assert(symbol_count(family, decorrelate, body, slot, s) <= u32::MAX);
        assert(hist[s] == symbol_count(family, decorrelate, body, slot, s));
    }
    lemma_tally_same(f, g, 256);
}

/// The codewords of a body have as many bits as the histograms of its codebooks
/// say.
pub proof fn law_stream_length(
    books: Codebooks,
    family: PixelFamily,
    decorrelate: bool,
    body: Seq<u8>,
)
    requires
        countable(family, decorrelate, body),
    ensures
        code_stream(books, family, decorrelate, body).len() == code_bits(
            histogram(family, decorrelate, body, Slot::First),
            entry_lengths(books.first),
        ) + code_bits(
            histogram(family, decorrelate, body, Slot::Second),
            entry_lengths(books.second),
        ) + code_bits(
            histogram(family, decorrelate, body, Slot::Third),
            entry_lengths(books.third),
        ),
{
    lemma_stream_bits(books, family, decorrelate, body);
    lemma_slot_bits(books, family, decorrelate, body, Slot::First);
    lemma_slot_bits(books, family, decorrelate, body, Slot::Second);
    lemma_slot_bits(books, family, decorrelate, body, Slot::Third);
}

/// The cost of a body is the number of bits of its codewords with the codebooks
/// that are made for it.
pub proof fn law_cost_is_coded_bits(family: PixelFamily, method: Method, body: Seq<u8>)
    requires
        body.len() > 0,
        body.len() % unit(family) as nat == 0,
        countable(family, method.decorrelates(), body),
    ensures
        mode_books(ExtradataMode::CustomV2, family, method, body) matches Some(books)
            && code_stream(books, family, method.decorrelates(), body).len() == body_cost(
            family,
            method.decorrelates(),
            body,
        ),
{
    let decorrelate = method.decorrelates();
    let books = mode_books(ExtradataMode::CustomV2, family, method, body).unwrap();
    law_stream_length(books, family, decorrelate, body);
    lemma_made_for_it(family, decorrelate, body, Slot::First, books);
    lemma_made_for_it(family, decorrelate, body, Slot::Second, books);
    lemma_made_for_it(family, decorrelate, body, Slot::Third, books);
}

/// The codebook that is made for a histogram takes the least number of bits.
proof fn lemma_made_for_it(
    family: PixelFamily,
    decorrelate: bool,
    body: Seq<u8>,
    slot: Slot,
    books: Codebooks,
)
    requires
        books.slot(slot) == crate::tables::canonical_entries(
            body_lengths(family, decorrelate, body, slot),
        ),
    ensures
        code_bits(histogram(family, decorrelate, body, slot), entry_lengths(books.slot(slot)))
            == least_bits(histogram(family, decorrelate, body, slot)),
{
    let hist = histogram(family, decorrelate, body, slot);
    let lens = body_lengths(family, decorrelate, body, slot);
    if has_symbol(hist) {
        law_best_lengths(hist);
        lemma_best_is_least(hist, lens);
        assert(lens.len() == 256);
        assert(entry_lengths(books.slot(slot)) =~= lens);
    } else {
        lemma_nothing_counted(hist);
        let g = bit_shares(hist, entry_lengths(books.slot(slot)));
        assert forall|s: int| 0 <= s < 256 implies #[trigger] g(s) == 0 by {
            assert(hist[s] == 0);
        }
        lemma_tally_const(g, 256, 0);
    }
}

// ---------------------------------------------------------------------------
// Prefix-free codes fit into the code space
// ---------------------------------------------------------------------------

/// Sums of sums can be taken in either order.
proof fn lemma_tally_swap(f: spec_fn(int, int) -> int, n: int, m: int)
    ensures
        tally(|i: int| tally(|j: int| f(i, j), m), n) == tally(
            |j: int| tally(|i: int| f(i, j), n),
            m,
        ),
    decreases n,
{
    let rows = |i: int| tally(|j: int| f(i, j), m);
    let columns = |j: int| tally(|i: int| f(i, j), n);
    if n <= 0 {
        assert forall|j: int| 0 <= j < m implies #[trigger] columns(j) == 0 by {}
        if m > 0 {
            lemma_tally_const(columns, m, 0);
            assert(m * 0 == 0) by (nonlinear_arith);
        }
    } else {
        lemma_tally_swap(f, n - 1, m);
        let shorter = |j: int| tally(|i: int| f(i, j), n - 1);
        let last = |j: int| f(n - 1, j);
        assert forall|j: int| 0 <= j < m implies #[trigger] columns(j) == shorter(j) + last(j) by {
            let column = |i: int| f(i, j);
            assert(tally(column, n) == tally(column, n - 1) + column(n - 1));
        }
        lemma_tally_add(shorter, last, columns, m);
        let final_row = |j: int| f(n - 1, j);
        assert(rows(n - 1) == tally(final_row, m));
    }
}

/// The number of places from `a` up to `b`.
proof fn lemma_tally_range(f: spec_fn(int) -> int, n: int, a: int, b: int)
    requires
        0 <= a <= b,
        n >= 0,
        forall|i: int| 0 <= i < n ==> #[trigger] f(i) == (if a <= i < b {
            1int
        } else {
            0
        }),
    ensures
        tally(f, n) == (if n <= a {
            0
        } else if n <= b {
            n - a
        } else {
            b - a
        }),
    decreases n,
{
    if n > 0 {
        lemma_tally_range(f, n - 1, a, b);
        assert(f(n - 1) == (if a <= n - 1 < b {
            1int
        } else {
            0
        }));
    }
}

/// A sum of zeros and at most one one.
proof fn lemma_tally_at_most_one(f: spec_fn(int) -> int, n: int)
    requires
        forall|i: int| 0 <= i < n ==> 0 <= #[trigger] f(i) <= 1,
        forall|i: int, j: int|
            0 <= i < j < n ==> !(#[trigger] f(i) == 1 && #[trigger] f(j) == 1),
    ensures
        0 <= tally(f, n) <= 1,
        tally(f, n) == 1 ==> exists|i: int| 0 <= i < n && #[trigger] f(i) == 1,
    decreases n,
{
    if n > 0 {
        lemma_tally_at_most_one(f, n - 1);
        assert(0 <= f(n - 1) <= 1);
        if tally(f, n - 1) == 1 {
            let i = choose|i: int| 0 <= i < n - 1 && #[trigger] f(i) == 1;
            assert(!(f(i) == 1 && f(n - 1) == 1));
        }
        if f(n - 1) == 1 {
            assert(0 <= n - 1 < n && f(n - 1) == 1);
        }
    }
}

/// One where the codeword of `s` starts the window `w`.
spec fn hits(entries: Seq<HuffEntry>) -> spec_fn(int, int) -> int {
    |w: int, s: int|
        if shows(entries[s], w as u32) {
            1int
        } else {
            0
        }
}

/// The windows that a codeword starts are its share of the code space.
proof fn lemma_windows_of(entries: Seq<HuffEntry>, s: int)
    requires
        entries_wf(entries),
        0 <= s < 256,
    ensures
        tally(|w: int| hits(entries)(w, s), CODE_SPACE as int) == code_width(
            entries[s].length as int,
        ),
{
    let e = entries[s];
    let f = |w: int| hits(entries)(w, s);
    assert(entry_wf(e));
    if e.length > 0 {
        let (c, m) = (e.code, (32 - e.length) as u32);
        let width = code_width(e.length as int);
        vstd::arithmetic::power2::lemma2_to64();
        vstd::bits::lemma_u64_shl_is_mul(1, m as u64);
        vstd::bits::lemma_u64_pow2_no_overflow(m as nat);
        assert(c as u64 + (1u64 << (m as u64)) <= 0x1_0000_0000) by (bit_vector)
            requires
                m < 32,
                (c >> m) << m == c,
        ;
        assert(width == 1u64 << (m as u64));
        assert forall|w: int| 0 <= w < CODE_SPACE implies #[trigger] f(w) == (if c <= w < c + width {
            1int
        } else {
            0
        }) by {
            lemma_shows_is_range(e, w as u32);
        }
        lemma_tally_range(f, CODE_SPACE as int, c as int, c + width);
    } else {
        assert forall|w: int| 0 <= w < CODE_SPACE implies #[trigger] f(w) == 0 by {}
        lemma_tally_const(f, CODE_SPACE as int, 0);
    }
}

/// The codewords of a prefix-free code fit into the code space together: Kraft's
/// inequality.
pub proof fn law_prefix_free_fits(entries: Seq<HuffEntry>)
    requires
        entries_wf(entries),
        is_prefix_free(entries),
    ensures
        tally(|s: int| code_width(entries[s].length as int), 256) <= CODE_SPACE,
{
    let f = hits(entries);
    let space = CODE_SPACE as int;
    let widths = |s: int| code_width(entries[s].length as int);
    let by_symbol = |s: int| tally(|w: int| f(w, s), space);
    let by_window = |w: int| tally(|s: int| f(w, s), 256);
    assert forall|s: int| 0 <= s < 256 implies #[trigger] by_symbol(s) == widths(s) by {
        lemma_windows_of(entries, s);
    }
    lemma_tally_same(by_symbol, widths, 256);
    lemma_tally_swap(f, space, 256);
    let one = |w: int| 1int;
    assert forall|w: int| 0 <= w < space implies #[trigger] by_window(w) <= one(w) by {
        let row = |s: int| f(w, s);
        assert forall|i: int, j: int| 0 <= i < j < 256 implies !(#[trigger] row(i) == 1
            && #[trigger] row(j) == 1) by {
            if row(i) == 1 && row(j) == 1 {
                assert(shows(entries[i], w as u32) && shows(entries[j], w as u32));
            }
        }
        lemma_tally_at_most_one(row, 256);
    }
    lemma_tally_le(by_window, one, space);
    lemma_tally_const(one, space, 1);
}

/// A prefix-free codebook with a codeword for every counted symbol is one of
/// those that the best lengths are measured against.
proof fn lemma_prefix_free_covers(
    books: Codebooks,
    family: PixelFamily,
    decorrelate: bool,
    body: Seq<u8>,
    slot: Slot,
)
    requires
        is_decodable(books),
        has_codewords(books, family, decorrelate, body),
        countable(family, decorrelate, body),
    ensures
        covers(histogram(family, decorrelate, body, slot), entry_lengths(books.slot(slot))),
{
    let entries = books.slot(slot);
    let hist = histogram(family, decorrelate, body, slot);
    let lens = entry_lengths(entries);
    assert(entries_wf(books.slot(slot)));
    law_prefix_free_fits(entries);
    assert forall|s: int| 0 <= s < 256 && hist[s] > 0 implies 1 <= #[trigger] lens[s]
        <= crate::tables::MAX_LENGTH by {
        assert(symbol_count(family, decorrelate, body, slot, s) <= u32::MAX);
        let i = lemma_counted_occurs(family, decorrelate, body, slot, s);
        assert(entries[body[i] as int].length > 0);
        assert(entry_wf(entries[s]));
    }
    let widths = |s: int| code_width(entries[s].length as int);
    assert forall|s: int| 0 <= s < 256 implies #[trigger] counted_shares(hist, lens)(s) <= widths(
        s,
    ) by {
        lemma_width_nonneg(lens[s] as int);
    }
    lemma_tally_le(counted_shares(hist, lens), widths, 256);
}

/// A counted symbol occurs.
proof fn lemma_counted_occurs(
    family: PixelFamily,
    decorrelate: bool,
    body: Seq<u8>,
    slot: Slot,
    s: int,
) -> (i: int)
    requires
        symbol_count(family, decorrelate, body, slot, s) > 0,
    ensures
        0 <= i < body.len(),
        slot_of(family, decorrelate, i) == slot,
        body[i] == s,
    decreases body.len(),
{
    let last = body.len() - 1;
    if slot_of(family, decorrelate, last) == slot && body.last() == s {
        last
    } else {
        lemma_counted_occurs(family, decorrelate, body.drop_last(), slot, s)
    }
}

/// The codebooks that are made for a body take the fewest bits: no prefix-free
/// codebooks with a codeword for each of its residuals take fewer.
pub proof fn law_made_books_are_shortest(
    family: PixelFamily,
    method: Method,
    body: Seq<u8>,
    books: Codebooks,
)
    requires
        body.len() > 0,
        body.len() % unit(family) as nat == 0,
        countable(family, method.decorrelates(), body),
        is_decodable(books),
        has_codewords(books, family, method.decorrelates(), body),
    ensures
        mode_books(ExtradataMode::CustomV2, family, method, body) matches Some(made)
            && code_stream(made, family, method.decorrelates(), body).len() <= code_stream(
            books,
            family,
            method.decorrelates(),
            body,
        ).len(),
{
    let decorrelate = method.decorrelates();
    law_cost_is_coded_bits(family, method, body);
    law_stream_length(books, family, decorrelate, body);
    lemma_no_fewer(books, family, decorrelate, body, Slot::First);
    lemma_no_fewer(books, family, decorrelate, body, Slot::Second);
    lemma_no_fewer(books, family, decorrelate, body, Slot::Third);
}

/// A codebook takes at least the least number of bits.
proof fn lemma_no_fewer(
    books: Codebooks,
    family: PixelFamily,
    decorrelate: bool,
    body: Seq<u8>,
    slot: Slot,
)
    requires
        is_decodable(books),
        has_codewords(books, family, decorrelate, body),
        countable(family, decorrelate, body),
    ensures
        least_bits(histogram(family, decorrelate, body, slot)) <= code_bits(
            histogram(family, decorrelate, body, slot),
            entry_lengths(books.slot(slot)),
        ),
{
    lemma_prefix_free_covers(books, family, decorrelate, body, slot);
    lemma_best_is_smallest(
        histogram(family, decorrelate, body, slot),
        entry_lengths(books.slot(slot)),
    );
}

/// Codebooks made for a frame take no more bits for it than those of the other
/// modes.
pub proof fn law_custom_mode_is_shortest(
    family: PixelFamily,
    method: Method,
    body: Seq<u8>,
    mode: ExtradataMode,
)
    requires
        body.len() > 0,
        body.len() % unit(family) as nat == 0,
        countable(family, method.decorrelates(), body),
    ensures
        mode_books(mode, family, method, body) matches Some(books) && mode_books(
            ExtradataMode::CustomV2,
            family,
            method,
            body,
        ) matches Some(made) && code_stream(made, family, method.decorrelates(), body).len()
            <= code_stream(books, family, method.decorrelates(), body).len(),
{
    law_mode_books(mode, family, method, body);
    let books = mode_books(mode, family, method, body).unwrap();
    law_made_books_are_shortest(family, method, body, books);
}

} // verus!
