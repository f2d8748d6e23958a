//! Canonical prefix codes.
//!
//! A length table gives each symbol a codeword length, or zero where the symbol
//! has no codeword. Codewords are assigned to the longest lengths first, and by
//! ascending symbol within one length, so that they cover the 32-bit code space
//! from zero upwards without a gap.

use vstd::prelude::*;
use vstd::arithmetic::power2::{lemma2_to64, lemma_pow2_adds, lemma_pow2_pos, pow2};
use vstd::arithmetic::div_mod::{lemma_mod_multiples_basic, lemma_sub_mod_noop};

use crate::tally::{
    lemma_tally_add, lemma_tally_bump, lemma_tally_le, lemma_tally_multiple, lemma_tally_same, tally,
};

verus! {

/// The size of the 32-bit code space.
pub const CODE_SPACE: u64 = 0x1_0000_0000;

/// The share of the code space that a codeword of length `len` covers.
pub open spec fn code_width(len: int) -> int {
    if 1 <= len <= 32 {
        pow2((32 - len) as nat) as int
    } else {
        0
    }
}

/// The share of the code space that all codewords cover together.
pub open spec fn kraft_sum(lens: Seq<u8>) -> int {
    tally(all_shares(lens), lens.len() as int)
}

/// The share of each symbol's codeword.
pub open spec fn all_shares(lens: Seq<u8>) -> spec_fn(int) -> int {
    |t: int| code_width(lens[t] as int)
}

/// Every length fits, and the codewords cover the code space exactly.
pub open spec fn is_complete(lens: Seq<u8>) -> bool {
    &&& forall|t: int| 0 <= t < lens.len() ==> #[trigger] lens[t] <= 32
    &&& kraft_sum(lens) == CODE_SPACE
}

/// Symbol `t` gets its codeword before symbol `s` does.
pub open spec fn comes_before(lens: Seq<u8>, t: int, s: int) -> bool {
    lens[t] > lens[s] || (lens[t] == lens[s] && t < s)
}

/// The share of the code space taken once every length above `len`, and of
/// length `len` the symbols below `s`, have their codewords.
pub open spec fn space_used(lens: Seq<u8>, len: int, s: int) -> int {
    tally(used_shares(lens, len, s), lens.len() as int)
}

/// The shares that [`space_used`] sums.
pub open spec fn used_shares(lens: Seq<u8>, len: int, s: int) -> spec_fn(int) -> int {
    |t: int|
        if lens[t] > len || (lens[t] == len && t < s) {
            code_width(lens[t] as int)
        } else {
            0
        }
}

/// Where the codeword of symbol `s` starts in the code space: its codeword,
/// left-aligned in 32 bits.
pub open spec fn code_start(lens: Seq<u8>, s: int) -> int {
    space_used(lens, lens[s] as int, s)
}

/// A codeword's share is positive and divides the share of every shorter one.
pub proof fn lemma_width_divides(len: int, shorter: int)
    requires
        1 <= len <= 32,
        0 <= shorter <= len,
    ensures
        code_width(len) > 0,
        code_width(shorter) % code_width(len) == 0,
        CODE_SPACE as int % code_width(len) == 0,
        code_width(len) <= 0x8000_0000,
{
    lemma_pow2_pos((32 - len) as nat);
    lemma2_to64();
    if shorter >= 1 {
        lemma_pow2_adds((len - shorter) as nat, (32 - len) as nat);
        lemma_mod_multiples_basic(pow2((len - shorter) as nat) as int, code_width(len));
    } else {
        vstd::arithmetic::div_mod::lemma_small_mod(0, code_width(len) as nat);
    }
    lemma_pow2_adds(len as nat, (32 - len) as nat);
    lemma_mod_multiples_basic(pow2(len as nat) as int, code_width(len));
    if len > 1 {
        vstd::arithmetic::power2::lemma_pow2_strictly_increases((32 - len) as nat, 31);
    }
}

/// A codeword that comes later starts where the earlier one ends, or above.
pub proof fn lemma_starts_disjoint(lens: Seq<u8>, t: int, s: int)
    requires
        0 <= t < lens.len(),
        0 <= s < lens.len(),
        1 <= lens[s] <= 32,
        comes_before(lens, t, s),
    ensures
        code_start(lens, t) + code_width(lens[t] as int) <= code_start(lens, s),
{
    let n = lens.len() as int;
    let upto_t = used_shares(lens, lens[t] as int, t);
    let and_t = |u: int|
        if u == t {
            code_width(lens[u] as int)
        } else {
            upto_t(u)
        };
    let upto_s = used_shares(lens, lens[s] as int, s);
    lemma_tally_bump(upto_t, and_t, n, t);
    assert forall|u: int| 0 <= u < n implies #[trigger] and_t(u) <= upto_s(u) by {
        lemma_width_nonneg(lens[u] as int);
    }
    lemma_tally_le(and_t, upto_s, n);
}

/// A share of the code space is never negative.
pub proof fn lemma_width_nonneg(len: int)
    ensures
        code_width(len) >= 0,
{
    if 1 <= len <= 32 {
        lemma_pow2_pos((32 - len) as nat);
    }
}

/// The space used at any stage is within the space of all codewords, and grows
/// from stage to stage.
pub proof fn lemma_space_used_bound(lens: Seq<u8>, len: int, s: int)
    ensures
        0 <= space_used(lens, len, s) <= kraft_sum(lens),
{
    let n = lens.len() as int;
    let some = used_shares(lens, len, s);
    let all = all_shares(lens);
    assert forall|t: int| 0 <= t < n implies 0 <= #[trigger] some(t) <= all(t) by {
        lemma_width_nonneg(lens[t] as int);
    }
    lemma_tally_le(some, all, n);
    crate::tally::lemma_tally_nonneg(some, n);
}

/// One more symbol of the current length takes its share.
pub proof fn lemma_space_used_step(lens: Seq<u8>, len: int, s: int)
    requires
        0 <= s < lens.len(),
    ensures
        space_used(lens, len, s + 1) == space_used(lens, len, s) + (if lens[s] == len {
            code_width(len)
        } else {
            0
        }),
{
    let n = lens.len() as int;
    let before = used_shares(lens, len, s);
    let after = used_shares(lens, len, s + 1);
    lemma_tally_bump(before, after, n, s);
}

/// When a length is done, the next shorter one begins.
pub proof fn lemma_space_used_next_length(lens: Seq<u8>, len: int)
    ensures
        space_used(lens, len, lens.len() as int) == space_used(lens, len - 1, 0),
{
    let n = lens.len() as int;
    let before = used_shares(lens, len, n);
    let after = used_shares(lens, len - 1, 0);
    lemma_tally_same(before, after, n);
}

/// Before the longest length nothing is taken.
pub proof fn lemma_space_used_start(lens: Seq<u8>)
    requires
        forall|t: int| 0 <= t < lens.len() ==> #[trigger] lens[t] <= 32,
    ensures
        space_used(lens, 32, 0) == 0,
{
    let n = lens.len() as int;
    let f = used_shares(lens, 32, 0);
    crate::tally::lemma_tally_const(f, n, 0);
    assert(n * 0 == 0) by (nonlinear_arith);
}

/// In a complete code every codeword starts at a multiple of its share, and
/// ends within the code space.
pub proof fn lemma_start_aligned(lens: Seq<u8>, s: int)
    requires
        is_complete(lens),
        0 <= s < lens.len(),
        lens[s] > 0,
    ensures
        code_start(lens, s) % code_width(lens[s] as int) == 0,
        0 <= code_start(lens, s),
        code_start(lens, s) + code_width(lens[s] as int) <= CODE_SPACE,
{
    let n = lens.len() as int;
    let len = lens[s] as int;
    let d = code_width(len);
    let all = all_shares(lens);
    let taken = used_shares(lens, len, s);
    let left = |t: int|
        if lens[t] > len || (lens[t] == len && t < s) {
            0
        } else {
            code_width(lens[t] as int)
        };
    lemma_tally_add(taken, left, all, n);
    assert forall|t: int| 0 <= t < n implies #[trigger] left(t) % d == 0 by {
        if lens[t] > len || (lens[t] == len && t < s) {
            lemma_width_divides(len, 0);
        } else {
            lemma_width_divides(len, lens[t] as int);
        }
    }
    lemma_width_divides(len, len);
    lemma_tally_multiple(left, n, d);
    lemma_sub_mod_noop(CODE_SPACE as int, tally(left, n), d);
    vstd::arithmetic::div_mod::lemma_small_mod(0, d as nat);
    lemma_space_used_bound(lens, len, s + 1);
    lemma_space_used_step(lens, len, s);
    lemma_space_used_bound(lens, len, s);
}

/// The share that the codewords of a length table cover together.
pub fn kraft_total(lens: &[u8]) -> (total: u128)
    requires
        forall|t: int| 0 <= t < lens@.len() ==> #[trigger] lens@[t] <= 32,
    ensures
        total == kraft_sum(lens@),
{
    let mut total: u128 = 0;
    let n: usize = lens.len();
    let mut i: usize = 0;
    let ghost f = all_shares(lens@);
    while i < n
        invariant
            n == lens@.len(),
            0 <= i <= n,
            forall|t: int| 0 <= t < lens@.len() ==> #[trigger] lens@[t] <= 32,
            f == all_shares(lens@),
            total == tally(f, i as int),
            total <= i * 0x8000_0000,
        decreases n - i,
    {
        let len: u8 = lens[i];
        if len > 0 {
            let w = width_of(len);
            total = total + w as u128;
        }
        i = i + 1;
    }
    total
}

/// The share that a codeword of length `len` covers.
pub fn width_of(len: u8) -> (w: u64)
    requires
        1 <= len <= 32,
    ensures
        w == code_width(len as int),
        1 <= w <= 0x8000_0000,
{
    proof {
        lemma_width_divides(len as int, 0);
        vstd::bits::lemma_u64_shl_is_mul(1, (32 - len) as u64);
        lemma2_to64();
        vstd::bits::lemma_u64_pow2_no_overflow((32 - len) as nat);
    }
    1u64 << ((32 - len) as u64)
}

/// The codewords of a complete code, left-aligned in 32 bits; zero for symbols
/// without one.
pub fn assign_codes(lens: &[u8]) -> (codes: Vec<u32>)
    requires
        is_complete(lens@),
    ensures
        codes@.len() == lens@.len(),
        forall|s: int|
            0 <= s < lens@.len() ==> #[trigger] codes@[s] == (if lens@[s] > 0 {
                code_start(lens@, s)
            } else {
                0
            }),
{
    let n: usize = lens.len();
    let mut codes: Vec<u32> = vec![0u32; n];
    let mut used: u64 = 0;
    let mut len: u8 = 32;
    proof {
        lemma_space_used_start(lens@);
    }
    while len > 0
        invariant
            n == lens@.len(),
            is_complete(lens@),
            0 <= len <= 32,
            codes@.len() == n,
            used == space_used(lens@, len as int, 0),
            forall|s: int|
                0 <= s < n && lens@[s] <= len ==> #[trigger] codes@[s] == 0,
            forall|s: int|
                0 <= s < n && lens@[s] > len ==> #[trigger] codes@[s] == code_start(lens@, s),
        decreases len,
    {
        let w = width_of(len);
        let mut s: usize = 0;
        while s < n
            invariant
                n == lens@.len(),
                is_complete(lens@),
                1 <= len <= 32,
                w == code_width(len as int),
                codes@.len() == n,
                0 <= s <= n,
                used == space_used(lens@, len as int, s as int),
                forall|t: int|
                    0 <= t < n && (lens@[t] < len || (lens@[t] == len && t >= s))
                        ==> #[trigger] codes@[t] == 0,
                forall|t: int|
                    0 <= t < n && (lens@[t] > len || (lens@[t] == len && t < s))
                        ==> #[trigger] codes@[t] == code_start(lens@, t),
            decreases n - s,
        {
            proof {
                lemma_space_used_step(lens@, len as int, s as int);
                lemma_space_used_bound(lens@, len as int, s as int + 1);
            }
            if lens[s] == len {
                proof {
                    lemma_start_aligned(lens@, s as int);
                    lemma_width_divides(len as int, 0);
                }
                codes.set(s, used as u32);
                used = used + w;
            }
            s = s + 1;
        }
        proof {
            lemma_space_used_next_length(lens@, len as int);
        }
        len = len - 1;
    }
    codes
}

} // verus!
