//! Canonical Huffman codes over alphabets of any size.
//!
//! A code is given by its codeword lengths. Codewords are assigned from the
//! longest length to the shortest and, within a length, by symbol, from zero on.
//! Length zero means that a symbol has no codeword.

use vstd::prelude::*;
use vstd::arithmetic::power2::{lemma2_to64, lemma_pow2_adds, lemma_pow2_unfold, pow2};

use crate::bitreader::{bits_value, lemma_bits_value_bound, BitReader};
use crate::canonical::{
    assign_codes, code_start, code_width, comes_before, is_complete, kraft_total,
    lemma_space_used_next_length, lemma_space_used_start, lemma_space_used_step,
    lemma_start_aligned, lemma_starts_disjoint, lemma_width_divides, space_used, CODE_SPACE,
};
use crate::error::{Error, Result};

verus! {

/// The longest codeword length.
pub const MAX_CODE_LEN: u8 = 32;

/// A length table describes a complete code.
pub open spec fn is_code(lens: Seq<u8>) -> bool {
    lens.len() > 0 && is_complete(lens)
}

/// The codeword of a symbol as a number.
pub open spec fn code_value(lens: Seq<u8>, s: int) -> int {
    code_start(lens, s) / code_width(lens[s] as int)
}

/// The bits of a buffer from `pos` on start with the codeword of `s`.
pub open spec fn starts_code(lens: Seq<u8>, data: Seq<u8>, pos: int, s: int) -> bool {
    &&& 0 <= s < lens.len()
    &&& lens[s] > 0
    &&& pos + lens[s] <= 8 * data.len()
    &&& bits_value(data, pos, lens[s] as nat) == code_value(lens, s)
}

/// More bits of a buffer refine the number that fewer bits spell.
proof fn lemma_more_bits(data: Seq<u8>, pos: int, a: nat, k: nat)
    ensures
        bits_value(data, pos, a) * pow2(k) <= bits_value(data, pos, a + k),
        bits_value(data, pos, a + k) < (bits_value(data, pos, a) + 1) * pow2(k),
    decreases k,
{
    let v = bits_value(data, pos, a);
    if k == 0 {
        lemma2_to64();
        assert(v * pow2(0) == v && (v + 1) * pow2(0) == v + 1) by (nonlinear_arith)
            requires
                pow2(0) == 1,
        ;
    } else {
        lemma_more_bits(data, pos, a, (k - 1) as nat);
        lemma_pow2_unfold(k);
        let h = pow2((k - 1) as nat) as int;
        let u = bits_value(data, pos, (a + k - 1) as nat);
        assert(v * (2 * h) == 2 * (v * h) && (v + 1) * (2 * h) == 2 * ((v + 1) * h))
            by (nonlinear_arith);
        assert((a + k - 1) as nat == (a + k) as nat - 1);
    }
}

/// Where a buffer starts with a codeword, the codeword's interval of the code
/// space holds every window that starts with the same bits.
proof fn lemma_code_interval(lens: Seq<u8>, data: Seq<u8>, pos: int, s: int)
    requires
        is_complete(lens),
        starts_code(lens, data, pos, s),
    ensures
        bits_value(data, pos, lens[s] as nat) * code_width(lens[s] as int) == code_start(lens, s),
{
    lemma_start_aligned(lens, s);
    lemma_width_divides(lens[s] as int, 0);
    let (a, d) = (code_start(lens, s), code_width(lens[s] as int));
    vstd::arithmetic::div_mod::lemma_fundamental_div_mod(a, d);
    vstd::arithmetic::mul::lemma_mul_is_commutative(a / d, d);
}

/// No buffer starts with two codewords.
pub proof fn law_one_codeword(lens: Seq<u8>, data: Seq<u8>, pos: int, s: int, t: int)
    requires
        is_complete(lens),
        starts_code(lens, data, pos, s),
        starts_code(lens, data, pos, t),
    ensures
        s == t,
{
    if s != t {
        if comes_before(lens, s, t) {
            lemma_codewords_differ(lens, data, pos, s, t);
        } else {
            lemma_codewords_differ(lens, data, pos, t, s);
        }
    }
}

proof fn lemma_codewords_differ(lens: Seq<u8>, data: Seq<u8>, pos: int, t: int, s: int)
    requires
        is_complete(lens),
        starts_code(lens, data, pos, s),
        0 <= t < lens.len(),
        comes_before(lens, t, s),
    ensures
        !starts_code(lens, data, pos, t),
{
    if starts_code(lens, data, pos, t) {
        lemma_later_codeword(lens, data, pos, t, s);
        lemma_starts_disjoint(lens, t, s);
        lemma_width_divides(lens[t] as int, 0);
    }
}

/// Of two codewords that a buffer starts with, the one assigned later would have
/// to start no higher.
proof fn lemma_later_codeword(lens: Seq<u8>, data: Seq<u8>, pos: int, t: int, s: int)
    requires
        is_complete(lens),
        starts_code(lens, data, pos, s),
        starts_code(lens, data, pos, t),
        comes_before(lens, t, s),
    ensures
        code_start(lens, s) <= code_start(lens, t),
{
    let (lt, ls) = (lens[t] as nat, lens[s] as nat);
    let k = (lt - ls) as nat;
    lemma_code_interval(lens, data, pos, s);
    lemma_code_interval(lens, data, pos, t);
    lemma_more_bits(data, pos, ls, k);
    let (vs, vt) = (bits_value(data, pos, ls), bits_value(data, pos, lt));
    let (ws, wt) = (code_width(ls as int), code_width(lt as int));
    lemma_width_divides(lt as int, 0);
    assert(ws == pow2(k) * wt) by {
        lemma_pow2_adds(k, (32 - lt) as nat);
    }
    let p = pow2(k) as int;
    assert(vs * ws <= vt * wt) by (nonlinear_arith)
        requires
            vs * p <= vt,
            ws == p * wt,
            wt > 0,
    ;
}

/// The code space up to a stage of the assignment is covered by codewords.
pub proof fn lemma_space_covered(lens: Seq<u8>, len: int, s: int, w: int) -> (t: int)
    requires
        forall|t: int| 0 <= t < lens.len() ==> #[trigger] lens[t] <= 32,
        0 <= len <= 32,
        0 <= s <= lens.len(),
        0 <= w < space_used(lens, len, s),
    ensures
        0 <= t < lens.len(),
        lens[t] > 0,
        code_start(lens, t) <= w < code_start(lens, t) + code_width(lens[t] as int),
    decreases 32 - len, s,
{
    if s > 0 {
        lemma_space_used_step(lens, len, s - 1);
        if w < space_used(lens, len, s - 1) {
            lemma_space_covered(lens, len, s - 1, w)
        } else {
            s - 1
        }
    } else if len < 32 {
        lemma_space_used_next_length(lens, len + 1);
        lemma_space_covered(lens, len + 1, lens.len() as int, w)
    } else {
        lemma_space_used_start(lens);
        0
    }
}

/// In a complete code, any 32 bits start with a codeword.
pub proof fn law_some_codeword(lens: Seq<u8>, data: Seq<u8>, pos: int) -> (s: int)
    requires
        is_complete(lens),
        0 <= pos,
        pos + 32 <= 8 * data.len(),
    ensures
        starts_code(lens, data, pos, s),
{
    let w = bits_value(data, pos, 32);
    lemma_bits_value_bound(data, pos, 32);
    lemma2_to64();
    lemma_all_space_used(lens);
    let s = lemma_space_covered(lens, 0, lens.len() as int, w);
    let l = lens[s] as nat;
    let k = (32 - l) as nat;
    lemma_start_aligned(lens, s);
    lemma_width_divides(l as int, 0);
    lemma_more_bits(data, pos, l, k);
    let (a, d) = (code_start(lens, s), code_width(l as int));
    let v = bits_value(data, pos, l);
    let q = a / d;
    vstd::arithmetic::div_mod::lemma_fundamental_div_mod(a, d);
    assert(v == q) by (nonlinear_arith)
        requires
            a == d * q,
            v * d <= w < (v + 1) * d,
            a <= w < a + d,
            d > 0,
    ;
    s
}

/// When every length is done, the whole code space is taken.
pub proof fn lemma_all_space_used(lens: Seq<u8>)
    requires
        is_complete(lens),
    ensures
        space_used(lens, 0, lens.len() as int) == CODE_SPACE,
{
    crate::tally::lemma_tally_same(
        crate::canonical::used_shares(lens, 0, lens.len() as int),
        crate::canonical::all_shares(lens),
        lens.len() as int,
    );
}

/// A canonical Huffman decoder.
#[derive(Clone, Debug)]
pub struct HuffTable {
    lens: Vec<u8>,
    /// For each length from one on, the codewords of that length with their
    /// symbols.
    by_len: Vec<Vec<(u32, u32)>>,
}

/// A bucket holds the codewords of the symbols below `upto` with length `len`.
pub open spec fn is_bucket(lens: Seq<u8>, bucket: Seq<(u32, u32)>, len: int, upto: int) -> bool {
    &&& forall|i: int|
        0 <= i < bucket.len() ==> 0 <= (#[trigger] bucket[i]).1 < upto && lens[bucket[i].1 as int]
            == len && bucket[i].0 == code_value(lens, bucket[i].1 as int)
    &&& forall|s: int|
        0 <= s < upto && #[trigger] lens[s] == len ==> exists|i: int|
            0 <= i < bucket.len() && (#[trigger] bucket[i]).1 == s
}

impl HuffTable {
    /// The codeword lengths.
    pub closed spec fn lens(&self) -> Seq<u8> {
        self.lens@
    }

    /// The table's invariant.
    pub closed spec fn wf(&self) -> bool {
        &&& is_code(self.lens@)
        &&& self.lens@.len() <= 0x1_0000_0000
        &&& self.by_len@.len() == 32
        &&& forall|k: int|
            0 <= k < 32 ==> is_bucket(
                self.lens@,
                (#[trigger] self.by_len@[k])@,
                k + 1,
                self.lens@.len() as int,
            )
    }

    /// The lengths of a table describe a complete code.
    pub proof fn lemma_wf(&self)
        requires
            self.wf(),
        ensures
            is_code(self.lens()),
    {
    }

    /// Builds a decoder from codeword lengths. Fails where there are none, where
    /// one exceeds [`MAX_CODE_LEN`], or where they do not describe a complete
    /// code.
    pub fn from_lengths(lengths: &[u8]) -> (r: Result<Self>)
        requires
            lengths@.len() <= 0x1_0000_0000,
        ensures
            r is Ok <==> is_code(lengths@),
            r matches Ok(t) ==> t.wf() && t.lens() == lengths@,
            r matches Err(e) ==> e is InvalidData,
    {
        let codes = Self::build_codes(lengths)?;
        let n: usize = lengths.len();
        let mut by_len: Vec<Vec<(u32, u32)>> = Vec::new();
        let mut len: u8 = 1;
        while len <= MAX_CODE_LEN
            invariant
                1 <= len <= 33,
                n == lengths@.len(),
                n <= 0x1_0000_0000,
                codes@.len() == n,
                forall|s: int|
                    0 <= s < n && lengths@[s] > 0 ==> (#[trigger] codes@[s]).0 == code_value(
                        lengths@,
                        s,
                    ),
                by_len@.len() == len - 1,
                forall|k: int|
                    0 <= k < len - 1 ==> is_bucket(
                        lengths@,
                        (#[trigger] by_len@[k])@,
                        k + 1,
                        n as int,
                    ),
            decreases 33 - len,
        {
            let mut bucket: Vec<(u32, u32)> = Vec::new();
            let mut s: usize = 0;
            while s < n
                invariant
                    1 <= len <= 32,
                    s <= n,
                    n == lengths@.len(),
                    n <= 0x1_0000_0000,
                    codes@.len() == n,
                    forall|s: int|
                        0 <= s < n && lengths@[s] > 0 ==> (#[trigger] codes@[s]).0 == code_value(
                            lengths@,
                            s,
                        ),
                    is_bucket(lengths@, bucket@, len as int, s as int),
                decreases n - s,
            {
                let ghost before = bucket@;
                if lengths[s] == len {
                    bucket.push((codes[s].0, s as u32));
                    assert(bucket@[before.len() as int].1 == s);
                }
                proof {
                    assert forall|t: int| 0 <= t < s + 1 && #[trigger] lengths@[t] == len implies exists|
                        i: int,
                    |
                        0 <= i < bucket@.len() && (#[trigger] bucket@[i]).1 == t by {
                        if t < s {
                            let i = choose|i: int|
                                0 <= i < before.len() && (#[trigger] before[i]).1 == t;
                            assert(bucket@[i] == before[i]);
                        }
                    }
                }
                s = s + 1;
            }
            by_len.push(bucket);
            len = len + 1;
        }
        let mut lens: Vec<u8> = Vec::new();
        lens.extend_from_slice(lengths);
        assert(lens@ =~= lengths@);
        Ok(Self { lens, by_len })
    }

    /// The codewords of a code, as numbers with their lengths; zeros for symbols
    /// without one.
    pub fn build_codes(lengths: &[u8]) -> (r: Result<Vec<(u32, u8)>>)
        ensures
            r is Ok <==> is_code(lengths@),
            r matches Ok(codes) ==> codes@.len() == lengths@.len() && forall|s: int|
                0 <= s < lengths@.len() ==> #[trigger] codes@[s] == (if lengths@[s] > 0 {
                    (code_value(lengths@, s) as u32, lengths@[s])
                } else {
                    (0u32, 0u8)
                }),
            r matches Ok(codes) ==> forall|s: int|
                0 <= s < lengths@.len() && lengths@[s] > 0 ==> (#[trigger] codes@[s]).0
                    == code_value(lengths@, s),
            r matches Err(e) ==> e is InvalidData,
    {
        let n: usize = lengths.len();
        if n == 0 {
            return Err(Error::invalid("huffyuv huffman: empty length table"));
        }
        let mut i: usize = 0;
        while i < n
            invariant
                i <= n,
                n == lengths@.len(),
                forall|t: int| 0 <= t < i ==> #[trigger] lengths@[t] <= 32,
            decreases n - i,
        {
            if lengths[i] > MAX_CODE_LEN {
                return Err(Error::invalid("huffyuv huffman: code length exceeds 32"));
            }
            i = i + 1;
        }
        let total: u128 = kraft_total(lengths);
        if total != CODE_SPACE as u128 {
            return Err(Error::invalid("huffyuv huffman: lengths fail Kraft-McMillan"));
        }
        let left: Vec<u32> = assign_codes(lengths);
        let mut codes: Vec<(u32, u8)> = Vec::new();
        let mut s: usize = 0;
        while s < n
            invariant
                s <= n,
                n == lengths@.len(),
                is_complete(lengths@),
                left@.len() == n,
                forall|t: int|
                    0 <= t < n ==> #[trigger] left@[t] == (if lengths@[t] > 0 {
                        code_start(lengths@, t)
                    } else {
                        0
                    }),
                codes@.len() == s,
                forall|t: int|
                    0 <= t < s ==> #[trigger] codes@[t] == (if lengths@[t] > 0 {
                        (code_value(lengths@, t) as u32, lengths@[t])
                    } else {
                        (0u32, 0u8)
                    }),
                forall|t: int|
                    0 <= t < s && lengths@[t] > 0 ==> (#[trigger] codes@[t]).0 == code_value(
                        lengths@,
                        t,
                    ),
            decreases n - s,
        {
            let len: u8 = lengths[s];
            assert(lengths@[s as int] <= 32);
            if len > 0 {
                let m: u32 = (32 - len) as u32;
                let c: u32 = left[s];
                proof {
                    vstd::bits::lemma_u32_shr_is_div(c, m);
                    lemma_width_divides(len as int, 0);
                }
                codes.push((c >> m, len));
            } else {
                codes.push((0, 0));
            }
            s = s + 1;
        }
        Ok(codes)
    }

    /// Decodes the next symbol. Fails where the buffer ends within a codeword,
    /// and has then been read to its end.
    pub fn read_symbol(&self, r: &mut BitReader<'_>) -> (result: Result<u32>)
        requires
            self.wf(),
            old(r).wf(),
        ensures
            final(r).wf(),
            final(r).source() == old(r).source(),
            result is Ok <==> exists|s: int| #[trigger]
                starts_code(self.lens(), old(r).source(), old(r).pos(), s),
            result matches Ok(s) ==> starts_code(
                self.lens(),
                old(r).source(),
                old(r).pos(),
                s as int,
            ) && final(r).pos() == old(r).pos() + self.lens()[s as int],
            result matches Err(e) ==> e is Eof && final(r).pos() == 8 * old(r).source().len(),
    {
        let ghost (lens, data, start) = (self.lens(), r.source(), r.pos());
        let mut code: u64 = 0;
        let mut len: u8 = 0;
        proof {
            r.lemma_wf();
        }
        while len < MAX_CODE_LEN
            invariant
                0 <= len <= 32,
                self.wf(),
                lens == self.lens(),
                r.wf(),
                r.source() == data,
                data == old(r).source(),
                start == old(r).pos(),
                0 <= start,
                r.pos() == start + len,
                r.pos() <= 8 * data.len(),
                code == bits_value(data, start, len as nat),
                forall|s: int|
                    0 <= s < lens.len() && lens[s] <= len ==> !#[trigger] starts_code(
                        lens,
                        data,
                        start,
                        s,
                    ),
            decreases 32 - len,
        {
            let bit: u32 = match r.read_bit() {
                Ok(b) => b,
                Err(e) => {
                    return Err(e);
                },
            };
            proof {
                lemma_bits_value_bound(data, start, len as nat);
                lemma2_to64();
                if len < 31 {
                    vstd::arithmetic::power2::lemma_pow2_strictly_increases(len as nat, 31);
                }
                r.lemma_wf();
            }
            code = 2 * code + bit as u64;
            len = len + 1;
            let bucket: &Vec<(u32, u32)> = &self.by_len[(len - 1) as usize];
            assert(is_bucket(lens, bucket@, len as int, lens.len() as int));
            let mut i: usize = 0;
            while i < bucket.len()
                invariant
                    i <= bucket@.len(),
                    1 <= len <= 32,
                    self.wf(),
                    lens == self.lens(),
                    is_bucket(lens, bucket@, len as int, lens.len() as int),
                    r.wf(),
                    r.source() == data,
                    data == old(r).source(),
                    start == old(r).pos(),
                    r.pos() == start + len,
                    r.pos() <= 8 * data.len(),
                    code == bits_value(data, start, len as nat),
                    forall|k: int| 0 <= k < i ==> (#[trigger] bucket@[k]).0 != code,
                decreases bucket@.len() - i,
            {
                let (c, s): (u32, u32) = bucket[i];
                assert(bucket@[i as int] == (c, s));
                if c as u64 == code {
                    assert(starts_code(lens, data, start, s as int));
                    return Ok(s);
                }
                i = i + 1;
            }
            proof {
                assert forall|s: int| 0 <= s < lens.len() && lens[s] <= len implies !#[trigger]
                    starts_code(lens, data, start, s) by {
                    if lens[s] == len {
                        let k = choose|k: int|
                            0 <= k < bucket@.len() && (#[trigger] bucket@[k]).1 == s;
                        assert(bucket@[k].0 != code);
                    }
                }
            }
        }
        proof {
            let s = law_some_codeword(lens, data, start);
            assert(starts_code(lens, data, start, s));
            assert(lens[s] <= 32);
        }
        Err(Error::invalid("huffyuv huffman: code longer than 32 bits"))
    }
}

} // verus!
