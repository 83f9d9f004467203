//! Canonical Huffman tables (ITU-T T.81, Annex C) and symbol decoding
//! against a live bit source (Annex F.2.2.3).
//!
//! A table is built from sixteen code-length counts and the symbol values
//! in code order: codes of each length are assigned consecutively, and the
//! first code of a length doubles the code just past the previous length.
//! Decoding pulls one bit at a time and compares the accumulated code with
//! the largest code of each length.

use vstd::prelude::*;
use vstd::arithmetic::power2::pow2;
use vstd::arithmetic::power2::lemma_pow2_unfold;
use vstd::arithmetic::power2::lemma2_to64;
use crate::errors::DecodeError;
use crate::bitsrc::ByteStream;
use crate::bitsrc::BitState;
use crate::bitsrc::SrcView;
use crate::bitsrc::src_view;
use crate::bitsrc::spec_receive;
use crate::bitsrc::receive;

verus! {

/// A decode-ready canonical Huffman table.  Entry `i` of each array
/// describes the codes of length `i + 1`.
pub struct HuffTable {
    /// Smallest code of each length.
    pub mincode: Vec<u32>,
    /// Largest code of each length; `mincode[i] - 1` when the length is
    /// unused, so that every candidate code passes over it.
    pub maxcode: Vec<i32>,
    /// Index into `vals` of the first symbol with codes of each length.
    pub valptr: Vec<usize>,
    /// Symbol values in code order.
    pub vals: Vec<u8>,
}

/// First canonical code of length `i + 1` (Annex C, figure C.2): zero for
/// length one, and past the end of each length the code value doubles.
pub open spec fn spec_first_code(counts: Seq<u8>, i: int) -> int
    decreases i,
{
    if i <= 0 {
        0
    } else {
        (spec_first_code(counts, i - 1) + counts[i - 1]) * 2
    }
}

/// Number of codes shorter than length `i + 1`.
pub open spec fn spec_code_count(counts: Seq<u8>, i: int) -> int
    decreases i,
{
    if i <= 0 {
        0
    } else {
        spec_code_count(counts, i - 1) + counts[i - 1]
    }
}

impl HuffTable {
    /// Shape of a decode-ready table: the three arrays describe the
    /// canonical code of some sequence of counts, and `vals` holds exactly
    /// one symbol per code.
    pub open spec fn wf(self) -> bool {
        &&& self.mincode@.len() == 16
        &&& self.maxcode@.len() == 16
        &&& self.valptr@.len() == 16
        &&& self.mincode@[0] == 0
        &&& self.valptr@[0] == 0
        &&& forall|i: int|
            0 <= i < 16 ==> #[trigger] self.maxcode@[i] + 1 >= self.mincode@[i]
                && self.maxcode@[i] + 1 - self.mincode@[i] <= 255
        &&& forall|i: int|
            0 <= i < 16 ==> #[trigger] self.mincode@[i] < 0x1000000 && self.maxcode@[i]
                < 0x1000000
        &&& forall|i: int|
            0 <= i < 15 ==> #[trigger] self.mincode@[i + 1] == (self.maxcode@[i] + 1) * 2
        &&& forall|i: int|
            0 <= i < 15 ==> #[trigger] self.valptr@[i + 1] == self.valptr@[i] + (
            self.maxcode@[i] + 1 - self.mincode@[i])
        &&& self.vals@.len() == self.valptr@[15] + (self.maxcode@[15] + 1 - self.mincode@[15])
    }
}

/// The first canonical code of each length is small: sixteen lengths of
/// at most 255 codes each never push a code value past 24 bits.
pub proof fn lemma_first_code_bound(counts: Seq<u8>, i: int)
    requires
        0 <= i,
    ensures
        0 <= spec_first_code(counts, i) <= 255 * (pow2((i + 1) as nat) - 2),
    decreases i,
{
    lemma_pow2_unfold((i + 1) as nat);
    if i == 0 {
        lemma2_to64();
    } else {
        lemma_first_code_bound(counts, i - 1);
    }
}

/// In a well-formed table the symbols of each length sit inside `vals`.
pub proof fn lemma_valptr_in_bounds(t: HuffTable, l: int)
    requires
        t.wf(),
        0 <= l < 16,
    ensures
        t.valptr@[l] + (t.maxcode@[l] + 1 - t.mincode@[l]) <= t.vals@.len(),
        t.valptr@[l] >= 0,
    decreases 15 - l,
{
    if l == 15 {
    } else {
        lemma_valptr_in_bounds(t, l + 1);
        assert(t.valptr@[l + 1] == t.valptr@[l] + (t.maxcode@[l] + 1 - t.mincode@[l]));
        assert(t.maxcode@[l + 1] + 1 >= t.mincode@[l + 1]);
    }
}

/// Build the decode structure for one (counts, values) pair.
pub fn derive_tables(bits: Vec<u8>, huffval: Vec<u8>) -> (t: HuffTable)
    requires
        bits@.len() == 16,
        huffval@.len() == spec_code_count(bits@, 16),
    ensures
        t.wf(),
        t.vals@ == huffval@,
        forall|i: int|
            0 <= i < 16 ==> #[trigger] t.mincode@[i] == spec_first_code(bits@, i)
                && t.maxcode@[i] == spec_first_code(bits@, i) + bits@[i] - 1 && t.valptr@[i]
                == spec_code_count(bits@, i),
{
    let mut mincode: Vec<u32> = Vec::new();
    let mut maxcode: Vec<i32> = Vec::new();
    let mut valptr: Vec<usize> = Vec::new();
    let mut fc: u32 = 0;
    let mut vp: usize = 0;
    let mut i: usize = 0;
    proof {
        lemma2_to64();
    }
    while i < 16
        invariant
            i <= 16,
            bits@.len() == 16,
            mincode@.len() == i,
            maxcode@.len() == i,
            valptr@.len() == i,
            fc == spec_first_code(bits@, i as int),
            vp == spec_code_count(bits@, i as int),
            fc <= 255 * (pow2((i + 1) as nat) - 2),
            vp <= 255 * i,
            forall|j: int| 0 <= j < i ==> #[trigger] mincode@[j] == spec_first_code(bits@, j),
            forall|j: int|
                0 <= j < i ==> #[trigger] maxcode@[j] == spec_first_code(bits@, j) + bits@[j]
                    - 1,
            forall|j: int| 0 <= j < i ==> #[trigger] valptr@[j] == spec_code_count(bits@, j),
        decreases 16 - i,
    {
        proof {
            lemma2_to64();
            if i + 1 < 16 {
                vstd::arithmetic::power2::lemma_pow2_strictly_increases((i + 1) as nat, 16nat);
            }
            lemma_pow2_unfold((i + 2) as nat);
        }
        let cnt: u8 = bits[i];
        mincode.push(fc);
        maxcode.push(fc as i32 + cnt as i32 - 1);
        valptr.push(vp);
        vp = vp + cnt as usize;
        fc = (fc + cnt as u32) * 2;
        i = i + 1;
    }
    proof {
        assert forall|j: int| 0 <= j < 15 implies #[trigger] mincode@[j + 1] == (maxcode@[j]
            + 1) * 2 by {
            assert(mincode@[j + 1] == spec_first_code(bits@, j + 1));
            assert(maxcode@[j] == spec_first_code(bits@, j) + bits@[j] - 1);
        };
        assert forall|j: int| 0 <= j < 15 implies #[trigger] valptr@[j + 1] == valptr@[j] + (
        maxcode@[j] + 1 - mincode@[j]) by {
            assert(valptr@[j + 1] == spec_code_count(bits@, j + 1));
            assert(valptr@[j] == spec_code_count(bits@, j));
            assert(maxcode@[j] == spec_first_code(bits@, j) + bits@[j] - 1);
            assert(mincode@[j] == spec_first_code(bits@, j));
        };
        assert(huffval@.len() == spec_code_count(bits@, 16));
        assert(valptr@[15] == spec_code_count(bits@, 15));
        assert(maxcode@[15] + 1 - mincode@[15] == bits@[15]);
        assert forall|j: int| 0 <= j < 16 implies #[trigger] mincode@[j] < 0x1000000
            && maxcode@[j] < 0x1000000 by {
            lemma_first_code_bound(bits@, j);
            lemma2_to64();
            if j + 1 < 16 {
                vstd::arithmetic::power2::lemma_pow2_strictly_increases((j + 1) as nat, 16nat);
            }
        };
    }
    HuffTable { mincode, maxcode, valptr, vals: huffval }
}

/// A table none of whose code lengths is used: decoding against it never
/// matches and fails after sixteen bits.
pub fn empty_table() -> (t: HuffTable)
    ensures
        t.wf(),
        t.vals@.len() == 0,
{
    let mut bits: Vec<u8> = Vec::new();
    let mut i: usize = 0;
    while i < 16
        invariant
            i <= 16,
            bits@.len() == i,
            forall|j: int| 0 <= j < i ==> #[trigger] bits@[j] == 0,
        decreases 16 - i,
    {
        bits.push(0u8);
        i = i + 1;
    }
    proof {
        lemma_zero_counts_total(bits@, 16);
    }
    derive_tables(bits, Vec::new())
}

/// All-zero counts have no codes at all.
proof fn lemma_zero_counts_total(counts: Seq<u8>, i: int)
    requires
        0 <= i <= counts.len(),
        forall|j: int| 0 <= j < counts.len() ==> #[trigger] counts[j] == 0,
    ensures
        spec_code_count(counts, i) == 0,
    decreases i,
{
    if i > 0 {
        lemma_zero_counts_total(counts, i - 1);
    }
}

/// Decoding one symbol, having already consumed `l` bits whose value is
/// `code`: pull one more bit; if the extended code is within the codes of
/// its length, the matching symbol is found, otherwise try the next
/// length, up to sixteen bits.
pub open spec fn spec_decode_from(v: SrcView, t: HuffTable, l: int, code: int) -> Result<
    (u8, SrcView),
    DecodeError,
>
    decreases 16 - l,
{
    if l >= 16 {
        Err(DecodeError::HuffmanCodeTooLong)
    } else {
        match spec_receive(v, 1) {
            Err(e) => Err(e),
            Ok((bit, v1)) => {
                let c2 = code * 2 + bit;
                if c2 <= t.maxcode@[l] {
                    Ok((t.vals@[t.valptr@[l] + (c2 - t.mincode@[l])], v1))
                } else {
                    spec_decode_from(v1, t, l + 1, c2)
                }
            },
        }
    }
}

/// Decoding the next symbol of the scan data against table `t`.
pub open spec fn spec_decode_symbol(v: SrcView, t: HuffTable) -> Result<
    (u8, SrcView),
    DecodeError,
> {
    spec_decode_from(v, t, 0, 0)
}

/// Decode the next Huffman-coded symbol from the scan data.
pub fn decode_symbol(s: &mut ByteStream, b: &mut BitState, t: &HuffTable) -> (r: Result<
    u8,
    DecodeError,
>)
    requires
        old(s).wf(),
        old(b).wf(),
        t.wf(),
    ensures
        final(s).wf(),
        final(b).wf(),
        final(s).data@ == old(s).data@,
        (match spec_decode_symbol(src_view(*old(s), *old(b)), *t) {
            Ok(v) => r == Ok::<u8, DecodeError>(v.0) && src_view(*final(s), *final(b)) == v.1,
            Err(e) => r == Err::<u8, DecodeError>(e),
        }),
{
    let mut code: u32 = 0;
    let mut l: usize = 0;
    proof {
        lemma2_to64();
    }
    while l < 16
        invariant
            l <= 16,
            s.wf(),
            b.wf(),
            t.wf(),
            s.data@ == old(s).data@,
            code < pow2(l as nat),
            l == 0 ==> code == 0,
            l > 0 ==> code as int > t.maxcode@[l - 1],
            spec_decode_from(src_view(*s, *b), *t, l as int, code as int) == spec_decode_symbol(
                src_view(*old(s), *old(b)),
                *t,
            ),
        decreases 16 - l,
    {
        proof {
            lemma2_to64();
            vstd::arithmetic::power2::lemma_pow2_strictly_increases(l as nat, 16nat);
            lemma_pow2_unfold((l + 1) as nat);
        }
        let bit: u32 = match receive(s, b, 1) {
            Ok(x) => x,
            Err(e) => {
                return Err(e);
            },
        };
        let c2: u32 = code * 2 + bit;
        proof {
            if l == 0 {
                assert(c2 as int >= t.mincode@[0]);
            } else {
                assert(c2 as int >= (t.maxcode@[l - 1] + 1) * 2);
                assert(t.mincode@[(l - 1) + 1] == (t.maxcode@[l - 1] + 1) * 2);
            }
            assert(c2 as int >= t.mincode@[l as int]);
        }
        if (c2 as i32) <= t.maxcode[l] {
            proof {
                lemma_valptr_in_bounds(*t, l as int);
                assert(c2 as int <= t.maxcode@[l as int]);
                assert(t.valptr@[l as int] + (c2 - t.mincode@[l as int]) < t.vals@.len());
            }
            let nv: usize = t.vals.len();
            let mc: u32 = t.mincode[l];
            let idx: usize = t.valptr[l] + (c2 - mc) as usize;
            assert(idx < nv);
            return Ok(t.vals[idx]);
        }
        code = c2;
        l = l + 1;
    }
    Err(DecodeError::HuffmanCodeTooLong)
}

} // verus!
