//! Byte cursor and bit-level entropy source.
//!
//! The entropy source pulls bits from the scan bytes, removing stuffed
//! `0xFF 0x00` pairs.  A `0xFF` followed by any non-zero byte is a marker:
//! it is captured (not consumed as data) and the source stops supplying
//! data bits; further requests are padded with zero bits, matching the
//! accumulator contents of the reference scheme.

use vstd::prelude::*;
use vstd::arithmetic::power2::pow2;
use vstd::arithmetic::power2::lemma_pow2_adds;
use vstd::arithmetic::power2::lemma2_to64;
use crate::errors::DecodeError;

verus! {

/// Mathematical state of the byte cursor and bit accumulator together.
pub ghost struct SrcView {
    /// The whole input.
    pub bytes: Seq<u8>,
    /// Cursor into `bytes`.
    pub pos: int,
    /// Pending bits, most significant first: the accumulator value.
    pub acc: nat,
    /// How many bits `acc` holds.
    pub nbits: nat,
    /// No more data bits: a marker was met in the scan data.
    pub end: bool,
    /// The marker byte met in the scan data, if any.
    pub marker: Option<u8>,
}

/// A cursor over the input bytes.
pub struct ByteStream {
    pub data: Vec<u8>,
    pub pos: usize,
}

/// The bit accumulator of the entropy source.
pub struct BitState {
    /// Pending bits, most significant first.
    pub acc: u64,
    /// How many bits `acc` holds.
    pub nbits: u8,
    /// No more data bits: a marker was met in the scan data.
    pub end: bool,
    /// The marker byte met in the scan data, if any.
    pub marker: Option<u8>,
}

impl ByteStream {
    pub open spec fn wf(self) -> bool {
        self.pos <= self.data@.len()
    }
}

impl BitState {
    pub open spec fn wf(self) -> bool {
        &&& self.nbits <= 23
        &&& (self.acc as nat) < pow2(self.nbits as nat)
    }
}

/// The combined mathematical state of a cursor and an accumulator.
pub open spec fn src_view(s: ByteStream, b: BitState) -> SrcView {
    SrcView {
        bytes: s.data@,
        pos: s.pos as int,
        acc: b.acc as nat,
        nbits: b.nbits as nat,
        end: b.end,
        marker: b.marker,
    }
}

/// One byte read at `pos`, or `Truncated` past the end.
pub open spec fn spec_read_u8(bytes: Seq<u8>, pos: int) -> Result<(u8, int), DecodeError> {
    if 0 <= pos < bytes.len() {
        Ok((bytes[pos], pos + 1))
    } else {
        Err(DecodeError::Truncated)
    }
}

/// A big-endian 16-bit value read at `pos`.
pub open spec fn spec_read_u16(bytes: Seq<u8>, pos: int) -> Result<(u16, int), DecodeError> {
    match spec_read_u8(bytes, pos) {
        Err(e) => Err(e),
        Ok((hi, p1)) => match spec_read_u8(bytes, p1) {
            Err(e) => Err(e),
            Ok((lo, p2)) => Ok((((hi as int) * 256 + (lo as int)) as u16, p2)),
        },
    }
}

/// `n` bytes skipped, or `Truncated` if fewer remain.
pub open spec fn spec_skip(bytes: Seq<u8>, pos: int, n: int) -> Result<int, DecodeError> {
    if pos + n <= bytes.len() {
        Ok(pos + n)
    } else {
        Err(DecodeError::Truncated)
    }
}

impl ByteStream {
    /// Read the byte under the cursor and advance.
    pub fn read_u8(&mut self) -> (r: Result<u8, DecodeError>)
        requires
            old(self).wf(),
        ensures
            final(self).wf(),
            final(self).data@ == old(self).data@,
            (match spec_read_u8(old(self).data@, old(self).pos as int) {
                Ok(v) => r == Ok::<u8, DecodeError>(v.0) && final(self).pos == v.1,
                Err(e) => r == Err::<u8, DecodeError>(e) && final(self).pos == old(self).pos,
            }),
    {
        if self.pos < self.data.len() {
            let b: u8 = self.data[self.pos];
            self.pos = self.pos + 1;
            Ok(b)
        } else {
            Err(DecodeError::Truncated)
        }
    }

    /// Read a big-endian 16-bit value and advance.
    pub fn read_u16_be(&mut self) -> (r: Result<u16, DecodeError>)
        requires
            old(self).wf(),
        ensures
            final(self).wf(),
            final(self).data@ == old(self).data@,
            (match spec_read_u16(old(self).data@, old(self).pos as int) {
                Ok(v) => r == Ok::<u16, DecodeError>(v.0) && final(self).pos == v.1,
                Err(e) => r == Err::<u16, DecodeError>(e),
            }),
    {
        let hi: u8 = match self.read_u8() {
            Ok(b) => b,
            Err(e) => {
                return Err(e);
            },
        };
        let lo: u8 = match self.read_u8() {
            Ok(b) => b,
            Err(e) => {
                return Err(e);
            },
        };
        Ok((hi as u16) * 256 + (lo as u16))
    }

    /// Advance the cursor by `n` bytes without looking at them.
    pub fn skip_bytes(&mut self, n: usize) -> (r: Result<(), DecodeError>)
        requires
            old(self).wf(),
        ensures
            final(self).wf(),
            final(self).data@ == old(self).data@,
            (match spec_skip(old(self).data@, old(self).pos as int, n as int) {
                Ok(p) => r == Ok::<(), DecodeError>(()) && final(self).pos == p,
                Err(e) => r == Err::<(), DecodeError>(e) && final(self).pos == old(self).pos,
            }),
    {
        if n <= self.data.len() - self.pos {
            self.pos = self.pos + n;
            Ok(())
        } else {
            Err(DecodeError::Truncated)
        }
    }
}

/// Refill of the accumulator until it holds `n` bits or the data bits end:
/// plain bytes enter the accumulator; a `0xFF 0x00` pair enters as a single
/// `0xFF`; a `0xFF` followed by any other byte is a marker, captured without
/// being consumed as data.
pub open spec fn spec_fill(v: SrcView, n: nat) -> Result<SrcView, DecodeError>
    decreases v.bytes.len() - v.pos,
{
    if v.nbits >= n || v.end {
        Ok(v)
    } else if !(0 <= v.pos < v.bytes.len()) {
        Err(DecodeError::Truncated)
    } else {
        let byte = v.bytes[v.pos];
        if byte != 0xFF {
            spec_fill(
                SrcView {
                    pos: v.pos + 1,
                    acc: (v.acc * 256 + byte) as nat,
                    nbits: v.nbits + 8,
                    ..v
                },
                n,
            )
        } else if !(v.pos + 1 < v.bytes.len()) {
            Err(DecodeError::Truncated)
        } else {
            let b2 = v.bytes[v.pos + 1];
            if b2 == 0 {
                spec_fill(
                    SrcView {
                        pos: v.pos + 2,
                        acc: v.acc * 256 + 0xFF,
                        nbits: v.nbits + 8,
                        ..v
                    },
                    n,
                )
            } else {
                Ok(SrcView { pos: v.pos + 2, end: true, marker: Some(b2), ..v })
            }
        }
    }
}

/// The next `n` bits as an unsigned value.  If the data bits end early,
/// the missing low bits are zeros, as the reference accumulator supplies.
pub open spec fn spec_receive(v: SrcView, n: nat) -> Result<(u32, SrcView), DecodeError> {
    match spec_fill(v, n) {
        Err(e) => Err(e),
        Ok(v1) => if v1.nbits >= n {
            Ok(
                (
                    (v1.acc / pow2((v1.nbits - n) as nat)) as u32,
                    SrcView {
                        acc: v1.acc % pow2((v1.nbits - n) as nat),
                        nbits: (v1.nbits - n) as nat,
                        ..v1
                    },
                ),
            )
        } else {
            Ok(((v1.acc * pow2((n - v1.nbits) as nat)) as u32, SrcView { acc: 0, nbits: 0, ..v1 }))
        },
    }
}

/// Refill the accumulator so that it holds at least `n` bits, unless the
/// data bits end first.
pub fn fill_bits(s: &mut ByteStream, b: &mut BitState, n: u8) -> (r: Result<(), DecodeError>)
    requires
        old(s).wf(),
        old(b).wf(),
        n <= 16,
    ensures
        final(s).wf(),
        final(b).wf(),
        final(s).data@ == old(s).data@,
        (match spec_fill(src_view(*old(s), *old(b)), n as nat) {
            Ok(v) => r == Ok::<(), DecodeError>(()) && src_view(*final(s), *final(b)) == v,
            Err(e) => r == Err::<(), DecodeError>(e),
        }),
{
    while b.nbits < n && !b.end
        invariant
            s.wf(),
            b.wf(),
            n <= 16,
            s.data@ == old(s).data@,
            spec_fill(src_view(*s, *b), n as nat) == spec_fill(
                src_view(*old(s), *old(b)),
                n as nat,
            ),
        decreases s.data@.len() - s.pos,
    {
        let ghost v0 = src_view(*s, *b);
        if s.pos >= s.data.len() {
            return Err(DecodeError::Truncated);
        }
        let byte: u8 = self_read(s);
        proof {
            lemma_pow2_adds(b.nbits as nat, 8);
            lemma2_to64();
        }
        if byte != 0xFF {
            b.acc = b.acc * 256 + byte as u64;
            b.nbits = b.nbits + 8;
        } else {
            if s.pos >= s.data.len() {
                return Err(DecodeError::Truncated);
            }
            let b2: u8 = self_read(s);
            if b2 == 0 {
                b.acc = b.acc * 256 + 0xFF;
                b.nbits = b.nbits + 8;
            } else {
                b.end = true;
                b.marker = Some(b2);
            }
        }
        proof {
            assert(spec_fill(src_view(*s, *b), n as nat) == spec_fill(v0, n as nat));
        }
    }
    Ok(())
}

/// Read the byte under the cursor; the caller has checked it exists.
fn self_read(s: &mut ByteStream) -> (r: u8)
    requires
        old(s).wf(),
        old(s).pos < old(s).data@.len(),
    ensures
        final(s).wf(),
        final(s).data@ == old(s).data@,
        final(s).pos == old(s).pos + 1,
        r == old(s).data@[old(s).pos as int],
{
    let len: usize = s.data.len();
    assert(s.pos < len);
    let b: u8 = s.data[s.pos];
    s.pos = s.pos + 1;
    b
}

/// Return the next `n` bits of the scan data as an unsigned value
/// (0 <= n <= 16), refilling the accumulator as needed.
pub fn receive(s: &mut ByteStream, b: &mut BitState, n: u8) -> (r: Result<u32, DecodeError>)
    requires
        old(s).wf(),
        old(b).wf(),
        n <= 16,
    ensures
        final(s).wf(),
        final(b).wf(),
        final(s).data@ == old(s).data@,
        (match spec_receive(src_view(*old(s), *old(b)), n as nat) {
            Ok(v) => r == Ok::<u32, DecodeError>(v.0) && src_view(*final(s), *final(b)) == v.1
                && v.0 < pow2(n as nat),
            Err(e) => r == Err::<u32, DecodeError>(e),
        }),
{
    match fill_bits(s, b, n) {
        Ok(()) => {},
        Err(e) => {
            return Err(e);
        },
    }
    proof {
        lemma2_to64();
    }
    if b.nbits >= n {
        let rem: u8 = b.nbits - n;
        let p: u64 = crate::util::two_pow32(rem);
        proof {
            lemma_pow2_adds(rem as nat, n as nat);
            vstd::arithmetic::div_mod::lemma_multiply_divide_lt(
                b.acc as int,
                p as int,
                pow2(n as nat) as int,
            );
            vstd::arithmetic::div_mod::lemma_mod_bound(b.acc as int, p as int);
        }
        let r: u32 = (b.acc / p) as u32;
        b.acc = b.acc % p;
        b.nbits = rem;
        Ok(r)
    } else {
        let pad: u8 = n - b.nbits;
        let p: u64 = crate::util::two_pow32(pad);
        proof {
            lemma_pow2_adds(b.nbits as nat, pad as nat);
            vstd::arithmetic::power2::lemma_pow2_pos(pad as nat);
            assert(pow2(n as nat) <= 65536) by {
                if (n as nat) < 16 {
                    vstd::arithmetic::power2::lemma_pow2_strictly_increases(n as nat, 16);
                }
                lemma2_to64();
            };
            assert((b.acc as nat) * pow2(pad as nat) < pow2(b.nbits as nat) * pow2(
                pad as nat,
            )) by (nonlinear_arith)
                requires
                    (b.acc as nat) < pow2(b.nbits as nat),
                    pow2(pad as nat) > 0,
            ;
        }
        let r: u32 = (b.acc * p) as u32;
        b.acc = 0;
        b.nbits = 0;
        Ok(r)
    }
}

} // verus!
