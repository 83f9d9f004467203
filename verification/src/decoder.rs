//! The baseline JPEG decoder: marker-driven segment parser, entropy-coded
//! block decoding, MCU assembly with restart handling, and the scanline
//! interface.
//!
//! The decoder owns the whole input as bytes and advances a cursor over
//! it.  Its state machine moves monotonically from `Start` through
//! `HaveSOI` and `HaveFirstFrame` to `HaveFirstScan`; entropy decoding
//! happens only in `HaveFirstScan`.  Every parsing step is mirrored by a
//! specification function over `MetaView`, the mathematical image of the
//! decoder's header state, so each result is pinned as a function of the
//! input bytes alone.

use vstd::prelude::*;
use crate::bitsrc::BitState;
use crate::bitsrc::ByteStream;
use crate::bitsrc::spec_read_u8;
use crate::bitsrc::spec_read_u16;
use crate::bitsrc::spec_skip;
use crate::errors::DecodeError;
use crate::huffman::HuffTable;
use crate::huffman::spec_code_count;
use crate::huffman::derive_tables;
use crate::huffman::empty_table;
use crate::huffman::spec_decode_symbol;
use crate::huffman::decode_symbol;
use crate::bitsrc::SrcView;
use crate::bitsrc::src_view;
use crate::bitsrc::spec_receive;
use crate::bitsrc::receive;
use crate::util::spec_extend;
use crate::util::spec_wrap_i16;
use crate::util::extend;
use crate::util::wrap_i16;
use crate::zigzag::spec_unzigzag;
use crate::zigzag::unzigzag;
use crate::transform::spec_idct;

verus! {

/// The sample layout of the decoded image.
#[derive(Clone, Copy, Debug, PartialEq, Eq, Structural)]
pub enum ColorType {
    /// One 8-bit luma sample per pixel.
    Gray8,
    /// Interleaved 8-bit red, green and blue samples.
    Rgb8,
}

/// Progress of the marker state machine.  It never regresses.
#[derive(Clone, Copy, Debug, PartialEq, Eq, Structural)]
pub enum JPEGState {
    Start,
    HaveSOI,
    HaveFirstFrame,
    HaveFirstScan,
    End,
}

/// One frame component with its table selectors and DC predictor.
#[derive(Clone, Copy)]
pub struct Component {
    /// The component's on-wire identifier.
    pub id: u8,
    /// Horizontal sampling factor.
    pub h: u8,
    /// Vertical sampling factor.
    pub v: u8,
    /// The quantization table selector.
    pub tq: u8,
    /// Index of the Huffman DC table.
    pub dc_table: u8,
    /// Index of the Huffman AC table.
    pub ac_table: u8,
    /// The running DC prediction of the component.
    pub dc_pred: i32,
}

/// The counts and values a Huffman table slot was built from.
pub ghost struct HuffPair {
    pub counts: Seq<u8>,
    pub vals: Seq<u8>,
}

/// The mathematical image of the decoder's header state: everything the
/// segment parser reads and writes.
#[verifier::ext_equal]
pub ghost struct MetaView {
    pub bytes: Seq<u8>,
    pub pos: int,
    pub qtables: Seq<u8>,
    pub dctabs: Seq<HuffPair>,
    pub actabs: Seq<HuffPair>,
    pub height: u16,
    pub width: u16,
    pub num_components: u8,
    pub components: Seq<Component>,
    pub scan_components: Seq<u8>,
    pub hmax: u8,
    pub vmax: u8,
    pub interval: u16,
    pub padded_width: int,
    pub mcu: Seq<u8>,
    pub mcu_row: Seq<u8>,
    pub state: JPEGState,
}

/// The baseline JPEG decoder over an in-memory byte stream.
pub struct JPEGDecoder {
    /// The input bytes and the parser's cursor.
    pub stream: ByteStream,
    /// The entropy source's bit accumulator.
    pub bits: BitState,
    /// Four quantization table slots of 64 bytes each, in zig-zag order.
    pub qtables: Vec<u8>,
    /// The two DC Huffman table slots.
    pub dctables: Vec<HuffTable>,
    /// The two AC Huffman table slots.
    pub actables: Vec<HuffTable>,
    /// Image height in pixels.
    pub height: u16,
    /// Image width in pixels.
    pub width: u16,
    /// 1 (grayscale) or 3 (YCbCr).
    pub num_components: u8,
    /// The frame components, densely indexed in frame order.
    pub components: Vec<Component>,
    /// Dense component indices in scan order.
    pub scan_components: Vec<u8>,
    /// One MCU row of upsampled output samples.
    pub mcu_row: Vec<u8>,
    /// The decoded samples of the current MCU, one block after another.
    pub mcu: Vec<u8>,
    /// Largest horizontal sampling factor of the frame.
    pub hmax: u8,
    /// Largest vertical sampling factor of the frame.
    pub vmax: u8,
    /// MCUs between restart markers; 0 disables restarts.
    pub interval: u16,
    /// MCUs decoded so far.
    pub mcucount: u64,
    /// The next expected restart marker, cyclic over 0xD0..=0xD7.
    pub expected_rst: u8,
    /// Row within the buffered MCU row that the next scanline returns.
    pub row_count: u8,
    /// Scanlines handed out so far.
    pub decoded_rows: u32,
    /// Width in pixels rounded up to a whole number of MCUs.
    pub padded_width: usize,
    /// Progress of the marker state machine.
    pub state: JPEGState,
}

/// The counts a decode-ready table was built from: one count per code
/// length, recovered from the code ranges.
pub open spec fn table_counts(t: HuffTable) -> Seq<u8> {
    Seq::new(16, |i: int| (t.maxcode@[i] + 1 - t.mincode@[i]) as u8)
}

/// The (counts, values) pair a table slot stands for.
pub open spec fn table_pair(t: HuffTable) -> HuffPair {
    HuffPair { counts: table_counts(t), vals: t.vals@ }
}

/// Width in pixels rounded up to a whole number of MCUs of `8 * hmax`
/// luma columns.
pub open spec fn spec_padded(width: u16, hmax: u8) -> int {
    8 * (hmax as int) * ((width + 8 * (hmax as int) - 1) / (8 * (hmax as int)))
}

/// Blocks per MCU: every component contributes `h * v` blocks.
pub open spec fn sum_blocks(cs: Seq<Component>) -> int
    decreases cs.len(),
{
    if cs.len() == 0 {
        0
    } else {
        sum_blocks(cs.drop_last()) + cs.last().h * cs.last().v
    }
}

/// Largest horizontal sampling factor among the components.
pub open spec fn fold_hmax(cs: Seq<Component>) -> int
    decreases cs.len(),
{
    if cs.len() == 0 {
        0
    } else if cs.last().h as int > fold_hmax(cs.drop_last()) {
        cs.last().h as int
    } else {
        fold_hmax(cs.drop_last())
    }
}

/// Largest vertical sampling factor among the components.
pub open spec fn fold_vmax(cs: Seq<Component>) -> int
    decreases cs.len(),
{
    if cs.len() == 0 {
        0
    } else if cs.last().v as int > fold_vmax(cs.drop_last()) {
        cs.last().v as int
    } else {
        fold_vmax(cs.drop_last())
    }
}

/// Index of the first component with on-wire id `id` at or after
/// position `i`, or -1.
pub open spec fn find_comp_from(cs: Seq<Component>, id: u8, i: int) -> int
    decreases cs.len() - i,
{
    if i < 0 || i >= cs.len() {
        -1
    } else if cs[i].id == id {
        i
    } else {
        find_comp_from(cs, id, i + 1)
    }
}

/// Index of the first component with on-wire id `id`, or -1.
pub open spec fn find_comp(cs: Seq<Component>, id: u8) -> int {
    find_comp_from(cs, id, 0)
}

/// Sound ranges for one component's factors and selectors.
pub open spec fn comp_ok(c: Component) -> bool {
    &&& 1 <= c.h <= 4
    &&& 1 <= c.v <= 4
    &&& c.tq <= 3
    &&& c.dc_table <= 1
    &&& c.ac_table <= 1
    &&& -32768 <= c.dc_pred <= 32767
}

impl JPEGDecoder {
    /// The mathematical image of the decoder during scan decoding.
    pub open spec fn scan_view(self) -> ScanView {
        ScanView {
            bytes: self.stream.data@,
            pos: self.stream.pos as int,
            acc: self.bits.acc as nat,
            nbits: self.bits.nbits as nat,
            end: self.bits.end,
            marker: self.bits.marker,
            components: self.components@,
            mcu: self.mcu@,
            mcu_row: self.mcu_row@,
            mcucount: self.mcucount,
            expected_rst: self.expected_rst,
            row_count: self.row_count,
            decoded_rows: self.decoded_rows,
            qtables: self.qtables@,
            dctables: Seq::new(2, |i: int| self.dctables@[i]),
            actables: Seq::new(2, |i: int| self.actables@[i]),
            scan_components: self.scan_components@,
            num_components: self.num_components,
            width: self.width,
            height: self.height,
            hmax: self.hmax,
            vmax: self.vmax,
            interval: self.interval,
            padded_width: self.padded_width as int,
        }
    }

    /// The mathematical image of the header state.
    pub open spec fn meta_view(self) -> MetaView {
        MetaView {
            bytes: self.stream.data@,
            pos: self.stream.pos as int,
            qtables: self.qtables@,
            dctabs: Seq::new(2, |i: int| table_pair(self.dctables@[i])),
            actabs: Seq::new(2, |i: int| table_pair(self.actables@[i])),
            height: self.height,
            width: self.width,
            num_components: self.num_components,
            components: self.components@,
            scan_components: self.scan_components@,
            hmax: self.hmax,
            vmax: self.vmax,
            interval: self.interval,
            padded_width: self.padded_width as int,
            mcu: self.mcu@,
            mcu_row: self.mcu_row@,
            state: self.state,
        }
    }

    /// Fields the segment parser never touches.
    pub open spec fn scan_state_eq(self, other: JPEGDecoder) -> bool {
        &&& self.bits == other.bits
        &&& self.mcucount == other.mcucount
        &&& self.expected_rst == other.expected_rst
        &&& self.row_count == other.row_count
        &&& self.decoded_rows == other.decoded_rows
    }

    /// Geometry established by the frame header and kept for the image's
    /// lifetime.
    pub open spec fn frame_wf(self) -> bool {
        &&& (self.num_components == 1 || self.num_components == 3)
        &&& self.components@.len() == self.num_components
        &&& 1 <= self.hmax <= 4
        &&& 1 <= self.vmax <= 4
        &&& forall|i: int|
            0 <= i < self.components@.len() ==> (#[trigger] self.components@[i]).h <= self.hmax
                && self.components@[i].v <= self.vmax
        &&& self.width >= 1
        &&& self.height >= 1
        &&& self.padded_width == spec_padded(self.width, self.hmax)
        &&& self.mcu@.len() == 64 * sum_blocks(self.components@)
        &&& self.mcu_row@.len() == self.padded_width * (self.num_components as int) * 8 * (
        self.vmax as int)
        &&& (self.num_components == 1 ==> self.hmax == 1 && self.vmax == 1 && (forall|i: int|
            0 <= i < self.components@.len() ==> (#[trigger] self.components@[i]).h == 1
                && self.components@[i].v == 1))
        &&& (self.num_components == 3 ==> self.components@[1].h == 1 && self.components@[1].v
            == 1 && self.components@[2].h == 1 && self.components@[2].v == 1 && self.hmax
            == self.components@[0].h && self.vmax == self.components@[0].v)
    }

    /// What the scan header adds: the scan names an ordered subset of the
    /// frame's components, and the restart bookkeeping is in range.
    pub open spec fn scan_wf(self) -> bool {
        &&& self.scan_components@.len() <= self.num_components
        &&& forall|j: int|
            0 <= j < self.scan_components@.len() ==> #[trigger] self.scan_components@[j]
                < self.num_components
        &&& forall|j: int|
            0 <= j < self.scan_components@.len() - 1 ==> #[trigger] self.scan_components@[j]
                < self.scan_components@[j + 1]
        &&& 0xD0 <= self.expected_rst <= 0xD7
        &&& self.row_count < 8 * self.vmax
    }

    /// The decoder's global invariant.
    pub open spec fn wf(self) -> bool {
        &&& self.stream.wf()
        &&& self.bits.wf()
        &&& self.qtables@.len() == 256
        &&& self.dctables@.len() == 2
        &&& self.actables@.len() == 2
        &&& self.dctables@[0].wf()
        &&& self.dctables@[1].wf()
        &&& self.actables@[0].wf()
        &&& self.actables@[1].wf()
        &&& self.components@.len() <= 3
        &&& forall|i: int| 0 <= i < self.components@.len() ==> comp_ok(#[trigger] self.components@[i])
        &&& (self.num_components != 0 ==> self.frame_wf())
        &&& (self.state == JPEGState::HaveFirstScan ==> self.scan_wf() && self.num_components
            != 0)
        &&& (self.state != JPEGState::HaveFirstScan ==> self.row_count == 0 && 0xD0
            <= self.expected_rst <= 0xD7)
    }

    /// Create a decoder over the JPEG file bytes `data`.  Nothing is
    /// parsed until the first query.
    pub fn new(data: Vec<u8>) -> (r: JPEGDecoder)
        ensures
            r.wf(),
            r.stream.data@ == data@,
            r.stream.pos == 0,
            r.bits == (BitState { acc: 0u64, nbits: 0u8, end: false, marker: Option::<u8>::None }),
            r.qtables@ == Seq::new(256, |i: int| 0u8),
            r.dctables@[0].vals@.len() == 0,
            r.dctables@[1].vals@.len() == 0,
            r.actables@[0].vals@.len() == 0,
            r.actables@[1].vals@.len() == 0,
            r.height == 0 && r.width == 0 && r.num_components == 0,
            r.components@.len() == 0 && r.scan_components@.len() == 0,
            r.mcu@.len() == 0 && r.mcu_row@.len() == 0,
            r.hmax == 0 && r.vmax == 0,
            r.interval == 0 && r.mcucount == 0 && r.expected_rst == 0xD0,
            r.row_count == 0 && r.decoded_rows == 0 && r.padded_width == 0,
            r.state == JPEGState::Start,
    {
        proof {
            vstd::arithmetic::power2::lemma2_to64();
        }
        let mut qtables: Vec<u8> = Vec::new();
        let mut i: usize = 0;
        while i < 256
            invariant
                i <= 256,
                qtables@.len() == i,
                forall|j: int| 0 <= j < i ==> #[trigger] qtables@[j] == 0u8,
            decreases 256 - i,
        {
            qtables.push(0u8);
            i = i + 1;
        }
        proof {
            assert(qtables@ =~= Seq::new(256, |j: int| 0u8));
        }
        let mut dctables: Vec<HuffTable> = Vec::new();
        dctables.push(empty_table());
        dctables.push(empty_table());
        let mut actables: Vec<HuffTable> = Vec::new();
        actables.push(empty_table());
        actables.push(empty_table());
        JPEGDecoder {
            stream: ByteStream { data, pos: 0 },
            bits: BitState { acc: 0, nbits: 0, end: false, marker: None },
            qtables,
            dctables,
            actables,
            height: 0,
            width: 0,
            num_components: 0,
            components: Vec::new(),
            scan_components: Vec::new(),
            mcu_row: Vec::new(),
            mcu: Vec::new(),
            hmax: 0,
            vmax: 0,
            interval: 0,
            mcucount: 0,
            expected_rst: 0xD0,
            row_count: 0,
            decoded_rows: 0,
            padded_width: 0,
            state: JPEGState::Start,
        }
    }

    /// Clear the entropy bit state and every component's DC predictor:
    /// the effect of a verified restart marker.
    pub fn reset(&mut self)
        requires
            old(self).wf(),
        ensures
            final(self).wf(),
            final(self).bits == (BitState {
                acc: 0u64,
                nbits: 0u8,
                end: false,
                marker: Option::<u8>::None,
            }),
            final(self).components@.len() == old(self).components@.len(),
            forall|i: int|
                0 <= i < old(self).components@.len() ==> final(self).components@[i] == (
                Component { dc_pred: 0, ..old(self).components@[i] }),
            final(self).stream == old(self).stream,
            final(self).qtables == old(self).qtables,
            final(self).dctables == old(self).dctables,
            final(self).actables == old(self).actables,
            final(self).height == old(self).height,
            final(self).width == old(self).width,
            final(self).num_components == old(self).num_components,
            final(self).scan_components == old(self).scan_components,
            final(self).mcu_row == old(self).mcu_row,
            final(self).mcu == old(self).mcu,
            final(self).hmax == old(self).hmax,
            final(self).vmax == old(self).vmax,
            final(self).interval == old(self).interval,
            final(self).mcucount == old(self).mcucount,
            final(self).expected_rst == old(self).expected_rst,
            final(self).row_count == old(self).row_count,
            final(self).decoded_rows == old(self).decoded_rows,
            final(self).padded_width == old(self).padded_width,
            final(self).state == old(self).state,
    {
        proof {
            vstd::arithmetic::power2::lemma2_to64();
        }
        self.bits.acc = 0;
        self.bits.nbits = 0;
        self.bits.end = false;
        self.bits.marker = None;
        let n: usize = self.components.len();
        let mut i: usize = 0;
        while i < n
            invariant
                i <= n,
                n == self.components@.len(),
                self.components@.len() == old(self).components@.len(),
                forall|j: int|
                    0 <= j < i ==> self.components@[j] == (Component {
                        dc_pred: 0,
                        ..old(self).components@[j]
                    }),
                forall|j: int|
                    i <= j < n ==> #[trigger] self.components@[j] == old(self).components@[j],
                self.bits == (BitState {
                    acc: 0u64,
                    nbits: 0u8,
                    end: false,
                    marker: Option::<u8>::None,
                }),
                self.stream == old(self).stream,
                self.qtables == old(self).qtables,
                self.dctables == old(self).dctables,
                self.actables == old(self).actables,
                self.height == old(self).height,
                self.width == old(self).width,
                self.num_components == old(self).num_components,
                self.scan_components == old(self).scan_components,
                self.mcu_row == old(self).mcu_row,
                self.mcu == old(self).mcu,
                self.hmax == old(self).hmax,
                self.vmax == old(self).vmax,
                self.interval == old(self).interval,
                self.mcucount == old(self).mcucount,
                self.expected_rst == old(self).expected_rst,
                self.row_count == old(self).row_count,
                self.decoded_rows == old(self).decoded_rows,
                self.padded_width == old(self).padded_width,
                self.state == old(self).state,
                old(self).wf(),
            decreases n - i,
        {
            let mut c: Component = self.components[i];
            c.dc_pred = 0;
            self.components[i] = c;
            i = i + 1;
        }
        proof {
            assert forall|i2: int|
                0 <= i2 < self.components@.len() implies (#[trigger] self.components@[i2]).h
                == old(self).components@[i2].h && self.components@[i2].v == old(self).components@[i2].v && self.components@[i2].tq == old(self).components@[i2].tq
                && self.components@[i2].dc_table == old(self).components@[i2].dc_table
                && self.components@[i2].ac_table == old(self).components@[i2].ac_table
                && self.components@[i2].dc_pred == 0 by {
                assert(self.components@[i2] == (Component {
                    dc_pred: 0,
                    ..old(self).components@[i2]
                }));
            };
            lemma_sum_blocks_same_factors(old(self).components@, self.components@);
        }
    }
}


/// A position clamped into `(lo - 1, hi]`: segment parsers advance the
/// cursor, and the clamp makes that structural for the marker loop's
/// termination measure.
pub open spec fn clamp_pos(p: int, lo: int, hi: int) -> int {
    if p < lo {
        lo
    } else if p > hi {
        hi
    } else {
        p
    }
}

/// The first table header of the DQT segment at `pos` is itself
/// malformed: 16-bit precision or a table id above 3.
pub open spec fn dqt_head_bad(bytes: Seq<u8>, pos: int) -> bool {
    match spec_read_u16(bytes, pos) {
        Ok((len, p)) => len >= 3 && (match spec_read_u8(bytes, p) {
            Ok((pqtq, _)) => pqtq / 16 != 0 || pqtq % 16 > 3,
            Err(_) => false,
        }),
        Err(_) => false,
    }
}

/// One or more quantization tables parsed from a DQT segment at `m.pos`
/// (the length field): 8-bit precision only, table ids up to 3, 64
/// zig-zag coefficients each; the byte count comes from the length field.
pub open spec fn mv_dqt(m: MetaView) -> Result<MetaView, DecodeError> {
    match spec_read_u16(m.bytes, m.pos) {
        Err(e) => Err(e),
        Ok((len, p)) => mv_dqt_loop(MetaView { pos: p, ..m }, len - 2),
    }
}

/// The remaining tables of one DQT segment, `rem` payload bytes left.
pub open spec fn mv_dqt_loop(m: MetaView, rem: int) -> Result<MetaView, DecodeError>
    decreases (if rem > 0 { rem } else { 0 }),
{
    if rem <= 0 {
        Ok(m)
    } else {
        match spec_read_u8(m.bytes, m.pos) {
            Err(e) => Err(e),
            Ok((pqtq, p1)) => {
                let pq = pqtq / 16;
                let tq = pqtq % 16;
                if pq != 0 || tq > 3 {
                    Err(DecodeError::BadQuantTable)
                } else if p1 + 64 > m.bytes.len() {
                    Err(DecodeError::Truncated)
                } else {
                    let q2 = Seq::new(
                        256,
                        |i: int|
                            if 64 * tq <= i < 64 * tq + 64 {
                                m.bytes[p1 + (i - 64 * tq)]
                            } else {
                                m.qtables[i]
                            },
                    );
                    mv_dqt_loop(
                        MetaView { pos: p1 + 64, qtables: q2, ..m },
                        if rem >= 65 {
                            rem - 65
                        } else {
                            0
                        },
                    )
                }
            },
        }
    }
}

/// A DRI segment: the length field is read and the restart interval
/// follows.
pub open spec fn mv_dri(m: MetaView) -> Result<MetaView, DecodeError> {
    match spec_read_u16(m.bytes, m.pos) {
        Err(e) => Err(e),
        Ok((_len, p)) => match spec_read_u16(m.bytes, p) {
            Err(e) => Err(e),
            Ok((iv, p2)) => Ok(MetaView { pos: p2, interval: iv, ..m }),
        },
    }
}

/// An APPn or COM segment: exactly `length - 2` payload bytes skipped.
pub open spec fn mv_skip_segment(m: MetaView) -> Result<MetaView, DecodeError> {
    match spec_read_u16(m.bytes, m.pos) {
        Err(e) => Err(e),
        Ok((len, p)) => if len < 2 {
            Err(DecodeError::BadSegmentLength)
        } else {
            match spec_skip(m.bytes, p, len - 2) {
                Err(e) => Err(e),
                Ok(p2) => Ok(MetaView { pos: p2, ..m }),
            }
        },
    }
}

impl JPEGDecoder {
    /// Parse the quantization tables of one DQT segment (the cursor
    /// stands on the length field).
    pub fn read_quantization_tables(&mut self) -> (r: Result<(), DecodeError>)
        requires
            old(self).wf(),
        ensures
            final(self).wf(),
            final(self).stream.data@ == old(self).stream.data@,
            final(self).scan_state_eq(*old(self)),
            final(self).state == old(self).state,
            r is Ok ==> final(self).stream.pos > old(self).stream.pos,
            r is Err ==> final(self).bits == old(self).bits && final(self).dctables == old(
                self,
            ).dctables && final(self).actables == old(self).actables && final(self).height
                == old(self).height && final(self).width == old(self).width
                && final(self).num_components == old(self).num_components
                && final(self).components == old(self).components
                && final(self).scan_components == old(self).scan_components
                && final(self).interval == old(self).interval && final(self).mcu == old(
                self,
            ).mcu && final(self).mcu_row == old(self).mcu_row && final(self).hmax == old(
                self,
            ).hmax && final(self).vmax == old(self).vmax && final(self).padded_width == old(
                self,
            ).padded_width,
            dqt_head_bad(old(self).stream.data@, old(self).stream.pos as int) ==> r == Err::<
                (),
                DecodeError,
            >(DecodeError::BadQuantTable) && final(self).qtables == old(self).qtables,
            (match mv_dqt(old(self).meta_view()) {
                Ok(m2) => r == Ok::<(), DecodeError>(()) && final(self).meta_view() == m2,
                Err(e) => r == Err::<(), DecodeError>(e),
            }),
    {
        let len: u16 = match self.stream.read_u16_be() {
            Ok(x) => x,
            Err(e) => {
                return Err(e);
            },
        };
        let ghost pstart = self.stream.pos as int;
        let mut rem: i32 = len as i32 - 2;
        while rem > 0
            invariant
                self.wf(),
                -65 <= rem <= 65533,
                rem as int <= len as int - 2,
                self.stream.data@ == old(self).stream.data@,
                self.scan_state_eq(*old(self)),
                self.state == old(self).state,
                self.stream.pos > old(self).stream.pos,
                self.dctables == old(self).dctables,
                self.actables == old(self).actables,
                self.height == old(self).height,
                self.width == old(self).width,
                self.num_components == old(self).num_components,
                self.components == old(self).components,
                self.scan_components == old(self).scan_components,
                self.interval == old(self).interval,
                self.mcu == old(self).mcu,
                self.mcu_row == old(self).mcu_row,
                self.hmax == old(self).hmax,
                self.vmax == old(self).vmax,
                self.padded_width == old(self).padded_width,
                spec_read_u16(old(self).stream.data@, old(self).stream.pos as int) == Ok::<
                    (u16, int),
                    DecodeError,
                >((len, pstart)),
                rem as int == len as int - 2 ==> self.qtables == old(self).qtables
                    && self.stream.pos as int == pstart,
                rem as int != len as int - 2 ==> !dqt_head_bad(
                    old(self).stream.data@,
                    old(self).stream.pos as int,
                ),
                mv_dqt_loop(self.meta_view(), rem as int) == mv_dqt(old(self).meta_view()),
            decreases rem + 65,
        {
            let ghost mv0 = self.meta_view();
            let ghost d0 = *self;
            let pqtq: u8 = match self.stream.read_u8() {
                Ok(x) => x,
                Err(e) => {
                    return Err(e);
                },
            };
            let pq: u8 = pqtq / 16;
            let tq: u8 = pqtq % 16;
            if pq != 0 || tq > 3 {
                return Err(DecodeError::BadQuantTable);
            }
            let dl: usize = self.stream.data.len();
            if dl - self.stream.pos < 64 {
                return Err(DecodeError::Truncated);
            }
            let base: usize = self.stream.pos;
            let ghost d1 = *self;
            let mut i: usize = 0;
            while i < 64
                invariant
                    i <= 64,
                    tq <= 3,
                    base + 64 <= dl,
                    dl == self.stream.data@.len(),
                    eq_but_qtables(*self, d1),
                    self.qtables@.len() == 256,
                    mv0.qtables.len() == 256,
                    mv0.qtables == d1.qtables@,
                    mv0.bytes == d1.stream.data@,
                    base == d1.stream.pos,
                    forall|j: int|
                        0 <= j < 256 && !(64 * (tq as int) <= j < 64 * (tq as int) + i)
                            ==> self.qtables@[j] == mv0.qtables[j],
                    forall|j: int|
                        64 * (tq as int) <= j < 64 * (tq as int) + i ==> self.qtables@[j]
                            == self.stream.data@[base + (j - 64 * (tq as int))],
                decreases 64 - i,
            {
                let b: u8 = self.stream.data[base + i];
                self.qtables[64 * (tq as usize) + i] = b;
                i = i + 1;
            }
            self.stream.pos = base + 64;
            let ghost remold = rem as int;
            rem = rem - 65;
            proof {
                let q2 = Seq::new(
                    256,
                    |j: int|
                        if 64 * (tq as int) <= j < 64 * (tq as int) + 64 {
                            mv0.bytes[base + (j - 64 * (tq as int))]
                        } else {
                            mv0.qtables[j]
                        },
                );
                assert(self.qtables@ =~= q2);
                let mtarget = MetaView { pos: base + 64, qtables: q2, ..mv0 };
                assert(self.meta_view().dctabs =~= mtarget.dctabs);
                assert(self.meta_view().actabs =~= mtarget.actabs);
                assert(self.meta_view() == mtarget);
                assert(mv_dqt_loop(mv0, remold) == mv_dqt_loop(
                    mtarget,
                    if remold >= 65 {
                        remold - 65
                    } else {
                        0
                    },
                ));
                if rem <= 0 {
                    assert(mv_dqt_loop(mtarget, rem as int) == Ok::<MetaView, DecodeError>(
                        mtarget,
                    ));
                    assert(mv_dqt_loop(mtarget, if remold >= 65 {
                        remold - 65
                    } else {
                        0
                    }) == Ok::<MetaView, DecodeError>(mtarget));
                }
            }
        }
        Ok(())
    }

    /// Set the restart interval from a DRI segment.
    pub fn read_restart_interval(&mut self) -> (r: Result<(), DecodeError>)
        requires
            old(self).wf(),
        ensures
            final(self).wf(),
            final(self).stream.data@ == old(self).stream.data@,
            final(self).scan_state_eq(*old(self)),
            final(self).state == old(self).state,
            r is Ok ==> final(self).stream.pos > old(self).stream.pos,
            r is Err ==> eq_except_pos(*final(self), *old(self)),
            (match mv_dri(old(self).meta_view()) {
                Ok(m2) => r == Ok::<(), DecodeError>(()) && final(self).meta_view() == m2,
                Err(e) => r == Err::<(), DecodeError>(e),
            }),
    {
        let _len: u16 = match self.stream.read_u16_be() {
            Ok(x) => x,
            Err(e) => {
                return Err(e);
            },
        };
        let iv: u16 = match self.stream.read_u16_be() {
            Ok(x) => x,
            Err(e) => {
                return Err(e);
            },
        };
        self.interval = iv;
        Ok(())
    }

    /// Skip the payload of an APPn or COM segment.
    pub fn skip_segment(&mut self) -> (r: Result<(), DecodeError>)
        requires
            old(self).wf(),
        ensures
            final(self).wf(),
            final(self).stream.data@ == old(self).stream.data@,
            final(self).scan_state_eq(*old(self)),
            final(self).state == old(self).state,
            r is Ok ==> final(self).stream.pos > old(self).stream.pos,
            r is Err ==> eq_except_pos(*final(self), *old(self)),
            (match mv_skip_segment(old(self).meta_view()) {
                Ok(m2) => r == Ok::<(), DecodeError>(()) && final(self).meta_view() == m2,
                Err(e) => r == Err::<(), DecodeError>(e),
            }),
    {
        let len: u16 = match self.stream.read_u16_be() {
            Ok(x) => x,
            Err(e) => {
                return Err(e);
            },
        };
        if len < 2 {
            return Err(DecodeError::BadSegmentLength);
        }
        match self.stream.skip_bytes((len - 2) as usize) {
            Ok(()) => Ok(()),
            Err(e) => Err(e),
        }
    }
}

/// One or more Huffman tables parsed from a DHT segment at `m.pos` (the
/// length field): class 0 (DC) or 1 (AC), slot 0 or 1, sixteen counts
/// and the symbol values in code order.
pub open spec fn mv_dht(m: MetaView) -> Result<MetaView, DecodeError> {
    match spec_read_u16(m.bytes, m.pos) {
        Err(e) => Err(e),
        Ok((len, p)) => mv_dht_loop(MetaView { pos: p, ..m }, len - 2),
    }
}

/// The remaining tables of one DHT segment, `rem` payload bytes left.
pub open spec fn mv_dht_loop(m: MetaView, rem: int) -> Result<MetaView, DecodeError>
    decreases (if rem > 0 { rem } else { 0 }),
{
    if rem <= 0 {
        Ok(m)
    } else {
        match spec_read_u8(m.bytes, m.pos) {
            Err(e) => Err(e),
            Ok((tcth, p1)) => {
                let tc = tcth / 16;
                let th = tcth % 16;
                if tc != 0 && tc != 1 {
                    Err(DecodeError::UnsupportedHuffmanClass(tc))
                } else if th > 1 {
                    Err(DecodeError::BadTableSelector)
                } else if p1 + 16 > m.bytes.len() {
                    Err(DecodeError::Truncated)
                } else {
                    let counts = m.bytes.subrange(p1, p1 + 16);
                    let mt = spec_code_count(counts, 16);
                    let p2 = p1 + 16;
                    if p2 + mt > m.bytes.len() {
                        Err(DecodeError::Truncated)
                    } else {
                        let pair = HuffPair { counts, vals: m.bytes.subrange(p2, p2 + mt) };
                        let m2 = if tc == 0 {
                            MetaView {
                                pos: p2 + mt,
                                dctabs: m.dctabs.update(th as int, pair),
                                ..m
                            }
                        } else {
                            MetaView {
                                pos: p2 + mt,
                                actabs: m.actabs.update(th as int, pair),
                                ..m
                            }
                        };
                        mv_dht_loop(
                            m2,
                            if mt >= 0 && rem >= 17 + mt {
                                rem - 17 - mt
                            } else {
                                0
                            },
                        )
                    }
                }
            },
        }
    }
}

impl JPEGDecoder {
    /// Parse the Huffman tables of one DHT segment (the cursor stands on
    /// the length field) and build their decode structures.
    #[verifier::rlimit(100)]
    pub fn read_huffman_tables(&mut self) -> (r: Result<(), DecodeError>)
        requires
            old(self).wf(),
        ensures
            final(self).wf(),
            final(self).stream.data@ == old(self).stream.data@,
            final(self).scan_state_eq(*old(self)),
            final(self).state == old(self).state,
            r is Ok ==> final(self).stream.pos > old(self).stream.pos,
            r is Err ==> final(self).bits == old(self).bits && final(self).qtables == old(
                self,
            ).qtables && final(self).height == old(self).height && final(self).width == old(
                self,
            ).width && final(self).num_components == old(self).num_components
                && final(self).components == old(self).components
                && final(self).scan_components == old(self).scan_components
                && final(self).interval == old(self).interval && final(self).mcu == old(
                self,
            ).mcu && final(self).mcu_row == old(self).mcu_row && final(self).hmax == old(
                self,
            ).hmax && final(self).vmax == old(self).vmax && final(self).padded_width == old(
                self,
            ).padded_width,
            (match mv_dht(old(self).meta_view()) {
                Ok(m2) => r == Ok::<(), DecodeError>(()) && final(self).meta_view() == m2,
                Err(e) => r == Err::<(), DecodeError>(e),
            }),
    {
        let len: u16 = match self.stream.read_u16_be() {
            Ok(x) => x,
            Err(e) => {
                return Err(e);
            },
        };
        let mut rem: i64 = len as i64 - 2;
        while rem > 0
            invariant
                self.wf(),
                -4352 <= rem <= 65533,
                self.stream.data@ == old(self).stream.data@,
                self.scan_state_eq(*old(self)),
                self.state == old(self).state,
                self.stream.pos > old(self).stream.pos,
                self.qtables == old(self).qtables,
                self.height == old(self).height,
                self.width == old(self).width,
                self.num_components == old(self).num_components,
                self.components == old(self).components,
                self.scan_components == old(self).scan_components,
                self.interval == old(self).interval,
                self.mcu == old(self).mcu,
                self.mcu_row == old(self).mcu_row,
                self.hmax == old(self).hmax,
                self.vmax == old(self).vmax,
                self.padded_width == old(self).padded_width,
                mv_dht_loop(self.meta_view(), rem as int) == mv_dht(old(self).meta_view()),
            decreases rem + 4352,
        {
            let ghost mv0 = self.meta_view();
            let tcth: u8 = match self.stream.read_u8() {
                Ok(x) => x,
                Err(e) => {
                    return Err(e);
                },
            };
            let tc: u8 = tcth / 16;
            let th: u8 = tcth % 16;
            if tc != 0 && tc != 1 {
                return Err(DecodeError::UnsupportedHuffmanClass(tc));
            }
            if th > 1 {
                return Err(DecodeError::BadTableSelector);
            }
            let dl: usize = self.stream.data.len();
            if dl - self.stream.pos < 16 {
                return Err(DecodeError::Truncated);
            }
            let base: usize = self.stream.pos;
            let mut counts: Vec<u8> = Vec::new();
            let mut i: usize = 0;
            while i < 16
                invariant
                    i <= 16,
                    base + 16 <= self.stream.data@.len(),
                    self.stream.data@.len() <= usize::MAX,
                    counts@.len() == i,
                    forall|j: int| 0 <= j < i ==> #[trigger] counts@[j] == self.stream.data@[
                        base + j
                    ],
                decreases 16 - i,
            {
                let b: u8 = self.stream.data[base + i];
                counts.push(b);
                i = i + 1;
            }
            proof {
                assert(counts@ =~= self.stream.data@.subrange(base as int, base + 16));
            }
            let mut mt: usize = 0;
            let mut k: usize = 0;
            while k < 16
                invariant
                    k <= 16,
                    counts@.len() == 16,
                    mt == spec_code_count(counts@, k as int),
                    mt <= 255 * k,
                decreases 16 - k,
            {
                mt = mt + counts[k] as usize;
                k = k + 1;
            }
            let p2: usize = base + 16;
            self.stream.pos = p2;
            if dl - p2 < mt {
                return Err(DecodeError::Truncated);
            }
            let mut vals: Vec<u8> = Vec::new();
            let mut i2: usize = 0;
            while i2 < mt
                invariant
                    i2 <= mt,
                    p2 + mt <= self.stream.data@.len(),
                    self.stream.data@.len() <= usize::MAX,
                    vals@.len() == i2,
                    forall|j: int| 0 <= j < i2 ==> #[trigger] vals@[j] == self.stream.data@[
                        p2 + j
                    ],
                decreases mt - i2,
            {
                let b: u8 = self.stream.data[p2 + i2];
                vals.push(b);
                i2 = i2 + 1;
            }
            proof {
                assert(vals@ =~= self.stream.data@.subrange(p2 as int, p2 + mt));
            }
            let ghost counts_seq = counts@;
            let ghost vals_seq = vals@;
            let table: HuffTable = derive_tables(counts, vals);
            proof {
                assert(table_counts(table) =~= counts_seq);
            }
            if tc == 0 {
                self.dctables[th as usize] = table;
            } else {
                self.actables[th as usize] = table;
            }
            self.stream.pos = p2 + mt;
            let ghost remold = rem as int;
            rem = rem - 17 - mt as i64;
            proof {
                let pair = HuffPair { counts: counts_seq, vals: vals_seq };
                let mtarget = if tc == 0 {
                    MetaView {
                        pos: p2 + mt,
                        dctabs: mv0.dctabs.update(th as int, pair),
                        ..mv0
                    }
                } else {
                    MetaView {
                        pos: p2 + mt,
                        actabs: mv0.actabs.update(th as int, pair),
                        ..mv0
                    }
                };
                if tc == 0 {
                    assert(self.meta_view().dctabs =~= mtarget.dctabs);
                    assert(self.meta_view().actabs =~= mtarget.actabs);
                } else {
                    assert(self.meta_view().dctabs =~= mtarget.dctabs);
                    assert(self.meta_view().actabs =~= mtarget.actabs);
                }
                assert(self.meta_view() == mtarget);
                let remnext = if mt as int >= 0 && remold >= 17 + mt {
                    remold - 17 - mt
                } else {
                    0
                };
                assert(mv_dht_loop(mv0, remold) == mv_dht_loop(mtarget, remnext));
                if rem as int != remnext {
                    assert(rem as int <= 0 && remnext == 0);
                    assert(mv_dht_loop(mtarget, rem as int) == Ok::<MetaView, DecodeError>(
                        mtarget,
                    ));
                    assert(mv_dht_loop(mtarget, remnext) == Ok::<MetaView, DecodeError>(
                        mtarget,
                    ));
                }
            }
        }
        Ok(())
    }
}

/// The frame header of an SOF0 segment at `m.pos` (the length field):
/// 8-bit precision, nonzero dimensions, 1 or 3 components, component
/// records with factors in 1..=4 and quantization selectors up to 3.
pub open spec fn mv_sof(m: MetaView) -> Result<MetaView, DecodeError> {
    match spec_read_u16(m.bytes, m.pos) {
        Err(e) => Err(e),
        Ok((_len, p0)) => match spec_read_u8(m.bytes, p0) {
            Err(e) => Err(e),
            Ok((prec, p1)) => if prec != 8 {
                Err(DecodeError::UnsupportedPrecision(prec))
            } else {
                match spec_read_u16(m.bytes, p1) {
                    Err(e) => Err(e),
                    Ok((hh, p2)) => match spec_read_u16(m.bytes, p2) {
                        Err(e) => Err(e),
                        Ok((ww, p3)) => match spec_read_u8(m.bytes, p3) {
                            Err(e) => Err(e),
                            Ok((nf, p4)) => if hh == 0 || ww == 0 {
                                Err(DecodeError::ZeroDimension)
                            } else if nf != 1 && nf != 3 {
                                Err(DecodeError::UnsupportedComponentCount(nf))
                            } else {
                                mv_sof_comps(
                                    MetaView {
                                        pos: p4,
                                        height: hh,
                                        width: ww,
                                        num_components: nf,
                                        components: Seq::empty(),
                                        ..m
                                    },
                                    nf as int,
                                    0,
                                )
                            },
                        },
                    },
                }
            },
        },
    }
}

/// The remaining component records of a frame header; a record for an id
/// the frame already declared replaces the earlier one.
pub open spec fn mv_sof_comps(m: MetaView, nf: int, k: int) -> Result<MetaView, DecodeError>
    decreases nf - k,
{
    if k >= nf {
        mv_sof_finish(m)
    } else {
        match spec_read_u8(m.bytes, m.pos) {
            Err(e) => Err(e),
            Ok((cid, pa)) => match spec_read_u8(m.bytes, pa) {
                Err(e) => Err(e),
                Ok((hv, pb)) => match spec_read_u8(m.bytes, pb) {
                    Err(e) => Err(e),
                    Ok((tqv, pc)) => {
                        let ch = hv / 16;
                        let cv = hv % 16;
                        if !(1 <= ch <= 4) || !(1 <= cv <= 4) || tqv > 3 {
                            Err(DecodeError::BadTableSelector)
                        } else {
                            let c = Component {
                                id: cid,
                                h: ch,
                                v: cv,
                                tq: tqv,
                                dc_table: 0,
                                ac_table: 0,
                                dc_pred: 0,
                            };
                            let idx = find_comp(m.components, cid);
                            let cs2 = if idx >= 0 {
                                m.components.update(idx, c)
                            } else {
                                m.components.push(c)
                            };
                            mv_sof_comps(
                                MetaView { pos: pc, components: cs2, ..m },
                                nf,
                                k + 1,
                            )
                        }
                    },
                },
            },
        }
    }
}

/// Frame geometry once the component records are read: collapse a
/// single-component frame to 1x1, reject chroma subsampled other than
/// 1x1, derive the factor maxima, the padded width and the buffers.
pub open spec fn mv_sof_finish(m: MetaView) -> Result<MetaView, DecodeError> {
    if m.components.len() != m.num_components {
        Err(DecodeError::DuplicateComponent)
    } else if m.num_components == 3 && m.components.len() == 3 && !(m.components[1].h == 1
        && m.components[1].v == 1 && m.components[2].h == 1 && m.components[2].v == 1) {
        Err(DecodeError::UnsupportedSampling)
    } else {
        let cs3 = if m.num_components == 1 {
            Seq::new(m.components.len(), |i: int| Component { h: 1, v: 1, ..m.components[i] })
        } else {
            m.components
        };
        let hm = if m.num_components == 1 {
            1
        } else {
            fold_hmax(cs3)
        };
        let vm = if m.num_components == 1 {
            1
        } else {
            fold_vmax(cs3)
        };
        let padded = spec_padded(m.width, hm as u8);
        Ok(
            MetaView {
                components: cs3,
                hmax: hm as u8,
                vmax: vm as u8,
                padded_width: padded,
                mcu: Seq::new((64 * sum_blocks(cs3)) as nat, |i: int| 0u8),
                mcu_row: Seq::new(
                    (padded * (m.num_components as int) * 8 * vm) as nat,
                    |i: int| 0u8,
                ),
                ..m
            },
        )
    }
}

/// The scan header of an SOS segment at `m.pos` (the length field): the
/// scan may name any ordered subset of the frame's components, each
/// with Huffman selectors up to 1.
pub open spec fn mv_sos(m: MetaView) -> Result<MetaView, DecodeError> {
    match spec_read_u16(m.bytes, m.pos) {
        Err(e) => Err(e),
        Ok((_len, p0)) => match spec_read_u8(m.bytes, p0) {
            Err(e) => Err(e),
            Ok((ns, p1)) => if m.num_components != 1 && m.num_components != 3 {
                Err(DecodeError::BadScanComponent(ns))
            } else {
                mv_sos_comps(
                    MetaView { pos: p1, scan_components: Seq::empty(), ..m },
                    ns as int,
                    0,
                    -1,
                )
            },
        },
    }
}

/// The remaining scan component records, then the three spectral /
/// approximation bytes, which baseline ignores.  Each listed id must
/// resolve to a declared component whose index lies past the previous
/// entry's (`last`): the scan is an ordered subset of the frame.
pub open spec fn mv_sos_comps(m: MetaView, ns: int, j: int, last: int) -> Result<
    MetaView,
    DecodeError,
>
    decreases ns - j + 1,
{
    if j >= ns {
        match spec_read_u8(m.bytes, m.pos) {
            Err(e) => Err(e),
            Ok((_se, pa)) => match spec_read_u8(m.bytes, pa) {
                Err(e) => Err(e),
                Ok((_ss, pb)) => match spec_read_u8(m.bytes, pb) {
                    Err(e) => Err(e),
                    Ok((_ax, pc)) => Ok(MetaView { pos: pc, ..m }),
                },
            },
        }
    } else {
        match spec_read_u8(m.bytes, m.pos) {
            Err(e) => Err(e),
            Ok((cid, pa)) => match spec_read_u8(m.bytes, pa) {
                Err(e) => Err(e),
                Ok((tabs, pb)) => {
                    let idx = find_comp(m.components, cid);
                    if idx < 0 || idx <= last {
                        Err(DecodeError::BadScanComponent(cid))
                    } else {
                        let dc = tabs / 16;
                        let ac = tabs % 16;
                        if dc > 1 || ac > 1 {
                            Err(DecodeError::BadTableSelector)
                        } else {
                            let c2 = Component {
                                dc_table: dc,
                                ac_table: ac,
                                ..m.components[idx]
                            };
                            mv_sos_comps(
                                MetaView {
                                    pos: pb,
                                    components: m.components.update(idx, c2),
                                    scan_components: m.scan_components.push(idx as u8),
                                    ..m
                                },
                                ns,
                                j + 1,
                                idx,
                            )
                        }
                    }
                },
            },
        }
    }
}

/// The factor maxima of a nonempty component list with factors in 1..=4
/// lie in 1..=4 and dominate every component.
pub proof fn lemma_fold_bounds(cs: Seq<Component>)
    requires
        cs.len() >= 1,
        forall|i: int| 0 <= i < cs.len() ==> 1 <= (#[trigger] cs[i]).h <= 4 && 1 <= cs[i].v <= 4,
    ensures
        1 <= fold_hmax(cs) <= 4,
        1 <= fold_vmax(cs) <= 4,
        forall|i: int|
            0 <= i < cs.len() ==> (#[trigger] cs[i]).h <= fold_hmax(cs) && cs[i].v <= fold_vmax(
                cs,
            ),
    decreases cs.len(),
{
    if cs.len() == 1 {
        assert(cs.last() == cs[0]);
        assert(cs.drop_last().len() == 0);
        assert(fold_hmax(cs.drop_last()) == 0);
        assert(fold_vmax(cs.drop_last()) == 0);
    } else {
        assert forall|i: int|
            0 <= i < cs.drop_last().len() implies 1 <= (#[trigger] cs.drop_last()[i]).h <= 4
            && 1 <= cs.drop_last()[i].v <= 4 by {
            assert(cs.drop_last()[i] == cs[i]);
        };
        lemma_fold_bounds(cs.drop_last());
        assert(cs.last() == cs[cs.len() - 1]);
        assert forall|i: int|
            0 <= i < cs.len() implies (#[trigger] cs[i]).h <= fold_hmax(cs) && cs[i].v
            <= fold_vmax(cs) by {
            if i < cs.len() - 1 {
                assert(cs.drop_last()[i] == cs[i]);
            }
        };
    }
}

/// A vector of `n` zero bytes.
pub fn zero_vec(n: usize) -> (r: Vec<u8>)
    ensures
        r@ == Seq::new(n as nat, |i: int| 0u8),
{
    let mut r: Vec<u8> = Vec::new();
    let mut i: usize = 0;
    while i < n
        invariant
            i <= n,
            r@.len() == i,
            forall|j: int| 0 <= j < i ==> #[trigger] r@[j] == 0u8,
        decreases n - i,
    {
        r.push(0u8);
        i = i + 1;
    }
    proof {
        assert(r@ =~= Seq::new(n as nat, |i: int| 0u8));
    }
    r
}

/// The factor maxima of a three-component list with 1x1 chroma are the
/// first component's factors.
pub proof fn lemma_fold3(cs: Seq<Component>)
    requires
        cs.len() == 3,
        cs[1].h == 1 && cs[1].v == 1 && cs[2].h == 1 && cs[2].v == 1,
        cs[0].h >= 1 && cs[0].v >= 1,
    ensures
        fold_hmax(cs) == cs[0].h,
        fold_vmax(cs) == cs[0].v,
{
    let c2 = cs.drop_last();
    let c1 = c2.drop_last();
    let c0 = c1.drop_last();
    assert(c0.len() == 0);
    assert(fold_hmax(c0) == 0 && fold_vmax(c0) == 0);
    assert(c1.last() == cs[0] && c1.len() == 1);
    assert(c2.last() == cs[1] && c2.len() == 2);
    assert(cs.last() == cs[2]);
    assert(fold_hmax(c1) == cs[0].h && fold_vmax(c1) == cs[0].v);
    assert(fold_hmax(c2) == cs[0].h && fold_vmax(c2) == cs[0].v);
}

/// Locate a component by its on-wire id.
fn find_component(cs: &Vec<Component>, id: u8) -> (r: Option<usize>)
    ensures
        (match r {
            Some(k) => find_comp(cs@, id) == k && k < cs@.len(),
            None => find_comp(cs@, id) == -1,
        }),
{
    let n: usize = cs.len();
    let mut i: usize = 0;
    while i < n
        invariant
            i <= n,
            n == cs@.len(),
            find_comp(cs@, id) == find_comp_from(cs@, id, i as int),
        decreases n - i,
    {
        if cs[i].id == id {
            return Some(i);
        }
        i = i + 1;
    }
    None
}

impl JPEGDecoder {
    /// Parse an SOF0 frame header (the cursor stands on the length
    /// field): dimensions, components and the derived MCU geometry.
    /// The caller advances the state machine afterwards.
    #[verifier::rlimit(100)]
    pub fn read_frame_header(&mut self) -> (r: Result<(), DecodeError>)
        requires
            old(self).wf(),
            old(self).state != JPEGState::HaveFirstScan,
        ensures
            final(self).wf(),
            final(self).stream.data@ == old(self).stream.data@,
            final(self).scan_state_eq(*old(self)),
            final(self).state == old(self).state,
            r is Ok ==> final(self).stream.pos > old(self).stream.pos,
            r is Ok ==> final(self).frame_wf(),
            r is Err ==> eq_except_pos(*final(self), *old(self)),
            (match mv_sof(old(self).meta_view()) {
                Ok(m2) => r == Ok::<(), DecodeError>(()) && final(self).meta_view() == m2,
                Err(e) => r == Err::<(), DecodeError>(e),
            }),
    {
        let _len: u16 = match self.stream.read_u16_be() {
            Ok(x) => x,
            Err(e) => {
                return Err(e);
            },
        };
        let prec: u8 = match self.stream.read_u8() {
            Ok(x) => x,
            Err(e) => {
                return Err(e);
            },
        };
        if prec != 8 {
            return Err(DecodeError::UnsupportedPrecision(prec));
        }
        let hh: u16 = match self.stream.read_u16_be() {
            Ok(x) => x,
            Err(e) => {
                return Err(e);
            },
        };
        let ww: u16 = match self.stream.read_u16_be() {
            Ok(x) => x,
            Err(e) => {
                return Err(e);
            },
        };
        let nf: u8 = match self.stream.read_u8() {
            Ok(x) => x,
            Err(e) => {
                return Err(e);
            },
        };
        if hh == 0 || ww == 0 {
            return Err(DecodeError::ZeroDimension);
        }
        if nf != 1 && nf != 3 {
            return Err(DecodeError::UnsupportedComponentCount(nf));
        }
        let mut comps: Vec<Component> = Vec::new();
        let ghost mstart = MetaView {
            pos: self.stream.pos as int,
            components: Seq::empty(),
            height: hh,
            width: ww,
            num_components: nf,
            ..old(self).meta_view()
        };
        let mut k: u8 = 0;
        while k < nf
            invariant
                k <= nf,
                nf == 1 || nf == 3,
                mstart.bytes == old(self).stream.data@,
                mstart.num_components == nf,
                self.qtables == old(self).qtables,
                self.dctables == old(self).dctables,
                self.actables == old(self).actables,
                self.scan_components == old(self).scan_components,
                self.interval == old(self).interval,
                self.height == old(self).height,
                self.width == old(self).width,
                self.num_components == old(self).num_components,
                self.hmax == old(self).hmax,
                self.vmax == old(self).vmax,
                self.padded_width == old(self).padded_width,
                self.mcu == old(self).mcu,
                self.mcu_row == old(self).mcu_row,
                self.wf(),
                self.components == old(self).components,
                self.stream.data@ == old(self).stream.data@,
                self.scan_state_eq(*old(self)),
                self.state == old(self).state,
                self.stream.pos > old(self).stream.pos,
                comps@.len() <= k,
                forall|i: int| 0 <= i < comps@.len() ==> comp_ok(#[trigger] comps@[i]),
                mv_sof_comps(
                    MetaView {
                        pos: self.stream.pos as int,
                        components: comps@,
                        ..mstart
                    },
                    nf as int,
                    k as int,
                ) == mv_sof_comps(mstart, nf as int, 0),
                mv_sof_comps(mstart, nf as int, 0) == mv_sof(old(self).meta_view()),
            decreases nf - k,
        {
            let ghost mloop = MetaView {
                pos: self.stream.pos as int,
                components: comps@,
                ..mstart
            };
            let cid: u8 = match self.stream.read_u8() {
                Ok(x) => x,
                Err(e) => {
                    return Err(e);
                },
            };
            let hv: u8 = match self.stream.read_u8() {
                Ok(x) => x,
                Err(e) => {
                    return Err(e);
                },
            };
            let tqv: u8 = match self.stream.read_u8() {
                Ok(x) => x,
                Err(e) => {
                    return Err(e);
                },
            };
            let ch: u8 = hv / 16;
            let cv: u8 = hv % 16;
            if !(1 <= ch && ch <= 4) || !(1 <= cv && cv <= 4) || tqv > 3 {
                return Err(DecodeError::BadTableSelector);
            }
            let c = Component {
                id: cid,
                h: ch,
                v: cv,
                tq: tqv,
                dc_table: 0,
                ac_table: 0,
                dc_pred: 0,
            };
            match find_component(&comps, cid) {
                Some(ix) => {
                    comps[ix] = c;
                },
                None => {
                    comps.push(c);
                },
            }
            k = k + 1;
        }
        let ghost mexit = MetaView {
            pos: self.stream.pos as int,
            components: comps@,
            ..mstart
        };
        proof {
            assert(mv_sof_comps(mexit, nf as int, nf as int) == mv_sof(old(self).meta_view()));
            assert(mv_sof_comps(mexit, nf as int, nf as int) == mv_sof_finish(mexit));
        }
        if comps.len() != nf as usize {
            return Err(DecodeError::DuplicateComponent);
        }
        if nf == 3 {
            let c1: Component = comps[1];
            let c2: Component = comps[2];
            if !(c1.h == 1 && c1.v == 1 && c2.h == 1 && c2.v == 1) {
                return Err(DecodeError::UnsupportedSampling);
            }
        }
        if nf == 1 {
            let mut i: usize = 0;
            let ghost precomps = comps@;
            let nc: usize = comps.len();
            while i < nc
                invariant
                    i <= nc,
                    nc == precomps.len(),
                    comps@.len() == nc,
                    forall|j: int|
                        0 <= j < i ==> #[trigger] comps@[j] == (Component {
                            h: 1,
                            v: 1,
                            ..precomps[j]
                        }),
                    forall|j: int| i <= j < nc ==> #[trigger] comps@[j] == precomps[j],
                decreases nc - i,
            {
                let mut c: Component = comps[i];
                c.h = 1;
                c.v = 1;
                comps[i] = c;
                i = i + 1;
            }
            proof {
                assert(comps@ =~= Seq::new(
                    precomps.len(),
                    |j: int| Component { h: 1, v: 1, ..precomps[j] },
                ));
            }
        }
        let mut hm: u8 = 0;
        let mut vm: u8 = 0;
        let mut bl: usize = 0;
        let nc2: usize = comps.len();
        let mut i3: usize = 0;
        while i3 < nc2
            invariant
                i3 <= nc2,
                nc2 == comps@.len() <= 3,
                forall|j: int| 0 <= j < comps@.len() ==> comp_ok(#[trigger] comps@[j]),
                hm as int == fold_hmax(comps@.subrange(0, i3 as int)),
                vm as int == fold_vmax(comps@.subrange(0, i3 as int)),
                bl as int == sum_blocks(comps@.subrange(0, i3 as int)),
                hm <= 4,
                vm <= 4,
                bl as int <= 16 * i3,
            decreases nc2 - i3,
        {
            let c: Component = comps[i3];
            proof {
                assert(comps@.subrange(0, i3 + 1).drop_last() =~= comps@.subrange(
                    0,
                    i3 as int,
                ));
                assert(comps@.subrange(0, i3 + 1).last() == comps@[i3 as int]);
                assert(comp_ok(comps@[i3 as int]));
                assert((c.h as int) * (c.v as int) <= 16) by (nonlinear_arith)
                    requires
                        1 <= c.h <= 4,
                        1 <= c.v <= 4,
                ;
            }
            if c.h > hm {
                hm = c.h;
            }
            if c.v > vm {
                vm = c.v;
            }
            bl = bl + (c.h * c.v) as usize;
            i3 = i3 + 1;
        }
        proof {
            assert(comps@.subrange(0, nc2 as int) =~= comps@);
        }
        let blocks: usize = bl;
        if nf == 1 {
            hm = 1;
            vm = 1;
        }
        proof {
            if nf != 1 {
                lemma_fold_bounds(comps@);
            }
        }
        let fh: usize = 8 * hm as usize;
        let q: usize = (ww as usize + fh - 1) / fh;
        proof {
            vstd::arithmetic::div_mod::lemma_fundamental_div_mod(
                ww as int + fh as int - 1,
                fh as int,
            );
            vstd::arithmetic::div_mod::lemma_mod_bound(ww as int + fh as int - 1, fh as int);
        }
        let padded: usize = fh * q;
        proof {
            assert((padded as int) * (nf as int) * 8 * (vm as int) <= 6294336
                && (padded as int) * (nf as int) <= 196698) by (nonlinear_arith)
                requires
                    0 <= padded <= 65566,
                    1 <= nf <= 3,
                    1 <= vm <= 4,
            ;
        }
        let mrl: usize = padded * (nf as usize) * 8 * (vm as usize);
        self.height = hh;
        self.width = ww;
        self.num_components = nf;
        self.components = comps;
        self.hmax = hm;
        self.vmax = vm;
        self.padded_width = padded;
        self.mcu = zero_vec(64 * blocks);
        self.mcu_row = zero_vec(mrl);
        proof {
            if nf == 3 && self.components@.len() == 3 {
                lemma_fold3(self.components@);
            }
            let cs3 = if nf == 1 {
                Seq::new(
                    mexit.components.len(),
                    |j: int| Component { h: 1, v: 1, ..mexit.components[j] },
                )
            } else {
                mexit.components
            };
            assert(self.components@ =~= cs3);
            let hmspec = if nf == 1 {
                1int
            } else {
                fold_hmax(cs3)
            };
            let vmspec = if nf == 1 {
                1int
            } else {
                fold_vmax(cs3)
            };
            assert(hm as int == hmspec && vm as int == vmspec);
            assert(q as int == (ww as int + 8 * (hm as int) - 1) / (8 * (hm as int)));
            assert(padded as int == 8 * (hm as int) * (q as int)) by (nonlinear_arith)
                requires
                    padded == fh * q,
                    fh == 8 * (hm as int),
            ;
            assert(padded as int == spec_padded(ww, hm));
            assert(blocks as int == sum_blocks(cs3));
            assert(self.mcu@ =~= Seq::new((64 * sum_blocks(cs3)) as nat, |i: int| 0u8));
            assert(mrl as int == spec_padded(ww, hm) * (nf as int) * 8 * vmspec) by (
            nonlinear_arith)
                requires
                    mrl == ((padded * (nf as int)) * 8) * (vm as int),
                    padded as int == spec_padded(ww, hm),
                    vm as int == vmspec,
            ;
            assert(self.mcu_row@ =~= Seq::new(
                (spec_padded(ww, hm) * (nf as int) * 8 * vmspec) as nat,
                |i: int| 0u8,
            ));
            let m2 = MetaView {
                components: cs3,
                hmax: hmspec as u8,
                vmax: vmspec as u8,
                padded_width: spec_padded(ww, hmspec as u8),
                mcu: Seq::new((64 * sum_blocks(cs3)) as nat, |i: int| 0u8),
                mcu_row: Seq::new(
                    (spec_padded(ww, hmspec as u8) * (nf as int) * 8 * vmspec) as nat,
                    |i: int| 0u8,
                ),
                ..mexit
            };
            assert(mv_sof_finish(mexit) == Ok::<MetaView, DecodeError>(m2));
            assert(self.meta_view().dctabs =~= m2.dctabs);
            assert(self.meta_view().actabs =~= m2.actabs);
            assert(self.meta_view() == m2);
        }
        Ok(())
    }
}

impl JPEGDecoder {
    /// Parse an SOS scan header (the cursor stands on the length field):
    /// the scan's components must be the frame's components in frame
    /// order; their Huffman selectors are recorded.  The caller advances
    /// the state machine afterwards.
    #[verifier::rlimit(100)]
    pub fn read_scan_header(&mut self) -> (r: Result<(), DecodeError>)
        requires
            old(self).wf(),
            old(self).state != JPEGState::HaveFirstScan,
        ensures
            final(self).wf(),
            final(self).stream.data@ == old(self).stream.data@,
            final(self).scan_state_eq(*old(self)),
            final(self).state == old(self).state,
            r is Ok ==> final(self).stream.pos > old(self).stream.pos,
            r is Ok ==> final(self).scan_wf() && final(self).num_components != 0,
            r is Err ==> eq_except_pos(*final(self), *old(self)),
            (match mv_sos(old(self).meta_view()) {
                Ok(m2) => r == Ok::<(), DecodeError>(()) && final(self).meta_view() == m2,
                Err(e) => r == Err::<(), DecodeError>(e),
            }),
    {
        let _len: u16 = match self.stream.read_u16_be() {
            Ok(x) => x,
            Err(e) => {
                return Err(e);
            },
        };
        let ns: u8 = match self.stream.read_u8() {
            Ok(x) => x,
            Err(e) => {
                return Err(e);
            },
        };
        if self.num_components != 1 && self.num_components != 3 {
            return Err(DecodeError::BadScanComponent(ns));
        }
        let mut comps: Vec<Component> = Vec::new();
        let nold: usize = self.components.len();
        let mut ci: usize = 0;
        while ci < nold
            invariant
                ci <= nold,
                nold == old(self).components@.len(),
                self.components == old(self).components,
                comps@ =~= old(self).components@.subrange(0, ci as int),
            decreases nold - ci,
        {
            let c: Component = self.components[ci];
            comps.push(c);
            ci = ci + 1;
        }
        proof {
            assert(comps@ =~= old(self).components@);
        }
        let mut scan: Vec<u8> = Vec::new();
        let ghost mstart = MetaView {
            pos: self.stream.pos as int,
            scan_components: Seq::empty(),
            ..old(self).meta_view()
        };
        let mut j: u8 = 0;
        let mut last: i32 = -1;
        while j < ns
            invariant
                j <= ns,
                self.num_components == 1 || self.num_components == 3,
                mstart.bytes == old(self).stream.data@,
                mstart.components == old(self).components@,
                mstart.scan_components == Seq::<u8>::empty(),
                self.wf(),
                self.components == old(self).components,
                self.stream.data@ == old(self).stream.data@,
                self.scan_state_eq(*old(self)),
                self.state == old(self).state,
                self.num_components == old(self).num_components,
                self.stream.pos > old(self).stream.pos,
                self.scan_components == old(self).scan_components,
                self.qtables == old(self).qtables,
                self.dctables == old(self).dctables,
                self.actables == old(self).actables,
                self.interval == old(self).interval,
                self.height == old(self).height,
                self.width == old(self).width,
                self.hmax == old(self).hmax,
                self.vmax == old(self).vmax,
                self.padded_width == old(self).padded_width,
                self.mcu == old(self).mcu,
                self.mcu_row == old(self).mcu_row,
                comps@.len() == old(self).components@.len(),
                comps@.len() <= 3,
                forall|i: int| 0 <= i < comps@.len() ==> comp_ok(#[trigger] comps@[i]),
                forall|i: int|
                    0 <= i < comps@.len() ==> (#[trigger] comps@[i]).h == old(self).components@[i].h && comps@[i].v == old(self).components@[i].v,
                -1 <= last < comps@.len(),
                last >= j - 1,
                comps@.len() == old(self).num_components,
                scan@.len() == j,
                forall|i: int| 0 <= i < j ==> #[trigger] scan@[i] < comps@.len(),
                forall|i: int| 0 <= i < j - 1 ==> #[trigger] scan@[i] < scan@[i + 1],
                j > 0 ==> scan@[j - 1] == last,
                mv_sos_comps(
                    MetaView {
                        pos: self.stream.pos as int,
                        components: comps@,
                        scan_components: scan@,
                        ..mstart
                    },
                    ns as int,
                    j as int,
                    last as int,
                ) == mv_sos_comps(mstart, ns as int, 0, -1),
                mv_sos_comps(mstart, ns as int, 0, -1) == mv_sos(old(self).meta_view()),
            decreases ns - j,
        {
            let cid: u8 = match self.stream.read_u8() {
                Ok(x) => x,
                Err(e) => {
                    return Err(e);
                },
            };
            let tabs: u8 = match self.stream.read_u8() {
                Ok(x) => x,
                Err(e) => {
                    return Err(e);
                },
            };
            let ix: usize = match find_component(&comps, cid) {
                Some(x) => x,
                None => {
                    return Err(DecodeError::BadScanComponent(cid));
                },
            };
            if ix as i32 <= last {
                return Err(DecodeError::BadScanComponent(cid));
            }
            let dc: u8 = tabs / 16;
            let ac: u8 = tabs % 16;
            if dc > 1 || ac > 1 {
                return Err(DecodeError::BadTableSelector);
            }
            let mut c2: Component = comps[ix];
            c2.dc_table = dc;
            c2.ac_table = ac;
            comps[ix] = c2;
            scan.push(ix as u8);
            last = ix as i32;
            j = j + 1;
        }
        let ghost mexit = MetaView {
            pos: self.stream.pos as int,
            components: comps@,
            scan_components: scan@,
            ..mstart
        };
        proof {
            assert(mv_sos_comps(mexit, ns as int, ns as int, last as int) == mv_sos(
                old(self).meta_view(),
            ));
        }
        let _b1: u8 = match self.stream.read_u8() {
            Ok(x) => x,
            Err(e) => {
                return Err(e);
            },
        };
        let _b2: u8 = match self.stream.read_u8() {
            Ok(x) => x,
            Err(e) => {
                return Err(e);
            },
        };
        let _b3: u8 = match self.stream.read_u8() {
            Ok(x) => x,
            Err(e) => {
                return Err(e);
            },
        };
        self.components = comps;
        self.scan_components = scan;
        proof {
            lemma_sum_blocks_same_factors(old(self).components@, self.components@);
            assert(self.meta_view().dctabs =~= old(self).meta_view().dctabs);
            assert(self.meta_view().actabs =~= old(self).meta_view().actabs);
            let m2 = MetaView { pos: self.stream.pos as int, ..mexit };
            assert(self.meta_view() == m2);
        }
        Ok(())
    }
}

/// The whole marker phase: bytes are scanned for `0xFF` and each marker
/// performs its one action, until the first scan header arrives.  Bytes
/// that are not `0xFF` are passed over; TEM is ignored; SOF2 and DNL are
/// unsupported; any other unhandled marker is a format error.
pub open spec fn mv_metadata(m: MetaView) -> Result<MetaView, DecodeError>
    decreases m.bytes.len() - m.pos,
{
    if m.state == JPEGState::HaveFirstScan {
        Ok(m)
    } else {
        match spec_read_u8(m.bytes, m.pos) {
            Err(e) => Err(e),
            Ok((byte, p1)) => if byte != 0xFF {
                mv_metadata(MetaView { pos: p1, ..m })
            } else {
                match spec_read_u8(m.bytes, p1) {
                    Err(e) => Err(e),
                    Ok((marker, p2)) => {
                        let mm = MetaView { pos: p2, ..m };
                        if marker == 0xD8 {
                            mv_metadata(MetaView { state: JPEGState::HaveSOI, ..mm })
                        } else if marker == 0xC4 {
                            match mv_dht(mm) {
                                Err(e) => Err(e),
                                Ok(m2) => mv_metadata(
                                    MetaView {
                                        bytes: m.bytes,
                                        pos: clamp_pos(m2.pos, p2, m.bytes.len() as int),
                                        ..m2
                                    },
                                ),
                            }
                        } else if marker == 0xDB {
                            match mv_dqt(mm) {
                                Err(e) => Err(e),
                                Ok(m2) => mv_metadata(
                                    MetaView {
                                        bytes: m.bytes,
                                        pos: clamp_pos(m2.pos, p2, m.bytes.len() as int),
                                        ..m2
                                    },
                                ),
                            }
                        } else if marker == 0xC0 {
                            match mv_sof(mm) {
                                Err(e) => Err(e),
                                Ok(m2) => mv_metadata(
                                    MetaView {
                                        bytes: m.bytes,
                                        pos: clamp_pos(m2.pos, p2, m.bytes.len() as int),
                                        state: JPEGState::HaveFirstFrame,
                                        ..m2
                                    },
                                ),
                            }
                        } else if marker == 0xDA {
                            match mv_sos(mm) {
                                Err(e) => Err(e),
                                Ok(m2) => Ok(
                                    MetaView { state: JPEGState::HaveFirstScan, ..m2 },
                                ),
                            }
                        } else if marker == 0xDD {
                            match mv_dri(mm) {
                                Err(e) => Err(e),
                                Ok(m2) => mv_metadata(
                                    MetaView {
                                        bytes: m.bytes,
                                        pos: clamp_pos(m2.pos, p2, m.bytes.len() as int),
                                        ..m2
                                    },
                                ),
                            }
                        } else if 0xE0 <= marker && marker <= 0xEF || marker == 0xFE {
                            match mv_skip_segment(mm) {
                                Err(e) => Err(e),
                                Ok(m2) => mv_metadata(
                                    MetaView {
                                        bytes: m.bytes,
                                        pos: clamp_pos(m2.pos, p2, m.bytes.len() as int),
                                        ..m2
                                    },
                                ),
                            }
                        } else if marker == 0x01 {
                            mv_metadata(mm)
                        } else if marker == 0xC2 {
                            Err(DecodeError::UnsupportedMarker(0xC2))
                        } else if marker == 0xDC {
                            Err(DecodeError::UnsupportedMarker(0xDC))
                        } else {
                            Err(DecodeError::UnknownMarker(marker))
                        }
                    },
                }
            },
        }
    }
}

/// Determinism of the header phase: the outcome of the marker state
/// machine, and with it the dimensions, color model and row length, is
/// a function of the input bytes and starting state alone, so two
/// decoders over equal inputs report equal metadata.  (The contracts of
/// `read_metadata` and the query operations pin the executable results
/// to this same function.)
pub proof fn lemma_metadata_deterministic(a: MetaView, b: MetaView)
    requires
        a == b,
    ensures
        mv_metadata(a) == mv_metadata(b),
        (match (mv_metadata(a), mv_metadata(b)) {
            (Ok(ma), Ok(mb)) => ma.width == mb.width && ma.height == mb.height
                && ma.num_components == mb.num_components,
            (Err(ea), Err(eb)) => ea == eb,
            _ => false,
        }),
{
}

impl JPEGDecoder {
    /// Run the marker state machine up to the first scan header,
    /// populating tables, frame geometry and scan assignments.
    #[verifier::rlimit(100)]
    pub fn read_metadata(&mut self) -> (r: Result<(), DecodeError>)
        requires
            old(self).wf(),
        ensures
            final(self).wf(),
            final(self).stream.data@ == old(self).stream.data@,
            final(self).scan_state_eq(*old(self)),
            r is Err ==> final(self).state != JPEGState::HaveFirstScan,
            (match mv_metadata(old(self).meta_view()) {
                Ok(m2) => r == Ok::<(), DecodeError>(()) && final(self).meta_view() == m2
                    && final(self).state == JPEGState::HaveFirstScan,
                Err(e) => r == Err::<(), DecodeError>(e),
            }),
    {
        while !matches!(self.state, JPEGState::HaveFirstScan)
            invariant
                self.wf(),
                self.stream.data@ == old(self).stream.data@,
                self.scan_state_eq(*old(self)),
                mv_metadata(self.meta_view()) == mv_metadata(old(self).meta_view()),
            decreases self.stream.data@.len() - self.stream.pos,
        {
            let ghost mhead = self.meta_view();
            let byte: u8 = match self.stream.read_u8() {
                Ok(x) => x,
                Err(e) => {
                    return Err(e);
                },
            };
            if byte != 0xFF {
                continue ;
            }
            let marker: u8 = match self.stream.read_u8() {
                Ok(x) => x,
                Err(e) => {
                    return Err(e);
                },
            };
            let ghost p2 = self.stream.pos as int;
            let ghost mm = self.meta_view();
            if marker == 0xD8 {
                self.state = JPEGState::HaveSOI;
            } else if marker == 0xC4 {
                match self.read_huffman_tables() {
                    Ok(()) => {},
                    Err(e) => {
                        return Err(e);
                    },
                }
                proof {
                    assert(clamp_pos(
                        self.stream.pos as int,
                        p2,
                        self.stream.data@.len() as int,
                    ) == self.stream.pos as int);
                }
            } else if marker == 0xDB {
                match self.read_quantization_tables() {
                    Ok(()) => {},
                    Err(e) => {
                        return Err(e);
                    },
                }
                proof {
                    assert(clamp_pos(
                        self.stream.pos as int,
                        p2,
                        self.stream.data@.len() as int,
                    ) == self.stream.pos as int);
                }
            } else if marker == 0xC0 {
                match self.read_frame_header() {
                    Ok(()) => {},
                    Err(e) => {
                        return Err(e);
                    },
                }
                self.state = JPEGState::HaveFirstFrame;
                proof {
                    assert(clamp_pos(
                        self.stream.pos as int,
                        p2,
                        self.stream.data@.len() as int,
                    ) == self.stream.pos as int);
                }
            } else if marker == 0xDA {
                match self.read_scan_header() {
                    Ok(()) => {},
                    Err(e) => {
                        return Err(e);
                    },
                }
                self.state = JPEGState::HaveFirstScan;
                return Ok(());
            } else if marker == 0xDD {
                match self.read_restart_interval() {
                    Ok(()) => {},
                    Err(e) => {
                        return Err(e);
                    },
                }
                proof {
                    assert(clamp_pos(
                        self.stream.pos as int,
                        p2,
                        self.stream.data@.len() as int,
                    ) == self.stream.pos as int);
                }
            } else if (0xE0 <= marker && marker <= 0xEF) || marker == 0xFE {
                match self.skip_segment() {
                    Ok(()) => {},
                    Err(e) => {
                        return Err(e);
                    },
                }
                proof {
                    assert(clamp_pos(
                        self.stream.pos as int,
                        p2,
                        self.stream.data@.len() as int,
                    ) == self.stream.pos as int);
                }
            } else if marker == 0x01 {
            } else if marker == 0xC2 {
                return Err(DecodeError::UnsupportedMarker(0xC2));
            } else if marker == 0xDC {
                return Err(DecodeError::UnsupportedMarker(0xDC));
            } else {
                return Err(DecodeError::UnknownMarker(marker));
            }
        }
        Ok(())
    }

    /// The image dimensions (width, height), parsing the headers on
    /// first use.
    pub fn dimensions(&mut self) -> (r: Result<(u32, u32), DecodeError>)
        requires
            old(self).wf(),
        ensures
            final(self).wf(),
            final(self).stream.data@ == old(self).stream.data@,
            (match spec_after_metadata(old(self).meta_view()) {
                Ok(m2) => r == Ok::<(u32, u32), DecodeError>(
                    (m2.width as u32, m2.height as u32),
                ) && final(self).meta_view() == m2,
                Err(e) => r == Err::<(u32, u32), DecodeError>(e),
            }),
    {
        if matches!(self.state, JPEGState::Start) {
            match self.read_metadata() {
                Ok(()) => {},
                Err(e) => {
                    return Err(e);
                },
            }
        }
        Ok((self.width as u32, self.height as u32))
    }

    /// The decoded sample layout, parsing the headers on first use.
    pub fn colortype(&mut self) -> (r: Result<ColorType, DecodeError>)
        requires
            old(self).wf(),
        ensures
            final(self).wf(),
            final(self).stream.data@ == old(self).stream.data@,
            (match spec_after_metadata(old(self).meta_view()) {
                Ok(m2) => r == Ok::<ColorType, DecodeError>(
                    if m2.num_components == 1 {
                        ColorType::Gray8
                    } else {
                        ColorType::Rgb8
                    },
                ) && final(self).meta_view() == m2,
                Err(e) => r == Err::<ColorType, DecodeError>(e),
            }),
    {
        if matches!(self.state, JPEGState::Start) {
            match self.read_metadata() {
                Ok(()) => {},
                Err(e) => {
                    return Err(e);
                },
            }
        }
        if self.num_components == 1 {
            Ok(ColorType::Gray8)
        } else {
            Ok(ColorType::Rgb8)
        }
    }

    /// Bytes per decoded row (no padding), parsing the headers on first
    /// use.
    pub fn row_len(&mut self) -> (r: Result<usize, DecodeError>)
        requires
            old(self).wf(),
        ensures
            final(self).wf(),
            final(self).stream.data@ == old(self).stream.data@,
            (match spec_after_metadata(old(self).meta_view()) {
                Ok(m2) => r == Ok::<usize, DecodeError>(
                    ((m2.width as int) * (m2.num_components as int)) as usize,
                ) && final(self).meta_view() == m2,
                Err(e) => r == Err::<usize, DecodeError>(e),
            }),
    {
        if matches!(self.state, JPEGState::Start) {
            match self.read_metadata() {
                Ok(()) => {},
                Err(e) => {
                    return Err(e);
                },
            }
        }
        proof {
            assert((self.width as int) * (self.num_components as int) <= 196605) by (
            nonlinear_arith)
                requires
                    self.width <= 65535,
                    self.num_components <= 3,
            ;
        }
        Ok((self.width as usize) * (self.num_components as usize))
    }
}

/// The header state after the marker phase: parsed on first use, cached
/// afterwards.
pub open spec fn spec_after_metadata(m: MetaView) -> Result<MetaView, DecodeError> {
    if m.state == JPEGState::Start {
        mv_metadata(m)
    } else {
        Ok(m)
    }
}

/// The remaining AC coefficients of one block from zig-zag position `k`:
/// each symbol packs a zero run and a size; run 0 size 0 ends the block,
/// run 15 size 0 skips sixteen positions, and any other symbol places a
/// sign-extended, dequantized coefficient at the de-zig-zagged position.
/// Running past position 63 is a format error.
pub open spec fn spec_decode_coeffs(
    v: SrcView,
    act: HuffTable,
    q: Seq<u8>,
    qb: int,
    k: int,
    zz: Seq<i16>,
) -> Result<(Seq<i16>, SrcView), DecodeError>
    decreases 64 - k,
{
    if k >= 64 {
        Ok((zz, v))
    } else {
        match spec_decode_symbol(v, act) {
            Err(e) => Err(e),
            Ok((rs, v1)) => {
                let ssss = rs % 16;
                let rrrr = rs / 16;
                if ssss == 0 {
                    if rrrr != 15 {
                        Ok((zz, v1))
                    } else {
                        spec_decode_coeffs(
                            v1,
                            act,
                            q,
                            qb,
                            if k + 16 < 64 {
                                k + 16
                            } else {
                                64
                            },
                            zz,
                        )
                    }
                } else {
                    let k2 = k + rrrr;
                    if k2 > 63 {
                        Err(DecodeError::CoefficientOverrun)
                    } else {
                        match spec_receive(v1, ssss as nat) {
                            Err(e) => Err(e),
                            Ok((t, v2)) => {
                                let co = spec_wrap_i16(
                                    spec_extend(t as int, ssss as nat) * q[qb + k2],
                                );
                                spec_decode_coeffs(
                                    v2,
                                    act,
                                    q,
                                    qb,
                                    k2 + 1,
                                    zz.update(spec_unzigzag(k2), co as i16),
                                )
                            },
                        }
                    }
                }
            },
        }
    }
}

/// One whole coefficient block: a DC size symbol and its sign-extended
/// difference added to the predictor, then the AC coefficients.  The
/// result carries the new predictor and the natural-order coefficients.
pub open spec fn spec_decode_block(
    v: SrcView,
    dct: HuffTable,
    act: HuffTable,
    q: Seq<u8>,
    qb: int,
    pred: int,
) -> Result<(int, Seq<i16>, SrcView), DecodeError> {
    match spec_decode_symbol(v, dct) {
        Err(e) => Err(e),
        Ok((t, v1)) => if t > 16 {
            Err(DecodeError::BadDcSize(t))
        } else {
            match spec_receive(v1, t as nat) {
                Err(e) => Err(e),
                Ok((draw, v2)) => {
                    let dc = spec_wrap_i16(pred + spec_extend(draw as int, t as nat));
                    let zz0 = Seq::new(64, |i: int| 0i16).update(0, dc as i16);
                    match spec_decode_coeffs(v2, act, q, qb, 1, zz0) {
                        Err(e) => Err(e),
                        Ok((zz, v3)) => Ok((dc, zz, v3)),
                    }
                },
            }
        },
    }
}

/// Fields of the decoder that block decoding never touches.
pub open spec fn block_state_eq(a: JPEGDecoder, b: JPEGDecoder) -> bool {
    &&& a.stream.data@ == b.stream.data@
    &&& a.qtables == b.qtables
    &&& a.dctables == b.dctables
    &&& a.actables == b.actables
    &&& a.height == b.height
    &&& a.width == b.width
    &&& a.num_components == b.num_components
    &&& a.components == b.components
    &&& a.scan_components == b.scan_components
    &&& a.mcu_row == b.mcu_row
    &&& a.hmax == b.hmax
    &&& a.vmax == b.vmax
    &&& a.interval == b.interval
    &&& a.mcucount == b.mcucount
    &&& a.expected_rst == b.expected_rst
    &&& a.row_count == b.row_count
    &&& a.decoded_rows == b.decoded_rows
    &&& a.padded_width == b.padded_width
    &&& a.state == b.state
}

impl JPEGDecoder {
    /// Decode one 8x8 block of block slot `i` into the MCU buffer:
    /// entropy-decode the coefficients against DC table `dc`, AC table
    /// `ac` and quantization table `q`, inverse-transform them, and
    /// return the new DC predictor.
    #[verifier::rlimit(100)]
    pub fn decode_block(&mut self, i: usize, dc: u8, pred: i32, ac: u8, q: u8) -> (r: Result<
        i32,
        DecodeError,
    >)
        requires
            old(self).wf(),
            dc <= 1,
            ac <= 1,
            q <= 3,
            (i + 1) * 64 <= old(self).mcu@.len(),
            -32768 <= pred <= 32767,
        ensures
            final(self).wf(),
            block_state_eq(*final(self), *old(self)),
            final(self).mcu@.len() == old(self).mcu@.len(),
            (match spec_decode_block(
                src_view(old(self).stream, old(self).bits),
                old(self).dctables@[dc as int],
                old(self).actables@[ac as int],
                old(self).qtables@,
                64 * (q as int),
                pred as int,
            ) {
                Ok(res) => r == Ok::<i32, DecodeError>(res.0 as i32) && -32768 <= res.0
                    <= 32767 && src_view(final(self).stream, final(self).bits) == res.2 && (
                forall|j: int|
                    0 <= j < 64 ==> final(self).mcu@[64 * i + j] == spec_idct(res.1, j)) && (
                forall|mj: int|
                    0 <= mj < old(self).mcu@.len() && !(64 * i <= mj < 64 * i + 64)
                        ==> final(self).mcu@[mj] == old(self).mcu@[mj]),
                Err(e) => r == Err::<i32, DecodeError>(e) && final(self).mcu@ == old(self).mcu@,
            }),
    {
        let t: u8 = match decode_symbol(
            &mut self.stream,
            &mut self.bits,
            &self.dctables[dc as usize],
        ) {
            Ok(x) => x,
            Err(e) => {
                return Err(e);
            },
        };
        if t > 16 {
            return Err(DecodeError::BadDcSize(t));
        }
        let draw: u32 = match receive(&mut self.stream, &mut self.bits, t) {
            Ok(x) => x,
            Err(e) => {
                return Err(e);
            },
        };
        proof {
            vstd::arithmetic::power2::lemma2_to64();
            if (t as nat) < 16 {
                vstd::arithmetic::power2::lemma_pow2_strictly_increases(t as nat, 16);
            }
            assert(draw < vstd::arithmetic::power2::pow2(t as nat));
            assert(draw < 65536);
        }
        let diff: i32 = extend(draw as i32, t);
        let dcw: i16 = wrap_i16(pred + diff);
        let mut zz: Vec<i16> = Vec::new();
        let mut zi: usize = 0;
        while zi < 64
            invariant
                zi <= 64,
                zz@.len() == zi,
                forall|j: int| 0 <= j < zi ==> #[trigger] zz@[j] == 0i16,
            decreases 64 - zi,
        {
            zz.push(0i16);
            zi = zi + 1;
        }
        proof {
            assert(zz@ =~= Seq::new(64, |j: int| 0i16));
        }
        zz[0] = dcw;
        let ghost zz0 = Seq::new(64, |j: int| 0i16).update(0, dcw);
        proof {
            assert(zz@ =~= zz0);
        }
        let ghost vstart = src_view(self.stream, self.bits);
        let mut k: usize = 1;
        let mut done: bool = false;
        while k < 64 && !done
            invariant
                1 <= k,
                self.stream.wf(),
                self.bits.wf(),
                self.stream.data@ == old(self).stream.data@,
                self.qtables@ == old(self).qtables@,
                self.qtables@.len() == 256,
                q <= 3,
                ac <= 1,
                self.actables@.len() == 2,
                self.actables@[ac as int].wf(),
                self.actables@ == old(self).actables@,
                zz@.len() == 64,
                block_state_eq(*self, *old(self)),
                self.mcu@ == old(self).mcu@,
                self.wf(),
                spec_decode_block(
                    src_view(old(self).stream, old(self).bits),
                    old(self).dctables@[dc as int],
                    old(self).actables@[ac as int],
                    old(self).qtables@,
                    64 * (q as int),
                    pred as int,
                ) == (match spec_decode_coeffs(
                    vstart,
                    old(self).actables@[ac as int],
                    old(self).qtables@,
                    64 * (q as int),
                    1,
                    zz0,
                ) {
                    Err(e) => Err::<(int, Seq<i16>, SrcView), DecodeError>(e),
                    Ok(p) => Ok::<(int, Seq<i16>, SrcView), DecodeError>(
                        (dcw as int, p.0, p.1),
                    ),
                }),
                (if done {
                    spec_decode_coeffs(
                        vstart,
                        self.actables@[ac as int],
                        self.qtables@,
                        64 * (q as int),
                        1,
                        zz0,
                    ) == Ok::<(Seq<i16>, SrcView), DecodeError>(
                        (zz@, src_view(self.stream, self.bits)),
                    )
                } else {
                    spec_decode_coeffs(
                        src_view(self.stream, self.bits),
                        self.actables@[ac as int],
                        self.qtables@,
                        64 * (q as int),
                        k as int,
                        zz@,
                    ) == spec_decode_coeffs(
                        vstart,
                        self.actables@[ac as int],
                        self.qtables@,
                        64 * (q as int),
                        1,
                        zz0,
                    )
                }),
            decreases 80 - k, (if done {
                0int
            } else {
                1
            }),
        {
            let ghost vhead = src_view(self.stream, self.bits);
            let ghost zzhead = zz@;
            let ghost khead = k as int;
            let ghost acttab = self.actables@[ac as int];
            let ghost qseq = self.qtables@;
            let ghost qb = 64 * (q as int);
            let rs: u8 = match decode_symbol(
                &mut self.stream,
                &mut self.bits,
                &self.actables[ac as usize],
            ) {
                Ok(x) => x,
                Err(e) => {
                    return Err(e);
                },
            };
            let ssss: u8 = rs % 16;
            let rrrr: u8 = rs / 16;
            if ssss == 0 {
                if rrrr != 15 {
                    done = true;
                    proof {
                        assert(spec_decode_coeffs(vhead, acttab, qseq, qb, khead, zzhead)
                            == Ok::<(Seq<i16>, SrcView), DecodeError>(
                            (zz@, src_view(self.stream, self.bits)),
                        ));
                    }
                } else {
                    k = k + 16;
                    proof {
                        let knext = if khead + 16 < 64 {
                            khead + 16
                        } else {
                            64int
                        };
                        assert(spec_decode_coeffs(vhead, acttab, qseq, qb, khead, zzhead)
                            == spec_decode_coeffs(
                            src_view(self.stream, self.bits),
                            acttab,
                            qseq,
                            qb,
                            knext,
                            zz@,
                        ));
                        assert(spec_decode_coeffs(
                            src_view(self.stream, self.bits),
                            acttab,
                            qseq,
                            qb,
                            k as int,
                            zz@,
                        ) == spec_decode_coeffs(
                            src_view(self.stream, self.bits),
                            acttab,
                            qseq,
                            qb,
                            knext,
                            zz@,
                        ));
                    }
                }
            } else {
                let k2: usize = k + rrrr as usize;
                if k2 > 63 {
                    return Err(DecodeError::CoefficientOverrun);
                }
                let t2: u32 = match receive(&mut self.stream, &mut self.bits, ssss) {
                    Ok(x) => x,
                    Err(e) => {
                        return Err(e);
                    },
                };
                proof {
                    vstd::arithmetic::power2::lemma2_to64();
                    if (ssss as nat) < 16 {
                        vstd::arithmetic::power2::lemma_pow2_strictly_increases(
                            ssss as nat,
                            16,
                        );
                    }
                }
                let val: i32 = extend(t2 as i32, ssss);
                let qv: u8 = self.qtables[64 * (q as usize) + k2];
                proof {
                    assert(-2147483648 <= (val as int) * (qv as int)
                        <= 2147483647 && -0x4000000 <= (val as int) * (qv as int)
                        <= 0x4000000) by (nonlinear_arith)
                        requires
                            -65536 <= val <= 65536,
                            0 <= qv <= 255,
                    ;
                }
                let prod: i32 = val * qv as i32;
                let co: i16 = wrap_i16(prod);
                let uz: u8 = unzigzag(k2 as u8);
                zz[uz as usize] = co;
                k = k2 + 1;
                proof {
                    assert(zz@ =~= zzhead.update(spec_unzigzag(k2 as int), co));
                    assert(spec_decode_coeffs(vhead, acttab, qseq, qb, khead, zzhead)
                        == spec_decode_coeffs(
                        src_view(self.stream, self.bits),
                        acttab,
                        qseq,
                        qb,
                        k as int,
                        zz@,
                    ));
                }
            }
        }
        proof {
            assert(spec_decode_coeffs(
                vstart,
                self.actables@[ac as int],
                self.qtables@,
                64 * (q as int),
                1,
                zz0,
            ) == Ok::<(Seq<i16>, SrcView), DecodeError>(
                (zz@, src_view(self.stream, self.bits)),
            ));
        }
        let ml: usize = self.mcu.len();
        assert((i + 1) * 64 <= ml);
        crate::transform::idct(&zz, &mut self.mcu, i * 64);
        Ok(dcw as i32)
    }
}

/// Scan the raw bytes for the next restart marker: bytes before a `0xFF`
/// are passed over; `RST0..=RST7` is found; EOI means the scan ended with
/// a restart still owed; any other marked byte is passed over.
pub open spec fn spec_find_restart(bytes: Seq<u8>, pos: int) -> Result<(u8, int), DecodeError>
    decreases bytes.len() - pos,
{
    match spec_read_u8(bytes, pos) {
        Err(e) => Err(e),
        Ok((b, p1)) => if b != 0xFF {
            spec_find_restart(bytes, p1)
        } else {
            match spec_read_u8(bytes, p1) {
                Err(e) => Err(e),
                Ok((b2, p2)) => if 0xD0 <= b2 <= 0xD7 {
                    Ok((b2, p2))
                } else if b2 == 0xD9 {
                    Err(DecodeError::RestartNotFound)
                } else {
                    spec_find_restart(bytes, p2)
                },
            }
        },
    }
}

/// Where the next restart marker comes from: the entropy source's cached
/// marker if one was captured, else a forward scan of the raw bytes.
pub open spec fn spec_restart_marker(d: JPEGDecoder) -> Result<(u8, int), DecodeError> {
    match d.bits.marker {
        Some(mk) => Ok((mk, d.stream.pos as int)),
        None => spec_find_restart(d.stream.data@, d.stream.pos as int),
    }
}

/// MCUs in one row of the image.
pub open spec fn spec_mcus_per_row(w: u16, hmax: u8) -> int {
    (w + 8 * (hmax as int) - 1) / (8 * (hmax as int))
}

/// MCU rows in the image.
pub open spec fn spec_mcu_rows(hh: u16, vmax: u8) -> int {
    (hh + 8 * (vmax as int) - 1) / (8 * (vmax as int))
}

/// A restart marker is owed: an interval is set, a whole interval of
/// MCUs has been decoded, and more MCUs remain in the image.
pub open spec fn restart_due(d: JPEGDecoder) -> bool {
    &&& d.interval != 0
    &&& (d.mcucount as int) % (d.interval as int) == 0
    &&& (d.mcucount as int) < spec_mcus_per_row(d.width, d.hmax) * spec_mcu_rows(
        d.height,
        d.vmax,
    )
}

/// The next expected restart marker, cycling RST7 back to RST0.
pub open spec fn next_rst(e: u8) -> u8 {
    if e >= 0xD7 {
        0xD0
    } else {
        (e + 1) as u8
    }
}

impl JPEGDecoder {
    /// Take the next restart marker: the cached one if the entropy source
    /// captured it, else by scanning forward in the raw bytes.
    pub fn find_restart_marker(&mut self) -> (r: Result<u8, DecodeError>)
        requires
            old(self).wf(),
        ensures
            final(self).wf(),
            final(self).stream.data@ == old(self).stream.data@,
            block_state_eq(*final(self), *old(self)),
            final(self).mcu@ == old(self).mcu@,
            final(self).bits.acc == old(self).bits.acc,
            final(self).bits.nbits == old(self).bits.nbits,
            final(self).bits.end == old(self).bits.end,
            (match spec_restart_marker(*old(self)) {
                Ok(v) => r == Ok::<u8, DecodeError>(v.0) && final(self).stream.pos == v.1
                    && final(self).bits.marker.is_none(),
                Err(e) => r == Err::<u8, DecodeError>(e),
            }),
    {
        match self.bits.marker {
            Some(mk) => {
                self.bits.marker = None;
                return Ok(mk);
            },
            None => {},
        }
        loop
            invariant
                self.wf(),
                self.stream.data@ == old(self).stream.data@,
                block_state_eq(*self, *old(self)),
                self.mcu@ == old(self).mcu@,
                self.bits == old(self).bits,
                self.bits.marker.is_none(),
                spec_find_restart(self.stream.data@, self.stream.pos as int)
                    == spec_find_restart(old(self).stream.data@, old(self).stream.pos as int),
            decreases self.stream.data@.len() - self.stream.pos,
        {
            let b: u8 = match self.stream.read_u8() {
                Ok(x) => x,
                Err(e) => {
                    return Err(e);
                },
            };
            if b == 0xFF {
                let b2: u8 = match self.stream.read_u8() {
                    Ok(x) => x,
                    Err(e) => {
                        return Err(e);
                    },
                };
                if 0xD0 <= b2 && b2 <= 0xD7 {
                    return Ok(b2);
                }
                if b2 == 0xD9 {
                    return Err(DecodeError::RestartNotFound);
                }
            }
        }
    }

    /// After each MCU, verify and consume a restart marker when one is
    /// owed: the marker must be the expected one in the cyclic order; on
    /// a match the entropy bit state and the DC predictors are reset and
    /// the expected index advances; any other marker is a hard error.
    #[verifier::rlimit(100)]
    pub fn read_restart(&mut self) -> (r: Result<(), DecodeError>)
        requires
            old(self).wf(),
            old(self).state == JPEGState::HaveFirstScan,
        ensures
            final(self).wf(),
            final(self).stream.data@ == old(self).stream.data@,
            final(self).state == old(self).state,
            final(self).mcu@ == old(self).mcu@,
            final(self).mcu_row@ == old(self).mcu_row@,
            final(self).row_count == old(self).row_count,
            final(self).decoded_rows == old(self).decoded_rows,
            final(self).mcucount == old(self).mcucount,
            final(self).width == old(self).width && final(self).height == old(self).height
                && final(self).num_components == old(self).num_components && final(self).hmax
                == old(self).hmax && final(self).vmax == old(self).vmax,
            final(self).padded_width == old(self).padded_width,
            final(self).components@.len() == old(self).components@.len(),
            final(self).dctables == old(self).dctables,
            final(self).actables == old(self).actables,
            final(self).qtables == old(self).qtables,
            final(self).scan_components == old(self).scan_components,
            final(self).interval == old(self).interval,
            !restart_due(*old(self)) ==> r == Ok::<(), DecodeError>(()) && *final(self)
                == *old(self),
            restart_due(*old(self)) ==> (match spec_restart_marker(*old(self)) {
                Ok(v) => if v.0 == old(self).expected_rst {
                    r == Ok::<(), DecodeError>(()) && final(self).stream.pos == v.1
                        && final(self).bits == (BitState {
                        acc: 0u64,
                        nbits: 0u8,
                        end: false,
                        marker: Option::<u8>::None,
                    }) && final(self).expected_rst == next_rst(old(self).expected_rst) && (
                    forall|i: int|
                        0 <= i < old(self).components@.len() ==> final(self).components@[i]
                            == (Component { dc_pred: 0, ..old(self).components@[i] }))
                } else {
                    r == Err::<(), DecodeError>(DecodeError::RestartMismatch(v.0))
                        && final(self).expected_rst == old(self).expected_rst
                        && final(self).components == old(self).components
                        && final(self).bits.acc == old(self).bits.acc
                        && final(self).bits.nbits == old(self).bits.nbits
                        && final(self).bits.end == old(self).bits.end
                },
                Err(e) => r == Err::<(), DecodeError>(e),
            }),
    {
        let fh: u32 = 8 * self.hmax as u32;
        let fv: u32 = 8 * self.vmax as u32;
        let w: u32 = (self.width as u32 + fh - 1) / fh;
        let hr: u32 = (self.height as u32 + fv - 1) / fv;
        proof {
            vstd::arithmetic::div_mod::lemma_div_is_ordered_by_denominator(
                self.width as int + fh as int - 1,
                8,
                fh as int,
            );
            vstd::arithmetic::div_mod::lemma_div_is_ordered_by_denominator(
                self.height as int + fv as int - 1,
                8,
                fv as int,
            );
            assert((w as int) * (hr as int) <= 0x100000000) by (nonlinear_arith)
                requires
                    0 <= w <= 8200,
                    0 <= hr <= 8200,
            ;
        }
        let total: u64 = (w as u64) * (hr as u64);
        if self.interval != 0 && self.mcucount % (self.interval as u64) == 0 && self.mcucount
            < total {
            let rst: u8 = match self.find_restart_marker() {
                Ok(x) => x,
                Err(e) => {
                    return Err(e);
                },
            };
            if rst == self.expected_rst {
                self.reset();
                if self.expected_rst >= 0xD7 {
                    self.expected_rst = 0xD0;
                } else {
                    self.expected_rst = self.expected_rst + 1;
                }
            } else {
                return Err(DecodeError::RestartMismatch(rst));
            }
        }
        Ok(())
    }
}

/// The mathematical image of the whole decoder during scan decoding:
/// the entropy cursor, the per-component predictors, the sample buffers
/// and the bookkeeping counters, beside the tables and geometry the
/// header phase fixed.
#[verifier::ext_equal]
pub ghost struct ScanView {
    pub bytes: Seq<u8>,
    pub pos: int,
    pub acc: nat,
    pub nbits: nat,
    pub end: bool,
    pub marker: Option<u8>,
    pub components: Seq<Component>,
    pub mcu: Seq<u8>,
    pub mcu_row: Seq<u8>,
    pub mcucount: u64,
    pub expected_rst: u8,
    pub row_count: u8,
    pub decoded_rows: u32,
    pub qtables: Seq<u8>,
    pub dctables: Seq<HuffTable>,
    pub actables: Seq<HuffTable>,
    pub scan_components: Seq<u8>,
    pub num_components: u8,
    pub width: u16,
    pub height: u16,
    pub hmax: u8,
    pub vmax: u8,
    pub interval: u16,
    pub padded_width: int,
}

/// The entropy-source part of a scan view.
pub open spec fn sv_src(v: ScanView) -> SrcView {
    SrcView {
        bytes: v.bytes,
        pos: v.pos,
        acc: v.acc,
        nbits: v.nbits,
        end: v.end,
        marker: v.marker,
    }
}

/// A scan view with its entropy-source part replaced.
pub open spec fn sv_set_src(v: ScanView, s: SrcView) -> ScanView {
    ScanView { pos: s.pos, acc: s.acc, nbits: s.nbits, end: s.end, marker: s.marker, ..v }
}

/// The inverse-transformed samples of one coefficient block.
pub open spec fn put_block(mcu: Seq<u8>, i: int, zz: Seq<i16>) -> Seq<u8> {
    Seq::new(
        mcu.len(),
        |k: int|
            if 64 * i <= k < 64 * i + 64 {
                crate::transform::spec_idct(zz, k - 64 * i) as u8
            } else {
                mcu[k]
            },
    )
}

/// Blocks contributed by the first `k` scan components.
pub open spec fn sum_scan(cs: Seq<Component>, scan: Seq<u8>, k: int) -> int
    decreases k,
{
    if k <= 0 {
        0
    } else {
        sum_scan(cs, scan, k - 1) + cs[scan[k - 1] as int].h * cs[scan[k - 1] as int].v
    }
}

/// The `h * v` blocks of component `c`, decoded one after another into
/// MCU slots from `i`, chaining the DC predictor.
#[verifier::opaque]
pub open spec fn sv_comp_blocks(v: ScanView, c: Component, i: int, b: int, pred: int) -> Result<
    (ScanView, int, int),
    DecodeError,
>
    decreases c.h * c.v - b,
{
    if b >= c.h * c.v {
        Ok((v, pred, i))
    } else {
        match spec_decode_block(
            sv_src(v),
            v.dctables[c.dc_table as int],
            v.actables[c.ac_table as int],
            v.qtables,
            64 * (c.tq as int),
            pred,
        ) {
            Err(e) => Err(e),
            Ok(res) => sv_comp_blocks(
                ScanView { mcu: put_block(v.mcu, i, res.1), ..sv_set_src(v, res.2) },
                c,
                i + 1,
                b + 1,
                res.0,
            ),
        }
    }
}

/// The scan components from position `ci` of one MCU, each contributing
/// its blocks and keeping its final DC predictor.
#[verifier::opaque]
pub open spec fn sv_mcu_comps(v: ScanView, ci: int, i: int) -> Result<ScanView, DecodeError>
    decreases v.scan_components.len() - ci,
{
    if ci >= v.scan_components.len() {
        Ok(v)
    } else {
        let idx = v.scan_components[ci] as int;
        let c = v.components[idx];
        match sv_comp_blocks(v, c, i, 0, c.dc_pred as int) {
            Err(e) => Err(e),
            Ok(res) => sv_mcu_comps(
                ScanView {
                    components: res.0.components.update(
                        idx,
                        Component { dc_pred: res.1 as i32, ..c },
                    ),
                    scan_components: v.scan_components,
                    ..res.0
                },
                ci + 1,
                res.2,
            ),
        }
    }
}

/// Where the next restart marker comes from, over a scan view.
pub open spec fn sv_restart_marker(v: ScanView) -> Result<(u8, int), DecodeError> {
    match v.marker {
        Some(mk) => Ok((mk, v.pos)),
        None => spec_find_restart(v.bytes, v.pos),
    }
}

/// A restart marker is owed after this MCU.
pub open spec fn sv_restart_due(v: ScanView) -> bool {
    &&& v.interval != 0
    &&& (v.mcucount as int) % (v.interval as int) == 0
    &&& (v.mcucount as int) < spec_mcus_per_row(v.width, v.hmax) * spec_mcu_rows(
        v.height,
        v.vmax,
    )
}

/// Restart handling after one MCU: when a marker is owed, the expected
/// one resets the entropy state and the DC predictors and advances the
/// cycle; any other marker is a hard error.
#[verifier::opaque]
pub open spec fn sv_read_restart(v: ScanView) -> Result<ScanView, DecodeError> {
    if !sv_restart_due(v) {
        Ok(v)
    } else {
        match sv_restart_marker(v) {
            Err(e) => Err(e),
            Ok((mk, p2)) => if mk == v.expected_rst {
                Ok(
                    ScanView {
                        pos: p2,
                        acc: 0,
                        nbits: 0,
                        end: false,
                        marker: None,
                        components: Seq::new(
                            v.components.len(),
                            |i: int| Component { dc_pred: 0, ..v.components[i] },
                        ),
                        expected_rst: next_rst(v.expected_rst),
                        ..v
                    },
                )
            } else {
                Err(DecodeError::RestartMismatch(mk))
            },
        }
    }
}

/// One whole MCU: every scan component's blocks, the MCU counted, and a
/// due restart marker handled.
#[verifier::opaque]
pub open spec fn sv_decode_mcu(v: ScanView) -> Result<ScanView, DecodeError> {
    match sv_mcu_comps(v, 0, 0) {
        Err(e) => Err(e),
        Ok(v2) => sv_read_restart(
            ScanView {
                mcucount: if v2.mcucount < 0xffffffffffffffff {
                    (v2.mcucount + 1) as u64
                } else {
                    v2.mcucount
                },
                ..v2
            },
        ),
    }
}

/// One full MCU row from byte column `x0`: each MCU decoded and placed
/// into the row buffer.
#[verifier::opaque]
pub open spec fn sv_decode_mcu_row(v: ScanView, x0: int) -> Result<ScanView, DecodeError>
    decreases v.padded_width * (v.num_components as int) - x0,
{
    let rowbytes = v.padded_width * (v.num_components as int);
    if x0 >= rowbytes {
        Ok(v)
    } else {
        match sv_decode_mcu(v) {
            Err(e) => Err(e),
            Ok(v2) => {
                let step0 = (v.num_components as int) * 8 * (v.hmax as int);
                let step = if step0 > 0 {
                    step0
                } else {
                    1
                };
                let x1 = if x0 + step <= rowbytes {
                    x0 + step
                } else {
                    rowbytes
                };
                sv_decode_mcu_row(
                    ScanView {
                        mcu_row: crate::upsample::spec_upsample(
                            v2.mcu_row,
                            x0,
                            v.padded_width,
                            v.num_components as int,
                            v2.mcu,
                            v.hmax as int,
                            v.vmax as int,
                        ),
                        padded_width: v.padded_width,
                        num_components: v.num_components,
                        hmax: v.hmax,
                        vmax: v.vmax,
                        ..v2
                    },
                    x1,
                )
            },
        }
    }
}

/// One scanline: a fresh MCU row is decoded when the buffered one is
/// used up, and the row is the next slice of the row buffer.
#[verifier::opaque]
pub open spec fn sv_read_scanline(v: ScanView) -> Result<(Seq<u8>, ScanView), DecodeError> {
    match (if v.row_count == 0 {
        sv_decode_mcu_row(v, 0)
    } else {
        Ok(v)
    }) {
        Err(e) => Err(e),
        Ok(v1) => {
            let stride = v1.padded_width * (v1.num_components as int);
            let off = (v1.row_count as int) * stride;
            let rl = (v1.width as int) * (v1.num_components as int);
            Ok(
                (
                    v1.mcu_row.subrange(off, off + rl),
                    ScanView {
                        row_count: (((v1.row_count + 1) as int) % (8 * (v1.vmax as int))) as u8,
                        decoded_rows: if v1.decoded_rows < 0xffffffff {
                            (v1.decoded_rows + 1) as u32
                        } else {
                            v1.decoded_rows
                        },
                        ..v1
                    },
                ),
            )
        },
    }
}

/// One scanline request against a row buffer of `blen` bytes: the
/// buffer must hold exactly one row.
pub open spec fn spec_scanline_step(v: ScanView, blen: int) -> Result<
    (Seq<u8>, ScanView),
    DecodeError,
> {
    if blen != (v.width as int) * (v.num_components as int) {
        Err(DecodeError::BadBufferLength)
    } else {
        sv_read_scanline(v)
    }
}

/// The remaining `height - y` scanlines, appended to `out`.
#[verifier::opaque]
pub open spec fn sv_rows(v: ScanView, y: int, out: Seq<u8>) -> Result<
    (Seq<u8>, ScanView),
    DecodeError,
>
    decreases v.height - y,
{
    if y >= v.height {
        Ok((out, v))
    } else {
        match sv_read_scanline(v) {
            Err(e) => Err(e),
            Ok((row, v2)) => sv_rows(
                ScanView { height: v.height, ..v2 },
                y + 1,
                out + row,
            ),
        }
    }
}

/// A scan view compatible with a parsed header state `m` and the
/// counters of the decoder `d` the parse started from: everything is
/// pinned except which table objects carry the parsed (counts, values)
/// pairs.
pub open spec fn sv_compat(v: ScanView, m: MetaView, d: JPEGDecoder) -> bool {
    &&& v.bytes == m.bytes
    &&& v.pos == m.pos
    &&& v.acc == d.bits.acc as nat
    &&& v.nbits == d.bits.nbits as nat
    &&& v.end == d.bits.end
    &&& v.marker == d.bits.marker
    &&& v.components == m.components
    &&& v.mcu == m.mcu
    &&& v.mcu_row == m.mcu_row
    &&& v.mcucount == d.mcucount
    &&& v.expected_rst == d.expected_rst
    &&& v.row_count == d.row_count
    &&& v.decoded_rows == d.decoded_rows
    &&& v.qtables == m.qtables
    &&& v.dctables.len() == 2
    &&& v.actables.len() == 2
    &&& forall|i: int| 0 <= i < 2 ==> (#[trigger] v.dctables[i]).wf()
    &&& forall|i: int| 0 <= i < 2 ==> (#[trigger] v.actables[i]).wf()
    &&& forall|i: int| 0 <= i < 2 ==> table_pair(#[trigger] v.dctables[i]) == m.dctabs[i]
    &&& forall|i: int| 0 <= i < 2 ==> table_pair(#[trigger] v.actables[i]) == m.actabs[i]
    &&& v.scan_components == m.scan_components
    &&& v.num_components == m.num_components
    &&& v.width == m.width
    &&& v.height == m.height
    &&& v.hmax == m.hmax
    &&& v.vmax == m.vmax
    &&& v.interval == m.interval
    &&& v.padded_width == m.padded_width
}

impl JPEGDecoder {
    /// Frame geometry and table state that scan decoding leaves alone.
    pub open spec fn geometry_eq(self, other: JPEGDecoder) -> bool {
        &&& self.stream.data@ == other.stream.data@
        &&& self.qtables == other.qtables
        &&& self.dctables == other.dctables
        &&& self.actables == other.actables
        &&& self.height == other.height
        &&& self.width == other.width
        &&& self.num_components == other.num_components
        &&& self.components@.len() == other.components@.len()
        &&& self.scan_components == other.scan_components
        &&& self.hmax == other.hmax
        &&& self.vmax == other.vmax
        &&& self.interval == other.interval
        &&& self.padded_width == other.padded_width
        &&& self.state == other.state
        &&& self.mcu@.len() == other.mcu@.len()
        &&& self.mcu_row@.len() == other.mcu_row@.len()
    }

    /// The entropy-coded body of one MCU: for every scan component in
    /// order, `h * v` blocks into the MCU buffer, carrying each
    /// component's DC predictor.
    #[verifier::rlimit(100)]
    #[verifier::spinoff_prover]
    fn decode_mcu_blocks(&mut self) -> (r: Result<(), DecodeError>)
        requires
            old(self).wf(),
            old(self).state == JPEGState::HaveFirstScan,
        ensures
            final(self).wf(),
            final(self).geometry_eq(*old(self)),
            final(self).row_count == old(self).row_count,
            final(self).decoded_rows == old(self).decoded_rows,
            final(self).mcucount == old(self).mcucount,
            final(self).expected_rst == old(self).expected_rst,
            final(self).mcu_row@ == old(self).mcu_row@,
            final(self).state == old(self).state,
            (match sv_mcu_comps(old(self).scan_view(), 0, 0) {
                Ok(v2) => r == Ok::<(), DecodeError>(()) && final(self).scan_view() == v2,
                Err(e) => r == Err::<(), DecodeError>(e),
            }),
    {
        let mut i: usize = 0;
        let nsc: usize = self.scan_components.len();
        let ml: usize = self.mcu.len();
        proof {
            assert(sum_scan(self.components@, self.scan_components@, 0) == 0);
        }
        let mut ci: usize = 0;
        let ghost v0 = self.scan_view();
        while ci < nsc
            invariant
                ci <= nsc,
                self.wf(),
                self.state == JPEGState::HaveFirstScan,
                nsc == self.scan_components@.len(),
                self.geometry_eq(*old(self)),
                self.row_count == old(self).row_count,
                self.decoded_rows == old(self).decoded_rows,
                self.mcucount == old(self).mcucount,
                self.expected_rst == old(self).expected_rst,
                self.mcu_row@ == old(self).mcu_row@,
                self.scan_components@ == old(self).scan_components@,
                forall|j: int|
                    0 <= j < self.components@.len() ==> (#[trigger] self.components@[j]).h
                        == old(self).components@[j].h && self.components@[j].v == old(self).components@[j].v,
                i as int == sum_scan(self.components@, self.scan_components@, ci as int),
                64 * (i as int) <= self.mcu@.len(),
                old(self).mcu@.len() <= usize::MAX,
                sv_mcu_comps(self.scan_view(), ci as int, i as int) == sv_mcu_comps(
                    old(self).scan_view(),
                    0,
                    0,
                ),
            decreases nsc - ci,
        {
            let idx: usize = self.scan_components[ci] as usize;
            proof {
                assert(self.scan_components@[ci as int] < self.num_components);
            }
            let c: Component = self.components[idx];
            proof {
                assert(comp_ok(self.components@[idx as int]));
                assert((c.h as int) * (c.v as int) <= 16) by (nonlinear_arith)
                    requires
                        1 <= c.h <= 4,
                        1 <= c.v <= 4,
                ;
                assert forall|j: int|
                    0 <= j < self.components@.len() implies 1 <= (
                #[trigger] self.components@[j]).h && 1 <= self.components@[j].v by {
                    assert(comp_ok(self.components@[j]));
                };
                lemma_sum_scan_bound(
                    self.components@,
                    self.scan_components@,
                    ci + 1,
                    self.num_components as int,
                );
                assert(sum_scan(self.components@, self.scan_components@, ci + 1) == i as int
                    + c.h * c.v);
            }
            let nb: u8 = c.h * c.v;
            let mut pred: i32 = c.dc_pred;
            let mut b: u8 = 0;
            let ghost vcomp = self.scan_view();
            let ghost istart = i as int;
            while b < nb
                invariant
                    b <= nb,
                    nb as int == c.h as int * c.v as int,
                    self.wf(),
                    self.state == JPEGState::HaveFirstScan,
                    self.geometry_eq(*old(self)),
                    self.row_count == old(self).row_count,
                    self.decoded_rows == old(self).decoded_rows,
                    self.mcucount == old(self).mcucount,
                    self.expected_rst == old(self).expected_rst,
                    self.mcu_row@ == old(self).mcu_row@,
                    self.scan_components@ == old(self).scan_components@,
                    self.components@ == vcomp.components,
                    comp_ok(c),
                    -32768 <= pred <= 32767,
                    i as int == istart + b,
                    istart + nb == sum_scan(self.components@, self.scan_components@, ci + 1),
                    istart == sum_scan(self.components@, self.scan_components@, ci as int),
                    64 * sum_scan(self.components@, self.scan_components@, ci + 1)
                        <= self.mcu@.len(),
                    old(self).mcu@.len() <= usize::MAX,
                    ci < nsc,
                    nsc == self.scan_components@.len(),
                    idx == self.scan_components@[ci as int],
                    idx < self.components@.len(),
                    vcomp.scan_components == self.scan_components@,
                    vcomp.scan_components[ci as int] == idx as u8,
                    vcomp.components[idx as int] == c,
                    vcomp.components == self.components@,
                    sv_comp_blocks(self.scan_view(), c, i as int, b as int, pred as int)
                        == sv_comp_blocks(vcomp, c, istart, 0, c.dc_pred as int),
                    sv_mcu_comps(vcomp, ci as int, istart) == sv_mcu_comps(
                        old(self).scan_view(),
                        0,
                        0,
                    ),
                decreases nb - b,
            {
                let ghost vhead = self.scan_view();
                let p2: i32 = match self.decode_block(i, c.dc_table, pred, c.ac_table, c.tq) {
                    Ok(x) => x,
                    Err(e) => {
                        proof {
                            reveal(sv_comp_blocks);
                            reveal(sv_mcu_comps);
                            assert(sv_comp_blocks(vhead, c, i as int, b as int, pred as int)
                                == Err::<(ScanView, int, int), DecodeError>(e));
                            assert(sv_comp_blocks(vcomp, c, istart, 0, c.dc_pred as int)
                                == Err::<(ScanView, int, int), DecodeError>(e));
                            assert(vcomp.scan_components[ci as int] == idx as u8);
                            assert(vcomp.components[idx as int] == c);
                            assert(sv_mcu_comps(vcomp, ci as int, istart) == Err::<
                                ScanView,
                                DecodeError,
                            >(e));
                        }
                        return Err(e);
                    },
                };
                proof {
                    reveal(sv_comp_blocks);
                    let res = spec_decode_block(
                        sv_src(vhead),
                        vhead.dctables[c.dc_table as int],
                        vhead.actables[c.ac_table as int],
                        vhead.qtables,
                        64 * (c.tq as int),
                        pred as int,
                    );
                    assert(self.mcu@ =~= put_block(vhead.mcu, i as int, res->Ok_0.1));
                    assert(self.scan_view() =~= ScanView {
                        mcu: put_block(vhead.mcu, i as int, res->Ok_0.1),
                        ..sv_set_src(vhead, res->Ok_0.2)
                    });
                }
                pred = p2;
                i = i + 1;
                b = b + 1;
            }
            let ghost vblocks = self.scan_view();
            let ghost cpre = self.components@;
            let mut c2: Component = self.components[idx];
            c2.dc_pred = pred;
            self.components[idx] = c2;
            proof {
                reveal(sv_comp_blocks);
                reveal(sv_mcu_comps);
                assert forall|j: int|
                    0 <= j < self.components@.len() implies (#[trigger] self.components@[j]).h
                    == cpre[j].h && self.components@[j].v == cpre[j].v by {}
                lemma_sum_blocks_same_factors(cpre, self.components@);
                lemma_sum_scan_same_factors(
                    cpre,
                    self.components@,
                    self.scan_components@,
                    ci + 1,
                );
                lemma_sum_scan_same_factors(
                    cpre,
                    self.components@,
                    self.scan_components@,
                    ci as int,
                );
                assert(self.components@ =~= vcomp.components.update(
                    idx as int,
                    Component { dc_pred: pred, ..c },
                ));
                assert(self.scan_view() =~= ScanView {
                    components: vcomp.components.update(
                        idx as int,
                        Component { dc_pred: pred, ..c },
                    ),
                    scan_components: vcomp.scan_components,
                    ..vblocks
                });
            }
            ci = ci + 1;
        }
        proof {
            assert(sv_mcu_comps(self.scan_view(), nsc as int, i as int) == Ok::<
                ScanView,
                DecodeError,
            >(self.scan_view())) by {
                reveal(sv_mcu_comps);
            };
        }
        Ok(())
    }

    /// Decode one MCU: its blocks, the MCU counted, and a due restart
    /// marker handled.  The result is the scan-view step function
    /// `sv_decode_mcu` of the old state.
    #[verifier::rlimit(100)]
    pub fn decode_mcu(&mut self) -> (r: Result<(), DecodeError>)
        requires
            old(self).wf(),
            old(self).state == JPEGState::HaveFirstScan,
        ensures
            final(self).wf(),
            final(self).geometry_eq(*old(self)),
            final(self).row_count == old(self).row_count,
            final(self).decoded_rows == old(self).decoded_rows,
            final(self).mcu_row@ == old(self).mcu_row@,
            final(self).state == old(self).state,
            (match sv_decode_mcu(old(self).scan_view()) {
                Ok(v2) => r == Ok::<(), DecodeError>(()) && final(self).scan_view() == v2,
                Err(e) => r == Err::<(), DecodeError>(e),
            }),
    {
        let ghost v0 = self.scan_view();
        match self.decode_mcu_blocks() {
            Ok(()) => {},
            Err(e) => {
                proof {
                    assert(sv_decode_mcu(v0) == Err::<ScanView, DecodeError>(e)) by {
                        reveal(sv_decode_mcu);
                    };
                }
                return Err(e);
            },
        }
        let ghost vdone = self.scan_view();
        if self.mcucount < 0xffffffffffffffff {
            self.mcucount = self.mcucount + 1;
        }
        let ghost vcounted = self.scan_view();
        proof {
            assert(vcounted =~= ScanView {
                mcucount: if vdone.mcucount < 0xffffffffffffffff {
                    (vdone.mcucount + 1) as u64
                } else {
                    vdone.mcucount
                },
                ..vdone
            });
        }
        let ghost dpre = *self;
        let r = self.read_restart();
        proof {
            assert(sv_decode_mcu(v0) == sv_read_restart(vcounted)) by {
                reveal(sv_decode_mcu);
            };
            assert(vcounted == dpre.scan_view());
            assert((match sv_read_restart(vcounted) {
                Ok(v2) => r == Ok::<(), DecodeError>(()) && self.scan_view() == v2,
                Err(e) => r == Err::<(), DecodeError>(e),
            })) by {
                reveal(sv_read_restart);
                assert(sv_restart_due(vcounted) == restart_due(dpre));
                if sv_restart_due(vcounted) {
                    assert(sv_restart_marker(vcounted) == spec_restart_marker(dpre));
                    match sv_restart_marker(vcounted) {
                        Ok(v) => {
                            if v.0 == vcounted.expected_rst {
                                assert(self.components@ =~= Seq::new(
                                    vcounted.components.len(),
                                    |k2: int| Component {
                                        dc_pred: 0,
                                        ..vcounted.components[k2]
                                    },
                                ));
                                match sv_read_restart(vcounted) {
                                    Ok(v3) => {
                                        assert(self.scan_view() =~= v3);
                                    },
                                    Err(_) => {},
                                }
                            }
                        },
                        Err(_) => {},
                    }
                } else {
                    assert(self.scan_view() == vcounted);
                }
            };
        }
        r
    }
}

/// Block sums are never negative.
pub proof fn lemma_sum_blocks_nonneg(cs: Seq<Component>)
    ensures
        sum_blocks(cs) >= 0,
    decreases cs.len(),
{
    if cs.len() > 0 {
        lemma_sum_blocks_nonneg(cs.drop_last());
    }
}

/// An ordered subset of the components holds no more blocks than the
/// whole list: the MCU buffer sized for a full interleave always fits a
/// partial scan.
pub proof fn lemma_sum_scan_bound(cs: Seq<Component>, scan: Seq<u8>, k: int, n: int)
    requires
        0 <= k <= scan.len(),
        n <= cs.len(),
        forall|j: int| 0 <= j < scan.len() ==> #[trigger] scan[j] < n,
        forall|j: int| 0 <= j < scan.len() - 1 ==> #[trigger] scan[j] < scan[j + 1],
        forall|j: int| 0 <= j < cs.len() ==> 1 <= (#[trigger] cs[j]).h && 1 <= cs[j].v,
    ensures
        sum_scan(cs, scan, k) <= sum_blocks(cs),
    decreases k,
{
    if k == 0 {
        lemma_sum_blocks_nonneg(cs);
    } else {
        lemma_sum_scan_below(cs, scan, k);
        lemma_sum_blocks_prefix(cs, scan[k - 1] + 1);
    }
}

/// With strictly increasing scan entries, the first `k` of them hold no
/// more blocks than the components up to the `k`-th entry.
pub proof fn lemma_sum_scan_below(cs: Seq<Component>, scan: Seq<u8>, k: int)
    requires
        1 <= k <= scan.len(),
        scan[k - 1] < cs.len(),
        forall|j: int| 0 <= j < scan.len() - 1 ==> #[trigger] scan[j] < scan[j + 1],
        forall|j: int| 0 <= j < cs.len() ==> 1 <= (#[trigger] cs[j]).h && 1 <= cs[j].v,
    ensures
        sum_scan(cs, scan, k) <= sum_blocks(cs.subrange(0, scan[k - 1] + 1)),
    decreases k,
{
    let e = scan[k - 1] as int;
    assert(cs.subrange(0, e + 1).last() == cs[e]);
    assert(cs.subrange(0, e + 1).drop_last() =~= cs.subrange(0, e));
    assert(sum_scan(cs, scan, 0) == 0);
    if k == 1 {
        lemma_sum_blocks_nonneg(cs.subrange(0, e));
    } else {
        lemma_sum_scan_below(cs, scan, k - 1);
        let e0 = scan[k - 2] as int;
        assert(e0 < e);
        lemma_sum_blocks_prefix_between(cs, e0 + 1, e);
    }
}

/// Block sums over prefixes grow with the prefix.
pub proof fn lemma_sum_blocks_prefix_between(cs: Seq<Component>, a: int, b: int)
    requires
        0 <= a <= b <= cs.len(),
    ensures
        sum_blocks(cs.subrange(0, a)) <= sum_blocks(cs.subrange(0, b)),
    decreases b - a,
{
    if a < b {
        lemma_sum_blocks_prefix_between(cs, a, b - 1);
        assert(cs.subrange(0, b).drop_last() =~= cs.subrange(0, b - 1));
    }
}

/// Replacing DC predictors keeps the blocks a scan prefix holds.
pub proof fn lemma_sum_scan_same_factors(
    a: Seq<Component>,
    b: Seq<Component>,
    scan: Seq<u8>,
    k: int,
)
    requires
        a.len() == b.len(),
        forall|i: int| 0 <= i < a.len() ==> (#[trigger] b[i]).h == a[i].h && b[i].v == a[i].v,
        forall|j: int| 0 <= j < scan.len() ==> #[trigger] scan[j] < a.len(),
        0 <= k <= scan.len(),
    ensures
        sum_scan(a, scan, k) == sum_scan(b, scan, k),
    decreases k,
{
    if k > 0 {
        lemma_sum_scan_same_factors(a, b, scan, k - 1);
    }
}

/// Prefixes of the component list never hold more blocks than the MCU
/// buffer was sized for.
pub proof fn lemma_sum_blocks_prefix(cs: Seq<Component>, k: int)
    requires
        0 <= k <= cs.len(),
        forall|i: int| 0 <= i < cs.len() ==> 1 <= (#[trigger] cs[i]).h && 1 <= cs[i].v,
    ensures
        sum_blocks(cs.subrange(0, k)) <= sum_blocks(cs),
    decreases cs.len() - k,
{
    if k == cs.len() {
        assert(cs.subrange(0, k) =~= cs);
    } else {
        lemma_sum_blocks_prefix(cs, k + 1);
        assert(cs.subrange(0, k + 1).drop_last() =~= cs.subrange(0, k));
        assert(cs.subrange(0, k + 1).last() == cs[k]);
    }
}

impl JPEGDecoder {
    /// Decode one full row of MCUs and place each into the row buffer:
    /// the step function `sv_decode_mcu_row` of the old state.
    #[verifier::rlimit(100)]
    #[verifier::spinoff_prover]
    pub fn decode_mcu_row(&mut self) -> (r: Result<(), DecodeError>)
        requires
            old(self).wf(),
            old(self).state == JPEGState::HaveFirstScan,
        ensures
            final(self).wf(),
            final(self).geometry_eq(*old(self)),
            final(self).row_count == old(self).row_count,
            final(self).decoded_rows == old(self).decoded_rows,
            final(self).state == old(self).state,
            (match sv_decode_mcu_row(old(self).scan_view(), 0) {
                Ok(v2) => r == Ok::<(), DecodeError>(()) && final(self).scan_view() == v2,
                Err(e) => r == Err::<(), DecodeError>(e),
            }),
    {
        let bpp: usize = self.num_components as usize;
        proof {
            assert(8 <= (bpp as int) * 8 * (self.hmax as int) <= 96) by (nonlinear_arith)
                requires
                    1 <= bpp <= 3,
                    1 <= self.hmax <= 4,
            ;
            assert(self.padded_width <= 65566) by {
                vstd::arithmetic::div_mod::lemma_fundamental_div_mod(
                    self.width as int + 8 * (self.hmax as int) - 1,
                    8 * (self.hmax as int),
                );
                vstd::arithmetic::div_mod::lemma_mod_bound(
                    self.width as int + 8 * (self.hmax as int) - 1,
                    8 * (self.hmax as int),
                );
            };
            assert((self.padded_width as int) * (bpp as int) <= 196698) by (nonlinear_arith)
                requires
                    self.padded_width <= 65566,
                    1 <= bpp <= 3,
            ;
        }
        let step: usize = bpp * 8 * (self.hmax as usize);
        let rowbytes: usize = self.padded_width * bpp;
        let ghost q = (self.width + 8 * (self.hmax as int) - 1) / (8 * (self.hmax as int));
        proof {
            assert((self.padded_width as int) * (bpp as int) == (step as int) * q) by (
            nonlinear_arith)
                requires
                    self.padded_width as int == 8 * (self.hmax as int) * q,
                    step as int == (bpp as int) * 8 * (self.hmax as int),
            ;
        }
        let mut x0: usize = 0;
        let ghost mi: int = 0;
        while x0 < rowbytes
            invariant
                self.wf(),
                self.state == JPEGState::HaveFirstScan,
                self.geometry_eq(*old(self)),
                self.row_count == old(self).row_count,
                self.decoded_rows == old(self).decoded_rows,
                bpp == self.num_components as int,
                step as int == (bpp as int) * 8 * (self.hmax as int),
                8 <= step <= 96,
                rowbytes == (self.padded_width as int) * (bpp as int),
                rowbytes as int == (step as int) * q,
                rowbytes <= 196698,
                x0 as int == (step as int) * mi,
                0 <= mi,
                self.padded_width <= 65566,
                sv_decode_mcu_row(self.scan_view(), x0 as int) == sv_decode_mcu_row(
                    old(self).scan_view(),
                    0,
                ),
            decreases rowbytes - x0,
        {
            proof {
                assert(x0 as int + step as int <= rowbytes as int) by (nonlinear_arith)
                    requires
                        x0 as int == (step as int) * mi,
                        rowbytes as int == (step as int) * q,
                        x0 < rowbytes,
                        0 <= mi,
                        step >= 1,
                ;
            }
            let ghost vhead = self.scan_view();
            match self.decode_mcu() {
                Ok(()) => {},
                Err(e) => {
                    proof {
                        assert(sv_decode_mcu_row(vhead, x0 as int) == Err::<
                            ScanView,
                            DecodeError,
                        >(e)) by {
                            reveal(sv_decode_mcu_row);
                        };
                    }
                    return Err(e);
                },
            }
            let ghost vmid = self.scan_view();
            proof {
                if self.num_components == 1 {
                    assert(self.components@[0].h == 1 && self.components@[0].v == 1);
                    assert(sum_blocks(self.components@) == 1) by {
                        assert(self.components@.len() == 1);
                        assert(self.components@.last() == self.components@[0]);
                        assert(self.components@.last().h == 1
                            && self.components@.last().v == 1);
                        assert(self.components@.drop_last().len() == 0);
                        assert(sum_blocks(self.components@.drop_last()) == 0);
                        assert(sum_blocks(self.components@) == 0 + 1 * 1);
                    };
                } else {
                    assert(self.components@.len() == 3);
                    lemma_blocks3(self.components@);
                }
                assert((self.padded_width as int) * (bpp as int) <= 0x10000000) by (
                nonlinear_arith)
                    requires
                        self.padded_width <= 65566,
                        1 <= bpp <= 3,
                ;
                assert(x0 as int + 8 * (self.hmax as int) * (bpp as int) <= (
                self.padded_width as int) * (bpp as int)) by (nonlinear_arith)
                    requires
                        x0 as int + step as int <= rowbytes as int,
                        step as int == (bpp as int) * 8 * (self.hmax as int),
                        rowbytes as int == (self.padded_width as int) * (bpp as int),
                ;
            }
            crate::upsample::upsample_mcu_scalar(
                &mut self.mcu_row,
                x0,
                self.padded_width,
                bpp,
                &self.mcu,
                self.hmax,
                self.vmax,
            );
            proof {
                crate::upsample::lemma_upsample_as_seq(
                    vmid.mcu_row,
                    self.mcu_row@,
                    x0 as int,
                    self.padded_width as int,
                    bpp as int,
                    self.mcu@,
                    self.hmax as int,
                    self.vmax as int,
                );
                assert(sv_decode_mcu_row(self.scan_view(), x0 as int + step as int)
                    == sv_decode_mcu_row(vhead, x0 as int)) by {
                    reveal(sv_decode_mcu_row);
                    assert(self.scan_view() =~= ScanView {
                        mcu_row: crate::upsample::spec_upsample(
                            vmid.mcu_row,
                            x0 as int,
                            vhead.padded_width,
                            vhead.num_components as int,
                            vmid.mcu,
                            vhead.hmax as int,
                            vhead.vmax as int,
                        ),
                        padded_width: vhead.padded_width,
                        num_components: vhead.num_components,
                        hmax: vhead.hmax,
                        vmax: vhead.vmax,
                        ..vmid
                    });
                };
                assert(x0 as int + step as int == (step as int) * (mi + 1)) by (
                nonlinear_arith)
                    requires
                        x0 as int == (step as int) * mi,
                ;
            }
            x0 = x0 + step;
            proof {
                mi = mi + 1;
            }
        }
        proof {
            assert(sv_decode_mcu_row(self.scan_view(), x0 as int) == Ok::<
                ScanView,
                DecodeError,
            >(self.scan_view())) by {
                reveal(sv_decode_mcu_row);
            };
        }
        Ok(())
    }

    /// Produce the next decoded row into `buf` (grayscale: 1 byte per
    /// pixel; RGB: 3), parsing the headers on first use.  Rows come back
    /// strictly top to bottom; the result is the count of rows handed
    /// out so far, and the row itself is the step function
    /// `sv_read_scanline` of the scan state.
    #[verifier::rlimit(100)]
    #[verifier::spinoff_prover]
    pub fn read_scanline(&mut self, buf: &mut Vec<u8>) -> (r: Result<u32, DecodeError>)
        requires
            old(self).wf(),
        ensures
            final(self).wf(),
            final(self).stream.data@ == old(self).stream.data@,
            final(buf)@.len() == old(buf)@.len(),
            r is Ok ==> final(self).state == JPEGState::HaveFirstScan,
            old(self).state == JPEGState::HaveFirstScan ==> final(self).width == old(self).width && final(self).height == old(self).height && final(self).num_components
                == old(self).num_components && final(self).state == old(self).state,
            old(self).state == JPEGState::HaveFirstScan ==> (match spec_scanline_step(
                old(self).scan_view(),
                old(buf)@.len() as int,
            ) {
                Ok(v) => r == Ok::<u32, DecodeError>(v.1.decoded_rows)
                    && final(self).scan_view() == v.1 && final(buf)@ == v.0,
                Err(e) => r == Err::<u32, DecodeError>(e),
            }),
            old(self).state != JPEGState::HaveFirstScan ==> (match mv_metadata(
                old(self).meta_view(),
            ) {
                Err(e) => r == Err::<u32, DecodeError>(e),
                Ok(m2) => exists|v0: ScanView|
                    sv_compat(v0, m2, *old(self)) && (match spec_scanline_step(
                        v0,
                        old(buf)@.len() as int,
                    ) {
                        Ok(v) => r == Ok::<u32, DecodeError>(v.1.decoded_rows)
                            && final(self).scan_view() == v.1 && final(buf)@ == v.0,
                        Err(e) => r == Err::<u32, DecodeError>(e),
                    }),
            }),
    {
        let ghost started = !matches!(self.state, JPEGState::HaveFirstScan);
        if !matches!(self.state, JPEGState::HaveFirstScan) {
            match self.read_metadata() {
                Ok(()) => {},
                Err(e) => {
                    return Err(e);
                },
            }
        }
        let ghost dentry = *self;
        let ghost ventry = self.scan_view();
        let ghost m2 = self.meta_view();
        let bpp: usize = self.num_components as usize;
        proof {
            assert((self.width as int) * (bpp as int) <= 196605) by (nonlinear_arith)
                requires
                    self.width <= 65535,
                    1 <= bpp <= 3,
            ;
        }
        let rl: usize = (self.width as usize) * bpp;
        if buf.len() != rl {
            proof {
                if started {
                    lemma_compat_entry(dentry, *old(self));
                }
            }
            return Err(DecodeError::BadBufferLength);
        }
        if self.row_count == 0 {
            match self.decode_mcu_row() {
                Ok(()) => {},
                Err(e) => {
                    proof {
                        if started {
                    lemma_compat_entry(dentry, *old(self));
                }
                        assert(spec_scanline_step(ventry, rl as int) == Err::<
                            (Seq<u8>, ScanView),
                            DecodeError,
                        >(e)) by {
                            reveal(sv_read_scanline);
                        };
                    }
                    return Err(e);
                },
            }
        }
        let ghost vrow = self.scan_view();
        proof {
            assert(self.padded_width <= 65566) by {
                vstd::arithmetic::div_mod::lemma_fundamental_div_mod(
                    self.width as int + 8 * (self.hmax as int) - 1,
                    8 * (self.hmax as int),
                );
                vstd::arithmetic::div_mod::lemma_mod_bound(
                    self.width as int + 8 * (self.hmax as int) - 1,
                    8 * (self.hmax as int),
                );
            };
            assert((self.padded_width as int) * (bpp as int) <= 196698) by (nonlinear_arith)
                requires
                    self.padded_width <= 65566,
                    1 <= bpp <= 3,
            ;
            assert(self.width <= self.padded_width) by {
                vstd::arithmetic::div_mod::lemma_fundamental_div_mod(
                    self.width as int + 8 * (self.hmax as int) - 1,
                    8 * (self.hmax as int),
                );
                vstd::arithmetic::div_mod::lemma_mod_bound(
                    self.width as int + 8 * (self.hmax as int) - 1,
                    8 * (self.hmax as int),
                );
            };
        }
        let stride: usize = self.padded_width * bpp;
        proof {
            assert((self.row_count as int) * (stride as int) + stride as int <= (
            self.padded_width as int) * (self.num_components as int) * 8 * (
            self.vmax as int)) by (nonlinear_arith)
                requires
                    stride as int == (self.padded_width as int) * (bpp as int),
                    bpp == self.num_components as int,
                    (self.row_count as int) < 8 * (self.vmax as int),
                    0 <= self.row_count,
                    stride >= 0,
                    1 <= self.vmax <= 4,
            ;
            assert((self.width as int) * (bpp as int) <= stride as int) by (nonlinear_arith)
                requires
                    stride as int == (self.padded_width as int) * (bpp as int),
                    self.width <= self.padded_width,
                    bpp >= 0,
            ;
        }
        let mrl2: usize = self.mcu_row.len();
        let off: usize = (self.row_count as usize) * stride;
        let mut ii: usize = 0;
        let ghost off0 = off as int;
        while ii < rl
            invariant
                ii <= rl,
                off as int == off0,
                off + rl <= self.mcu_row@.len(),
                self.mcu_row@.len() <= usize::MAX,
                buf@.len() == rl,
                forall|i: int| 0 <= i < ii ==> #[trigger] buf@[i] == self.mcu_row@[off0 + i],
                self.wf(),
            decreases rl - ii,
        {
            let b: u8 = self.mcu_row[off + ii];
            buf[ii] = b;
            ii = ii + 1;
        }
        proof {
            assert(buf@ =~= self.mcu_row@.subrange(off0, off0 + rl as int));
        }
        let rc2: u8 = (self.row_count + 1) % (8 * self.vmax);
        self.row_count = rc2;
        if self.decoded_rows < 0xffffffff {
            self.decoded_rows = self.decoded_rows + 1;
        }
        proof {
            if started {
                lemma_compat_entry(dentry, *old(self));
            }
            assert((match spec_scanline_step(ventry, rl as int) {
                Ok(v) => self.scan_view() == v.1 && buf@ == v.0 && v.1.decoded_rows
                    == self.decoded_rows,
                Err(_) => false,
            })) by {
                reveal(sv_read_scanline);
                assert(buf@ == vrow.mcu_row.subrange(off0, off0 + rl as int));
                assert(self.scan_view() =~= ScanView {
                    row_count: (((vrow.row_count + 1) as int) % (8 * (
                    vrow.vmax as int))) as u8,
                    decoded_rows: if vrow.decoded_rows < 0xffffffff {
                        (vrow.decoded_rows + 1) as u32
                    } else {
                        vrow.decoded_rows
                    },
                    ..vrow
                });
            };
        }
        Ok(self.decoded_rows)
    }

    /// Decode the whole image into one flat buffer of interleaved
    /// samples, row by row: the step function `sv_rows` of the scan
    /// state, over the whole image height.
    #[verifier::rlimit(100)]
    #[verifier::spinoff_prover]
    pub fn read_image(&mut self) -> (r: Result<Vec<u8>, DecodeError>)
        requires
            old(self).wf(),
        ensures
            final(self).wf(),
            final(self).stream.data@ == old(self).stream.data@,
            old(self).state == JPEGState::HaveFirstScan ==> (match sv_rows(
                old(self).scan_view(),
                0,
                Seq::empty(),
            ) {
                Ok(v) => r is Ok && (r matches Ok(img) ==> img@ == v.0)
                    && final(self).scan_view() == v.1,
                Err(e) => r == Err::<Vec<u8>, DecodeError>(e),
            }),
            old(self).state != JPEGState::HaveFirstScan ==> (match mv_metadata(
                old(self).meta_view(),
            ) {
                Err(e) => r == Err::<Vec<u8>, DecodeError>(e),
                Ok(m2) => exists|v0: ScanView|
                    sv_compat(v0, m2, *old(self)) && (match sv_rows(v0, 0, Seq::empty()) {
                        Ok(v) => r is Ok && (r matches Ok(img) ==> img@ == v.0)
                            && final(self).scan_view() == v.1,
                        Err(e) => r == Err::<Vec<u8>, DecodeError>(e),
                    }),
            }),
    {
        let ghost started = !matches!(self.state, JPEGState::HaveFirstScan);
        if !matches!(self.state, JPEGState::HaveFirstScan) {
            match self.read_metadata() {
                Ok(()) => {},
                Err(e) => {
                    return Err(e);
                },
            }
        }
        let ghost dentry = *self;
        let ghost ventry = self.scan_view();
        let ghost m2 = self.meta_view();
        let bpp: usize = self.num_components as usize;
        proof {
            assert((self.width as int) * (bpp as int) <= 196605) by (nonlinear_arith)
                requires
                    self.width <= 65535,
                    1 <= bpp <= 3,
            ;
        }
        let row: usize = (self.width as usize) * bpp;
        let hh: u16 = self.height;
        let mut out: Vec<u8> = Vec::new();
        let mut rowbuf: Vec<u8> = zero_vec(row);
        proof {
            if started {
                lemma_compat_entry(dentry, *old(self));
            }
        }
        let mut y: u16 = 0;
        while y < hh
            invariant
                y <= hh,
                self.wf(),
                self.stream.data@ == old(self).stream.data@,
                self.state == JPEGState::HaveFirstScan,
                started == (old(self).state != JPEGState::HaveFirstScan),
                started ==> sv_compat(ventry, m2, *old(self)),
                started ==> mv_metadata(old(self).meta_view()) == Ok::<MetaView, DecodeError>(
                    m2,
                ),
                !started ==> ventry == old(self).scan_view(),
                rowbuf@.len() == row,
                out@.len() == (y as int) * (row as int),
                row <= 196605,
                row as int == (self.width as int) * (bpp as int),
                bpp == self.num_components as int,
                hh == self.height,
                hh == ventry.height,
                sv_rows(self.scan_view(), y as int, out@) == sv_rows(ventry, 0, Seq::empty()),
            decreases hh - y,
        {
            let ghost vhead = self.scan_view();
            let ghost outpre = out@;
            match self.read_scanline(&mut rowbuf) {
                Ok(_n) => {},
                Err(e) => {
                    proof {
                        assert(sv_rows(vhead, y as int, outpre) == Err::<
                            (Seq<u8>, ScanView),
                            DecodeError,
                        >(e)) by {
                            reveal(sv_rows);
                        };
                    }
                    return Err(e);
                },
            }
            let mut jj: usize = 0;
            while jj < row
                invariant
                    jj <= row,
                    rowbuf@.len() == row,
                    out@.len() == (y as int) * (row as int) + jj,
                    out@ =~= outpre + rowbuf@.subrange(0, jj as int),
                    outpre.len() == (y as int) * (row as int),
                    row <= 196605,
                    y < hh,
                decreases row - jj,
            {
                let b: u8 = rowbuf[jj];
                out.push(b);
                jj = jj + 1;
            }
            proof {
                assert(out@ =~= outpre + rowbuf@);
                assert(sv_rows(self.scan_view(), y as int + 1, out@) == sv_rows(
                    vhead,
                    y as int,
                    outpre,
                )) by {
                    reveal(sv_rows);
                    assert(self.scan_view() =~= ScanView { height: vhead.height, ..self.scan_view() });
                };
                assert((y as int) * (row as int) + row == (y as int + 1) * (row as int)) by (
                nonlinear_arith);
            }
            y = y + 1;
        }
        proof {
            assert(sv_rows(self.scan_view(), y as int, out@) == Ok::<
                (Seq<u8>, ScanView),
                DecodeError,
            >((out@, self.scan_view()))) by {
                reveal(sv_rows);
            };
            if started {
                lemma_compat_entry(dentry, *old(self));
            }
        }
        Ok(out)
    }
}

/// At the moment scan decoding starts, the decoder's scan view is
/// compatible with its parsed header state and the counters it started
/// from: the witness for the scanline and image contracts.
pub proof fn lemma_compat_entry(dnow: JPEGDecoder, d0: JPEGDecoder)
    requires
        dnow.wf(),
        dnow.scan_state_eq(d0),
    ensures
        sv_compat(dnow.scan_view(), dnow.meta_view(), d0),
{
    assert forall|i: int|
        0 <= i < 2 implies (#[trigger] dnow.scan_view().dctables[i]).wf()
        && dnow.scan_view().actables[i].wf() by {
        assert(dnow.scan_view().dctables[i] == dnow.dctables@[i]);
        assert(dnow.scan_view().actables[i] == dnow.actables@[i]);
    };
    assert forall|i: int|
        0 <= i < 2 implies table_pair(#[trigger] dnow.scan_view().dctables[i])
        == dnow.meta_view().dctabs[i] && table_pair(dnow.scan_view().actables[i])
        == dnow.meta_view().actabs[i] by {
        assert(dnow.scan_view().dctables[i] == dnow.dctables@[i]);
        assert(dnow.scan_view().actables[i] == dnow.actables@[i]);
    };
}

/// Three components with 1x1 chroma hold the luma blocks plus one block
/// for each chroma plane.
pub proof fn lemma_blocks3(cs: Seq<Component>)
    requires
        cs.len() == 3,
        cs[1].h == 1 && cs[1].v == 1 && cs[2].h == 1 && cs[2].v == 1,
    ensures
        sum_blocks(cs) == cs[0].h * cs[0].v + 2,
{
    let c2 = cs.drop_last();
    let c1 = c2.drop_last();
    let c0 = c1.drop_last();
    assert(c0.len() == 0);
    assert(sum_blocks(c0) == 0);
    assert(c1.last() == cs[0] && c1.len() == 1);
    assert(c2.last() == cs[1] && c2.len() == 2);
    assert(cs.last() == cs[2]);
    assert(sum_blocks(c1) == cs[0].h * cs[0].v);
    assert(sum_blocks(c2) == cs[0].h * cs[0].v + 1);
}

/// Every decoder field agrees but the byte cursor: what a parser that
/// failed before committing anything leaves behind.
pub open spec fn eq_except_pos(a: JPEGDecoder, b: JPEGDecoder) -> bool {
    &&& a.stream.data@ == b.stream.data@
    &&& a.bits == b.bits
    &&& a.qtables == b.qtables
    &&& a.dctables == b.dctables
    &&& a.actables == b.actables
    &&& a.height == b.height
    &&& a.width == b.width
    &&& a.num_components == b.num_components
    &&& a.components == b.components
    &&& a.scan_components == b.scan_components
    &&& a.mcu_row == b.mcu_row
    &&& a.mcu == b.mcu
    &&& a.hmax == b.hmax
    &&& a.vmax == b.vmax
    &&& a.interval == b.interval
    &&& a.mcucount == b.mcucount
    &&& a.expected_rst == b.expected_rst
    &&& a.row_count == b.row_count
    &&& a.decoded_rows == b.decoded_rows
    &&& a.padded_width == b.padded_width
    &&& a.state == b.state
}

/// Every decoder field except the quantization tables agrees.
pub open spec fn eq_but_qtables(a: JPEGDecoder, b: JPEGDecoder) -> bool {
    &&& a.stream == b.stream
    &&& a.bits == b.bits
    &&& a.dctables == b.dctables
    &&& a.actables == b.actables
    &&& a.height == b.height
    &&& a.width == b.width
    &&& a.num_components == b.num_components
    &&& a.components == b.components
    &&& a.scan_components == b.scan_components
    &&& a.mcu_row == b.mcu_row
    &&& a.mcu == b.mcu
    &&& a.hmax == b.hmax
    &&& a.vmax == b.vmax
    &&& a.interval == b.interval
    &&& a.mcucount == b.mcucount
    &&& a.expected_rst == b.expected_rst
    &&& a.row_count == b.row_count
    &&& a.decoded_rows == b.decoded_rows
    &&& a.padded_width == b.padded_width
    &&& a.state == b.state
}

/// Two component sequences that differ only in DC predictors have the
/// same block count and factor folds.
pub open spec fn sum_blocks_pred_irrelevant(a: Seq<Component>, b: Seq<Component>) -> bool {
    sum_blocks(a) == sum_blocks(b) && fold_hmax(a) == fold_hmax(b) && fold_vmax(a) == fold_vmax(
        b,
    )
}

/// Replacing DC predictors cell by cell keeps the block count and the
/// factor folds.
pub proof fn lemma_sum_blocks_same_factors(a: Seq<Component>, b: Seq<Component>)
    requires
        a.len() == b.len(),
        forall|i: int| 0 <= i < a.len() ==> (#[trigger] b[i]).h == a[i].h && b[i].v == a[i].v,
    ensures
        sum_blocks_pred_irrelevant(a, b),
    decreases a.len(),
{
    if a.len() > 0 {
        lemma_sum_blocks_same_factors(a.drop_last(), b.drop_last());
        assert(a.last() == a[a.len() - 1]);
        assert(b.last() == b[a.len() - 1]);
    }
}

/// Two decode-ready tables with the same array views: they decode every
/// bit pattern alike.
pub open spec fn tv_eq(t1: HuffTable, t2: HuffTable) -> bool {
    &&& t1.mincode@ == t2.mincode@
    &&& t1.maxcode@ == t2.maxcode@
    &&& t1.valptr@ == t2.valptr@
    &&& t1.vals@ == t2.vals@
}

/// A well-formed table's arrays are determined by its (counts, values)
/// pair: the counts give each length's range and the chains of the
/// well-formedness recurrences leave no freedom.
pub proof fn lemma_pair_determines_views(t1: HuffTable, t2: HuffTable)
    requires
        t1.wf(),
        t2.wf(),
        table_pair(t1) == table_pair(t2),
    ensures
        tv_eq(t1, t2),
{
    assert forall|i: int| 0 <= i < 16 implies t1.maxcode@[i] + 1 - t1.mincode@[i]
        == t2.maxcode@[i] + 1 - t2.mincode@[i] by {
        assert(table_counts(t1)[i] == table_counts(t2)[i]);
    };
    lemma_views_upto(t1, t2, 15);
    assert(t1.mincode@ =~= t2.mincode@);
    assert(t1.maxcode@ =~= t2.maxcode@);
    assert(t1.valptr@ =~= t2.valptr@);
}

/// The array entries up to length `i + 1` agree, by the recurrences.
proof fn lemma_views_upto(t1: HuffTable, t2: HuffTable, i: int)
    requires
        t1.wf(),
        t2.wf(),
        0 <= i < 16,
        forall|j: int|
            0 <= j < 16 ==> t1.maxcode@[j] + 1 - t1.mincode@[j] == t2.maxcode@[j] + 1
                - t2.mincode@[j],
    ensures
        forall|j: int|
            0 <= j <= i ==> t1.mincode@[j] == t2.mincode@[j] && t1.maxcode@[j]
                == t2.maxcode@[j] && t1.valptr@[j] == t2.valptr@[j],
    decreases i,
{
    if i > 0 {
        lemma_views_upto(t1, t2, i - 1);
        assert(t1.mincode@[(i - 1) + 1] == (t1.maxcode@[i - 1] + 1) * 2);
        assert(t2.mincode@[(i - 1) + 1] == (t2.maxcode@[i - 1] + 1) * 2);
        assert(t1.valptr@[(i - 1) + 1] == t1.valptr@[i - 1] + (t1.maxcode@[i - 1] + 1
            - t1.mincode@[i - 1]));
        assert(t2.valptr@[(i - 1) + 1] == t2.valptr@[i - 1] + (t2.maxcode@[i - 1] + 1
            - t2.mincode@[i - 1]));
    }
}

/// Symbol decoding sees a table only through its arrays.
proof fn lemma_decode_from_eq(v: SrcView, t1: HuffTable, t2: HuffTable, l: int, code: int)
    requires
        tv_eq(t1, t2),
    ensures
        crate::huffman::spec_decode_from(v, t1, l, code) == crate::huffman::spec_decode_from(
            v,
            t2,
            l,
            code,
        ),
    decreases 16 - l,
{
    if l < 16 {
        match spec_receive(v, 1) {
            Err(_) => {},
            Ok((bit, v1)) => {
                lemma_decode_from_eq(v1, t1, t2, l + 1, code * 2 + bit);
            },
        }
    }
}

/// Block decoding sees its tables only through their arrays.
proof fn lemma_decode_coeffs_eq(
    v: SrcView,
    a1: HuffTable,
    a2: HuffTable,
    q: Seq<u8>,
    qb: int,
    k: int,
    zz: Seq<i16>,
)
    requires
        tv_eq(a1, a2),
    ensures
        spec_decode_coeffs(v, a1, q, qb, k, zz) == spec_decode_coeffs(v, a2, q, qb, k, zz),
    decreases 64 - k,
{
    if k < 64 {
        lemma_decode_from_eq(v, a1, a2, 0, 0);
        match spec_decode_symbol(v, a1) {
            Err(_) => {},
            Ok((rs, v1)) => {
                let ssss = rs % 16;
                let rrrr = rs / 16;
                if ssss == 0 {
                    if rrrr == 15 {
                        lemma_decode_coeffs_eq(
                            v1,
                            a1,
                            a2,
                            q,
                            qb,
                            if k + 16 < 64 {
                                k + 16
                            } else {
                                64
                            },
                            zz,
                        );
                    }
                } else {
                    let k2 = k + rrrr;
                    if k2 <= 63 {
                        match spec_receive(v1, ssss as nat) {
                            Err(_) => {},
                            Ok((t, v2)) => {
                                lemma_decode_coeffs_eq(
                                    v2,
                                    a1,
                                    a2,
                                    q,
                                    qb,
                                    k2 + 1,
                                    zz.update(
                                        spec_unzigzag(k2),
                                        spec_wrap_i16(
                                            spec_extend(t as int, ssss as nat) * q[qb + k2],
                                        ) as i16,
                                    ),
                                );
                            },
                        }
                    }
                }
            },
        }
    }
}

/// One block decodes alike against tables with equal arrays.
proof fn lemma_decode_block_eq(
    v: SrcView,
    d1: HuffTable,
    d2: HuffTable,
    a1: HuffTable,
    a2: HuffTable,
    q: Seq<u8>,
    qb: int,
    pred: int,
)
    requires
        tv_eq(d1, d2),
        tv_eq(a1, a2),
    ensures
        spec_decode_block(v, d1, a1, q, qb, pred) == spec_decode_block(v, d2, a2, q, qb, pred),
{
    lemma_decode_from_eq(v, d1, d2, 0, 0);
    match spec_decode_symbol(v, d1) {
        Err(_) => {},
        Ok((t, v1)) => {
            if t <= 16 {
                match spec_receive(v1, t as nat) {
                    Err(_) => {},
                    Ok((draw, v2)) => {
                        let dc = spec_wrap_i16(pred + spec_extend(draw as int, t as nat));
                        lemma_decode_coeffs_eq(
                            v2,
                            a1,
                            a2,
                            q,
                            qb,
                            1,
                            Seq::new(64, |i: int| 0i16).update(0, dc as i16),
                        );
                    },
                }
            }
        },
    }
}

/// Two scan views that agree everywhere except in which table objects
/// carry the same decode arrays.
pub open spec fn sv_sim(a: ScanView, b: ScanView) -> bool {
    &&& a.bytes == b.bytes
    &&& a.pos == b.pos
    &&& a.acc == b.acc
    &&& a.nbits == b.nbits
    &&& a.end == b.end
    &&& a.marker == b.marker
    &&& a.components == b.components
    &&& a.mcu == b.mcu
    &&& a.mcu_row == b.mcu_row
    &&& a.mcucount == b.mcucount
    &&& a.expected_rst == b.expected_rst
    &&& a.row_count == b.row_count
    &&& a.decoded_rows == b.decoded_rows
    &&& a.qtables == b.qtables
    &&& a.dctables.len() == 2 && b.dctables.len() == 2
    &&& a.actables.len() == 2 && b.actables.len() == 2
    &&& forall|i: int| 0 <= i < 2 ==> tv_eq(#[trigger] a.dctables[i], b.dctables[i])
    &&& forall|i: int| 0 <= i < 2 ==> tv_eq(#[trigger] a.actables[i], b.actables[i])
    &&& a.scan_components == b.scan_components
    &&& a.num_components == b.num_components
    &&& a.width == b.width
    &&& a.height == b.height
    &&& a.hmax == b.hmax
    &&& a.vmax == b.vmax
    &&& a.interval == b.interval
    &&& a.padded_width == b.padded_width
}

/// The scan uses only declared components with in-range selectors.
pub open spec fn sv_scan_ok(a: ScanView) -> bool {
    &&& forall|j: int|
        0 <= j < a.scan_components.len() ==> (#[trigger] a.scan_components[j] as int)
            < a.components.len()
    &&& forall|j: int|
        0 <= j < a.components.len() ==> (#[trigger] a.components[j]).dc_table <= 1
            && a.components[j].ac_table <= 1
}

proof fn lemma_comp_blocks_sim(a: ScanView, b: ScanView, c: Component, i: int, bb: int, pred: int)
    requires
        sv_sim(a, b),
        c.dc_table <= 1,
        c.ac_table <= 1,
    ensures
        (match (sv_comp_blocks(a, c, i, bb, pred), sv_comp_blocks(b, c, i, bb, pred)) {
            (Ok(x), Ok(y)) => sv_sim(x.0, y.0) && x.1 == y.1 && x.2 == y.2 && x.0.components
                == a.components && x.0.scan_components == a.scan_components
                && x.0.num_components == a.num_components && x.0.padded_width
                == a.padded_width && x.0.hmax == a.hmax && x.0.vmax == a.vmax
                && x.0.height == a.height,
            (Err(e1), Err(e2)) => e1 == e2,
            _ => false,
        }),
    decreases c.h * c.v - bb,
{
    reveal(sv_comp_blocks);
    if bb < c.h * c.v {
        assert(tv_eq(a.dctables[c.dc_table as int], b.dctables[c.dc_table as int]));
        assert(tv_eq(a.actables[c.ac_table as int], b.actables[c.ac_table as int]));
        lemma_decode_block_eq(
            sv_src(a),
            a.dctables[c.dc_table as int],
            b.dctables[c.dc_table as int],
            a.actables[c.ac_table as int],
            b.actables[c.ac_table as int],
            a.qtables,
            64 * (c.tq as int),
            pred,
        );
        match spec_decode_block(
            sv_src(a),
            a.dctables[c.dc_table as int],
            a.actables[c.ac_table as int],
            a.qtables,
            64 * (c.tq as int),
            pred,
        ) {
            Err(_) => {},
            Ok(res) => {
                lemma_comp_blocks_sim(
                    ScanView { mcu: put_block(a.mcu, i, res.1), ..sv_set_src(a, res.2) },
                    ScanView { mcu: put_block(b.mcu, i, res.1), ..sv_set_src(b, res.2) },
                    c,
                    i + 1,
                    bb + 1,
                    res.0,
                );
            },
        }
    }
}

proof fn lemma_mcu_comps_sim(a: ScanView, b: ScanView, ci: int, i: int)
    requires
        sv_sim(a, b),
        sv_scan_ok(a),
        0 <= ci,
    ensures
        (match (sv_mcu_comps(a, ci, i), sv_mcu_comps(b, ci, i)) {
            (Ok(x), Ok(y)) => sv_sim(x, y) && sv_scan_ok(x) && x.num_components
                == a.num_components && x.padded_width == a.padded_width && x.hmax == a.hmax
                && x.vmax == a.vmax && x.height == a.height,
            (Err(e1), Err(e2)) => e1 == e2,
            _ => false,
        }),
    decreases a.scan_components.len() - ci,
{
    reveal(sv_mcu_comps);
    if 0 <= ci < a.scan_components.len() {
        let idx = a.scan_components[ci] as int;
        let c = a.components[idx];
        lemma_comp_blocks_sim(a, b, c, i, 0, c.dc_pred as int);
        match sv_comp_blocks(a, c, i, 0, c.dc_pred as int) {
            Err(_) => {},
            Ok(res) => {
                match sv_comp_blocks(b, c, i, 0, c.dc_pred as int) {
                    Err(_) => {},
                    Ok(res2) => {
                        let a2 = ScanView {
                            components: res.0.components.update(
                                idx,
                                Component { dc_pred: res.1 as i32, ..c },
                            ),
                            scan_components: a.scan_components,
                            ..res.0
                        };
                        let b2 = ScanView {
                            components: res2.0.components.update(
                                idx,
                                Component { dc_pred: res2.1 as i32, ..c },
                            ),
                            scan_components: b.scan_components,
                            ..res2.0
                        };
                        assert(sv_sim(a2, b2));
                        assert(sv_scan_ok(a2)) by {
                            assert forall|j: int|
                                0 <= j < a2.components.len()
                                    implies (#[trigger] a2.components[j]).dc_table <= 1
                                && a2.components[j].ac_table <= 1 by {
                                if j != idx {
                                    assert(a2.components[j] == a.components[j]);
                                } else {
                                    assert(a2.components[j] == Component {
                                        dc_pred: res.1 as i32,
                                        ..c
                                    });
                                }
                            };
                        };
                        lemma_mcu_comps_sim(a2, b2, ci + 1, res.2);
                    },
                }
            },
        }
    }
}

proof fn lemma_decode_mcu_sim(a: ScanView, b: ScanView)
    requires
        sv_sim(a, b),
        sv_scan_ok(a),
    ensures
        (match (sv_decode_mcu(a), sv_decode_mcu(b)) {
            (Ok(x), Ok(y)) => sv_sim(x, y) && sv_scan_ok(x) && x.num_components
                == a.num_components && x.padded_width == a.padded_width && x.hmax == a.hmax
                && x.vmax == a.vmax && x.height == a.height,
            (Err(e1), Err(e2)) => e1 == e2,
            _ => false,
        }),
{
    reveal(sv_decode_mcu);
    reveal(sv_read_restart);
    lemma_mcu_comps_sim(a, b, 0, 0);
    match (sv_mcu_comps(a, 0, 0), sv_mcu_comps(b, 0, 0)) {
        (Ok(x), Ok(y)) => {
            let xc = ScanView {
                mcucount: if x.mcucount < 0xffffffffffffffff {
                    (x.mcucount + 1) as u64
                } else {
                    x.mcucount
                },
                ..x
            };
            if sv_restart_due(xc) {
                match sv_restart_marker(xc) {
                    Ok(v) => {
                        if v.0 == xc.expected_rst {
                            let cs2 = Seq::new(
                                xc.components.len(),
                                |k2: int| Component { dc_pred: 0, ..xc.components[k2] },
                            );
                            assert forall|j: int|
                                0 <= j < cs2.len() implies (#[trigger] cs2[j]).dc_table <= 1
                                && cs2[j].ac_table <= 1 by {
                                assert(xc.components[j].dc_table <= 1
                                    && xc.components[j].ac_table <= 1);
                            };
                        }
                    },
                    Err(_) => {},
                }
            }
        },
        _ => {},
    }
}

proof fn lemma_mcu_row_sim(a: ScanView, b: ScanView, x0: int)
    requires
        sv_sim(a, b),
        sv_scan_ok(a),
    ensures
        (match (sv_decode_mcu_row(a, x0), sv_decode_mcu_row(b, x0)) {
            (Ok(x), Ok(y)) => sv_sim(x, y) && sv_scan_ok(x) && x.height == a.height,
            (Err(e1), Err(e2)) => e1 == e2,
            _ => false,
        }),
    decreases a.padded_width * (a.num_components as int) - x0,
{
    reveal(sv_decode_mcu_row);
    let rowbytes = a.padded_width * (a.num_components as int);
    if x0 < rowbytes {
        lemma_decode_mcu_sim(a, b);
        match (sv_decode_mcu(a), sv_decode_mcu(b)) {
            (Ok(v2a), Ok(v2b)) => {
                let step0 = (a.num_components as int) * 8 * (a.hmax as int);
                let step = if step0 > 0 {
                    step0
                } else {
                    1
                };
                let x1 = if x0 + step <= rowbytes {
                    x0 + step
                } else {
                    rowbytes
                };
                let a2 = ScanView {
                    mcu_row: crate::upsample::spec_upsample(
                        v2a.mcu_row,
                        x0,
                        a.padded_width,
                        a.num_components as int,
                        v2a.mcu,
                        a.hmax as int,
                        a.vmax as int,
                    ),
                    padded_width: a.padded_width,
                    num_components: a.num_components,
                    hmax: a.hmax,
                    vmax: a.vmax,
                    ..v2a
                };
                let b2 = ScanView {
                    mcu_row: crate::upsample::spec_upsample(
                        v2b.mcu_row,
                        x0,
                        b.padded_width,
                        b.num_components as int,
                        v2b.mcu,
                        b.hmax as int,
                        b.vmax as int,
                    ),
                    padded_width: b.padded_width,
                    num_components: b.num_components,
                    hmax: b.hmax,
                    vmax: b.vmax,
                    ..v2b
                };
                assert(sv_scan_ok(a2));
                lemma_mcu_row_sim(a2, b2, x1);
            },
            _ => {},
        }
    }
}

proof fn lemma_scanline_sim(a: ScanView, b: ScanView)
    requires
        sv_sim(a, b),
        sv_scan_ok(a),
    ensures
        (match (sv_read_scanline(a), sv_read_scanline(b)) {
            (Ok(x), Ok(y)) => x.0 == y.0 && sv_sim(x.1, y.1) && sv_scan_ok(x.1) && x.1.height
                == a.height,
            (Err(e1), Err(e2)) => e1 == e2,
            _ => false,
        }),
{
    reveal(sv_read_scanline);
    if a.row_count == 0 {
        lemma_mcu_row_sim(a, b, 0);
    }
}

/// Determinism of scan decoding: two decoders whose scan states agree --
/// up to which table objects carry the same decode arrays -- produce
/// byte-identical images, or fail with the same error.  Together with
/// `lemma_metadata_deterministic` and `lemma_pair_determines_views`,
/// decoding a valid stream twice from independent decoders yields
/// byte-identical output.
pub proof fn lemma_image_deterministic(a: ScanView, b: ScanView, y: int, out: Seq<u8>)
    requires
        sv_sim(a, b),
        sv_scan_ok(a),
    ensures
        (match (sv_rows(a, y, out), sv_rows(b, y, out)) {
            (Ok(x), Ok(z)) => x.0 == z.0 && sv_sim(x.1, z.1),
            (Err(e1), Err(e2)) => e1 == e2,
            _ => false,
        }),
    decreases a.height - y,
{
    reveal(sv_rows);
    if y < a.height {
        lemma_scanline_sim(a, b);
        match (sv_read_scanline(a), sv_read_scanline(b)) {
            (Ok(ra), Ok(rb)) => {
                let a2 = ScanView { height: a.height, ..ra.1 };
                let b2 = ScanView { height: b.height, ..rb.1 };
                assert(sv_scan_ok(a2));
                lemma_image_deterministic(a2, b2, y + 1, out + ra.0);
            },
            _ => {},
        }
    }
}

/// Two scan views compatible with the same parsed header state and with
/// decoders holding equal counters are similar: the header pins all of
/// the scan state except the table objects, whose arrays the pairs
/// determine.
pub proof fn lemma_compat_sim(
    va: ScanView,
    vb: ScanView,
    m: MetaView,
    d1: JPEGDecoder,
    d2: JPEGDecoder,
)
    requires
        sv_compat(va, m, d1),
        sv_compat(vb, m, d2),
        d1.bits == d2.bits,
        d1.mcucount == d2.mcucount,
        d1.expected_rst == d2.expected_rst,
        d1.row_count == d2.row_count,
        d1.decoded_rows == d2.decoded_rows,
    ensures
        sv_sim(va, vb),
{
    assert forall|i: int| 0 <= i < 2 implies tv_eq(#[trigger] va.dctables[i], vb.dctables[i]) by {
        lemma_pair_determines_views(va.dctables[i], vb.dctables[i]);
    };
    assert forall|i: int| 0 <= i < 2 implies tv_eq(#[trigger] va.actables[i], vb.actables[i]) by {
        lemma_pair_determines_views(va.actables[i], vb.actables[i]);
    };
}

} // verus!
