//! End-to-end decoder tests over hand-assembled JPEG byte streams, plus
//! unit checks of the arithmetic building blocks.

use jpegdec::bitsrc::BitState;
use jpegdec::bitsrc::ByteStream;
use jpegdec::errors::DecodeError;
use jpegdec::errors::ErrorClass;
use jpegdec::huffman::decode_symbol;
use jpegdec::huffman::derive_tables;
use jpegdec::transform::fdct;
use jpegdec::transform::idct;
use jpegdec::upsample::ycbcr_to_rgb_scalar;
use jpegdec::util::extend;
use jpegdec::zigzag::unzigzag;
use jpegdec::ColorType;
use jpegdec::JPEGDecoder;

fn push_u16(out: &mut Vec<u8>, v: u16) {
    out.push((v >> 8) as u8);
    out.push((v & 0xFF) as u8);
}

fn push_marker(out: &mut Vec<u8>, m: u8) {
    out.push(0xFF);
    out.push(m);
}

/// One DQT segment: table `tq`, all 64 coefficients equal to `q`.
fn push_dqt(out: &mut Vec<u8>, tq: u8, q: u8) {
    push_marker(out, 0xDB);
    push_u16(out, 2 + 65);
    out.push(tq);
    for _ in 0..64 {
        out.push(q);
    }
}

/// One SOF0 segment with 8-bit precision and 1x1 components.
fn push_sof0(out: &mut Vec<u8>, width: u16, height: u16, ids: &[u8]) {
    push_marker(out, 0xC0);
    push_u16(out, 8 + 3 * ids.len() as u16);
    out.push(8);
    push_u16(out, height);
    push_u16(out, width);
    out.push(ids.len() as u8);
    for id in ids {
        out.push(*id);
        out.push(0x11);
        out.push(0x00);
    }
}

/// One DHT segment holding a single table.
fn push_dht(out: &mut Vec<u8>, class: u8, slot: u8, counts: &[u8; 16], vals: &[u8]) {
    push_marker(out, 0xC4);
    push_u16(out, 2 + 1 + 16 + vals.len() as u16);
    out.push(class * 16 + slot);
    for c in counts {
        out.push(*c);
    }
    for v in vals {
        out.push(*v);
    }
}

fn push_dri(out: &mut Vec<u8>, interval: u16) {
    push_marker(out, 0xDD);
    push_u16(out, 4);
    push_u16(out, interval);
}

fn push_sos(out: &mut Vec<u8>, ids: &[u8]) {
    push_marker(out, 0xDA);
    push_u16(out, 6 + 2 * ids.len() as u16);
    out.push(ids.len() as u8);
    for id in ids {
        out.push(*id);
        out.push(0x00);
    }
    out.push(0x00);
    out.push(0x3F);
    out.push(0x00);
}

/// A most-significant-bit-first bit writer that pads the last byte with
/// one bits, as an entropy encoder does.
struct BitWriter {
    bytes: Vec<u8>,
    acc: u32,
    n: u32,
}

impl BitWriter {
    fn new() -> BitWriter {
        BitWriter { bytes: Vec::new(), acc: 0, n: 0 }
    }

    fn put(&mut self, value: u32, bits: u32) {
        for i in (0..bits).rev() {
            self.acc = (self.acc << 1) | ((value >> i) & 1);
            self.n += 1;
            if self.n == 8 {
                self.bytes.push(self.acc as u8);
                self.acc = 0;
                self.n = 0;
            }
        }
    }

    fn finish(mut self) -> Vec<u8> {
        while self.n != 0 {
            self.put(1, 1);
        }
        self.bytes
    }
}

/// Counts declaring a single canonical code of length 2 (the pattern
/// `00`).
fn one_code_counts() -> [u8; 16] {
    let mut counts = [0u8; 16];
    counts[1] = 1;
    counts
}

/// A grayscale stream of `mcus` all-zero blocks, with optional restart
/// markers every `interval` MCUs.
fn gray_stream(width: u16, height: u16, interval: u16, markers: &[u8]) -> Vec<u8> {
    let mut out: Vec<u8> = Vec::new();
    push_marker(&mut out, 0xD8);
    push_dqt(&mut out, 0, 1);
    push_sof0(&mut out, width, height, &[1]);
    push_dht(&mut out, 0, 0, &one_code_counts(), &[0x00]);
    push_dht(&mut out, 1, 0, &one_code_counts(), &[0x00]);
    if interval != 0 {
        push_dri(&mut out, interval);
    }
    push_sos(&mut out, &[1]);
    // each block is the DC code `00` (size 0) and the AC code `00` (end
    // of block): two MCUs fill exactly one byte
    let mcus = ((width as usize + 7) / 8) * ((height as usize + 7) / 8);
    let mut m = 0;
    let mut mi = 0;
    while m < mcus {
        let chunk = if mcus - m >= 2 { 2 } else { 1 };
        let mut bw = BitWriter::new();
        for _ in 0..chunk {
            bw.put(0, 2);
            bw.put(0, 2);
        }
        out.extend(bw.finish());
        m += chunk;
        if interval != 0 && m % interval as usize == 0 && m < mcus {
            push_marker(&mut out, markers[mi]);
            mi += 1;
        }
    }
    push_marker(&mut out, 0xD9);
    out
}

#[test]
fn extend_zero_size() {
    assert_eq!(extend(0, 0), 0);
}

#[test]
fn extend_four_bits() {
    assert_eq!(extend(0, 4), -15);
    assert_eq!(extend(8, 4), 8);
    assert_eq!(extend(15, 4), 15);
}

#[test]
fn huffman_single_leaf_decodes() {
    let table = derive_tables(vec![0, 1, 0, 0, 0, 0, 0, 0, 0, 0, 0, 0, 0, 0, 0, 0], vec![5]);
    let mut s = ByteStream { data: vec![0b0000_0000u8], pos: 0 };
    let mut b = BitState { acc: 0, nbits: 0, end: false, marker: None };
    assert_eq!(decode_symbol(&mut s, &mut b, &table), Ok(5u8));
}

#[test]
fn huffman_single_leaf_rejects_other_patterns() {
    let table = derive_tables(vec![0, 1, 0, 0, 0, 0, 0, 0, 0, 0, 0, 0, 0, 0, 0, 0], vec![5]);
    for first in [0b0100_0000u8, 0b1000_0000, 0b1100_0000] {
        let mut s = ByteStream { data: vec![first, 0x00, 0x00], pos: 0 };
        let mut b = BitState { acc: 0, nbits: 0, end: false, marker: None };
        assert_eq!(
            decode_symbol(&mut s, &mut b, &table),
            Err(DecodeError::HuffmanCodeTooLong)
        );
    }
}

#[test]
fn idct_dc_only_is_uniform() {
    for (d, want) in [(0i16, 128u8), (100, 141), (-1000, 3), (30000, 255), (-17, 126)] {
        let mut coeffs = vec![0i16; 64];
        coeffs[0] = d;
        let mut samples = vec![0u8; 64];
        idct(&coeffs, &mut samples, 0);
        for j in 0..64 {
            assert_eq!(samples[j], want, "dc {} cell {}", d, j);
        }
    }
}

#[test]
fn idct_general_block_stays_in_range() {
    let mut coeffs = vec![0i16; 64];
    coeffs[0] = 80;
    coeffs[1] = -30;
    coeffs[9] = 17;
    coeffs[63] = 5;
    let mut samples = vec![9u8; 64];
    idct(&coeffs, &mut samples, 0);
    // a nonzero AC block is no longer uniform
    let first = samples[0];
    assert!(samples.iter().any(|s| *s != first));
}

#[test]
fn fdct_uniform_blocks() {
    let mut coeffs = vec![0i32; 64];
    fdct(&vec![128u8; 64], &mut coeffs);
    assert_eq!(coeffs, vec![0i32; 64]);
    fdct(&vec![136u8; 64], &mut coeffs);
    assert_eq!(coeffs[0], 512);
    for k in 1..64 {
        assert_eq!(coeffs[k], 0);
    }
}

#[test]
fn ycbcr_conversions() {
    assert_eq!(ycbcr_to_rgb_scalar(128, 128, 128), (128, 128, 128));
    assert_eq!(ycbcr_to_rgb_scalar(76, 84, 255), (254, 0, 0));
    assert_eq!(ycbcr_to_rgb_scalar(255, 0, 0), (76, 255, 28));
}

#[test]
fn unzigzag_layout() {
    assert_eq!(unzigzag(0), 0);
    assert_eq!(unzigzag(1), 1);
    assert_eq!(unzigzag(2), 8);
    assert_eq!(unzigzag(63), 63);
}

#[test]
fn gray_image_with_restarts_decodes() {
    let data = gray_stream(32, 8, 2, &[0xD0]);
    let mut dec = JPEGDecoder::new(data);
    assert_eq!(dec.dimensions(), Ok((32, 8)));
    assert_eq!(dec.colortype(), Ok(ColorType::Gray8));
    assert_eq!(dec.row_len(), Ok(32));
    let img = dec.read_image().unwrap();
    assert_eq!(img.len(), 32 * 8);
    assert!(img.iter().all(|p| *p == 128));
}

#[test]
fn restart_sequence_is_verified_in_order() {
    // eight MCUs with interval 2: RST0, RST1, RST2 must appear in order
    let data = gray_stream(64, 8, 2, &[0xD0, 0xD1, 0xD2]);
    let mut dec = JPEGDecoder::new(data);
    let img = dec.read_image().unwrap();
    assert_eq!(img.len(), 64 * 8);
}

#[test]
fn restart_mismatch_is_an_error() {
    // RST1 where RST0 is expected: a hard format error, no resync
    let data = gray_stream(32, 8, 2, &[0xD1]);
    let mut dec = JPEGDecoder::new(data);
    let err = dec.read_image().unwrap_err();
    assert_eq!(err, DecodeError::RestartMismatch(0xD1));
    assert_eq!(err.class(), ErrorClass::Format);
}

#[test]
fn quant_table_id_out_of_range_is_format_error() {
    // tq = 4 is outside 0..=3 and must fail before any entropy data
    let mut data: Vec<u8> = Vec::new();
    push_marker(&mut data, 0xD8);
    push_dqt(&mut data, 4, 1);
    let mut dec = JPEGDecoder::new(data);
    let err = dec.dimensions().unwrap_err();
    assert_eq!(err, DecodeError::BadQuantTable);
    assert_eq!(err.class(), ErrorClass::Format);
}

#[test]
fn progressive_frame_is_unsupported() {
    let mut data: Vec<u8> = Vec::new();
    push_marker(&mut data, 0xD8);
    data.push(0xFF);
    data.push(0xC2);
    let mut dec = JPEGDecoder::new(data);
    let err = dec.dimensions().unwrap_err();
    assert_eq!(err, DecodeError::UnsupportedMarker(0xC2));
    assert_eq!(err.class(), ErrorClass::Unsupported);
}

#[test]
fn dnl_is_unsupported() {
    let mut data: Vec<u8> = Vec::new();
    push_marker(&mut data, 0xD8);
    data.push(0xFF);
    data.push(0xDC);
    let mut dec = JPEGDecoder::new(data);
    assert_eq!(dec.dimensions(), Err(DecodeError::UnsupportedMarker(0xDC)));
}

#[test]
fn unknown_marker_is_a_format_error() {
    let mut data: Vec<u8> = Vec::new();
    push_marker(&mut data, 0xD8);
    data.push(0xFF);
    data.push(0x13);
    let mut dec = JPEGDecoder::new(data);
    let err = dec.dimensions().unwrap_err();
    assert_eq!(err, DecodeError::UnknownMarker(0x13));
    assert_eq!(err.class(), ErrorClass::Format);
}

#[test]
fn zero_width_is_rejected() {
    let mut data: Vec<u8> = Vec::new();
    push_marker(&mut data, 0xD8);
    push_sof0(&mut data, 0, 8, &[1]);
    let mut dec = JPEGDecoder::new(data);
    assert_eq!(dec.dimensions(), Err(DecodeError::ZeroDimension));
}

#[test]
fn truncated_input_is_an_error() {
    let mut data: Vec<u8> = Vec::new();
    push_marker(&mut data, 0xD8);
    let mut dec = JPEGDecoder::new(data);
    let err = dec.dimensions().unwrap_err();
    assert_eq!(err, DecodeError::Truncated);
    assert_eq!(err.class(), ErrorClass::Truncated);
}

#[test]
fn scan_before_frame_is_a_format_error() {
    let mut data: Vec<u8> = Vec::new();
    push_marker(&mut data, 0xD8);
    push_sos(&mut data, &[1]);
    let mut dec = JPEGDecoder::new(data);
    let err = dec.dimensions().unwrap_err();
    assert_eq!(err, DecodeError::BadScanComponent(1));
    assert_eq!(err.class(), ErrorClass::Format);
}

#[test]
fn undeclared_scan_component_is_a_format_error() {
    let mut data: Vec<u8> = Vec::new();
    push_marker(&mut data, 0xD8);
    push_dqt(&mut data, 0, 1);
    push_sof0(&mut data, 8, 8, &[1]);
    push_sos(&mut data, &[9]);
    let mut dec = JPEGDecoder::new(data);
    let err = dec.dimensions().unwrap_err();
    assert_eq!(err, DecodeError::BadScanComponent(9));
    assert_eq!(err.class(), ErrorClass::Format);
}

#[test]
fn scan_out_of_frame_order_is_rejected() {
    let mut data: Vec<u8> = Vec::new();
    push_marker(&mut data, 0xD8);
    push_dqt(&mut data, 0, 1);
    push_sof0(&mut data, 8, 8, &[1, 2, 3]);
    push_sos(&mut data, &[2, 1]);
    let mut dec = JPEGDecoder::new(data);
    assert_eq!(dec.dimensions(), Err(DecodeError::BadScanComponent(1)));
}

#[test]
fn duplicate_frame_component_is_rejected() {
    let mut data: Vec<u8> = Vec::new();
    push_marker(&mut data, 0xD8);
    push_sof0(&mut data, 8, 8, &[1, 1, 2]);
    let mut dec = JPEGDecoder::new(data);
    let err = dec.dimensions().unwrap_err();
    assert_eq!(err, DecodeError::DuplicateComponent);
    assert_eq!(err.class(), ErrorClass::Format);
}

#[test]
fn single_component_scan_of_color_frame_decodes() {
    // a scan naming only the first of three declared components: the
    // luma plane decodes and the chroma planes stay at zero
    let mut data: Vec<u8> = Vec::new();
    push_marker(&mut data, 0xD8);
    push_dqt(&mut data, 0, 1);
    push_sof0(&mut data, 8, 8, &[1, 2, 3]);
    push_dht(&mut data, 0, 0, &one_code_counts(), &[0x00]);
    push_dht(&mut data, 1, 0, &one_code_counts(), &[0x00]);
    push_sos(&mut data, &[1]);
    let mut bw = BitWriter::new();
    bw.put(0, 2);
    bw.put(0, 2);
    data.extend(bw.finish());
    push_marker(&mut data, 0xD9);
    let mut dec = JPEGDecoder::new(data);
    let img = dec.read_image().unwrap();
    assert_eq!(img.len(), 8 * 8 * 3);
    // luma 128 with both chromas at zero: strong green
    for px in img.chunks(3) {
        assert_eq!(px, &[0, 255, 0]);
    }
}

#[test]
fn wrong_scanline_buffer_is_rejected() {
    let data = gray_stream(32, 8, 0, &[]);
    let mut dec = JPEGDecoder::new(data);
    let mut buf = vec![0u8; 7];
    assert_eq!(dec.read_scanline(&mut buf), Err(DecodeError::BadBufferLength));
}

#[test]
fn decoding_twice_is_deterministic() {
    let data = gray_stream(32, 16, 2, &[0xD0, 0xD1, 0xD2]);
    let mut d1 = JPEGDecoder::new(data.clone());
    let mut d2 = JPEGDecoder::new(data);
    assert_eq!(d1.read_image().unwrap(), d2.read_image().unwrap());
}

#[test]
fn color_image_decodes_to_gray_rgb() {
    let mut data: Vec<u8> = Vec::new();
    push_marker(&mut data, 0xD8);
    push_dqt(&mut data, 0, 1);
    push_sof0(&mut data, 8, 8, &[1, 2, 3]);
    push_dht(&mut data, 0, 0, &one_code_counts(), &[0x00]);
    push_dht(&mut data, 1, 0, &one_code_counts(), &[0x00]);
    push_sos(&mut data, &[1, 2, 3]);
    let mut bw = BitWriter::new();
    for _ in 0..3 {
        bw.put(0, 2);
        bw.put(0, 2);
    }
    data.extend(bw.finish());
    push_marker(&mut data, 0xD9);
    let mut dec = JPEGDecoder::new(data);
    assert_eq!(dec.colortype(), Ok(ColorType::Rgb8));
    assert_eq!(dec.row_len(), Ok(24));
    let img = dec.read_image().unwrap();
    assert_eq!(img.len(), 8 * 8 * 3);
    assert!(img.iter().all(|p| *p == 128));
}

#[test]
fn round_trip_uniform_gray() {
    // encode a uniform sample block with the forward transform, quantize
    // with a unit table, and decode it again: the samples come back
    // exactly for a uniform image
    let g: u8 = 136;
    let mut coeffs = vec![0i32; 64];
    fdct(&vec![g; 64], &mut coeffs);
    let dcq: i32 = (coeffs[0] as f64 / 8.0).round() as i32;
    assert!(dcq > 0 && dcq < 128);
    // DC table: one 2-bit code for size 7; AC table: one 2-bit code for
    // end of block
    let mut data: Vec<u8> = Vec::new();
    push_marker(&mut data, 0xD8);
    push_dqt(&mut data, 0, 1);
    push_sof0(&mut data, 8, 8, &[1]);
    push_dht(&mut data, 0, 0, &one_code_counts(), &[0x07]);
    push_dht(&mut data, 1, 0, &one_code_counts(), &[0x00]);
    push_sos(&mut data, &[1]);
    let mut bw = BitWriter::new();
    bw.put(0, 2);
    bw.put(dcq as u32, 7);
    bw.put(0, 2);
    data.extend(bw.finish());
    push_marker(&mut data, 0xD9);
    let mut dec = JPEGDecoder::new(data);
    let img = dec.read_image().unwrap();
    assert_eq!(img.len(), 64);
    assert!(img.iter().all(|p| *p == g));
}

#[test]
fn scanlines_come_back_in_order() {
    let data = gray_stream(16, 16, 0, &[]);
    let mut dec = JPEGDecoder::new(data);
    let mut buf = vec![0u8; 16];
    for row in 1..=16u32 {
        assert_eq!(dec.read_scanline(&mut buf), Ok(row));
        assert!(buf.iter().all(|p| *p == 128));
    }
}

/// An SOF0 segment with explicit precision and raw component records.
fn push_sof0_raw(out: &mut Vec<u8>, precision: u8, width: u16, height: u16, comps: &[(u8, u8, u8)]) {
    push_marker(out, 0xC0);
    push_u16(out, 8 + 3 * comps.len() as u16);
    out.push(precision);
    push_u16(out, height);
    push_u16(out, width);
    out.push(comps.len() as u8);
    for (id, hv, tq) in comps {
        out.push(*id);
        out.push(*hv);
        out.push(*tq);
    }
}

#[test]
fn non_eight_bit_precision_is_unsupported() {
    let mut data: Vec<u8> = Vec::new();
    push_marker(&mut data, 0xD8);
    push_sof0_raw(&mut data, 12, 8, 8, &[(1, 0x11, 0)]);
    let mut dec = JPEGDecoder::new(data);
    assert_eq!(dec.dimensions(), Err(DecodeError::UnsupportedPrecision(12)));
}

#[test]
fn two_components_are_unsupported() {
    let mut data: Vec<u8> = Vec::new();
    push_marker(&mut data, 0xD8);
    push_sof0(&mut data, 8, 8, &[1, 2]);
    let mut dec = JPEGDecoder::new(data);
    assert_eq!(dec.dimensions(), Err(DecodeError::UnsupportedComponentCount(2)));
}

#[test]
fn subsampled_chroma_is_unsupported() {
    let mut data: Vec<u8> = Vec::new();
    push_marker(&mut data, 0xD8);
    push_sof0_raw(&mut data, 8, 16, 16, &[(1, 0x22, 0), (2, 0x21, 0), (3, 0x11, 0)]);
    let mut dec = JPEGDecoder::new(data);
    assert_eq!(dec.dimensions(), Err(DecodeError::UnsupportedSampling));
}

#[test]
fn zero_sampling_factor_is_rejected() {
    let mut data: Vec<u8> = Vec::new();
    push_marker(&mut data, 0xD8);
    push_sof0_raw(&mut data, 8, 8, 8, &[(1, 0x01, 0)]);
    let mut dec = JPEGDecoder::new(data);
    assert_eq!(dec.dimensions(), Err(DecodeError::BadTableSelector));
}

#[test]
fn huffman_class_above_one_is_unsupported() {
    let mut data: Vec<u8> = Vec::new();
    push_marker(&mut data, 0xD8);
    push_dht(&mut data, 2, 0, &one_code_counts(), &[0x00]);
    let mut dec = JPEGDecoder::new(data);
    assert_eq!(dec.dimensions(), Err(DecodeError::UnsupportedHuffmanClass(2)));
}

#[test]
fn short_segment_length_is_rejected() {
    let mut data: Vec<u8> = Vec::new();
    push_marker(&mut data, 0xD8);
    push_marker(&mut data, 0xE0);
    push_u16(&mut data, 1);
    let mut dec = JPEGDecoder::new(data);
    assert_eq!(dec.dimensions(), Err(DecodeError::BadSegmentLength));
}

#[test]
fn missing_restart_marker_is_reported() {
    // the stream carries EOI where a restart marker is owed
    let data = gray_stream(32, 8, 2, &[0xD9]);
    let mut dec = JPEGDecoder::new(data);
    assert_eq!(dec.read_image(), Err(DecodeError::RestartNotFound));
}

#[test]
fn oversized_dc_category_is_rejected() {
    let mut data: Vec<u8> = Vec::new();
    push_marker(&mut data, 0xD8);
    push_dqt(&mut data, 0, 1);
    push_sof0(&mut data, 8, 8, &[1]);
    push_dht(&mut data, 0, 0, &one_code_counts(), &[17]);
    push_dht(&mut data, 1, 0, &one_code_counts(), &[0x00]);
    push_sos(&mut data, &[1]);
    let mut bw = BitWriter::new();
    bw.put(0, 2);
    data.extend(bw.finish());
    push_marker(&mut data, 0xD9);
    let mut dec = JPEGDecoder::new(data);
    assert_eq!(dec.read_image(), Err(DecodeError::BadDcSize(17)));
}

#[test]
fn coefficient_run_past_the_block_is_rejected() {
    // AC symbol 0xE1: a run of 14 zeros and a one-bit coefficient, five
    // of which push the zig-zag index past position 63
    let mut data: Vec<u8> = Vec::new();
    push_marker(&mut data, 0xD8);
    push_dqt(&mut data, 0, 1);
    push_sof0(&mut data, 8, 8, &[1]);
    push_dht(&mut data, 0, 0, &one_code_counts(), &[0x00]);
    push_dht(&mut data, 1, 0, &one_code_counts(), &[0xE1]);
    push_sos(&mut data, &[1]);
    let mut bw = BitWriter::new();
    bw.put(0, 2);
    for _ in 0..5 {
        bw.put(0, 2);
        bw.put(1, 1);
    }
    data.extend(bw.finish());
    push_marker(&mut data, 0xD9);
    let mut dec = JPEGDecoder::new(data);
    assert_eq!(dec.read_image(), Err(DecodeError::CoefficientOverrun));
}
