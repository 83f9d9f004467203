//! Chroma upsampling and color conversion.
//!
//! One decoded MCU is placed into the row buffer: a single-component MCU
//! copies its 8x8 luma block through unchanged; a three-component MCU
//! replicates each chroma sample over the luma footprint given by the
//! sampling factors (nearest neighbor, no filtering) and converts
//! YCbCr to RGB per pixel with 16-bit fixed-point BT.601 constants,
//! rounding to nearest and clamping to `[0, 255]`.

use vstd::prelude::*;
use vstd::arithmetic::div_mod::lemma_mod_multiples_vanish;
use vstd::arithmetic::div_mod::lemma_mod_bound;
use vstd::arithmetic::div_mod::lemma_fundamental_div_mod;
use vstd::arithmetic::div_mod::lemma_multiply_divide_lt;
use crate::util::floor_div;
use crate::util::spec_clamp;

verus! {

/// Red from luma and red chroma: Y + 1.402 (Cr - 128), rounded, clamped.
pub open spec fn ycc_r(y: int, cr: int) -> int {
    spec_clamp((y * 65536 + 91881 * (cr - 128) + 32768) / 65536, 0, 255)
}

/// Green from luma and both chromas:
/// Y - 0.344136 (Cb - 128) - 0.714136 (Cr - 128), rounded, clamped.
pub open spec fn ycc_g(y: int, cb: int, cr: int) -> int {
    spec_clamp((y * 65536 + 32768 - 22553 * (cb - 128) - 46802 * (cr - 128)) / 65536, 0, 255)
}

/// Blue from luma and blue chroma: Y + 1.772 (Cb - 128), rounded, clamped.
pub open spec fn ycc_b(y: int, cb: int) -> int {
    spec_clamp((y * 65536 + 116130 * (cb - 128) + 32768) / 65536, 0, 255)
}

/// Convert one YCbCr sample triple to RGB.
pub fn ycbcr_to_rgb_scalar(y: u8, cb: u8, cr: u8) -> (r: (u8, u8, u8))
    ensures
        r.0 == ycc_r(y as int, cr as int),
        r.1 == ycc_g(y as int, cb as int, cr as int),
        r.2 == ycc_b(y as int, cb as int),
{
    let yw: i64 = y as i64 * 65536 + 32768;
    let cbd: i64 = cb as i64 - 128;
    let crd: i64 = cr as i64 - 128;
    let rv: i64 = floor_div(yw + 91881 * crd, 65536);
    let gv: i64 = floor_div(yw - 22553 * cbd - 46802 * crd, 65536);
    let bv: i64 = floor_div(yw + 116130 * cbd, 65536);
    (clamp_u8(rv), clamp_u8(gv), clamp_u8(bv))
}

/// Clamp a wide value to one sample byte.
fn clamp_u8(v: i64) -> (r: u8)
    requires
        -0x100000000 <= v <= 0x100000000,
    ensures
        r == spec_clamp(v as int, 0, 255),
{
    if v < 0 {
        0
    } else if v > 255 {
        255
    } else {
        v as u8
    }
}

/// The luma sample of MCU pixel (px, py), with `h * v` luma blocks.
pub open spec fn mcu_luma(mcu: Seq<u8>, h: int, px: int, py: int) -> u8 {
    mcu[((py / 8) * h + px / 8) * 64 + (py % 8) * 8 + px % 8]
}

/// The blue-chroma sample replicated onto MCU pixel (px, py).
pub open spec fn mcu_cb(mcu: Seq<u8>, h: int, v: int, px: int, py: int) -> u8 {
    mcu[h * v * 64 + (py / v) * 8 + px / h]
}

/// The red-chroma sample replicated onto MCU pixel (px, py).
pub open spec fn mcu_cr(mcu: Seq<u8>, h: int, v: int, px: int, py: int) -> u8 {
    mcu[h * v * 64 + 64 + (py / v) * 8 + px / h]
}

/// Place one decoded MCU into the row buffer at byte column `xoffset`.
/// `width` is the padded row width in pixels and `bpp` the bytes per
/// pixel; the buffer holds `8 * v` such rows.  Cells outside the MCU's
/// byte columns keep their old values.
#[verifier::rlimit(100)]
pub fn upsample_mcu_scalar(
    out: &mut Vec<u8>,
    xoffset: usize,
    width: usize,
    bpp: usize,
    mcu: &Vec<u8>,
    h: u8,
    v: u8,
)
    requires
        1 <= h <= 4,
        1 <= v <= 4,
        (bpp == 1 && h == 1 && v == 1 && mcu@.len() == 64) || (bpp == 3 && mcu@.len() == ((
        h * v) as int + 2) * 64),
        width >= 1,
        width * (bpp as int) <= 0x10000000,
        xoffset + 8 * (h as int) * (bpp as int) <= width * bpp,
        old(out)@.len() == width * (bpp as int) * 8 * (v as int),
    ensures
        final(out)@.len() == old(out)@.len(),
        forall|py: int, px: int|
            0 <= py < 8 * (v as int) && 0 <= px < 8 * (h as int) ==> #[trigger] cell_done(
                final(out)@,
                mcu@,
                xoffset as int,
                width as int,
                bpp as int,
                h as int,
                v as int,
                py,
                px,
            ),
        forall|k: int|
            0 <= k < old(out)@.len() && !(xoffset <= k % (width * bpp) < xoffset + 8 * (
            h as int) * (bpp as int)) ==> final(out)@[k] == old(out)@[k],
{
    let stride: usize = width * bpp;
    let rows: usize = 8 * v as usize;
    let cols: usize = 8 * h as usize;
    proof {
        let ghost olen = old(out)@.len() as int;
        assert(olen == (stride as int) * (rows as int)) by (nonlinear_arith)
            requires
                olen == width * (bpp as int) * 8 * (v as int),
                stride == width * (bpp as int),
                rows == 8 * (v as int),
        ;
    }
    let total: usize = out.len();
    let mut py: usize = 0;
    let mut row_base: usize = 0;
    while py < rows
        invariant
            py <= rows,
            row_base == py * stride,
            stride == width * bpp,
            stride <= 0x10000000,
            rows == 8 * (v as int),
            cols == 8 * (h as int),
            1 <= h <= 4,
            1 <= v <= 4,
            (bpp == 1 && h == 1 && v == 1 && mcu@.len() == 64) || (bpp == 3 && mcu@.len()
                == ((h * v) as int + 2) * 64),
            width >= 1,
            xoffset + 8 * (h as int) * (bpp as int) <= stride,
            out@.len() == old(out)@.len(),
            old(out)@.len() == (stride as int) * (rows as int),
            old(out)@.len() <= usize::MAX,
            forall|qy: int, qx: int|
                0 <= qy < py && 0 <= qx < cols ==> cell_done(
                    out@,
                    mcu@,
                    xoffset as int,
                    width as int,
                    bpp as int,
                    h as int,
                    v as int,
                    qy,
                    qx,
                ),
            forall|k: int|
                0 <= k < old(out)@.len() && !(xoffset <= k % (stride as int) < xoffset + 8 * (
                h as int) * (bpp as int)) ==> out@[k] == old(out)@[k],
        decreases rows - py,
    {
        let ol: usize = out.len();
        let mut px: usize = 0;
        while px < cols
            invariant
                px <= cols,
                py < rows,
                row_base == py * stride,
                stride == width * bpp,
                stride <= 0x10000000,
                rows == 8 * (v as int),
                cols == 8 * (h as int),
                1 <= h <= 4,
                1 <= v <= 4,
                (bpp == 1 && h == 1 && v == 1 && mcu@.len() == 64) || (bpp == 3 && mcu@.len()
                    == ((h * v) as int + 2) * 64),
                width >= 1,
                xoffset + 8 * (h as int) * (bpp as int) <= stride,
                out@.len() == old(out)@.len(),
                old(out)@.len() == (stride as int) * (rows as int),
                old(out)@.len() <= usize::MAX,
                forall|qy: int, qx: int|
                    0 <= qy < py && 0 <= qx < cols ==> cell_done(
                        out@,
                        mcu@,
                        xoffset as int,
                        width as int,
                        bpp as int,
                        h as int,
                        v as int,
                        qy,
                        qx,
                    ),
                forall|qx: int|
                    0 <= qx < px ==> cell_done(
                        out@,
                        mcu@,
                        xoffset as int,
                        width as int,
                        bpp as int,
                        h as int,
                        v as int,
                        py as int,
                        qx,
                    ),
                forall|k: int|
                    0 <= k < old(out)@.len() && !(xoffset <= k % (stride as int) < xoffset + 8
                        * (h as int) * (bpp as int)) ==> out@[k] == old(out)@[k],
            decreases cols - px,
        {
            proof {
                assert(row_base + stride <= (stride as int) * (rows as int)
                    && row_base == (py as int) * (stride as int)) by (nonlinear_arith)
                    requires
                        row_base == py * stride,
                        py < rows,
                        stride >= 1,
                ;
            }
            let ghost out_prev = out@;
            if bpp == 1 {
                let s: u8 = mcu[py * 8 + px];
                let kk: usize = row_base + xoffset + px;
                out[kk] = s;
                proof {
                    lemma_mod_multiples_vanish(
                        py as int,
                        (xoffset + px) as int,
                        stride as int,
                    );
                    vstd::arithmetic::div_mod::lemma_small_mod(
                        (xoffset + px) as nat,
                        stride as nat,
                    );
                }
            } else {
                let by: usize = py / 8;
                let bx: usize = px / 8;
                proof {
                    assert((py as int) / 8 < v as int && (px as int) / 8 < h as int && (
                    py as int) / (v as int) < 8 && (px as int) / (h as int)
                        < 8) by (nonlinear_arith)
                        requires
                            0 <= py < 8 * (v as int),
                            0 <= px < 8 * (h as int),
                            1 <= h <= 4,
                            1 <= v <= 4,
                    ;
                    assert(((py as int) / 8 * (h as int) + (px as int) / 8) * 64 + (py as int)
                        % 8 * 8 + (px as int) % 8 < (h * v) as int * 64) by (nonlinear_arith)
                        requires
                            0 <= (py as int) / 8 < v as int,
                            0 <= (px as int) / 8 < h as int,
                            0 <= (py as int) % 8 < 8,
                            0 <= (px as int) % 8 < 8,
                            1 <= h <= 4,
                            1 <= v <= 4,
                    ;
                    lemma_mod_bound(py as int, 8);
                    lemma_mod_bound(px as int, 8);
                    assert((h as int) * (v as int) <= 16) by (nonlinear_arith)
                        requires
                            1 <= h <= 4,
                            1 <= v <= 4,
                    ;
                }
                let ys: u8 = mcu[(by * h as usize + bx) * 64 + (py % 8) * 8 + px % 8];
                let cbs: u8 = mcu[(h as usize * v as usize) * 64 + (py / v as usize) * 8 + px
                    / h as usize];
                let crs: u8 = mcu[(h as usize * v as usize) * 64 + 64 + (py / v as usize) * 8
                    + px / h as usize];
                let (r, g, b) = ycbcr_to_rgb_scalar(ys, cbs, crs);
                let kk: usize = row_base + xoffset + px * 3;
                out[kk] = r;
                out[kk + 1] = g;
                out[kk + 2] = b;
                proof {
                    lemma_mod_multiples_vanish(
                        py as int,
                        (xoffset + px * 3) as int,
                        stride as int,
                    );
                    lemma_mod_multiples_vanish(
                        py as int,
                        (xoffset + px * 3 + 1) as int,
                        stride as int,
                    );
                    lemma_mod_multiples_vanish(
                        py as int,
                        (xoffset + px * 3 + 2) as int,
                        stride as int,
                    );
                    vstd::arithmetic::div_mod::lemma_small_mod(
                        (xoffset + px * 3) as nat,
                        stride as nat,
                    );
                    vstd::arithmetic::div_mod::lemma_small_mod(
                        (xoffset + px * 3 + 1) as nat,
                        stride as nat,
                    );
                    vstd::arithmetic::div_mod::lemma_small_mod(
                        (xoffset + px * 3 + 2) as nat,
                        stride as nat,
                    );
                }
            }
            proof {
                assert forall|qy: int, qx: int| 0 <= qy < py && 0 <= qx < cols implies
                    cell_done(
                    out@,
                    mcu@,
                    xoffset as int,
                    width as int,
                    bpp as int,
                    h as int,
                    v as int,
                    qy,
                    qx,
                ) by {
                    assert(qy * (stride as int) + xoffset + qx * (bpp as int) + (bpp as int)
                        <= (py as int) * (stride as int)) by (nonlinear_arith)
                        requires
                            0 <= qy < py,
                            0 <= qx < cols,
                            cols == 8 * (h as int),
                            xoffset + 8 * (h as int) * (bpp as int) <= stride,
                            1 <= bpp <= 3,
                            stride >= 1,
                    ;
                    assert(cell_done(
                        out_prev,
                        mcu@,
                        xoffset as int,
                        width as int,
                        bpp as int,
                        h as int,
                        v as int,
                        qy,
                        qx,
                    ));
                };
                assert forall|qx: int| 0 <= qx < px + 1 implies cell_done(
                    out@,
                    mcu@,
                    xoffset as int,
                    width as int,
                    bpp as int,
                    h as int,
                    v as int,
                    py as int,
                    qx,
                ) by {
                    if qx < px {
                        assert(cell_done(
                            out_prev,
                            mcu@,
                            xoffset as int,
                            width as int,
                            bpp as int,
                            h as int,
                            v as int,
                            py as int,
                            qx,
                        ));
                    }
                };
            }
            px = px + 1;
        }
        proof {
            assert(row_base + stride == (py + 1) * stride && row_base + stride <= (
            stride as int) * (rows as int)) by (nonlinear_arith)
                requires
                    row_base == py * stride,
                    py < rows,
                    stride >= 0,
            ;
        }
        row_base = row_base + stride;
        py = py + 1;
    }
}

/// MCU pixel (qx, qy) has been placed into the row buffer.
pub open spec fn cell_done(
    out: Seq<u8>,
    mcu: Seq<u8>,
    xoffset: int,
    width: int,
    bpp: int,
    h: int,
    v: int,
    qy: int,
    qx: int,
) -> bool {
    let base = qy * (width * bpp) + xoffset + qx * bpp;
    if bpp == 1 {
        out[base] == mcu[qy * 8 + qx]
    } else {
        &&& out[base] == ycc_r(mcu_luma(mcu, h, qx, qy) as int, mcu_cr(mcu, h, v, qx, qy) as int)
        &&& out[base + 1] == ycc_g(
            mcu_luma(mcu, h, qx, qy) as int,
            mcu_cb(mcu, h, v, qx, qy) as int,
            mcu_cr(mcu, h, v, qx, qy) as int,
        )
        &&& out[base + 2] == ycc_b(mcu_luma(mcu, h, qx, qy) as int, mcu_cb(mcu, h, v, qx, qy) as int)
    }
}

/// The byte at position `k` of the row buffer once one MCU has been
/// placed at byte column `xoffset`: cells inside the MCU's byte columns
/// take the copied or converted sample, all others keep `out0`'s value.
pub open spec fn upsample_cell(
    out0: Seq<u8>,
    xoffset: int,
    width: int,
    bpp: int,
    mcu: Seq<u8>,
    h: int,
    v: int,
    k: int,
) -> u8 {
    let stride = width * bpp;
    let py = k / stride;
    let rem = k % stride;
    if xoffset <= rem < xoffset + 8 * h * bpp {
        let d = rem - xoffset;
        if bpp == 1 {
            mcu[py * 8 + d]
        } else {
            let px = d / 3;
            let ch = d % 3;
            if ch == 0 {
                ycc_r(
                    mcu_luma(mcu, h, px, py) as int,
                    mcu_cr(mcu, h, v, px, py) as int,
                ) as u8
            } else if ch == 1 {
                ycc_g(
                    mcu_luma(mcu, h, px, py) as int,
                    mcu_cb(mcu, h, v, px, py) as int,
                    mcu_cr(mcu, h, v, px, py) as int,
                ) as u8
            } else {
                ycc_b(
                    mcu_luma(mcu, h, px, py) as int,
                    mcu_cb(mcu, h, v, px, py) as int,
                ) as u8
            }
        }
    } else {
        out0[k]
    }
}

/// The whole row buffer once one MCU has been placed.
pub open spec fn spec_upsample(
    out0: Seq<u8>,
    xoffset: int,
    width: int,
    bpp: int,
    mcu: Seq<u8>,
    h: int,
    v: int,
) -> Seq<u8> {
    Seq::new(out0.len(), |k: int| upsample_cell(out0, xoffset, width, bpp, mcu, h, v, k))
}

/// The per-cell placement contract of `upsample_mcu_scalar`, taken as a
/// whole, pins the new row buffer to `spec_upsample` of the old one.
pub proof fn lemma_upsample_as_seq(
    out0: Seq<u8>,
    out1: Seq<u8>,
    xoffset: int,
    width: int,
    bpp: int,
    mcu: Seq<u8>,
    h: int,
    v: int,
)
    requires
        1 <= h <= 4,
        1 <= v <= 4,
        bpp == 1 || bpp == 3,
        width >= 1,
        xoffset + 8 * h * bpp <= width * bpp,
        out0.len() == width * bpp * 8 * v,
        out1.len() == out0.len(),
        forall|py: int, px: int|
            0 <= py < 8 * v && 0 <= px < 8 * h ==> #[trigger] cell_done(
                out1,
                mcu,
                xoffset,
                width,
                bpp,
                h,
                v,
                py,
                px,
            ),
        forall|k: int|
            0 <= k < out0.len() && !(xoffset <= k % (width * bpp) < xoffset + 8 * h * bpp)
                ==> out1[k] == out0[k],
    ensures
        out1 == spec_upsample(out0, xoffset, width, bpp, mcu, h, v),
{
    let stride = width * bpp;
    assert(out0.len() == stride * (8 * v)) by (nonlinear_arith)
        requires
            out0.len() == width * bpp * 8 * v,
            stride == width * bpp,
    ;
    assert forall|k: int| 0 <= k < out1.len() implies out1[k] == upsample_cell(
        out0,
        xoffset,
        width,
        bpp,
        mcu,
        h,
        v,
        k,
    ) by {
        lemma_fundamental_div_mod(k, stride);
        lemma_mod_bound(k, stride);
        let py = k / stride;
        let rem = k % stride;
        vstd::arithmetic::div_mod::lemma_div_pos_is_pos(k, stride);
        lemma_multiply_divide_lt(k, stride, 8 * v);
        if xoffset <= rem < xoffset + 8 * h * bpp {
            let d = rem - xoffset;
            if bpp == 1 {
                assert(cell_done(out1, mcu, xoffset, width, bpp, h, v, py, d));
                assert(k == py * stride + xoffset + d);
            } else {
                lemma_fundamental_div_mod(d, 3);
                lemma_mod_bound(d, 3);
                let px = d / 3;
                let ch = d % 3;
                vstd::arithmetic::div_mod::lemma_div_pos_is_pos(d, 3);
                lemma_multiply_divide_lt(d, 3, 8 * h);
                assert(cell_done(out1, mcu, xoffset, width, bpp, h, v, py, px));
                assert(k == py * stride + xoffset + px * 3 + ch);
            }
        }
    };
    assert(out1 =~= spec_upsample(out0, xoffset, width, bpp, mcu, h, v));
}

} // verus!
