//! Fixed-point forward and inverse 8x8 DCT.
//!
//! Both transforms are two-pass separable fixed-point butterfly networks
//! over the Annex A cosine constants at 13 bits of precision, with an
//! extra scale of two bits between the passes.  The forward transform
//! leaves its coefficients scaled by 8; the inverse transform
//! level-shifts its samples by +128 and clamps them to `[0, 255]`.  The
//! inverse transform has a fast path for a block whose AC coefficients
//! are all zero: the output is the uniform descaled DC value, which
//! `lemma_idct_dc_only` proves equal to the general network's output.

use vstd::prelude::*;
use vstd::arithmetic::div_mod::lemma_fundamental_div_mod;
use vstd::arithmetic::div_mod::lemma_fundamental_div_mod_converse;
use vstd::arithmetic::div_mod::lemma_mod_bound;
use crate::util::floor_div;
use crate::util::spec_clamp;

verus! {

/// Pass 1 of the inverse transform on one column `c0..c7` (top to
/// bottom): the eight workspace rows, scaled up by two bits.
#[verifier::opaque]
pub open spec fn idct_col_t(
    c0: int,
    c1: int,
    c2: int,
    c3: int,
    c4: int,
    c5: int,
    c6: int,
    c7: int,
) -> (int, int, int, int, int, int, int, int) {
    let z1e = (c2 + c6) * 4433;
    let t2 = z1e + c2 * 6270;
    let t3 = z1e - c6 * 15137;
    let p0 = c0 * 8192 + 1024;
    let p4 = c4 * 8192;
    let t0 = p0 + p4;
    let t1 = p0 - p4;
    let t10 = t0 + t2;
    let t13 = t0 - t2;
    let t11 = t1 + t3;
    let t12 = t1 - t3;
    let z2 = c7 + c3;
    let z3 = c5 + c1;
    let z1o = (z2 + z3) * 9633;
    let zz2 = z1o - z2 * 16069;
    let zz3 = z1o - z3 * 3196;
    let zb = (c7 + c1) * 7373;
    let o0 = c7 * 2446 - zb + zz2;
    let o3 = c1 * 12299 - zb + zz3;
    let zc = (c5 + c3) * 20995;
    let o1 = c5 * 16819 - zc + zz3;
    let o2 = c3 * 25172 - zc + zz2;
    (
        (t10 + o3) / 2048,
        (t11 + o2) / 2048,
        (t12 + o1) / 2048,
        (t13 + o0) / 2048,
        (t13 - o0) / 2048,
        (t12 - o1) / 2048,
        (t11 - o2) / 2048,
        (t10 - o3) / 2048,
    )
}

/// The workspace value of row `r` from pass 1 on one column.
pub open spec fn idct_col(
    c0: int,
    c1: int,
    c2: int,
    c3: int,
    c4: int,
    c5: int,
    c6: int,
    c7: int,
    r: int,
) -> int {
    let t = idct_col_t(c0, c1, c2, c3, c4, c5, c6, c7);
    if r == 0 {
        t.0
    } else if r == 1 {
        t.1
    } else if r == 2 {
        t.2
    } else if r == 3 {
        t.3
    } else if r == 4 {
        t.4
    } else if r == 5 {
        t.5
    } else if r == 6 {
        t.6
    } else {
        t.7
    }
}

/// The whole workspace after pass 1, in row-major order.
pub open spec fn idct_ws(c: Seq<i16>) -> Seq<int> {
    Seq::new(
        64,
        |j: int|
            idct_col(
                c[j % 8] as int,
                c[8 + j % 8] as int,
                c[16 + j % 8] as int,
                c[24 + j % 8] as int,
                c[32 + j % 8] as int,
                c[40 + j % 8] as int,
                c[48 + j % 8] as int,
                c[56 + j % 8] as int,
                j / 8,
            ),
    )
}

/// Pass 2 of the inverse transform on one workspace row `r0..r7`: the
/// eight samples of the row, level-shifted and clamped.
#[verifier::opaque]
pub open spec fn idct_row_t(
    r0: int,
    r1: int,
    r2: int,
    r3: int,
    r4: int,
    r5: int,
    r6: int,
    r7: int,
) -> (int, int, int, int, int, int, int, int) {
    let z1e = (r2 + r6) * 4433;
    let t2 = z1e + r2 * 6270;
    let t3 = z1e - r6 * 15137;
    let p0 = (r0 + 16 + r4) * 8192;
    let p1 = (r0 + 16 - r4) * 8192;
    let t10 = p0 + t2;
    let t13 = p0 - t2;
    let t11 = p1 + t3;
    let t12 = p1 - t3;
    let z2 = r7 + r3;
    let z3 = r5 + r1;
    let z1o = (z2 + z3) * 9633;
    let zz2 = z1o - z2 * 16069;
    let zz3 = z1o - z3 * 3196;
    let zb = (r7 + r1) * 7373;
    let o0 = r7 * 2446 - zb + zz2;
    let o3 = r1 * 12299 - zb + zz3;
    let zc = (r5 + r3) * 20995;
    let o1 = r5 * 16819 - zc + zz3;
    let o2 = r3 * 25172 - zc + zz2;
    (
        spec_clamp((t10 + o3) / 262144 + 128, 0, 255),
        spec_clamp((t11 + o2) / 262144 + 128, 0, 255),
        spec_clamp((t12 + o1) / 262144 + 128, 0, 255),
        spec_clamp((t13 + o0) / 262144 + 128, 0, 255),
        spec_clamp((t13 - o0) / 262144 + 128, 0, 255),
        spec_clamp((t12 - o1) / 262144 + 128, 0, 255),
        spec_clamp((t11 - o2) / 262144 + 128, 0, 255),
        spec_clamp((t10 - o3) / 262144 + 128, 0, 255),
    )
}

/// The sample at column `x` from pass 2 on one workspace row.
pub open spec fn idct_row(
    r0: int,
    r1: int,
    r2: int,
    r3: int,
    r4: int,
    r5: int,
    r6: int,
    r7: int,
    x: int,
) -> int {
    let t = idct_row_t(r0, r1, r2, r3, r4, r5, r6, r7);
    if x == 0 {
        t.0
    } else if x == 1 {
        t.1
    } else if x == 2 {
        t.2
    } else if x == 3 {
        t.3
    } else if x == 4 {
        t.4
    } else if x == 5 {
        t.5
    } else if x == 6 {
        t.6
    } else {
        t.7
    }
}

/// The sample at block position `j` (row-major) of the inverse transform
/// of coefficient block `c` (row-major, natural order).
#[verifier::opaque]
pub open spec fn spec_idct(c: Seq<i16>, j: int) -> int {
    let ws = idct_ws(c);
    idct_row(
        ws[8 * (j / 8)],
        ws[8 * (j / 8) + 1],
        ws[8 * (j / 8) + 2],
        ws[8 * (j / 8) + 3],
        ws[8 * (j / 8) + 4],
        ws[8 * (j / 8) + 5],
        ws[8 * (j / 8) + 6],
        ws[8 * (j / 8) + 7],
        j % 8,
    )
}

/// Row and column of the eight cells written per pass step.
proof fn lemma_grid(x: int)
    requires
        0 <= x < 8,
    ensures
        forall|k: int|
            0 <= k < 8 ==> (#[trigger] (8 * k + x)) % 8 == x && (8 * k + x) / 8 == k && 0 <= 8
                * k + x < 64,
{
    assert forall|k: int| 0 <= k < 8 implies (8 * k + x) % 8 == x && (#[trigger] (8 * k + x))
        / 8 == k && 0 <= 8 * k + x < 64 by {
        lemma_fundamental_div_mod_converse(8 * k + x, 8, k, x);
    }
}

/// One column of inverse-transform pass 1, in 64-bit arithmetic.
#[verifier::rlimit(100)]
fn idct_col_exec(c0: i16, c1: i16, c2: i16, c3: i16, c4: i16, c5: i16, c6: i16, c7: i16) -> (r: (
    i32,
    i32,
    i32,
    i32,
    i32,
    i32,
    i32,
    i32,
))
    ensures
        (
            r.0 as int,
            r.1 as int,
            r.2 as int,
            r.3 as int,
            r.4 as int,
            r.5 as int,
            r.6 as int,
            r.7 as int,
        ) == idct_col_t(
            c0 as int,
            c1 as int,
            c2 as int,
            c3 as int,
            c4 as int,
            c5 as int,
            c6 as int,
            c7 as int,
        ),
        -2000000 <= r.0 <= 2000000,
        -2000000 <= r.1 <= 2000000,
        -2000000 <= r.2 <= 2000000,
        -2000000 <= r.3 <= 2000000,
        -2000000 <= r.4 <= 2000000,
        -2000000 <= r.5 <= 2000000,
        -2000000 <= r.6 <= 2000000,
        -2000000 <= r.7 <= 2000000,
{
    proof {
        reveal(idct_col_t);
    }
    let z1e: i64 = (c2 as i64 + c6 as i64) * 4433;
    let t2: i64 = z1e + c2 as i64 * 6270;
    let t3: i64 = z1e - c6 as i64 * 15137;
    let p0: i64 = c0 as i64 * 8192 + 1024;
    let p4: i64 = c4 as i64 * 8192;
    let t0: i64 = p0 + p4;
    let t1: i64 = p0 - p4;
    let t10: i64 = t0 + t2;
    let t13: i64 = t0 - t2;
    let t11: i64 = t1 + t3;
    let t12: i64 = t1 - t3;
    let z2: i64 = c7 as i64 + c3 as i64;
    let z3: i64 = c5 as i64 + c1 as i64;
    let z1o: i64 = (z2 + z3) * 9633;
    let zz2: i64 = z1o - z2 * 16069;
    let zz3: i64 = z1o - z3 * 3196;
    let zb: i64 = (c7 as i64 + c1 as i64) * 7373;
    let o0: i64 = c7 as i64 * 2446 - zb + zz2;
    let o3: i64 = c1 as i64 * 12299 - zb + zz3;
    let zc: i64 = (c5 as i64 + c3 as i64) * 20995;
    let o1: i64 = c5 as i64 * 16819 - zc + zz3;
    let o2: i64 = c3 as i64 * 25172 - zc + zz2;
    let w0: i64 = floor_div(t10 + o3, 2048);
    let w1: i64 = floor_div(t11 + o2, 2048);
    let w2: i64 = floor_div(t12 + o1, 2048);
    let w3: i64 = floor_div(t13 + o0, 2048);
    let w4: i64 = floor_div(t13 - o0, 2048);
    let w5: i64 = floor_div(t12 - o1, 2048);
    let w6: i64 = floor_div(t11 - o2, 2048);
    let w7: i64 = floor_div(t10 - o3, 2048);
    (w0 as i32, w1 as i32, w2 as i32, w3 as i32, w4 as i32, w5 as i32, w6 as i32, w7 as i32)
}

/// One row of inverse-transform pass 2, in 64-bit arithmetic.
#[verifier::rlimit(100)]
fn idct_row_exec(r0: i32, r1: i32, r2: i32, r3: i32, r4: i32, r5: i32, r6: i32, r7: i32) -> (r: (
    u8,
    u8,
    u8,
    u8,
    u8,
    u8,
    u8,
    u8,
))
    requires
        -2000000 <= r0 <= 2000000,
        -2000000 <= r1 <= 2000000,
        -2000000 <= r2 <= 2000000,
        -2000000 <= r3 <= 2000000,
        -2000000 <= r4 <= 2000000,
        -2000000 <= r5 <= 2000000,
        -2000000 <= r6 <= 2000000,
        -2000000 <= r7 <= 2000000,
    ensures
        (
            r.0 as int,
            r.1 as int,
            r.2 as int,
            r.3 as int,
            r.4 as int,
            r.5 as int,
            r.6 as int,
            r.7 as int,
        ) == idct_row_t(
            r0 as int,
            r1 as int,
            r2 as int,
            r3 as int,
            r4 as int,
            r5 as int,
            r6 as int,
            r7 as int,
        ),
{
    proof {
        reveal(idct_row_t);
    }
    let z1e: i64 = (r2 as i64 + r6 as i64) * 4433;
    let t2: i64 = z1e + r2 as i64 * 6270;
    let t3: i64 = z1e - r6 as i64 * 15137;
    let p0: i64 = (r0 as i64 + 16 + r4 as i64) * 8192;
    let p1: i64 = (r0 as i64 + 16 - r4 as i64) * 8192;
    let t10: i64 = p0 + t2;
    let t13: i64 = p0 - t2;
    let t11: i64 = p1 + t3;
    let t12: i64 = p1 - t3;
    let z2: i64 = r7 as i64 + r3 as i64;
    let z3: i64 = r5 as i64 + r1 as i64;
    let z1o: i64 = (z2 + z3) * 9633;
    let zz2: i64 = z1o - z2 * 16069;
    let zz3: i64 = z1o - z3 * 3196;
    let zb: i64 = (r7 as i64 + r1 as i64) * 7373;
    let o0: i64 = r7 as i64 * 2446 - zb + zz2;
    let o3: i64 = r1 as i64 * 12299 - zb + zz3;
    let zc: i64 = (r5 as i64 + r3 as i64) * 20995;
    let o1: i64 = r5 as i64 * 16819 - zc + zz3;
    let o2: i64 = r3 as i64 * 25172 - zc + zz2;
    let s0: u8 = level_shift(floor_div(t10 + o3, 262144));
    let s1: u8 = level_shift(floor_div(t11 + o2, 262144));
    let s2: u8 = level_shift(floor_div(t12 + o1, 262144));
    let s3: u8 = level_shift(floor_div(t13 + o0, 262144));
    let s4: u8 = level_shift(floor_div(t13 - o0, 262144));
    let s5: u8 = level_shift(floor_div(t12 - o1, 262144));
    let s6: u8 = level_shift(floor_div(t11 - o2, 262144));
    let s7: u8 = level_shift(floor_div(t10 - o3, 262144));
    (s0, s1, s2, s3, s4, s5, s6, s7)
}

/// Level shift by +128 and clamp to one sample byte.
fn level_shift(v: i64) -> (r: u8)
    requires
        -0x100000000 <= v <= 0x100000000,
    ensures
        r == spec_clamp(v + 128, 0, 255),
{
    let w: i64 = v + 128;
    if w < 0 {
        0
    } else if w > 255 {
        255
    } else {
        w as u8
    }
}

/// Inverse transform of one coefficient block: writes the 64 samples of
/// the block into `samples[base .. base + 64]` in row-major order.
#[verifier::rlimit(100)]
pub fn idct(coeffs: &Vec<i16>, samples: &mut Vec<u8>, base: usize)
    requires
        coeffs@.len() == 64,
        base + 64 <= old(samples)@.len(),
    ensures
        final(samples)@.len() == old(samples)@.len(),
        forall|j: int| 0 <= j < 64 ==> final(samples)@[base + j] == spec_idct(coeffs@, j),
        forall|k: int|
            0 <= k < old(samples)@.len() && !(base <= k < base + 64) ==> final(samples)@[k]
                == old(samples)@[k],
{
    let mut allzero: bool = true;
    let mut k: usize = 1;
    while k < 64
        invariant
            1 <= k <= 64,
            coeffs@.len() == 64,
            allzero <==> (forall|m: int| 1 <= m < k ==> coeffs@[m] == 0),
        decreases 64 - k,
    {
        if coeffs[k] != 0 {
            allzero = false;
            k = 64;
        } else {
            k = k + 1;
        }
    }
    if allzero {
        let dc: i16 = coeffs[0];
        let v: u8 = level_shift(floor_div(dc as i64 + 4, 8));
        let mut j: usize = 0;
        while j < 64
            invariant
                j <= 64,
                coeffs@.len() == 64,
                forall|m: int| 1 <= m < 64 ==> coeffs@[m] == 0,
                v == spec_clamp((coeffs@[0] + 4) / 8 + 128, 0, 255),
                base + 64 <= samples@.len(),
                samples@.len() == old(samples)@.len(),
                forall|m: int| 0 <= m < j ==> samples@[base + m] == spec_idct(coeffs@, m),
                forall|m: int|
                    0 <= m < samples@.len() && !(base <= m < base + 64) ==> samples@[m] == old(
                        samples,
                    )@[m],
            decreases 64 - j,
        {
            let sl: usize = samples.len();
            samples[base + j] = v;
            proof {
                lemma_idct_dc_only(coeffs@, j as int);
            }
            j = j + 1;
        }
    } else {
        let mut ws: Vec<i32> = Vec::new();
        let mut i: usize = 0;
        while i < 64
            invariant
                i <= 64,
                ws@.len() == i,
            decreases 64 - i,
        {
            ws.push(0i32);
            i = i + 1;
        }
        let mut x: usize = 0;
        while x < 8
            invariant
                x <= 8,
                coeffs@.len() == 64,
                ws@.len() == 64,
                forall|j: int|
                    0 <= j < 64 && (j % 8) < x ==> #[trigger] ws@[j] == idct_ws(coeffs@)[j]
                        && -2000000 <= ws@[j] <= 2000000,
            decreases 8 - x,
        {
            let (w0, w1, w2, w3, w4, w5, w6, w7) = idct_col_exec(
                coeffs[x],
                coeffs[8 + x],
                coeffs[16 + x],
                coeffs[24 + x],
                coeffs[32 + x],
                coeffs[40 + x],
                coeffs[48 + x],
                coeffs[56 + x],
            );
            ws[x] = w0;
            ws[8 + x] = w1;
            ws[16 + x] = w2;
            ws[24 + x] = w3;
            ws[32 + x] = w4;
            ws[40 + x] = w5;
            ws[48 + x] = w6;
            ws[56 + x] = w7;
            proof {
                lemma_grid(x as int);
                assert forall|j: int| 0 <= j < 64 && (j % 8) < x + 1 implies #[trigger] ws@[j]
                    == idct_ws(coeffs@)[j] && -2000000 <= ws@[j] <= 2000000 by {
                    lemma_fundamental_div_mod(j, 8);
                    lemma_mod_bound(j, 8);
                    assert(j == 8 * (j / 8) + (j % 8));
                };
            }
            x = x + 1;
        }
        let mut y: usize = 0;
        while y < 8
            invariant
                y <= 8,
                coeffs@.len() == 64,
                ws@.len() == 64,
                base + 64 <= samples@.len(),
                samples@.len() == old(samples)@.len(),
                forall|j: int|
                    0 <= j < 64 ==> #[trigger] ws@[j] == idct_ws(coeffs@)[j] && -2000000
                        <= ws@[j] <= 2000000,
                forall|m: int|
                    0 <= m < 64 && (m / 8) < y ==> #[trigger] samples@[base + m] == spec_idct(
                        coeffs@,
                        m,
                    ),
                forall|m: int|
                    0 <= m < samples@.len() && !(base <= m < base + 64) ==> samples@[m] == old(
                        samples,
                    )@[m],
            decreases 8 - y,
        {
            let sl: usize = samples.len();
            let (s0, s1, s2, s3, s4, s5, s6, s7) = idct_row_exec(
                ws[8 * y],
                ws[8 * y + 1],
                ws[8 * y + 2],
                ws[8 * y + 3],
                ws[8 * y + 4],
                ws[8 * y + 5],
                ws[8 * y + 6],
                ws[8 * y + 7],
            );
            samples[base + 8 * y] = s0;
            samples[base + 8 * y + 1] = s1;
            samples[base + 8 * y + 2] = s2;
            samples[base + 8 * y + 3] = s3;
            samples[base + 8 * y + 4] = s4;
            samples[base + 8 * y + 5] = s5;
            samples[base + 8 * y + 6] = s6;
            samples[base + 8 * y + 7] = s7;
            proof {
                lemma_grid(0);
                assert forall|m: int| 0 <= m < 64 && (m / 8) < y + 1
                    implies #[trigger] samples@[base + m] == spec_idct(coeffs@, m) by {
                    reveal(spec_idct);
                    lemma_fundamental_div_mod(m, 8);
                    lemma_mod_bound(m, 8);
                    assert(m == 8 * (m / 8) + (m % 8));
                };
            }
            y = y + 1;
        }
    }
}

/// With every AC coefficient zero, the general network reduces to the
/// uniform descaled DC value in every cell: the fast path and the slow
/// path of the inverse transform agree.
pub proof fn lemma_idct_dc_only(c: Seq<i16>, j: int)
    requires
        c.len() == 64,
        forall|m: int| 1 <= m < 64 ==> c[m] == 0,
        0 <= j < 64,
    ensures
        spec_idct(c, j) == spec_clamp((c[0] + 4) / 8 + 128, 0, 255),
{
    reveal(spec_idct);
    reveal(idct_col_t);
    reveal(idct_row_t);
    let ws = idct_ws(c);
    lemma_fundamental_div_mod(j, 8);
    lemma_mod_bound(j, 8);
    let y = j / 8;
    assert forall|m: int| 0 <= m < 64 implies #[trigger] ws[m] == (if m % 8 == 0 {
        4 * (c[0] as int)
    } else {
        0
    }) by {
        lemma_mod_bound(m, 8);
        if m % 8 == 0 {
            lemma_fundamental_div_mod_converse(
                (c[0] as int) * 8192 + 1024,
                2048,
                4 * (c[0] as int),
                1024,
            );
        } else {
            assert(c[m % 8] == 0 && c[8 + m % 8] == 0 && c[16 + m % 8] == 0 && c[24 + m % 8]
                == 0 && c[32 + m % 8] == 0 && c[40 + m % 8] == 0 && c[48 + m % 8] == 0 && c[56
                + m % 8] == 0);
            assert(idct_col(0, 0, 0, 0, 0, 0, 0, 0, m / 8) == 1024int / 2048);
        }
    };
    assert(0 <= 8 * y < 64 && (8 * y) % 8 == 0) by {
        lemma_fundamental_div_mod_converse(8 * y, 8, y, 0);
    }
    assert forall|k: int| 1 <= k < 8 implies #[trigger] ws[8 * y + k] == 0 by {
        lemma_fundamental_div_mod_converse(8 * y + k, 8, y, k);
    };
    let d = c[0] as int;
    let q = (d + 4) / 8;
    lemma_fundamental_div_mod(d + 4, 8);
    lemma_mod_bound(d + 4, 8);
    lemma_fundamental_div_mod_converse((4 * d + 16) * 8192, 262144, q, 32768 * ((d + 4) % 8));
    assert(spec_idct(c, j) == idct_row(4 * d, 0, 0, 0, 0, 0, 0, 0, j % 8));
}

/// Pass 1 of the forward transform on one sample row `s0..s7`: the eight
/// row coefficients, scaled up by two bits, with the 8x128 level shift
/// folded into the DC term.
#[verifier::opaque]
pub open spec fn fdct_row_t(
    s0: int,
    s1: int,
    s2: int,
    s3: int,
    s4: int,
    s5: int,
    s6: int,
    s7: int,
) -> (int, int, int, int, int, int, int, int) {
    let a0 = s0 + s7;
    let a1 = s1 + s6;
    let a2 = s2 + s5;
    let a3 = s3 + s4;
    let t10 = a0 + a3;
    let t12 = a0 - a3;
    let t11 = a1 + a2;
    let t13 = a1 - a2;
    let d0 = s0 - s7;
    let d1 = s1 - s6;
    let d2 = s2 - s5;
    let d3 = s3 - s4;
    let z1 = (t12 + t13) * 4433 + 1024;
    let t12o = d0 + d2;
    let t13o = d1 + d3;
    let z1o = (t12o + t13o) * 9633 + 1024;
    let t12b = z1o - t12o * 3196;
    let t13b = z1o - t13o * 16069;
    let zb = (d0 + d3) * 7373;
    let o0 = d0 * 12299 - zb + t12b;
    let o3 = d3 * 2446 - zb + t13b;
    let zc = (d1 + d2) * 20995;
    let o1 = d1 * 25172 - zc + t13b;
    let o2 = d2 * 16819 - zc + t12b;
    (
        (t10 + t11 - 1024) * 4,
        o0 / 2048,
        (z1 + t12 * 6270) / 2048,
        o1 / 2048,
        (t10 - t11) * 4,
        o2 / 2048,
        (z1 - t13 * 15137) / 2048,
        o3 / 2048,
    )
}

/// The row coefficient at position `k` from pass 1 on one sample row.
pub open spec fn fdct_row(
    s0: int,
    s1: int,
    s2: int,
    s3: int,
    s4: int,
    s5: int,
    s6: int,
    s7: int,
    k: int,
) -> int {
    let t = fdct_row_t(s0, s1, s2, s3, s4, s5, s6, s7);
    if k == 0 {
        t.0
    } else if k == 1 {
        t.1
    } else if k == 2 {
        t.2
    } else if k == 3 {
        t.3
    } else if k == 4 {
        t.4
    } else if k == 5 {
        t.5
    } else if k == 6 {
        t.6
    } else {
        t.7
    }
}

/// The whole intermediate matrix after pass 1, in row-major order.
pub open spec fn fdct_mid(s: Seq<u8>) -> Seq<int> {
    Seq::new(
        64,
        |j: int|
            fdct_row(
                s[8 * (j / 8)] as int,
                s[8 * (j / 8) + 1] as int,
                s[8 * (j / 8) + 2] as int,
                s[8 * (j / 8) + 3] as int,
                s[8 * (j / 8) + 4] as int,
                s[8 * (j / 8) + 5] as int,
                s[8 * (j / 8) + 6] as int,
                s[8 * (j / 8) + 7] as int,
                j % 8,
            ),
    )
}

/// Pass 2 of the forward transform on one intermediate column `m0..m7`
/// (top to bottom): the eight column coefficients, with the inter-pass
/// scale removed and the overall factor of 8 kept.
#[verifier::opaque]
pub open spec fn fdct_col_t(
    m0: int,
    m1: int,
    m2: int,
    m3: int,
    m4: int,
    m5: int,
    m6: int,
    m7: int,
) -> (int, int, int, int, int, int, int, int) {
    let a0 = m0 + m7;
    let a1 = m1 + m6;
    let a2 = m2 + m5;
    let a3 = m3 + m4;
    let t10 = a0 + a3 + 2;
    let t12 = a0 - a3;
    let t11 = a1 + a2;
    let t13 = a1 - a2;
    let d0 = m0 - m7;
    let d1 = m1 - m6;
    let d2 = m2 - m5;
    let d3 = m3 - m4;
    let z1 = (t12 + t13) * 4433 + 16384;
    let t12o = d0 + d2;
    let t13o = d1 + d3;
    let z1o = (t12o + t13o) * 9633 + 1024;
    let t12b = z1o - t12o * 3196;
    let t13b = z1o - t13o * 16069;
    let zb = (d0 + d3) * 7373;
    let o0 = d0 * 12299 - zb + t12b;
    let o3 = d3 * 2446 - zb + t13b;
    let zc = (d1 + d2) * 20995;
    let o1 = d1 * 25172 - zc + t13b;
    let o2 = d2 * 16819 - zc + t12b;
    (
        (t10 + t11) / 4,
        o0 / 32768,
        (z1 + t12 * 6270) / 32768,
        o1 / 32768,
        (t10 - t11) / 4,
        o2 / 32768,
        (z1 - t13 * 15137) / 32768,
        o3 / 32768,
    )
}

/// The column coefficient at row `k` from pass 2 on one column.
pub open spec fn fdct_col(
    m0: int,
    m1: int,
    m2: int,
    m3: int,
    m4: int,
    m5: int,
    m6: int,
    m7: int,
    k: int,
) -> int {
    let t = fdct_col_t(m0, m1, m2, m3, m4, m5, m6, m7);
    if k == 0 {
        t.0
    } else if k == 1 {
        t.1
    } else if k == 2 {
        t.2
    } else if k == 3 {
        t.3
    } else if k == 4 {
        t.4
    } else if k == 5 {
        t.5
    } else if k == 6 {
        t.6
    } else {
        t.7
    }
}

/// The coefficient at block position `j` (row-major, natural order) of
/// the forward transform of sample block `s` (row-major).
#[verifier::opaque]
pub open spec fn spec_fdct(s: Seq<u8>, j: int) -> int {
    let m = fdct_mid(s);
    fdct_col(
        m[j % 8],
        m[8 + j % 8],
        m[16 + j % 8],
        m[24 + j % 8],
        m[32 + j % 8],
        m[40 + j % 8],
        m[48 + j % 8],
        m[56 + j % 8],
        j / 8,
    )
}

/// One row of forward-transform pass 1, in 64-bit arithmetic.
#[verifier::rlimit(100)]
fn fdct_row_exec(s0: u8, s1: u8, s2: u8, s3: u8, s4: u8, s5: u8, s6: u8, s7: u8) -> (r: (
    i32,
    i32,
    i32,
    i32,
    i32,
    i32,
    i32,
    i32,
))
    ensures
        (
            r.0 as int,
            r.1 as int,
            r.2 as int,
            r.3 as int,
            r.4 as int,
            r.5 as int,
            r.6 as int,
            r.7 as int,
        ) == fdct_row_t(
            s0 as int,
            s1 as int,
            s2 as int,
            s3 as int,
            s4 as int,
            s5 as int,
            s6 as int,
            s7 as int,
        ),
        -17000 <= r.0 <= 17000,
        -17000 <= r.1 <= 17000,
        -17000 <= r.2 <= 17000,
        -17000 <= r.3 <= 17000,
        -17000 <= r.4 <= 17000,
        -17000 <= r.5 <= 17000,
        -17000 <= r.6 <= 17000,
        -17000 <= r.7 <= 17000,
{
    proof {
        reveal(fdct_row_t);
    }
    let a0: i64 = s0 as i64 + s7 as i64;
    let a1: i64 = s1 as i64 + s6 as i64;
    let a2: i64 = s2 as i64 + s5 as i64;
    let a3: i64 = s3 as i64 + s4 as i64;
    let t10: i64 = a0 + a3;
    let t12: i64 = a0 - a3;
    let t11: i64 = a1 + a2;
    let t13: i64 = a1 - a2;
    let d0: i64 = s0 as i64 - s7 as i64;
    let d1: i64 = s1 as i64 - s6 as i64;
    let d2: i64 = s2 as i64 - s5 as i64;
    let d3: i64 = s3 as i64 - s4 as i64;
    let z1: i64 = (t12 + t13) * 4433 + 1024;
    let t12o: i64 = d0 + d2;
    let t13o: i64 = d1 + d3;
    let z1o: i64 = (t12o + t13o) * 9633 + 1024;
    let t12b: i64 = z1o - t12o * 3196;
    let t13b: i64 = z1o - t13o * 16069;
    let zb: i64 = (d0 + d3) * 7373;
    let o0: i64 = d0 * 12299 - zb + t12b;
    let o3: i64 = d3 * 2446 - zb + t13b;
    let zc: i64 = (d1 + d2) * 20995;
    let o1: i64 = d1 * 25172 - zc + t13b;
    let o2: i64 = d2 * 16819 - zc + t12b;
    let w0: i64 = (t10 + t11 - 1024) * 4;
    let w1: i64 = floor_div(o0, 2048);
    let w2: i64 = floor_div(z1 + t12 * 6270, 2048);
    let w3: i64 = floor_div(o1, 2048);
    let w4: i64 = (t10 - t11) * 4;
    let w5: i64 = floor_div(o2, 2048);
    let w6: i64 = floor_div(z1 - t13 * 15137, 2048);
    let w7: i64 = floor_div(o3, 2048);
    (w0 as i32, w1 as i32, w2 as i32, w3 as i32, w4 as i32, w5 as i32, w6 as i32, w7 as i32)
}

/// One column of forward-transform pass 2, in 64-bit arithmetic.
#[verifier::rlimit(100)]
fn fdct_col_exec(m0: i32, m1: i32, m2: i32, m3: i32, m4: i32, m5: i32, m6: i32, m7: i32) -> (r: (
    i32,
    i32,
    i32,
    i32,
    i32,
    i32,
    i32,
    i32,
))
    requires
        -17000 <= m0 <= 17000,
        -17000 <= m1 <= 17000,
        -17000 <= m2 <= 17000,
        -17000 <= m3 <= 17000,
        -17000 <= m4 <= 17000,
        -17000 <= m5 <= 17000,
        -17000 <= m6 <= 17000,
        -17000 <= m7 <= 17000,
    ensures
        (
            r.0 as int,
            r.1 as int,
            r.2 as int,
            r.3 as int,
            r.4 as int,
            r.5 as int,
            r.6 as int,
            r.7 as int,
        ) == fdct_col_t(
            m0 as int,
            m1 as int,
            m2 as int,
            m3 as int,
            m4 as int,
            m5 as int,
            m6 as int,
            m7 as int,
        ),
{
    proof {
        reveal(fdct_col_t);
    }
    let a0: i64 = m0 as i64 + m7 as i64;
    let a1: i64 = m1 as i64 + m6 as i64;
    let a2: i64 = m2 as i64 + m5 as i64;
    let a3: i64 = m3 as i64 + m4 as i64;
    let t10: i64 = a0 + a3 + 2;
    let t12: i64 = a0 - a3;
    let t11: i64 = a1 + a2;
    let t13: i64 = a1 - a2;
    let d0: i64 = m0 as i64 - m7 as i64;
    let d1: i64 = m1 as i64 - m6 as i64;
    let d2: i64 = m2 as i64 - m5 as i64;
    let d3: i64 = m3 as i64 - m4 as i64;
    let z1: i64 = (t12 + t13) * 4433 + 16384;
    let t12o: i64 = d0 + d2;
    let t13o: i64 = d1 + d3;
    let z1o: i64 = (t12o + t13o) * 9633 + 1024;
    let t12b: i64 = z1o - t12o * 3196;
    let t13b: i64 = z1o - t13o * 16069;
    let zb: i64 = (d0 + d3) * 7373;
    let o0: i64 = d0 * 12299 - zb + t12b;
    let o3: i64 = d3 * 2446 - zb + t13b;
    let zc: i64 = (d1 + d2) * 20995;
    let o1: i64 = d1 * 25172 - zc + t13b;
    let o2: i64 = d2 * 16819 - zc + t12b;
    let w0: i64 = floor_div(t10 + t11, 4);
    let w1: i64 = floor_div(o0, 32768);
    let w2: i64 = floor_div(z1 + t12 * 6270, 32768);
    let w3: i64 = floor_div(o1, 32768);
    let w4: i64 = floor_div(t10 - t11, 4);
    let w5: i64 = floor_div(o2, 32768);
    let w6: i64 = floor_div(z1 - t13 * 15137, 32768);
    let w7: i64 = floor_div(o3, 32768);
    (w0 as i32, w1 as i32, w2 as i32, w3 as i32, w4 as i32, w5 as i32, w6 as i32, w7 as i32)
}

/// Forward transform of one 8x8 sample block into `coeffs`, natural
/// order, scaled by 8.
#[verifier::rlimit(100)]
pub fn fdct(samples: &Vec<u8>, coeffs: &mut Vec<i32>)
    requires
        samples@.len() == 64,
        old(coeffs)@.len() == 64,
    ensures
        final(coeffs)@.len() == 64,
        forall|j: int| 0 <= j < 64 ==> final(coeffs)@[j] == spec_fdct(samples@, j),
{
    let mut mid: Vec<i32> = Vec::new();
    let mut i: usize = 0;
    while i < 64
        invariant
            i <= 64,
            mid@.len() == i,
        decreases 64 - i,
    {
        mid.push(0i32);
        i = i + 1;
    }
    let mut y: usize = 0;
    while y < 8
        invariant
            y <= 8,
            samples@.len() == 64,
            mid@.len() == 64,
            forall|j: int|
                0 <= j < 64 && (j / 8) < y ==> #[trigger] mid@[j] == fdct_mid(samples@)[j]
                    && -17000 <= mid@[j] <= 17000,
        decreases 8 - y,
    {
        let (w0, w1, w2, w3, w4, w5, w6, w7) = fdct_row_exec(
            samples[8 * y],
            samples[8 * y + 1],
            samples[8 * y + 2],
            samples[8 * y + 3],
            samples[8 * y + 4],
            samples[8 * y + 5],
            samples[8 * y + 6],
            samples[8 * y + 7],
        );
        mid[8 * y] = w0;
        mid[8 * y + 1] = w1;
        mid[8 * y + 2] = w2;
        mid[8 * y + 3] = w3;
        mid[8 * y + 4] = w4;
        mid[8 * y + 5] = w5;
        mid[8 * y + 6] = w6;
        mid[8 * y + 7] = w7;
        proof {
            lemma_grid(0);
            assert forall|j: int| 0 <= j < 64 && (j / 8) < y + 1 implies #[trigger] mid@[j]
                == fdct_mid(samples@)[j] && -17000 <= mid@[j] <= 17000 by {
                lemma_fundamental_div_mod(j, 8);
                lemma_mod_bound(j, 8);
                assert(j == 8 * (j / 8) + (j % 8));
            };
        }
        y = y + 1;
    }
    let mut x: usize = 0;
    while x < 8
        invariant
            x <= 8,
            samples@.len() == 64,
            mid@.len() == 64,
            coeffs@.len() == 64,
            forall|j: int|
                0 <= j < 64 ==> #[trigger] mid@[j] == fdct_mid(samples@)[j] && -17000
                    <= mid@[j] <= 17000,
            forall|j: int|
                0 <= j < 64 && (j % 8) < x ==> #[trigger] coeffs@[j] == spec_fdct(samples@, j),
        decreases 8 - x,
    {
        let (w0, w1, w2, w3, w4, w5, w6, w7) = fdct_col_exec(
            mid[x],
            mid[8 + x],
            mid[16 + x],
            mid[24 + x],
            mid[32 + x],
            mid[40 + x],
            mid[48 + x],
            mid[56 + x],
        );
        coeffs[x] = w0;
        coeffs[8 + x] = w1;
        coeffs[16 + x] = w2;
        coeffs[24 + x] = w3;
        coeffs[32 + x] = w4;
        coeffs[40 + x] = w5;
        coeffs[48 + x] = w6;
        coeffs[56 + x] = w7;
        proof {
            lemma_grid(x as int);
            assert forall|j: int| 0 <= j < 64 && (j % 8) < x + 1 implies #[trigger] coeffs@[j]
                == spec_fdct(samples@, j) by {
                reveal(spec_fdct);
                lemma_fundamental_div_mod(j, 8);
                lemma_mod_bound(j, 8);
                assert(j == 8 * (j / 8) + (j % 8));
            };
        }
        x = x + 1;
    }
}

} // verus!
