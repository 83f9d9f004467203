//! Small arithmetic helpers shared by the parser, the entropy decoder and
//! the sample pipeline: powers of two, clamping, and the JPEG sign
//! extension of Annex F.2.2.1.

use vstd::prelude::*;
use vstd::arithmetic::power2::pow2;
use vstd::arithmetic::power2::lemma2_to64;

verus! {

/// Power of two as an executable `u32`, for exponents up to 16.
pub fn two_pow16(e: u8) -> (r: u32)
    requires
        e <= 16,
    ensures
        r == pow2(e as nat),
{
    proof {
        lemma2_to64();
    }
    match e {
        0 => 1,
        1 => 2,
        2 => 4,
        3 => 8,
        4 => 16,
        5 => 32,
        6 => 64,
        7 => 128,
        8 => 256,
        9 => 512,
        10 => 1024,
        11 => 2048,
        12 => 4096,
        13 => 8192,
        14 => 16384,
        15 => 32768,
        _ => 65536,
    }
}

/// Power of two as an executable `u64`, for exponents up to 32.
pub fn two_pow32(e: u8) -> (r: u64)
    requires
        e <= 32,
    ensures
        r == pow2(e as nat),
{
    proof {
        lemma2_to64();
    }
    if e <= 16 {
        two_pow16(e) as u64
    } else {
        (two_pow16(16) as u64) * (two_pow16((e - 16) as u8) as u64)
    }
}

/// Clamp `x` to the inclusive range `[lo, hi]`.
pub open spec fn spec_clamp(x: int, lo: int, hi: int) -> int {
    if x < lo {
        lo
    } else if x > hi {
        hi
    } else {
        x
    }
}

/// Division by a positive divisor, rounding toward minus infinity: the
/// arithmetic right shift that descales fixed-point products.  Beside the
/// quotient itself the contract carries the two-sided bound that callers
/// use to keep their intermediates in range.
pub fn floor_div(x: i64, d: u64) -> (r: i64)
    requires
        1 <= d <= 0x100000000,
        -0x4000000000000000 <= x <= 0x4000000000000000,
    ensures
        r == (x as int) / (d as int),
        (d as int) * r <= x < (d as int) * r + (d as int),
{
    let r: i64 = if x >= 0 {
        let q: u64 = (x as u64) / d;
        proof {
            vstd::arithmetic::div_mod::lemma_fundamental_div_mod(x as int, d as int);
            vstd::arithmetic::div_mod::lemma_mod_bound(x as int, d as int);
        }
        q as i64
    } else {
        let a: u64 = (-x) as u64;
        let q: u64 = (a + d - 1) / d;
        proof {
            let num = (a + d - 1) as int;
            let di = d as int;
            let qq = num / di;
            let rr = num % di;
            vstd::arithmetic::div_mod::lemma_fundamental_div_mod(num, di);
            vstd::arithmetic::div_mod::lemma_mod_bound(num, di);
            assert(x as int == (-qq) * di + (di - 1 - rr)) by (nonlinear_arith)
                requires
                    num == di * qq + rr,
                    num == (a as int) + di - 1,
                    (a as int) == -(x as int),
            ;
            vstd::arithmetic::div_mod::lemma_fundamental_div_mod_converse(
                x as int,
                di,
                -qq,
                di - 1 - rr,
            );
        }
        -(q as i64)
    };
    proof {
        vstd::arithmetic::div_mod::lemma_fundamental_div_mod(x as int, d as int);
        vstd::arithmetic::div_mod::lemma_mod_bound(x as int, d as int);
    }
    r
}

/// Two's-complement wrap of an integer into the 16-bit signed range.
pub open spec fn spec_wrap_i16(x: int) -> int {
    let m = x % 65536;
    if m >= 32768 {
        m - 65536
    } else {
        m
    }
}

/// Executable wrap matching `spec_wrap_i16`, for dequantized
/// coefficients that run outside 16 bits on corrupt streams.
pub fn wrap_i16(x: i32) -> (r: i16)
    requires
        -0x4000000 <= x <= 0x4000000,
    ensures
        r as int == spec_wrap_i16(x as int),
{
    proof {
        vstd::arithmetic::div_mod::lemma_mod_bound(x as int + 0x4000000, 65536);
        vstd::arithmetic::div_mod::lemma_mod_add_multiples_vanish(x as int, 65536);
        assert(x as int + 0x4000000 == 65536 * 1024 + x as int);
        lemma_mod_shift_multiple(x as int, 1024);
    }
    let m: u32 = ((x + 0x4000000) as u32) % 65536;
    if m >= 32768 {
        (m as i32 - 65536) as i16
    } else {
        m as i16
    }
}

/// Adding a multiple of 65536 does not change the remainder mod 65536.
proof fn lemma_mod_shift_multiple(x: int, k: int)
    ensures
        (65536 * k + x) % 65536 == x % 65536,
{
    vstd::arithmetic::div_mod::lemma_mod_multiples_vanish(k, x, 65536);
}

/// Sign extension of a `t`-bit magnitude `v` (Annex F.2.2.1, figure F.12):
/// a value whose leading bit is clear codes a negative number,
/// `v - 2^t + 1`; otherwise `v` itself.  With `t == 0` the value is
/// returned unchanged (the decoder only ever passes `v == 0` there).
pub open spec fn spec_extend(v: int, t: nat) -> int {
    if t == 0 {
        v
    } else if v < pow2((t - 1) as nat) {
        v - pow2(t) + 1
    } else {
        v
    }
}

/// Executable sign extension matching `spec_extend`.
pub fn extend(v: i32, t: u8) -> (r: i32)
    requires
        t <= 16,
        0 <= v < pow2(t as nat),
    ensures
        r == spec_extend(v as int, t as nat),
        -65535 <= r <= 65535,
{
    proof {
        lemma2_to64();
        if (t as nat) < 16 {
            vstd::arithmetic::power2::lemma_pow2_strictly_increases(t as nat, 16);
        }
    }
    if t == 0 {
        v
    } else {
        let half = two_pow16(t - 1);
        let full = two_pow16(t);
        proof {
            assert(pow2((t - 1) as nat) * 2 == pow2(t as nat)) by {
                vstd::arithmetic::power2::lemma_pow2_unfold(t as nat);
            }
        }
        if v < half as i32 {
            v - full as i32 + 1
        } else {
            v
        }
    }
}

} // verus!
