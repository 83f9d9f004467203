//! The zig-zag serialization order of DCT coefficients: entry `k` is the
//! natural row-major position of the coefficient serialized at zig-zag
//! position `k` (ITU-T T.81, figure 5).

use vstd::prelude::*;

verus! {

/// Natural row-major position of zig-zag position `k`.
pub open spec fn spec_unzigzag(k: int) -> int {
    if k == 0 {
        0
    } else if k == 1 {
        1
    } else if k == 2 {
        8
    } else if k == 3 {
        16
    } else if k == 4 {
        9
    } else if k == 5 {
        2
    } else if k == 6 {
        3
    } else if k == 7 {
        10
    } else if k == 8 {
        17
    } else if k == 9 {
        24
    } else if k == 10 {
        32
    } else if k == 11 {
        25
    } else if k == 12 {
        18
    } else if k == 13 {
        11
    } else if k == 14 {
        4
    } else if k == 15 {
        5
    } else if k == 16 {
        12
    } else if k == 17 {
        19
    } else if k == 18 {
        26
    } else if k == 19 {
        33
    } else if k == 20 {
        40
    } else if k == 21 {
        48
    } else if k == 22 {
        41
    } else if k == 23 {
        34
    } else if k == 24 {
        27
    } else if k == 25 {
        20
    } else if k == 26 {
        13
    } else if k == 27 {
        6
    } else if k == 28 {
        7
    } else if k == 29 {
        14
    } else if k == 30 {
        21
    } else if k == 31 {
        28
    } else if k == 32 {
        35
    } else if k == 33 {
        42
    } else if k == 34 {
        49
    } else if k == 35 {
        56
    } else if k == 36 {
        57
    } else if k == 37 {
        50
    } else if k == 38 {
        43
    } else if k == 39 {
        36
    } else if k == 40 {
        29
    } else if k == 41 {
        22
    } else if k == 42 {
        15
    } else if k == 43 {
        23
    } else if k == 44 {
        30
    } else if k == 45 {
        37
    } else if k == 46 {
        44
    } else if k == 47 {
        51
    } else if k == 48 {
        58
    } else if k == 49 {
        59
    } else if k == 50 {
        52
    } else if k == 51 {
        45
    } else if k == 52 {
        38
    } else if k == 53 {
        31
    } else if k == 54 {
        39
    } else if k == 55 {
        46
    } else if k == 56 {
        53
    } else if k == 57 {
        60
    } else if k == 58 {
        61
    } else if k == 59 {
        54
    } else if k == 60 {
        47
    } else if k == 61 {
        55
    } else if k == 62 {
        62
    } else {
        63
    }
}

/// Executable lookup matching `spec_unzigzag`.
pub fn unzigzag(k: u8) -> (r: u8)
    requires
        k < 64,
    ensures
        r == spec_unzigzag(k as int),
        r < 64,
{
    match k {
        0 => 0,
        1 => 1,
        2 => 8,
        3 => 16,
        4 => 9,
        5 => 2,
        6 => 3,
        7 => 10,
        8 => 17,
        9 => 24,
        10 => 32,
        11 => 25,
        12 => 18,
        13 => 11,
        14 => 4,
        15 => 5,
        16 => 12,
        17 => 19,
        18 => 26,
        19 => 33,
        20 => 40,
        21 => 48,
        22 => 41,
        23 => 34,
        24 => 27,
        25 => 20,
        26 => 13,
        27 => 6,
        28 => 7,
        29 => 14,
        30 => 21,
        31 => 28,
        32 => 35,
        33 => 42,
        34 => 49,
        35 => 56,
        36 => 57,
        37 => 50,
        38 => 43,
        39 => 36,
        40 => 29,
        41 => 22,
        42 => 15,
        43 => 23,
        44 => 30,
        45 => 37,
        46 => 44,
        47 => 51,
        48 => 58,
        49 => 59,
        50 => 52,
        51 => 45,
        52 => 38,
        53 => 31,
        54 => 39,
        55 => 46,
        56 => 53,
        57 => 60,
        58 => 61,
        59 => 54,
        60 => 47,
        61 => 55,
        62 => 62,
        _ => 63,
    }
}

} // verus!
