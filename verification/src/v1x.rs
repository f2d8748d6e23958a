//! The codebooks of version 1 streams.
//!
//! Two sets of fixed codebooks serve streams without extradata: set A for luma
//! and for all RGB channels, set B for chroma. Each set gives the codeword
//! lengths, run-length coded, and the right-aligned codewords.

use vstd::prelude::*;
use vstd::arithmetic::power2::{lemma2_to64, lemma_pow2_pos};

use crate::canonical::{code_width, CODE_SPACE};
use crate::rle::{expand, repeated, run_at};
use crate::tables::{
    entries_wf, is_prefix_free, lemma_pair_entries, lemma_shows_is_range, pair_entries, shows,
};

verus! {

/// The run-length coded codeword lengths of set A.
pub const V1X_LENGTHS_A: [u8; 42] = [
    34, 36, 35, 69, 135, 232, 9, 16, 10, 24, 11, 23, 12, 16, 13, 10,
    14, 8, 15, 8, 16, 8, 17, 20, 16, 10, 207, 206, 205, 236, 11, 8,
    10, 21, 9, 23, 8, 8, 199, 70, 69, 68,
];

/// The right-aligned codewords of set A.
pub const V1X_CODES_A: [u8; 256] = [
    3, 9, 5, 12, 10, 35, 32, 29, 27, 50, 48, 45, 44, 41, 39, 37,
    73, 70, 68, 65, 64, 61, 58, 56, 53, 50, 49, 46, 44, 41, 38, 36,
    68, 65, 63, 61, 58, 55, 53, 51, 48, 46, 45, 43, 41, 39, 38, 36,
    35, 33, 32, 30, 29, 27, 26, 25, 48, 47, 46, 44, 43, 41, 40, 39,
    37, 36, 35, 34, 32, 31, 30, 28, 27, 26, 24, 23, 22, 20, 19, 37,
    35, 34, 33, 31, 30, 29, 27, 26, 24, 23, 21, 20, 18, 17, 15, 29,
    27, 26, 24, 22, 21, 19, 17, 16, 14, 26, 25, 23, 21, 19, 18, 16,
    15, 27, 25, 23, 21, 19, 17, 16, 14, 26, 25, 23, 21, 18, 17, 14,
    12, 17, 19, 13, 4, 9, 2, 11, 1, 7, 8, 0, 16, 3, 14, 6,
    12, 10, 5, 15, 18, 11, 10, 13, 15, 16, 19, 20, 22, 24, 27, 15,
    18, 20, 22, 24, 26, 14, 17, 20, 22, 24, 27, 15, 18, 20, 23, 25,
    28, 16, 19, 22, 25, 28, 32, 36, 21, 25, 29, 33, 38, 42, 45, 49,
    28, 31, 34, 37, 40, 42, 44, 47, 49, 50, 52, 54, 56, 57, 59, 60,
    62, 64, 66, 67, 69, 35, 37, 39, 40, 42, 43, 45, 47, 48, 51, 52,
    54, 55, 57, 59, 60, 62, 63, 66, 67, 69, 71, 72, 38, 40, 42, 43,
    46, 47, 49, 51, 26, 28, 30, 31, 33, 34, 18, 19, 11, 13, 7, 8,
];

/// The run-length coded codeword lengths of set B.
pub const V1X_LENGTHS_B: [u8; 59] = [
    66, 36, 37, 38, 39, 40, 41, 75, 76, 77, 110, 239, 144, 81, 82, 83,
    84, 85, 118, 183, 56, 57, 88, 89, 56, 89, 154, 57, 58, 57, 26, 141,
    57, 56, 58, 57, 58, 57, 184, 119, 214, 245, 116, 83, 82, 49, 80, 79,
    78, 77, 44, 75, 41, 40, 39, 38, 37, 36, 34,
];

/// The right-aligned codewords of set B.
pub const V1X_CODES_B: [u8; 256] = [
    3, 1, 2, 2, 2, 2, 3, 3, 7, 5, 7, 5, 8, 6, 11, 9,
    7, 13, 11, 10, 9, 8, 7, 5, 9, 7, 6, 4, 7, 5, 8, 7,
    11, 8, 13, 11, 19, 15, 22, 23, 20, 33, 32, 28, 27, 29, 51, 77,
    43, 45, 76, 81, 46, 82, 75, 55, 56, 144, 58, 80, 60, 74, 147, 63,
    143, 65, 66, 67, 68, 69, 70, 71, 72, 73, 74, 75, 76, 77, 78, 79,
    80, 81, 82, 83, 84, 85, 86, 87, 88, 89, 90, 91, 27, 30, 21, 22,
    17, 14, 5, 6, 100, 54, 47, 50, 51, 53, 106, 107, 108, 109, 110, 111,
    112, 113, 114, 115, 4, 117, 118, 92, 94, 121, 122, 3, 124, 103, 2, 1,
    0, 129, 130, 131, 120, 119, 126, 125, 136, 137, 138, 139, 140, 141, 142, 134,
    135, 132, 133, 104, 64, 101, 62, 57, 102, 95, 93, 59, 61, 28, 97, 96,
    52, 49, 48, 29, 32, 25, 24, 46, 23, 98, 45, 44, 43, 20, 42, 41,
    19, 18, 99, 40, 15, 39, 38, 16, 13, 12, 11, 37, 10, 9, 8, 36,
    7, 128, 127, 105, 123, 116, 35, 34, 33, 145, 31, 79, 42, 146, 78, 26,
    83, 48, 49, 50, 44, 47, 26, 31, 30, 18, 17, 19, 21, 24, 25, 13,
    14, 16, 17, 18, 20, 21, 12, 14, 15, 9, 10, 6, 9, 6, 5, 8,
    6, 12, 8, 10, 7, 9, 6, 4, 6, 2, 2, 3, 3, 3, 3, 2,
];

/// The codeword lengths of set A.
pub open spec fn lens_a() -> [u8; 256] {
    [
        2, 4, 3, 5, 5, 7, 7, 7, 7, 8, 8, 8, 8, 8, 8, 8,
        9, 9, 9, 9, 9, 9, 9, 9, 9, 9, 9, 9, 9, 9, 9, 9,
        10, 10, 10, 10, 10, 10, 10, 10, 10, 10, 10, 10, 10, 10, 10, 10,
        10, 10, 10, 10, 10, 10, 10, 10, 11, 11, 11, 11, 11, 11, 11, 11,
        11, 11, 11, 11, 11, 11, 11, 11, 11, 11, 11, 11, 11, 11, 11, 12,
        12, 12, 12, 12, 12, 12, 12, 12, 12, 12, 12, 12, 12, 12, 12, 13,
        13, 13, 13, 13, 13, 13, 13, 13, 13, 14, 14, 14, 14, 14, 14, 14,
        14, 15, 15, 15, 15, 15, 15, 15, 15, 16, 16, 16, 16, 16, 16, 16,
        16, 17, 17, 17, 17, 17, 17, 17, 17, 17, 17, 17, 17, 17, 17, 17,
        17, 17, 17, 17, 17, 16, 16, 16, 16, 16, 16, 16, 16, 16, 16, 15,
        15, 15, 15, 15, 15, 14, 14, 14, 14, 14, 14, 13, 13, 13, 13, 13,
        13, 12, 12, 12, 12, 12, 12, 12, 11, 11, 11, 11, 11, 11, 11, 11,
        10, 10, 10, 10, 10, 10, 10, 10, 10, 10, 10, 10, 10, 10, 10, 10,
        10, 10, 10, 10, 10, 9, 9, 9, 9, 9, 9, 9, 9, 9, 9, 9,
        9, 9, 9, 9, 9, 9, 9, 9, 9, 9, 9, 9, 8, 8, 8, 8,
        8, 8, 8, 8, 7, 7, 7, 7, 7, 7, 6, 6, 5, 5, 4, 4,
    ]
}

/// The symbols of set A in the order of their codewords.
spec fn order_a() -> [u8; 256] {
    [
        139, 136, 134, 141, 132, 146, 143, 137, 138, 133, 145, 135, 144, 131, 142, 147,
        140, 129, 148, 130, 150, 149, 128, 151, 127, 152, 153, 126, 125, 154, 155, 124,
        156, 123, 157, 122, 121, 158, 120, 159, 119, 118, 160, 117, 161, 116, 162, 115,
        163, 114, 164, 113, 165, 112, 111, 166, 110, 109, 167, 108, 168, 107, 169, 106,
        105, 170, 104, 171, 103, 102, 172, 101, 173, 100, 99, 174, 98, 175, 97, 96,
        176, 95, 94, 177, 93, 92, 178, 91, 90, 179, 89, 88, 180, 87, 86, 181,
        85, 84, 83, 182, 82, 81, 80, 183, 79, 78, 77, 184, 76, 75, 74, 185,
        73, 72, 71, 186, 70, 69, 68, 187, 67, 66, 65, 64, 188, 63, 62, 61,
        189, 60, 59, 190, 58, 57, 56, 191, 55, 54, 53, 192, 52, 51, 193, 50,
        49, 194, 48, 47, 195, 46, 45, 196, 44, 197, 43, 198, 42, 41, 199, 40,
        200, 201, 39, 202, 38, 203, 37, 204, 205, 36, 206, 207, 35, 208, 34, 209,
        33, 210, 211, 32, 212, 213, 31, 214, 30, 215, 216, 29, 217, 218, 28, 219,
        27, 220, 221, 26, 25, 222, 223, 24, 224, 225, 23, 226, 22, 227, 228, 21,
        229, 230, 20, 19, 231, 232, 18, 233, 17, 234, 235, 16, 15, 236, 14, 237,
        13, 238, 239, 12, 11, 240, 241, 10, 242, 9, 243, 244, 8, 245, 7, 246,
        247, 6, 248, 249, 5, 250, 251, 4, 252, 3, 253, 254, 255, 1, 2, 0,
    ]
}

/// The place of each symbol of set A in the order of the codewords.
spec fn rank_a() -> [u8; 256] {
    [
        255, 253, 254, 249, 247, 244, 241, 238, 236, 233, 231, 228, 227, 224, 222, 220,
        219, 216, 214, 211, 210, 207, 204, 202, 199, 196, 195, 192, 190, 187, 184, 182,
        179, 176, 174, 172, 169, 166, 164, 162, 159, 157, 156, 154, 152, 150, 149, 147,
        146, 144, 143, 141, 140, 138, 137, 136, 134, 133, 132, 130, 129, 127, 126, 125,
        123, 122, 121, 120, 118, 117, 116, 114, 113, 112, 110, 109, 108, 106, 105, 104,
        102, 101, 100, 98, 97, 96, 94, 93, 91, 90, 88, 87, 85, 84, 82, 81,
        79, 78, 76, 74, 73, 71, 69, 68, 66, 64, 63, 61, 59, 57, 56, 54,
        53, 51, 49, 47, 45, 43, 41, 40, 38, 36, 35, 33, 31, 28, 27, 24,
        22, 17, 19, 13, 4, 9, 2, 11, 1, 7, 8, 0, 16, 3, 14, 6,
        12, 10, 5, 15, 18, 21, 20, 23, 25, 26, 29, 30, 32, 34, 37, 39,
        42, 44, 46, 48, 50, 52, 55, 58, 60, 62, 65, 67, 70, 72, 75, 77,
        80, 83, 86, 89, 92, 95, 99, 103, 107, 111, 115, 119, 124, 128, 131, 135,
        139, 142, 145, 148, 151, 153, 155, 158, 160, 161, 163, 165, 167, 168, 170, 171,
        173, 175, 177, 178, 180, 181, 183, 185, 186, 188, 189, 191, 193, 194, 197, 198,
        200, 201, 203, 205, 206, 208, 209, 212, 213, 215, 217, 218, 221, 223, 225, 226,
        229, 230, 232, 234, 235, 237, 239, 240, 242, 243, 245, 246, 248, 250, 251, 252,
    ]
}

/// The codeword lengths of set B.
pub open spec fn lens_b() -> [u8; 256] {
    [
        2, 2, 4, 5, 6, 7, 8, 9, 11, 11, 12, 12, 13, 13, 14, 14,
        14, 15, 15, 15, 15, 15, 15, 15, 16, 16, 16, 16, 17, 17, 18, 18,
        19, 19, 20, 20, 21, 21, 22, 22, 22, 23, 23, 23, 23, 23, 24, 25,
        24, 24, 25, 25, 24, 25, 25, 26, 26, 26, 26, 25, 26, 25, 26, 26,
        26, 26, 26, 26, 26, 26, 26, 26, 26, 26, 26, 26, 26, 26, 26, 26,
        26, 26, 26, 26, 26, 26, 26, 26, 26, 26, 26, 26, 26, 26, 26, 26,
        26, 26, 26, 26, 26, 26, 26, 26, 26, 26, 26, 26, 26, 26, 26, 26,
        26, 26, 26, 26, 26, 26, 26, 26, 26, 26, 26, 26, 26, 26, 26, 26,
        26, 26, 26, 26, 26, 26, 26, 26, 26, 26, 26, 26, 26, 26, 26, 26,
        26, 26, 26, 26, 26, 26, 26, 26, 26, 26, 26, 26, 26, 26, 26, 26,
        26, 26, 26, 26, 26, 26, 26, 26, 26, 26, 26, 26, 26, 26, 26, 26,
        26, 26, 26, 26, 26, 26, 26, 26, 26, 26, 26, 26, 26, 26, 26, 26,
        26, 26, 26, 26, 26, 26, 26, 26, 26, 26, 26, 25, 24, 26, 25, 26,
        25, 24, 24, 24, 24, 24, 23, 23, 23, 22, 22, 22, 22, 22, 22, 21,
        21, 21, 21, 21, 21, 21, 20, 20, 20, 19, 19, 18, 18, 17, 16, 16,
        15, 15, 14, 14, 13, 13, 12, 11, 11, 9, 8, 7, 6, 5, 4, 2,
    ]
}

/// The symbols of set B in the order of their codewords.
spec fn order_b() -> [u8; 256] {
    [
        128, 127, 126, 123, 116, 98, 99, 192, 190, 189, 188, 186, 185, 184, 97, 180,
        183, 96, 177, 176, 173, 94, 95, 168, 166, 165, 207, 92, 157, 163, 93, 202,
        164, 200, 199, 198, 191, 187, 182, 181, 179, 175, 174, 172, 171, 170, 167, 102,
        162, 161, 103, 104, 160, 105, 101, 55, 56, 151, 58, 155, 60, 156, 150, 63,
        148, 65, 66, 67, 68, 69, 70, 71, 72, 73, 74, 75, 76, 77, 78, 79,
        80, 81, 82, 83, 84, 85, 86, 87, 88, 89, 90, 91, 119, 154, 120, 153,
        159, 158, 169, 178, 100, 149, 152, 125, 147, 195, 106, 107, 108, 109, 110, 111,
        112, 113, 114, 115, 197, 117, 118, 133, 132, 121, 122, 196, 124, 135, 134, 194,
        193, 129, 130, 131, 145, 146, 143, 144, 136, 137, 138, 139, 140, 141, 142, 64,
        57, 201, 205, 62, 61, 54, 50, 47, 206, 203, 59, 51, 53, 208, 204, 48,
        212, 49, 52, 213, 209, 210, 211, 46, 214, 44, 43, 45, 216, 215, 42, 41,
        218, 217, 219, 40, 220, 38, 39, 221, 222, 223, 224, 37, 225, 226, 227, 36,
        228, 229, 35, 230, 34, 231, 232, 33, 233, 234, 32, 235, 31, 30, 236, 29,
        237, 28, 27, 238, 26, 25, 239, 24, 23, 240, 22, 21, 20, 19, 18, 241,
        17, 16, 242, 15, 243, 14, 13, 244, 12, 245, 11, 246, 10, 247, 9, 248,
        8, 249, 7, 250, 6, 5, 251, 4, 252, 3, 253, 2, 254, 1, 255, 0,
    ]
}

/// The place of each symbol of set B in the order of the codewords.
spec fn rank_b() -> [u8; 256] {
    [
        255, 253, 251, 249, 247, 245, 244, 242, 240, 238, 236, 234, 232, 230, 229, 227,
        225, 224, 222, 221, 220, 219, 218, 216, 215, 213, 212, 210, 209, 207, 205, 204,
        202, 199, 196, 194, 191, 187, 181, 182, 179, 175, 174, 170, 169, 171, 167, 151,
        159, 161, 150, 155, 162, 156, 149, 55, 56, 144, 58, 154, 60, 148, 147, 63,
        143, 65, 66, 67, 68, 69, 70, 71, 72, 73, 74, 75, 76, 77, 78, 79,
        80, 81, 82, 83, 84, 85, 86, 87, 88, 89, 90, 91, 27, 30, 21, 22,
        17, 14, 5, 6, 100, 54, 47, 50, 51, 53, 106, 107, 108, 109, 110, 111,
        112, 113, 114, 115, 4, 117, 118, 92, 94, 121, 122, 3, 124, 103, 2, 1,
        0, 129, 130, 131, 120, 119, 126, 125, 136, 137, 138, 139, 140, 141, 142, 134,
        135, 132, 133, 104, 64, 101, 62, 57, 102, 95, 93, 59, 61, 28, 97, 96,
        52, 49, 48, 29, 32, 25, 24, 46, 23, 98, 45, 44, 43, 20, 42, 41,
        19, 18, 99, 40, 15, 39, 38, 16, 13, 12, 11, 37, 10, 9, 8, 36,
        7, 128, 127, 105, 123, 116, 35, 34, 33, 145, 31, 153, 158, 146, 152, 26,
        157, 164, 165, 166, 160, 163, 168, 173, 172, 177, 176, 178, 180, 183, 184, 185,
        186, 188, 189, 190, 192, 193, 195, 197, 198, 200, 201, 203, 206, 208, 211, 214,
        217, 223, 226, 228, 231, 233, 235, 237, 239, 241, 243, 246, 248, 250, 252, 254,
    ]
}


/// A codeword `c` of `l` bits, left-aligned in 32 bits.
spec fn aligned(c: int, l: int) -> int {
    if l == 1 {
        c * 0x80000000
    } else if l == 2 {
        c * 0x40000000
    } else if l == 3 {
        c * 0x20000000
    } else if l == 4 {
        c * 0x10000000
    } else if l == 5 {
        c * 0x8000000
    } else if l == 6 {
        c * 0x4000000
    } else if l == 7 {
        c * 0x2000000
    } else if l == 8 {
        c * 0x1000000
    } else if l == 9 {
        c * 0x800000
    } else if l == 10 {
        c * 0x400000
    } else if l == 11 {
        c * 0x200000
    } else if l == 12 {
        c * 0x100000
    } else if l == 13 {
        c * 0x80000
    } else if l == 14 {
        c * 0x40000
    } else if l == 15 {
        c * 0x20000
    } else if l == 16 {
        c * 0x10000
    } else if l == 17 {
        c * 0x8000
    } else if l == 18 {
        c * 0x4000
    } else if l == 19 {
        c * 0x2000
    } else if l == 20 {
        c * 0x1000
    } else if l == 21 {
        c * 0x800
    } else if l == 22 {
        c * 0x400
    } else if l == 23 {
        c * 0x200
    } else if l == 24 {
        c * 0x100
    } else if l == 25 {
        c * 0x80
    } else if l == 26 {
        c * 0x40
    } else if l == 27 {
        c * 0x20
    } else if l == 28 {
        c * 0x10
    } else if l == 29 {
        c * 0x8
    } else if l == 30 {
        c * 0x4
    } else if l == 31 {
        c * 0x2
    } else {
        0
    }
}

/// The symbol at place `i` of the order ends where the next one starts.
spec fn abuts(lens: [u8; 256], codes: [u8; 256], order: [u8; 256], rank: [u8; 256], i: int) -> bool {
    &&& 1 <= lens[i] <= 31
    &&& order[rank[i] as int] == i
    &&& i < 255 ==> aligned(codes[order[i] as int] + 1, lens[order[i] as int] as int) == aligned(
        codes[order[i + 1] as int] as int,
        lens[order[i + 1] as int] as int,
    )
}

spec fn abut_from(
    lens: [u8; 256],
    codes: [u8; 256],
    order: [u8; 256],
    rank: [u8; 256],
    i: int,
    n: nat,
) -> bool
    decreases n,
{
    n == 0 || (abuts(lens, codes, order, rank, i) && abut_from(
        lens,
        codes,
        order,
        rank,
        i + 1,
        (n - 1) as nat,
    ))
}


/// All 256 places abut.
spec fn all_abut(lens: [u8; 256], codes: [u8; 256], order: [u8; 256], rank: [u8; 256]) -> bool {
    &&& forall|i: int| 0 <= i < 256 ==> #[trigger] abuts(lens, codes, order, rank, i)
    &&& aligned(codes[order[255] as int] + 1, lens[order[255] as int] as int) == CODE_SPACE
}

proof fn lemma_abut_from(
    lens: [u8; 256],
    codes: [u8; 256],
    order: [u8; 256],
    rank: [u8; 256],
    i: int,
    n: nat,
    k: int,
)
    requires
        abut_from(lens, codes, order, rank, i, n),
        i <= k < i + n,
    ensures
        abuts(lens, codes, order, rank, k),
    decreases n,
{
    if k > i {
        lemma_abut_from(lens, codes, order, rank, i + 1, (n - 1) as nat, k);
    }
}

/// The codewords of set A abut.
proof fn lemma_set_a_abuts()
    ensures
        all_abut(lens_a(), V1X_CODES_A, order_a(), rank_a()),
{
    let (l, c, o, r) = (lens_a(), V1X_CODES_A, order_a(), rank_a());
    assert forall|k: int| 0 <= k < 256 implies #[trigger] abuts(l, c, o, r, k) by {
        lemma_set_a_chunk(16 * (k / 16));
        lemma_abut_from(l, c, o, r, 16 * (k / 16), 16, k);
    }
    assert(aligned(c[o[255] as int] + 1, l[o[255] as int] as int) == CODE_SPACE);
}

#[verifier::spinoff_prover]
#[verifier::rlimit(100)]
proof fn lemma_set_a_chunk(i: int)
    requires
        0 <= i < 256,
        i % 16 == 0,
    ensures
        abut_from(lens_a(), V1X_CODES_A, order_a(), rank_a(), i, 16),
{
    let (l, c, o, r) = (lens_a(), V1X_CODES_A, order_a(), rank_a());
    reveal_with_fuel(abut_from, 17);
    if i == 0 {
        assert(abut_from(l, c, o, r, 0, 16));
    } else if i == 16 {
        assert(abut_from(l, c, o, r, 16, 16));
    } else if i == 32 {
        assert(abut_from(l, c, o, r, 32, 16));
    } else if i == 48 {
        assert(abut_from(l, c, o, r, 48, 16));
    } else if i == 64 {
        assert(abut_from(l, c, o, r, 64, 16));
    } else if i == 80 {
        assert(abut_from(l, c, o, r, 80, 16));
    } else if i == 96 {
        assert(abut_from(l, c, o, r, 96, 16));
    } else if i == 112 {
        assert(abut_from(l, c, o, r, 112, 16));
    } else if i == 128 {
        assert(abut_from(l, c, o, r, 128, 16));
    } else if i == 144 {
        assert(abut_from(l, c, o, r, 144, 16));
    } else if i == 160 {
        assert(abut_from(l, c, o, r, 160, 16));
    } else if i == 176 {
        assert(abut_from(l, c, o, r, 176, 16));
    } else if i == 192 {
        assert(abut_from(l, c, o, r, 192, 16));
    } else if i == 208 {
        assert(abut_from(l, c, o, r, 208, 16));
    } else if i == 224 {
        assert(abut_from(l, c, o, r, 224, 16));
    } else if i == 240 {
        assert(abut_from(l, c, o, r, 240, 16));
    }
}

/// The codewords of set B abut.
proof fn lemma_set_b_abuts()
    ensures
        all_abut(lens_b(), V1X_CODES_B, order_b(), rank_b()),
{
    let (l, c, o, r) = (lens_b(), V1X_CODES_B, order_b(), rank_b());
    assert forall|k: int| 0 <= k < 256 implies #[trigger] abuts(l, c, o, r, k) by {
        lemma_set_b_chunk(16 * (k / 16));
        lemma_abut_from(l, c, o, r, 16 * (k / 16), 16, k);
    }
    assert(aligned(c[o[255] as int] + 1, l[o[255] as int] as int) == CODE_SPACE);
}

#[verifier::spinoff_prover]
#[verifier::rlimit(100)]
proof fn lemma_set_b_chunk(i: int)
    requires
        0 <= i < 256,
        i % 16 == 0,
    ensures
        abut_from(lens_b(), V1X_CODES_B, order_b(), rank_b(), i, 16),
{
    let (l, c, o, r) = (lens_b(), V1X_CODES_B, order_b(), rank_b());
    reveal_with_fuel(abut_from, 17);
    if i == 0 {
        assert(abut_from(l, c, o, r, 0, 16));
    } else if i == 16 {
        assert(abut_from(l, c, o, r, 16, 16));
    } else if i == 32 {
        assert(abut_from(l, c, o, r, 32, 16));
    } else if i == 48 {
        assert(abut_from(l, c, o, r, 48, 16));
    } else if i == 64 {
        assert(abut_from(l, c, o, r, 64, 16));
    } else if i == 80 {
        assert(abut_from(l, c, o, r, 80, 16));
    } else if i == 96 {
        assert(abut_from(l, c, o, r, 96, 16));
    } else if i == 112 {
        assert(abut_from(l, c, o, r, 112, 16));
    } else if i == 128 {
        assert(abut_from(l, c, o, r, 128, 16));
    } else if i == 144 {
        assert(abut_from(l, c, o, r, 144, 16));
    } else if i == 160 {
        assert(abut_from(l, c, o, r, 160, 16));
    } else if i == 176 {
        assert(abut_from(l, c, o, r, 176, 16));
    } else if i == 192 {
        assert(abut_from(l, c, o, r, 192, 16));
    } else if i == 208 {
        assert(abut_from(l, c, o, r, 208, 16));
    } else if i == 224 {
        assert(abut_from(l, c, o, r, 224, 16));
    } else if i == 240 {
        assert(abut_from(l, c, o, r, 240, 16));
    }
}

/// Left-aligning multiplies by the codeword's share of the code space.
proof fn lemma_aligned(c: int, l: int)
    requires
        1 <= l <= 31,
        0 <= c,
    ensures
        aligned(c + 1, l) == aligned(c, l) + code_width(l),
        aligned(c, l) == c * code_width(l),
        0 <= aligned(c, l),
        code_width(l) > 0,
{
    lemma2_to64();
    lemma_pow2_pos((32 - l) as nat);
    let w = code_width(l);
    assert(aligned(1, l) == w);
    assert(aligned(c, l) == c * w) by (nonlinear_arith)
        requires
            aligned(1, l) == w,
            1 <= l <= 31,
    ;
}

/// Codewords further on in the order start where earlier ones end, or above.
proof fn lemma_ordered(
    lens: [u8; 256],
    codes: [u8; 256],
    order: [u8; 256],
    rank: [u8; 256],
    i: int,
    j: int,
)
    requires
        all_abut(lens, codes, order, rank),
        0 <= i < j <= 256,
    ensures
        aligned(codes[order[i] as int] as int, lens[order[i] as int] as int) + code_width(
            lens[order[i] as int] as int,
        ) <= (if j == 256 {
            CODE_SPACE as int
        } else {
            aligned(codes[order[j] as int] as int, lens[order[j] as int] as int)
        }),
    decreases j - i,
{
    assert(abuts(lens, codes, order, rank, i));
    assert(abuts(lens, codes, order, rank, order[i] as int));
    lemma_aligned(codes[order[i] as int] as int, lens[order[i] as int] as int);
    if i + 1 < j {
        lemma_ordered(lens, codes, order, rank, i + 1, j);
        assert(abuts(lens, codes, order, rank, order[i + 1] as int));
        lemma_aligned(codes[order[i + 1] as int] as int, lens[order[i + 1] as int] as int);
    }
}

/// A set whose codewords abut is admissible and prefix-free.
proof fn lemma_abutting_set(lens: [u8; 256], codes: [u8; 256], order: [u8; 256], rank: [u8; 256])
    requires
        all_abut(lens, codes, order, rank),
    ensures
        entries_wf(pair_entries(lens@, codes@)),
        is_prefix_free(pair_entries(lens@, codes@)),
        forall|s: int| 0 <= s < 256 ==> 1 <= #[trigger] lens@[s] <= 31,
{
    let entries = pair_entries(lens@, codes@);
    assert forall|s: int| 0 <= s < 256 implies 1 <= #[trigger] lens@[s] <= 31 && entries[s].code
        == aligned(codes[s] as int, lens[s] as int) by {
        assert(abuts(lens, codes, order, rank, s));
        let i = rank[s] as int;
        lemma_ordered(lens, codes, order, rank, i, 256);
        let (c, l) = (codes[s] as int, lens[s] as int);
        lemma_aligned(c, l);
        vstd::bits::lemma_u32_shl_is_mul(codes[s] as u32, (32 - lens[s]) as u32);
    }
    lemma_pair_entries(lens@, codes@);
    assert forall|s: int, t: int, w: u32|
        0 <= s < entries.len() && 0 <= t < entries.len() && #[trigger] shows(entries[s], w)
            && #[trigger] shows(entries[t], w) implies s == t by {
        assert(1 <= lens@[s] <= 31 && 1 <= lens@[t] <= 31);
        lemma_shows_is_range(entries[s], w);
        lemma_shows_is_range(entries[t], w);
        assert(abuts(lens, codes, order, rank, s));
        assert(abuts(lens, codes, order, rank, t));
        let (i, j) = (rank[s] as int, rank[t] as int);
        if i < j {
            lemma_ordered(lens, codes, order, rank, i, j);
        } else if j < i {
            lemma_ordered(lens, codes, order, rank, j, i);
        }
    }
}

/// Where the codeword at place `i` of the order starts in the code space; behind
/// the last place its end.
spec fn start_at(lens: [u8; 256], codes: [u8; 256], order: [u8; 256], i: int) -> int {
    if i >= 256 {
        CODE_SPACE as int
    } else {
        aligned(codes[order[i] as int] as int, lens[order[i] as int] as int)
    }
}

/// Abutting codewords from zero on leave no window without a codeword.
proof fn lemma_covering(
    lens: [u8; 256],
    codes: [u8; 256],
    order: [u8; 256],
    rank: [u8; 256],
    i: int,
    w: u32,
) -> (s: int)
    requires
        all_abut(lens, codes, order, rank),
        codes[order[0] as int] == 0,
        1 <= i <= 256,
        w < start_at(lens, codes, order, i),
    ensures
        0 <= s < 256,
        shows(pair_entries(lens@, codes@)[s], w),
    decreases i,
{
    let s = order[i - 1] as int;
    assert(abuts(lens, codes, order, rank, i - 1));
    assert(abuts(lens, codes, order, rank, s));
    let (c, l) = (codes[s] as int, lens[s] as int);
    lemma_aligned(c, l);
    if i == 1 {
        assert(aligned(0, l) == 0) by {
            lemma_aligned(0, l);
            assert(0 * code_width(l) == 0) by (nonlinear_arith);
        }
    }
    if w < start_at(lens, codes, order, i - 1) {
        lemma_covering(lens, codes, order, rank, i - 1, w)
    } else {
        lemma_abutting_set(lens, codes, order, rank);
        lemma_ordered(lens, codes, order, rank, i - 1, 256);
        let e = pair_entries(lens@, codes@)[s];
        vstd::bits::lemma_u32_shl_is_mul(codes[s] as u32, (32 - lens[s]) as u32);
        assert(lens@[s] == l);
        assert(crate::tables::entry_wf(e));
        lemma_shows_is_range(e, w);
        s
    }
}

/// Every window starts with a codeword of set A.
pub proof fn lemma_set_a_covers(w: u32) -> (s: int)
    ensures
        0 <= s < 256,
        shows(pair_entries(lens_a()@, V1X_CODES_A@)[s], w),
{
    lemma_set_a_abuts();
    assert(V1X_CODES_A[order_a()[0] as int] == 0);
    lemma_covering(lens_a(), V1X_CODES_A, order_a(), rank_a(), 256, w)
}

/// Every window starts with a codeword of set B.
pub proof fn lemma_set_b_covers(w: u32) -> (s: int)
    ensures
        0 <= s < 256,
        shows(pair_entries(lens_b()@, V1X_CODES_B@)[s], w),
{
    lemma_set_b_abuts();
    assert(V1X_CODES_B[order_b()[0] as int] == 0);
    lemma_covering(lens_b(), V1X_CODES_B, order_b(), rank_b(), 256, w)
}

/// The values from `at` on are `c` times `v`.
spec fn run_matches(target: Seq<u8>, at: int, c: int, v: u8) -> bool
    decreases c,
{
    c <= 0 || (target[at] == v && run_matches(target, at + 1, c - 1, v))
}

/// The runs from `pos` on spell the values from `at` on.
spec fn spells(src: Seq<u8>, pos: int, target: Seq<u8>, at: int) -> bool
    decreases src.len() - pos,
{
    if at >= 256 {
        at == 256 && pos == src.len()
    } else {
        match run_at(src, pos) {
            Some((v, c, next)) => run_matches(target, at, c, v) && spells(src, next, target, at + c),
            None => false,
        }
    }
}

proof fn lemma_run_matches(target: Seq<u8>, at: int, c: int, v: u8)
    requires
        run_matches(target, at, c, v),
    ensures
        forall|k: int| at <= k < at + c ==> #[trigger] target[k] == v,
    decreases c,
{
    if c > 0 {
        lemma_run_matches(target, at + 1, c - 1, v);
    }
}

proof fn lemma_spells(src: Seq<u8>, pos: int, target: Seq<u8>, at: int)
    requires
        target.len() == 256,
        0 <= pos <= src.len(),
        0 <= at <= 256,
        spells(src, pos, target, at),
    ensures
        expand(src, pos, 256 - at) == Some((target.subrange(at, 256), src.len() as int)),
    decreases src.len() - pos,
{
    if at < 256 {
        if let Some((v, c, next)) = run_at(src, pos) {
            lemma_run_matches(target, at, c, v);
            reveal_with_fuel(spells, 2);
            if at + c <= 256 {
                lemma_spells(src, next, target, at + c);
                assert(repeated(v, c as nat) + target.subrange(at + c, 256) =~= target.subrange(
                    at,
                    256,
                ));
            }
        }
    } else {
        assert(target.subrange(256, 256) =~= Seq::<u8>::empty());
    }
}

/// The run-length coded lengths of set A are its lengths.
#[verifier::spinoff_prover]
#[verifier::rlimit(100)]
proof fn lemma_lengths_a()
    ensures
        expand(V1X_LENGTHS_A@, 0, 256) == Some((lens_a()@, V1X_LENGTHS_A@.len() as int)),
{
    let (src, target) = (V1X_LENGTHS_A@, lens_a()@);
    assert(spells(src, 41, target, 254)) by {
        reveal_with_fuel(spells, 4);
        reveal_with_fuel(run_matches, 3);
    }
    assert(spells(src, 38, target, 244)) by {
        reveal_with_fuel(spells, 4);
        reveal_with_fuel(run_matches, 7);
    }
    assert(spells(src, 32, target, 192)) by {
        reveal_with_fuel(spells, 4);
        reveal_with_fuel(run_matches, 24);
    }
    assert(spells(src, 28, target, 171)) by {
        reveal_with_fuel(spells, 4);
        reveal_with_fuel(run_matches, 9);
    }
    assert(spells(src, 24, target, 149)) by {
        reveal_with_fuel(spells, 4);
        reveal_with_fuel(run_matches, 11);
    }
    assert(spells(src, 18, target, 113)) by {
        reveal_with_fuel(spells, 4);
        reveal_with_fuel(run_matches, 21);
    }
    assert(spells(src, 12, target, 79)) by {
        reveal_with_fuel(spells, 4);
        reveal_with_fuel(run_matches, 17);
    }
    assert(spells(src, 6, target, 16)) by {
        reveal_with_fuel(spells, 4);
        reveal_with_fuel(run_matches, 25);
    }
    assert(spells(src, 3, target, 3)) by {
        reveal_with_fuel(spells, 4);
        reveal_with_fuel(run_matches, 8);
    }
    assert(spells(src, 0, target, 0)) by {
        reveal_with_fuel(spells, 4);
        reveal_with_fuel(run_matches, 2);
    }
    lemma_spells(src, 0, target, 0);
    assert(target.subrange(0, 256) =~= target);
}

/// The run-length coded lengths of set B are its lengths.
#[verifier::spinoff_prover]
#[verifier::rlimit(100)]
proof fn lemma_lengths_b()
    ensures
        expand(V1X_LENGTHS_B@, 0, 256) == Some((lens_b()@, V1X_LENGTHS_B@.len() as int)),
{
    let (src, target) = (V1X_LENGTHS_B@, lens_b()@);
    assert(spells(src, 58, target, 255)) by {
        reveal_with_fuel(spells, 4);
        reveal_with_fuel(run_matches, 2);
    }
    assert(spells(src, 55, target, 252)) by {
        reveal_with_fuel(spells, 4);
        reveal_with_fuel(run_matches, 2);
    }
    assert(spells(src, 52, target, 249)) by {
        reveal_with_fuel(spells, 4);
        reveal_with_fuel(run_matches, 2);
    }
    assert(spells(src, 49, target, 244)) by {
        reveal_with_fuel(spells, 4);
        reveal_with_fuel(run_matches, 3);
    }
    assert(spells(src, 46, target, 238)) by {
        reveal_with_fuel(spells, 4);
        reveal_with_fuel(run_matches, 3);
    }
    assert(spells(src, 43, target, 233)) by {
        reveal_with_fuel(spells, 4);
        reveal_with_fuel(run_matches, 3);
    }
    assert(spells(src, 40, target, 217)) by {
        reveal_with_fuel(spells, 4);
        reveal_with_fuel(run_matches, 8);
    }
    assert(spells(src, 37, target, 208)) by {
        reveal_with_fuel(spells, 4);
        reveal_with_fuel(run_matches, 6);
    }
    assert(spells(src, 34, target, 205)) by {
        reveal_with_fuel(spells, 4);
        reveal_with_fuel(run_matches, 2);
    }
    assert(spells(src, 30, target, 62)) by {
        assert(run_matches(target, 202, 1, 26)) by {
            reveal_with_fuel(run_matches, 22);
        }
        assert(run_matches(target, 182, 21, 26)) by {
            reveal_with_fuel(run_matches, 22);
        }
        assert(run_matches(target, 162, 41, 26)) by {
            reveal_with_fuel(run_matches, 22);
        }
        assert(run_matches(target, 142, 61, 26)) by {
            reveal_with_fuel(run_matches, 22);
        }
        assert(run_matches(target, 122, 81, 26)) by {
            reveal_with_fuel(run_matches, 22);
        }
        assert(run_matches(target, 102, 101, 26)) by {
            reveal_with_fuel(run_matches, 22);
        }
        assert(run_matches(target, 82, 121, 26)) by {
            reveal_with_fuel(run_matches, 22);
        }
        assert(run_matches(target, 62, 141, 26)) by {
            reveal_with_fuel(run_matches, 22);
        }
        reveal_with_fuel(spells, 4);
        reveal_with_fuel(run_matches, 27);
    }
    assert(spells(src, 27, target, 59)) by {
        reveal_with_fuel(spells, 4);
        reveal_with_fuel(run_matches, 2);
    }
    assert(spells(src, 24, target, 52)) by {
        reveal_with_fuel(spells, 4);
        reveal_with_fuel(run_matches, 5);
    }
    assert(spells(src, 21, target, 47)) by {
        reveal_with_fuel(spells, 4);
        reveal_with_fuel(run_matches, 3);
    }
    assert(spells(src, 18, target, 38)) by {
        reveal_with_fuel(spells, 4);
        reveal_with_fuel(run_matches, 6);
    }
    assert(spells(src, 15, target, 32)) by {
        reveal_with_fuel(spells, 4);
        reveal_with_fuel(run_matches, 3);
    }
    assert(spells(src, 12, target, 24)) by {
        reveal_with_fuel(spells, 4);
        reveal_with_fuel(run_matches, 5);
    }
    assert(spells(src, 9, target, 12)) by {
        reveal_with_fuel(spells, 4);
        reveal_with_fuel(run_matches, 8);
    }
    assert(spells(src, 6, target, 7)) by {
        reveal_with_fuel(spells, 4);
        reveal_with_fuel(run_matches, 3);
    }
    assert(spells(src, 3, target, 4)) by {
        reveal_with_fuel(spells, 4);
        reveal_with_fuel(run_matches, 2);
    }
    assert(spells(src, 0, target, 0)) by {
        reveal_with_fuel(spells, 4);
        reveal_with_fuel(run_matches, 3);
    }
    lemma_spells(src, 0, target, 0);
    assert(target.subrange(0, 256) =~= target);
}

/// The run-length coded codeword lengths of set A.
pub fn v1x_lengths_set_a() -> (b: &'static [u8])
    ensures
        b@ == V1X_LENGTHS_A@,
{
    &V1X_LENGTHS_A
}

/// The run-length coded codeword lengths of set B.
pub fn v1x_lengths_set_b() -> (b: &'static [u8])
    ensures
        b@ == V1X_LENGTHS_B@,
{
    &V1X_LENGTHS_B
}

/// The right-aligned codewords of set A.
pub fn v1x_codes_set_a() -> (b: &'static [u8])
    ensures
        b@ == V1X_CODES_A@,
{
    &V1X_CODES_A
}

/// The right-aligned codewords of set B.
pub fn v1x_codes_set_b() -> (b: &'static [u8])
    ensures
        b@ == V1X_CODES_B@,
{
    &V1X_CODES_B
}

/// Set A: its lengths, each symbol with a codeword, and a prefix-free table.
pub proof fn lemma_set_a()
    ensures
        expand(V1X_LENGTHS_A@, 0, 256) == Some((lens_a()@, V1X_LENGTHS_A@.len() as int)),
        entries_wf(pair_entries(lens_a()@, V1X_CODES_A@)),
        is_prefix_free(pair_entries(lens_a()@, V1X_CODES_A@)),
        forall|s: int| 0 <= s < 256 ==> 1 <= #[trigger] lens_a()@[s] <= 31,
{
    lemma_lengths_a();
    lemma_set_a_abuts();
    lemma_abutting_set(lens_a(), V1X_CODES_A, order_a(), rank_a());
}

/// Set B: its lengths, each symbol with a codeword, and a prefix-free table.
pub proof fn lemma_set_b()
    ensures
        expand(V1X_LENGTHS_B@, 0, 256) == Some((lens_b()@, V1X_LENGTHS_B@.len() as int)),
        entries_wf(pair_entries(lens_b()@, V1X_CODES_B@)),
        is_prefix_free(pair_entries(lens_b()@, V1X_CODES_B@)),
        forall|s: int| 0 <= s < 256 ==> 1 <= #[trigger] lens_b()@[s] <= 31,
{
    lemma_lengths_b();
    lemma_set_b_abuts();
    lemma_abutting_set(lens_b(), V1X_CODES_B, order_b(), rank_b());
}

} // verus!
