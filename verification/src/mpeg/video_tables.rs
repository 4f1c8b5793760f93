//! Constant tables of the MPEG-1 video syntax: the variable-length codes,
//! the coefficient order and the quantiser and scaling matrices.
//!
//! Each VLC table is a binary tree of `(index, value)` entries: a positive
//! `index` leads to the entry `index + bit`, and an `index` of 0 or less
//! ends the code with `value`.

use vstd::prelude::*;
use crate::mpeg::buffer::{vlc_table_ok, vlc_zero_path};

verus! {

/// Macroblock address increments; 34 is stuffing, 35 an escape that adds 33.
#[verifier::opaque]
pub const MACROBLOCK_ADDRESS_INCREMENT: [(i16, i16); 80] = [
    (2, 0), (0, 1), (4, 0), (6, 0), (8, 0), (10, 0),
    (0, 3), (0, 2), (12, 0), (14, 0), (0, 5), (0, 4),
    (16, 0), (18, 0), (0, 7), (0, 6), (20, 0), (22, 0),
    (24, 0), (26, 0), (28, 0), (30, 0), (32, 0), (34, 0),
    (36, 0), (38, 0), (0, 9), (0, 8), (-1, 0), (40, 0),
    (-1, 0), (42, 0), (44, 0), (46, 0), (0, 15), (0, 14),
    (0, 13), (0, 12), (0, 11), (0, 10), (48, 0), (50, 0),
    (52, 0), (54, 0), (56, 0), (58, 0), (60, 0), (62, 0),
    (64, 0), (-1, 0), (-1, 0), (66, 0), (68, 0), (70, 0),
    (72, 0), (74, 0), (76, 0), (78, 0), (0, 21), (0, 20),
    (0, 19), (0, 18), (0, 17), (0, 16), (0, 35), (-1, 0),
    (-1, 0), (0, 34), (0, 33), (0, 32), (0, 31), (0, 30),
    (0, 29), (0, 28), (0, 27), (0, 26), (0, 25), (0, 24),
    (0, 23), (0, 22),
];

/// Macroblock types in intra pictures.
#[verifier::opaque]
pub const MACROBLOCK_TYPE_INTRA: [(i16, i16); 4] = [
    (2, 0), (0, 0x01), (-1, 0), (0, 0x11),
];

/// Macroblock types in predicted pictures.
#[verifier::opaque]
pub const MACROBLOCK_TYPE_PREDICTIVE: [(i16, i16); 14] = [
    (2, 0), (0, 0x0a), (4, 0), (0, 0x02), (6, 0), (0, 0x08),
    (8, 0), (10, 0), (12, 0), (0, 0x12), (0, 0x1a), (0, 0x01),
    (-1, 0), (0, 0x11),
];

/// Macroblock types in bidirectional pictures.
#[verifier::opaque]
pub const MACROBLOCK_TYPE_B: [(i16, i16); 22] = [
    (2, 0), (4, 0), (6, 0), (8, 0), (0, 0x0c), (0, 0x0e),
    (10, 0), (12, 0), (0, 0x04), (0, 0x06), (14, 0), (16, 0),
    (0, 0x08), (0, 0x0a), (18, 0), (20, 0), (0, 0x1e), (0, 0x01),
    (-1, 0), (0, 0x11), (0, 0x16), (0, 0x1a),
];

/// Coded block patterns: one bit per block of the macroblock.
#[verifier::opaque]
pub const CODE_BLOCK_PATTERN: [(i16, i16); 126] = [
    (2, 0), (4, 0), (6, 0), (8, 0), (10, 0), (12, 0),
    (14, 0), (16, 0), (18, 0), (20, 0), (22, 0), (24, 0),
    (26, 0), (0, 60), (28, 0), (30, 0), (32, 0), (34, 0),
    (36, 0), (38, 0), (40, 0), (42, 0), (44, 0), (46, 0),
    (0, 32), (0, 16), (0, 8), (0, 4), (48, 0), (50, 0),
    (52, 0), (54, 0), (56, 0), (58, 0), (60, 0), (62, 0),
    (0, 62), (0, 2), (0, 61), (0, 1), (0, 56), (0, 52),
    (0, 44), (0, 28), (0, 40), (0, 20), (0, 48), (0, 12),
    (64, 0), (66, 0), (68, 0), (70, 0), (72, 0), (74, 0),
    (76, 0), (78, 0), (80, 0), (82, 0), (84, 0), (86, 0),
    (0, 63), (0, 3), (0, 36), (0, 24), (88, 0), (90, 0),
    (92, 0), (94, 0), (96, 0), (98, 0), (100, 0), (102, 0),
    (104, 0), (106, 0), (108, 0), (110, 0), (112, 0), (114, 0),
    (116, 0), (118, 0), (0, 34), (0, 18), (0, 10), (0, 6),
    (0, 33), (0, 17), (0, 9), (0, 5), (-1, 0), (120, 0),
    (122, 0), (124, 0), (0, 58), (0, 54), (0, 46), (0, 30),
    (0, 57), (0, 53), (0, 45), (0, 29), (0, 38), (0, 26),
    (0, 37), (0, 25), (0, 43), (0, 23), (0, 51), (0, 15),
    (0, 42), (0, 22), (0, 50), (0, 14), (0, 41), (0, 21),
    (0, 49), (0, 13), (0, 35), (0, 19), (0, 11), (0, 7),
    (0, 39), (0, 27), (0, 59), (0, 55), (0, 47), (0, 31),
];

/// Motion vector codes.
#[verifier::opaque]
pub const MOTION: [(i16, i16); 68] = [
    (2, 0), (0, 0), (4, 0), (6, 0), (8, 0), (10, 0),
    (0, 1), (0, -1), (12, 0), (14, 0), (0, 2), (0, -2),
    (16, 0), (18, 0), (0, 3), (0, -3), (20, 0), (22, 0),
    (24, 0), (26, 0), (-1, 0), (28, 0), (30, 0), (32, 0),
    (34, 0), (36, 0), (0, 4), (0, -4), (-1, 0), (38, 0),
    (40, 0), (42, 0), (0, 7), (0, -7), (0, 6), (0, -6),
    (0, 5), (0, -5), (44, 0), (46, 0), (48, 0), (50, 0),
    (52, 0), (54, 0), (56, 0), (58, 0), (60, 0), (62, 0),
    (64, 0), (66, 0), (0, 10), (0, -10), (0, 9), (0, -9),
    (0, 8), (0, -8), (0, 16), (0, -16), (0, 15), (0, -15),
    (0, 14), (0, -14), (0, 13), (0, -13), (0, 12), (0, -12),
    (0, 11), (0, -11),
];

/// Sizes of the DC differential in luminance blocks.
#[verifier::opaque]
pub const DCT_SIZE_LUMINANCE: [(i16, i16); 18] = [
    (2, 0), (4, 0), (0, 1), (0, 2), (6, 0), (8, 0),
    (0, 0), (0, 3), (0, 4), (10, 0), (0, 5), (12, 0),
    (0, 6), (14, 0), (0, 7), (16, 0), (0, 8), (-1, 0),
];

/// Sizes of the DC differential in chrominance blocks.
#[verifier::opaque]
pub const DCT_SIZE_CHROMINANCE: [(i16, i16); 18] = [
    (2, 0), (4, 0), (0, 0), (0, 1), (0, 2), (6, 0),
    (0, 3), (8, 0), (0, 4), (10, 0), (0, 5), (12, 0),
    (0, 6), (14, 0), (0, 7), (16, 0), (0, 8), (-1, 0),
];

/// DCT coefficients: run in the high byte, level in the low byte, with
/// the sign following in the stream; `0xffff` is an escape.
#[verifier::opaque]
pub const DCT_COEFF: [(i16, u16); 224] = [
    (2, 0), (0, 0x0001), (4, 0), (6, 0), (8, 0), (10, 0),
    (12, 0), (0, 0x0101), (14, 0), (16, 0), (18, 0), (20, 0),
    (0, 0x0002), (0, 0x0201), (22, 0), (24, 0), (26, 0), (28, 0),
    (30, 0), (0, 0x0003), (0, 0x0401), (0, 0x0301), (32, 0), (0, 0xffff),
    (34, 0), (36, 0), (0, 0x0701), (0, 0x0601), (0, 0x0102), (0, 0x0501),
    (38, 0), (40, 0), (42, 0), (44, 0), (0, 0x0202), (0, 0x0901),
    (0, 0x0004), (0, 0x0801), (46, 0), (48, 0), (50, 0), (52, 0),
    (54, 0), (56, 0), (58, 0), (60, 0), (0, 0x0d01), (0, 0x0006),
    (0, 0x0c01), (0, 0x0b01), (0, 0x0302), (0, 0x0103), (0, 0x0005), (0, 0x0a01),
    (62, 0), (64, 0), (66, 0), (68, 0), (70, 0), (72, 0),
    (74, 0), (76, 0), (78, 0), (80, 0), (82, 0), (84, 0),
    (86, 0), (88, 0), (90, 0), (92, 0), (0, 0x1001), (0, 0x0502),
    (0, 0x0007), (0, 0x0203), (0, 0x0104), (0, 0x0f01), (0, 0x0e01), (0, 0x0402),
    (94, 0), (96, 0), (98, 0), (100, 0), (102, 0), (104, 0),
    (106, 0), (108, 0), (110, 0), (112, 0), (114, 0), (116, 0),
    (118, 0), (120, 0), (122, 0), (124, 0), (-1, 0), (126, 0),
    (128, 0), (130, 0), (132, 0), (134, 0), (136, 0), (138, 0),
    (140, 0), (142, 0), (144, 0), (146, 0), (148, 0), (150, 0),
    (152, 0), (154, 0), (0, 0x000b), (0, 0x0802), (0, 0x0403), (0, 0x000a),
    (0, 0x0204), (0, 0x0702), (0, 0x1501), (0, 0x1401), (0, 0x0009), (0, 0x1301),
    (0, 0x1201), (0, 0x0105), (0, 0x0303), (0, 0x0008), (0, 0x0602), (0, 0x1101),
    (156, 0), (158, 0), (160, 0), (162, 0), (164, 0), (166, 0),
    (168, 0), (170, 0), (172, 0), (174, 0), (176, 0), (178, 0),
    (180, 0), (182, 0), (0, 0x0a02), (0, 0x0902), (0, 0x0503), (0, 0x0304),
    (0, 0x0205), (0, 0x0107), (0, 0x0106), (0, 0x000f), (0, 0x000e), (0, 0x000d),
    (0, 0x000c), (0, 0x1a01), (0, 0x1901), (0, 0x1801), (0, 0x1701), (0, 0x1601),
    (184, 0), (186, 0), (188, 0), (190, 0), (192, 0), (194, 0),
    (196, 0), (198, 0), (200, 0), (202, 0), (204, 0), (206, 0),
    (0, 0x001f), (0, 0x001e), (0, 0x001d), (0, 0x001c), (0, 0x001b), (0, 0x001a),
    (0, 0x0019), (0, 0x0018), (0, 0x0017), (0, 0x0016), (0, 0x0015), (0, 0x0014),
    (0, 0x0013), (0, 0x0012), (0, 0x0011), (0, 0x0010), (208, 0), (210, 0),
    (212, 0), (214, 0), (216, 0), (218, 0), (220, 0), (222, 0),
    (0, 0x0028), (0, 0x0027), (0, 0x0026), (0, 0x0025), (0, 0x0024), (0, 0x0023),
    (0, 0x0022), (0, 0x0021), (0, 0x0020), (0, 0x010e), (0, 0x010d), (0, 0x010c),
    (0, 0x010b), (0, 0x010a), (0, 0x0109), (0, 0x0108), (0, 0x0112), (0, 0x0111),
    (0, 0x0110), (0, 0x010f), (0, 0x0603), (0, 0x1002), (0, 0x0f02), (0, 0x0e02),
    (0, 0x0d02), (0, 0x0c02), (0, 0x0b02), (0, 0x1f01), (0, 0x1e01), (0, 0x1d01),
    (0, 0x1c01), (0, 0x1b01),
];

/// The position in the block of each coefficient in stream order.
#[verifier::opaque]
pub const ZIG_ZAG: [usize; 64] = [
    0, 1, 8, 16, 9, 2, 3, 10, 17, 24, 32, 25, 18, 11, 4, 5,
    12, 19, 26, 33, 40, 48, 41, 34, 27, 20, 13, 6, 7, 14, 21, 28,
    35, 42, 49, 56, 57, 50, 43, 36, 29, 22, 15, 23, 30, 37, 44, 51,
    58, 59, 52, 45, 38, 31, 39, 46, 53, 60, 61, 54, 47, 55, 62, 63,
];

/// The default quantiser matrix of intra blocks.
#[verifier::opaque]
pub const INTRA_QUANT_MATRIX: [u8; 64] = [
    8, 16, 19, 22, 26, 27, 29, 34, 16, 16, 22, 24, 27, 29, 34, 37,
    19, 22, 26, 27, 29, 34, 34, 38, 22, 22, 26, 27, 29, 34, 37, 40,
    22, 26, 27, 29, 32, 35, 40, 48, 26, 27, 29, 32, 35, 40, 48, 58,
    26, 27, 29, 34, 38, 46, 56, 69, 27, 29, 35, 38, 46, 56, 69, 83,
];

/// The scale each dequantised coefficient is multiplied by before the
/// inverse DCT.
#[verifier::opaque]
pub const PREMULTIPLIER_MATRIX: [i32; 64] = [
    32, 44, 42, 38, 32, 25, 17, 9, 44, 62, 58, 52, 44, 35, 24, 12,
    42, 58, 55, 49, 42, 33, 23, 12, 38, 52, 49, 44, 38, 30, 20, 10,
    32, 44, 42, 38, 32, 25, 17, 9, 25, 35, 33, 30, 25, 20, 14, 7,
    17, 24, 23, 20, 17, 14, 9, 5, 9, 12, 12, 10, 9, 7, 5, 2,
];

/// The default quantiser matrix of non-intra blocks.
#[verifier::opaque]
pub const NON_INTRA_QUANT_MATRIX: [u8; 64] = [
    16, 16, 16, 16, 16, 16, 16, 16, 16, 16, 16, 16, 16, 16, 16, 16,
    16, 16, 16, 16, 16, 16, 16, 16, 16, 16, 16, 16, 16, 16, 16, 16,
    16, 16, 16, 16, 16, 16, 16, 16, 16, 16, 16, 16, 16, 16, 16, 16,
    16, 16, 16, 16, 16, 16, 16, 16, 16, 16, 16, 16, 16, 16, 16, 16,
];

/// Every VLC table decodes to an end, the coefficient order is a
/// permutation of the block's positions, and the matrices hold what the
/// dequantisation's bounds rest on.
pub proof fn lemma_video_tables()
    ensures
        vlc_table_ok(MACROBLOCK_ADDRESS_INCREMENT@),
        vlc_table_ok(MACROBLOCK_TYPE_INTRA@),
        vlc_table_ok(MACROBLOCK_TYPE_PREDICTIVE@),
        vlc_table_ok(MACROBLOCK_TYPE_B@),
        vlc_table_ok(CODE_BLOCK_PATTERN@),
        vlc_table_ok(MOTION@),
        vlc_table_ok(DCT_SIZE_LUMINANCE@),
        vlc_table_ok(DCT_SIZE_CHROMINANCE@),
        vlc_table_ok(DCT_COEFF@),
        forall|k: int|
            0 <= k < 80 ==> 0 <= #[trigger] MACROBLOCK_ADDRESS_INCREMENT@[k].1 <= 35,
        vlc_zero_path(MACROBLOCK_ADDRESS_INCREMENT@, 0) == 0,
        forall|k: int| 0 <= k < 68 ==> -16 <= #[trigger] MOTION@[k].1 <= 16,
        forall|k: int| 0 <= k < 18 ==> 0 <= #[trigger] DCT_SIZE_LUMINANCE@[k].1 <= 8,
        forall|k: int| 0 <= k < 18 ==> 0 <= #[trigger] DCT_SIZE_CHROMINANCE@[k].1 <= 8,
        forall|i: int| 0 <= i < 64 ==> #[trigger] ZIG_ZAG@[i] < 64,
        forall|i: int| 0 <= i < 64 ==> 0 <= #[trigger] PREMULTIPLIER_MATRIX@[i] <= 62,
{
    reveal(MACROBLOCK_ADDRESS_INCREMENT);
    reveal(MACROBLOCK_TYPE_INTRA);
    reveal(MACROBLOCK_TYPE_PREDICTIVE);
    reveal(MACROBLOCK_TYPE_B);
    reveal(CODE_BLOCK_PATTERN);
    reveal(MOTION);
    reveal(DCT_SIZE_LUMINANCE);
    reveal(DCT_SIZE_CHROMINANCE);
    reveal(DCT_COEFF);
    reveal(ZIG_ZAG);
    reveal(PREMULTIPLIER_MATRIX);
    reveal_with_fuel(vlc_zero_path, 10);
}

} // verus!
