//! MPEG-1 Audio Layer II: frame headers, bit allocation, scale factors and
//! the dequantised subband samples of each frame. The synthesis filterbank
//! that turns subband samples into PCM is not part of this module.

use vstd::prelude::*;
use crate::mpeg::buffer::{
    align_up, aligned_byte, bits_after, bits_or_zero, find_sync, has_bits, lemma_bits_bound, run_len,
    Buffer,
};
use vstd::arithmetic::power2::{lemma2_to64, lemma_pow2_unfold, pow2};

verus! {

/// PCM samples per channel in one frame.
pub const SAMPLES_PER_FRAME: usize = 1152;

/// Subband samples in one frame: 12 steps of 2 channels x 32 subbands x 3.
pub const SUBBAND_VALUES_PER_FRAME: usize = 2304;

pub const FRAME_SYNC: u32 = 0x7ff;

pub const MPEG_1: u32 = 0x3;

pub const LAYER_II: u32 = 0x2;

pub const MODE_JOINT_STEREO: u32 = 0x1;

pub const MODE_MONO: u32 = 0x3;

/// Sample rates by index (MPEG-1, then MPEG-2); 0 where none.
#[verifier::opaque]
pub const SAMPLE_RATE: [u32; 8] = [44100, 48000, 32000, 0, 22050, 24000, 16000, 0];

/// Bit rates in kbit/s by index less one (MPEG-1, then MPEG-2).
#[verifier::opaque]
pub const BIT_RATE: [i32; 28] = [
    32, 48, 56, 64, 80, 96, 112, 128, 160, 192, 224, 256, 320, 384,
    8, 16, 24, 32, 40, 48, 56, 64, 80, 96, 112, 128, 144, 160,
];

/// The scale factors 0, 1 and 2; each further 3 halve them.
#[verifier::opaque]
pub const SCALEFACTOR_BASE: [i32; 3] = [0x0200_0000, 0x0196_5FEA, 0x0142_8A30];

/// Bit-rate class by mono (first 16) or stereo (next 16) and bit-rate index.
#[verifier::opaque]
pub const QUANT_LUT_STEP_1: [u8; 32] = [
    0, 0, 1, 1, 1, 2, 2, 2, 2, 2, 2, 2, 2, 2, 0, 0,
    0, 0, 0, 0, 0, 0, 1, 1, 1, 2, 2, 2, 2, 2, 0, 0,
];

/// Allocation table and subband limit by bit-rate class (rows of 3) and
/// sample rate: the limit in the low 6 bits, the table in bit 6.
#[verifier::opaque]
pub const QUANT_LUT_STEP_2: [u8; 9] = [8, 8, 12, 91, 91, 91, 94, 91, 94];

/// Per allocation table (rows of 32) and subband: the allocation's bit count
/// in the high nibble, its row of the next table in the low nibble.
#[verifier::opaque]
pub const QUANT_LUT_STEP_3: [u8; 96] = [
    0x44, 0x44, 0x34, 0x34, 0x34, 0x34, 0x34, 0x34, 0x34, 0x34, 0x34, 0x34, 0, 0, 0, 0,
    0, 0, 0, 0, 0, 0, 0, 0, 0, 0, 0, 0, 0, 0, 0, 0,
    0x43, 0x43, 0x43, 0x42, 0x42, 0x42, 0x42, 0x42, 0x42, 0x42, 0x42, 0x31, 0x31, 0x31, 0x31, 0x31,
    0x31, 0x31, 0x31, 0x31, 0x31, 0x31, 0x31, 0x20, 0x20, 0x20, 0x20, 0x20, 0x20, 0x20, 0, 0,
    0x45, 0x45, 0x45, 0x45, 0x34, 0x34, 0x34, 0x34, 0x34, 0x34, 0x34, 0x24, 0x24, 0x24, 0x24, 0x24,
    0x24, 0x24, 0x24, 0x24, 0x24, 0x24, 0x24, 0x24, 0x24, 0x24, 0x24, 0x24, 0x24, 0x24, 0x24, 0,
];

/// Per row (16 entries) and allocation value: the quantiser, counted from
/// 1, or 0 for none.
#[verifier::opaque]
pub const QUANT_LUT_STEP_4: [u8; 96] = [
    0, 1, 2, 17, 0, 0, 0, 0, 0, 0, 0, 0, 0, 0, 0, 0,
    0, 1, 2, 3, 4, 5, 6, 17, 0, 0, 0, 0, 0, 0, 0, 0,
    0, 1, 2, 3, 4, 5, 6, 7, 8, 9, 10, 11, 12, 13, 14, 17,
    0, 1, 3, 5, 6, 7, 8, 9, 10, 11, 12, 13, 14, 15, 16, 17,
    0, 1, 2, 4, 5, 6, 7, 8, 9, 10, 11, 12, 13, 14, 15, 17,
    0, 1, 2, 3, 4, 5, 6, 7, 8, 9, 10, 11, 12, 13, 14, 15,
];

/// Quantiser levels.
#[verifier::opaque]
pub const QUANT_LEVELS: [u16; 17] = [
    3, 5, 7, 9, 15, 31, 63, 127, 255, 511, 1023, 2047, 4095, 8191, 16383, 32767, 65535,
];

/// Whether a quantiser codes three samples in one group.
#[verifier::opaque]
pub const QUANT_GROUP: [u8; 17] = [1, 1, 0, 1, 0, 0, 0, 0, 0, 0, 0, 0, 0, 0, 0, 0, 0];

/// Bits per sample, or per group of three.
#[verifier::opaque]
pub const QUANT_BITS: [u8; 17] = [5, 7, 3, 10, 4, 5, 6, 7, 8, 9, 10, 11, 12, 13, 14, 15, 16];

/// The largest sample a quantiser's bits can code: `levels - 1` in a
/// group's first two, and what the third can hold in a group.
pub open spec fn max_sample(k: int) -> int {
    let levels = QUANT_LEVELS@[k] as int;
    if QUANT_GROUP@[k] != 0 {
        let third = (pow2(QUANT_BITS@[k] as nat) - 1) / levels / levels;
        if third > levels - 1 {
            third
        } else {
            levels - 1
        }
    } else {
        pow2(QUANT_BITS@[k] as nat) - 1
    }
}

/// The tables' entries stay within the ranges their uses index.
pub proof fn lemma_audio_tables()
    ensures
        forall|k: int| 0 <= k < 8 ==> #[trigger] SAMPLE_RATE@[k] <= 48000,
        forall|k: int| 0 <= k < 3 ==> #[trigger] SAMPLE_RATE@[k] >= 32000,
        forall|k: int| 0 <= k < 14 ==> 32 <= #[trigger] BIT_RATE@[k] <= 384,
        forall|k: int| 0 <= k < 3 ==> 0 < #[trigger] SCALEFACTOR_BASE@[k] <= 0x0200_0000,
        forall|k: int| 0 <= k < 32 ==> #[trigger] QUANT_LUT_STEP_1@[k] <= 2,
        forall|k: int|
            0 <= k < 9 ==> #[trigger] QUANT_LUT_STEP_2@[k] % 64 <= 30 && QUANT_LUT_STEP_2@[k]
                / 64 <= 1,
        forall|k: int|
            0 <= k < 96 ==> #[trigger] QUANT_LUT_STEP_3@[k] / 16 <= 4 && QUANT_LUT_STEP_3@[k]
                % 16 <= 5,
        forall|k: int| 0 <= k < 96 ==> #[trigger] QUANT_LUT_STEP_4@[k] <= 17,
        forall|k: int| 0 <= k < 17 ==> 3 <= #[trigger] QUANT_LEVELS@[k],
        forall|k: int| 0 <= k < 17 ==> 3 <= #[trigger] QUANT_BITS@[k] <= 16,
{
    reveal(SAMPLE_RATE);
    reveal(BIT_RATE);
    reveal(SCALEFACTOR_BASE);
    reveal(QUANT_LUT_STEP_1);
    reveal(QUANT_LUT_STEP_2);
    reveal(QUANT_LUT_STEP_3);
    reveal(QUANT_LUT_STEP_4);
    reveal(QUANT_LEVELS);
    reveal(QUANT_BITS);
}

/// For every quantiser, a sample within its codable range is at most
/// 65536 away from the midpoint once scaled to 16 bits.
pub proof fn lemma_sample_scale(k: int, s: int)
    requires
        0 <= k < 17,
        0 <= s <= max_sample(k),
    ensures
        ({
            let levels = QUANT_LEVELS@[k] as int;
            let v = ((levels + 1) / 2 - 1 - s) * (65536int / (levels + 1));
            -65536 <= v <= 65536
        }),
{
    reveal(QUANT_LEVELS);
    reveal(QUANT_GROUP);
    reveal(QUANT_BITS);
    lemma2_to64();
    if k == 0 {
        assert(QUANT_LEVELS@[0] == 3 && QUANT_GROUP@[0] == 1 && QUANT_BITS@[0] == 5);
        assert(pow2(5) == 32);
        assert(max_sample(0) == 3);
        assert(65536int / (3int + 1) == 16384 && (3int + 1) / 2 - 1 == 1);
        assert(-65536 <= (1 - s) * 16384 <= 65536);
    } else if k == 1 {
        assert(QUANT_LEVELS@[1] == 5 && QUANT_GROUP@[1] == 1 && QUANT_BITS@[1] == 7);
        assert(pow2(7) == 128);
        assert(max_sample(1) == 5);
        assert(65536int / (5int + 1) == 10922 && (5int + 1) / 2 - 1 == 2);
        assert(-65536 <= (2 - s) * 10922 <= 65536);
    } else if k == 2 {
        assert(QUANT_LEVELS@[2] == 7 && QUANT_GROUP@[2] == 0 && QUANT_BITS@[2] == 3);
        assert(pow2(3) == 8);
        assert(max_sample(2) == 7);
        assert(65536int / (7int + 1) == 8192 && (7int + 1) / 2 - 1 == 3);
        assert(-65536 <= (3 - s) * 8192 <= 65536);
    } else if k == 3 {
        assert(QUANT_LEVELS@[3] == 9 && QUANT_GROUP@[3] == 1 && QUANT_BITS@[3] == 10);
        assert(pow2(10) == 1024);
        assert(max_sample(3) == 12);
        assert(65536int / (9int + 1) == 6553 && (9int + 1) / 2 - 1 == 4);
        assert(-65536 <= (4 - s) * 6553 <= 65536);
    } else if k == 4 {
        assert(QUANT_LEVELS@[4] == 15 && QUANT_GROUP@[4] == 0 && QUANT_BITS@[4] == 4);
        assert(pow2(4) == 16);
        assert(max_sample(4) == 15);
        assert(65536int / (15int + 1) == 4096 && (15int + 1) / 2 - 1 == 7);
        assert(-65536 <= (7 - s) * 4096 <= 65536);
    } else if k == 5 {
        assert(QUANT_LEVELS@[5] == 31 && QUANT_GROUP@[5] == 0 && QUANT_BITS@[5] == 5);
        assert(pow2(5) == 32);
        assert(max_sample(5) == 31);
        assert(65536int / (31int + 1) == 2048 && (31int + 1) / 2 - 1 == 15);
        assert(-65536 <= (15 - s) * 2048 <= 65536);
    } else if k == 6 {
        assert(QUANT_LEVELS@[6] == 63 && QUANT_GROUP@[6] == 0 && QUANT_BITS@[6] == 6);
        assert(pow2(6) == 64);
        assert(max_sample(6) == 63);
        assert(65536int / (63int + 1) == 1024 && (63int + 1) / 2 - 1 == 31);
        assert(-65536 <= (31 - s) * 1024 <= 65536);
    } else if k == 7 {
        assert(QUANT_LEVELS@[7] == 127 && QUANT_GROUP@[7] == 0 && QUANT_BITS@[7] == 7);
        assert(pow2(7) == 128);
        assert(max_sample(7) == 127);
        assert(65536int / (127int + 1) == 512 && (127int + 1) / 2 - 1 == 63);
        assert(-65536 <= (63 - s) * 512 <= 65536);
    } else if k == 8 {
        assert(QUANT_LEVELS@[8] == 255 && QUANT_GROUP@[8] == 0 && QUANT_BITS@[8] == 8);
        assert(pow2(8) == 256);
        assert(max_sample(8) == 255);
        assert(65536int / (255int + 1) == 256 && (255int + 1) / 2 - 1 == 127);
        assert(-65536 <= (127 - s) * 256 <= 65536);
    } else if k == 9 {
        assert(QUANT_LEVELS@[9] == 511 && QUANT_GROUP@[9] == 0 && QUANT_BITS@[9] == 9);
        assert(pow2(9) == 512);
        assert(max_sample(9) == 511);
        assert(65536int / (511int + 1) == 128 && (511int + 1) / 2 - 1 == 255);
        assert(-65536 <= (255 - s) * 128 <= 65536);
    } else if k == 10 {
        assert(QUANT_LEVELS@[10] == 1023 && QUANT_GROUP@[10] == 0 && QUANT_BITS@[10] == 10);
        assert(pow2(10) == 1024);
        assert(max_sample(10) == 1023);
        assert(65536int / (1023int + 1) == 64 && (1023int + 1) / 2 - 1 == 511);
        assert(-65536 <= (511 - s) * 64 <= 65536);
    } else if k == 11 {
        assert(QUANT_LEVELS@[11] == 2047 && QUANT_GROUP@[11] == 0 && QUANT_BITS@[11] == 11);
        assert(pow2(11) == 2048);
        assert(max_sample(11) == 2047);
        assert(65536int / (2047int + 1) == 32 && (2047int + 1) / 2 - 1 == 1023);
        assert(-65536 <= (1023 - s) * 32 <= 65536);
    } else if k == 12 {
        assert(QUANT_LEVELS@[12] == 4095 && QUANT_GROUP@[12] == 0 && QUANT_BITS@[12] == 12);
        assert(pow2(12) == 4096);
        assert(max_sample(12) == 4095);
        assert(65536int / (4095int + 1) == 16 && (4095int + 1) / 2 - 1 == 2047);
        assert(-65536 <= (2047 - s) * 16 <= 65536);
    } else if k == 13 {
        assert(QUANT_LEVELS@[13] == 8191 && QUANT_GROUP@[13] == 0 && QUANT_BITS@[13] == 13);
        assert(pow2(13) == 8192);
        assert(max_sample(13) == 8191);
        assert(65536int / (8191int + 1) == 8 && (8191int + 1) / 2 - 1 == 4095);
        assert(-65536 <= (4095 - s) * 8 <= 65536);
    } else if k == 14 {
        assert(QUANT_LEVELS@[14] == 16383 && QUANT_GROUP@[14] == 0 && QUANT_BITS@[14] == 14);
        assert(pow2(14) == 16384);
        assert(max_sample(14) == 16383);
        assert(65536int / (16383int + 1) == 4 && (16383int + 1) / 2 - 1 == 8191);
        assert(-65536 <= (8191 - s) * 4 <= 65536);
    } else if k == 15 {
        assert(QUANT_LEVELS@[15] == 32767 && QUANT_GROUP@[15] == 0 && QUANT_BITS@[15] == 15);
        assert(pow2(15) == 32768);
        assert(max_sample(15) == 32767);
        assert(65536int / (32767int + 1) == 2 && (32767int + 1) / 2 - 1 == 16383);
        assert(-65536 <= (16383 - s) * 2 <= 65536);
    } else if k == 16 {
        assert(QUANT_LEVELS@[16] == 65535 && QUANT_GROUP@[16] == 0 && QUANT_BITS@[16] == 16);
        assert(pow2(16) == 65536);
        assert(max_sample(16) == 65535);
        assert(65536int / (65535int + 1) == 1 && (65535int + 1) / 2 - 1 == 32767);
        assert(-65536 <= (32767 - s) * 1 <= 65536);
    }
}

// ---------------------------------------------------------------------------
// Sample reconstruction.
// ---------------------------------------------------------------------------

/// The scale factor with index `index` (0 to 63): the base for
/// `index % 3` halved `index / 3` times with rounding; index 63 gives 0.
pub open spec fn scalefactor_value(index: int) -> int {
    if index == 63 {
        0
    } else {
        let p = pow2((index / 3) as nat) as int;
        (SCALEFACTOR_BASE@[index % 3] + p / 2) / p
    }
}

/// A sample `s` of a quantiser with `levels` levels, centred and scaled to
/// 16 bits, then multiplied by the scale factor `sf` in 12-bit fixed point
/// halves.
pub open spec fn dequantized_sample(levels: int, s: int, sf: int) -> int {
    let val = ((levels + 1) / 2 - 1 - s) * (65536int / (levels + 1));
    let low = ((val * (sf % 4096) + 2048) as i32 >> 12u32) as int;
    ((val * (sf / 4096) + low) as i32 >> 12u32) as int
}

/// `2^k` for `k` up to 30.
fn pow2_i32_upto30(k: i32) -> (r: i32)
    requires
        0 <= k <= 30,
    ensures
        r == pow2(k as nat),
{
    let mut r: i32 = 1;
    let mut i: i32 = 0;
    proof {
        lemma2_to64();
    }
    while i < k
        invariant
            0 <= i <= k <= 30,
            r == pow2(i as nat),
            pow2(30) == 0x4000_0000,
        decreases k - i,
    {
        proof {
            lemma_pow2_unfold((i + 1) as nat);
            if i + 1 < 30 {
                vstd::arithmetic::power2::lemma_pow2_strictly_increases((i + 1) as nat, 30);
            }
        }
        r = r * 2;
        i = i + 1;
    }
    r
}

fn scalefactor(index: i32) -> (r: i32)
    requires
        0 <= index < 64,
    ensures
        r == scalefactor_value(index as int),
        0 <= r <= 0x0200_0000,
{
    proof {
        lemma_audio_tables();
    }
    if index == 63 {
        return 0;
    }
    let shift = index / 3;
    let p = pow2_i32_upto30(shift);
    proof {
        vstd::arithmetic::power2::lemma_pow2_pos(shift as nat);
        if shift > 0 {
            vstd::arithmetic::power2::lemma_pow2_strictly_increases(0, shift as nat);
        }
        lemma2_to64();
    }
    let base = SCALEFACTOR_BASE[(index % 3) as usize];
    proof {
        assert(base as int + p as int / 2 <= 0x0200_0000 + 0x0010_0000);
        vstd::arithmetic::div_mod::lemma_div_is_ordered(
            base as int + p as int / 2,
            0x0200_0000 + p as int / 2,
            p as int,
        );
        if p == 1 {
            assert((base as int + p as int / 2) / (p as int) == base as int);
        } else {
            assert(p >= 2);
            assert((0x0200_0000 + p as int / 2) / (p as int) <= 0x0200_0000) by (nonlinear_arith)
                requires
                    p >= 2,
            ;
        }
    }
    (base + p / 2) / p
}

fn dequantize_sample(levels: i32, s: i32, sf: i32) -> (r: i32)
    requires
        3 <= levels <= 65535,
        -65536 <= ((levels + 1) / 2 - 1 - s) * (65536int / (levels + 1)) <= 65536,
        0 <= sf <= 0x0200_0000,
        -0x10000 <= s <= 0x10000,
    ensures
        r == dequantized_sample(levels as int, s as int, sf as int),
{
    let scale = 65536 / (levels + 1);
    let adj = (levels + 1) / 2 - 1;
    proof {
        assert(1 <= scale <= 16384) by (nonlinear_arith)
            requires
                scale == 65536int / (levels + 1),
                3 <= levels <= 65535,
        ;
    }
    let val = (adj - s) * scale;
    let hi = sf / 4096;
    let lo = sf % 4096;
    proof {
        assert(-65536 * 8192 <= val * hi <= 65536 * 8192) by (nonlinear_arith)
            requires
                -65536 <= val <= 65536,
                0 <= hi <= 8192,
        ;
        assert(-65536 * 4095 <= val * lo <= 65536 * 4095) by (nonlinear_arith)
            requires
                -65536 <= val <= 65536,
                0 <= lo <= 4095,
        ;
    }
    let b = val * lo + 2048;
    let c = b >> 12u32;
    proof {
        assert(-0x10000 <= c <= 0x10000) by (bit_vector)
            requires
                -0x1000_0000 <= b <= 0x1000_0000,
                c == b >> 12u32,
        ;
    }
    (val * hi + c) >> 12u32
}

// ---------------------------------------------------------------------------
// The decoder.
// ---------------------------------------------------------------------------

/// An MP2 decoder over an elementary stream held in memory: for each frame
/// it gives the dequantised subband samples, 12 steps of 2 channels x 32
/// subbands x 3 values, which a synthesis filterbank turns into 1152 PCM
/// samples per channel.
pub struct Audio {
    buffer: Buffer,
    samples_decoded: u64,
    samplerate_index: usize,
    bitrate_index: usize,
    version: u32,
    layer: u32,
    mode: u32,
    bound: usize,
    next_frame_data_size: usize,
    has_header: bool,
    allocation: Vec<u8>,
    scale_factor_info: Vec<u8>,
    scale_factor: Vec<i32>,
    sample: Vec<i32>,
}

fn filled_u8(n: usize) -> (r: Vec<u8>)
    ensures
        r@.len() == n,
        forall|k: int| 0 <= k < n ==> r@[k] == 0,
{
    let mut v: Vec<u8> = Vec::new();
    let mut i: usize = 0;
    while i < n
        invariant
            i <= n,
            v@.len() == i,
            forall|k: int| 0 <= k < i ==> v@[k] == 0,
        decreases n - i,
    {
        v.push(0);
        i = i + 1;
    }
    v
}

fn filled_i32(n: usize) -> (r: Vec<i32>)
    ensures
        r@.len() == n,
        forall|k: int| 0 <= k < n ==> r@[k] == 0,
{
    let mut v: Vec<i32> = Vec::new();
    let mut i: usize = 0;
    while i < n
        invariant
            i <= n,
            v@.len() == i,
            forall|k: int| 0 <= k < i ==> v@[k] == 0,
        decreases n - i,
    {
        v.push(0);
        i = i + 1;
    }
    v
}

impl Audio {
    /// The stream being decoded.
    pub closed spec fn stream(&self) -> Seq<u8> {
        self.buffer@.0
    }

    /// Whether a frame header has been read.
    pub closed spec fn header_parsed(&self) -> bool {
        self.has_header
    }

    /// PCM samples per channel decoded so far.
    pub closed spec fn decoded_samples(&self) -> u64 {
        self.samples_decoded
    }

    /// The sample-rate index of the headers read.
    pub closed spec fn rate_index(&self) -> int {
        self.samplerate_index as int
    }

    /// The subband values the next frame's data decodes to, the header
    /// having been read.
    pub closed spec fn frame_values(&self) -> Seq<i32> {
        frame_subbands(
            self.buffer@.0,
            self.buffer@.1,
            self.mode as int,
            self.bitrate_index as int,
            self.samplerate_index as int,
            self.bound as int,
            self.allocation@,
            self.scale_factor_info@,
            self.scale_factor@,
            self.sample@,
        )
    }

    /// The subband values of the next frame: that of the header pending,
    /// or else of the header read next.
    pub closed spec fn next_frame_values(&self) -> Seq<i32> {
        if self.next_frame_data_size == 0 {
            let bytes = self.buffer@.0;
            let h = header_read(
                bytes,
                self.buffer@.1,
                self.has_header,
                self.bitrate_index as int,
                self.samplerate_index as int,
                self.mode as int,
            );
            frame_subbands(
                bytes,
                h.4,
                h.3,
                h.1,
                h.2,
                h.5,
                self.allocation@,
                self.scale_factor_info@,
                self.scale_factor@,
                self.sample@,
            )
        } else {
            self.frame_values()
        }
    }

    /// Whether a whole frame follows: the data size of the header pending,
    /// or else of the header read next, is not 0, and that many bytes
    /// follow the header.
    pub closed spec fn frame_ready(&self) -> bool {
        let bytes = self.buffer@.0;
        let (size, after) = if self.next_frame_data_size == 0 {
            let h = header_read(
                bytes,
                self.buffer@.1,
                self.has_header,
                self.bitrate_index as int,
                self.samplerate_index as int,
                self.mode as int,
            );
            (h.0, h.4)
        } else {
            (self.next_frame_data_size as int, self.buffer@.1)
        };
        size != 0 && has_bits(bytes.len(), after, (size * 8) as nat)
    }

    /// Sizes and ranges of the decoder's state.
    pub closed spec fn wf(&self) -> bool {
        &&& self.buffer.wf()
        &&& self.buffer@.0.len() * 8 + 15 <= usize::MAX
        &&& self.allocation@.len() == 64
        &&& forall|k: int| 0 <= k < 64 ==> #[trigger] self.allocation@[k] <= 17
        &&& self.scale_factor_info@.len() == 64
        &&& self.scale_factor@.len() == 192
        &&& forall|k: int| 0 <= k < 192 ==> 0 <= #[trigger] self.scale_factor@[k] < 64
        &&& self.sample@.len() == 192
        &&& self.samplerate_index <= 3
        &&& self.bitrate_index <= 13
        &&& self.mode <= 3
        &&& self.bound <= 32
        &&& (self.has_header ==> self.samplerate_index < 3)
        &&& self.next_frame_data_size <= 2000
        &&& (self.next_frame_data_size != 0 ==> self.has_header)
    }

    /// Creates a decoder over an MP2 elementary stream and reads the first
    /// frame header.
    pub fn new(audio_es: Vec<u8>) -> (r: Self)
        requires
            audio_es@.len() * 8 + 15 <= usize::MAX,
        ensures
            r.wf(),
            r.stream() == audio_es@,
    {
        let mut s = Audio {
            buffer: Buffer::new(audio_es),
            samples_decoded: 0,
            samplerate_index: 3,
            bitrate_index: 0,
            version: 0,
            layer: 0,
            mode: 0,
            bound: 0,
            next_frame_data_size: 0,
            has_header: false,
            allocation: filled_u8(64),
            scale_factor_info: filled_u8(64),
            scale_factor: filled_i32(192),
            sample: filled_i32(192),
        };
        s.next_frame_data_size = s.decode_header();
        s
    }

    /// Whether a frame header has been read; tries to read one first if
    /// not.
    pub fn has_header(&mut self) -> (r: bool)
        requires
            old(self).wf(),
        ensures
            final(self).wf(),
            final(self).stream() == old(self).stream(),
            r == final(self).header_parsed(),
            old(self).header_parsed() ==> *final(self) == *old(self),
    {
        if self.has_header {
            return true;
        }
        self.next_frame_data_size = self.decode_header();
        self.has_header
    }

    /// The sample rate of the stream in Hz, or 0 before a header is read.
    pub fn samplerate(&self) -> (r: u32)
        requires
            self.wf(),
        ensures
            !self.header_parsed() ==> r == 0,
            self.header_parsed() ==> r == SAMPLE_RATE@[self.rate_index()],
            self.header_parsed() ==> 32000 <= r <= 48000,
    {
        proof {
            lemma_audio_tables();
        }
        if self.has_header {
            SAMPLE_RATE[self.samplerate_index]
        } else {
            0
        }
    }

    /// PCM samples per channel decoded so far.
    pub fn samples_decoded(&self) -> (r: u64)
        ensures
            r == self.decoded_samples(),
    {
        self.samples_decoded
    }

    /// Decodes the next frame: its dequantised subband samples, ordered by
    /// step (part, then granule), channel, subband and value; `None` when no
    /// valid header follows or the frame is not whole in the stream.
    pub fn decode(&mut self) -> (r: Option<Vec<i32>>)
        requires
            old(self).wf(),
        ensures
            final(self).wf(),
            final(self).stream() == old(self).stream(),
            r is Some ==> r->0@.len() == SUBBAND_VALUES_PER_FRAME,
            r is Some ==> final(self).header_parsed(),
            r is Some && old(self).decoded_samples() <= u64::MAX - 1152 ==> final(self).decoded_samples()
                == old(self).decoded_samples() + 1152,
            r is None ==> final(self).decoded_samples() == old(self).decoded_samples(),
            r is Some <==> old(self).frame_ready(),
            r matches Some(v) ==> v@ == old(self).next_frame_values(),
    {
        if self.next_frame_data_size == 0 {
            if !self.buffer.has(48) {
                return None;
            }
            self.next_frame_data_size = self.decode_header();
        }
        if self.next_frame_data_size == 0 || !self.buffer.has(self.next_frame_data_size * 8) {
            return None;
        }
        let out = self.decode_frame();
        self.next_frame_data_size = 0;
        if self.samples_decoded <= u64::MAX - 1152 {
            self.samples_decoded = self.samples_decoded + 1152;
        }
        Some(out)
    }

    /// Reads a frame header: skips zero bytes, finds the frame sync, checks
    /// for MPEG-1 Layer II, a valid bit rate and sample rate (and, after the
    /// first header, the same format), and returns the size of the frame's
    /// data in bytes, or 0.
    #[verifier::rlimit(100)]
    fn decode_header(&mut self) -> (r: usize)
        requires
            old(self).wf(),
        ensures
            final(self).wf(),
            final(self).stream() == old(self).stream(),
            old(self).has_header ==> final(self).has_header,
            r != 0 ==> final(self).has_header,
            r <= 2000,
            final(self).allocation == old(self).allocation,
            final(self).scale_factor == old(self).scale_factor,
            final(self).scale_factor_info == old(self).scale_factor_info,
            final(self).sample == old(self).sample,
            final(self).next_frame_data_size == old(self).next_frame_data_size,
            final(self).samples_decoded == old(self).samples_decoded,
            ({
                let (size, br, sr, mode, end, bound) = header_read(
                    old(self).buffer@.0,
                    old(self).buffer@.1,
                    old(self).has_header,
                    old(self).bitrate_index as int,
                    old(self).samplerate_index as int,
                    old(self).mode as int,
                );
                &&& r == size
                &&& r != 0 ==> final(self).bitrate_index == br && final(self).samplerate_index
                    == sr && final(self).mode == mode && final(self).buffer@.1 == end
                        && final(self).bound == bound
            }),
    {
        proof {
            lemma_audio_tables();
            lemma2_to64();
        }
        if !self.buffer.has(48) {
            return 0;
        }
        self.buffer.skip_bytes(0x00);
        let ghost p0 = self.buffer@.1;
        let sync = self.buffer.read(11);
        if sync != FRAME_SYNC && !self.buffer.find_frame_sync() {
            return 0;
        }
        let ghost p1 = self.buffer@.1;
        self.version = self.buffer.read(2);
        let ghost p2 = self.buffer@.1;
        self.layer = self.buffer.read(2);
        let has_crc = self.buffer.read(1) == 0;
        proof {
            lemma_bits_bound(self.buffer@.0, p1 as int, 2);
            lemma_bits_bound(self.buffer@.0, p2 as int, 2);
        }
        if self.version != MPEG_1 || self.layer != LAYER_II {
            return 0;
        }
        let ghost p3 = self.buffer@.1;
        let br = self.buffer.read(4);
        proof {
            lemma_bits_bound(self.buffer@.0, p3 as int, 4);
        }
        if br == 0 || br - 1 > 13 {
            return 0;
        }
        let bitrate_index = (br - 1) as usize;
        let ghost p4 = self.buffer@.1;
        let sr = self.buffer.read(2);
        proof {
            lemma_bits_bound(self.buffer@.0, p4 as int, 2);
        }
        let samplerate_index = sr as usize;
        if samplerate_index == 3 {
            return 0;
        }
        let ghost p5 = self.buffer@.1;
        let padding = self.buffer.read(1) as usize;
        proof {
            lemma_bits_bound(self.buffer@.0, p5 as int, 1);
        }
        self.buffer.skip(1);
        let ghost p6 = self.buffer@.1;
        let mode = self.buffer.read(2);
        proof {
            lemma_bits_bound(self.buffer@.0, p6 as int, 2);
        }
        if self.has_header && (self.bitrate_index != bitrate_index || self.samplerate_index
            != samplerate_index || self.mode != mode) {
            return 0;
        }
        self.bitrate_index = bitrate_index;
        self.samplerate_index = samplerate_index;
        self.mode = mode;
        self.has_header = true;
        if mode == MODE_JOINT_STEREO {
            let ghost p7 = self.buffer@.1;
            let b = self.buffer.read(2);
            proof {
                lemma_bits_bound(self.buffer@.0, p7 as int, 2);
            }
            self.bound = ((b + 1) * 4) as usize;
        } else {
            self.buffer.skip(2);
            self.bound = if mode == MODE_MONO {
                0
            } else {
                32
            };
        }
        self.buffer.skip(4);
        if has_crc {
            self.buffer.skip(16);
        }
        let bitrate = BIT_RATE[self.bitrate_index];
        let samplerate = SAMPLE_RATE[self.samplerate_index] as i32;
        proof {
            assert(144000 * bitrate <= 144000 * 384);
            assert(144000 * (bitrate as int) / (samplerate as int) <= 144000 * 384 / 32000) by (nonlinear_arith)
                requires
                    32 <= bitrate <= 384,
                    32000 <= samplerate <= 48000,
            ;
            assert(144000 * (bitrate as int) / (samplerate as int) >= 144000 * 32 / 48000) by (nonlinear_arith)
                requires
                    32 <= bitrate <= 384,
                    32000 <= samplerate <= 48000,
            ;
        }
        let frame_size = (144000 * bitrate / samplerate) as usize + padding;
        frame_size - if has_crc {
            6
        } else {
            4
        }
    }
}

/// A frame header read at bit `pos` of `bytes`, after a header with format
/// (`br0`, `sr0`, `mode0`) when `known`: zero bytes are skipped, then the
/// 11 sync bits must follow (else the next sync is searched for), then
/// MPEG-1 Layer II, a bit-rate index 1 to 14 and a sample-rate index 0 to 2
/// are required, and after a first header the same format. Gives the size
/// of the frame's data in bytes (0 when no valid header is read), the
/// bit-rate index less one, the sample-rate index, the mode, the position
/// where reading stopped, and the bound below
/// which both channels are coded (by the mode extension in joint stereo).
pub open spec fn header_read(
    bytes: Seq<u8>,
    pos: nat,
    known: bool,
    br0: int,
    sr0: int,
    mode0: int,
) -> (int, int, int, int, nat, int) {
    let len = bytes.len();
    if !has_bits(len, pos, 48) {
        (0, 0, 0, 0, pos, 0)
    } else {
        let p0 = (align_up(pos) + run_len(bytes, aligned_byte(pos), 0) * 8) as nat;
        let sync = bits_or_zero(bytes, p0, 11);
        let p1 = bits_after(len, p0, 11);
        let found = sync == FRAME_SYNC || find_sync(bytes, (p1 / 8) as int) is Some;
        if !found {
            (0, 0, 0, 0, (len + 1) * 8, 0)
        } else {
            let p2 = if sync == FRAME_SYNC {
                p1
            } else {
                ((find_sync(bytes, (p1 / 8) as int)->0 + 1) * 8 + 3) as nat
            };
            let version = bits_or_zero(bytes, p2, 2);
            let p3 = bits_after(len, p2, 2);
            let layer = bits_or_zero(bytes, p3, 2);
            let p4 = bits_after(len, p3, 2);
            let has_crc = bits_or_zero(bytes, p4, 1) == 0;
            let p5 = bits_after(len, p4, 1);
            let br = bits_or_zero(bytes, p5, 4) as int;
            let p6 = bits_after(len, p5, 4);
            let sr = bits_or_zero(bytes, p6, 2) as int;
            let p7 = bits_after(len, p6, 2);
            let padding = bits_or_zero(bytes, p7, 1) as int;
            let p8 = bits_after(len, bits_after(len, p7, 1), 1);
            let mode = bits_or_zero(bytes, p8, 2) as int;
            let p9 = bits_after(len, p8, 2);
            let p10 = bits_after(len, bits_after(len, p9, 2), 4);
            let end = if has_crc {
                bits_after(len, p10, 16)
            } else {
                p10
            };
            if version != MPEG_1 || layer != LAYER_II {
                (0, 0, 0, 0, p5, 0)
            } else if br == 0 || br - 1 > 13 {
                (0, 0, 0, 0, p6, 0)
            } else if sr == 3 {
                (0, 0, 0, 0, p7, 0)
            } else if known && (br0 != br - 1 || sr0 != sr || mode0 != mode) {
                (0, 0, 0, 0, p9, 0)
            } else {
                (
                    144000 * BIT_RATE@[br - 1] / (SAMPLE_RATE@[sr] as int) + padding - (if has_crc {
                        6int
                    } else {
                        4
                    }),
                    br - 1,
                    sr,
                    mode,
                    end,
                    if mode == MODE_JOINT_STEREO as int {
                        ((bits_or_zero(bytes, p9, 2) + 1) * 4) as int
                    } else if mode == MODE_MONO as int {
                        0
                    } else {
                        32
                    },
                )
            }
        }
    }
}

// ---------------------------------------------------------------------------
// What a frame's fields read.
// ---------------------------------------------------------------------------

/// The allocation of subband `sb` under allocation table `tab3`, read at
/// bit `pos`: the quantiser counted from 1 (0 for none), and the position
/// after it.
pub open spec fn allocation_read(bytes: Seq<u8>, pos: nat, sb: int, tab3: int) -> (int, nat) {
    let tab4 = QUANT_LUT_STEP_3@[tab3 * 32 + sb] as int;
    let nbal = (tab4 / 16) as nat;
    let row = tab4 % 16;
    (
        QUANT_LUT_STEP_4@[row * 16 + bits_or_zero(bytes, pos, nbal)] as int,
        bits_after(bytes.len(), pos, nbal),
    )
}

/// The three scale factors a subband with selector `info` reads at bit
/// `pos` (6 bits each; selector 1 shares the first two, 2 all three, 3 the
/// last two), and the position after them.
pub open spec fn scale_factors_read(bytes: Seq<u8>, pos: nat, info: int) -> (int, int, int, nat) {
    let len = bytes.len();
    let a = bits_or_zero(bytes, pos, 6) as int;
    let p1 = bits_after(len, pos, 6);
    if info == 0 {
        let b = bits_or_zero(bytes, p1, 6) as int;
        let p2 = bits_after(len, p1, 6);
        (a, b, bits_or_zero(bytes, p2, 6) as int, bits_after(len, p2, 6))
    } else if info == 1 {
        (a, a, bits_or_zero(bytes, p1, 6) as int, bits_after(len, p1, 6))
    } else if info == 2 {
        (a, a, a, p1)
    } else {
        let b = bits_or_zero(bytes, p1, 6) as int;
        (a, b, b, bits_after(len, p1, 6))
    }
}

/// The three dequantised samples of a subband with quantiser `k` (from 0)
/// and scale factor `sf`, read at bit `pos` (one group, or three codes),
/// and the position after them.
pub open spec fn samples_read(bytes: Seq<u8>, pos: nat, k: int, sf: int) -> (int, int, int, nat) {
    let len = bytes.len();
    let levels = QUANT_LEVELS@[k] as int;
    let bits = QUANT_BITS@[k] as nat;
    if QUANT_GROUP@[k] != 0 {
        let raw = bits_or_zero(bytes, pos, bits) as int;
        (
            dequantized_sample(levels, raw % levels, sf),
            dequantized_sample(levels, (raw / levels) % levels, sf),
            dequantized_sample(levels, raw / levels / levels, sf),
            bits_after(len, pos, bits),
        )
    } else {
        let p1 = bits_after(len, pos, bits);
        let p2 = bits_after(len, p1, bits);
        (
            dequantized_sample(levels, bits_or_zero(bytes, pos, bits) as int, sf),
            dequantized_sample(levels, bits_or_zero(bytes, p1, bits) as int, sf),
            dequantized_sample(levels, bits_or_zero(bytes, p2, bits) as int, sf),
            bits_after(len, p2, bits),
        )
    }
}

/// The allocations of subbands `sb` up to `bound`, read at bit `pos` for
/// each channel in turn, into `alloc` (the left channel's at `sb`, the
/// right one's at `32 + sb`); and the position after them.
pub open spec fn allocations_both(bytes: Seq<u8>, pos: nat, sb: int, bound: int, tab3: int, alloc: Seq<u8>) -> (
    Seq<u8>,
    nat,
)
    decreases bound - sb,
{
    if sb >= bound {
        (alloc, pos)
    } else {
        let (a0, p1) = allocation_read(bytes, pos, sb, tab3);
        let (a1, p2) = allocation_read(bytes, p1, sb, tab3);
        allocations_both(bytes, p2, sb + 1, bound, tab3, alloc.update(sb, a0 as u8).update(32 + sb, a1 as u8))
    }
}

/// The allocations of subbands `sb` up to `sblimit`, one read at bit `pos`
/// for both channels; and the position after them.
pub open spec fn allocations_shared(
    bytes: Seq<u8>,
    pos: nat,
    sb: int,
    sblimit: int,
    tab3: int,
    alloc: Seq<u8>,
) -> (Seq<u8>, nat)
    decreases sblimit - sb,
{
    if sb >= sblimit {
        (alloc, pos)
    } else {
        let (a, p1) = allocation_read(bytes, pos, sb, tab3);
        allocations_shared(bytes, p1, sb + 1, sblimit, tab3, alloc.update(sb, a as u8).update(32 + sb, a as u8))
    }
}

/// The scale factor selectors of subband `sb` for channels `ch` up to
/// `channels`, two bits each for the allocated ones; and the position
/// after them.
pub open spec fn selectors_channels(
    bytes: Seq<u8>,
    pos: nat,
    sb: int,
    ch: int,
    channels: int,
    alloc: Seq<u8>,
    info: Seq<u8>,
) -> (Seq<u8>, nat)
    decreases channels - ch,
{
    if ch >= channels {
        (info, pos)
    } else if alloc[ch * 32 + sb] != 0 {
        selectors_channels(
            bytes,
            bits_after(bytes.len(), pos, 2),
            sb,
            ch + 1,
            channels,
            alloc,
            info.update(ch * 32 + sb, bits_or_zero(bytes, pos, 2) as u8),
        )
    } else {
        selectors_channels(bytes, pos, sb, ch + 1, channels, alloc, info)
    }
}

/// The scale factor selectors of subbands `sb` up to `sblimit` (in mono,
/// the left channel's copied to the right); and the position after them.
pub open spec fn selectors_read(
    bytes: Seq<u8>,
    pos: nat,
    sb: int,
    sblimit: int,
    mono: bool,
    alloc: Seq<u8>,
    info: Seq<u8>,
) -> (Seq<u8>, nat)
    decreases sblimit - sb,
{
    if sb >= sblimit {
        (info, pos)
    } else {
        let (i1, p1) = selectors_channels(bytes, pos, sb, 0, if mono {
            1
        } else {
            2
        }, alloc, info);
        let i2 = if mono {
            i1.update(32 + sb, i1[sb])
        } else {
            i1
        };
        selectors_read(bytes, p1, sb + 1, sblimit, mono, alloc, i2)
    }
}

/// `sf` with the three scale factors of `r` at `base`.
pub open spec fn with_scale_factors(sf: Seq<i32>, base: int, r: (int, int, int, nat)) -> Seq<i32> {
    sf.update(base, r.0 as i32).update(base + 1, r.1 as i32).update(base + 2, r.2 as i32)
}

/// The scale factors of subband `sb` for channels `ch` up to `channels`,
/// read for the allocated ones by their selectors; and the position after
/// them.
pub open spec fn scale_factors_channels(
    bytes: Seq<u8>,
    pos: nat,
    sb: int,
    ch: int,
    channels: int,
    alloc: Seq<u8>,
    info: Seq<u8>,
    sf: Seq<i32>,
) -> (Seq<i32>, nat)
    decreases channels - ch,
{
    if ch >= channels {
        (sf, pos)
    } else if alloc[ch * 32 + sb] != 0 {
        let r = scale_factors_read(bytes, pos, info[ch * 32 + sb] as int);
        scale_factors_channels(
            bytes,
            r.3,
            sb,
            ch + 1,
            channels,
            alloc,
            info,
            with_scale_factors(sf, (ch * 32 + sb) * 3, r),
        )
    } else {
        scale_factors_channels(bytes, pos, sb, ch + 1, channels, alloc, info, sf)
    }
}

/// The scale factors of subbands `sb` up to `sblimit` (in mono, the left
/// channel's copied to the right); and the position after them.
pub open spec fn scale_factors_all(
    bytes: Seq<u8>,
    pos: nat,
    sb: int,
    sblimit: int,
    mono: bool,
    alloc: Seq<u8>,
    info: Seq<u8>,
    sf: Seq<i32>,
) -> (Seq<i32>, nat)
    decreases sblimit - sb,
{
    if sb >= sblimit {
        (sf, pos)
    } else {
        let (f1, p1) = scale_factors_channels(bytes, pos, sb, 0, if mono {
            1
        } else {
            2
        }, alloc, info, sf);
        let f2 = if mono {
            f1.update((32 + sb) * 3, f1[sb * 3]).update((32 + sb) * 3 + 1, f1[sb * 3 + 1]).update(
                (32 + sb) * 3 + 2,
                f1[sb * 3 + 2],
            )
        } else {
            f1
        };
        scale_factors_all(bytes, p1, sb + 1, sblimit, mono, alloc, info, f2)
    }
}

/// The three samples of subband `sb` of channel `ch` in part `part` of a
/// frame: read by its quantiser and scaled, or zero when it has none; and
/// the position after them.
pub open spec fn subband_samples(
    bytes: Seq<u8>,
    pos: nat,
    ch: int,
    sb: int,
    part: int,
    alloc: Seq<u8>,
    sf: Seq<i32>,
    sample: Seq<i32>,
) -> (Seq<i32>, nat) {
    let base = (ch * 32 + sb) * 3;
    let q = alloc[ch * 32 + sb] as int;
    if q == 0 {
        (sample.update(base, 0).update(base + 1, 0).update(base + 2, 0), pos)
    } else {
        let (a, b, c, p) = samples_read(bytes, pos, q - 1, scalefactor_value(sf[base + part] as int));
        (sample.update(base, a as i32).update(base + 1, b as i32).update(base + 2, c as i32), p)
    }
}

/// The samples of subbands `sb` up to `bound`, both channels read.
pub open spec fn samples_both(
    bytes: Seq<u8>,
    pos: nat,
    sb: int,
    bound: int,
    part: int,
    alloc: Seq<u8>,
    sf: Seq<i32>,
    sample: Seq<i32>,
) -> (Seq<i32>, nat)
    decreases bound - sb,
{
    if sb >= bound {
        (sample, pos)
    } else {
        let (s1, p1) = subband_samples(bytes, pos, 0, sb, part, alloc, sf, sample);
        let (s2, p2) = subband_samples(bytes, p1, 1, sb, part, alloc, sf, s1);
        samples_both(bytes, p2, sb + 1, bound, part, alloc, sf, s2)
    }
}

/// The samples of subbands `sb` up to `sblimit`, the left channel's read
/// and copied to the right.
pub open spec fn samples_shared(
    bytes: Seq<u8>,
    pos: nat,
    sb: int,
    sblimit: int,
    part: int,
    alloc: Seq<u8>,
    sf: Seq<i32>,
    sample: Seq<i32>,
) -> (Seq<i32>, nat)
    decreases sblimit - sb,
{
    if sb >= sblimit {
        (sample, pos)
    } else {
        let (s1, p1) = subband_samples(bytes, pos, 0, sb, part, alloc, sf, sample);
        let s2 = s1.update((32 + sb) * 3, s1[sb * 3]).update((32 + sb) * 3 + 1, s1[sb * 3 + 1]).update(
            (32 + sb) * 3 + 2,
            s1[sb * 3 + 2],
        );
        samples_shared(bytes, p1, sb + 1, sblimit, part, alloc, sf, s2)
    }
}

/// The samples with subbands `sb` up to 32 zeroed in both channels.
pub open spec fn samples_cleared(sb: int, sample: Seq<i32>) -> Seq<i32>
    decreases 32 - sb,
{
    if sb >= 32 {
        sample
    } else {
        samples_cleared(
            sb + 1,
            sample.update(sb * 3, 0).update(sb * 3 + 1, 0).update(sb * 3 + 2, 0).update((32 + sb) * 3, 0).update(
                (32 + sb) * 3 + 1,
                0,
            ).update((32 + sb) * 3 + 2, 0),
        )
    }
}

/// The samples of one granule step: both channels below `bound`, the
/// shared ones up to `sblimit`, silence above.
pub open spec fn granule_samples(
    bytes: Seq<u8>,
    pos: nat,
    bound: int,
    sblimit: int,
    part: int,
    alloc: Seq<u8>,
    sf: Seq<i32>,
    sample: Seq<i32>,
) -> (Seq<i32>, nat) {
    let (s1, p1) = samples_both(bytes, pos, 0, bound, part, alloc, sf, sample);
    let (s2, p2) = samples_shared(bytes, p1, bound, sblimit, part, alloc, sf, s1);
    (samples_cleared(sblimit, s2), p2)
}

/// The subband values of granule steps `step` up to 12 (four to each of
/// the frame's three parts), each step's 192 in turn.
pub open spec fn granules_from(
    bytes: Seq<u8>,
    pos: nat,
    step: int,
    bound: int,
    sblimit: int,
    alloc: Seq<u8>,
    sf: Seq<i32>,
    sample: Seq<i32>,
) -> Seq<i32>
    decreases 12 - step,
{
    if step >= 12 {
        Seq::empty()
    } else {
        let (s, p) = granule_samples(bytes, pos, bound, sblimit, step / 4, alloc, sf, sample);
        s + granules_from(bytes, p, step + 1, bound, sblimit, alloc, sf, s)
    }
}

/// The subband limit and allocation table of a frame's bit rate, sample
/// rate and mode.
pub open spec fn frame_tables(mode: int, bitrate_index: int, samplerate_index: int) -> (int, int) {
    let tab1 = if mode == MODE_MONO as int {
        0int
    } else {
        1
    };
    let tab2 = QUANT_LUT_STEP_1@[tab1 * 16 + bitrate_index] as int;
    let t = QUANT_LUT_STEP_2@[tab2 * 3 + samplerate_index] as int;
    (t % 64, t / 64)
}

/// The 2304 subband values a frame's data at bit `pos` decodes to: the
/// allocations, the scale factor selectors and scale factors, then twelve
/// granule steps of samples, over the decoder's tables from before.
pub open spec fn frame_subbands(
    bytes: Seq<u8>,
    pos: nat,
    mode: int,
    bitrate_index: int,
    samplerate_index: int,
    bound0: int,
    alloc: Seq<u8>,
    info: Seq<u8>,
    sf: Seq<i32>,
    sample: Seq<i32>,
) -> Seq<i32> {
    let (sblimit, tab3) = frame_tables(mode, bitrate_index, samplerate_index);
    let bound = if bound0 > sblimit {
        sblimit
    } else {
        bound0
    };
    let mono = mode == MODE_MONO as int;
    let (a1, p1) = allocations_both(bytes, pos, 0, bound, tab3, alloc);
    let (a2, p2) = allocations_shared(bytes, p1, bound, sblimit, tab3, a1);
    let (i1, p3) = selectors_read(bytes, p2, 0, sblimit, mono, a2, info);
    let (f1, p4) = scale_factors_all(bytes, p3, 0, sblimit, mono, a2, i1, sf);
    granules_from(bytes, p4, 0, bound, sblimit, a2, f1, sample)
}

impl Audio {
    /// Reads the allocation of subband `sb` under allocation table `tab3`:
    /// its quantiser counted from 1, or 0 for none.
    fn read_allocation(&mut self, sb: usize, tab3: usize) -> (r: u8)
        requires
            old(self).wf(),
            sb < 32,
            tab3 <= 1,
        ensures
            final(self).wf(),
            final(self).stream() == old(self).stream(),
            r <= 17,
            *final(self) == (Audio { buffer: final(self).buffer, ..*old(self) }),
            (r as int, final(self).buffer@.1) == allocation_read(
                old(self).buffer@.0,
                old(self).buffer@.1,
                sb as int,
                tab3 as int,
            ),
    {
        proof {
            lemma_audio_tables();
            lemma2_to64();
        }
        let tab4 = QUANT_LUT_STEP_3[tab3 * 32 + sb];
        let nbal = (tab4 / 16) as usize;
        let row = (tab4 % 16) as usize;
        let ghost p = self.buffer@.1;
        let v = self.buffer.read(nbal);
        proof {
            lemma_bits_bound(self.buffer@.0, p as int, nbal as nat);
            vstd::arithmetic::power2::lemma_pow2_strictly_increases(nbal as nat, 5);
        }
        QUANT_LUT_STEP_4[row * 16 + v as usize]
    }

    /// Reads the three samples of channel `ch`, subband `sb` for part
    /// `part` of the frame and dequantises them with the subband's scale
    /// factor; a subband without allocation gives zeros.
    fn read_samples(&mut self, ch: usize, sb: usize, part: usize)
        requires
            old(self).wf(),
            ch < 2,
            sb < 32,
            part < 3,
        ensures
            final(self).wf(),
            final(self).stream() == old(self).stream(),
            final(self).allocation == old(self).allocation,
            final(self).scale_factor == old(self).scale_factor,
            final(self).bound == old(self).bound,
            final(self).mode == old(self).mode,
            final(self).has_header == old(self).has_header,
            final(self).samplerate_index == old(self).samplerate_index,
            final(self).bitrate_index == old(self).bitrate_index,
            final(self).next_frame_data_size == old(self).next_frame_data_size,
            final(self).samples_decoded == old(self).samples_decoded,
            ({
                let base = (ch * 32 + sb) * 3;
                let q = old(self).allocation@[ch * 32 + sb] as int;
                if q == 0 {
                    &&& final(self).sample@ == old(self).sample@.update(base, 0).update(
                        base + 1,
                        0,
                    ).update(base + 2, 0)
                    &&& final(self).buffer@.1 == old(self).buffer@.1
                } else {
                    let (a, b, c, p) = samples_read(
                        old(self).buffer@.0,
                        old(self).buffer@.1,
                        q - 1,
                        scalefactor_value(old(self).scale_factor@[base + part] as int),
                    );
                    &&& final(self).sample@ == old(self).sample@.update(base, a as i32).update(
                        base + 1,
                        b as i32,
                    ).update(base + 2, c as i32)
                    &&& final(self).buffer@.1 == p
                }
            }),
    {
        proof {
            lemma_audio_tables();
            lemma2_to64();
        }
        let base = (ch * 32 + sb) * 3;
        let q = self.allocation[ch * 32 + sb];
        if q == 0 {
            self.sample.set(base, 0);
            self.sample.set(base + 1, 0);
            self.sample.set(base + 2, 0);
            return;
        }
        let sf = scalefactor(self.scale_factor[base + part]);
        let k = (q - 1) as usize;
        proof {
            reveal(QUANT_LEVELS);
            reveal(QUANT_GROUP);
            reveal(QUANT_BITS);
        }
        let levels = QUANT_LEVELS[k] as i32;
        let bits = QUANT_BITS[k] as usize;
        let (s0, s1, s2) = if QUANT_GROUP[k] != 0 {
            let ghost p = self.buffer@.1;
            let raw = self.buffer.read(bits);
            proof {
                lemma_bits_bound(self.buffer@.0, p as int, bits as nat);
                vstd::arithmetic::power2::lemma_pow2_strictly_increases(bits as nat, 31);
            }
            let val = raw as i32;
            let a = val % levels;
            let rest = val / levels;
            let b = rest % levels;
            let c = rest / levels;
            proof {
                vstd::arithmetic::div_mod::lemma_div_is_ordered(
                    val as int,
                    pow2(bits as nat) - 1,
                    levels as int,
                );
                vstd::arithmetic::div_mod::lemma_div_is_ordered(
                    rest as int,
                    (pow2(bits as nat) - 1) / (levels as int),
                    levels as int,
                );
                assert(c <= max_sample(k as int));
                assert(a <= max_sample(k as int));
                assert(b <= max_sample(k as int));
            }
            (a, b, c)
        } else {
            let ghost p0 = self.buffer@.1;
            let r0 = self.buffer.read(bits);
            let ghost p1 = self.buffer@.1;
            let r1 = self.buffer.read(bits);
            let ghost p2 = self.buffer@.1;
            let r2 = self.buffer.read(bits);
            proof {
                lemma_bits_bound(self.buffer@.0, p0 as int, bits as nat);
                lemma_bits_bound(self.buffer@.0, p1 as int, bits as nat);
                lemma_bits_bound(self.buffer@.0, p2 as int, bits as nat);
                vstd::arithmetic::power2::lemma_pow2_strictly_increases(bits as nat, 31);
            }
            (r0 as i32, r1 as i32, r2 as i32)
        };
        proof {
            lemma_sample_scale(k as int, s0 as int);
            lemma_sample_scale(k as int, s1 as int);
            lemma_sample_scale(k as int, s2 as int);
        }
        let d0 = dequantize_sample(levels, s0, sf);
        let d1 = dequantize_sample(levels, s1, sf);
        let d2 = dequantize_sample(levels, s2, sf);
        self.sample.set(base, d0);
        self.sample.set(base + 1, d1);
        self.sample.set(base + 2, d2);
    }

    /// Copies channel 0's samples of subband `sb` to channel 1.
    fn copy_samples_to_right(&mut self, sb: usize)
        requires
            old(self).wf(),
            sb < 32,
        ensures
            final(self).wf(),
            final(self).sample@ == old(self).sample@.update((32 + sb) * 3, old(self).sample@[sb * 3]).update(
                (32 + sb) * 3 + 1,
                old(self).sample@[sb * 3 + 1],
            ).update((32 + sb) * 3 + 2, old(self).sample@[sb * 3 + 2]),
            *final(self) == (Audio { sample: final(self).sample, ..*old(self) }),
    {
        let a = self.sample[sb * 3];
        let b = self.sample[sb * 3 + 1];
        let c = self.sample[sb * 3 + 2];
        self.sample.set((32 + sb) * 3, a);
        self.sample.set((32 + sb) * 3 + 1, b);
        self.sample.set((32 + sb) * 3 + 2, c);
    }

    /// Zeroes both channels' samples of subband `sb`.
    fn clear_samples(&mut self, sb: usize)
        requires
            old(self).wf(),
            sb < 32,
        ensures
            final(self).wf(),
            final(self).sample@ == old(self).sample@.update(sb * 3, 0).update(sb * 3 + 1, 0).update(
                sb * 3 + 2,
                0,
            ).update((32 + sb) * 3, 0).update((32 + sb) * 3 + 1, 0).update((32 + sb) * 3 + 2, 0),
            *final(self) == (Audio { sample: final(self).sample, ..*old(self) }),
    {
        self.sample.set(sb * 3, 0);
        self.sample.set(sb * 3 + 1, 0);
        self.sample.set(sb * 3 + 2, 0);
        self.sample.set((32 + sb) * 3, 0);
        self.sample.set((32 + sb) * 3 + 1, 0);
        self.sample.set((32 + sb) * 3 + 2, 0);
    }

    /// Reads the scale factors of subband `sb` of channel `ch` by its
    /// selector: three values, two with the first or last shared, or one
    /// for all three parts.
    fn read_scale_factors(&mut self, ch: usize, sb: usize)
        requires
            old(self).wf(),
            ch < 2,
            sb < 32,
        ensures
            final(self).wf(),
            final(self).stream() == old(self).stream(),
            *final(self) == (Audio {
                buffer: final(self).buffer,
                scale_factor: final(self).scale_factor,
                ..*old(self)
            }),
            ({
                let base = (ch * 32 + sb) * 3;
                let (a, b, c, p) = scale_factors_read(
                    old(self).buffer@.0,
                    old(self).buffer@.1,
                    old(self).scale_factor_info@[ch * 32 + sb] as int,
                );
                &&& final(self).scale_factor@ == old(self).scale_factor@.update(base, a as i32).update(
                    base + 1,
                    b as i32,
                ).update(base + 2, c as i32)
                &&& final(self).buffer@.1 == p
            }),
    {
        proof {
            lemma2_to64();
        }
        let base = (ch * 32 + sb) * 3;
        let info = self.scale_factor_info[ch * 32 + sb];
        let ghost p0 = self.buffer@.1;
        let a = self.buffer.read(6) as i32;
        proof {
            lemma_bits_bound(self.buffer@.0, p0 as int, 6);
        }
        let (v0, v1, v2) = if info == 0 {
            let ghost p1 = self.buffer@.1;
            let b = self.buffer.read(6) as i32;
            let ghost p2 = self.buffer@.1;
            let c = self.buffer.read(6) as i32;
            proof {
                lemma_bits_bound(self.buffer@.0, p1 as int, 6);
                lemma_bits_bound(self.buffer@.0, p2 as int, 6);
            }
            (a, b, c)
        } else if info == 1 {
            let ghost p1 = self.buffer@.1;
            let c = self.buffer.read(6) as i32;
            proof {
                lemma_bits_bound(self.buffer@.0, p1 as int, 6);
            }
            (a, a, c)
        } else if info == 2 {
            (a, a, a)
        } else {
            let ghost p1 = self.buffer@.1;
            let b = self.buffer.read(6) as i32;
            proof {
                lemma_bits_bound(self.buffer@.0, p1 as int, 6);
            }
            (a, b, b)
        };
        self.scale_factor.set(base, v0);
        self.scale_factor.set(base + 1, v1);
        self.scale_factor.set(base + 2, v2);
    }

    /// Decodes the frame whose header has just been read: bit allocations,
    /// scale factor selectors and scale factors, then the samples of the 12
    /// steps; subbands from the joint-stereo bound up share one allocation
    /// and channel 0's samples, and those past the table's limit are zero.
    fn decode_frame(&mut self) -> (out: Vec<i32>)
        requires
            old(self).wf(),
            old(self).has_header,
        ensures
            final(self).wf(),
            final(self).stream() == old(self).stream(),
            final(self).has_header,
            final(self).next_frame_data_size == old(self).next_frame_data_size,
            final(self).samples_decoded == old(self).samples_decoded,
            out@.len() == SUBBAND_VALUES_PER_FRAME,
            out@ == old(self).frame_values(),
    {
        proof {
            lemma_audio_tables();
            lemma2_to64();
        }
        let ghost s0 = *self;
        let ghost bytes = self.buffer@.0;
        let tab1: usize = if self.mode == MODE_MONO {
            0
        } else {
            1
        };
        let tab2 = QUANT_LUT_STEP_1[tab1 * 16 + self.bitrate_index] as usize;
        let t = QUANT_LUT_STEP_2[tab2 * 3 + self.samplerate_index] as usize;
        let sblimit = t % 64;
        let tab3 = t / 64;
        proof {
            assert((sblimit as int, tab3 as int) == frame_tables(
                s0.mode as int,
                s0.bitrate_index as int,
                s0.samplerate_index as int,
            ));
        }
        if self.bound > sblimit {
            self.bound = sblimit;
        }
        let bound = self.bound;
        let ghost start = *self;
        let ghost mono_s = s0.mode as int == MODE_MONO as int;
        let ghost t1 = allocations_both(bytes, s0.buffer@.1, 0, bound as int, tab3 as int, s0.allocation@);
        let ghost t2 = allocations_shared(bytes, t1.1, bound as int, sblimit as int, tab3 as int, t1.0);
        let ghost t3 = selectors_read(bytes, t2.1, 0, sblimit as int, mono_s, t2.0, s0.scale_factor_info@);
        let ghost t4 = scale_factors_all(bytes, t3.1, 0, sblimit as int, mono_s, t2.0, t3.0, s0.scale_factor@);
        let ghost t5 = granules_from(bytes, t4.1, 0, bound as int, sblimit as int, t2.0, t4.0, s0.sample@);
        proof {
            assert(t5 == s0.frame_values());
        }
        let mut sb: usize = 0;
        while sb < bound
            invariant
                self.wf(),
                self.buffer@.0 == bytes,
                bytes == start.buffer@.0,
                self.has_header,
                self.bound == bound,
                self.mode == start.mode,
                self.next_frame_data_size == start.next_frame_data_size,
                self.samples_decoded == start.samples_decoded,
                self.scale_factor_info == start.scale_factor_info,
                self.scale_factor == start.scale_factor,
                self.sample == start.sample,
                bound <= sblimit <= 30,
                tab3 <= 1,
                sb <= bound,
                allocations_both(bytes, self.buffer@.1, sb as int, bound as int, tab3 as int, self.allocation@)
                    == t1,
            decreases bound - sb,
        {
            let a0 = self.read_allocation(sb, tab3);
            self.allocation.set(sb, a0);
            let a1 = self.read_allocation(sb, tab3);
            self.allocation.set(32 + sb, a1);
            sb = sb + 1;
        }
        while sb < sblimit
            invariant
                self.wf(),
                self.buffer@.0 == bytes,
                bytes == start.buffer@.0,
                self.has_header,
                self.bound == bound,
                self.mode == start.mode,
                self.next_frame_data_size == start.next_frame_data_size,
                self.samples_decoded == start.samples_decoded,
                self.scale_factor_info == start.scale_factor_info,
                self.scale_factor == start.scale_factor,
                self.sample == start.sample,
                bound <= sblimit <= 30,
                tab3 <= 1,
                bound <= sb <= sblimit,
                allocations_shared(bytes, self.buffer@.1, sb as int, sblimit as int, tab3 as int, self.allocation@)
                    == t2,
            decreases sblimit - sb,
        {
            let a = self.read_allocation(sb, tab3);
            self.allocation.set(sb, a);
            self.allocation.set(32 + sb, a);
            sb = sb + 1;
        }
        let mono = self.mode == MODE_MONO;
        let channels: usize = if mono {
            1
        } else {
            2
        };
        sb = 0;
        while sb < sblimit
            invariant
                self.wf(),
                self.buffer@.0 == bytes,
                bytes == start.buffer@.0,
                self.has_header,
                self.bound == bound,
                self.mode == start.mode,
                mono == (self.mode == MODE_MONO),
                mono == mono_s,
                channels == (if mono { 1int } else { 2 }),
                self.next_frame_data_size == start.next_frame_data_size,
                self.samples_decoded == start.samples_decoded,
                self.allocation@ == t2.0,
                self.scale_factor == start.scale_factor,
                self.sample == start.sample,
                bound <= sblimit <= 30,
                channels <= 2,
                sb <= sblimit,
                selectors_read(bytes, self.buffer@.1, sb as int, sblimit as int, mono, t2.0, self.scale_factor_info@)
                    == t3,
            decreases sblimit - sb,
        {
            let mut ch: usize = 0;
            while ch < channels
                invariant
                    self.wf(),
                    self.buffer@.0 == bytes,
                    bytes == start.buffer@.0,
                    self.has_header,
                    self.bound == bound,
                    self.mode == start.mode,
                    mono == (self.mode == MODE_MONO),
                    channels == (if mono { 1int } else { 2 }),
                    self.next_frame_data_size == start.next_frame_data_size,
                    self.samples_decoded == start.samples_decoded,
                    self.allocation@ == t2.0,
                    self.scale_factor == start.scale_factor,
                    self.sample == start.sample,
                    bound <= sblimit <= 30,
                    channels <= 2,
                    sb < sblimit,
                    ch <= channels,
                    ({
                        let (i1, p1) = selectors_channels(
                            bytes,
                            self.buffer@.1,
                            sb as int,
                            ch as int,
                            channels as int,
                            t2.0,
                            self.scale_factor_info@,
                        );
                        selectors_read(bytes, p1, sb + 1, sblimit as int, mono, t2.0, if mono {
                            i1.update(32 + sb, i1[sb as int])
                        } else {
                            i1
                        }) == t3
                    }),
                decreases channels - ch,
            {
                if self.allocation[ch * 32 + sb] != 0 {
                    let ghost q = self.buffer@.1;
                    let v = self.buffer.read(2);
                    proof {
                        lemma_bits_bound(bytes, q as int, 2);
                    }
                    self.scale_factor_info.set(ch * 32 + sb, v as u8);
                }
                ch = ch + 1;
            }
            if mono {
                let v = self.scale_factor_info[sb];
                self.scale_factor_info.set(32 + sb, v);
            }
            sb = sb + 1;
        }
        sb = 0;
        while sb < sblimit
            invariant
                self.wf(),
                self.buffer@.0 == bytes,
                bytes == start.buffer@.0,
                self.has_header,
                self.bound == bound,
                self.mode == start.mode,
                mono == (self.mode == MODE_MONO),
                mono == mono_s,
                channels == (if mono { 1int } else { 2 }),
                self.next_frame_data_size == start.next_frame_data_size,
                self.samples_decoded == start.samples_decoded,
                self.allocation@ == t2.0,
                self.scale_factor_info@ == t3.0,
                self.sample == start.sample,
                bound <= sblimit <= 30,
                channels <= 2,
                sb <= sblimit,
                scale_factors_all(
                    bytes,
                    self.buffer@.1,
                    sb as int,
                    sblimit as int,
                    mono,
                    t2.0,
                    t3.0,
                    self.scale_factor@,
                ) == t4,
            decreases sblimit - sb,
        {
            let mut ch: usize = 0;
            while ch < channels
                invariant
                    self.wf(),
                    self.buffer@.0 == bytes,
                    bytes == start.buffer@.0,
                    self.has_header,
                    self.bound == bound,
                    self.mode == start.mode,
                    mono == (self.mode == MODE_MONO),
                    channels == (if mono { 1int } else { 2 }),
                    self.next_frame_data_size == start.next_frame_data_size,
                    self.samples_decoded == start.samples_decoded,
                    self.allocation@ == t2.0,
                    self.scale_factor_info@ == t3.0,
                    self.sample == start.sample,
                    bound <= sblimit <= 30,
                    channels <= 2,
                    sb < sblimit,
                    ch <= channels,
                    ({
                        let (f1, p1) = scale_factors_channels(
                            bytes,
                            self.buffer@.1,
                            sb as int,
                            ch as int,
                            channels as int,
                            t2.0,
                            t3.0,
                            self.scale_factor@,
                        );
                        scale_factors_all(bytes, p1, sb + 1, sblimit as int, mono, t2.0, t3.0, if mono {
                            f1.update((32 + sb) * 3, f1[sb * 3]).update(
                                (32 + sb) * 3 + 1,
                                f1[sb * 3 + 1],
                            ).update((32 + sb) * 3 + 2, f1[sb * 3 + 2])
                        } else {
                            f1
                        }) == t4
                    }),
                decreases channels - ch,
            {
                if self.allocation[ch * 32 + sb] != 0 {
                    self.read_scale_factors(ch, sb);
                }
                ch = ch + 1;
            }
            if mono {
                let a = self.scale_factor[sb * 3];
                let b = self.scale_factor[sb * 3 + 1];
                let c = self.scale_factor[sb * 3 + 2];
                self.scale_factor.set((32 + sb) * 3, a);
                self.scale_factor.set((32 + sb) * 3 + 1, b);
                self.scale_factor.set((32 + sb) * 3 + 2, c);
            }
            sb = sb + 1;
        }
        let mut out: Vec<i32> = Vec::new();
        let mut step: usize = 0;
        assert(out@ + t5 =~= t5);
        while step < 12
            invariant
                self.wf(),
                self.buffer@.0 == bytes,
                bytes == start.buffer@.0,
                self.has_header,
                self.bound == bound,
                self.next_frame_data_size == start.next_frame_data_size,
                self.samples_decoded == start.samples_decoded,
                self.allocation@ == t2.0,
                self.scale_factor@ == t4.0,
                bound <= sblimit <= 30,
                step <= 12,
                out@.len() == step * 192,
                out@ + granules_from(
                    bytes,
                    self.buffer@.1,
                    step as int,
                    bound as int,
                    sblimit as int,
                    t2.0,
                    t4.0,
                    self.sample@,
                ) == t5,
            decreases 12 - step,
        {
            let part = step / 4;
            let ghost g = granule_samples(
                bytes,
                self.buffer@.1,
                bound as int,
                sblimit as int,
                part as int,
                t2.0,
                t4.0,
                self.sample@,
            );
            let ghost out0 = out@;
            let mut sb: usize = 0;
            while sb < bound
                invariant
                    self.wf(),
                    self.buffer@.0 == bytes,
                    bytes == start.buffer@.0,
                    self.has_header,
                    self.bound == bound,
                    self.next_frame_data_size == start.next_frame_data_size,
                    self.samples_decoded == start.samples_decoded,
                    self.allocation@ == t2.0,
                    self.scale_factor@ == t4.0,
                    bound <= sblimit <= 30,
                    part < 3,
                    sb <= bound,
                    ({
                        let (s1, p1) = samples_both(
                            bytes,
                            self.buffer@.1,
                            sb as int,
                            bound as int,
                            part as int,
                            t2.0,
                            t4.0,
                            self.sample@,
                        );
                        let (s2, p2) = samples_shared(
                            bytes,
                            p1,
                            bound as int,
                            sblimit as int,
                            part as int,
                            t2.0,
                            t4.0,
                            s1,
                        );
                        (samples_cleared(sblimit as int, s2), p2) == g
                    }),
                decreases bound - sb,
            {
                self.read_samples(0, sb, part);
                self.read_samples(1, sb, part);
                sb = sb + 1;
            }
            while sb < sblimit
                invariant
                    self.wf(),
                    self.buffer@.0 == bytes,
                    bytes == start.buffer@.0,
                    self.has_header,
                    self.bound == bound,
                    self.next_frame_data_size == start.next_frame_data_size,
                    self.samples_decoded == start.samples_decoded,
                    self.allocation@ == t2.0,
                    self.scale_factor@ == t4.0,
                    bound <= sblimit <= 30,
                    part < 3,
                    bound <= sb <= sblimit,
                    ({
                        let (s2, p2) = samples_shared(
                            bytes,
                            self.buffer@.1,
                            sb as int,
                            sblimit as int,
                            part as int,
                            t2.0,
                            t4.0,
                            self.sample@,
                        );
                        (samples_cleared(sblimit as int, s2), p2) == g
                    }),
                decreases sblimit - sb,
            {
                self.read_samples(0, sb, part);
                self.copy_samples_to_right(sb);
                sb = sb + 1;
            }
            while sb < 32
                invariant
                    self.wf(),
                    self.buffer@.0 == bytes,
                    bytes == start.buffer@.0,
                    self.has_header,
                    self.bound == bound,
                    self.next_frame_data_size == start.next_frame_data_size,
                    self.samples_decoded == start.samples_decoded,
                    self.allocation@ == t2.0,
                    self.scale_factor@ == t4.0,
                    sblimit <= sb <= 32,
                    (samples_cleared(sb as int, self.sample@), self.buffer@.1) == g,
                decreases 32 - sb,
            {
                self.clear_samples(sb);
                sb = sb + 1;
            }
            let mut i: usize = 0;
            while i < 192
                invariant
                    self.wf(),
                    i <= 192,
                    out@ == out0 + self.sample@.subrange(0, i as int),
                    out0.len() == step * 192,
                    step < 12,
                decreases 192 - i,
            {
                out.push(self.sample[i]);
                i = i + 1;
                assert(out@ =~= out0 + self.sample@.subrange(0, i as int));
            }
            proof {
                assert(self.sample@.subrange(0, 192) =~= self.sample@);
                assert(out0 + (g.0 + granules_from(
                    bytes,
                    g.1,
                    step + 1,
                    bound as int,
                    sblimit as int,
                    t2.0,
                    t4.0,
                    g.0,
                )) =~= out@ + granules_from(
                    bytes,
                    g.1,
                    step + 1,
                    bound as int,
                    sblimit as int,
                    t2.0,
                    t4.0,
                    g.0,
                ));
            }
            step = step + 1;
        }
        assert(out@ + Seq::<i32>::empty() =~= out@);
        self.buffer.align();
        out
    }
}

} // verus!
