//! Resampling kernels of the picture scalers: bilinear with 8-bit weights
//! and separable bicubic (Catmull-Rom) with 10-bit fixed-point weights.
//!
//! Each output row and column is described by an axis map entry: which
//! source pixels it reads and with which weights. The maps come from the
//! geometry of the resize; the kernels here apply them to ARGB8888 pixels.

use vstd::prelude::*;

use crate::image_decoder::{lemma_index_bound, lemma_index_div_mod};

verus! {

/// The scaling filter a front-end selects.
#[derive(Debug, Clone, Copy, PartialEq, Eq)]
pub enum ScaleFilter {
    /// Bilinear: a 2x2 neighbourhood with fixed-point weights.
    Bilinear,
    /// Bicubic Catmull-Rom: separable, four taps per axis.
    Bicubic,
    /// xBRZ at an integer factor, then bilinear for the rest.
    Xbrz,
}

/// Bilinear axis entry: the first of two source pixels and the weight of
/// the second, in 256ths.
#[derive(Debug, Clone, Copy)]
pub struct BiAxisMap {
    pub src: u32,
    pub frac: u16,
}

/// Fixed-point fractional bits of the bicubic weights.
pub const FRAC_BITS: i32 = 10;
/// The bicubic weight that stands for 1.
pub const FRAC_UNIT: i32 = 1024;

/// Bicubic axis entry: four source indices and their fixed-point weights.
#[derive(Debug, Clone, Copy)]
pub struct BcAxisMap {
    pub idx: [usize; 4],
    pub w: [i32; 4],
}

/// `v` clamped to 0..=255.
pub open spec fn clamp_u8(v: int) -> int {
    if v < 0 {
        0
    } else if v > 255 {
        255
    } else {
        v
    }
}

/// Clamps a channel value to 0..=255.
pub fn clamp_i32_u8(v: i32) -> (r: u32)
    ensures
        r == clamp_u8(v as int),
{
    if v < 0 {
        0
    } else if v > 255 {
        255
    } else {
        v as u32
    }
}

/// The 8-bit channel of `p` at bit `sh`.
pub open spec fn chan(p: u32, sh: u32) -> int {
    ((p >> sh) & 0xFFu32) as int
}

/// Four 8-bit channels packed as ARGB.
pub open spec fn pack_argb(a: int, r: int, g: int, b: int) -> u32 {
    (a * 0x100_0000 + r * 0x1_0000 + g * 0x100 + b) as u32
}

/// A channel of the bilinear blend of four pixels, with weights `fx` and
/// `fy` (in 256ths) of the right and lower pixels, rounded down.
pub open spec fn bilerp(p00: u32, p10: u32, p01: u32, p11: u32, fx: int, fy: int, sh: u32) -> int {
    (chan(p00, sh) * ((256 - fx) * (256 - fy)) + chan(p10, sh) * (fx * (256 - fy)) + chan(p01, sh) * (
    (256 - fx) * fy) + chan(p11, sh) * (fx * fy)) / 0x1_0000
}

/// The bilinear blend of four pixels.
pub open spec fn bilinear_pixel(p00: u32, p10: u32, p01: u32, p11: u32, fx: int, fy: int) -> u32 {
    pack_argb(
        bilerp(p00, p10, p01, p11, fx, fy, 24),
        bilerp(p00, p10, p01, p11, fx, fy, 16),
        bilerp(p00, p10, p01, p11, fx, fy, 8),
        bilerp(p00, p10, p01, p11, fx, fy, 0),
    )
}

/// The output pixel that a column entry `xm` and a row entry `ym` give over
/// a `sw` by `sh` source: the pixel the entries name, its right and lower
/// neighbours (the last column and row standing in for themselves).
pub open spec fn bilinear_at(src: Seq<u32>, sw: int, sh: int, xm: BiAxisMap, ym: BiAxisMap) -> u32 {
    let sx0 = xm.src as int;
    let sx1 = if sx0 + 1 < sw - 1 {
        sx0 + 1
    } else {
        sw - 1
    };
    let sy0 = ym.src as int;
    let sy1 = if sy0 + 1 < sh - 1 {
        sy0 + 1
    } else {
        sh - 1
    };
    bilinear_pixel(
        src[sy0 * sw + sx0],
        src[sy0 * sw + sx1],
        src[sy1 * sw + sx0],
        src[sy1 * sw + sx1],
        xm.frac as int,
        ym.frac as int,
    )
}

/// `dst` after a bilinear pass: the first `x_map.len()` by `y_map.len()`
/// pixels, row by row, are the blends the maps name; the rest stay.
pub open spec fn bilinear_image(
    src: Seq<u32>,
    sw: int,
    sh: int,
    x_map: Seq<BiAxisMap>,
    y_map: Seq<BiAxisMap>,
    dst: Seq<u32>,
) -> Seq<u32> {
    let dw = x_map.len() as int;
    Seq::new(
        dst.len(),
        |p: int|
            if 0 <= p < dw * y_map.len() {
                bilinear_at(src, sw, sh, x_map[p % dw], y_map[p / dw])
            } else {
                dst[p]
            },
    )
}

/// Axis entries that stay inside a source of `size` pixels, with weights
/// of at most one.
pub open spec fn bi_map_ok(map: Seq<BiAxisMap>, size: int) -> bool {
    forall|i: int| 0 <= i < map.len() ==> (#[trigger] map[i]).src < size && map[i].frac <= 256
}

/// A channel of the bilinear blend, with weights summing to 2^16.
fn bilinear_chan(p00: u32, p10: u32, p01: u32, p11: u32, w00: u32, w10: u32, w01: u32, w11: u32, sh: u32) -> (r: u32)
    requires
        w00 + w10 + w01 + w11 == 0x1_0000,
        sh < 32,
    ensures
        r as int == (chan(p00, sh) * w00 + chan(p10, sh) * w10 + chan(p01, sh) * w01 + chan(p11, sh) * w11) / 0x1_0000,
        r <= 255,
{
    let c00 = (p00 >> sh) & 0xFF;
    let c10 = (p10 >> sh) & 0xFF;
    let c01 = (p01 >> sh) & 0xFF;
    let c11 = (p11 >> sh) & 0xFF;
    proof {
        assert(c00 <= 255 && c10 <= 255 && c01 <= 255 && c11 <= 255) by (bit_vector)
            requires
                c00 == (p00 >> sh) & 0xFF,
                c10 == (p10 >> sh) & 0xFF,
                c01 == (p01 >> sh) & 0xFF,
                c11 == (p11 >> sh) & 0xFF,
        ;
        assert(c00 * w00 + c10 * w10 + c01 * w01 + c11 * w11 <= 255 * 0x1_0000) by (nonlinear_arith)
            requires
                c00 <= 255,
                c10 <= 255,
                c01 <= 255,
                c11 <= 255,
                w00 + w10 + w01 + w11 == 0x1_0000,
        ;
        assert(c00 * w00 >= 0 && c10 * w10 >= 0 && c01 * w01 >= 0 && c11 * w11 >= 0) by (nonlinear_arith);
    }
    let sum = c00 * w00 + c10 * w10 + c01 * w01 + c11 * w11;
    proof {
        assert(sum >> 16u32 == sum / 0x1_0000) by (bit_vector);
    }
    sum >> 16
}

/// The bilinear blend of four pixels.
fn bilinear_pixel_exec(p00: u32, p10: u32, p01: u32, p11: u32, fx: u32, fy: u32) -> (r: u32)
    requires
        fx <= 256,
        fy <= 256,
    ensures
        r == bilinear_pixel(p00, p10, p01, p11, fx as int, fy as int),
{
    let fx_inv = 256 - fx;
    let fy_inv = 256 - fy;
    proof {
        assert(fx_inv * fy_inv <= 0x1_0000 && fx * fy_inv <= 0x1_0000 && fx_inv * fy <= 0x1_0000 && fx
            * fy <= 0x1_0000) by (nonlinear_arith)
            requires
                fx <= 256,
                fy <= 256,
                fx_inv <= 256,
                fy_inv <= 256,
        ;
        assert(fx_inv * fy_inv + fx * fy_inv + fx_inv * fy + fx * fy == 0x1_0000) by (nonlinear_arith)
            requires
                fx_inv == 256 - fx,
                fy_inv == 256 - fy,
        ;
    }
    let w00 = fx_inv * fy_inv;
    let w10 = fx * fy_inv;
    let w01 = fx_inv * fy;
    let w11 = fx * fy;
    let a = bilinear_chan(p00, p10, p01, p11, w00, w10, w01, w11, 24);
    let r = bilinear_chan(p00, p10, p01, p11, w00, w10, w01, w11, 16);
    let g = bilinear_chan(p00, p10, p01, p11, w00, w10, w01, w11, 8);
    let b = bilinear_chan(p00, p10, p01, p11, w00, w10, w01, w11, 0);
    proof {
        assert((a << 24u32) | (r << 16u32) | (g << 8u32) | b == a * 0x100_0000 + r * 0x1_0000 + g
            * 0x100 + b) by (bit_vector)
            requires
                a <= 255u32,
                r <= 255u32,
                g <= 255u32,
                b <= 255u32,
        ;
    }
    (a << 24) | (r << 16) | (g << 8) | b
}

/// Resamples a `src_w` by `src_h` picture bilinearly into the first
/// `x_map.len()` by `y_map.len()` pixels of `dst`, row by row.
pub fn bilinear_scale(
    src: &[u32],
    src_w: u32,
    src_h: u32,
    x_map: &[BiAxisMap],
    y_map: &[BiAxisMap],
    dst: &mut [u32],
)
    requires
        src@.len() >= src_w * src_h,
        bi_map_ok(x_map@, src_w as int),
        bi_map_ok(y_map@, src_h as int),
        x_map@.len() * y_map@.len() <= old(dst)@.len(),
    ensures
        final(dst)@ == bilinear_image(src@, src_w as int, src_h as int, x_map@, y_map@, old(dst)@),
{
    let ghost old_dst = dst@;
    let src_len = src.len();
    let dst_len = dst.len();
    let sw = src_w as usize;
    let sh = src_h as usize;
    let dw = x_map.len();
    let dh = y_map.len();
    let ghost w = dw as int;
    let mut dy: usize = 0;
    while dy < dh
        invariant
            dh == y_map@.len(),
            dw == x_map@.len(),
            w == dw,
            sw == src_w && sh == src_h,
            src@.len() >= src_w * src_h,
            bi_map_ok(x_map@, src_w as int),
            bi_map_ok(y_map@, src_h as int),
            w * dh <= old_dst.len(),
            old_dst == old(dst)@,
            dst@.len() == old_dst.len(),
            src_len == src@.len(),
            dst_len == old_dst.len(),
            dy <= dh,
            forall|p: int|
                0 <= p < old_dst.len() ==> #[trigger] dst@[p] == if 0 <= p < w * dy {
                    bilinear_at(src@, sw as int, sh as int, x_map@[p % w], y_map@[p / w])
                } else {
                    old_dst[p]
                },
        decreases dh - dy,
    {
        let ym = y_map[dy];
        let sy0 = ym.src as usize;
        let sy1 = if sy0 + 1 < sh - 1 {
            sy0 + 1
        } else {
            sh - 1
        };
        let fy = ym.frac as u32;
        proof {
            assert(sy0 < sh);
            assert(sy0 * sw + sw <= sh * sw && sy1 * sw + sw <= sh * sw) by (nonlinear_arith)
                requires
                    sy0 < sh,
                    sy1 < sh,
            ;
            assert(sh * sw == src_w * src_h) by (nonlinear_arith)
                requires
                    sw == src_w,
                    sh == src_h,
            ;
        }
        let row0 = sy0 * sw;
        let row1 = sy1 * sw;
        let mut dx: usize = 0;
        while dx < dw
            invariant
                dh == y_map@.len(),
                dw == x_map@.len(),
                w == dw,
                sw == src_w && sh == src_h,
                src@.len() >= src_w * src_h,
                bi_map_ok(x_map@, src_w as int),
                bi_map_ok(y_map@, src_h as int),
                w * dh <= old_dst.len(),
                old_dst == old(dst)@,
                dst@.len() == old_dst.len(),
                src_len == src@.len(),
                dst_len == old_dst.len(),
                dy < dh,
                ym == y_map@[dy as int],
                sy0 == ym.src,
                sy1 == (if sy0 + 1 < sh - 1 {
                    sy0 + 1
                } else {
                    sh - 1
                }),
                fy == ym.frac,
                row0 == sy0 * sw,
                row1 == sy1 * sw,
                row0 + sw <= src@.len(),
                row1 + sw <= src@.len(),
                dx <= dw,
                forall|p: int|
                    0 <= p < old_dst.len() ==> #[trigger] dst@[p] == if 0 <= p < w * dy + dx {
                        bilinear_at(src@, sw as int, sh as int, x_map@[p % w], y_map@[p / w])
                    } else {
                        old_dst[p]
                    },
            decreases dw - dx,
        {
            let xm = x_map[dx];
            let sx0 = xm.src as usize;
            let sx1 = if sx0 + 1 < sw - 1 {
                sx0 + 1
            } else {
                sw - 1
            };
            let fx = xm.frac as u32;
            let v = bilinear_pixel_exec(
                src[row0 + sx0],
                src[row0 + sx1],
                src[row1 + sx0],
                src[row1 + sx1],
                fx,
                fy,
            );
            proof {
                lemma_index_bound(dy as int, w, dx as int, dh as int);
                lemma_index_div_mod(dy as int, w, dx as int);
                assert(dh * w == w * dh) by (nonlinear_arith);
            }
            let idx = dy * dw + dx;
            let ghost before = dst@;
            dst[idx] = v;
            assert forall|q: int| 0 <= q < old_dst.len() implies #[trigger] dst@[q] == if 0 <= q < w * dy + dx
                + 1 {
                bilinear_at(src@, sw as int, sh as int, x_map@[q % w], y_map@[q / w])
            } else {
                old_dst[q]
            } by {
                if q != idx {
                    assert(dst@[q] == before[q]);
                }
            }
            dx = dx + 1;
        }
        proof {
            assert(w * (dy + 1) == w * dy + w) by (nonlinear_arith);
        }
        dy = dy + 1;
    }
    assert(dst@ =~= bilinear_image(src@, src_w as int, src_h as int, x_map@, y_map@, old_dst));
}


/// A channel of the four-tap blend of `p0`..`p3` with the fixed-point
/// weights `w`, rounded down and clamped to a byte.
pub open spec fn cubic_chan(p0: u32, p1: u32, p2: u32, p3: u32, w: Seq<i32>, sh: u32) -> int {
    clamp_u8(
        (chan(p0, sh) * w[0] + chan(p1, sh) * w[1] + chan(p2, sh) * w[2] + chan(p3, sh) * w[3]) / 1024,
    )
}

/// The four-tap blend of four pixels.
pub open spec fn cubic_pixel(p0: u32, p1: u32, p2: u32, p3: u32, w: Seq<i32>) -> u32 {
    pack_argb(
        cubic_chan(p0, p1, p2, p3, w, 24),
        cubic_chan(p0, p1, p2, p3, w, 16),
        cubic_chan(p0, p1, p2, p3, w, 8),
        cubic_chan(p0, p1, p2, p3, w, 0),
    )
}

/// Bicubic axis entries that stay inside a source of `size` pixels, with
/// weights small enough for 32-bit sums.
pub open spec fn bc_map_ok(map: Seq<BcAxisMap>, size: int) -> bool {
    forall|i: int, k: int|
        0 <= i < map.len() && 0 <= k < 4 ==> (#[trigger] map[i].idx@[k]) < size && -0x10_0000
            <= map[i].w@[k] <= 0x10_0000
}

/// The horizontal pass: source row `r` resampled at the column entry `xm`.
pub open spec fn bicubic_row(src: Seq<u32>, sw: int, r: int, xm: BcAxisMap) -> u32 {
    cubic_pixel(
        src[r * sw + xm.idx@[0]],
        src[r * sw + xm.idx@[1]],
        src[r * sw + xm.idx@[2]],
        src[r * sw + xm.idx@[3]],
        xm.w@,
    )
}

/// The output pixel of the column entry `xm` and the row entry `ym`: the
/// vertical pass over four rows of the horizontal pass.
pub open spec fn bicubic_at(src: Seq<u32>, sw: int, xm: BcAxisMap, ym: BcAxisMap) -> u32 {
    cubic_pixel(
        bicubic_row(src, sw, ym.idx@[0] as int, xm),
        bicubic_row(src, sw, ym.idx@[1] as int, xm),
        bicubic_row(src, sw, ym.idx@[2] as int, xm),
        bicubic_row(src, sw, ym.idx@[3] as int, xm),
        ym.w@,
    )
}

/// `dst` after a bicubic resample: the first `x_map.len()` by
/// `y_map.len()` pixels, row by row, are what the maps name; the rest stay.
pub open spec fn bicubic_image(
    src: Seq<u32>,
    sw: int,
    x_map: Seq<BcAxisMap>,
    y_map: Seq<BcAxisMap>,
    dst: Seq<u32>,
) -> Seq<u32> {
    let dw = x_map.len() as int;
    Seq::new(
        dst.len(),
        |p: int|
            if 0 <= p < dw * y_map.len() {
                bicubic_at(src, sw, x_map[p % dw], y_map[p / dw])
            } else {
                dst[p]
            },
    )
}

/// A channel of the four-tap blend.
fn cubic_chan_exec(p0: u32, p1: u32, p2: u32, p3: u32, w: &[i32; 4], sh: u32) -> (r: u32)
    requires
        sh < 32,
        forall|k: int| 0 <= k < 4 ==> -0x10_0000 <= #[trigger] w@[k] <= 0x10_0000,
    ensures
        r == cubic_chan(p0, p1, p2, p3, w@, sh),
        r <= 255,
{
    let c0 = (p0 >> sh) & 0xFF;
    let c1 = (p1 >> sh) & 0xFF;
    let c2 = (p2 >> sh) & 0xFF;
    let c3 = (p3 >> sh) & 0xFF;
    proof {
        assert(c0 <= 255 && c1 <= 255 && c2 <= 255 && c3 <= 255) by (bit_vector)
            requires
                c0 == (p0 >> sh) & 0xFF,
                c1 == (p1 >> sh) & 0xFF,
                c2 == (p2 >> sh) & 0xFF,
                c3 == (p3 >> sh) & 0xFF,
        ;
    }
    let w0 = w[0];
    let w1 = w[1];
    let w2 = w[2];
    let w3 = w[3];
    proof {
        assert(-255 * 0x10_0000 <= c0 * w0 <= 255 * 0x10_0000) by (nonlinear_arith)
            requires c0 <= 255, -0x10_0000 <= w0 <= 0x10_0000;
        assert(-255 * 0x10_0000 <= c1 * w1 <= 255 * 0x10_0000) by (nonlinear_arith)
            requires c1 <= 255, -0x10_0000 <= w1 <= 0x10_0000;
        assert(-255 * 0x10_0000 <= c2 * w2 <= 255 * 0x10_0000) by (nonlinear_arith)
            requires c2 <= 255, -0x10_0000 <= w2 <= 0x10_0000;
        assert(-255 * 0x10_0000 <= c3 * w3 <= 255 * 0x10_0000) by (nonlinear_arith)
            requires c3 <= 255, -0x10_0000 <= w3 <= 0x10_0000;
    }
    let sum: i32 = (c0 as i32) * w0 + (c1 as i32) * w1 + (c2 as i32) * w2 + (c3 as i32) * w3;
    let q: i32 = sum >> FRAC_BITS;
    proof {
        assert(q as int * 1024 <= sum as int && (sum as int) < q as int * 1024 + 1024) by (bit_vector)
            requires
                q == sum >> 10i32,
        ;
        vstd::arithmetic::div_mod::lemma_fundamental_div_mod_converse(
            sum as int,
            1024,
            q as int,
            sum - q * 1024,
        );
    }
    clamp_i32_u8(q)
}

/// The four-tap blend of four pixels.
fn cubic_pixel_exec(p0: u32, p1: u32, p2: u32, p3: u32, w: &[i32; 4]) -> (r: u32)
    requires
        forall|k: int| 0 <= k < 4 ==> -0x10_0000 <= #[trigger] w@[k] <= 0x10_0000,
    ensures
        r == cubic_pixel(p0, p1, p2, p3, w@),
{
    let a = cubic_chan_exec(p0, p1, p2, p3, w, 24);
    let r = cubic_chan_exec(p0, p1, p2, p3, w, 16);
    let g = cubic_chan_exec(p0, p1, p2, p3, w, 8);
    let b = cubic_chan_exec(p0, p1, p2, p3, w, 0);
    proof {
        assert((a << 24u32) | (r << 16u32) | (g << 8u32) | b == a * 0x100_0000 + r * 0x1_0000 + g
            * 0x100 + b) by (bit_vector)
            requires
                a <= 255u32,
                r <= 255u32,
                g <= 255u32,
                b <= 255u32,
        ;
    }
    (a << 24) | (r << 16) | (g << 8) | b
}

/// Resamples a `src_w` by `src_h` picture with the separable bicubic
/// kernel into the first `x_map.len()` by `y_map.len()` pixels of `dst`:
/// first each source row at every column entry, then each of those columns
/// at every row entry.
pub fn bicubic_scale(
    src: &[u32],
    src_w: u32,
    src_h: u32,
    x_map: &[BcAxisMap],
    y_map: &[BcAxisMap],
    dst: &mut [u32],
)
    requires
        src@.len() >= src_w * src_h,
        bc_map_ok(x_map@, src_w as int),
        bc_map_ok(y_map@, src_h as int),
        x_map@.len() * src_h <= u32::MAX,
        x_map@.len() * y_map@.len() <= old(dst)@.len(),
    ensures
        final(dst)@ == bicubic_image(src@, src_w as int, x_map@, y_map@, old(dst)@),
{
    let ghost old_dst = dst@;
    let src_len = src.len();
    let dst_len = dst.len();
    let sw = src_w as usize;
    let sh = src_h as usize;
    let dw = x_map.len();
    let dh = y_map.len();
    let ghost w = dw as int;
    // Horizontal pass, row by row into `mid` (`dw` by `sh`).
    let mut mid: Vec<u32> = Vec::new();
    let mut sy: usize = 0;
    while sy < sh
        invariant
            dw == x_map@.len(),
            w == dw,
            sw == src_w && sh == src_h,
            src_len == src@.len(),
            src@.len() >= src_w * src_h,
            bc_map_ok(x_map@, src_w as int),
            w * sh <= u32::MAX,
            sy <= sh,
            mid@.len() == w * sy,
            forall|p: int| 0 <= p < mid@.len() ==> #[trigger] mid@[p] == bicubic_row(src@, sw as int, p / w, x_map@[p % w]),
        decreases sh - sy,
    {
        proof {
            assert(sy * sw + sw <= sh * sw) by (nonlinear_arith)
                requires sy < sh;
            assert(sh * sw == src_w * src_h) by (nonlinear_arith)
                requires sw == src_w, sh == src_h;
        }
        let row = sy * sw;
        let mut dx: usize = 0;
        while dx < dw
            invariant
                dw == x_map@.len(),
                w == dw,
                sw == src_w && sh == src_h,
                src_len == src@.len(),
                bc_map_ok(x_map@, src_w as int),
                w * sh <= u32::MAX,
                sy < sh,
                row == sy * sw,
                row + sw <= src@.len(),
                dx <= dw,
                mid@.len() == w * sy + dx,
                forall|p: int| 0 <= p < mid@.len() ==> #[trigger] mid@[p] == bicubic_row(src@, sw as int, p / w, x_map@[p % w]),
            decreases dw - dx,
        {
            let xm = x_map[dx];
            proof {
                assert(xm.idx@[0] < sw && xm.idx@[1] < sw && xm.idx@[2] < sw && xm.idx@[3] < sw);
                assert(-0x10_0000 <= xm.w@[0] <= 0x10_0000 && -0x10_0000 <= xm.w@[1] <= 0x10_0000);
                assert(-0x10_0000 <= xm.w@[2] <= 0x10_0000 && -0x10_0000 <= xm.w@[3] <= 0x10_0000);
            }
            let v = cubic_pixel_exec(
                src[row + xm.idx[0]],
                src[row + xm.idx[1]],
                src[row + xm.idx[2]],
                src[row + xm.idx[3]],
                &xm.w,
            );
            let ghost before = mid@;
            mid.push(v);
            proof {
                lemma_index_div_mod(sy as int, w, dx as int);
                assert forall|p: int| 0 <= p < mid@.len() implies #[trigger] mid@[p] == bicubic_row(src@, sw as int, p / w, x_map@[p % w]) by {
                    if p < before.len() {
                        assert(mid@[p] == before[p]);
                    }
                }
            }
            dx = dx + 1;
        }
        proof {
            assert(w * (sy + 1) == w * sy + w) by (nonlinear_arith);
        }
        sy = sy + 1;
    }
    // Vertical pass over the rows of `mid`.
    let ghost m = mid@;
    let mut dy: usize = 0;
    while dy < dh
        invariant
            dh == y_map@.len(),
            dw == x_map@.len(),
            w == dw,
            sw == src_w && sh == src_h,
            src_len == src@.len(),
            dst_len == old_dst.len(),
            bc_map_ok(x_map@, src_w as int),
            bc_map_ok(y_map@, src_h as int),
            w * dh <= old_dst.len(),
            old_dst == old(dst)@,
            dst@.len() == old_dst.len(),
            mid@ == m,
            m.len() == w * sh,
            w * sh <= u32::MAX,
            forall|p: int| 0 <= p < m.len() ==> #[trigger] m[p] == bicubic_row(src@, sw as int, p / w, x_map@[p % w]),
            dy <= dh,
            forall|p: int|
                0 <= p < old_dst.len() ==> #[trigger] dst@[p] == if 0 <= p < w * dy {
                    bicubic_at(src@, sw as int, x_map@[p % w], y_map@[p / w])
                } else {
                    old_dst[p]
                },
        decreases dh - dy,
    {
        let ym = y_map[dy];
        let i0 = ym.idx[0];
        let i1 = ym.idx[1];
        let i2 = ym.idx[2];
        let i3 = ym.idx[3];
        proof {
            assert(i0 < sh && i1 < sh && i2 < sh && i3 < sh);
            assert(-0x10_0000 <= ym.w@[0] <= 0x10_0000 && -0x10_0000 <= ym.w@[1] <= 0x10_0000);
            assert(-0x10_0000 <= ym.w@[2] <= 0x10_0000 && -0x10_0000 <= ym.w@[3] <= 0x10_0000);
            assert(i0 * dw + dw <= sh * dw && i1 * dw + dw <= sh * dw && i2 * dw + dw <= sh * dw && i3 * dw + dw <= sh * dw) by (nonlinear_arith)
                requires i0 < sh, i1 < sh, i2 < sh, i3 < sh;
            assert(sh * dw == w * sh) by (nonlinear_arith) requires w == dw;
        }
        let r0 = i0 * dw;
        let r1 = i1 * dw;
        let r2 = i2 * dw;
        let r3 = i3 * dw;
        let mut dx: usize = 0;
        while dx < dw
            invariant
                dh == y_map@.len(),
                dw == x_map@.len(),
                w == dw,
                sw == src_w && sh == src_h,
                dst_len == old_dst.len(),
                bc_map_ok(x_map@, src_w as int),
                w * dh <= old_dst.len(),
                old_dst == old(dst)@,
                dst@.len() == old_dst.len(),
                mid@ == m,
                m.len() == w * sh,
                w * sh <= u32::MAX,
                forall|p: int| 0 <= p < m.len() ==> #[trigger] m[p] == bicubic_row(src@, sw as int, p / w, x_map@[p % w]),
                dy < dh,
                ym == y_map@[dy as int],
                i0 == ym.idx@[0] && i1 == ym.idx@[1] && i2 == ym.idx@[2] && i3 == ym.idx@[3],
                forall|k: int| 0 <= k < 4 ==> -0x10_0000 <= #[trigger] ym.w@[k] <= 0x10_0000,
                r0 == i0 * dw && r1 == i1 * dw && r2 == i2 * dw && r3 == i3 * dw,
                r0 + dw <= m.len() && r1 + dw <= m.len() && r2 + dw <= m.len() && r3 + dw <= m.len(),
                dx <= dw,
                forall|p: int|
                    0 <= p < old_dst.len() ==> #[trigger] dst@[p] == if 0 <= p < w * dy + dx {
                        bicubic_at(src@, sw as int, x_map@[p % w], y_map@[p / w])
                    } else {
                        old_dst[p]
                    },
            decreases dw - dx,
        {
            proof {
                lemma_index_div_mod(i0 as int, w, dx as int);
                lemma_index_div_mod(i1 as int, w, dx as int);
                lemma_index_div_mod(i2 as int, w, dx as int);
                lemma_index_div_mod(i3 as int, w, dx as int);
                assert(m[r0 + dx] == bicubic_row(src@, sw as int, i0 as int, x_map@[dx as int]));
                assert(m[r1 + dx] == bicubic_row(src@, sw as int, i1 as int, x_map@[dx as int]));
                assert(m[r2 + dx] == bicubic_row(src@, sw as int, i2 as int, x_map@[dx as int]));
                assert(m[r3 + dx] == bicubic_row(src@, sw as int, i3 as int, x_map@[dx as int]));
            }
            let v = cubic_pixel_exec(mid[r0 + dx], mid[r1 + dx], mid[r2 + dx], mid[r3 + dx], &ym.w);
            proof {
                lemma_index_bound(dy as int, w, dx as int, dh as int);
                lemma_index_div_mod(dy as int, w, dx as int);
                assert(dh * w == w * dh) by (nonlinear_arith);
            }
            let idx = dy * dw + dx;
            let ghost before = dst@;
            dst[idx] = v;
            assert forall|q: int| 0 <= q < old_dst.len() implies #[trigger] dst@[q] == if 0 <= q < w * dy + dx
                + 1 {
                bicubic_at(src@, sw as int, x_map@[q % w], y_map@[q / w])
            } else {
                old_dst[q]
            } by {
                if q != idx {
                    assert(dst@[q] == before[q]);
                }
            }
            dx = dx + 1;
        }
        proof {
            assert(w * (dy + 1) == w * dy + w) by (nonlinear_arith);
        }
        dy = dy + 1;
    }
    assert(dst@ =~= bicubic_image(src@, src_w as int, x_map@, y_map@, old_dst));
}


/// The four channels of a pixel, packed again, give the pixel.
proof fn lemma_pack_channels(p: u32)
    ensures
        pack_argb(chan(p, 24), chan(p, 16), chan(p, 8), chan(p, 0)) == p,
{
    assert(((p >> 24u32) & 0xFFu32) * 0x100_0000u32 + ((p >> 16u32) & 0xFFu32) * 0x1_0000u32 + ((p
        >> 8u32) & 0xFFu32) * 0x100u32 + ((p >> 0u32) & 0xFFu32) == p) by (bit_vector);
    assert(((p >> 24u32) & 0xFFu32) <= 255) by (bit_vector);
    assert(((p >> 16u32) & 0xFFu32) <= 255) by (bit_vector);
    assert(((p >> 8u32) & 0xFFu32) <= 255) by (bit_vector);
    assert(((p >> 0u32) & 0xFFu32) <= 255) by (bit_vector);
}

/// A whole weight on one pixel gives that pixel's channel.
proof fn lemma_bilerp_corners(p00: u32, p10: u32, p01: u32, p11: u32, sh: u32)
    ensures
        bilerp(p00, p10, p01, p11, 0, 0, sh) == chan(p00, sh),
        bilerp(p00, p10, p01, p11, 256, 0, sh) == chan(p10, sh),
        bilerp(p00, p10, p01, p11, 0, 256, sh) == chan(p01, sh),
        bilerp(p00, p10, p01, p11, 256, 256, sh) == chan(p11, sh),
{
    let (c00, c10, c01, c11) = (chan(p00, sh), chan(p10, sh), chan(p01, sh), chan(p11, sh));
    assert(c00 * 0 == 0 && c10 * 0 == 0 && c01 * 0 == 0 && c11 * 0 == 0);
    assert(bilerp(p00, p10, p01, p11, 0, 0, sh) == (c00 * 0x1_0000) / 0x1_0000);
    assert(bilerp(p00, p10, p01, p11, 256, 0, sh) == (c10 * 0x1_0000) / 0x1_0000);
    assert(bilerp(p00, p10, p01, p11, 0, 256, sh) == (c01 * 0x1_0000) / 0x1_0000);
    assert(bilerp(p00, p10, p01, p11, 256, 256, sh) == (c11 * 0x1_0000) / 0x1_0000);
    vstd::arithmetic::div_mod::lemma_div_by_multiple(c00, 0x1_0000);
    vstd::arithmetic::div_mod::lemma_div_by_multiple(c10, 0x1_0000);
    vstd::arithmetic::div_mod::lemma_div_by_multiple(c01, 0x1_0000);
    vstd::arithmetic::div_mod::lemma_div_by_multiple(c11, 0x1_0000);
}

/// Bilinear blending of four pixels (top left, top right, bottom left,
/// bottom right) with fractions `fx`, `fy` in 256ths toward the right and
/// the bottom: at the corners of the square it gives the corner pixels;
/// on the left edge (fx = 0) it reads only the left column, on the right
/// edge only the right column, on the top edge only the top row and on the
/// bottom edge only the bottom row; and four equal pixels blend to that
/// pixel.
pub proof fn lemma_bilinear_blend(
    p00: u32,
    p10: u32,
    p01: u32,
    p11: u32,
    q10: u32,
    q11: u32,
    q00: u32,
    q01: u32,
    fx: int,
    fy: int,
)
    requires
        0 <= fx <= 256,
        0 <= fy <= 256,
    ensures
        bilinear_pixel(p00, p10, p01, p11, 0, 0) == p00,
        bilinear_pixel(p00, p10, p01, p11, 256, 0) == p10,
        bilinear_pixel(p00, p10, p01, p11, 0, 256) == p01,
        bilinear_pixel(p00, p10, p01, p11, 256, 256) == p11,
        bilinear_pixel(p00, p10, p01, p11, 0, fy) == bilinear_pixel(p00, q10, p01, q11, 0, fy),
        bilinear_pixel(p00, p10, p01, p11, 256, fy) == bilinear_pixel(q00, p10, q01, p11, 256, fy),
        bilinear_pixel(p00, p10, p01, p11, fx, 0) == bilinear_pixel(p00, p10, q01, q11, fx, 0),
        bilinear_pixel(p00, p10, p01, p11, fx, 256) == bilinear_pixel(q00, q10, p01, p11, fx, 256),
        bilinear_pixel(p00, p00, p00, p00, fx, fy) == p00,
{
    lemma_bilerp_corners(p00, p10, p01, p11, 24);
    lemma_bilerp_corners(p00, p10, p01, p11, 16);
    lemma_bilerp_corners(p00, p10, p01, p11, 8);
    lemma_bilerp_corners(p00, p10, p01, p11, 0);
    lemma_pack_channels(p00);
    lemma_pack_channels(p10);
    lemma_pack_channels(p01);
    lemma_pack_channels(p11);
    lemma_bilerp_uniform(p00, fx, fy, 24);
    lemma_bilerp_uniform(p00, fx, fy, 16);
    lemma_bilerp_uniform(p00, fx, fy, 8);
    lemma_bilerp_uniform(p00, fx, fy, 0);
    assert forall|sh: u32| #[trigger] bilerp(p00, p10, p01, p11, 0, fy, sh) == bilerp(p00, q10, p01, q11, 0, fy, sh) by {}
    assert forall|sh: u32| #[trigger] bilerp(p00, p10, p01, p11, 256, fy, sh) == bilerp(q00, p10, q01, p11, 256, fy, sh) by {}
    assert forall|sh: u32| #[trigger] bilerp(p00, p10, p01, p11, fx, 0, sh) == bilerp(p00, p10, q01, q11, fx, 0, sh) by {}
    assert forall|sh: u32| #[trigger] bilerp(p00, p10, p01, p11, fx, 256, sh) == bilerp(q00, q10, p01, p11, fx, 256, sh) by {}
}

/// Four equal channel values blend to that value, whatever the weights.
proof fn lemma_bilerp_uniform(p: u32, fx: int, fy: int, sh: u32)
    requires
        0 <= fx <= 256,
        0 <= fy <= 256,
    ensures
        bilerp(p, p, p, p, fx, fy, sh) == chan(p, sh),
{
    let c = chan(p, sh);
    assert(c * ((256 - fx) * (256 - fy)) + c * (fx * (256 - fy)) + c * ((256 - fx) * fy) + c * (fx * fy)
        == c * 0x1_0000) by (nonlinear_arith);
    vstd::arithmetic::div_mod::lemma_div_by_multiple(c, 0x1_0000);
}


/// An output pixel of the bilinear pass whose column and row fractions are
/// whole is a source pixel: with no fraction, the pixel the entries name;
/// with a whole step right, its right neighbour; with a whole step down,
/// the one below (the last column and row standing in for themselves).
pub proof fn lemma_bilinear_at_whole_steps(src: Seq<u32>, sw: int, sh: int, xm: BiAxisMap, ym: BiAxisMap)
    ensures
        ({
            let sx0 = xm.src as int;
            let sy0 = ym.src as int;
            let sx1 = if sx0 + 1 < sw - 1 { sx0 + 1 } else { sw - 1 };
            let sy1 = if sy0 + 1 < sh - 1 { sy0 + 1 } else { sh - 1 };
            &&& (xm.frac == 0 && ym.frac == 0) ==> bilinear_at(src, sw, sh, xm, ym) == src[sy0 * sw + sx0]
            &&& (xm.frac == 256 && ym.frac == 0) ==> bilinear_at(src, sw, sh, xm, ym) == src[sy0 * sw
                + sx1]
            &&& (xm.frac == 0 && ym.frac == 256) ==> bilinear_at(src, sw, sh, xm, ym) == src[sy1 * sw
                + sx0]
            &&& (xm.frac == 256 && ym.frac == 256) ==> bilinear_at(src, sw, sh, xm, ym) == src[sy1 * sw
                + sx1]
        }),
{
    let sx0 = xm.src as int;
    let sy0 = ym.src as int;
    let sx1 = if sx0 + 1 < sw - 1 { sx0 + 1 } else { sw - 1 };
    let sy1 = if sy0 + 1 < sh - 1 { sy0 + 1 } else { sh - 1 };
    lemma_bilinear_blend(
        src[sy0 * sw + sx0],
        src[sy0 * sw + sx1],
        src[sy1 * sw + sx0],
        src[sy1 * sw + sx1],
        0,
        0,
        0,
        0,
        0,
        0,
    );
}

} // verus!
