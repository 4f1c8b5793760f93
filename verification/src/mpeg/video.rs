//! MPEG-1 video: decoding an elementary stream into YCrCb frames held in
//! whole macroblocks, with intra, predicted and bidirectional pictures.

use vstd::prelude::*;
use crate::mpeg::buffer::{
    aligned_byte, bits_after, next_code, bits_or_zero, bits_value, find_code, has_bits, lemma_bits_bound, lemma_find_code_progress,
    lemma_next_code_bounds, lemma_vlc_progress, lemma_vlc_value_bounds, vlc_decode, Buffer,
};
use crate::mpeg::video_tables::{
    lemma_video_tables, CODE_BLOCK_PATTERN, DCT_COEFF, DCT_SIZE_CHROMINANCE, DCT_SIZE_LUMINANCE,
    INTRA_QUANT_MATRIX, MACROBLOCK_ADDRESS_INCREMENT, MACROBLOCK_TYPE_B, MACROBLOCK_TYPE_INTRA,
    MACROBLOCK_TYPE_PREDICTIVE, MOTION, NON_INTRA_QUANT_MATRIX, PREMULTIPLIER_MATRIX, ZIG_ZAG,
};
use vstd::arithmetic::power2::{lemma2_to64, lemma_pow2_unfold, pow2};
use vstd::arithmetic::div_mod::{
    lemma_div_by_multiple, lemma_div_is_ordered, lemma_fundamental_div_mod_converse,
};

verus! {

// ---------------------------------------------------------------------------
// The inverse DCT.
// ---------------------------------------------------------------------------

/// An output of a pass: as computed, or in the row pass rounded and scaled
/// down by 256.
pub open spec fn pass_out(v: i32, round: bool) -> i32 {
    if round {
        v.wrapping_add(128) >> 8u32
    } else {
        v
    }
}

/// One pass of the fixed-point (AAN) 8-point inverse DCT over the eight
/// values of `x`, in 32-bit two's-complement arithmetic.
#[verifier::opaque]
pub open spec fn idct_pass(x: Seq<i32>, round: bool) -> Seq<i32> {
    let b1 = x[4];
    let b3 = x[2].wrapping_add(x[6]);
    let b4 = x[5].wrapping_sub(x[3]);
    let tmp1 = x[1].wrapping_add(x[7]);
    let tmp2 = x[3].wrapping_add(x[5]);
    let b6 = x[1].wrapping_sub(x[7]);
    let b7 = tmp1.wrapping_add(tmp2);
    let m0 = x[0];
    let x4 = (b6.wrapping_mul(473).wrapping_sub(b4.wrapping_mul(196)).wrapping_add(128) >> 8u32).wrapping_sub(b7);
    let x0 = x4.wrapping_sub(tmp1.wrapping_sub(tmp2).wrapping_mul(362).wrapping_add(128) >> 8u32);
    let x1 = m0.wrapping_sub(b1);
    let x2 = (x[2].wrapping_sub(x[6]).wrapping_mul(362).wrapping_add(128) >> 8u32).wrapping_sub(b3);
    let x3 = m0.wrapping_add(b1);
    let y3 = x1.wrapping_add(x2);
    let y4 = x3.wrapping_add(b3);
    let y5 = x1.wrapping_sub(x2);
    let y6 = x3.wrapping_sub(b3);
    let y7 = 0i32.wrapping_sub(x0).wrapping_sub(
        b4.wrapping_mul(473).wrapping_add(b6.wrapping_mul(196)).wrapping_add(128) >> 8u32,
    );
    seq![
        pass_out(b7.wrapping_add(y4), round),
        pass_out(x4.wrapping_add(y3), round),
        pass_out(y5.wrapping_sub(x0), round),
        pass_out(y6.wrapping_sub(y7), round),
        pass_out(y6.wrapping_add(y7), round),
        pass_out(x0.wrapping_add(y5), round),
        pass_out(y3.wrapping_sub(x4), round),
        pass_out(y4.wrapping_sub(b7), round),
    ]
}

/// Column `c` of an 8x8 block stored by rows.
pub open spec fn block_column(b: Seq<i32>, c: int) -> Seq<i32> {
    Seq::new(8, |k: int| b[8 * k + c])
}

/// Row `r` of an 8x8 block stored by rows.
pub open spec fn block_row(b: Seq<i32>, r: int) -> Seq<i32> {
    b.subrange(8 * r, 8 * r + 8)
}

/// The column pass applied to every column.
pub open spec fn idct_columns(b: Seq<i32>) -> Seq<i32> {
    Seq::new(64, |j: int| idct_pass(block_column(b, j % 8), false)[j / 8])
}

/// The row pass applied to every row.
pub open spec fn idct_rows(b: Seq<i32>) -> Seq<i32> {
    Seq::new(64, |j: int| idct_pass(block_row(b, j / 8), true)[j % 8])
}

/// The two-dimensional inverse DCT of an 8x8 block: columns, then rows.
pub open spec fn idct_block(b: Seq<i32>) -> Seq<i32> {
    idct_rows(idct_columns(b))
}

/// A block whose only coefficient is the DC value `x`.
pub open spec fn dc_only_block(x: i32) -> Seq<i32> {
    Seq::new(64, |j: int| if j == 0 { x } else { 0i32 })
}

/// The inverse DCT of a block holding only a DC value `x` is flat: every
/// value is `x` rounded and scaled down by 256, the value decoding writes
/// directly for such blocks.
pub proof fn lemma_idct_dc_only(x: i32)
    ensures
        idct_block(dc_only_block(x)) == Seq::new(64, |j: int| x.wrapping_add(128) >> 8u32),
{
    reveal(idct_pass);
    let z = 0i32;
    assert(128i32 >> 8u32 == 0i32) by (bit_vector);
    let zeros = seq![z, z, z, z, z, z, z, z];
    let first = seq![x, z, z, z, z, z, z, z];
    assert(idct_pass(zeros, false) =~= zeros);
    assert(idct_pass(zeros, true) =~= zeros);
    assert(idct_pass(first, false) =~= seq![x, x, x, x, x, x, x, x]);
    let v = x.wrapping_add(128) >> 8u32;
    assert(idct_pass(first, true) =~= seq![v, v, v, v, v, v, v, v]);
    let b = dc_only_block(x);
    let cols = idct_columns(b);
    assert forall|c: int| 0 <= c < 8 implies #[trigger] block_column(b, c) == (if c == 0 {
        first
    } else {
        zeros
    }) by {
        assert(block_column(b, c) =~= (if c == 0 {
            first
        } else {
            zeros
        }));
    }
    assert forall|j: int| 0 <= j < 64 implies #[trigger] cols[j] == (if j % 8 == 0 {
        x
    } else {
        z
    }) by {
        let c = j % 8;
        assert(block_column(b, c) == (if c == 0 {
            first
        } else {
            zeros
        }));
    }
    assert forall|r: int| 0 <= r < 8 implies #[trigger] block_row(cols, r) == first by {
        assert forall|k: int| 0 <= k < 8 implies block_row(cols, r)[k] == first[k] by {
            assert((8 * r + k) % 8 == k);
        }
        assert(block_row(cols, r) =~= first);
    }
    assert(idct_rows(cols) =~= Seq::new(64, |j: int| x.wrapping_add(128) >> 8u32)) by {
        assert forall|j: int| 0 <= j < 64 implies #[trigger] idct_rows(cols)[j] == v by {
            assert(block_row(cols, j / 8) == first);
        }
    }
}

/// One pass over eight values.
#[verifier::spinoff_prover]
#[verifier::rlimit(50)]
fn idct_pass_exec(v: (i32, i32, i32, i32, i32, i32, i32, i32), round: bool) -> (r: (
    i32,
    i32,
    i32,
    i32,
    i32,
    i32,
    i32,
    i32,
))
    ensures
        seq![r.0, r.1, r.2, r.3, r.4, r.5, r.6, r.7] == idct_pass(
            seq![v.0, v.1, v.2, v.3, v.4, v.5, v.6, v.7],
            round,
        ),
{
    reveal(idct_pass);
    let b1 = v.4;
    let b3 = v.2.wrapping_add(v.6);
    let b4 = v.5.wrapping_sub(v.3);
    let tmp1 = v.1.wrapping_add(v.7);
    let tmp2 = v.3.wrapping_add(v.5);
    let b6 = v.1.wrapping_sub(v.7);
    let b7 = tmp1.wrapping_add(tmp2);
    let m0 = v.0;
    let x4 = (b6.wrapping_mul(473).wrapping_sub(b4.wrapping_mul(196)).wrapping_add(128) >> 8u32).wrapping_sub(b7);
    let x0 = x4.wrapping_sub(tmp1.wrapping_sub(tmp2).wrapping_mul(362).wrapping_add(128) >> 8u32);
    let x1 = m0.wrapping_sub(b1);
    let x2 = (v.2.wrapping_sub(v.6).wrapping_mul(362).wrapping_add(128) >> 8u32).wrapping_sub(b3);
    let x3 = m0.wrapping_add(b1);
    let y3 = x1.wrapping_add(x2);
    let y4 = x3.wrapping_add(b3);
    let y5 = x1.wrapping_sub(x2);
    let y6 = x3.wrapping_sub(b3);
    let y7 = 0i32.wrapping_sub(x0).wrapping_sub(
        b4.wrapping_mul(473).wrapping_add(b6.wrapping_mul(196)).wrapping_add(128) >> 8u32,
    );
    let o0 = b7.wrapping_add(y4);
    let o1 = x4.wrapping_add(y3);
    let o2 = y5.wrapping_sub(x0);
    let o3 = y6.wrapping_sub(y7);
    let o4 = y6.wrapping_add(y7);
    let o5 = x0.wrapping_add(y5);
    let o6 = y3.wrapping_sub(x4);
    let o7 = y4.wrapping_sub(b7);
    if round {
        (
            o0.wrapping_add(128) >> 8u32,
            o1.wrapping_add(128) >> 8u32,
            o2.wrapping_add(128) >> 8u32,
            o3.wrapping_add(128) >> 8u32,
            o4.wrapping_add(128) >> 8u32,
            o5.wrapping_add(128) >> 8u32,
            o6.wrapping_add(128) >> 8u32,
            o7.wrapping_add(128) >> 8u32,
        )
    } else {
        (o0, o1, o2, o3, o4, o5, o6, o7)
    }
}

/// The inverse DCT of an 8x8 block in place, in 32-bit two's-complement
/// arithmetic.
pub fn idct(block: &mut Vec<i32>)
    requires
        old(block)@.len() == 64,
    ensures
        final(block)@ == idct_block(old(block)@),
{
    let ghost b0 = block@;
    let mut i: usize = 0;
    while i < 8
        invariant
            block@.len() == 64,
            0 <= i <= 8,
            forall|j: int|
                0 <= j < 64 ==> #[trigger] block@[j] == if j % 8 < i {
                    idct_pass(block_column(b0, j % 8), false)[j / 8]
                } else {
                    b0[j]
                },
        decreases 8 - i,
    {
        let v = (
            block[i],
            block[8 + i],
            block[16 + i],
            block[24 + i],
            block[32 + i],
            block[40 + i],
            block[48 + i],
            block[56 + i],
        );
        proof {
            assert(seq![v.0, v.1, v.2, v.3, v.4, v.5, v.6, v.7] =~= block_column(b0, i as int));
        }
        let r = idct_pass_exec(v, false);
        let ghost before = block@;
        block.set(i, r.0);
        block.set(8 + i, r.1);
        block.set(16 + i, r.2);
        block.set(24 + i, r.3);
        block.set(32 + i, r.4);
        block.set(40 + i, r.5);
        block.set(48 + i, r.6);
        block.set(56 + i, r.7);
        proof {
            let out = seq![r.0, r.1, r.2, r.3, r.4, r.5, r.6, r.7];
            assert forall|j: int| 0 <= j < 64 implies #[trigger] block@[j] == if j % 8 < i + 1 {
                idct_pass(block_column(b0, j % 8), false)[j / 8]
            } else {
                b0[j]
            } by {
                if j % 8 == i {
                    let k = j / 8;
                    assert(j == 8 * k + i);
                    assert(block@[j] == out[k]);
                } else {
                    assert(block@[j] == before[j]);
                }
            }
        }
        i = i + 1;
    }
    proof {
        assert(block@ =~= idct_columns(b0));
    }
    let ghost b1 = block@;
    let mut r: usize = 0;
    while r < 8
        invariant
            block@.len() == 64,
            b1.len() == 64,
            0 <= r <= 8,
            forall|j: int|
                0 <= j < 8 * r ==> #[trigger] block@[j] == idct_pass(block_row(b1, j / 8), true)[j
                    % 8],
            forall|j: int| 8 * r <= j < 64 ==> #[trigger] block@[j] == b1[j],
        decreases 8 - r,
    {
        let base = 8 * r;
        let v = (
            block[base],
            block[base + 1],
            block[base + 2],
            block[base + 3],
            block[base + 4],
            block[base + 5],
            block[base + 6],
            block[base + 7],
        );
        proof {
            assert(seq![v.0, v.1, v.2, v.3, v.4, v.5, v.6, v.7] =~= block_row(b1, r as int));
        }
        let o = idct_pass_exec(v, true);
        let ghost before = block@;
        block.set(base, o.0);
        block.set(base + 1, o.1);
        block.set(base + 2, o.2);
        block.set(base + 3, o.3);
        block.set(base + 4, o.4);
        block.set(base + 5, o.5);
        block.set(base + 6, o.6);
        block.set(base + 7, o.7);
        proof {
            let out = seq![o.0, o.1, o.2, o.3, o.4, o.5, o.6, o.7];
            assert forall|j: int| 0 <= j < 8 * (r + 1) implies #[trigger] block@[j] == idct_pass(
                block_row(b1, j / 8),
                true,
            )[j % 8] by {
                if j >= base {
                    let k = j - base;
                    assert(j / 8 == r && j % 8 == k);
                    assert(block@[j] == out[k]);
                } else {
                    assert(block@[j] == before[j]);
                }
            }
            assert forall|j: int| 8 * (r + 1) <= j < 64 implies #[trigger] block@[j] == b1[j] by {
                assert(block@[j] == before[j]);
            }
        }
        r = r + 1;
    }
    proof {
        assert(block@ =~= idct_rows(b1));
    }
}

// ---------------------------------------------------------------------------
// Writing 8x8 and 16x16 blocks into planes.
// ---------------------------------------------------------------------------

/// `n` clamped to 0..=255.
pub open spec fn clamp_u8(n: int) -> u8 {
    if n < 0 {
        0
    } else if n > 255 {
        255
    } else {
        n as u8
    }
}

fn clamp_to_u8(n: i64) -> (r: u8)
    ensures
        r == clamp_u8(n as int),
{
    if n < 0 {
        0
    } else if n > 255 {
        255
    } else {
        n as u8
    }
}

/// Whether position `j` lies in the `size` x `size` block whose top-left
/// corner is at `di`, with rows `dw` apart.
pub open spec fn on_block(j: int, di: int, dw: int, size: int) -> bool {
    &&& di <= j
    &&& (j - di) / dw < size
    &&& (j - di) % dw < size
}

/// `d` with each position of that block replaced by `f(row, column, old
/// value)`.
pub open spec fn block_image(
    d: Seq<u8>,
    di: int,
    dw: int,
    size: int,
    f: spec_fn(int, int, u8) -> u8,
) -> Seq<u8> {
    Seq::new(
        d.len(),
        |j: int|
            if on_block(j, di, dw, size) {
                f((j - di) / dw, (j - di) % dw, d[j])
            } else {
                d[j]
            },
    )
}

/// The position `x` along row `y` of the block lies on it, at that row and
/// column.
proof fn lemma_on_block(di: int, dw: int, size: int, y: int, x: int)
    requires
        0 <= y < size,
        0 <= x < size <= dw,
    ensures
        on_block(di + y * dw + x, di, dw, size),
        (y * dw + x) / dw == y,
        (y * dw + x) % dw == x,
{
    lemma_fundamental_div_mod_converse(y * dw + x, dw, y, x);
}

/// A position past the end of row `y` and before the next row's start lies
/// off the block.
proof fn lemma_off_block(di: int, dw: int, size: int, y: int, t: int)
    requires
        0 <= y,
        0 < size <= size + t < dw,
        0 <= t,
    ensures
        !on_block(di + y * dw + size + t, di, dw, size),
{
    lemma_fundamental_div_mod_converse(y * dw + size + t, dw, y, size + t);
}

/// A position `size` rows or more below the block's top lies off it.
proof fn lemma_below_block(j: int, di: int, dw: int, size: int)
    requires
        0 < size,
        0 < dw,
        j >= di + size * dw,
    ensures
        !on_block(j, di, dw, size),
{
    lemma_div_is_ordered(size * dw, j - di, dw);
    lemma_div_by_multiple(size, dw);
}

/// The ways a decoded 8x8 block is put into a plane.
#[derive(Clone, Copy)]
pub enum BlockFill {
    /// Every pixel set to one value.
    Const(u8),
    /// Each pixel set to its coefficient, clamped.
    Overwrite,
    /// One value added to each pixel, clamped.
    AddConst(i32),
    /// Each coefficient added to its pixel, clamped.
    Add,
}

/// The new value of a pixel at row `y`, column `x` of a block, over
/// coefficients `s`.
pub open spec fn fill_value(fill: BlockFill, s: Seq<i32>, y: int, x: int, old: u8) -> u8 {
    match fill {
        BlockFill::Const(v) => v,
        BlockFill::Overwrite => clamp_u8(s[8 * y + x] as int),
        BlockFill::AddConst(v) => clamp_u8(old + v),
        BlockFill::Add => clamp_u8(old + s[8 * y + x]),
    }
}

/// Puts an 8x8 block of coefficients `s` (stored by rows) into the plane
/// `d` at `di`, whose rows are `dw` apart.
fn fill_block(d: &mut Vec<u8>, di: usize, dw: usize, s: &Vec<i32>, fill: BlockFill)
    requires
        s@.len() == 64,
        dw >= 8,
        di + 7 * dw + 8 <= old(d)@.len(),
        di + 8 * dw <= usize::MAX,
    ensures
        final(d)@ == block_image(
            old(d)@,
            di as int,
            dw as int,
            8,
            |y: int, x: int, o: u8| fill_value(fill, s@, y, x, o),
        ),
{
    let ghost d0 = d@;
    let ghost target = block_image(
        d0,
        di as int,
        dw as int,
        8,
        |y: int, x: int, o: u8| fill_value(fill, s@, y, x, o),
    );
    let mut p: usize = di;
    let mut y: usize = 0;
    while y < 8
        invariant
            d@.len() == d0.len(),
            target.len() == d0.len(),
            s@.len() == 64,
            dw >= 8,
            di + 7 * dw + 8 <= d0.len(),
            di + 8 * dw <= usize::MAX,
            0 <= y <= 8,
            p == di + y * dw,
            target == block_image(
                d0,
                di as int,
                dw as int,
                8,
                |y: int, x: int, o: u8| fill_value(fill, s@, y, x, o),
            ),
            forall|j: int| 0 <= j < d0.len() && j >= p ==> #[trigger] d@[j] == d0[j],
            forall|j: int| 0 <= j < d0.len() && j < p ==> #[trigger] d@[j] == target[j],
        decreases 8 - y,
    {
        proof {
            assert((y + 1) * dw == y * dw + dw) by (nonlinear_arith);
            assert(y * dw <= 7 * dw) by (nonlinear_arith)
                requires
                    y < 8,
            ;
        }
        let mut x: usize = 0;
        while x < 8
            invariant
                d@.len() == d0.len(),
                target.len() == d0.len(),
                s@.len() == 64,
                dw >= 8,
                di + 7 * dw + 8 <= d0.len(),
                di + 8 * dw <= usize::MAX,
                0 <= y < 8,
                0 <= x <= 8,
                y * dw <= 7 * dw,
                p == di + y * dw + x,
                target == block_image(
                    d0,
                    di as int,
                    dw as int,
                    8,
                    |y: int, x: int, o: u8| fill_value(fill, s@, y, x, o),
                ),
                forall|j: int| 0 <= j < d0.len() && j >= p ==> #[trigger] d@[j] == d0[j],
                forall|j: int| 0 <= j < d0.len() && j < p ==> #[trigger] d@[j] == target[j],
            decreases 8 - x,
        {
            let k = 8 * y + x;
            let v: u8 = match fill {
                BlockFill::Const(c) => c,
                BlockFill::Overwrite => clamp_to_u8(s[k] as i64),
                BlockFill::AddConst(c) => clamp_to_u8(d[p] as i64 + c as i64),
                BlockFill::Add => clamp_to_u8(d[p] as i64 + s[k] as i64),
            };
            proof {
                lemma_on_block(di as int, dw as int, 8, y as int, x as int);
                assert(target[p as int] == fill_value(fill, s@, y as int, x as int, d0[p as int]));
            }
            d.set(p, v);
            p = p + 1;
            x = x + 1;
        }
        proof {
            assert forall|j: int| 0 <= j < d0.len() && j < p + (dw - 8) implies #[trigger] d@[j]
                == target[j] by {
                if j >= p {
                    lemma_off_block(di as int, dw as int, 8, y as int, j - p);
                }
            }
        }
        p = p + (dw - 8);
        y = y + 1;
    }
    proof {
        assert forall|j: int| 0 <= j < d0.len() implies #[trigger] d@[j] == target[j] by {
            if j >= p {
                lemma_below_block(j, di as int, dw as int, 8);
            }
        }
        assert(d@ =~= target);
    }
}

// ---------------------------------------------------------------------------
// Motion compensation.
// ---------------------------------------------------------------------------

/// The value predicted for a pixel from the reference plane `s` at `si`,
/// averaged with the pixel to its right and/or below it at half-pixel
/// offsets, and with the pixel already there when `interpolate`.
pub open spec fn predicted(
    s: Seq<u8>,
    si: int,
    dw: int,
    odd_h: bool,
    odd_v: bool,
    interpolate: bool,
    old: u8,
) -> u8 {
    let v: int = if !odd_h && !odd_v {
        s[si] as int
    } else if !odd_h {
        (s[si] + s[si + dw] + 1) / 2
    } else if !odd_v {
        (s[si] + s[si + 1] + 1) / 2
    } else {
        (s[si] + s[si + 1] + s[si + dw] + s[si + dw + 1] + 2) / 4
    };
    if interpolate {
        ((old + v + 1) / 2) as u8
    } else {
        v as u8
    }
}

/// Where the reference block for the macroblock at `mb_row`, `mb_col`
/// starts in a plane of `mb_width * size` columns, moved by the
/// half-pixel motion vector.
pub open spec fn motion_source(
    mb_row: int,
    mb_col: int,
    dw: int,
    size: int,
    motion_h: i32,
    motion_v: i32,
) -> int {
    (mb_row * size + (motion_v >> 1u32)) * dw + mb_col * size + (motion_h >> 1u32)
}

/// The last start position of a block that fits in a plane of `dw`
/// columns and `mb_height * size` rows.
pub open spec fn last_block_start(dw: int, mb_height: int, size: int) -> int {
    dw * (mb_height * size - size + 1) - size
}

/// The plane `d` after predicting the macroblock at `mb_row`, `mb_col` from
/// the reference plane `s`; unchanged when the motion vector points (with
/// its half-pixel neighbours) outside the reference plane.
pub open spec fn predicted_plane(
    s: Seq<u8>,
    d: Seq<u8>,
    mb_row: int,
    mb_col: int,
    mb_width: int,
    mb_height: int,
    motion_h: i32,
    motion_v: i32,
    size: int,
    interpolate: bool,
) -> Seq<u8> {
    let dw = mb_width * size;
    let odd_h = (motion_h & 1) != 0;
    let odd_v = (motion_v & 1) != 0;
    let si0 = motion_source(mb_row, mb_col, dw, size, motion_h, motion_v);
    let di0 = (mb_row * dw + mb_col) * size;
    let last = last_block_start(dw, mb_height, size);
    let reach = si0 + (if odd_v { dw } else { 0 }) + (if odd_h { 1int } else { 0 });
    if si0 < 0 || reach > last || di0 > last {
        d
    } else {
        block_image(
            d,
            di0,
            dw,
            size,
            |y: int, x: int, o: u8| predicted(s, si0 + y * dw + x, dw, odd_h, odd_v, interpolate, o),
        )
    }
}

/// Predicts the `size` x `size` macroblock at `mb_row`, `mb_col` of plane
/// `d` from the reference plane `s`, moved by the half-pixel motion vector
/// `motion_h`, `motion_v`; with `interpolate`, averages it with what `d`
/// holds there.
fn process_macroblock(
    s: &Vec<u8>,
    d: &mut Vec<u8>,
    mb_row: usize,
    mb_col: usize,
    mb_width: usize,
    mb_height: usize,
    motion_h: i32,
    motion_v: i32,
    size: usize,
    interpolate: bool,
)
    requires
        size == 8 || size == 16,
        0 < mb_width <= 256,
        0 < mb_height <= 256,
        mb_row < mb_height,
        mb_col < mb_width,
        -4096 <= motion_h <= 4096,
        -4096 <= motion_v <= 4096,
        s@.len() == mb_width * size * (mb_height * size),
        old(d)@.len() == mb_width * size * (mb_height * size),
    ensures
        final(d)@ == predicted_plane(
            s@,
            old(d)@,
            mb_row as int,
            mb_col as int,
            mb_width as int,
            mb_height as int,
            motion_h,
            motion_v,
            size as int,
            interpolate,
        ),
{
    let ghost d0 = d@;
    let dw = mb_width * size;
    let hp = motion_h >> 1u32;
    let vp = motion_v >> 1u32;
    let odd_h = (motion_h & 1) != 0;
    let odd_v = (motion_v & 1) != 0;
    proof {
        assert(-2048 <= hp <= 2048 && -2048 <= vp <= 2048) by (bit_vector)
            requires
                -4096 <= motion_h <= 4096,
                -4096 <= motion_v <= 4096,
                hp == motion_h >> 1u32,
                vp == motion_v >> 1u32,
        ;
        assert(dw <= 4096) by (nonlinear_arith)
            requires
                dw == mb_width * size,
                mb_width <= 256,
                size <= 16,
        ;
        assert(mb_row * size <= 4096 && mb_col * size <= 4096) by (nonlinear_arith)
            requires
                mb_row < 256,
                mb_col < 256,
                size <= 16,
        ;
        assert(mb_height * size <= 4096) by (nonlinear_arith)
            requires
                mb_height <= 256,
                size <= 16,
        ;
    }
    let row_i = (mb_row * size) as i64 + vp as i64;
    proof {
        assert(-2048 <= row_i <= 8192);
        assert(-2048 * 4096 <= row_i * dw <= 8192 * 4096) by (nonlinear_arith)
            requires
                -2048 <= row_i <= 8192,
                0 <= dw <= 4096,
        ;
        assert(0 <= mb_row * dw <= 256 * 4096) by (nonlinear_arith)
            requires
                mb_row < 256,
                dw <= 4096,
        ;
        assert(0 <= (mb_row * dw + mb_col) * size <= 4096 * 4096 + 4096 * 16) by (nonlinear_arith)
            requires
                mb_row <= 4096,
                dw <= 4096,
                mb_col <= 256,
                size <= 16,
                mb_row * size <= 4096,
        ;
        assert(0 <= dw * (mb_height * size - size + 1) <= 4096 * 4096) by (nonlinear_arith)
            requires
                dw <= 4096,
                mb_height * size <= 4096,
                mb_height >= 1,
                size >= 8,
        ;
    }
    let si0: i64 = row_i * dw as i64 + (mb_col * size) as i64 + hp as i64;
    let di0: i64 = ((mb_row * dw + mb_col) * size) as i64;
    let max_address: i64 = (dw * (mb_height * size - size + 1)) as i64 - size as i64;
    let reach: i64 = si0 + (if odd_v {
        dw as i64
    } else {
        0
    }) + (if odd_h {
        1
    } else {
        0
    });
    proof {
        assert(si0 == motion_source(
            mb_row as int,
            mb_col as int,
            dw as int,
            size as int,
            motion_h,
            motion_v,
        ));
        assert(max_address == last_block_start(dw as int, mb_height as int, size as int));
    }
    if si0 < 0 || reach > max_address || di0 < 0 || di0 > max_address {
        return;
    }
    let ghost len = s@.len();
    let ghost target = block_image(
        d0,
        di0 as int,
        dw as int,
        size as int,
        |y: int, x: int, o: u8|
            predicted(s@, si0 + y * dw + x, dw as int, odd_h, odd_v, interpolate, o),
    );
    proof {
        // The last pixel read lies inside the plane, and so does the last
        // pixel written.
        assert(max_address + (size - 1) * dw + size - 1 == len - 1) by (nonlinear_arith)
            requires
                max_address == dw * (mb_height * size - size + 1) - size,
                len == dw * (mb_height * size),
        ;
        assert(len <= 4096 * 4096) by (nonlinear_arith)
            requires
                len == dw * (mb_height * size),
                dw <= 4096,
                mb_height * size <= 4096,
        ;
    }
    let mut si: usize = si0 as usize;
    let mut di: usize = di0 as usize;
    let scan = dw - size;
    let mut y: usize = 0;
    while y < size
        invariant
            d@.len() == len,
            s@.len() == len,
            d0.len() == len,
            target.len() == len,
            size == 8 || size == 16,
            dw >= size,
            scan == dw - size,
            dw <= 4096,
            len <= 4096 * 4096,
            0 <= y <= size,
            si == si0 + y * dw,
            di == di0 + y * dw,
            0 <= si0,
            0 <= di0,
            reach == si0 + (if odd_v { dw as int } else { 0 }) + (if odd_h { 1int } else { 0 }),
            reach <= max_address,
            di0 <= max_address,
            max_address + (size - 1) * dw + size - 1 == len - 1,
            target == block_image(
                d0,
                di0 as int,
                dw as int,
                size as int,
                |y: int, x: int, o: u8|
                    predicted(s@, si0 + y * dw + x, dw as int, odd_h, odd_v, interpolate, o),
            ),
            forall|j: int| 0 <= j < len && j >= di ==> #[trigger] d@[j] == d0[j],
            forall|j: int| 0 <= j < len && j < di ==> #[trigger] d@[j] == target[j],
        decreases size - y,
    {
        proof {
            assert((y + 1) * dw == y * dw + dw) by (nonlinear_arith);
            assert(y * dw <= (size - 1) * dw) by (nonlinear_arith)
                requires
                    y < size,
            ;
        }
        let mut x: usize = 0;
        while x < size
            invariant
                d@.len() == len,
                s@.len() == len,
                d0.len() == len,
                target.len() == len,
                size == 8 || size == 16,
                dw >= size,
                dw <= 4096,
                len <= 4096 * 4096,
                0 <= y < size,
                0 <= x <= size,
                y * dw <= (size - 1) * dw,
                si == si0 + y * dw + x,
                di == di0 + y * dw + x,
                0 <= si0,
                0 <= di0,
                reach == si0 + (if odd_v { dw as int } else { 0 }) + (if odd_h { 1int } else { 0 }),
                reach <= max_address,
                di0 <= max_address,
                max_address + (size - 1) * dw + size - 1 == len - 1,
                target == block_image(
                    d0,
                    di0 as int,
                    dw as int,
                    size as int,
                    |y: int, x: int, o: u8|
                        predicted(s@, si0 + y * dw + x, dw as int, odd_h, odd_v, interpolate, o),
                ),
                forall|j: int| 0 <= j < len && j >= di ==> #[trigger] d@[j] == d0[j],
                forall|j: int| 0 <= j < len && j < di ==> #[trigger] d@[j] == target[j],
            decreases size - x,
        {
            let a = s[si] as u32;
            let v: u32 = if !odd_h && !odd_v {
                a
            } else if !odd_h {
                (a + s[si + dw] as u32 + 1) / 2
            } else if !odd_v {
                (a + s[si + 1] as u32 + 1) / 2
            } else {
                (a + s[si + 1] as u32 + s[si + dw] as u32 + s[si + dw + 1] as u32 + 2) / 4
            };
            let w: u8 = if interpolate {
                ((d[di] as u32 + v + 1) / 2) as u8
            } else {
                v as u8
            };
            proof {
                lemma_on_block(di0 as int, dw as int, size as int, y as int, x as int);
                assert(target[di as int] == predicted(
                    s@,
                    si0 + y * dw + x,
                    dw as int,
                    odd_h,
                    odd_v,
                    interpolate,
                    d0[di as int],
                ));
            }
            d.set(di, w);
            si = si + 1;
            di = di + 1;
            x = x + 1;
        }
        proof {
            assert forall|j: int| 0 <= j < len && j < di + scan implies #[trigger] d@[j]
                == target[j] by {
                if j >= di {
                    lemma_off_block(di0 as int, dw as int, size as int, y as int, j - di);
                }
            }
        }
        si = si + scan;
        di = di + scan;
        y = y + 1;
    }
    proof {
        assert forall|j: int| 0 <= j < len implies #[trigger] d@[j] == target[j] by {
            if j >= di {
                lemma_below_block(j, di0 as int, dw as int, size as int);
            }
        }
        assert(d@ =~= target);
    }
}

// ---------------------------------------------------------------------------
// Frames and the decoder's state.
// ---------------------------------------------------------------------------

/// Picture coding types.
pub const PICTURE_TYPE_INTRA: i32 = 1;

pub const PICTURE_TYPE_PREDICTIVE: i32 = 2;

pub const PICTURE_TYPE_B: i32 = 3;

/// Start codes of the video syntax.
pub const START_SEQUENCE: i32 = 0xB3;

pub const START_SLICE_FIRST: i32 = 0x01;

pub const START_SLICE_LAST: i32 = 0xAF;

pub const START_PICTURE: i32 = 0x00;

pub const START_EXTENSION: i32 = 0xB5;

pub const START_USER_DATA: i32 = 0xB2;

/// The bits a sequence header may take, with both quantiser matrices.
pub const MAX_HEADER_BITS: usize = 1088;

fn is_slice_start_code(c: i32) -> (r: bool)
    ensures
        r == (START_SLICE_FIRST <= c <= START_SLICE_LAST),
{
    START_SLICE_FIRST <= c && c <= START_SLICE_LAST
}

/// A decoded image plane (Y, Cr or Cb), in whole macroblocks.
pub struct Plane {
    pub width: usize,
    pub height: usize,
    pub data: Vec<u8>,
}

/// A decoded YCrCb frame: `width` and `height` are the picture's size; the
/// planes are rounded up to whole macroblocks, the chroma planes at half
/// the luma plane's size.
pub struct Frame {
    pub width: usize,
    pub height: usize,
    pub y: Plane,
    pub cr: Plane,
    pub cb: Plane,
}

impl Plane {
    /// A plane of `width` x `height` pixels.
    pub open spec fn sized(&self, width: int, height: int) -> bool {
        &&& self.width == width
        &&& self.height == height
        &&& self.data@.len() == width * height
    }
}

/// Macroblocks (16 pixels) across a length of `n` pixels.
pub open spec fn macroblocks(n: int) -> int {
    (n + 15) / 16
}

impl Frame {
    /// A frame for a picture of `width` x `height` pixels.
    pub open spec fn fits(&self, width: int, height: int) -> bool {
        let mbw = macroblocks(width);
        let mbh = macroblocks(height);
        &&& self.width == width
        &&& self.height == height
        &&& self.y.sized(mbw * 16, mbh * 16)
        &&& self.cr.sized(mbw * 8, mbh * 8)
        &&& self.cb.sized(mbw * 8, mbh * 8)
    }

    fn empty() -> (r: Frame)
        ensures
            r.width == 0 && r.height == 0,
            r.y.sized(0, 0) && r.cr.sized(0, 0) && r.cb.sized(0, 0),
    {
        Frame {
            width: 0,
            height: 0,
            y: Plane { width: 0, height: 0, data: Vec::new() },
            cr: Plane { width: 0, height: 0, data: Vec::new() },
            cb: Plane { width: 0, height: 0, data: Vec::new() },
        }
    }
}

fn zeroed_plane(width: usize, height: usize) -> (r: Plane)
    requires
        width * height <= usize::MAX,
    ensures
        r.sized(width as int, height as int),
        forall|i: int| 0 <= i < r.data@.len() ==> r.data@[i] == 0,
{
    let n = width * height;
    let mut data: Vec<u8> = Vec::new();
    let mut i: usize = 0;
    while i < n
        invariant
            i <= n,
            data@.len() == i,
            forall|k: int| 0 <= k < i ==> data@[k] == 0,
        decreases n - i,
    {
        data.push(0);
        i = i + 1;
    }
    Plane { width, height, data }
}

/// The motion state of one prediction direction.
#[derive(Clone, Copy)]
struct Motion {
    full_px: bool,
    is_set: bool,
    r_size: i32,
    h: i32,
    v: i32,
}

impl Motion {
    /// The horizontal vector in half pixels.
    spec fn h_half_px(&self) -> i32 {
        if self.full_px {
            (self.h * 2) as i32
        } else {
            self.h
        }
    }

    /// The vertical vector in half pixels.
    spec fn v_half_px(&self) -> i32 {
        if self.full_px {
            (self.v * 2) as i32
        } else {
            self.v
        }
    }

    spec fn ok(&self) -> bool {
        &&& 0 <= self.r_size <= 6
        &&& -1024 <= self.h <= 1024
        &&& -1024 <= self.v <= 1024
    }
}

/// An MPEG-1 video decoder over an elementary stream held in memory.
pub struct Video {
    buffer: Buffer,
    aspect_code: usize,
    rate_code: usize,
    frames_decoded: u64,
    width: usize,
    height: usize,
    mb_width: usize,
    mb_height: usize,
    mb_size: usize,
    luma_width: usize,
    luma_height: usize,
    chroma_width: usize,
    chroma_height: usize,
    start_code: i32,
    picture_type: i32,
    motion_forward: Motion,
    motion_backward: Motion,
    has_sequence_header: bool,
    quantizer_scale: i32,
    slice_begin: bool,
    macroblock_address: i32,
    mb_row: usize,
    mb_col: usize,
    macroblock_type: i32,
    macroblock_intra: bool,
    dc_predictor: Vec<i32>,
    frames: Vec<Frame>,
    cur: usize,
    fwd: usize,
    bwd: usize,
    block_data: Vec<i32>,
    intra_quant_matrix: Vec<u8>,
    non_intra_quant_matrix: Vec<u8>,
    has_reference_frame: bool,
    assume_no_b_frames: bool,
}

/// Whether a sequence header whose fields fit in the stream, with a
/// non-zero width and height, starts at bit `pos`.
pub open spec fn sequence_header_at(bytes: Seq<u8>, pos: int) -> bool {
    &&& 0 <= pos
    &&& has_bits(bytes.len(), pos as nat, MAX_HEADER_BITS as nat)
    &&& bits_value(bytes, pos, 12) != 0
    &&& bits_value(bytes, pos + 12, 12) != 0
}

/// The picture-rate code of a sequence header whose fields start at bit
/// `pos`.
pub open spec fn header_rate_code(bytes: Seq<u8>, pos: int) -> int {
    bits_value(bytes, pos + 28, 4) as int
}

/// The aspect-ratio code of a sequence header whose fields start at bit
/// `pos`, less one and clamped to 0..=13.
pub open spec fn header_aspect_code(bytes: Seq<u8>, pos: int) -> int {
    let par = bits_value(bytes, pos + 24, 4) as int;
    if par == 0 {
        0
    } else if par - 1 > 13 {
        13
    } else {
        par - 1
    }
}

/// Where the fields of the sequence header that `has_header` reads start:
/// at `pos` when the decoder stands after a sequence start code, else after
/// the next one found.
pub open spec fn header_search_pos(bytes: Seq<u8>, pos: nat, start_code: int) -> int {
    if start_code == START_SEQUENCE {
        pos as int
    } else {
        find_code(bytes, aligned_byte(pos), START_SEQUENCE as int).1 * 8
    }
}

impl Video {
    /// The picture-rate code read from the sequence header.
    pub closed spec fn rate_code_of(&self) -> int {
        self.rate_code as int
    }

    /// The aspect-ratio code read from the sequence header.
    pub closed spec fn aspect_code_of(&self) -> int {
        self.aspect_code as int
    }

    /// The stream being decoded.
    pub closed spec fn stream(&self) -> Seq<u8> {
        self.buffer@.0
    }

    /// The read position in the stream, in bits.
    pub closed spec fn stream_pos(&self) -> nat {
        self.buffer@.1
    }

    /// Whether a sequence header has been read.
    pub closed spec fn header_parsed(&self) -> bool {
        self.has_sequence_header
    }

    /// The picture width from the sequence header.
    pub closed spec fn picture_width(&self) -> int {
        self.width as int
    }

    /// The picture height from the sequence header.
    pub closed spec fn picture_height(&self) -> int {
        self.height as int
    }

    /// The frame at `index`.
    pub closed spec fn frame_at(&self, index: int) -> Frame {
        self.frames@[index]
    }

    /// Whether a reference frame is held, to be shown when the next
    /// reference picture is decoded.
    pub closed spec fn holds_reference(&self) -> bool {
        self.has_reference_frame
    }

    /// The search for the next picture: the start code found (0, or -1
    /// for none) and the position after it; none is needed when the
    /// decoder stands after a picture start code.
    pub closed spec fn picture_search(&self) -> (int, nat) {
        if self.start_code == START_PICTURE {
            (START_PICTURE as int, self.buffer@.1)
        } else {
            let (c, q) = find_code(self.buffer@.0, aligned_byte(self.buffer@.1), START_PICTURE as int);
            (c, (q * 8) as nat)
        }
    }

    /// A picture is found and is whole in the stream: another picture
    /// start code follows it, or the stream has ended.
    pub closed spec fn picture_ready(&self) -> bool {
        let (c, q) = self.picture_search();
        &&& c != -1
        &&& (find_code(self.buffer@.0, aligned_byte(q), START_PICTURE as int).0 != -1 || q
            >= self.buffer@.0.len() * 8)
    }

    /// What decoding gives when no further picture is found: the last
    /// reference frame once more, when one is held, the stream has ended
    /// and the last picture was an intra or predicted one.
    pub closed spec fn flush_result(&self) -> Option<usize> {
        let (c, q) = self.picture_search();
        if self.has_reference_frame && !self.assume_no_b_frames && q >= self.buffer@.0.len() * 8
            && (self.picture_type == PICTURE_TYPE_INTRA || self.picture_type
            == PICTURE_TYPE_PREDICTIVE) {
            Some(self.bwd)
        } else {
            None
        }
    }

    /// The frame shown once the next picture is decoded while a reference
    /// frame is held: with no bidirectional pictures assumed, the newest
    /// reference; for a bidirectional picture, the frame it was decoded
    /// into; otherwise the older reference, which an intra or predicted
    /// picture moves into the forward role.
    pub closed spec fn shown_frame(&self) -> usize {
        let (t, decoded) = picture_coding(self.buffer@.0, self.picture_search().1);
        let (cur, fwd, bwd) = if decoded && (t == PICTURE_TYPE_INTRA || t == PICTURE_TYPE_PREDICTIVE) {
            (self.fwd, self.bwd, self.cur)
        } else {
            (self.cur, self.fwd, self.bwd)
        };
        if self.assume_no_b_frames {
            bwd
        } else if t == PICTURE_TYPE_B {
            cur
        } else {
            fwd
        }
    }

    /// `self` is `old` after the picture that the search from `old` finds
    /// is decoded (`picture_decoded`), with the count of frames shown moved
    /// on: the frames, and so the one shown, follow from the stream alone.
    pub closed spec fn next_picture_decoded(&self, old: &Video) -> bool {
        exists|p: Video, d: Video|
            #![trigger d.picture_decoded(&p)]
            p == (Video { start_code: START_PICTURE, buffer: p.buffer, ..*old }) && p.buffer@ == (
                old.buffer@.0,
                old.picture_search().1,
            ) && d.picture_decoded(&p) && *self == (Video { frames_decoded: self.frames_decoded, ..d })
    }

    /// `self` is `old` after the pictures decoded before one is shown:
    /// the next picture; or, when no reference frame is held yet, that
    /// picture and then the one after it.
    pub closed spec fn picture_shown(&self, old: &Video) -> bool {
        ||| self.next_picture_decoded(old)
        ||| exists|m: Video|
            #![trigger m.next_picture_decoded(old)]
            m.next_picture_decoded(old) && !old.has_reference_frame && self.next_picture_decoded(
                &Video { has_reference_frame: true, ..m },
            )
    }

    /// What a search that finds no picture after the first one decoded
    /// gives: the flush result of the state that picture left.
    pub closed spec fn flushed_after_first(&self, old: &Video, r: Option<usize>) -> bool {
        exists|m: Video|
            #![trigger m.next_picture_decoded(old)]
            m.next_picture_decoded(old) && !old.has_reference_frame && r == (Video {
                has_reference_frame: true,
                ..m
            }).flush_result()
    }

    /// Frames returned for display in order so far.
    pub closed spec fn displayed_frames(&self) -> u64 {
        self.frames_decoded
    }

    /// The start code the decoder stands after.
    pub closed spec fn current_start_code(&self) -> int {
        self.start_code as int
    }

    /// Plane and macroblock sizes that follow from the picture size, and
    /// three frames of those sizes.
    spec fn dims_ok(&self) -> bool {
        &&& 0 < self.width < 4096
        &&& 0 < self.height < 4096
        &&& self.mb_width == macroblocks(self.width as int)
        &&& self.mb_height == macroblocks(self.height as int)
        &&& self.mb_size == self.mb_width * self.mb_height
        &&& 0 < self.mb_width <= 256
        &&& 0 < self.mb_height <= 256
        &&& self.mb_size <= 65536
        &&& self.luma_width == self.mb_width * 16
        &&& self.luma_height == self.mb_height * 16
        &&& self.chroma_width == self.mb_width * 8
        &&& self.chroma_height == self.mb_height * 8
        &&& self.frames@.len() == 3
        &&& forall|i: int|
            0 <= i < 3 ==> (#[trigger] self.frames@[i]).fits(self.width as int, self.height as int)
        &&& self.cur < 3
        &&& self.fwd < 3
        &&& self.bwd < 3
        &&& self.cur != self.fwd
        &&& self.cur != self.bwd
    }

    /// What holds between any two steps, also in the middle of a picture.
    spec fn wf_core(&self) -> bool {
        &&& self.buffer.wf()
        &&& self.dc_predictor@.len() == 3
        &&& self.block_data@.len() == 64
        &&& self.intra_quant_matrix@.len() == 64
        &&& self.non_intra_quant_matrix@.len() == 64
        &&& self.motion_forward.ok()
        &&& self.motion_backward.ok()
        &&& 0 <= self.quantizer_scale <= 31
        &&& 0 <= self.picture_type <= 7
        &&& self.macroblock_address >= -1
        &&& self.rate_code < 16
        &&& self.aspect_code < 14
        &&& (self.has_sequence_header ==> self.dims_ok())
    }

    /// The decoder's invariant between calls: the three frames are
    /// distinct.
    pub closed spec fn wf(&self) -> bool {
        &&& self.wf_core()
        &&& (self.has_sequence_header ==> self.fwd != self.bwd)
    }

    /// Creates a decoder over a video elementary stream and reads the
    /// sequence header if the stream has one.
    pub fn new(video_es: Vec<u8>) -> (r: Self)
        requires
            video_es@.len() * 8 + 7 <= usize::MAX,
        ensures
            r.wf(),
            r.stream() == video_es@,
            r.header_parsed() == (find_code(video_es@, 0, START_SEQUENCE as int).0 != -1
                && sequence_header_at(
                video_es@,
                find_code(video_es@, 0, START_SEQUENCE as int).1 * 8,
            )),
            r.header_parsed() ==> r.picture_width() == bits_value(
                video_es@,
                find_code(video_es@, 0, START_SEQUENCE as int).1 * 8,
                12,
            ) && r.picture_height() == bits_value(
                video_es@,
                find_code(video_es@, 0, START_SEQUENCE as int).1 * 8 + 12,
                12,
            ),
            r.header_parsed() ==> r.rate_code_of() == header_rate_code(
                video_es@,
                find_code(video_es@, 0, START_SEQUENCE as int).1 * 8,
            ) && r.aspect_code_of() == header_aspect_code(
                video_es@,
                find_code(video_es@, 0, START_SEQUENCE as int).1 * 8,
            ),
    {
        let mut dc: Vec<i32> = Vec::new();
        dc.push(128);
        dc.push(128);
        dc.push(128);
        let mut s = Video {
            buffer: Buffer::new(video_es),
            aspect_code: 0,
            rate_code: 0,
            frames_decoded: 0,
            width: 0,
            height: 0,
            mb_width: 0,
            mb_height: 0,
            mb_size: 0,
            luma_width: 0,
            luma_height: 0,
            chroma_width: 0,
            chroma_height: 0,
            start_code: -1,
            picture_type: 0,
            motion_forward: Motion { full_px: false, is_set: false, r_size: 0, h: 0, v: 0 },
            motion_backward: Motion { full_px: false, is_set: false, r_size: 0, h: 0, v: 0 },
            has_sequence_header: false,
            quantizer_scale: 0,
            slice_begin: false,
            macroblock_address: 0,
            mb_row: 0,
            mb_col: 0,
            macroblock_type: 0,
            macroblock_intra: false,
            dc_predictor: dc,
            frames: Vec::new(),
            cur: 0,
            fwd: 1,
            bwd: 2,
            block_data: zero_block(),
            intra_quant_matrix: zeroed_plane(64, 1).data,
            non_intra_quant_matrix: zeroed_plane(64, 1).data,
            has_reference_frame: false,
            assume_no_b_frames: false,
        };
        proof {
            assert(aligned_byte(0) == 0);
        }
        s.start_code = s.buffer.find_start_code(START_SEQUENCE);
        if s.start_code != -1 {
            s.decode_sequence_header();
        }
        s
    }

    /// Whether the sequence header has been read; reads it first if it has
    /// not.
    pub fn has_header(&mut self) -> (r: bool)
        requires
            old(self).wf(),
        ensures
            final(self).wf(),
            final(self).stream() == old(self).stream(),
            final(self).stream_pos() >= old(self).stream_pos(),
            r == final(self).header_parsed(),
            old(self).header_parsed() ==> *final(self) == *old(self),
            final(self).displayed_frames() == old(self).displayed_frames(),
            !old(self).header_parsed() && r ==> final(self).rate_code_of() == header_rate_code(
                old(self).stream(),
                header_search_pos(
                    old(self).stream(),
                    old(self).stream_pos(),
                    old(self).current_start_code(),
                ),
            ) && final(self).aspect_code_of() == header_aspect_code(
                old(self).stream(),
                header_search_pos(
                    old(self).stream(),
                    old(self).stream_pos(),
                    old(self).current_start_code(),
                ),
            ),
            !old(self).header_parsed() ==> r == (if old(self).current_start_code() == START_SEQUENCE {
                sequence_header_at(old(self).stream(), old(self).stream_pos() as int)
            } else {
                find_code(
                    old(self).stream(),
                    aligned_byte(old(self).stream_pos()),
                    START_SEQUENCE as int,
                ).0 != -1 && sequence_header_at(
                    old(self).stream(),
                    find_code(
                        old(self).stream(),
                        aligned_byte(old(self).stream_pos()),
                        START_SEQUENCE as int,
                    ).1 * 8,
                )
            }),
    {
        if self.has_sequence_header {
            return true;
        }
        if self.start_code != START_SEQUENCE {
            proof {
                lemma_find_code_progress(
                    self.buffer@.0,
                    aligned_byte(self.buffer@.1),
                    START_SEQUENCE as int,
                );
            }
            self.start_code = self.buffer.find_start_code(START_SEQUENCE);
        }
        if self.start_code == -1 {
            return false;
        }
        self.decode_sequence_header()
    }

    /// Reads a sequence header at the read position: the picture size,
    /// aspect and rate codes and the quantiser matrices, and allocates the
    /// three frames.
    fn decode_sequence_header(&mut self) -> (r: bool)
        requires
            old(self).wf(),
            !old(self).has_sequence_header,
        ensures
            final(self).wf(),
            final(self).stream() == old(self).stream(),
            final(self).stream_pos() >= old(self).stream_pos(),
            final(self).start_code == old(self).start_code,
            final(self).frames_decoded == old(self).frames_decoded,
            r == final(self).has_sequence_header,
            r == sequence_header_at(old(self).stream(), old(self).stream_pos() as int),
            r ==> final(self).width == bits_value(old(self).stream(), old(self).stream_pos() as int, 12)
                && final(self).height == bits_value(
                old(self).stream(),
                old(self).stream_pos() + 12int,
                12,
            ),
            r ==> final(self).rate_code == header_rate_code(
                old(self).stream(),
                old(self).stream_pos() as int,
            ),
            r ==> final(self).aspect_code == header_aspect_code(
                old(self).stream(),
                old(self).stream_pos() as int,
            ),
    {
        if !self.buffer.has(MAX_HEADER_BITS) {
            return false;
        }
        let ghost p = self.buffer@.1;
        let ghost bytes = self.buffer@.0;
        let w = self.buffer.read(12);
        let h = self.buffer.read(12);
        proof {
            lemma_bits_bound(bytes, p as int, 12);
            lemma_bits_bound(bytes, p + 12int, 12);
            vstd::arithmetic::power2::lemma2_to64();
        }
        self.width = w as usize;
        self.height = h as usize;
        if self.width == 0 || self.height == 0 {
            return false;
        }
        let par = self.buffer.read(4);
        proof {
            lemma_bits_bound(bytes, p + 24int, 4);
        }
        self.aspect_code = if par == 0 {
            0
        } else if par - 1 > 13 {
            13
        } else {
            (par - 1) as usize
        };
        let rate = self.buffer.read(4);
        proof {
            lemma_bits_bound(bytes, p + 28int, 4);
        }
        self.rate_code = rate as usize;
        self.buffer.skip(18 + 1 + 10 + 1);
        self.intra_quant_matrix = read_quant_matrix(&mut self.buffer, &INTRA_QUANT_MATRIX);
        self.non_intra_quant_matrix = read_quant_matrix(&mut self.buffer, &NON_INTRA_QUANT_MATRIX);
        self.mb_width = (self.width + 15) / 16;
        self.mb_height = (self.height + 15) / 16;
        proof {
            assert(self.mb_width <= 256 && self.mb_height <= 256);
            assert(self.mb_width * self.mb_height <= 65536) by (nonlinear_arith)
                requires
                    self.mb_width <= 256,
                    self.mb_height <= 256,
            ;
            assert(self.mb_width * 16 * (self.mb_height * 16) <= 4096 * 4096) by (nonlinear_arith)
                requires
                    self.mb_width <= 256,
                    self.mb_height <= 256,
            ;
        }
        self.mb_size = self.mb_width * self.mb_height;
        self.luma_width = self.mb_width * 16;
        self.luma_height = self.mb_height * 16;
        self.chroma_width = self.mb_width * 8;
        self.chroma_height = self.mb_height * 8;
        let mut frames: Vec<Frame> = Vec::new();
        let mut k: usize = 0;
        while k < 3
            invariant
                k <= 3,
                frames@.len() == k,
                0 < self.width < 4096,
                0 < self.height < 4096,
                self.mb_width == macroblocks(self.width as int),
                self.mb_height == macroblocks(self.height as int),
                self.luma_width == self.mb_width * 16,
                self.luma_height == self.mb_height * 16,
                self.chroma_width == self.mb_width * 8,
                self.chroma_height == self.mb_height * 8,
                self.mb_width * 16 * (self.mb_height * 16) <= 4096 * 4096,
                forall|i: int|
                    0 <= i < k ==> (#[trigger] frames@[i]).fits(
                        self.width as int,
                        self.height as int,
                    ),
            decreases 3 - k,
        {
            let f = self.make_frame();
            frames.push(f);
            k = k + 1;
        }
        self.frames = frames;
        self.cur = 0;
        self.fwd = 1;
        self.bwd = 2;
        self.has_sequence_header = true;
        true
    }

    fn make_frame(&self) -> (r: Frame)
        requires
            self.luma_width == self.mb_width * 16,
            self.luma_height == self.mb_height * 16,
            self.chroma_width == self.mb_width * 8,
            self.chroma_height == self.mb_height * 8,
            self.mb_width * 16 * (self.mb_height * 16) <= 4096 * 4096,
            self.mb_width == macroblocks(self.width as int),
            self.mb_height == macroblocks(self.height as int),
        ensures
            r.fits(self.width as int, self.height as int),
    {
        proof {
            assert(self.mb_width * 8 * (self.mb_height * 8) <= 4096 * 4096) by (nonlinear_arith)
                requires
                    self.mb_width * 16 * (self.mb_height * 16) <= 4096 * 4096,
            ;
        }
        Frame {
            width: self.width,
            height: self.height,
            y: zeroed_plane(self.luma_width, self.luma_height),
            cr: zeroed_plane(self.chroma_width, self.chroma_height),
            cb: zeroed_plane(self.chroma_width, self.chroma_height),
        }
    }

    /// The picture width.
    pub fn width(&self) -> (r: usize)
        ensures
            r == self.picture_width(),
    {
        self.width
    }

    /// The picture height.
    pub fn height(&self) -> (r: usize)
        ensures
            r == self.picture_height(),
    {
        self.height
    }

    /// The picture-rate code of the sequence header (an index into the
    /// standard's table of rates, 0 for none).
    pub fn picture_rate_code(&self) -> (r: usize)
        requires
            self.wf(),
        ensures
            r < 16,
            r == self.rate_code_of(),
    {
        self.rate_code
    }

    /// The pixel-aspect-ratio code of the sequence header less one, clamped
    /// to the standard's table of 14 ratios.
    pub fn aspect_ratio_code(&self) -> (r: usize)
        requires
            self.wf(),
        ensures
            r < 14,
            r == self.aspect_code_of(),
    {
        self.aspect_code
    }

    /// How many frames have been returned for display in order (a flushed
    /// last reference frame is not counted).
    pub fn frames_decoded(&self) -> (r: u64)
        ensures
            r == self.displayed_frames(),
    {
        self.frames_decoded
    }

    /// The frame at `index`, as returned by `decode`.
    pub fn frame(&self, index: usize) -> (r: &Frame)
        requires
            self.wf(),
            self.header_parsed(),
            index < 3,
        ensures
            *r == self.frame_at(index as int),
            r.fits(self.picture_width(), self.picture_height()),
    {
        &self.frames[index]
    }
}

/// A block of 64 zero coefficients.
fn zero_block() -> (r: Vec<i32>)
    ensures
        r@ == Seq::new(64, |i: int| 0i32),
{
    let mut v: Vec<i32> = Vec::new();
    let mut i: usize = 0;
    while i < 64
        invariant
            i <= 64,
            v@.len() == i,
            forall|k: int| 0 <= k < i ==> v@[k] == 0,
        decreases 64 - i,
    {
        v.push(0);
        i = i + 1;
    }
    assert(v@ =~= Seq::new(64, |i: int| 0i32));
    v
}

/// A quantiser matrix: 64 values in zig-zag order when the flag bit is set,
/// else `default`.
fn read_quant_matrix(buffer: &mut Buffer, default: &[u8; 64]) -> (m: Vec<u8>)
    requires
        old(buffer).wf(),
    ensures
        final(buffer).wf(),
        final(buffer)@.0 == old(buffer)@.0,
        final(buffer)@.1 >= old(buffer)@.1,
        m@.len() == 64,
{
    proof {
        lemma_video_tables();
    }
    let mut m = zeroed_plane(64, 1).data;
    if buffer.read(1) != 0 {
        let mut i: usize = 0;
        while i < 64
            invariant
                buffer.wf(),
                buffer@.0 == old(buffer)@.0,
                buffer@.1 >= old(buffer)@.1,
                m@.len() == 64,
                forall|k: int| 0 <= k < 64 ==> #[trigger] ZIG_ZAG@[k] < 64,
            decreases 64 - i,
        {
            let ghost q = buffer@.1;
            let v = buffer.read(8);
            proof {
                lemma_bits_bound(buffer@.0, q as int, 8);
                vstd::arithmetic::power2::lemma2_to64();
            }
            m.set(ZIG_ZAG[i], v as u8);
            i = i + 1;
        }
    } else {
        let mut i: usize = 0;
        while i < 64
            invariant
                m@.len() == 64,
            decreases 64 - i,
        {
            m.set(i, default[i]);
            i = i + 1;
        }
    }
    m
}

// ---------------------------------------------------------------------------
// Coefficients and motion vectors.
// ---------------------------------------------------------------------------

/// `2^k` for a small `k`.
fn pow2_i32(k: i32) -> (r: i32)
    requires
        0 <= k <= 8,
    ensures
        r == pow2(k as nat),
        1 <= r <= 256,
{
    let mut r: i32 = 1;
    let mut i: i32 = 0;
    proof {
        lemma2_to64();
    }
    while i < k
        invariant
            0 <= i <= k <= 8,
            r == pow2(i as nat),
            1 <= r <= pow2(8),
            pow2(8) == 256,
        decreases k - i,
    {
        proof {
            lemma_pow2_unfold((i + 1) as nat);
            if i + 1 < 8 {
                vstd::arithmetic::power2::lemma_pow2_strictly_increases((i + 1) as nat, 8);
            }
        }
        if i + 1 == 8 {
            assert(pow2(8) == 256);
        }
        r = r * 2;
        i = i + 1;
    }
    r
}

/// `a + b` for a non-negative `b`, held at `i32::MAX`.
fn saturating_add_i32(a: i32, b: i32) -> (r: i32)
    requires
        b >= 0,
    ensures
        r == if a + b > i32::MAX { i32::MAX as int } else { a + b },
{
    if a > i32::MAX - b {
        i32::MAX
    } else {
        a + b
    }
}

/// The signed DC differential coded in `size` bits as `bits`: values with
/// the top bit clear are negative.
pub open spec fn dc_differential(size: int, bits: int) -> int {
    if bits >= pow2((size - 1) as nat) {
        bits
    } else {
        bits + 1 - pow2(size as nat)
    }
}

fn dc_differential_exec(size: i32, bits: i32) -> (r: i32)
    requires
        1 <= size <= 8,
        0 <= bits < pow2(size as nat),
    ensures
        r == dc_differential(size as int, bits as int),
        -256 <= r <= 255,
{
    let half = pow2_i32(size - 1);
    let full = pow2_i32(size);
    proof {
        lemma_pow2_unfold(size as nat);
    }
    if bits >= half {
        bits
    } else {
        bits + 1 - full
    }
}

/// A coefficient level dequantised with `scale` and the matrix entry `q`:
/// doubled (and moved away from zero by one in non-intra blocks), scaled,
/// made odd towards zero, and clamped to -2048..=2047.
pub open spec fn dequantized(level: int, intra: bool, scale: int, q: int) -> int {
    let doubled = level * 2 + (if intra {
        0
    } else if level < 0 {
        -1
    } else {
        1
    });
    let scaled = ((doubled * scale * q) as i32 >> 4u32) as int;
    let odd = if scaled % 2 == 0 {
        scaled - (if scaled > 0 {
            1int
        } else {
            -1
        })
    } else {
        scaled
    };
    if odd < -2048 {
        -2048
    } else if odd > 2047 {
        2047
    } else {
        odd
    }
}

fn dequantize(level: i32, intra: bool, scale: i32, q: u8) -> (r: i32)
    requires
        -256 <= level <= 256,
        0 <= scale <= 31,
    ensures
        r == dequantized(level as int, intra, scale as int, q as int),
        -2048 <= r <= 2047,
{
    let mut l: i32 = level * 2;
    if !intra {
        l = l + if l < 0 {
            -1
        } else {
            1
        };
    }
    proof {
        assert(-513 * 31 <= l * scale <= 513 * 31) by (nonlinear_arith)
            requires
                -513 <= l <= 513,
                0 <= scale <= 31,
        ;
        assert(-513 * 31 * 255 <= l * scale * q <= 513 * 31 * 255) by (nonlinear_arith)
            requires
                -513 <= l <= 513,
                0 <= scale <= 31,
                0 <= q <= 255,
        ;
    }
    let scaled: i32 = (l * scale * q as i32) >> 4u32;
    let parity = scaled & 1;
    proof {
        assert((parity == 0) == (scaled % 2 == 0)) by (bit_vector)
            requires
                parity == scaled & 1,
        ;
    }
    let mut odd = scaled;
    if parity == 0 {
        odd = odd - if odd > 0 {
            1
        } else {
            -1
        };
    }
    if odd < -2048 {
        -2048
    } else if odd > 2047 {
        2047
    } else {
        odd
    }
}

/// The DC value of an intra block whose size code starts at `pos`, with
/// the plane's predictor `predictor`; and the position after it.
pub open spec fn dc_read(bytes: Seq<u8>, pos: nat, luma: bool, predictor: i32) -> (i32, nat) {
    let table = if luma {
        DCT_SIZE_LUMINANCE@
    } else {
        DCT_SIZE_CHROMINANCE@
    };
    let (size, p1) = vlc_decode(table, bytes, pos, 0);
    if size > 0 {
        let bits = bits_or_zero(bytes, p1, size as nat);
        (
            predictor.wrapping_add(dc_differential(size as int, bits as int) as i32),
            bits_after(bytes.len(), p1, size as nat),
        )
    } else {
        (predictor, p1)
    }
}

/// The level of an escaped coefficient whose level bits start at `pos`,
/// and the position after it.
pub open spec fn escape_level(bytes: Seq<u8>, pos: nat) -> (int, nat) {
    let l8 = bits_or_zero(bytes, pos, 8);
    let p = bits_after(bytes.len(), pos, 8);
    if l8 == 0 {
        (bits_or_zero(bytes, p, 8) as int, bits_after(bytes.len(), p, 8))
    } else if l8 == 128 {
        (bits_or_zero(bytes, p, 8) - 256, bits_after(bytes.len(), p, 8))
    } else if l8 > 128 {
        (l8 - 256, p)
    } else {
        (l8 as int, p)
    }
}

/// The run and level of the coefficient code `coeff` whose remaining bits
/// start at `pos`, and the position after them.
pub open spec fn run_level(bytes: Seq<u8>, coeff: u16, pos: nat) -> (int, int, nat) {
    if coeff == 0xffff {
        let run = bits_or_zero(bytes, pos, 6);
        let (level, p) = escape_level(bytes, bits_after(bytes.len(), pos, 6));
        (run as int, level, p)
    } else {
        let level = coeff % 256;
        let sign = bits_or_zero(bytes, pos, 1);
        ((coeff / 256) as int, if sign != 0 {
            -level
        } else {
            level as int
        }, bits_after(bytes.len(), pos, 1))
    }
}

/// The run-level coefficients read from `pos` into block `b`, of which `n`
/// are placed: the block, the position after them, the count placed, and
/// whether a run went past the last coefficient, which abandons the block.
pub open spec fn coefficients_read(
    bytes: Seq<u8>,
    pos: nat,
    n: int,
    b: Seq<i32>,
    intra: bool,
    quant: Seq<u8>,
    scale: int,
) -> (Seq<i32>, nat, int, bool)
    decreases 64 - n,
{
    let (coeff, p1) = vlc_decode(DCT_COEFF@, bytes, pos, 0);
    let ends = coeff == 1 && n > 0;
    if ends && bits_or_zero(bytes, p1, 1) == 0 {
        (b, bits_after(bytes.len(), p1, 1), n, false)
    } else {
        let p2 = if ends {
            bits_after(bytes.len(), p1, 1)
        } else {
            p1
        };
        let (run, level, p3) = run_level(bytes, coeff, p2);
        let m = n + run;
        if m >= 64 {
            (b, p3, m, true)
        } else {
            let dz = ZIG_ZAG@[m];
            let v = dequantized(level, intra, scale, quant[dz as int] as int)
                * PREMULTIPLIER_MATRIX@[dz as int];
            coefficients_read(bytes, p3, m + 1, b.update(dz as int, v as i32), intra, quant, scale)
        }
    }
}

/// How the pixels of a block are set from its coefficients: directly for
/// intra blocks, added for predicted ones; from the DC value alone where
/// `dc_only`.
pub open spec fn block_fill(intra: bool, dc_only: bool, s0: i32) -> BlockFill {
    if intra {
        if dc_only {
            BlockFill::Const(clamp_u8((s0.wrapping_add(128) >> 8u32) as int))
        } else {
            BlockFill::Overwrite
        }
    } else if dc_only {
        BlockFill::AddConst(s0.wrapping_add(128) >> 8u32)
    } else {
        BlockFill::Add
    }
}

/// The plane (as `plane_of` counts them) that block `block` of a
/// macroblock lies in.
pub open spec fn block_plane(block: int) -> int {
    if block < 4 {
        0
    } else if block == 4 {
        2
    } else {
        1
    }
}

/// A motion vector component moved by `delta` and wrapped back into the
/// range of `32 * fscale` values around zero.
pub open spec fn wrap_motion(m: int, fscale: int) -> int {
    if m > fscale * 16 - 1 {
        m - fscale * 32
    } else if m < -(fscale * 16) {
        m + fscale * 32
    } else {
        m
    }
}

/// The change coded by the motion code `m_code` and the `r_size`
/// residual bits `r`.
pub open spec fn motion_delta(m_code: int, r: int, fscale: int) -> int {
    if m_code != 0 && fscale != 1 {
        let d = ((if m_code < 0 {
            -m_code
        } else {
            m_code
        }) - 1) * fscale + r + 1;
        if m_code < 0 {
            -d
        } else {
            d
        }
    } else {
        m_code
    }
}

/// A motion vector component `motion` moved by the motion code and
/// residual read at bit `pos` with range `r_size`, and the position after
/// them.
pub open spec fn motion_read(bytes: Seq<u8>, pos: nat, r_size: int, motion: int) -> (int, nat) {
    let (m_code, p1) = vlc_decode(MOTION@, bytes, pos, 0);
    let fscale = pow2(r_size as nat) as int;
    let with_res = m_code != 0 && fscale != 1;
    let res = if with_res {
        bits_or_zero(bytes, p1, r_size as nat)
    } else {
        0
    };
    let end = if with_res {
        bits_after(bytes.len(), p1, r_size as nat)
    } else {
        p1
    };
    (wrap_motion(motion + motion_delta(m_code as int, res as int, fscale), fscale), end)
}

/// Reads a motion code and residual and applies them to the component
/// `motion`.
fn decode_motion_vector(buffer: &mut Buffer, r_size: i32, motion: i32) -> (r: i32)
    requires
        old(buffer).wf(),
        0 <= r_size <= 6,
        -1024 <= motion <= 1024,
    ensures
        final(buffer).wf(),
        final(buffer)@.0 == old(buffer)@.0,
        final(buffer)@.1 >= old(buffer)@.1,
        -1024 <= r <= 1024,
        (r as int, final(buffer)@.1) == motion_read(
            old(buffer)@.0,
            old(buffer)@.1,
            r_size as int,
            motion as int,
        ),
{
    proof {
        lemma_video_tables();
        lemma_vlc_value_bounds(MOTION@, buffer@.0, buffer@.1, 0, -16, 16);
        lemma_vlc_progress(MOTION@, buffer@.0, buffer@.1, 0);
    }
    let fscale = pow2_i32(r_size);
    let m_code = buffer.read_vlc(&MOTION) as i32;
    let d: i32 = if m_code != 0 && fscale != 1 {
        let ghost p1 = buffer@.1;
        let res = buffer.read(r_size as usize);
        proof {
            lemma_bits_bound(buffer@.0, p1 as int, r_size as nat);
            vstd::arithmetic::power2::lemma_pow2_strictly_increases(r_size as nat, 31);
            lemma2_to64();
        }
        let r = res as i32;
        let a = if m_code < 0 {
            -m_code
        } else {
            m_code
        };
        proof {
            assert((a - 1) * fscale <= 15 * fscale) by (nonlinear_arith)
                requires
                    1 <= a <= 16,
                    fscale >= 1,
            ;
        }
        let dd = (a - 1) * fscale + r + 1;
        if m_code < 0 {
            -dd
        } else {
            dd
        }
    } else {
        m_code
    };
    let m = motion + d;
    if m > fscale * 16 - 1 {
        m - fscale * 32
    } else if m < -(fscale * 16) {
        m + fscale * 32
    } else {
        m
    }
}

/// A motion vector component halved towards zero, for the chroma planes.
pub open spec fn halved(v: i32) -> i32 {
    (if v < 0 {
        -((-v) / 2)
    } else {
        v / 2
    }) as i32
}

/// Plane `k` of a frame: 0 luma, 1 Cr, 2 Cb.
pub open spec fn plane_of(f: Frame, k: int) -> Seq<u8> {
    if k == 0 {
        f.y.data@
    } else if k == 1 {
        f.cr.data@
    } else {
        f.cb.data@
    }
}

/// Plane `k` holding `base`, with the macroblock at `mb_row`, `mb_col`
/// predicted from the same plane of `src` by the vector `mh`, `mv`.
pub open spec fn predicted_component(
    src: Frame,
    base: Seq<u8>,
    k: int,
    mb_row: int,
    mb_col: int,
    mb_width: int,
    mb_height: int,
    mh: i32,
    mv: i32,
    interpolate: bool,
) -> Seq<u8> {
    if k == 0 {
        predicted_plane(plane_of(src, 0), base, mb_row, mb_col, mb_width, mb_height, mh, mv, 16, interpolate)
    } else {
        predicted_plane(
            plane_of(src, k),
            base,
            mb_row,
            mb_col,
            mb_width,
            mb_height,
            halved(mh),
            halved(mv),
            8,
            interpolate,
        )
    }
}

/// The motion vectors after reading those the flags of `fw` and `bw`
/// announce at bit `pos` (a predicted picture without a forward vector
/// resets it): forward h and v, backward h and v, and the position after.
spec fn motion_vectors_read(bytes: Seq<u8>, pos: nat, fw: Motion, bw: Motion, picture_type: int) -> (
    int,
    int,
    int,
    int,
    nat,
) {
    let (fh, p1) = motion_read(bytes, pos, fw.r_size as int, fw.h as int);
    let (fv, p2) = motion_read(bytes, p1, fw.r_size as int, fw.v as int);
    let (fwh, fwv, q) = if fw.is_set {
        (fh, fv, p2)
    } else if picture_type == PICTURE_TYPE_PREDICTIVE {
        (0, 0, pos)
    } else {
        (fw.h as int, fw.v as int, pos)
    };
    let (bh, q1) = motion_read(bytes, q, bw.r_size as int, bw.h as int);
    let (bv, q2) = motion_read(bytes, q1, bw.r_size as int, bw.v as int);
    if bw.is_set {
        (fwh, fwv, bh, bv, q2)
    } else {
        (fwh, fwv, bw.h as int, bw.v as int, q)
    }
}

fn half_toward_zero(v: i32) -> (r: i32)
    requires
        -4096 <= v <= 4096,
    ensures
        r == if v < 0 { -((-v) / 2) } else { v / 2 },
        -2048 <= r <= 2048,
{
    if v < 0 {
        -((-v) / 2)
    } else {
        v / 2
    }
}

// ---------------------------------------------------------------------------
// Decoding pictures, slices, macroblocks and blocks.
// ---------------------------------------------------------------------------

/// Where block `block` (0 to 3 luma, 4 and 5 chroma) of the macroblock at
/// `mb_row`, `mb_col` starts in its plane, and that plane's width.
pub open spec fn block_start(mb_row: int, mb_col: int, mb_width: int, block: int) -> (int, int) {
    let lw = mb_width * 16;
    if block < 4 {
        (
            (mb_row * lw + mb_col) * 16 + (if block == 1 || block == 3 {
                8int
            } else {
                0
            }) + (if block >= 2 {
                lw * 8
            } else {
                0
            }),
            lw,
        )
    } else {
        (mb_row * lw * 4 + mb_col * 8, mb_width * 8)
    }
}

/// The block fits in its plane.
proof fn lemma_block_fits(mb_row: int, mb_col: int, mb_width: int, mb_height: int, block: int)
    requires
        0 <= mb_row < mb_height <= 256,
        0 <= mb_col < mb_width <= 256,
        0 <= block < 6,
    ensures
        ({
            let (di, dw) = block_start(mb_row, mb_col, mb_width, block);
            let len = if block < 4 {
                mb_width * 16 * (mb_height * 16)
            } else {
                mb_width * 8 * (mb_height * 8)
            };
            &&& 0 <= di
            &&& dw >= 8
            &&& di + 7 * dw + 8 <= len
            &&& di + 8 * dw <= 4096 * 4096 * 2
        }),
{
    let lw = mb_width * 16;
    let cw = mb_width * 8;
    if block < 4 {
        assert(((mb_row * lw + mb_col) * 16 + 8 + lw * 8) + 7 * lw + 8 <= lw * (mb_height * 16))
            by (nonlinear_arith)
            requires
                0 <= mb_row < mb_height,
                0 <= mb_col < mb_width,
                lw == mb_width * 16,
        ;
        assert(0 <= (mb_row * lw + mb_col) * 16) by (nonlinear_arith)
            requires
                0 <= mb_row,
                0 <= mb_col,
                0 <= lw,
        ;
        assert(((mb_row * lw + mb_col) * 16 + 8 + lw * 8) + 8 * lw <= 4096 * 4096 * 2)
            by (nonlinear_arith)
            requires
                0 <= mb_row < 256,
                0 <= mb_col < 256,
                lw == mb_width * 16,
                mb_width <= 256,
        ;
        assert(mb_width * 16 * (mb_height * 16) == lw * (mb_height * 16));
    } else {
        assert(mb_row * lw * 4 + mb_col * 8 + 7 * cw + 8 <= cw * (mb_height * 8))
            by (nonlinear_arith)
            requires
                0 <= mb_row < mb_height,
                0 <= mb_col < mb_width,
                lw == mb_width * 16,
                cw == mb_width * 8,
        ;
        assert(0 <= mb_row * lw * 4) by (nonlinear_arith)
            requires
                0 <= mb_row,
                0 <= lw,
        ;
        assert(mb_row * lw * 4 + mb_col * 8 + 8 * cw <= 4096 * 4096 * 2) by (nonlinear_arith)
            requires
                0 <= mb_row < 256,
                0 <= mb_col < 256,
                lw == mb_width * 16,
                cw == mb_width * 8,
                mb_width <= 256,
        ;
    }
}

/// `n` macroblocks skipped over, one after the other, from `a` to `z`.
spec fn skipped_n(a: Video, z: Video, n: int) -> bool
    decreases n,
{
    if n <= 0 {
        z == a
    } else {
        exists|m: Video| #![trigger m.skipped_one(&a)] m.skipped_one(&a) && skipped_n(m, z, n - 1)
    }
}

/// `n` macroblocks decoded one after the other from `a` to `z`, each while
/// the slice has not ended.
spec fn macroblocks_run(a: Video, z: Video, n: nat) -> bool
    decreases n,
{
    if n == 0 {
        z == a
    } else {
        exists|y: Video|
            #![trigger z.macroblock_decoded(&y)]
            macroblocks_run(a, y, (n - 1) as nat) && !y.slice_ended() && z.macroblock_decoded(&y)
    }
}

/// The position after a slice's extra information at bit `pos`: while a
/// 1 bit is read, a byte of it follows.
spec fn extra_info_end(bytes: Seq<u8>, pos: nat) -> nat
    decreases usize::MAX - pos,
{
    let p1 = bits_after(bytes.len(), pos, 1);
    if bits_or_zero(bytes, pos, 1) == 0 {
        p1
    } else {
        let p2 = bits_after(bytes.len(), p1, 8);
        if pos < p2 <= usize::MAX {
            extra_info_end(bytes, p2)
        } else {
            p2
        }
    }
}

/// The picture header at the decoder's position (after the picture start
/// code): the coding type, the forward and backward motion setups (full
/// pixel flag and range), the position where reading stopped, and whether
/// the picture is decoded (a type 1 to 3 with non-zero range codes).
spec fn picture_header(old: Video) -> (i32, Motion, Motion, nat, bool) {
    let bytes = old.buffer@.0;
    let len = bytes.len();
    let p1 = bits_after(len, old.buffer@.1, 10);
    let t = bits_or_zero(bytes, p1, 3) as i32;
    let p2 = bits_after(len, bits_after(len, p1, 3), 16);
    if t <= 0 || t > PICTURE_TYPE_B {
        (t, old.motion_forward, old.motion_backward, p2, false)
    } else if t == PICTURE_TYPE_INTRA {
        (t, old.motion_forward, old.motion_backward, p2, true)
    } else {
        let full1 = bits_or_zero(bytes, p2, 1) != 0;
        let p3 = bits_after(len, p2, 1);
        let f1 = bits_or_zero(bytes, p3, 3);
        let p4 = bits_after(len, p3, 3);
        if f1 == 0 {
            (t, Motion { full_px: full1, ..old.motion_forward }, old.motion_backward, p4, false)
        } else {
            let fw = Motion { full_px: full1, r_size: (f1 - 1) as i32, ..old.motion_forward };
            if t == PICTURE_TYPE_PREDICTIVE {
                (t, fw, old.motion_backward, p4, true)
            } else {
                let full2 = bits_or_zero(bytes, p4, 1) != 0;
                let p5 = bits_after(len, p4, 1);
                let f2 = bits_or_zero(bytes, p5, 3);
                let p6 = bits_after(len, p5, 3);
                if f2 == 0 {
                    (t, fw, Motion { full_px: full2, ..old.motion_backward }, p6, false)
                } else {
                    (t, fw, Motion { full_px: full2, r_size: (f2 - 1) as i32, ..old.motion_backward }, p6, true)
                }
            }
        }
    }
}

/// The first start code from bit `pos` on that is neither an extension
/// nor user data, and the position after it.
spec fn after_extensions(bytes: Seq<u8>, pos: nat) -> (int, nat)
    decreases usize::MAX - pos,
{
    let (c, q) = next_code(bytes, aligned_byte(pos));
    let p = (q * 8) as nat;
    if (c == START_EXTENSION || c == START_USER_DATA) && pos < p <= usize::MAX {
        after_extensions(bytes, p)
    } else {
        (c, p)
    }
}

/// `n` slices decoded one after the other from `a` to `z`, each followed
/// by the next start code.
spec fn slice_rounds(a: Video, z: Video, n: nat) -> bool
    decreases n,
{
    if n == 0 {
        z == a
    } else {
        exists|y: Video|
            #![trigger z.slice_round(&y)]
            slice_rounds(a, y, (n - 1) as nat) && is_slice_code(y.start_code as int) && z.slice_round(&y)
    }
}

/// Blocks `block` to 5 of the current macroblock, those that the coded
/// block pattern `cbp` names, decoded one after the other from `a` to `z`.
spec fn blocks_decoded(a: Video, z: Video, cbp: i32, block: int) -> bool
    decreases 6 - block,
{
    if block >= 6 {
        z == a
    } else if (cbp & (0x20i32 >> (block as u32))) != 0 {
        exists|m: Video|
            #![trigger m.block_decoded(&a, block)]
            m.decoding() && m.continues(&a) && m.same_macroblock(&a) && m.block_decoded(&a, block)
                && blocks_decoded(m, z, cbp, block + 1)
    } else {
        blocks_decoded(a, z, cbp, block + 1)
    }
}

impl Video {
    /// In the middle of a picture: the header has been read, and the
    /// current frame is neither reference.
    spec fn decoding(&self) -> bool {
        &&& self.wf_core()
        &&& self.has_sequence_header
    }

    /// `self` carries on from `old`: the same stream, read no less far,
    /// the same picture setup and frame roles.
    spec fn continues(&self, old: &Video) -> bool {
        &&& self.buffer@.0 == old.buffer@.0
        &&& self.buffer@.1 >= old.buffer@.1
        &&& self.has_sequence_header == old.has_sequence_header
        &&& self.width == old.width
        &&& self.height == old.height
        &&& self.mb_width == old.mb_width
        &&& self.mb_height == old.mb_height
        &&& self.mb_size == old.mb_size
        &&& self.luma_width == old.luma_width
        &&& self.chroma_width == old.chroma_width
        &&& self.cur == old.cur
        &&& self.fwd == old.fwd
        &&& self.bwd == old.bwd
        &&& self.picture_type == old.picture_type
        &&& self.has_reference_frame == old.has_reference_frame
        &&& self.assume_no_b_frames == old.assume_no_b_frames
        &&& self.frames_decoded == old.frames_decoded
        &&& self.start_code == old.start_code
        &&& self.intra_quant_matrix == old.intra_quant_matrix
        &&& self.non_intra_quant_matrix == old.non_intra_quant_matrix
        &&& forall|i: int|
            0 <= i < 3 && i != old.cur ==> #[trigger] self.frames@[i] == old.frames@[i]
    }

    /// The macroblock-level state a block decode leaves alone.
    spec fn same_macroblock(&self, old: &Video) -> bool {
        &&& self.mb_row == old.mb_row
        &&& self.mb_col == old.mb_col
        &&& self.macroblock_intra == old.macroblock_intra
        &&& self.macroblock_type == old.macroblock_type
        &&& self.macroblock_address == old.macroblock_address
        &&& self.slice_begin == old.slice_begin
        &&& self.motion_forward == old.motion_forward
        &&& self.motion_backward == old.motion_backward
        &&& self.quantizer_scale == old.quantizer_scale
    }

    /// `self` is `old` with its macroblock type, and the quantiser scale
    /// the type asks for, read.
    spec fn type_read(&self, old: &Video) -> bool {
        let (t, intra, fw, bw, scale, p2) = macroblock_header_read(*old);
        &&& self.decoding()
        &&& self.continues(old)
        &&& self.mb_row == old.mb_row
        &&& self.mb_col == old.mb_col
        &&& self.macroblock_address == old.macroblock_address
        &&& self.slice_begin == old.slice_begin
        &&& self.dc_predictor == old.dc_predictor
        &&& self.block_data == old.block_data
        &&& self.frames == old.frames
        &&& self.macroblock_type == t
        &&& self.macroblock_intra == intra
        &&& self.motion_forward == fw
        &&& self.motion_backward == bw
        &&& self.quantizer_scale == scale
        &&& self.buffer@.1 == p2
    }

    /// `self` is `old` with the macroblock's motion vectors read.
    spec fn vectors_read(&self, old: &Video) -> bool {
        let (fwh, fwv, bwh, bwv, end) = motion_vectors_read(
            old.buffer@.0,
            old.buffer@.1,
            old.motion_forward,
            old.motion_backward,
            old.picture_type as int,
        );
        &&& self.decoding()
        &&& self.continues(old)
        &&& self.dc_predictor == old.dc_predictor
        &&& self.block_data == old.block_data
        &&& self.frames == old.frames
        &&& self.mb_row == old.mb_row
        &&& self.mb_col == old.mb_col
        &&& self.macroblock_intra == old.macroblock_intra
        &&& self.macroblock_type == old.macroblock_type
        &&& self.macroblock_address == old.macroblock_address
        &&& self.slice_begin == old.slice_begin
        &&& self.quantizer_scale == old.quantizer_scale
        &&& self.motion_forward == Motion { h: fwh as i32, v: fwv as i32, ..old.motion_forward }
        &&& self.motion_backward == Motion { h: bwh as i32, v: bwv as i32, ..old.motion_backward }
        &&& self.buffer@.1 == end
    }

    /// `self` is `old` with its current macroblock predicted from the
    /// reference frames.
    spec fn predicted(&self, old: &Video) -> bool {
        &&& self.decoding()
        &&& self.continues(old)
        &&& self.same_macroblock(old)
        &&& self.buffer == old.buffer
        &&& self.dc_predictor == old.dc_predictor
        &&& self.block_data == old.block_data
        &&& forall|i: int| 0 <= i < 3 && i != old.cur ==> #[trigger] self.frames@[i] == old.frames@[i]
        &&& forall|k: int|
            0 <= k < 3 ==> #[trigger] plane_of(self.frames@[old.cur as int], k) == old.predicted_macroblock(k)
    }

    /// `self` is `old` after the motion part of a macroblock: the vectors
    /// zeroed for an intra one; else the DC predictors reset, the vectors
    /// read and the macroblock predicted.
    spec fn motion_done(&self, old: &Video) -> bool {
        if old.macroblock_intra {
            *self == (Video {
                motion_forward: Motion { h: 0, v: 0, ..old.motion_forward },
                motion_backward: Motion { h: 0, v: 0, ..old.motion_backward },
                ..*old
            })
        } else {
            exists|r: Video, m: Video|
                #![trigger r.dc_predictor, m.buffer]
                r == (Video { dc_predictor: r.dc_predictor, ..*old }) && r.dc_predictor@ == seq![
                    128i32,
                    128i32,
                    128i32,
                ] && m.vectors_read(&r) && self.predicted(&m)
        }
    }

    /// `self` is `old` with the coded block pattern `cbp` read: from the
    /// stream when the macroblock type says so, else all blocks for an
    /// intra macroblock and none for another.
    spec fn pattern_read(&self, old: &Video, cbp: i32) -> bool {
        if (old.macroblock_type & 0x02) != 0 {
            let (c, p) = vlc_decode(CODE_BLOCK_PATTERN@, old.buffer@.0, old.buffer@.1, 0);
            &&& cbp == c as i32
            &&& *self == (Video { buffer: self.buffer, ..*old })
            &&& self.buffer@ == (old.buffer@.0, p)
            &&& self.decoding()
        } else {
            &&& cbp == (if old.macroblock_intra {
                0x3fi32
            } else {
                0i32
            })
            &&& *self == *old
        }
    }

    /// `self` is `old` with its current macroblock decoded: the type, the
    /// motion part, the coded block pattern, then each coded block.
    #[verifier::opaque]
    spec fn contents_decoded(&self, old: &Video) -> bool {
        exists|v1: Video, v2: Video, v3: Video, cbp: i32|
            #![trigger v1.buffer, v2.buffer, v3.buffer, blocks_decoded(v3, *self, cbp, 0)]
            v1.type_read(old) && v2.motion_done(&v1) && v3.pattern_read(&v2, cbp) && blocks_decoded(
                v3,
                *self,
                cbp,
                0,
            )
    }

    /// `self` is `old` moved on to the next macroblock, which is predicted
    /// from the reference frames.
    spec fn skipped_one(&self, old: &Video) -> bool {
        exists|q: Video|
            #![trigger q.buffer]
            q == (Video {
                macroblock_address: (old.macroblock_address + 1) as i32,
                mb_row: (((old.macroblock_address + 1) as usize) / old.mb_width) as usize,
                mb_col: (((old.macroblock_address + 1) as usize) % old.mb_width) as usize,
                ..*old
            }) && self.predicted(&q)
    }

    /// `self` is `old` after skipping over `increment` macroblocks: past
    /// one, the DC predictors reset (and in predicted pictures the forward
    /// vector); each macroblock skipped predicted; the address moved on.
    #[verifier::opaque]
    spec fn skip_done(&self, old: &Video, increment: i32) -> bool {
        exists|s: Video, z: Video|
            #![trigger s.buffer, z.buffer]
            (if increment > 1 {
                s == (Video {
                    dc_predictor: s.dc_predictor,
                    motion_forward: if old.picture_type == PICTURE_TYPE_PREDICTIVE {
                        Motion { h: 0, v: 0, ..old.motion_forward }
                    } else {
                        old.motion_forward
                    },
                    ..*old
                }) && s.dc_predictor@ == seq![128i32, 128i32, 128i32]
            } else {
                s == *old
            }) && skipped_n(s, z, increment - 1) && *self == (Video {
                macroblock_address: (z.macroblock_address + 1) as i32,
                ..z
            })
    }

    /// The steps of `macroblock_decoded` through the states `a1` (the
    /// increment read), `a2` (the address moved on) and `a3` (the
    /// macroblock placed).
    spec fn macroblock_steps(&self, old: &Video, a1: Video, a2: Video, a3: Video) -> bool {
        let (inc, p) = address_increment_read(old.buffer@.0, old.buffer@.1);
        &&& a1 == (Video { buffer: a1.buffer, ..*old })
        &&& a1.buffer@ == (old.buffer@.0, p)
        &&& if !old.slice_begin && old.macroblock_address + inc >= old.mb_size {
            *self == a1
        } else {
            &&& if old.slice_begin {
                a2 == (Video {
                    slice_begin: false,
                    macroblock_address: held_sum(old.macroblock_address as int, inc) as i32,
                    ..a1
                })
            } else {
                a2.skip_done(&a1, inc as i32)
            }
            &&& if a2.macroblock_address < 0 {
                *self == a2
            } else {
                &&& a3 == (Video {
                    mb_row: ((a2.macroblock_address as usize) / a2.mb_width) as usize,
                    mb_col: ((a2.macroblock_address as usize) % a2.mb_width) as usize,
                    ..a2
                })
                &&& if a3.mb_col >= a3.mb_width || a3.mb_row >= a3.mb_height {
                    *self == a3
                } else {
                    self.contents_decoded(&a3)
                }
            }
        }
    }

    /// `self` is `old` with the next macroblock of the slice decoded: the
    /// address increment read; at the start of a slice the address moved
    /// on by it, else the macroblocks in between skipped over (nothing
    /// more when that passes the picture's end); then, for an address in
    /// the picture, the macroblock placed and its contents decoded.
    #[verifier::opaque]
    spec fn macroblock_decoded(&self, old: &Video) -> bool {
        exists|a1: Video, a2: Video, a3: Video|
            #![trigger self.macroblock_steps(old, a1, a2, a3)]
            self.macroblock_steps(old, a1, a2, a3)
    }

    /// What decoding block `block` of the current macroblock of `old`
    /// leaves in `self`: the DC predictor moved on (intra), the
    /// coefficients read, and either the block abandoned with its
    /// coefficients kept, or its pixels set and the coefficients cleared.
    spec fn block_decoded(&self, old: &Video, block: int) -> bool {
        let intra = old.macroblock_intra;
        let bytes = old.buffer@.0;
        let pi = if block > 3 {
            block - 3
        } else {
            0
        };
        let (dc, p0) = dc_read(bytes, old.buffer@.1, block < 4, old.dc_predictor@[pi]);
        let b0 = if intra {
            old.block_data@.update(0, dc.wrapping_shl(8))
        } else {
            old.block_data@
        };
        let quant = if intra {
            old.intra_quant_matrix@
        } else {
            old.non_intra_quant_matrix@
        };
        let (b, p, n, abandoned) = coefficients_read(
            bytes,
            if intra {
                p0
            } else {
                old.buffer@.1
            },
            if intra {
                1
            } else {
                0
            },
            b0,
            intra,
            quant,
            old.quantizer_scale as int,
        );
        let coefficients = if n == 1 {
            b
        } else {
            idct_block(b)
        };
        let fill = block_fill(intra, n == 1, b[0]);
        let (di, dw) = block_start(old.mb_row as int, old.mb_col as int, old.mb_width as int, block);
        let cur = old.cur as int;
        &&& self.dc_predictor@ == if intra {
            old.dc_predictor@.update(pi, dc)
        } else {
            old.dc_predictor@
        }
        &&& self.buffer@.1 == p
        &&& abandoned ==> self.block_data@ == b && self.frames@ == old.frames@
        &&& !abandoned ==> self.block_data@ == Seq::new(64, |i: int| 0i32)
        &&& !abandoned ==> forall|k: int|
            0 <= k < 3 ==> #[trigger] plane_of(self.frames@[cur], k) == if k == block_plane(block) {
                block_image(
                    plane_of(old.frames@[cur], k),
                    di,
                    dw,
                    8,
                    |y: int, x: int, o: u8| fill_value(fill, coefficients, y, x, o),
                )
            } else {
                plane_of(old.frames@[cur], k)
            }
    }

    /// Decodes block `block` of the current macroblock: the DC prediction
    /// of intra blocks, the run-level coefficients, dequantisation and the
    /// inverse DCT; then sets (intra) or adds to (predicted) the pixels of
    /// the current frame. A run past the 64th coefficient abandons the
    /// block and leaves its coefficients for the next one.
    #[verifier::spinoff_prover]
    #[verifier::rlimit(100)]
    fn decode_block(&mut self, block: usize)
        requires
            old(self).decoding(),
            old(self).mb_row < old(self).mb_height,
            old(self).mb_col < old(self).mb_width,
            block < 6,
        ensures
            final(self).decoding(),
            final(self).continues(old(self)),
            final(self).same_macroblock(old(self)),
            final(self).block_decoded(old(self), block as int),
    {
        proof {
            lemma_video_tables();
        }
        let ghost before = *self;
        let ghost bytes = self.buffer@.0;
        let mut n: usize = 0;
        let intra = self.macroblock_intra;
        let ghost pi: int = if block > 3 {
            block - 3
        } else {
            0
        };
        let ghost dcr = dc_read(bytes, self.buffer@.1, block < 4, self.dc_predictor@[pi]);
        if intra {
            let plane_index: usize = if block > 3 {
                block - 3
            } else {
                0
            };
            let predictor = self.dc_predictor[plane_index];
            proof {
                if plane_index == 0 {
                    lemma_vlc_value_bounds(DCT_SIZE_LUMINANCE@, self.buffer@.0, self.buffer@.1, 0, 0, 8);
                } else {
                    lemma_vlc_value_bounds(DCT_SIZE_CHROMINANCE@, self.buffer@.0, self.buffer@.1, 0, 0, 8);
                }
                lemma_vlc_progress(DCT_SIZE_LUMINANCE@, self.buffer@.0, self.buffer@.1, 0);
                lemma_vlc_progress(DCT_SIZE_CHROMINANCE@, self.buffer@.0, self.buffer@.1, 0);
            }
            let size16 = if plane_index == 0 {
                self.buffer.read_vlc(&DCT_SIZE_LUMINANCE)
            } else {
                self.buffer.read_vlc(&DCT_SIZE_CHROMINANCE)
            };
            let dct_size = size16 as i32;
            let dc: i32 = if dct_size > 0 {
                let ghost p1 = self.buffer@.1;
                let bits = self.buffer.read(dct_size as usize);
                proof {
                    lemma_bits_bound(self.buffer@.0, p1 as int, dct_size as nat);
                    vstd::arithmetic::power2::lemma_pow2_strictly_increases(dct_size as nat, 31);
                    lemma2_to64();
                }
                predictor.wrapping_add(dc_differential_exec(dct_size, bits as i32))
            } else {
                predictor
            };
            proof {
                assert(dc == dcr.0 && self.buffer@.1 == dcr.1);
            }
            self.dc_predictor.set(plane_index, dc);
            self.block_data.set(0, dc.wrapping_shl(8));
            n = 1;
        }
        let ghost quant = if intra {
            self.intra_quant_matrix@
        } else {
            self.non_intra_quant_matrix@
        };
        let ghost dcp = self.dc_predictor@;
        let ghost target = coefficients_read(
            bytes,
            self.buffer@.1,
            n as int,
            self.block_data@,
            intra,
            quant,
            self.quantizer_scale as int,
        );
        proof {
            assert(self.block_data@ == if intra {
                before.block_data@.update(0, dcr.0.wrapping_shl(8))
            } else {
                before.block_data@
            });
            assert(self.buffer@.1 == if intra {
                dcr.1
            } else {
                before.buffer@.1
            });
        }
        loop
            invariant_except_break
                before == *old(self),
                bytes == before.buffer@.0,
                self.decoding(),
                self.continues(&before),
                self.same_macroblock(&before),
                self.macroblock_intra == intra,
                self.intra_quant_matrix == before.intra_quant_matrix,
                self.non_intra_quant_matrix == before.non_intra_quant_matrix,
                quant == if intra {
                    self.intra_quant_matrix@
                } else {
                    self.non_intra_quant_matrix@
                },
                self.dc_predictor@ == dcp,
                self.frames@ == before.frames@,
                n <= 64,
                coefficients_read(
                    bytes,
                    self.buffer@.1,
                    n as int,
                    self.block_data@,
                    intra,
                    quant,
                    self.quantizer_scale as int,
                ) == target,
                pi == if block > 3 {
                    block - 3
                } else {
                    0
                },
                dcr == dc_read(bytes, before.buffer@.1, block < 4, before.dc_predictor@[pi]),
                dcp == if intra {
                    before.dc_predictor@.update(pi, dcr.0)
                } else {
                    before.dc_predictor@
                },
                target == coefficients_read(
                    bytes,
                    if intra {
                        dcr.1
                    } else {
                        before.buffer@.1
                    },
                    if intra {
                        1
                    } else {
                        0
                    },
                    if intra {
                        before.block_data@.update(0, dcr.0.wrapping_shl(8))
                    } else {
                        before.block_data@
                    },
                    intra,
                    quant,
                    before.quantizer_scale as int,
                ),
                forall|i: int| 0 <= i < 64 ==> #[trigger] ZIG_ZAG@[i] < 64,
                forall|i: int| 0 <= i < 64 ==> 0 <= #[trigger] PREMULTIPLIER_MATRIX@[i] <= 62,
                vlc_table_ok_coeff(),
            ensures
                self.decoding(),
                self.continues(&before),
                self.same_macroblock(&before),
                self.macroblock_intra == intra,
                self.dc_predictor@ == dcp,
                self.frames@ == before.frames@,
                n <= 64,
                target == (self.block_data@, self.buffer@.1, n as int, false),
            decreases 64 - n,
        {
            let ghost pos0 = self.buffer@.1;
            let ghost b_in = self.block_data@;
            let ghost n_in = n as int;
            proof {
                lemma_vlc_progress(DCT_COEFF@, self.buffer@.0, self.buffer@.1, 0);
            }
            let coeff = self.buffer.read_vlc_uint(&DCT_COEFF);
            if coeff == 0x0001 && n > 0 && self.buffer.read(1) == 0 {
                break;
            }
            let ghost p2 = self.buffer@.1;
            let run: usize;
            let mut level: i32;
            if coeff == 0xffff {
                let ghost p_run = self.buffer@.1;
                let r6 = self.buffer.read(6);
                let ghost p_level = self.buffer@.1;
                let l8 = self.buffer.read(8);
                proof {
                    lemma_bits_bound(self.buffer@.0, p_run as int, 6);
                    lemma_bits_bound(self.buffer@.0, p_level as int, 8);
                    lemma2_to64();
                }
                run = r6 as usize;
                level = l8 as i32;
                if level == 0 {
                    let ghost p3 = self.buffer@.1;
                    let v = self.buffer.read(8);
                    proof {
                        lemma_bits_bound(self.buffer@.0, p3 as int, 8);
                    }
                    level = v as i32;
                } else if level == 128 {
                    let ghost p3 = self.buffer@.1;
                    let v = self.buffer.read(8);
                    proof {
                        lemma_bits_bound(self.buffer@.0, p3 as int, 8);
                    }
                    level = v as i32 - 256;
                } else if level > 128 {
                    level = level - 256;
                }
            } else {
                proof {
                    assert(coeff >> 8u16 <= 255 && coeff & 0xffu16 <= 255) by (bit_vector);
                    assert(coeff >> 8u16 == coeff / 256 && coeff & 0xffu16 == coeff % 256)
                        by (bit_vector);
                }
                run = (coeff >> 8u16) as usize;
                level = (coeff & 0xffu16) as i32;
                if self.buffer.read(1) != 0 {
                    level = -level;
                }
            }
            proof {
                assert((run as int, level as int, self.buffer@.1) == run_level(bytes, coeff, p2));
            }
            n = n + run;
            if n >= 64 {
                proof {
                    assert(target == (b_in, self.buffer@.1, n as int, true));
                }
                return;
            }
            let dz = ZIG_ZAG[n];
            n = n + 1;
            let q = if intra {
                self.intra_quant_matrix[dz]
            } else {
                self.non_intra_quant_matrix[dz]
            };
            let value = dequantize(level, intra, self.quantizer_scale, q);
            let scale = PREMULTIPLIER_MATRIX[dz];
            proof {
                assert(-2048 * 62 <= value * scale <= 2047 * 62) by (nonlinear_arith)
                    requires
                        -2048 <= value <= 2047,
                        0 <= scale <= 62,
                ;
            }
            self.block_data.set(dz, value * scale);
        }
        let mut s = zero_block();
        std::mem::swap(&mut s, &mut self.block_data);
        let n_is_one = n == 1;
        if !n_is_one {
            idct(&mut s);
        }
        proof {
            lemma_block_fits(
                self.mb_row as int,
                self.mb_col as int,
                self.mb_width as int,
                self.mb_height as int,
                block as int,
            );
            assert(self.mb_row * self.luma_width <= 256 * 4096) by (nonlinear_arith)
                requires
                    self.mb_row < 256,
                    self.luma_width <= 4096,
            ;
            assert(self.mb_row * self.luma_width * 4 <= 256 * 4096 * 4) by (nonlinear_arith)
                requires
                    self.mb_row < 256,
                    self.luma_width <= 4096,
            ;
        }
        let (di, dw) = if block < 4 {
            let mut di = (self.mb_row * self.luma_width + self.mb_col) * 16;
            if block == 1 || block == 3 {
                di = di + 8;
            }
            if block >= 2 {
                di = di + self.luma_width * 8;
            }
            (di, self.luma_width)
        } else {
            (self.mb_row * self.luma_width * 4 + self.mb_col * 8, self.chroma_width)
        };
        let fill = if intra {
            if n_is_one {
                BlockFill::Const(clamp_to_u8((s[0].wrapping_add(128) >> 8u32) as i64))
            } else {
                BlockFill::Overwrite
            }
        } else if n_is_one {
            BlockFill::AddConst(s[0].wrapping_add(128) >> 8u32)
        } else {
            BlockFill::Add
        };
        let cur = self.cur;
        proof {
            assert((di as int, dw as int) == block_start(
                self.mb_row as int,
                self.mb_col as int,
                self.mb_width as int,
                block as int,
            ));
            assert(self.frames@[cur as int].fits(self.width as int, self.height as int));
        }
        if block < 4 {
            fill_block(&mut self.frames[cur].y.data, di, dw, &s, fill);
        } else if block == 4 {
            fill_block(&mut self.frames[cur].cb.data, di, dw, &s, fill);
        } else {
            fill_block(&mut self.frames[cur].cr.data, di, dw, &s, fill);
        }
    }
}

impl Video {
    /// Predicts the current macroblock of the current frame from frame
    /// `src`, moved by `mh`, `mv` (half-pixel units, halved towards zero
    /// for the chroma planes); with `interpolate`, averages with what is
    /// already there.
    #[verifier::spinoff_prover]
    #[verifier::rlimit(100)]
    fn copy_or_interpolate_macroblock(&mut self, src: usize, mh: i32, mv: i32, interpolate: bool)
        requires
            old(self).decoding(),
            src < 3,
            src != old(self).cur,
            old(self).mb_row < old(self).mb_height,
            old(self).mb_col < old(self).mb_width,
            -2048 <= mh <= 2048,
            -2048 <= mv <= 2048,
        ensures
            final(self).decoding(),
            final(self).continues(old(self)),
            final(self).same_macroblock(old(self)),
            final(self).buffer == old(self).buffer,
            final(self).dc_predictor == old(self).dc_predictor,
            final(self).block_data == old(self).block_data,
            forall|i: int| 0 <= i < 3 && i != old(self).cur ==> #[trigger] final(self).frames@[i]
                == old(self).frames@[i],
            forall|k: int|
                0 <= k < 3 ==> #[trigger] plane_of(final(self).frames@[old(self).cur as int], k)
                    == predicted_component(
                    old(self).frames@[src as int],
                    plane_of(old(self).frames@[old(self).cur as int], k),
                    k,
                    old(self).mb_row as int,
                    old(self).mb_col as int,
                    old(self).mb_width as int,
                    old(self).mb_height as int,
                    mh,
                    mv,
                    interpolate,
                ),
    {
        let cur = self.cur;
        let ghost frames0 = self.frames@;
        proof {
            assert(frames0[cur as int].fits(self.width as int, self.height as int));
            assert(frames0[src as int].fits(self.width as int, self.height as int));
        }
        let mut dst = Frame::empty();
        std::mem::swap(&mut self.frames[cur], &mut dst);
        let mh2 = half_toward_zero(mh);
        let mv2 = half_toward_zero(mv);
        process_macroblock(
            &self.frames[src].y.data,
            &mut dst.y.data,
            self.mb_row,
            self.mb_col,
            self.mb_width,
            self.mb_height,
            mh,
            mv,
            16,
            interpolate,
        );
        process_macroblock(
            &self.frames[src].cr.data,
            &mut dst.cr.data,
            self.mb_row,
            self.mb_col,
            self.mb_width,
            self.mb_height,
            mh2,
            mv2,
            8,
            interpolate,
        );
        process_macroblock(
            &self.frames[src].cb.data,
            &mut dst.cb.data,
            self.mb_row,
            self.mb_col,
            self.mb_width,
            self.mb_height,
            mh2,
            mv2,
            8,
            interpolate,
        );
        std::mem::swap(&mut self.frames[cur], &mut dst);
        proof {
            assert forall|i: int| 0 <= i < 3 implies (#[trigger] self.frames@[i]).fits(
                self.width as int,
                self.height as int,
            ) by {
                if i != cur {
                    assert(self.frames@[i] == frames0[i]);
                }
            }
        }
    }

    /// Plane `k` of the current frame once the current macroblock is
    /// predicted: from the forward reference; in bidirectional pictures
    /// from the forward one, the backward one, or the forward one averaged
    /// with the backward one, by the vectors the macroblock has set.
    spec fn predicted_macroblock(&self, k: int) -> Seq<u8> {
        let f = self.frames@;
        let base = plane_of(f[self.cur as int], k);
        let fw = self.motion_forward;
        let bw = self.motion_backward;
        let (r, c, w, h) = (
            self.mb_row as int,
            self.mb_col as int,
            self.mb_width as int,
            self.mb_height as int,
        );
        if self.picture_type == PICTURE_TYPE_B {
            if fw.is_set {
                let a = predicted_component(
                    f[self.fwd as int],
                    base,
                    k,
                    r,
                    c,
                    w,
                    h,
                    fw.h_half_px(),
                    fw.v_half_px(),
                    false,
                );
                if bw.is_set {
                    predicted_component(f[self.bwd as int], a, k, r, c, w, h, bw.h_half_px(), bw.v_half_px(), true)
                } else {
                    a
                }
            } else {
                predicted_component(f[self.bwd as int], base, k, r, c, w, h, bw.h_half_px(), bw.v_half_px(), false)
            }
        } else {
            predicted_component(f[self.fwd as int], base, k, r, c, w, h, fw.h_half_px(), fw.v_half_px(), false)
        }
    }

    /// Predicts the current macroblock from the reference frames by the
    /// current motion vectors: forward in predicted pictures; forward,
    /// backward or both averaged in bidirectional ones.
    #[verifier::spinoff_prover]
    #[verifier::rlimit(100)]
    fn predict_macroblock(&mut self)
        requires
            old(self).decoding(),
            old(self).mb_row < old(self).mb_height,
            old(self).mb_col < old(self).mb_width,
        ensures
            final(self).decoding(),
            final(self).continues(old(self)),
            final(self).same_macroblock(old(self)),
            final(self).buffer == old(self).buffer,
            final(self).dc_predictor == old(self).dc_predictor,
            final(self).block_data == old(self).block_data,
            forall|i: int| 0 <= i < 3 && i != old(self).cur ==> #[trigger] final(self).frames@[i]
                == old(self).frames@[i],
            forall|k: int|
                0 <= k < 3 ==> #[trigger] plane_of(final(self).frames@[old(self).cur as int], k)
                    == old(self).predicted_macroblock(k),
    {
        let mut fw_h = self.motion_forward.h;
        let mut fw_v = self.motion_forward.v;
        if self.motion_forward.full_px {
            fw_h = fw_h * 2;
            fw_v = fw_v * 2;
        }
        if self.picture_type == PICTURE_TYPE_B {
            let mut bw_h = self.motion_backward.h;
            let mut bw_v = self.motion_backward.v;
            if self.motion_backward.full_px {
                bw_h = bw_h * 2;
                bw_v = bw_v * 2;
            }
            if self.motion_forward.is_set {
                self.copy_or_interpolate_macroblock(self.fwd, fw_h, fw_v, false);
                if self.motion_backward.is_set {
                    self.copy_or_interpolate_macroblock(self.bwd, bw_h, bw_v, true);
                }
            } else {
                self.copy_or_interpolate_macroblock(self.bwd, bw_h, bw_v, false);
            }
        } else {
            self.copy_or_interpolate_macroblock(self.fwd, fw_h, fw_v, false);
        }
    }

    /// Reads the motion vectors the macroblock type announces; a predicted
    /// macroblock without a forward vector has it reset.
    #[verifier::spinoff_prover]
    #[verifier::rlimit(100)]
    fn decode_motion_vectors(&mut self)
        requires
            old(self).decoding(),
        ensures
            final(self).decoding(),
            final(self).continues(old(self)),
            final(self).dc_predictor == old(self).dc_predictor,
            final(self).block_data == old(self).block_data,
            final(self).frames == old(self).frames,
            final(self).mb_row == old(self).mb_row,
            final(self).mb_col == old(self).mb_col,
            final(self).macroblock_intra == old(self).macroblock_intra,
            final(self).macroblock_type == old(self).macroblock_type,
            final(self).macroblock_address == old(self).macroblock_address,
            final(self).slice_begin == old(self).slice_begin,
            final(self).quantizer_scale == old(self).quantizer_scale,
            final(self).motion_forward.is_set == old(self).motion_forward.is_set,
            final(self).motion_forward.full_px == old(self).motion_forward.full_px,
            final(self).motion_backward.is_set == old(self).motion_backward.is_set,
            final(self).motion_backward.full_px == old(self).motion_backward.full_px,
            final(self).motion_forward.r_size == old(self).motion_forward.r_size,
            final(self).motion_backward.r_size == old(self).motion_backward.r_size,
            ({
                let (fwh, fwv, bwh, bwv, end) = motion_vectors_read(
                    old(self).buffer@.0,
                    old(self).buffer@.1,
                    old(self).motion_forward,
                    old(self).motion_backward,
                    old(self).picture_type as int,
                );
                &&& final(self).motion_forward.h == fwh
                &&& final(self).motion_forward.v == fwv
                &&& final(self).motion_backward.h == bwh
                &&& final(self).motion_backward.v == bwv
                &&& final(self).buffer@.1 == end
            }),
    {
        if self.motion_forward.is_set {
            let r_size = self.motion_forward.r_size;
            self.motion_forward.h = decode_motion_vector(&mut self.buffer, r_size, self.motion_forward.h);
            self.motion_forward.v = decode_motion_vector(&mut self.buffer, r_size, self.motion_forward.v);
        } else if self.picture_type == PICTURE_TYPE_PREDICTIVE {
            self.motion_forward.h = 0;
            self.motion_forward.v = 0;
        }
        if self.motion_backward.is_set {
            let r_size = self.motion_backward.r_size;
            self.motion_backward.h = decode_motion_vector(&mut self.buffer, r_size, self.motion_backward.h);
            self.motion_backward.v = decode_motion_vector(&mut self.buffer, r_size, self.motion_backward.v);
        }
    }
}

impl Video {
    /// Resets the three DC predictors to 128.
    fn reset_dc_predictors(&mut self)
        requires
            old(self).dc_predictor@.len() == 3,
        ensures
            final(self).dc_predictor@ == seq![128i32, 128i32, 128i32],
            *final(self) == (Video { dc_predictor: final(self).dc_predictor, ..*old(self) }),
    {
        self.dc_predictor.set(0, 128);
        self.dc_predictor.set(1, 128);
        self.dc_predictor.set(2, 128);
        assert(self.dc_predictor@ =~= seq![128i32, 128i32, 128i32]);
    }

    /// Decodes one macroblock: the address increment (predicting the
    /// macroblocks it skips), the type, quantiser scale, motion vectors and
    /// coded blocks. Reads at least one bit when one is left.
    #[verifier::spinoff_prover]
    #[verifier::rlimit(100)]
    fn decode_macroblock(&mut self)
        requires
            old(self).decoding(),
            1 <= old(self).picture_type <= 3,
        ensures
            final(self).decoding(),
            final(self).continues(old(self)),
            has_bits(old(self).buffer@.0.len(), old(self).buffer@.1, 1) ==> final(self).buffer@.1
                > old(self).buffer@.1,
            final(self).macroblock_decoded(old(self)),
    {
        reveal(Video::macroblock_decoded);
        let ghost before = *self;
        let increment = read_address_increment(&mut self.buffer);
        let ghost a1 = *self;
        if self.slice_begin {
            self.slice_begin = false;
            self.macroblock_address = saturating_add_i32(self.macroblock_address, increment);
        } else {
            if self.macroblock_address as i64 + increment as i64 >= self.mb_size as i64 {
                proof {
                    assert(self.macroblock_steps(&before, a1, a1, a1));
                    assert(self.macroblock_decoded(&before));
                }
                return;
            }
            self.skip_macroblocks(increment);
        }
        let ghost a2 = *self;
        if self.macroblock_address < 0 {
            proof {
                assert(self.macroblock_steps(&before, a1, a2, a2));
                assert(self.macroblock_decoded(&before));
            }
            return;
        }
        self.mb_row = (self.macroblock_address as usize) / self.mb_width;
        self.mb_col = (self.macroblock_address as usize) % self.mb_width;
        let ghost a3 = *self;
        if self.mb_col >= self.mb_width || self.mb_row >= self.mb_height {
            proof {
                assert(a1 == (Video { buffer: a1.buffer, ..before }));
                assert(*self == a3);
                assert(a3 == (Video {
                    mb_row: ((a2.macroblock_address as usize) / a2.mb_width) as usize,
                    mb_col: ((a2.macroblock_address as usize) % a2.mb_width) as usize,
                    ..a2
                }));
                assert(self.macroblock_steps(&before, a1, a2, a3));
                assert(self.macroblock_decoded(&before));
            }
            return;
        }
        self.decode_macroblock_contents();
        proof {
            assert(self.contents_decoded(&a3));
            assert(self.macroblock_steps(&before, a1, a2, a3));
            assert(self.macroblock_decoded(&before));
        }
    }

    /// Moves on by `increment` macroblocks within a slice, predicting the
    /// ones skipped over; a skip resets the DC predictors, and in predicted
    /// pictures the forward motion vector.
    #[verifier::spinoff_prover]
    #[verifier::rlimit(100)]
    fn skip_macroblocks(&mut self, increment: i32)
        requires
            old(self).decoding(),
            1 <= old(self).picture_type <= 3,
            0 <= increment,
            old(self).macroblock_address + increment < old(self).mb_size,
            !old(self).slice_begin,
        ensures
            final(self).decoding(),
            final(self).continues(old(self)),
            !final(self).slice_begin,
            final(self).macroblock_address == old(self).macroblock_address + (if increment > 1 {
                increment as int
            } else {
                1
            }),
            final(self).skip_done(old(self), increment),
    {
        let ghost before = *self;
        if increment > 1 {
            self.reset_dc_predictors();
            if self.picture_type == PICTURE_TYPE_PREDICTIVE {
                self.motion_forward.h = 0;
                self.motion_forward.v = 0;
            }
        }
        let ghost skipping = *self;
        let mut left = increment;
        while left > 1
            invariant
                self.decoding(),
                self.continues(&skipping),
                skipping.continues(&before),
                1 <= self.picture_type <= 3,
                0 <= left <= increment,
                -1 <= self.macroblock_address,
                self.macroblock_address + left == before.macroblock_address + increment,
                before.macroblock_address + increment < self.mb_size,
                left < increment ==> left >= 1,
                !self.slice_begin,
                forall|z: Video|
                    #[trigger] skipped_n(*self, z, left - 1) ==> skipped_n(skipping, z, increment - 1),
            decreases left,
        {
            let ghost prev = *self;
            self.macroblock_address = self.macroblock_address + 1;
            self.mb_row = (self.macroblock_address as usize) / self.mb_width;
            self.mb_col = (self.macroblock_address as usize) % self.mb_width;
            proof {
                lemma_macroblock_position(
                    self.macroblock_address as int,
                    self.mb_width as int,
                    self.mb_height as int,
                );
            }
            let ghost q = *self;
            self.predict_macroblock();
            proof {
                let m = *self;
                assert(m.predicted(&q));
                assert(m.skipped_one(&prev));
                assert forall|z: Video| #[trigger] skipped_n(m, z, left - 2) implies skipped_n(
                    skipping,
                    z,
                    increment - 1,
                ) by {
                    assert(m.skipped_one(&prev) && skipped_n(m, z, left - 2));
                    assert(skipped_n(prev, z, left - 1));
                }
            }
            left = left - 1;
            proof {
                assert forall|z: Video| #[trigger] skipped_n(*self, z, left - 1) implies skipped_n(
                    skipping,
                    z,
                    increment - 1,
                ) by {
                    assert(skipped_n(*self, z, left + 1 - 2));
                }
            }
        }
        let ghost last = *self;
        self.macroblock_address = self.macroblock_address + 1;
        proof {
            assert(skipped_n(last, last, left - 1));
            assert(skipped_n(skipping, last, increment - 1));
            reveal(Video::skip_done);
            assert(self.skip_done(&before, increment));
        }
    }

    /// Decodes the current macroblock from its type on: quantiser scale,
    /// motion vectors and prediction, and the coded blocks.
    #[verifier::rlimit(100)]
    #[verifier::spinoff_prover]
    fn decode_macroblock_contents(&mut self)
        requires
            old(self).decoding(),
            1 <= old(self).picture_type <= 3,
            old(self).mb_row < old(self).mb_height,
            old(self).mb_col < old(self).mb_width,
        ensures
            final(self).decoding(),
            final(self).continues(old(self)),
            ({
                let (t, intra, fw, bw, scale, p2) = macroblock_header_read(*old(self));
                let (fwh, fwv, bwh, bwv, _) = motion_vectors_read(
                    old(self).buffer@.0,
                    p2,
                    fw,
                    bw,
                    old(self).picture_type as int,
                );
                &&& final(self).macroblock_type == t
                &&& final(self).macroblock_intra == intra
                &&& final(self).motion_forward.is_set == fw.is_set
                &&& final(self).motion_backward.is_set == bw.is_set
                &&& final(self).quantizer_scale == scale
                &&& if intra {
                    final(self).motion_forward.h == 0 && final(self).motion_forward.v == 0
                        && final(self).motion_backward.h == 0 && final(self).motion_backward.v == 0
                } else {
                    final(self).motion_forward.h == fwh && final(self).motion_forward.v == fwv
                        && final(self).motion_backward.h == bwh && final(self).motion_backward.v
                        == bwv
                }
            }),
            final(self).contents_decoded(old(self)),
    {
        let ghost before = *self;
        let mb_type = self.read_macroblock_type();
        let ghost v1 = *self;
        if self.macroblock_intra {
            self.motion_forward.h = 0;
            self.motion_forward.v = 0;
            self.motion_backward.h = 0;
            self.motion_backward.v = 0;
            proof {
                assert(self.motion_done(&v1));
            }
        } else {
            self.reset_dc_predictors();
            let ghost r = *self;
            self.decode_motion_vectors();
            let ghost m = *self;
            self.predict_macroblock();
            proof {
                assert(m.vectors_read(&r));
                assert(self.predicted(&m));
                assert(self.motion_done(&v1));
            }
        }
        let ghost v2 = *self;
        proof {
            lemma_vlc_progress(CODE_BLOCK_PATTERN@, self.buffer@.0, self.buffer@.1, 0);
            lemma_video_tables();
        }
        let cbp: i32 = if (mb_type & 0x02) != 0 {
            self.buffer.read_vlc(&CODE_BLOCK_PATTERN) as i32
        } else if self.macroblock_intra {
            0x3f
        } else {
            0
        };
        let ghost coding = *self;
        proof {
            assert(coding.pattern_read(&v2, cbp));
        }
        let mut mask: i32 = 0x20;
        let mut block: usize = 0;
        assert(0x20i32 >> 0u32 == 0x20i32) by (bit_vector);
        while block < 6
            invariant
                self.decoding(),
                self.continues(&coding),
                self.same_macroblock(&coding),
                coding.continues(&before),
                self.mb_row < self.mb_height,
                self.mb_col < self.mb_width,
                block <= 6,
                mask == 0x20i32 >> (block as u32),
                forall|z: Video|
                    #[trigger] blocks_decoded(*self, z, cbp, block as int) ==> blocks_decoded(
                        coding,
                        z,
                        cbp,
                        0,
                    ),
            decreases 6 - block,
        {
            let ghost prev = *self;
            if (cbp & mask) != 0 {
                self.decode_block(block);
                proof {
                    let m = *self;
                    assert forall|z: Video| #[trigger]
                        blocks_decoded(m, z, cbp, block + 1) implies blocks_decoded(
                        coding,
                        z,
                        cbp,
                        0,
                    ) by {
                        assert(blocks_decoded(prev, z, cbp, block as int));
                    }
                }
            } else {
                proof {
                    assert forall|z: Video| #[trigger]
                        blocks_decoded(prev, z, cbp, block + 1) implies blocks_decoded(
                        coding,
                        z,
                        cbp,
                        0,
                    ) by {
                        assert(blocks_decoded(prev, z, cbp, block as int));
                    }
                }
            }
            proof {
                let bb = block as u32;
                assert(bb < 6 ==> (0x20i32 >> bb) >> 1u32 == 0x20i32 >> (bb + 1) as u32) by (bit_vector);
            }
            mask = mask >> 1u32;
            block = block + 1;
        }
        proof {
            assert(blocks_decoded(*self, *self, cbp, 6));
            reveal(Video::contents_decoded);
            assert(self.contents_decoded(&before));
        }
    }
}


/// The macroblock header read at the decoder's position: the type (by the
/// picture type's table), whether it is intra, the motion states with the
/// type's vector flags, the quantiser scale (read when the type says so)
/// and the position after it.
spec fn macroblock_header_read(v: Video) -> (i32, bool, Motion, Motion, i32, nat) {
    let bytes = v.buffer@.0;
    let table = if v.picture_type == PICTURE_TYPE_INTRA {
        MACROBLOCK_TYPE_INTRA@
    } else if v.picture_type == PICTURE_TYPE_PREDICTIVE {
        MACROBLOCK_TYPE_PREDICTIVE@
    } else {
        MACROBLOCK_TYPE_B@
    };
    let (t0, p1) = vlc_decode(table, bytes, v.buffer@.1, 0);
    let t = t0 as i32;
    let with_scale = (t & 0x10) != 0;
    (
        t,
        (t & 0x01) != 0,
        Motion { is_set: (t & 0x08) != 0, ..v.motion_forward },
        Motion { is_set: (t & 0x04) != 0, ..v.motion_backward },
        if with_scale {
            bits_or_zero(bytes, p1, 5) as i32
        } else {
            v.quantizer_scale
        },
        if with_scale {
            bits_after(bytes.len(), p1, 5)
        } else {
            p1
        },
    )
}

impl Video {
    /// Reads the current macroblock's type and, when the type says so, its
    /// quantiser scale.
    #[verifier::spinoff_prover]
    #[verifier::rlimit(100)]
    fn read_macroblock_type(&mut self) -> (mb_type: i32)
        requires
            old(self).decoding(),
            1 <= old(self).picture_type <= 3,
        ensures
            final(self).decoding(),
            final(self).continues(old(self)),
            final(self).mb_row == old(self).mb_row,
            final(self).mb_col == old(self).mb_col,
            final(self).macroblock_address == old(self).macroblock_address,
            final(self).slice_begin == old(self).slice_begin,
            final(self).frames == old(self).frames,
            final(self).dc_predictor == old(self).dc_predictor,
            final(self).block_data == old(self).block_data,
            ({
                let (t, intra, fw, bw, scale, p2) = macroblock_header_read(*old(self));
                &&& mb_type == t
                &&& final(self).macroblock_type == t
                &&& final(self).macroblock_intra == intra
                &&& final(self).motion_forward == fw
                &&& final(self).motion_backward == bw
                &&& final(self).quantizer_scale == scale
                &&& final(self).buffer@.1 == p2
            }),
    {
        proof {
            lemma_vlc_progress(MACROBLOCK_TYPE_INTRA@, self.buffer@.0, self.buffer@.1, 0);
            lemma_vlc_progress(MACROBLOCK_TYPE_PREDICTIVE@, self.buffer@.0, self.buffer@.1, 0);
            lemma_vlc_progress(MACROBLOCK_TYPE_B@, self.buffer@.0, self.buffer@.1, 0);
            lemma_video_tables();
        }
        let mb_type = if self.picture_type == PICTURE_TYPE_INTRA {
            self.buffer.read_vlc(&MACROBLOCK_TYPE_INTRA)
        } else if self.picture_type == PICTURE_TYPE_PREDICTIVE {
            self.buffer.read_vlc(&MACROBLOCK_TYPE_PREDICTIVE)
        } else {
            self.buffer.read_vlc(&MACROBLOCK_TYPE_B)
        } as i32;
        self.macroblock_type = mb_type;
        self.macroblock_intra = (mb_type & 0x01) != 0;
        self.motion_forward.is_set = (mb_type & 0x08) != 0;
        self.motion_backward.is_set = (mb_type & 0x04) != 0;
        if (mb_type & 0x10) != 0 {
            let ghost q = self.buffer@.1;
            let scale = self.buffer.read(5);
            proof {
                lemma_bits_bound(self.buffer@.0, q as int, 5);
                lemma2_to64();
            }
            self.quantizer_scale = scale as i32;
        }
        mb_type
    }
}

/// The macroblock at `address` lies in a picture of `mb_width` x
/// `mb_height` macroblocks.
proof fn lemma_macroblock_position(address: int, mb_width: int, mb_height: int)
    requires
        0 <= address < mb_width * mb_height,
        0 < mb_width,
        0 < mb_height,
    ensures
        address / mb_width < mb_height,
        address % mb_width < mb_width,
{
    vstd::arithmetic::div_mod::lemma_div_is_ordered(address, mb_width * mb_height, mb_width);
    assert(mb_width * mb_height == mb_height * mb_width) by (nonlinear_arith);
    lemma_div_by_multiple(mb_height, mb_width);
    if address / mb_width == mb_height {
        vstd::arithmetic::div_mod::lemma_fundamental_div_mod(address, mb_width);
        assert(address >= mb_width * mb_height) by (nonlinear_arith)
            requires
                address == mb_width * (address / mb_width) + address % mb_width,
                address / mb_width == mb_height,
                address % mb_width >= 0,
        ;
    }
}

/// The first code other than stuffing (34) at bit `pos` on, and the
/// position after it.
spec fn after_stuffing(bytes: Seq<u8>, pos: nat) -> (int, nat)
    decreases usize::MAX - pos,
{
    let (t, p) = vlc_decode(MACROBLOCK_ADDRESS_INCREMENT@, bytes, pos, 0);
    if t == 34 && pos < p <= usize::MAX {
        after_stuffing(bytes, p)
    } else {
        (t as int, p)
    }
}

/// `a + b` held at `i32::MAX`.
spec fn held_sum(a: int, b: int) -> int {
    if a + b > i32::MAX {
        i32::MAX as int
    } else {
        a + b
    }
}

/// From code `t`, read up to bit `pos`, with `acc` counted so far: each
/// escape (35) adds 33 and reads another code; the increment is `acc`
/// plus the last code. Gives the increment and the position after it.
spec fn after_escapes(bytes: Seq<u8>, t: int, pos: nat, acc: int) -> (int, nat)
    decreases usize::MAX - pos,
{
    if t == 35 {
        let (t2, p) = vlc_decode(MACROBLOCK_ADDRESS_INCREMENT@, bytes, pos, 0);
        let acc2 = held_sum(acc, 33);
        if pos < p <= usize::MAX {
            after_escapes(bytes, t2 as int, p, acc2)
        } else {
            (held_sum(acc2, t2 as int), p)
        }
    } else {
        (held_sum(acc, t), pos)
    }
}

/// The macroblock address increment at bit `pos`: stuffing skipped, each
/// escape adding 33 (held at `i32::MAX`); and the position after it.
spec fn address_increment_read(bytes: Seq<u8>, pos: nat) -> (int, nat) {
    let (t, p) = after_stuffing(bytes, pos);
    after_escapes(bytes, t, p, 0)
}

/// Reads a macroblock address increment: stuffing codes are skipped, and
/// each escape code adds 33 (held at `i32::MAX`). Reads at least one bit
/// when one is left.
fn read_address_increment(buffer: &mut Buffer) -> (r: i32)
    requires
        old(buffer).wf(),
    ensures
        final(buffer).wf(),
        final(buffer)@.0 == old(buffer)@.0,
        final(buffer)@.1 >= old(buffer)@.1,
        has_bits(old(buffer)@.0.len(), old(buffer)@.1, 1) ==> final(buffer)@.1 > old(buffer)@.1,
        r >= 0,
        (r as int, final(buffer)@.1) == address_increment_read(old(buffer)@.0, old(buffer)@.1),
{
    proof {
        lemma_video_tables();
    }
    let ghost table = MACROBLOCK_ADDRESS_INCREMENT@;
    let ghost start = buffer@.1;
    let ghost bytes = buffer@.0;
    proof {
        lemma_vlc_progress(table, buffer@.0, buffer@.1, 0);
        lemma_vlc_value_bounds(table, buffer@.0, buffer@.1, 0, 0, 35);
    }
    let mut t = buffer.read_vlc(&MACROBLOCK_ADDRESS_INCREMENT) as i32;
    while t == 34
        invariant
            buffer.wf(),
            buffer@.0 == old(buffer)@.0,
            bytes == old(buffer)@.0,
            buffer@.1 >= start,
            has_bits(old(buffer)@.0.len(), start, 1) ==> buffer@.1 > start,
            start == old(buffer)@.1,
            0 <= t <= 35,
            table == MACROBLOCK_ADDRESS_INCREMENT@,
            crate::mpeg::buffer::vlc_table_ok(table),
            forall|k: int| 0 <= k < 80 ==> 0 <= #[trigger] table[k].1 <= 35,
            crate::mpeg::buffer::vlc_zero_path(table, 0) == 0,
            after_stuffing(bytes, start) == (if t == 34 {
                after_stuffing(bytes, buffer@.1)
            } else {
                (t as int, buffer@.1)
            }),
        decreases usize::MAX - buffer@.1, (if t == 34 {
            1int
        } else {
            0
        }),
    {
        proof {
            lemma_vlc_progress(table, buffer@.0, buffer@.1, 0);
            lemma_vlc_value_bounds(table, buffer@.0, buffer@.1, 0, 0, 35);
        }
        let ghost q = buffer@.1;
        t = buffer.read_vlc(&MACROBLOCK_ADDRESS_INCREMENT) as i32;
        proof {
            if t == 34 {
                assert(has_bits(bytes.len(), q, 1));
            }
        }
    }
    let mut increment: i32 = 0;
    let ghost target = after_stuffing(bytes, start);
    let ghost result = address_increment_read(bytes, start);
    while t == 35
        invariant
            buffer.wf(),
            buffer@.0 == old(buffer)@.0,
            bytes == old(buffer)@.0,
            buffer@.1 >= start,
            has_bits(old(buffer)@.0.len(), start, 1) ==> buffer@.1 > start,
            start == old(buffer)@.1,
            0 <= t <= 35,
            0 <= increment,
            table == MACROBLOCK_ADDRESS_INCREMENT@,
            crate::mpeg::buffer::vlc_table_ok(table),
            forall|k: int| 0 <= k < 80 ==> 0 <= #[trigger] table[k].1 <= 35,
            crate::mpeg::buffer::vlc_zero_path(table, 0) == 0,
            after_escapes(bytes, t as int, buffer@.1, increment as int) == result,
        decreases usize::MAX - buffer@.1, (if t == 35 {
            1int
        } else {
            0
        }),
    {
        increment = saturating_add_i32(increment, 33);
        proof {
            lemma_vlc_progress(table, buffer@.0, buffer@.1, 0);
            lemma_vlc_value_bounds(table, buffer@.0, buffer@.1, 0, 0, 35);
        }
        t = buffer.read_vlc(&MACROBLOCK_ADDRESS_INCREMENT) as i32;
    }
    saturating_add_i32(increment, t)
}

impl Video {
    /// Where a slice stops: at the last macroblock of the picture, or where
    /// no more macroblock data follows (the next 23 bits are zero, as before
    /// a start code, or the data has run out).
    spec fn slice_ended(&self) -> bool {
        let (bytes, pos) = self.buffer@;
        self.macroblock_address >= self.mb_size - 1 || !(has_bits(bytes.len(), pos, 23)
            && bits_value(bytes, pos as int, 23) != 0)
    }

    /// The steps of `slice_decoded` through the states `h` (the slice
    /// header read), `e` (the extra information skipped) and `m` (the first
    /// macroblock decoded), then `n` more macroblocks.
    spec fn slice_steps(&self, old: &Video, slice: i32, h: Video, e: Video, m: Video, n: nat) -> bool {
        let bytes = old.buffer@.0;
        let pos = old.buffer@.1;
        &&& h == (Video {
            slice_begin: true,
            macroblock_address: ((slice - 1) * (old.mb_width as int) - 1) as i32,
            motion_forward: Motion { h: 0, v: 0, ..old.motion_forward },
            motion_backward: Motion { h: 0, v: 0, ..old.motion_backward },
            dc_predictor: h.dc_predictor,
            quantizer_scale: bits_or_zero(bytes, pos, 5) as i32,
            buffer: h.buffer,
            ..*old
        })
        &&& h.dc_predictor@ == seq![128i32, 128i32, 128i32]
        &&& h.buffer@ == (bytes, bits_after(bytes.len(), pos, 5))
        &&& e == (Video { buffer: e.buffer, ..h })
        &&& e.buffer@ == (bytes, extra_info_end(bytes, h.buffer@.1))
        &&& m.macroblock_decoded(&e)
        &&& macroblocks_run(m, *self, n)
        &&& self.slice_ended()
    }

    /// `self` is `old` with slice `slice` decoded: the motion vectors and
    /// DC predictors reset, the quantiser scale read, the extra
    /// information skipped, then macroblocks decoded until the slice ends.
    #[verifier::opaque]
    spec fn slice_decoded(&self, old: &Video, slice: i32) -> bool {
        exists|h: Video, e: Video, m: Video, n: nat|
            #![trigger self.slice_steps(old, slice, h, e, m, n)]
            self.slice_steps(old, slice, h, e, m, n)
    }

    /// `self` is `old`, which stands at a slice start code, with that
    /// slice decoded, the picture not yet at its end, and the next start
    /// code read.
    spec fn slice_round(&self, old: &Video) -> bool {
        exists|d: Video|
            #![trigger d.slice_decoded(old, old.start_code)]
            {
                let (c, q) = next_code(d.buffer@.0, aligned_byte(d.buffer@.1));
                &&& d.slice_decoded(old, old.start_code)
                &&& d.macroblock_address < d.mb_size - 1
                &&& *self == (Video { start_code: c as i32, buffer: self.buffer, ..d })
                &&& self.buffer@ == (d.buffer@.0, (q * 8) as nat)
            }
    }

    /// `self` is `old` with its slices decoded: while a slice start code
    /// stands, that slice, until the last macroblock of the picture is
    /// reached.
    spec fn slices_decoded(&self, old: &Video) -> bool {
        exists|y: Video, n: nat|
            #![trigger slice_rounds(*old, y, n)]
            slice_rounds(*old, y, n) && if is_slice_code(y.start_code as int) {
                self.slice_decoded(&y, y.start_code) && self.macroblock_address >= self.mb_size - 1
            } else {
                *self == y
            }
    }

    /// `self` is `old` with the picture at its position decoded: the
    /// header read (state `s`), extensions and user data passed (state
    /// `x`), the slices decoded (state `e`), and for an intra or predicted
    /// picture the frames rotated.
    spec fn picture_steps(&self, old: &Video, s: Video, x: Video, e: Video) -> bool {
        let bytes = old.buffer@.0;
        let (t, fw, bw, pos, go) = picture_header(*old);
        let reference = t == PICTURE_TYPE_INTRA || t == PICTURE_TYPE_PREDICTIVE;
        &&& s == (Video {
            picture_type: t,
            motion_forward: fw,
            motion_backward: bw,
            fwd: if go && reference {
                old.bwd
            } else {
                old.fwd
            },
            buffer: s.buffer,
            ..*old
        })
        &&& s.buffer@ == (bytes, pos)
        &&& if !go {
            *self == s
        } else {
            let (c, p) = after_extensions(bytes, pos);
            &&& x == (Video { start_code: c as i32, buffer: x.buffer, ..s })
            &&& x.buffer@ == (bytes, p)
            &&& e.slices_decoded(&x)
            &&& *self == if reference {
                Video { bwd: e.cur, cur: old.fwd, ..e }
            } else {
                e
            }
        }
    }

    #[verifier::opaque]
    spec fn picture_decoded(&self, old: &Video) -> bool {
        exists|s: Video, x: Video, e: Video|
            #![trigger self.picture_steps(old, s, x, e)]
            self.picture_steps(old, s, x, e)
    }

    /// Decodes slice `slice` (its vertical position, from 1): resets the
    /// motion vectors and DC predictors, reads the quantiser scale, skips
    /// the extra slice information, then decodes macroblocks while bits
    /// remain and the picture's last macroblock has not been reached.
    #[verifier::spinoff_prover]
    #[verifier::rlimit(100)]
    fn decode_slice(&mut self, slice: i32)
        requires
            old(self).decoding(),
            1 <= old(self).picture_type <= 3,
            START_SLICE_FIRST <= slice <= START_SLICE_LAST,
        ensures
            final(self).decoding(),
            final(self).continues(old(self)),
            final(self).slice_ended(),
            final(self).slice_decoded(old(self), slice),
    {
        let ghost before = *self;
        let ghost bytes = self.buffer@.0;
        self.slice_begin = true;
        proof {
            assert((slice - 1) * self.mb_width <= 175 * 256) by (nonlinear_arith)
                requires
                    1 <= slice <= 0xAF,
                    self.mb_width <= 256,
            ;
            assert((slice - 1) * self.mb_width >= 0) by (nonlinear_arith)
                requires
                    1 <= slice,
                    self.mb_width >= 0,
            ;
        }
        self.macroblock_address = (slice - 1) * (self.mb_width as i32) - 1;
        self.motion_forward.h = 0;
        self.motion_forward.v = 0;
        self.motion_backward.h = 0;
        self.motion_backward.v = 0;
        self.reset_dc_predictors();
        let ghost q = self.buffer@.1;
        let scale = self.buffer.read(5);
        proof {
            lemma_bits_bound(self.buffer@.0, q as int, 5);
            lemma2_to64();
        }
        self.quantizer_scale = scale as i32;
        let ghost extra = *self;
        let ghost target = extra_info_end(bytes, extra.buffer@.1);
        loop
            invariant_except_break
                self.decoding(),
                self.continues(&extra),
                extra.continues(&before),
                1 <= self.picture_type <= 3,
                *self == (Video { buffer: self.buffer, ..extra }),
                self.buffer@.0 == bytes,
                extra_info_end(bytes, self.buffer@.1) == target,
            ensures
                self.decoding(),
                self.continues(&extra),
                extra.continues(&before),
                1 <= self.picture_type <= 3,
                *self == (Video { buffer: self.buffer, ..extra }),
                self.buffer@ == (bytes, target),
            decreases usize::MAX - self.buffer@.1,
        {
            if self.buffer.read(1) == 0 {
                break;
            }
            self.buffer.skip(8);
        }
        let ghost skipped = *self;
        self.decode_macroblock();
        let ghost body = *self;
        let ghost mut n: nat = 0;
        loop
            invariant_except_break
                self.decoding(),
                self.continues(&body),
                body.continues(&before),
                1 <= self.picture_type <= 3,
                macroblocks_run(body, *self, n),
            ensures
                self.decoding(),
                self.continues(&body),
                body.continues(&before),
                self.slice_ended(),
                macroblocks_run(body, *self, n),
            decreases usize::MAX - self.buffer@.1,
        {
            if self.macroblock_address >= self.mb_size as i32 - 1 {
                break;
            }
            if !self.buffer.peek_non_zero(23) {
                break;
            }
            let ghost y = *self;
            self.decode_macroblock();
            proof {
                assert(!y.slice_ended());
                assert(macroblocks_run(body, *self, n + 1));
                n = n + 1;
            }
        }
        proof {
            reveal(Video::slice_decoded);
            assert(self.slice_steps(&before, slice, extra, skipped, body, n));
        }
    }

    /// Decodes a picture: its type and motion ranges, then its slices into
    /// the current frame. An intra or predicted picture becomes the newest
    /// reference: the frames then rotate (current, forward, backward) to
    /// (forward, backward, current). An unknown type, or a zero motion
    /// range code, leaves the picture undecoded.
    /// Reads start codes until one is neither an extension nor user data.
    #[verifier::spinoff_prover]
    #[verifier::rlimit(100)]
    fn skip_extensions(&mut self)
        requires
            old(self).decoding(),
            1 <= old(self).picture_type <= 3,
        ensures
            final(self).decoding(),
            *final(self) == (Video { start_code: final(self).start_code, buffer: final(self).buffer, ..*old(self) }),
            final(self).buffer@.0 == old(self).buffer@.0,
            final(self).buffer@.1 >= old(self).buffer@.1,
            (final(self).start_code as int, final(self).buffer@.1) == after_extensions(
                old(self).buffer@.0,
                old(self).buffer@.1,
            ),
    {
        let ghost bytes = self.buffer@.0;
        let ghost setup = *self;
        let ghost target = after_extensions(bytes, setup.buffer@.1);
        loop
            invariant_except_break
                self.decoding(),
                *self == (Video { start_code: self.start_code, buffer: self.buffer, ..setup }),
                self.buffer@.0 == bytes,
                bytes == setup.buffer@.0,
                self.buffer@.1 >= setup.buffer@.1,
                after_extensions(bytes, self.buffer@.1) == target,
                1 <= self.picture_type <= 3,
            ensures
                self.decoding(),
                *self == (Video { start_code: self.start_code, buffer: self.buffer, ..setup }),
                self.buffer@.0 == bytes,
                self.buffer@.1 >= setup.buffer@.1,
                (self.start_code as int, self.buffer@.1) == target,
                1 <= self.picture_type <= 3,
            decreases usize::MAX - self.buffer@.1,
        {
            proof {
                lemma_next_code_bounds(self.buffer@.0, aligned_byte(self.buffer@.1));
            }
            let ghost p0 = self.buffer@.1;
            self.start_code = self.buffer.next_start_code();
            if self.start_code != START_EXTENSION && self.start_code != START_USER_DATA {
                break;
            }
            proof {
                assert(p0 < self.buffer@.1);
            }
        }
    }

    /// Decodes slices while a slice start code stands, until the last
    /// macroblock of the picture is reached.
    #[verifier::spinoff_prover]
    #[verifier::rlimit(100)]
    fn decode_slices(&mut self, cur0: usize)
        requires
            old(self).decoding(),
            1 <= old(self).picture_type <= 3,
            old(self).cur == cur0,
        ensures
            final(self).decoding(),
            forall|i: int|
                0 <= i < 3 && i != cur0 ==> #[trigger] final(self).frames@[i] == old(self).frames@[i],
            final(self).buffer@.0 == old(self).buffer@.0,
            final(self).buffer@.1 >= old(self).buffer@.1,
            final(self).has_sequence_header,
            final(self).width == old(self).width,
            final(self).height == old(self).height,
            final(self).cur == old(self).cur,
            final(self).fwd == old(self).fwd,
            final(self).bwd == old(self).bwd,
            final(self).picture_type == old(self).picture_type,
            final(self).has_reference_frame == old(self).has_reference_frame,
            final(self).assume_no_b_frames == old(self).assume_no_b_frames,
            final(self).frames_decoded == old(self).frames_decoded,
            final(self).slices_decoded(old(self)),
    {
        let ghost before = *self;
        let ghost slices = *self;
        let ghost mut n: nat = 0;
        loop
            invariant_except_break
                self.decoding(),
                slices.cur == cur0,
                forall|i: int|
                    0 <= i < 3 && i != cur0 ==> #[trigger] self.frames@[i] == slices.frames@[i],
                self.buffer@.0 == slices.buffer@.0,
                self.buffer@.1 >= slices.buffer@.1,
                self.has_sequence_header,
                self.width == slices.width,
                self.height == slices.height,
                self.cur == slices.cur,
                self.fwd == slices.fwd,
                self.bwd == slices.bwd,
                self.picture_type == slices.picture_type,
                self.has_reference_frame == slices.has_reference_frame,
                self.assume_no_b_frames == slices.assume_no_b_frames,
                self.frames_decoded == slices.frames_decoded,
                1 <= self.picture_type <= 3,
                slice_rounds(slices, *self, n),
            ensures
                self.decoding(),
                forall|i: int|
                    0 <= i < 3 && i != cur0 ==> #[trigger] self.frames@[i] == slices.frames@[i],
                self.buffer@.0 == slices.buffer@.0,
                self.buffer@.1 >= slices.buffer@.1,
                self.has_sequence_header,
                self.width == slices.width,
                self.height == slices.height,
                self.cur == slices.cur,
                self.fwd == slices.fwd,
                self.bwd == slices.bwd,
                self.picture_type == slices.picture_type,
                self.has_reference_frame == slices.has_reference_frame,
                self.assume_no_b_frames == slices.assume_no_b_frames,
                self.frames_decoded == slices.frames_decoded,
                self.slices_decoded(&slices),
            decreases usize::MAX - self.buffer@.1, (if is_slice_code(self.start_code as int) {
                1int
            } else {
                0
            }),
        {
            let ghost y = *self;
            if !is_slice_start_code(self.start_code) {
                proof {
                    assert(slice_rounds(slices, y, n));
                    assert(self.slices_decoded(&slices));
                }
                break;
            }
            let code = self.start_code;
            proof {
                assert(code & 0xFF == code) by (bit_vector)
                    requires
                        1 <= code <= 0xAF,
                ;
            }
            self.decode_slice(code & 0xFF);
            let ghost d = *self;
            if self.macroblock_address >= self.mb_size as i32 - 1 {
                proof {
                    assert(slice_rounds(slices, y, n));
                    assert(self.slices_decoded(&slices));
                }
                break;
            }
            proof {
                lemma_next_code_bounds(self.buffer@.0, aligned_byte(self.buffer@.1));
            }
            self.start_code = self.buffer.next_start_code();
            proof {
                assert(d.slice_decoded(&y, y.start_code));
                assert(self.slice_round(&y));
                assert(slice_rounds(slices, *self, n + 1));
                n = n + 1;
            }
        }
    }

    /// Reads the picture header: the coding type and the motion setups;
    /// whether the picture is to be decoded.
    #[verifier::rlimit(100)]
    #[verifier::spinoff_prover]
    fn read_picture_header(&mut self) -> (go: bool)
        requires
            old(self).decoding(),
        ensures
            final(self).decoding(),
            ({
                let (t, fw, bw, pos, ok) = picture_header(*old(self));
                &&& go == ok
                &&& *final(self) == (Video {
                    picture_type: t,
                    motion_forward: fw,
                    motion_backward: bw,
                    buffer: final(self).buffer,
                    ..*old(self)
                })
                &&& final(self).buffer@ == (old(self).buffer@.0, pos)
            }),
    {
        self.buffer.skip(10);
        let ghost q = self.buffer@.1;
        let pt = self.buffer.read(3);
        proof {
            lemma_bits_bound(self.buffer@.0, q as int, 3);
            lemma2_to64();
        }
        self.picture_type = pt as i32;
        self.buffer.skip(16);
        if self.picture_type <= 0 || self.picture_type > PICTURE_TYPE_B {
            return false;
        }
        if self.picture_type == PICTURE_TYPE_PREDICTIVE || self.picture_type == PICTURE_TYPE_B {
            self.motion_forward.full_px = self.buffer.read(1) != 0;
            let ghost q2 = self.buffer@.1;
            let f_code = self.buffer.read(3);
            proof {
                lemma_bits_bound(self.buffer@.0, q2 as int, 3);
            }
            if f_code == 0 {
                return false;
            }
            self.motion_forward.r_size = f_code as i32 - 1;
        }
        if self.picture_type == PICTURE_TYPE_B {
            self.motion_backward.full_px = self.buffer.read(1) != 0;
            let ghost q3 = self.buffer@.1;
            let f_code = self.buffer.read(3);
            proof {
                lemma_bits_bound(self.buffer@.0, q3 as int, 3);
            }
            if f_code == 0 {
                return false;
            }
            self.motion_backward.r_size = f_code as i32 - 1;
        }
        true
    }

    #[verifier::spinoff_prover]
    #[verifier::rlimit(100)]
    fn decode_picture(&mut self)
        requires
            old(self).wf(),
            old(self).has_sequence_header,
        ensures
            final(self).wf(),
            final(self).has_sequence_header,
            final(self).buffer@.0 == old(self).buffer@.0,
            final(self).buffer@.1 >= old(self).buffer@.1,
            final(self).has_reference_frame == old(self).has_reference_frame,
            final(self).assume_no_b_frames == old(self).assume_no_b_frames,
            final(self).frames_decoded == old(self).frames_decoded,
            ({
                let (t, decoded) = picture_coding(old(self).buffer@.0, old(self).buffer@.1);
                &&& final(self).picture_type == t
                &&& if decoded && (t == PICTURE_TYPE_INTRA || t == PICTURE_TYPE_PREDICTIVE) {
                    final(self).cur == old(self).fwd && final(self).fwd == old(self).bwd
                        && final(self).bwd == old(self).cur
                } else {
                    final(self).cur == old(self).cur && final(self).fwd == old(self).fwd
                        && final(self).bwd == old(self).bwd
                }
            }),
            forall|i: int|
                0 <= i < 3 && i != old(self).cur ==> #[trigger] final(self).frames@[i] == old(
                    self,
                ).frames@[i],
            final(self).picture_decoded(old(self)),
    {
        reveal(Video::picture_decoded);
        let ghost before = *self;
        let ghost bytes = self.buffer@.0;
        proof {
            lemma_picture_header_coding(before);
        }
        let go = self.read_picture_header();
        if !go {
            proof {
                assert(self.picture_steps(&before, *self, *self, *self));
            }
            return;
        }
        let frame_temp = self.fwd;
        if self.picture_type == PICTURE_TYPE_INTRA || self.picture_type
            == PICTURE_TYPE_PREDICTIVE {
            self.fwd = self.bwd;
        }
        let ghost setup = *self;
        self.skip_extensions();
        let ghost slices = *self;
        let cur0 = self.cur;
        self.decode_slices(cur0);
        let ghost e = *self;
        if self.picture_type == PICTURE_TYPE_INTRA || self.picture_type
            == PICTURE_TYPE_PREDICTIVE {
            self.bwd = self.cur;
            self.cur = frame_temp;
        }
        proof {
            assert(self.picture_steps(&before, setup, slices, e));
        }
    }

    /// Decodes the next frame in display order: the index of the frame to
    /// show, or `None` when no header can be read, no further picture is
    /// found, or the next picture is not yet whole in the stream. Reference
    /// pictures are shown one picture late; at the end of the stream the
    /// last reference frame is shown once more.
    #[verifier::spinoff_prover]
    #[verifier::rlimit(100)]
    pub fn decode(&mut self) -> (r: Option<usize>)
        requires
            old(self).wf(),
        ensures
            final(self).wf(),
            final(self).stream() == old(self).stream(),
            final(self).stream_pos() >= old(self).stream_pos(),
            !final(self).header_parsed() ==> r is None,
            r matches Some(i) ==> final(self).header_parsed() && i < 3,
            r is None ==> final(self).displayed_frames() == old(self).displayed_frames(),
            final(self).displayed_frames() == old(self).displayed_frames() || (r is Some
                && final(self).displayed_frames() == old(self).displayed_frames() + 1),
            old(self).header_parsed() && old(self).picture_search().0 == -1 ==> r
                == old(self).flush_result(),
            old(self).header_parsed() && old(self).picture_search().0 != -1
                && !old(self).picture_ready() ==> r is None,
            old(self).header_parsed() && old(self).picture_ready() && old(
                self,
            ).holds_reference() ==> r == Some(old(self).shown_frame()),
            old(self).header_parsed() && old(self).picture_ready() && old(
                self,
            ).holds_reference() ==> final(self).next_picture_decoded(old(self)),
            old(self).header_parsed() && old(self).picture_search().0 != -1 && r is Some
                ==> final(self).picture_shown(old(self)) || final(self).flushed_after_first(
                old(self),
                r,
            ),
    {
        if !self.has_header() {
            return None;
        }
        let ghost before = *self;
        let ghost mut first = true;
        let ghost mut m_state = before;
        loop
            invariant
                old(self).header_parsed() ==> before == *old(self),
                first ==> *self == before,
                !first ==> before.picture_ready() && !before.has_reference_frame,
                !first ==> m_state.next_picture_decoded(&before) && *self == (Video {
                    has_reference_frame: true,
                    ..m_state
                }),
                self.wf(),
                self.has_sequence_header,
                self.buffer@.0 == before.buffer@.0,
                self.buffer@.1 >= before.buffer@.1,
                before.buffer@.0 == old(self).buffer@.0,
                before.buffer@.1 >= old(self).buffer@.1,
                self.frames_decoded == old(self).frames_decoded,
            decreases (if self.has_reference_frame {
                0int
            } else {
                1
            }),
        {
            let ghost top = *self;
            if self.start_code != START_PICTURE {
                proof {
                    lemma_find_code_progress(
                        self.buffer@.0,
                        aligned_byte(self.buffer@.1),
                        START_PICTURE as int,
                    );
                }
                self.start_code = self.buffer.find_start_code(START_PICTURE);
                if self.start_code == -1 {
                    if self.has_reference_frame && !self.assume_no_b_frames
                        && self.buffer.has_ended() && (self.picture_type == PICTURE_TYPE_INTRA
                        || self.picture_type == PICTURE_TYPE_PREDICTIVE) {
                        self.has_reference_frame = false;
                        proof {
                            if !first {
                                assert(Some(self.bwd) == top.flush_result());
                                assert(self.flushed_after_first(&before, Some(self.bwd)));
                            }
                        }
                        return Some(self.bwd);
                    }
                    return None;
                }
            }
            if self.buffer.has_start_code(START_PICTURE) == -1 && !self.buffer.has_ended() {
                return None;
            }
            let ghost p = *self;
            self.decode_picture();
            let ghost d = *self;
            let frame = if self.assume_no_b_frames {
                Some(self.bwd)
            } else if self.picture_type == PICTURE_TYPE_B {
                Some(self.cur)
            } else if self.has_reference_frame {
                Some(self.fwd)
            } else {
                self.has_reference_frame = true;
                None
            };
            if let Some(idx) = frame {
                if self.frames_decoded < u64::MAX {
                    self.frames_decoded = self.frames_decoded + 1;
                }
                proof {
                    assert(p == (Video { start_code: START_PICTURE, buffer: p.buffer, ..top }));
                    assert(p.buffer@ == (top.buffer@.0, top.picture_search().1));
                    assert(d.picture_decoded(&p));
                    assert(*self == (Video { frames_decoded: self.frames_decoded, ..d }));
                    assert(self.next_picture_decoded(&top));
                    if !first {
                        assert(self.picture_shown(&before));
                    }
                }
                return Some(idx);
            }
            proof {
                assert(p == (Video { start_code: START_PICTURE, buffer: p.buffer, ..top }));
                assert(p.buffer@ == (top.buffer@.0, top.picture_search().1));
                assert(d.next_picture_decoded(&top));
                m_state = d;
                first = false;
            }
        }
    }
}

/// The picture header at bit `pos` (after the picture start code): its
/// coding type, and whether the picture is decoded — a type 1 to 3 with
/// non-zero forward (and in bidirectional pictures backward) range codes.
pub open spec fn picture_coding(bytes: Seq<u8>, pos: nat) -> (int, bool) {
    let len = bytes.len();
    let p1 = bits_after(len, pos, 10);
    let t = bits_or_zero(bytes, p1, 3) as int;
    let p3 = bits_after(len, bits_after(len, p1, 3), 16);
    if t < 1 || t > 3 {
        (t, false)
    } else if t == 1 {
        (t, true)
    } else {
        let p4 = bits_after(len, p3, 1);
        let f = bits_or_zero(bytes, p4, 3);
        if f == 0 {
            (t, false)
        } else if t == 2 {
            (t, true)
        } else {
            let p6 = bits_after(len, bits_after(len, p4, 3), 1);
            (t, bits_or_zero(bytes, p6, 3) != 0)
        }
    }
}

/// The coding type and decision that `picture_header` reads are those of
/// `picture_coding`.
proof fn lemma_picture_header_coding(v: Video)
    ensures
        picture_header(v).0 as int == picture_coding(v.buffer@.0, v.buffer@.1).0,
        picture_header(v).4 == picture_coding(v.buffer@.0, v.buffer@.1).1,
{
    let bytes = v.buffer@.0;
    let len = bytes.len();
    let p1 = bits_after(len, v.buffer@.1, 10);
    lemma_bits_bound(bytes, p1 as int, 3);
    lemma2_to64();
}

/// A slice start code.
pub open spec fn is_slice_code(c: int) -> bool {
    START_SLICE_FIRST <= c <= START_SLICE_LAST
}

// ---------------------------------------------------------------------------
// Frames as RGB pictures.
// ---------------------------------------------------------------------------

/// A YCbCr pixel as an opaque `0xAARRGGBB` colour, by ITU-R BT.601 in
/// 16-bit fixed point (each product rounded down).
pub open spec fn ycbcr_pixel(y: int, cb: int, cr: int) -> u32 {
    let l = (y - 16) * 76309 / 65536;
    let r = clamp_u8(l + (cr - 128) * 104597 / 65536);
    let g = clamp_u8(l - ((cb - 128) * 25674 + (cr - 128) * 53278) / 65536);
    let b = clamp_u8(l + (cb - 128) * 132201 / 65536);
    (0xFF00_0000 + r * 65536 + g * 256 + b) as u32
}

/// `x / 65536` rounded down.
fn floor_div_65536(x: i32) -> (r: i32)
    ensures
        r == x as int / 65536,
{
    if x >= 0 {
        x / 65536
    } else {
        let q = (-(x as i64) - 1) / 65536;
        proof {
            vstd::arithmetic::div_mod::lemma_fundamental_div_mod(-(x as int) - 1, 65536);
            vstd::arithmetic::div_mod::lemma_fundamental_div_mod_converse(
                x as int,
                65536,
                -q - 1,
                65535 - (-(x as int) - 1) % 65536,
            );
        }
        (-q - 1) as i32
    }
}

fn ycbcr_to_rgb(y: u8, cb: u8, cr: u8) -> (r: u32)
    ensures
        r == ycbcr_pixel(y as int, cb as int, cr as int),
{
    let l = floor_div_65536((y as i32 - 16) * 76309);
    let c_r = cr as i32 - 128;
    let c_b = cb as i32 - 128;
    let red = clamp_to_u8((l + floor_div_65536(c_r * 104597)) as i64) as u32;
    let green = clamp_to_u8((l - floor_div_65536(c_b * 25674 + c_r * 53278)) as i64) as u32;
    let blue = clamp_to_u8((l + floor_div_65536(c_b * 132201)) as i64) as u32;
    0xFF00_0000 + red * 65536 + green * 256 + blue
}

impl Frame {
    /// The colour of picture pixel (`x`, `y`): its luma, with the chroma of
    /// the 2x2 block it lies in.
    pub open spec fn rgb_at(&self, x: int, y: int) -> u32 {
        ycbcr_pixel(
            self.y.data@[y * self.y.width + x] as int,
            self.cb.data@[(y / 2) * self.cb.width + x / 2] as int,
            self.cr.data@[(y / 2) * self.cr.width + x / 2] as int,
        )
    }

    /// The picture pixel that destination pixel `i` of a `dst_w` x `dst_h`
    /// picture shows when scaled to the nearest pixel.
    pub open spec fn scaled_rgb_at(&self, i: int, dst_w: int, dst_h: int) -> u32 {
        self.rgb_at((i % dst_w) * self.width / dst_w, (i / dst_w) * self.height / dst_h)
    }

    /// Writes the picture into `dst`, `dst_w` x `dst_h` pixels by rows,
    /// each showing the nearest picture pixel.
    pub fn write_rgb_scaled(&self, dst: &mut Vec<u32>, dst_w: usize, dst_h: usize)
        requires
            self.fits(self.width as int, self.height as int),
            0 < self.width < 4096,
            0 < self.height < 4096,
            0 < dst_w <= 65536,
            0 < dst_h <= 65536,
            old(dst)@.len() == dst_w * dst_h,
        ensures
            final(dst)@.len() == dst_w * dst_h,
            forall|i: int|
                0 <= i < dst_w * dst_h ==> #[trigger] final(dst)@[i] == self.scaled_rgb_at(
                    i,
                    dst_w as int,
                    dst_h as int,
                ),
    {
        let ghost n = dst_w * dst_h;
        let total = dst.len();
        let mut i: usize = 0;
        let mut py: usize = 0;
        proof {
            assert(dst_w * dst_h <= 65536 * 65536) by (nonlinear_arith)
                requires
                    dst_w <= 65536,
                    dst_h <= 65536,
            ;
        }
        while py < dst_h
            invariant
                self.fits(self.width as int, self.height as int),
                0 < self.width < 4096,
                0 < self.height < 4096,
                0 < dst_w <= 65536,
                0 < dst_h <= 65536,
                n == dst_w * dst_h,
                n <= 65536 * 65536,
                n == total,
                dst@.len() == n,
                py <= dst_h,
                i == py * dst_w,
                forall|j: int|
                    0 <= j < i ==> #[trigger] dst@[j] == self.scaled_rgb_at(
                        j,
                        dst_w as int,
                        dst_h as int,
                    ),
            decreases dst_h - py,
        {
            proof {
                assert((py + 1) * dst_w == py * dst_w + dst_w) by (nonlinear_arith);
                assert(py * dst_w + dst_w <= n) by (nonlinear_arith)
                    requires
                        py < dst_h,
                        n == dst_w * dst_h,
                ;
                assert(py * self.height <= 65536 * 4096) by (nonlinear_arith)
                    requires
                        py <= 65536,
                        self.height < 4096,
                ;
            }
            let sy = py * self.height / dst_h;
            proof {
                assert(sy < self.height) by (nonlinear_arith)
                    requires
                        sy == py * self.height / dst_h as int,
                        py < dst_h,
                        dst_h > 0,
                        self.height > 0,
                ;
            }
            let mut px: usize = 0;
            while px < dst_w
                invariant
                    self.fits(self.width as int, self.height as int),
                    0 < self.width < 4096,
                    0 < self.height < 4096,
                    0 < dst_w <= 65536,
                    0 < dst_h <= 65536,
                    n == dst_w * dst_h,
                    n <= 65536 * 65536,
                    n == total,
                    dst@.len() == n,
                    py < dst_h,
                    px <= dst_w,
                    sy < self.height,
                    sy == py * self.height / dst_h as int,
                    i == py * dst_w + px,
                    py * dst_w + dst_w <= n,
                    forall|j: int|
                        0 <= j < i ==> #[trigger] dst@[j] == self.scaled_rgb_at(
                            j,
                            dst_w as int,
                            dst_h as int,
                        ),
                decreases dst_w - px,
            {
                proof {
                    assert(px * self.width <= 65536 * 4096) by (nonlinear_arith)
                        requires
                            px <= 65536,
                            self.width < 4096,
                    ;
                }
                let sx = px * self.width / dst_w;
                proof {
                    assert(sx < self.width) by (nonlinear_arith)
                        requires
                            sx == px * self.width / dst_w as int,
                            px < dst_w,
                            dst_w > 0,
                            self.width > 0,
                    ;
                    lemma_frame_indices(
                        self.width as int,
                        self.height as int,
                        sx as int,
                        sy as int,
                    );
                    lemma_fundamental_div_mod_converse(i as int, dst_w as int, py as int, px as int);
                }
                let yv = self.y.data[sy * self.y.width + sx];
                let cb = self.cb.data[(sy / 2) * self.cb.width + sx / 2];
                let cr = self.cr.data[(sy / 2) * self.cr.width + sx / 2];
                let c = ycbcr_to_rgb(yv, cb, cr);
                dst.set(i, c);
                i = i + 1;
                px = px + 1;
            }
            py = py + 1;
        }
        proof {
            assert(dst_h * dst_w == dst_w * dst_h) by (nonlinear_arith);
        }
    }
}

/// The luma and chroma positions of a picture pixel lie inside their
/// planes.
proof fn lemma_frame_indices(width: int, height: int, x: int, y: int)
    requires
        0 < width < 4096,
        0 < height < 4096,
        0 <= x < width,
        0 <= y < height,
    ensures
        ({
            let lw = macroblocks(width) * 16;
            let lh = macroblocks(height) * 16;
            let cw = macroblocks(width) * 8;
            let ch = macroblocks(height) * 8;
            &&& 0 <= y * lw + x < lw * lh
            &&& 0 <= (y / 2) * cw + x / 2 < cw * ch
            &&& y * lw + x <= 4096 * 4096
            &&& (y / 2) * cw + x / 2 <= 4096 * 4096
        }),
{
    let lw = macroblocks(width) * 16;
    let lh = macroblocks(height) * 16;
    let cw = macroblocks(width) * 8;
    let ch = macroblocks(height) * 8;
    assert(width <= lw && height <= lh && x / 2 < cw && y / 2 < ch);
    assert(0 <= y * lw + x < lw * lh) by (nonlinear_arith)
        requires
            0 <= x < width <= lw,
            0 <= y < height <= lh,
    ;
    assert(0 <= (y / 2) * cw + x / 2 < cw * ch) by (nonlinear_arith)
        requires
            0 <= x / 2 < cw,
            0 <= y / 2 < ch,
    ;
    assert(lw <= 4096 && lh <= 4096 && cw <= 2048 && ch <= 2048);
    assert(lw * lh <= 4096 * 4096) by (nonlinear_arith)
        requires
            0 <= lw <= 4096,
            0 <= lh <= 4096,
    ;
    assert(cw * ch <= 4096 * 4096) by (nonlinear_arith)
        requires
            0 <= cw <= 2048,
            0 <= ch <= 2048,
    ;
}

/// The coefficient table decodes to an end.
spec fn vlc_table_ok_coeff() -> bool {
    crate::mpeg::buffer::vlc_table_ok(DCT_COEFF@)
}

} // verus!
