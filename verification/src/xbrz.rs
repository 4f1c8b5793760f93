//! A simplified xBRZ pixel-art scaler: each source pixel becomes a block of
//! `factor` by `factor` pixels (factor 2 to 4); a corner of the block is
//! blended half-way toward the opposite diagonal neighbour where the 3x3
//! neighbourhood shows a diagonal edge, so diagonal lines come out smooth
//! while horizontal and vertical edges stay sharp.

use vstd::prelude::*;

use crate::image_decoder::{lemma_index_bound, lemma_index_div_mod};
use crate::scaler::{bi_map_ok, bilinear_image, bilinear_scale, BiAxisMap};

verus! {

/// Colours closer than this (sum of the absolute red, green and blue
/// differences) count as similar.
pub const DIST_THRESHOLD: u32 = 80;

/// The 8-bit channel of `c` at bit `shift`.
pub open spec fn chan(c: u32, shift: u32) -> int {
    ((c >> shift) & 0xFFu32) as int
}

/// The absolute difference of two numbers.
pub open spec fn abs_diff(a: int, b: int) -> int {
    if a >= b {
        a - b
    } else {
        b - a
    }
}

/// The distance of two colours: the sum of the absolute differences of
/// their red, green and blue channels.
pub open spec fn color_dist(c1: u32, c2: u32) -> int {
    abs_diff(chan(c1, 16), chan(c2, 16)) + abs_diff(chan(c1, 8), chan(c2, 8)) + abs_diff(
        chan(c1, 0),
        chan(c2, 0),
    )
}

/// A channel blended from `x` toward `y` by `w` out of 255, rounded down.
pub open spec fn blend_chan(x: int, y: int, w: int) -> int {
    (x * (255 - w) + y * w) / 255
}

/// A colour from its four 8-bit channels.
pub open spec fn pack(a: int, r: int, g: int, b: int) -> u32 {
    (a * 0x100_0000 + r * 0x1_0000 + g * 0x100 + b) as u32
}

/// `base` blended toward `to` by `w` out of 255, channel by channel.
pub open spec fn blend_spec(base: u32, to: u32, w: u32) -> u32 {
    pack(
        blend_chan(chan(base, 24), chan(to, 24), w as int),
        blend_chan(chan(base, 16), chan(to, 16), w as int),
        blend_chan(chan(base, 8), chan(to, 8), w as int),
        blend_chan(chan(base, 0), chan(to, 0), w as int),
    )
}

/// Whether a corner of the block of `c` blends toward the opposite
/// diagonal neighbour `d3`: `d3` must be similar to `c`, and either the near
/// diagonal `d1` is similar while both edge neighbours differ, or both
/// diagonals `d1` and `d2` are similar to `c` but differ from each other.
pub open spec fn corner_blends(c: u32, d1: u32, d2: u32, d3: u32, adj_h: u32, adj_v: u32) -> bool {
    let t = DIST_THRESHOLD as int;
    color_dist(c, d3) <= t && ((color_dist(c, d1) <= t && color_dist(c, adj_h) > t && color_dist(
        c,
        adj_v,
    ) > t) || (color_dist(c, d1) <= t && color_dist(c, d2) <= t && color_dist(d1, d2) > t))
}

/// The source pixel at (`x`, `y`); transparent black off the image.
pub open spec fn src_at(src: Seq<u32>, sw: int, sh: int, x: int, y: int) -> u32 {
    if 0 <= x < sw && 0 <= y < sh {
        src[y * sw + x]
    } else {
        0
    }
}

/// The output pixel at (`ox`, `oy`) of scaling `src` by `f`.
pub open spec fn xbrz_pixel(src: Seq<u32>, sw: int, sh: int, f: int, ox: int, oy: int) -> u32 {
    let x = ox / f;
    let y = oy / f;
    let dx = ox % f;
    let dy = oy % f;
    let c = src_at(src, sw, sh, x, y);
    let nw = src_at(src, sw, sh, x - 1, y - 1);
    let n = src_at(src, sw, sh, x, y - 1);
    let ne = src_at(src, sw, sh, x + 1, y - 1);
    let w = src_at(src, sw, sh, x - 1, y);
    let e = src_at(src, sw, sh, x + 1, y);
    let sw_p = src_at(src, sw, sh, x - 1, y + 1);
    let s = src_at(src, sw, sh, x, y + 1);
    let se = src_at(src, sw, sh, x + 1, y + 1);
    if dx == f - 1 && dy == f - 1 && corner_blends(c, se, sw_p, nw, s, e) {
        blend_spec(c, nw, 128)
    } else if dx == 0 && dy == f - 1 && corner_blends(c, sw_p, se, ne, s, w) {
        blend_spec(c, ne, 128)
    } else if dx == f - 1 && dy == 0 && corner_blends(c, ne, nw, sw_p, n, e) {
        blend_spec(c, sw_p, 128)
    } else if dx == 0 && dy == 0 && corner_blends(c, nw, ne, se, n, w) {
        blend_spec(c, se, 128)
    } else {
        c
    }
}

/// The whole scaled image, row by row.
pub open spec fn xbrz_image(src: Seq<u32>, sw: int, sh: int, f: int) -> Seq<u32> {
    Seq::new((sw * f * (sh * f)) as nat, |p: int| xbrz_pixel(src, sw, sh, f, p % (sw * f), p / (sw * f)))
}

/// The 8-bit channel of `c` at bit `shift`.
fn channel(c: u32, shift: u32) -> (r: u32)
    requires
        shift < 32,
    ensures
        r == chan(c, shift),
        r <= 255,
{
    let r = (c >> shift) & 0xFF;
    assert(((c >> shift) & 0xFFu32) <= 255u32) by (bit_vector);
    r
}

/// Blends `base` toward `blend_to` by `weight` out of 255: 255 gives
/// `blend_to`, 0 keeps `base`.
pub fn blend_pixel(base: u32, blend_to: u32, weight: u32) -> (r: u32)
    requires
        weight <= 255,
    ensures
        r == blend_spec(base, blend_to, weight),
{
    let inv = 255 - weight;
    let a0 = channel(base, 24);
    let a1 = channel(blend_to, 24);
    let r0 = channel(base, 16);
    let r1 = channel(blend_to, 16);
    let g0 = channel(base, 8);
    let g1 = channel(blend_to, 8);
    let b0 = channel(base, 0);
    let b1 = channel(blend_to, 0);
    proof {
        assert(a0 * inv <= 255 * 255 && a1 * weight <= 255 * 255) by (nonlinear_arith)
            requires a0 <= 255, a1 <= 255, inv <= 255, weight <= 255;
        assert(r0 * inv <= 255 * 255 && r1 * weight <= 255 * 255) by (nonlinear_arith)
            requires r0 <= 255, r1 <= 255, inv <= 255, weight <= 255;
        assert(g0 * inv <= 255 * 255 && g1 * weight <= 255 * 255) by (nonlinear_arith)
            requires g0 <= 255, g1 <= 255, inv <= 255, weight <= 255;
        assert(b0 * inv <= 255 * 255 && b1 * weight <= 255 * 255) by (nonlinear_arith)
            requires b0 <= 255, b1 <= 255, inv <= 255, weight <= 255;
    }
    let a = (a0 * inv + a1 * weight) / 255;
    let r = (r0 * inv + r1 * weight) / 255;
    let g = (g0 * inv + g1 * weight) / 255;
    let b = (b0 * inv + b1 * weight) / 255;
    proof {
        assert((a0 * inv + a1 * weight) / 255 <= 255) by (nonlinear_arith)
            requires a0 <= 255, a1 <= 255, inv + weight == 255;
        assert((r0 * inv + r1 * weight) / 255 <= 255) by (nonlinear_arith)
            requires r0 <= 255, r1 <= 255, inv + weight == 255;
        assert((g0 * inv + g1 * weight) / 255 <= 255) by (nonlinear_arith)
            requires g0 <= 255, g1 <= 255, inv + weight == 255;
        assert((b0 * inv + b1 * weight) / 255 <= 255) by (nonlinear_arith)
            requires b0 <= 255, b1 <= 255, inv + weight == 255;
        assert(a <= 255 && r <= 255 && g <= 255 && b <= 255);
        assert((a << 24u32) | (r << 16u32) | (g << 8u32) | b == a * 0x100_0000 + r * 0x1_0000 + g
            * 0x100 + b) by (bit_vector)
            requires a <= 255u32, r <= 255u32, g <= 255u32, b <= 255u32;
    }
    (a << 24) | (r << 16) | (g << 8) | b
}

/// The distance of two colours.
pub fn color_distance(c1: u32, c2: u32) -> (r: u32)
    ensures
        r == color_dist(c1, c2),
{
    let dr = diff(channel(c1, 16), channel(c2, 16));
    let dg = diff(channel(c1, 8), channel(c2, 8));
    let db = diff(channel(c1, 0), channel(c2, 0));
    dr + dg + db
}

/// The absolute difference of two channels.
fn diff(a: u32, b: u32) -> (r: u32)
    requires
        a <= 255,
        b <= 255,
    ensures
        r == abs_diff(a as int, b as int),
        r <= 255,
{
    if a >= b {
        a - b
    } else {
        b - a
    }
}

/// Whether a corner of the block of `c` blends toward `d3`.
pub fn should_blend_corner(c: u32, d1: u32, d2: u32, d3: u32, adj_h: u32, adj_v: u32) -> (r: bool)
    ensures
        r == corner_blends(c, d1, d2, d3, adj_h, adj_v),
{
    let similar_d1 = color_distance(c, d1) <= DIST_THRESHOLD;
    let similar_d2 = color_distance(c, d2) <= DIST_THRESHOLD;
    let similar_d3 = color_distance(c, d3) <= DIST_THRESHOLD;
    let similar_h = color_distance(c, adj_h) <= DIST_THRESHOLD;
    let similar_v = color_distance(c, adj_v) <= DIST_THRESHOLD;
    if !similar_d3 {
        return false;
    }
    if similar_d1 && !similar_h && !similar_v {
        return true;
    }
    if similar_d1 && similar_d2 && color_distance(d1, d2) > DIST_THRESHOLD {
        return true;
    }
    false
}

/// The source pixel at (`x`, `y`), transparent black off the image.
fn get(src: &[u32], sw: usize, sh: usize, x: i64, y: i64) -> (r: u32)
    requires
        src@.len() >= sw * sh,
        sw <= u32::MAX,
        sh <= u32::MAX,
    ensures
        r == src_at(src@, sw as int, sh as int, x as int, y as int),
{
    if 0 <= x && x < sw as i64 && 0 <= y && y < sh as i64 {
        let yu = y as usize;
        let xu = x as usize;
        let n = src.len();
        assert(yu == y && xu == x);
        proof {
            lemma_index_bound(y as int, sw as int, x as int, sh as int);
            assert(sh * sw <= n) by (nonlinear_arith)
                requires n >= sw * sh;
            assert((yu as int) * (sw as int) <= (yu as int) * (sw as int) + xu as int);
        }
        src[yu * sw + xu]
    } else {
        0
    }
}

/// The output pixel at (`ox`, `oy`).
fn pixel_at(src: &[u32], sw: usize, sh: usize, f: usize, ox: usize, oy: usize) -> (r: u32)
    requires
        src@.len() >= sw * sh,
        sw <= u32::MAX,
        sh <= u32::MAX,
        1 <= f,
        ox < sw * f,
        oy < sh * f,
    ensures
        r == xbrz_pixel(src@, sw as int, sh as int, f as int, ox as int, oy as int),
{
    proof {
        assert(ox / f < sw) by (nonlinear_arith)
            requires ox < sw * f, 1 <= f;
        assert(oy / f < sh) by (nonlinear_arith)
            requires oy < sh * f, 1 <= f;
    }
    let x = (ox / f) as i64;
    let y = (oy / f) as i64;
    let dx = ox % f;
    let dy = oy % f;
    let c = get(src, sw, sh, x, y);
    let nw = get(src, sw, sh, x - 1, y - 1);
    let n = get(src, sw, sh, x, y - 1);
    let ne = get(src, sw, sh, x + 1, y - 1);
    let w = get(src, sw, sh, x - 1, y);
    let e = get(src, sw, sh, x + 1, y);
    let sw_p = get(src, sw, sh, x - 1, y + 1);
    let s = get(src, sw, sh, x, y + 1);
    let se = get(src, sw, sh, x + 1, y + 1);
    if dx == f - 1 && dy == f - 1 && should_blend_corner(c, se, sw_p, nw, s, e) {
        blend_pixel(c, nw, 128)
    } else if dx == 0 && dy == f - 1 && should_blend_corner(c, sw_p, se, ne, s, w) {
        blend_pixel(c, ne, 128)
    } else if dx == f - 1 && dy == 0 && should_blend_corner(c, ne, nw, sw_p, n, e) {
        blend_pixel(c, sw_p, 128)
    } else if dx == 0 && dy == 0 && should_blend_corner(c, nw, ne, se, n, w) {
        blend_pixel(c, se, 128)
    } else {
        c
    }
}

/// Scales `src` (`src_w` by `src_h`, row-major ARGB) by `factor`, 2 to 4;
/// the result is `src_w * factor` by `src_h * factor`.
pub fn scale_xbrz(src: &[u32], src_w: u32, src_h: u32, factor: u32) -> (r: Vec<u32>)
    requires
        1 <= factor,
        src@.len() >= src_w * src_h,
        src_w * factor <= usize::MAX,
        src_h * factor <= usize::MAX,
        src_w * factor * (src_h * factor) <= usize::MAX,
    ensures
        r@ == xbrz_image(src@, src_w as int, src_h as int, factor as int),
{
    let sw = src_w as usize;
    let sh = src_h as usize;
    let f = factor as usize;
    let dw = sw * f;
    let dh = sh * f;
    let ghost img = xbrz_image(src@, sw as int, sh as int, f as int);
    let mut out: Vec<u32> = Vec::new();
    let mut oy: usize = 0;
    assert(dh * dw == sw * f * (sh * f)) by (nonlinear_arith)
        requires dw == sw * f, dh == sh * f;
    assert(out@ =~= img.subrange(0, 0));
    while oy < dh
        invariant
            sw == src_w && sh == src_h && f == factor,
            1 <= f,
            src@.len() >= sw * sh,
            dw == sw * f && dh == sh * f,
            dh * dw <= usize::MAX,
            img == xbrz_image(src@, sw as int, sh as int, f as int),
            oy <= dh,
            oy * dw <= dh * dw,
            img.len() == dh * dw,
            out@ == img.subrange(0, oy * dw),
        decreases dh - oy,
    {
        let mut ox: usize = 0;
        proof {
            assert(oy * dw + dw <= dh * dw) by (nonlinear_arith)
                requires oy < dh;
        }
        while ox < dw
            invariant
                sw == src_w && sh == src_h && f == factor,
                1 <= f,
                src@.len() >= sw * sh,
                dw == sw * f && dh == sh * f,
                dh * dw <= usize::MAX,
                img == xbrz_image(src@, sw as int, sh as int, f as int),
                oy < dh,
                ox <= dw,
                oy * dw + dw <= dh * dw,
                img.len() == dh * dw,
                out@ == img.subrange(0, oy * dw + ox),
            decreases dw - ox,
        {
            proof {
                lemma_index_bound(oy as int, dw as int, ox as int, dh as int);
                lemma_index_div_mod(oy as int, dw as int, ox as int);
            }
            let v = pixel_at(src, sw, sh, f, ox, oy);
            out.push(v);
            assert(img[oy * dw + ox] == v);
            assert(out@ =~= img.subrange(0, oy * dw + ox + 1));
            ox = ox + 1;
        }
        assert((oy + 1) * dw == oy * dw + dw) by (nonlinear_arith);
        oy = oy + 1;
        assert(oy * dw <= dh * dw) by (nonlinear_arith)
            requires oy <= dh;
    }
    assert(out@ =~= img);
    out
}

/// Scales `src` by `factor` into the first `(src_w * factor) * (src_h *
/// factor)` pixels of `dst`; the rest of `dst` stays as it was.
pub fn scale(src: &[u32], src_w: u32, src_h: u32, factor: u32, dst: &mut [u32])
    requires
        1 <= factor,
        src@.len() >= src_w * src_h,
        src_w * factor <= usize::MAX,
        src_h * factor <= usize::MAX,
        old(dst)@.len() >= src_w * factor * (src_h * factor),
    ensures
        final(dst)@.len() == old(dst)@.len(),
        final(dst)@.subrange(0, src_w * factor * (src_h * factor)) == xbrz_image(
            src@,
            src_w as int,
            src_h as int,
            factor as int,
        ),
        final(dst)@.subrange(src_w * factor * (src_h * factor), old(dst)@.len() as int)
            == old(dst)@.subrange(src_w * factor * (src_h * factor), old(dst)@.len() as int),
        old(dst)@.len() == src_w * factor * (src_h * factor) ==> final(dst)@ == xbrz_image(
            src@,
            src_w as int,
            src_h as int,
            factor as int,
        ),
{
    let sw = src_w as usize;
    let sh = src_h as usize;
    let f = factor as usize;
    let dw = sw * f;
    let dh = sh * f;
    let ghost img = xbrz_image(src@, sw as int, sh as int, f as int);
    let ghost old_dst = dst@;
    let n = dst.len();
    assert(dh * dw == sw * f * (sh * f)) by (nonlinear_arith)
        requires dw == sw * f, dh == sh * f;
    let mut oy: usize = 0;
    while oy < dh
        invariant
            sw == src_w && sh == src_h && f == factor,
            1 <= f,
            src@.len() >= sw * sh,
            dw == sw * f && dh == sh * f,
            dh * dw <= n,
            n == dst@.len(),
            n == old_dst.len(),
            img == xbrz_image(src@, sw as int, sh as int, f as int),
            img.len() == dh * dw,
            oy <= dh,
            forall|p: int| 0 <= p < oy * dw ==> #[trigger] dst@[p] == img[p],
            forall|p: int| oy * dw <= p < n ==> #[trigger] dst@[p] == old_dst[p],
        decreases dh - oy,
    {
        let mut ox: usize = 0;
        proof {
            assert(oy * dw + dw <= dh * dw) by (nonlinear_arith)
                requires oy < dh;
        }
        while ox < dw
            invariant
                sw == src_w && sh == src_h && f == factor,
                1 <= f,
                src@.len() >= sw * sh,
                dw == sw * f && dh == sh * f,
                dh * dw <= n,
                n == dst@.len(),
                n == old_dst.len(),
                img == xbrz_image(src@, sw as int, sh as int, f as int),
                img.len() == dh * dw,
                oy < dh,
                ox <= dw,
                oy * dw + dw <= dh * dw,
                forall|p: int| 0 <= p < oy * dw + ox ==> #[trigger] dst@[p] == img[p],
                forall|p: int| oy * dw + ox <= p < n ==> #[trigger] dst@[p] == old_dst[p],
            decreases dw - ox,
        {
            proof {
                lemma_index_div_mod(oy as int, dw as int, ox as int);
            }
            let v = pixel_at(src, sw, sh, f, ox, oy);
            dst[oy * dw + ox] = v;
            assert(img[oy * dw + ox] == v);
            ox = ox + 1;
        }
        assert((oy + 1) * dw == oy * dw + dw) by (nonlinear_arith);
        oy = oy + 1;
    }
    assert(dst@.subrange(0, dh * dw) =~= img);
    assert(dst@.subrange(dh * dw, n as int) =~= old_dst.subrange(dh * dw, n as int));
    assert(dst@.subrange(0, dst@.len() as int) =~= dst@);
}


/// The xBRZ factor for a resize: the larger of the whole-number ratios of
/// the sizes, held to 2..=4.
pub open spec fn xbrz_factor_spec(src_w: int, src_h: int, dst_w: int, dst_h: int) -> int {
    let fx = dst_w / src_w;
    let fy = dst_h / src_h;
    let m = if fx > fy {
        fx
    } else {
        fy
    };
    if m < 2 {
        2
    } else if m > 4 {
        4
    } else {
        m
    }
}

/// Resizing to an exact multiple 2 to 4 of the source takes that multiple
/// as the xBRZ factor, so `scale_with_bilinear` then gives the xBRZ image
/// at that factor alone, with no bilinear pass.
pub proof fn lemma_exact_multiple_factor(src_w: int, src_h: int, f: int)
    requires
        src_w >= 1,
        src_h >= 1,
        2 <= f <= 4,
    ensures
        xbrz_factor_spec(src_w, src_h, src_w * f, src_h * f) == f,
{
    vstd::arithmetic::div_mod::lemma_div_by_multiple(f, src_w);
    vstd::arithmetic::div_mod::lemma_div_by_multiple(f, src_h);
    assert(f * src_w == src_w * f) by (nonlinear_arith);
    assert(f * src_h == src_h * f) by (nonlinear_arith);
}

/// The xBRZ factor for resizing `src_w` by `src_h` to `dst_w` by `dst_h`.
pub fn xbrz_factor(src_w: u32, src_h: u32, dst_w: u32, dst_h: u32) -> (r: u32)
    requires
        src_w > 0,
        src_h > 0,
    ensures
        r == xbrz_factor_spec(src_w as int, src_h as int, dst_w as int, dst_h as int),
        2 <= r <= 4,
{
    let factor_x = dst_w / src_w;
    let factor_y = dst_h / src_h;
    let m = if factor_x > factor_y {
        factor_x
    } else {
        factor_y
    };
    if m < 2 {
        2
    } else if m > 4 {
        4
    } else {
        m
    }
}

/// Resizes `src` (`src_w` by `src_h`) to `dst_w` by `dst_h`: xBRZ at the
/// factor `xbrz_factor` gives; when that is not already the requested
/// size, the xBRZ picture is resampled bilinearly with the axis maps
/// `bi_x` and `bi_y` (one entry per output column and row, into the xBRZ
/// picture), which are not read otherwise.
pub fn scale_with_bilinear(
    src: &[u32],
    src_w: u32,
    src_h: u32,
    dst_w: u32,
    dst_h: u32,
    bi_x: &[BiAxisMap],
    bi_y: &[BiAxisMap],
    dst: &mut [u32],
)
    requires
        src_w > 0,
        src_h > 0,
        src@.len() >= src_w * src_h,
        ({
            let f = xbrz_factor_spec(src_w as int, src_h as int, dst_w as int, dst_h as int);
            &&& src_w * f <= u32::MAX
            &&& src_h * f <= u32::MAX
            &&& (src_w * f == dst_w && src_h * f == dst_h) ==> old(dst)@.len() >= dst_w * dst_h
            &&& !(src_w * f == dst_w && src_h * f == dst_h) ==> {
                &&& src_w * f * (src_h * f) <= u32::MAX
                &&& bi_x@.len() == dst_w
                &&& bi_y@.len() == dst_h
                &&& bi_map_ok(bi_x@, src_w * f)
                &&& bi_map_ok(bi_y@, src_h * f)
                &&& dst_w * dst_h <= old(dst)@.len()
            }
        }),
    ensures
        ({
            let f = xbrz_factor_spec(src_w as int, src_h as int, dst_w as int, dst_h as int);
            let img = xbrz_image(src@, src_w as int, src_h as int, f);
            &&& (src_w * f == dst_w && src_h * f == dst_h) ==> {
                &&& final(dst)@.len() == old(dst)@.len()
                &&& final(dst)@.subrange(0, dst_w * dst_h) == img
                &&& final(dst)@.subrange(dst_w * dst_h, old(dst)@.len() as int) == old(dst)@.subrange(
                    dst_w * dst_h,
                    old(dst)@.len() as int,
                )
            }
            &&& !(src_w * f == dst_w && src_h * f == dst_h) ==> final(dst)@ == bilinear_image(
                img,
                src_w * f,
                src_h * f,
                bi_x@,
                bi_y@,
                old(dst)@,
            )
        }),
        ({
            let f = dst_w as int / src_w as int;
            (dst_w == src_w * f && dst_h == src_h * f && 2 <= f <= 4) ==> final(dst)@.subrange(
                0,
                dst_w * dst_h,
            ) == xbrz_image(src@, src_w as int, src_h as int, f)
        }),
{
    proof {
        let f = dst_w as int / src_w as int;
        if dst_w == src_w * f && dst_h == src_h * f && 2 <= f <= 4 {
            lemma_exact_multiple_factor(src_w as int, src_h as int, f);
        }
    }
    let factor = xbrz_factor(src_w, src_h, dst_w, dst_h);
    let xbrz_w = src_w * factor;
    let xbrz_h = src_h * factor;
    if xbrz_w == dst_w && xbrz_h == dst_h {
        scale(src, src_w, src_h, factor, dst);
        return;
    }
    let xbrz_buf = scale_xbrz(src, src_w, src_h, factor);
    bilinear_scale(xbrz_buf.as_slice(), xbrz_w, xbrz_h, bi_x, bi_y, dst);
}

} // verus!
