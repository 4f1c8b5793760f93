//! Decoders for the two Native32 image encodings: YUV 4:2:0 with a
//! packbits-like quad compression, and ARGB1555 with run-length encoding.
//! Both produce ARGB8888 pixels, row-major.
//!
//! Every image starts with an 8-byte header: width (u16 LE), height (u16 LE)
//! and the byte size of the command stream (u32 LE).

use vstd::prelude::*;
use vstd::arithmetic::div_mod::lemma_fundamental_div_mod_converse;

verus! {

/// A decoded image: ARGB8888 pixels in row-major order.
#[derive(Debug)]
pub struct RgbaImage {
    pub width: u32,
    pub height: u32,
    pub pixels: Vec<u32>,
}

impl View for RgbaImage {
    type V = (u32, u32, Seq<u32>);

    open spec fn view(&self) -> (u32, u32, Seq<u32>) {
        (self.width, self.height, self.pixels@)
    }
}

impl Clone for RgbaImage {
    fn clone(&self) -> (r: Self)
        ensures
            r@ == self@,
    {
        let mut pixels: Vec<u32> = Vec::new();
        let mut k: usize = 0;
        while k < self.pixels.len()
            invariant
                k <= self.pixels.len(),
                pixels@ == self.pixels@.subrange(0, k as int),
            decreases self.pixels.len() - k,
        {
            pixels.push(self.pixels[k]);
            k = k + 1;
        }
        RgbaImage { width: self.width, height: self.height, pixels }
    }
}

/// The view of an optional image.
pub open spec fn opt_image_view(o: Option<RgbaImage>) -> Option<(u32, u32, Seq<u32>)> {
    match o {
        Some(img) => Some(img@),
        None => None,
    }
}

// ---------------------------------------------------------------------------
// Little-endian reads and pixel packing
// ---------------------------------------------------------------------------

/// The little-endian 16-bit value stored at `off`.
pub open spec fn le16(d: Seq<u8>, off: int) -> int {
    d[off] + d[off + 1] * 256
}

/// The little-endian 32-bit value stored at `off`.
pub open spec fn le32(d: Seq<u8>, off: int) -> int {
    d[off] + d[off + 1] * 256 + d[off + 2] * 65536 + d[off + 3] * 16777216
}

/// An ARGB8888 pixel from its four 8-bit channels.
pub open spec fn argb(a: int, r: int, g: int, b: int) -> int {
    a * 16777216 + r * 65536 + g * 256 + b
}

pub fn read_u16_le_slice(data: &[u8], offset: usize) -> (r: u16)
    requires
        offset + 2 <= data@.len(),
    ensures
        r == le16(data@, offset as int),
{
    data[offset] as u16 + (data[offset + 1] as u16) * 256
}

pub fn read_u32_le_slice(data: &[u8], offset: usize) -> (r: u32)
    requires
        offset + 4 <= data@.len(),
    ensures
        r == le32(data@, offset as int),
{
    data[offset] as u32 + (data[offset + 1] as u32) * 256 + (data[offset + 2] as u32) * 65536 + (
    data[offset + 3] as u32) * 16777216
}

/// `v` clamped to the byte range.
pub open spec fn clip_spec(v: int) -> int {
    if v < 0 {
        0
    } else if v > 255 {
        255
    } else {
        v
    }
}

/// Clamp to 0..=255.
pub fn clip(v: i32) -> (r: u8)
    ensures
        r == clip_spec(v as int),
{
    if v < 0 {
        0
    } else if v > 255 {
        255
    } else {
        v as u8
    }
}

/// The ARGB8888 value of an ARGB1555 pixel: bit 15 clear is fully transparent,
/// otherwise opaque with each 5-bit channel (red in the low bits, blue in the
/// high bits) shifted left by 3.
pub open spec fn argb1555_spec(value: int) -> int {
    if value < 0x8000 {
        0
    } else {
        argb(255, (value % 32) * 8, ((value / 32) % 32) * 8, ((value / 1024) % 32) * 8)
    }
}

/// Convert an ARGB1555 pixel to ARGB8888.
pub fn argb1555_to_argb(value: u16) -> (r: u32)
    ensures
        r == argb1555_spec(value as int),
{
    if value < 0x8000 {
        0x00000000
    } else {
        let r = ((value % 32) * 8) as u32;
        let g = (((value / 32) % 32) * 8) as u32;
        let b = (((value / 1024) % 32) * 8) as u32;
        0xFF000000 + r * 65536 + g * 256 + b
    }
}

// ---------------------------------------------------------------------------
// Chroma upsampling
// ---------------------------------------------------------------------------

/// Byte `i` of `d`, or 0 outside of it.
pub open spec fn byte_or_zero(d: Seq<u8>, i: int) -> u8 {
    if 0 <= i < d.len() {
        d[i]
    } else {
        0
    }
}

/// Element `k` of the vertical 2x upsampling of the `w` x `h` plane `d`.
/// Each source row is emitted twice; a zero sample is replaced by the one
/// above (first copy) or below (second copy) unless on the border row.
pub open spec fn interp_y_at(d: Seq<u8>, w: int, h: int, k: int) -> u8 {
    let y1 = k / w;
    let x = k % w;
    let y = y1 / 2;
    let here = byte_or_zero(d, y * w + x);
    if y1 % 2 == 0 {
        if y == 0 || here != 0 {
            here
        } else {
            byte_or_zero(d, (y - 1) * w + x)
        }
    } else {
        if y == h - 1 || here != 0 {
            here
        } else {
            byte_or_zero(d, (y + 1) * w + x)
        }
    }
}

/// Element `k` of the horizontal 2x upsampling of the `w` x `h` plane `d`.
pub open spec fn interp_x_at(d: Seq<u8>, w: int, h: int, k: int) -> u8 {
    let y = k / (2 * w);
    let x1 = k % (2 * w);
    let x = x1 / 2;
    let here = byte_or_zero(d, y * w + x);
    if x1 % 2 == 0 {
        if x == 0 || here != 0 {
            here
        } else {
            byte_or_zero(d, y * w + (x - 1))
        }
    } else {
        if x == w - 1 || here != 0 {
            here
        } else {
            byte_or_zero(d, y * w + (x + 1))
        }
    }
}

pub open spec fn interp_y_seq(d: Seq<u8>, w: int, h: int) -> Seq<u8> {
    Seq::new((w * (2 * h)) as nat, |k: int| interp_y_at(d, w, h, k))
}

pub open spec fn interp_x_seq(d: Seq<u8>, w: int, h: int) -> Seq<u8> {
    Seq::new(((2 * w) * h) as nat, |k: int| interp_x_at(d, w, h, k))
}

/// Row-major index arithmetic: `y * w + x` with `x < w` determines `y` and `x`.
pub proof fn lemma_index_div_mod(y: int, w: int, x: int)
    requires
        0 <= x < w,
    ensures
        (y * w + x) / w == y,
        (y * w + x) % w == x,
{
    lemma_fundamental_div_mod_converse(y * w + x, w, y, x);
}

/// Row-major index arithmetic: the index of an in-range cell is in range.
pub proof fn lemma_index_bound(y: int, w: int, x: int, h: int)
    requires
        0 <= y < h,
        0 <= x < w,
    ensures
        0 <= y * w + x < h * w,
        y * w + x + 1 <= h * w,
{
    assert(y * w + x < h * w) by (nonlinear_arith)
        requires
            0 <= y < h,
            0 <= x < w,
    ;
    assert(0 <= y * w) by (nonlinear_arith)
        requires
            0 <= y,
            0 <= x < w,
    ;
}

fn get_or_zero(d: &[u8], i: usize) -> (r: u8)
    ensures
        r == byte_or_zero(d@, i as int),
{
    if i < d.len() {
        d[i]
    } else {
        0
    }
}

/// Interpolate U/V vertically (2x upsampling).
pub fn interpolate_y(data: &[u8], w: usize, h: usize) -> (r: Vec<u8>)
    requires
        w * (2 * h) <= usize::MAX,
        2 * h <= usize::MAX,
    ensures
        r@ == interp_y_seq(data@, w as int, h as int),
{
    proof {
        assert(h * w <= w * (2 * h) && (2 * h) * w == w * (2 * h)) by (nonlinear_arith);
    }
    let mut result: Vec<u8> = Vec::new();
    let mut y: usize = 0;
    while y < h
        invariant
            (2 * h) * w <= usize::MAX,
            h * w <= usize::MAX,
            2 * h <= usize::MAX,
            y <= h,
            result@.len() == (2 * y) * w,
            forall|k: int|
                0 <= k < result@.len() ==> #[trigger] result@[k] == interp_y_at(
                    data@,
                    w as int,
                    h as int,
                    k,
                ),
        decreases h - y,
    {
        let mut dy: usize = 0;
        while dy < 2
            invariant
                (2 * h) * w <= usize::MAX,
                h * w <= usize::MAX,
                2 * h <= usize::MAX,
                y < h,
                dy <= 2,
                result@.len() == (2 * y + dy) * w,
                forall|k: int|
                    0 <= k < result@.len() ==> #[trigger] result@[k] == interp_y_at(
                        data@,
                        w as int,
                        h as int,
                        k,
                    ),
            decreases 2 - dy,
        {
            let y1 = y * 2 + dy;
            let mut x: usize = 0;
            while x < w
                invariant
                    (2 * h) * w <= usize::MAX,
                    h * w <= usize::MAX,
                    y < h,
                    dy < 2,
                    y1 == 2 * y + dy,
                    x <= w,
                    result@.len() == y1 * w + x,
                    forall|k: int|
                        0 <= k < result@.len() ==> #[trigger] result@[k] == interp_y_at(
                            data@,
                            w as int,
                            h as int,
                            k,
                        ),
                decreases w - x,
            {
                proof {
                    lemma_index_bound(y1 as int, w as int, x as int, (2 * h) as int);
                    lemma_index_div_mod(y1 as int, w as int, x as int);
                    lemma_index_div_mod(y as int, 2, dy as int);
                    lemma_index_bound(y as int, w as int, x as int, h as int);
                    if y + 1 < h {
                        lemma_index_bound((y + 1) as int, w as int, x as int, h as int);
                    }
                    if y > 0 {
                        lemma_index_bound((y - 1) as int, w as int, x as int, h as int);
                    }
                }
                let here = get_or_zero(data, y * w + x);
                let val = if dy == 0 {
                    if y == 0 || here != 0 {
                        here
                    } else {
                        get_or_zero(data, (y - 1) * w + x)
                    }
                } else {
                    if y == h - 1 || here != 0 {
                        here
                    } else {
                        get_or_zero(data, (y + 1) * w + x)
                    }
                };
                result.push(val);
                x = x + 1;
            }
            proof {
                assert((y1 + 1) * w == y1 * w + w) by (nonlinear_arith);
            }
            dy = dy + 1;
        }
        proof {
            assert((2 * y + 2) * w == 2 * (y + 1) * w) by (nonlinear_arith);
        }
        y = y + 1;
    }
    assert(result@ =~= interp_y_seq(data@, w as int, h as int));
    result
}

/// Interpolate U/V horizontally (2x upsampling).
pub fn interpolate_x(data: &[u8], w: usize, h: usize) -> (r: Vec<u8>)
    requires
        (2 * w) * h <= usize::MAX,
        2 * w <= usize::MAX,
    ensures
        r@ == interp_x_seq(data@, w as int, h as int),
{
    let w1 = w * 2;
    proof {
        assert(h * w <= h * w1) by (nonlinear_arith)
            requires
                w1 == 2 * w,
        ;
        assert(w1 * h == h * w1) by (nonlinear_arith);
    }
    let mut result: Vec<u8> = Vec::new();
    let mut y: usize = 0;
    while y < h
        invariant
            w1 == 2 * w,
            h * w1 <= usize::MAX,
            h * w <= usize::MAX,
            y <= h,
            result@.len() == y * w1,
            forall|k: int|
                0 <= k < result@.len() ==> #[trigger] result@[k] == interp_x_at(
                    data@,
                    w as int,
                    h as int,
                    k,
                ),
        decreases h - y,
    {
        let mut x: usize = 0;
        while x < w
            invariant
                w1 == 2 * w,
                h * w1 <= usize::MAX,
                h * w <= usize::MAX,
                y < h,
                x <= w,
                result@.len() == y * w1 + 2 * x,
                forall|k: int|
                    0 <= k < result@.len() ==> #[trigger] result@[k] == interp_x_at(
                        data@,
                        w as int,
                        h as int,
                        k,
                    ),
            decreases w - x,
        {
            proof {
                lemma_index_bound(y as int, w as int, x as int, h as int);
                lemma_index_bound(y as int, w1 as int, 2 * x + 1, h as int);
                lemma_index_div_mod(y as int, w1 as int, 2 * x);
                lemma_index_div_mod(y as int, w1 as int, 2 * x + 1);
                lemma_index_div_mod(x as int, 2, 0);
                lemma_index_div_mod(x as int, 2, 1);
                if x + 1 < w {
                    lemma_index_bound(y as int, w as int, (x + 1) as int, h as int);
                }
            }
            let mut dx: usize = 0;
            while dx < 2
                invariant
                    w1 == 2 * w,
                    h * w1 <= usize::MAX,
                    y < h,
                    x < w,
                    dx <= 2,
                    y * w + x < h * w,
                    h * w <= usize::MAX,
                    x + 1 < w ==> y * w + (x + 1) < h * w,
                    y * w1 + 2 * x + 1 < h * w1,
                    (y * w1 + 2 * x) / (w1 as int) == y,
                    (y * w1 + 2 * x) % (w1 as int) == 2 * x,
                    (y * w1 + 2 * x + 1) / (w1 as int) == y,
                    (y * w1 + 2 * x + 1) % (w1 as int) == 2 * x + 1,
                    (2 * x) / 2 == x,
                    (2 * x + 1) / 2 == x,
                    (2 * x) % 2 == 0,
                    (2 * x + 1) % 2 == 1,
                    result@.len() == y * w1 + 2 * x + dx,
                    forall|k: int|
                        0 <= k < result@.len() ==> #[trigger] result@[k] == interp_x_at(
                            data@,
                            w as int,
                            h as int,
                            k,
                        ),
                decreases 2 - dx,
            {
                let here = get_or_zero(data, y * w + x);
                let val = if dx == 0 {
                    if x == 0 || here != 0 {
                        here
                    } else {
                        get_or_zero(data, y * w + (x - 1))
                    }
                } else {
                    if x == w - 1 || here != 0 {
                        here
                    } else {
                        get_or_zero(data, y * w + (x + 1))
                    }
                };
                result.push(val);
                dx = dx + 1;
            }
            x = x + 1;
        }
        proof {
            assert((y + 1) * w1 == y * w1 + w1) by (nonlinear_arith);
        }
        y = y + 1;
    }
    assert(result@ =~= interp_x_seq(data@, w as int, h as int));
    result
}

// ---------------------------------------------------------------------------
// ARGB1555 run-length decoding
// ---------------------------------------------------------------------------

/// `pixels` with the `n` entries from `start` set to `v`.
pub open spec fn fill_run(pixels: Seq<u32>, start: int, n: int, v: u32) -> Seq<u32> {
    Seq::new(pixels.len(), |j: int| if start <= j < start + n { v } else { pixels[j] })
}

/// The command loop of the ARGB decoder from byte offset `i`, with `pixel`
/// pixels already produced. A command word 0x0000 emits one transparent
/// pixel; a word with both top bits set repeats the following ARGB1555 pixel
/// (low 14 bits) times; any other word makes the image undecodable. The loop
/// ends at the end of the data, after `size` command bytes, or once all
/// `total` pixels are produced; a truncated repeat command also ends it.
pub open spec fn argb_run(d: Seq<u8>, size: int, total: int, i: int, pixel: int, pixels: Seq<u32>) -> Option<Seq<u32>>
    decreases d.len() - i,
{
    if !(i + 2 <= d.len() && i < size + 8 && pixel < total) {
        Some(pixels)
    } else {
        let op = le16(d, i);
        if op == 0 {
            argb_run(d, size, total, i + 2, pixel + 1, pixels.update(pixel, 0))
        } else if op >= 0xC000 {
            if i + 4 > d.len() {
                Some(pixels)
            } else {
                let count = op - 0xC000;
                let n = if count < total - pixel { count } else { total - pixel };
                let v = argb1555_spec(le16(d, i + 2)) as u32;
                argb_run(d, size, total, i + 4, pixel + n, fill_run(pixels, pixel, n, v))
            }
        } else {
            None
        }
    }
}

/// `n` zero pixels.
pub open spec fn zero_pixels(n: int) -> Seq<u32> {
    Seq::new(n as nat, |j: int| 0u32)
}

/// Width and height from the image header.
pub open spec fn header_width(d: Seq<u8>) -> int {
    le16(d, 0)
}

pub open spec fn header_height(d: Seq<u8>) -> int {
    le16(d, 2)
}

pub open spec fn header_size(d: Seq<u8>) -> int {
    le32(d, 4)
}

/// The image an ARGB1555 block decodes to: `None` for data shorter than the
/// header, a zero dimension, or an unknown command.
pub open spec fn decode_argb_spec(d: Seq<u8>) -> Option<(u32, u32, Seq<u32>)> {
    if d.len() < 8 {
        None
    } else {
        let w = header_width(d);
        let h = header_height(d);
        if w == 0 || h == 0 {
            None
        } else {
            match argb_run(d, header_size(d), w * h, 8, 0, zero_pixels(w * h)) {
                Some(px) => Some((w as u32, h as u32, px)),
                None => None,
            }
        }
    }
}

/// Decode an ARGB1555 image with run-length encoding.
pub fn decode_image_argb(data: &[u8]) -> (r: Option<RgbaImage>)
    ensures
        opt_image_view(r) == decode_argb_spec(data@),
{
    if data.len() < 8 {
        return None;
    }
    let width = read_u16_le_slice(data, 0) as usize;
    let height = read_u16_le_slice(data, 2) as usize;
    let img_size = read_u32_le_slice(data, 4) as usize;
    if width == 0 || height == 0 {
        return None;
    }
    proof {
        assert(width * height <= 65535 * 65535) by (nonlinear_arith)
            requires
                width <= 65535,
                height <= 65535,
        ;
    }
    let total = width * height;
    let mut pixels: Vec<u32> = Vec::new();
    let mut k: usize = 0;
    while k < total
        invariant
            k <= total,
            pixels@ == Seq::new(k as nat, |j: int| 0u32),
        decreases total - k,
    {
        pixels.push(0);
        k = k + 1;
    }
    let ghost d = data@;
    let ghost start = zero_pixels(total as int);
    assert(pixels@ =~= start);
    let mut pixel: usize = 0;
    let mut i: usize = 8;
    while data.len() - i >= 2 && i - 8 < img_size && pixel < total
        invariant
            d == data@,
            start == zero_pixels(total as int),
            8 <= i <= data@.len(),
            pixel <= total,
            pixels@.len() == total,
            total == width * height,
            width == header_width(d),
            height == header_height(d),
            img_size == header_size(d),
            argb_run(d, img_size as int, total as int, 8, 0, start) == argb_run(
                d,
                img_size as int,
                total as int,
                i as int,
                pixel as int,
                pixels@,
            ),
        ensures
            pixels@.len() == total,
            argb_run(d, img_size as int, total as int, 8, 0, start) == Some(pixels@),
        decreases data@.len() - i,
    {
        let op = read_u16_le_slice(data, i);
        if op == 0x0000 {
            pixels.set(pixel, 0x00000000);
            pixel = pixel + 1;
            i = i + 2;
        } else if op >= 0xC000 {
            let count = (op - 0xC000) as usize;
            if data.len() - i < 4 {
                break;
            }
            let value = read_u16_le_slice(data, i + 2);
            let argb = argb1555_to_argb(value);
            let ghost p0 = pixel;
            let ghost px0 = pixels@;
            let mut c: usize = 0;
            while c < count && pixel < total
                invariant
                    pixel == p0 + c,
                    c <= count,
                    pixel <= total,
                    pixels@ == fill_run(px0, p0 as int, c as int, argb),
                    px0.len() == total,
                decreases count - c,
            {
                pixels.set(pixel, argb);
                pixel = pixel + 1;
                c = c + 1;
                assert(pixels@ =~= fill_run(px0, p0 as int, c as int, argb));
            }
            i = i + 4;
        } else {
            assert(argb_run(d, img_size as int, total as int, i as int, pixel as int, pixels@) is None);
            return None;
        }
    }
    Some(RgbaImage { width: width as u32, height: height as u32, pixels })
}

// ---------------------------------------------------------------------------
// YUV 4:2:0 quad decoding
// ---------------------------------------------------------------------------

/// The luma, U and V planes while decoding.
pub type Planes = (Seq<u8>, Seq<u8>, Seq<u8>);

/// `n` zero bytes.
pub open spec fn zero_bytes(n: int) -> Seq<u8> {
    Seq::new(n as nat, |j: int| 0u8)
}

/// Write one luma sample, dropping it when it falls outside the image.
pub open spec fn put_luma(yb: Seq<u8>, w: int, h: int, x: int, y: int, val: u8) -> Seq<u8> {
    if x < w && y < h {
        yb.update(y * w + x, val)
    } else {
        yb
    }
}

/// Store quad number `pix` (quads are numbered row-major over a grid `uvw`
/// quads wide): four luma samples (x0y0, x0y1, x1y0, x1y1) of its 2x2 block,
/// then its U (`c4`) and V (`c5`) sample.
pub open spec fn put_quad(
    p: Planes,
    w: int,
    h: int,
    uvw: int,
    pix: int,
    c0: u8,
    c1: u8,
    c2: u8,
    c3: u8,
    c4: u8,
    c5: u8,
) -> Planes {
    let yc = pix / uvw;
    let xc = pix % uvw;
    let y0 = put_luma(p.0, w, h, 2 * xc, 2 * yc, c0);
    let y1 = put_luma(y0, w, h, 2 * xc, 2 * yc + 1, c1);
    let y2 = put_luma(y1, w, h, 2 * xc + 1, 2 * yc, c2);
    let y3 = put_luma(y2, w, h, 2 * xc + 1, 2 * yc + 1, c3);
    if pix < p.2.len() {
        (y3, p.1.update(pix, c4), p.2.update(pix, c5))
    } else {
        (y3, p.1, p.2)
    }
}

/// Store the quad whose six bytes start at `off` of `d` as quad number `pix`.
pub open spec fn put_quad_at(p: Planes, w: int, h: int, uvw: int, pix: int, d: Seq<u8>, off: int) -> Planes {
    put_quad(p, w, h, uvw, pix, d[off], d[off + 1], d[off + 2], d[off + 3], d[off + 4], d[off + 5])
}

/// Store the quad at `off` of `d` as quads `start`, `start + 1`, ..., `start + n - 1`.
pub open spec fn rep_quads(p: Planes, w: int, h: int, uvw: int, start: int, n: int, d: Seq<u8>, off: int) -> Planes
    decreases n,
{
    if n <= 0 {
        p
    } else {
        put_quad_at(rep_quads(p, w, h, uvw, start, n - 1, d, off), w, h, uvw, start + n - 1, d, off)
    }
}

/// The command loop of the YUV decoder from byte offset `i` with `pixel`
/// quads stored and `lit` literal quads still announced by the last command.
/// A command word with the top bit set announces (low 15 bits) literal
/// quads of six bytes each; any other non-zero word repeats the following
/// quad that many times; a zero word makes the image undecodable. Literal
/// quads stop early at the end of the data or once all `maxp` quads are
/// stored; the loop ends as the ARGB one does, or at a truncated repeat.
pub open spec fn yuv_run(
    d: Seq<u8>,
    size: int,
    w: int,
    h: int,
    uvw: int,
    maxp: int,
    i: int,
    pixel: int,
    p: Planes,
    lit: int,
) -> Option<Planes>
    decreases d.len() - i, lit,
{
    if lit > 0 {
        if i + 6 > d.len() || pixel >= maxp {
            yuv_run(d, size, w, h, uvw, maxp, i, pixel, p, 0)
        } else {
            yuv_run(d, size, w, h, uvw, maxp, i + 6, pixel + 1, put_quad_at(p, w, h, uvw, pixel, d, i), lit - 1)
        }
    } else if !(i + 2 <= d.len() && i < size + 8 && pixel < maxp) {
        Some(p)
    } else {
        let op = le16(d, i);
        if op == 0 {
            None
        } else if op >= 0x8000 {
            yuv_run(d, size, w, h, uvw, maxp, i + 2, pixel, p, op - 0x8000)
        } else if i + 8 > d.len() {
            Some(p)
        } else {
            let n = if op < maxp - pixel { op } else { maxp - pixel };
            yuv_run(d, size, w, h, uvw, maxp, i + 8, pixel + n, rep_quads(p, w, h, uvw, pixel, n, d, i + 2), 0)
        }
    }
}

/// Byte `i` of `d`, or `dflt` outside of it.
pub open spec fn byte_or(d: Seq<u8>, i: int, dflt: u8) -> u8 {
    if 0 <= i < d.len() {
        d[i]
    } else {
        dflt
    }
}

/// The BT.601 conversion of one (Y, U, V) sample to an opaque ARGB8888 pixel.
pub open spec fn yuv_color(yv: int, uv: int, vv: int) -> int {
    let c = yv - 16;
    let dd = uv - 128;
    let e = vv - 128;
    argb(
        255,
        clip_spec((298 * c + 409 * e + 128) / 256),
        clip_spec((298 * c - 100 * dd - 208 * e + 128) / 256),
        clip_spec((298 * c + 516 * dd + 128) / 256),
    )
}

/// Output pixel `li` of a `w`-wide image: transparent where luma is zero,
/// otherwise the conversion with the chroma sample of the same row and
/// column (the column clamped to the chroma plane, whose stride is `2 * uvw`).
pub open spec fn yuv_pixel_at(yb: Seq<u8>, u22: Seq<u8>, v22: Seq<u8>, w: int, uvw: int, li: int) -> u32 {
    if yb[li] == 0 {
        0
    } else {
        let y = li / w;
        let x = li % w;
        let cw = 2 * uvw;
        let cx = if x < cw - 1 { x } else { cw - 1 };
        let ci = y * cw + cx;
        yuv_color(yb[li] as int, byte_or(u22, ci, 128) as int, byte_or(v22, ci, 128) as int) as u32
    }
}

/// The image a YUV block decodes to: `None` for data shorter than the
/// header, a zero dimension, or a zero command word. Chroma is stored per
/// 2x2 quad (`ceil(w/2)` by `ceil(h/2)` quads) and upsampled vertically,
/// then horizontally, before conversion.
pub open spec fn decode_yuv_spec(d: Seq<u8>) -> Option<(u32, u32, Seq<u32>)> {
    if d.len() < 8 {
        None
    } else {
        let w = header_width(d);
        let h = header_height(d);
        if w == 0 || h == 0 {
            None
        } else {
            let uvw = (w + 1) / 2;
            let uvh = (h + 1) / 2;
            let maxp = uvw * uvh;
            let init = (zero_bytes(w * h), zero_bytes(maxp), zero_bytes(maxp));
            match yuv_run(d, header_size(d), w, h, uvw, maxp, 8, 0, init, 0) {
                None => None,
                Some(p) => {
                    let u22 = interp_x_seq(interp_y_seq(p.1, uvw, uvh), uvw, h);
                    let v22 = interp_x_seq(interp_y_seq(p.2, uvw, uvh), uvw, h);
                    Some(
                        (
                            w as u32,
                            h as u32,
                            Seq::new((w * h) as nat, |li: int| yuv_pixel_at(p.0, u22, v22, w, uvw, li)),
                        ),
                    )
                },
            }
        }
    }
}

fn zeroed_bytes(n: usize) -> (r: Vec<u8>)
    ensures
        r@ == zero_bytes(n as int),
{
    let mut v: Vec<u8> = Vec::new();
    let mut k: usize = 0;
    while k < n
        invariant
            k <= n,
            v@ == zero_bytes(k as int),
        decreases n - k,
    {
        v.push(0);
        k = k + 1;
        assert(v@ =~= zero_bytes(k as int));
    }
    v
}

fn set_luma(y_buf: &mut Vec<u8>, width: usize, height: usize, x: usize, y: usize, val: u8)
    requires
        old(y_buf)@.len() == width * height,
        width * height <= usize::MAX,
    ensures
        final(y_buf)@ == put_luma(old(y_buf)@, width as int, height as int, x as int, y as int, val),
        final(y_buf)@.len() == old(y_buf)@.len(),
{
    if x < width && y < height {
        proof {
            lemma_index_bound(y as int, width as int, x as int, height as int);
        }
        y_buf.set(y * width + x, val);
    }
}

fn store_quad(
    pix: usize,
    y_buf: &mut Vec<u8>,
    u_buf: &mut Vec<u8>,
    v_buf: &mut Vec<u8>,
    c: (u8, u8, u8, u8, u8, u8),
    width: usize,
    height: usize,
    uv_w: usize,
)
    requires
        uv_w > 0,
        uv_w <= 32768,
        width <= 65535,
        height <= 65535,
        pix < 32768 * 32768,
        old(y_buf)@.len() == width * height,
        old(u_buf)@.len() == old(v_buf)@.len(),
    ensures
        (final(y_buf)@, final(u_buf)@, final(v_buf)@) == put_quad(
            (old(y_buf)@, old(u_buf)@, old(v_buf)@),
            width as int,
            height as int,
            uv_w as int,
            pix as int,
            c.0,
            c.1,
            c.2,
            c.3,
            c.4,
            c.5,
        ),
        final(y_buf)@.len() == width * height,
        final(u_buf)@.len() == old(u_buf)@.len(),
        final(v_buf)@.len() == old(v_buf)@.len(),
{
    let y_coord = pix / uv_w;
    let x_coord = pix % uv_w;
    proof {
        assert(width * height <= 65535 * 65535) by (nonlinear_arith)
            requires
                width <= 65535,
                height <= 65535,
        ;
    }
    set_luma(y_buf, width, height, 2 * x_coord, 2 * y_coord, c.0);
    set_luma(y_buf, width, height, 2 * x_coord, 2 * y_coord + 1, c.1);
    set_luma(y_buf, width, height, 2 * x_coord + 1, 2 * y_coord, c.2);
    set_luma(y_buf, width, height, 2 * x_coord + 1, 2 * y_coord + 1, c.3);
    if pix < v_buf.len() {
        u_buf.set(pix, c.4);
        v_buf.set(pix, c.5);
    }
}

/// `v / 256` (rounded toward negative infinity) clamped to the byte range.
fn clip_div256(v: i32) -> (r: u8)
    ensures
        r == clip_spec(v as int / 256),
{
    if v < 0 {
        0
    } else {
        clip(v / 256)
    }
}

/// Convert one (Y, U, V) sample with non-zero luma.
fn yuv_to_argb(yv: u8, uv: u8, vv: u8) -> (r: u32)
    ensures
        r == yuv_color(yv as int, uv as int, vv as int),
{
    let c = yv as i32 - 16;
    let d = uv as i32 - 128;
    let e = vv as i32 - 128;
    let r = clip_div256(298 * c + 409 * e + 128);
    let g = clip_div256(298 * c - 100 * d - 208 * e + 128);
    let b = clip_div256(298 * c + 516 * d + 128);
    0xFF000000 + (r as u32) * 65536 + (g as u32) * 256 + (b as u32)
}

fn get_or(d: &[u8], i: usize, dflt: u8) -> (r: u8)
    ensures
        r == byte_or(d@, i as int, dflt),
{
    if i < d.len() {
        d[i]
    } else {
        dflt
    }
}

/// Decode a YUV 4:2:0 image with packbits-like compression.
pub fn decode_image_yuv(data: &[u8]) -> (r: Option<RgbaImage>)
    ensures
        opt_image_view(r) == decode_yuv_spec(data@),
{
    if data.len() < 8 {
        return None;
    }
    let width = read_u16_le_slice(data, 0) as usize;
    let height = read_u16_le_slice(data, 2) as usize;
    let img_size = read_u32_le_slice(data, 4) as usize;
    if width == 0 || height == 0 {
        return None;
    }
    let ghost d = data@;
    let uv_w = (width + 1) / 2;
    let uv_h = (height + 1) / 2;
    proof {
        assert(width * height <= 65535 * 65535) by (nonlinear_arith)
            requires
                width <= 65535,
                height <= 65535,
        ;
        assert(uv_w * uv_h <= 32768 * 32768) by (nonlinear_arith)
            requires
                uv_w <= 32768,
                uv_h <= 32768,
        ;
    }
    let max_pixels = uv_w * uv_h;
    let mut y_2_2 = zeroed_bytes(width * height);
    let mut u_1_1 = zeroed_bytes(max_pixels);
    let mut v_1_1 = zeroed_bytes(max_pixels);
    let ghost init: Planes = (y_2_2@, u_1_1@, v_1_1@);
    let mut pixel: usize = 0;
    let mut i: usize = 8;
    while data.len() - i >= 2 && i - 8 < img_size && pixel < max_pixels
        invariant_except_break
            yuv_run(d, img_size as int, width as int, height as int, uv_w as int, max_pixels as int, 8, 0, init, 0)
                == yuv_run(
                d,
                img_size as int,
                width as int,
                height as int,
                uv_w as int,
                max_pixels as int,
                i as int,
                pixel as int,
                (y_2_2@, u_1_1@, v_1_1@),
                0,
            ),
        invariant
            d == data@,
            8 <= i <= data@.len(),
            pixel <= max_pixels,
            width == header_width(d),
            height == header_height(d),
            img_size == header_size(d),
            1 <= width <= 65535,
            1 <= height <= 65535,
            uv_w == (width + 1) / 2,
            uv_h == (height + 1) / 2,
            max_pixels == uv_w * uv_h,
            max_pixels <= 32768 * 32768,
            init == (zero_bytes(width * height), zero_bytes(max_pixels as int), zero_bytes(max_pixels as int)),
            y_2_2@.len() == width * height,
            u_1_1@.len() == max_pixels,
            v_1_1@.len() == max_pixels,
        ensures
            y_2_2@.len() == width * height,
            u_1_1@.len() == max_pixels,
            v_1_1@.len() == max_pixels,
            yuv_run(d, img_size as int, width as int, height as int, uv_w as int, max_pixels as int, 8, 0, init, 0)
                == Some((y_2_2@, u_1_1@, v_1_1@)),
        decreases data@.len() - i,
    {
        let op = read_u16_le_slice(data, i) as usize;
        if op == 0 {
            return None;
        }
        let ghost i0 = i;
        i = i + 2;
        if op >= 0x8000 {
            let count = op - 0x8000;
            let mut k: usize = 0;
            while k < count && data.len() - i >= 6 && pixel < max_pixels
                invariant
                    d == data@,
                    8 <= i <= data@.len(),
                    i > i0,
                    k <= count,
                    pixel <= max_pixels,
                    max_pixels == uv_w * uv_h,
                    max_pixels <= 32768 * 32768,
                    1 <= width <= 65535,
                    1 <= height <= 65535,
                    uv_w == (width + 1) / 2,
                    y_2_2@.len() == width * height,
                    u_1_1@.len() == max_pixels,
                    v_1_1@.len() == max_pixels,
                    yuv_run(d, img_size as int, width as int, height as int, uv_w as int, max_pixels as int, 8, 0, init, 0)
                        == yuv_run(
                        d,
                        img_size as int,
                        width as int,
                        height as int,
                        uv_w as int,
                        max_pixels as int,
                        i as int,
                        pixel as int,
                        (y_2_2@, u_1_1@, v_1_1@),
                        count - k,
                    ),
                decreases count - k,
            {
                store_quad(
                    pixel,
                    &mut y_2_2,
                    &mut u_1_1,
                    &mut v_1_1,
                    (data[i], data[i + 1], data[i + 2], data[i + 3], data[i + 4], data[i + 5]),
                    width,
                    height,
                    uv_w,
                );
                pixel = pixel + 1;
                i = i + 6;
                k = k + 1;
            }
        } else {
            if data.len() - i < 6 {
                break;
            }
            let chunk = (data[i], data[i + 1], data[i + 2], data[i + 3], data[i + 4], data[i + 5]);
            let ghost p0: Planes = (y_2_2@, u_1_1@, v_1_1@);
            let ghost px0 = pixel;
            let ghost off = i;
            i = i + 6;
            let mut c: usize = 0;
            while c < op && pixel < max_pixels
                invariant
                    d == data@,
                    off + 6 <= data@.len(),
                    chunk == (d[off as int], d[off + 1], d[off + 2], d[off + 3], d[off + 4], d[off + 5]),
                    pixel == px0 + c,
                    c <= op,
                    pixel <= max_pixels,
                    max_pixels <= 32768 * 32768,
                    1 <= width <= 65535,
                    1 <= height <= 65535,
                    uv_w == (width + 1) / 2,
                    y_2_2@.len() == width * height,
                    u_1_1@.len() == max_pixels,
                    v_1_1@.len() == max_pixels,
                    (y_2_2@, u_1_1@, v_1_1@) == rep_quads(
                        p0,
                        width as int,
                        height as int,
                        uv_w as int,
                        px0 as int,
                        c as int,
                        d,
                        off as int,
                    ),
                decreases op - c,
            {
                store_quad(pixel, &mut y_2_2, &mut u_1_1, &mut v_1_1, chunk, width, height, uv_w);
                pixel = pixel + 1;
                c = c + 1;
            }
        }
    }
    proof {
        assert(uv_w * (2 * uv_h) <= 32768 * 65536) by (nonlinear_arith)
            requires
                uv_w <= 32768,
                uv_h <= 32768,
        ;
        assert((2 * uv_w) * height <= 65536 * 65535) by (nonlinear_arith)
            requires
                uv_w <= 32768,
                height <= 65535,
        ;
    }
    let u_2_2 = interpolate_x(&interpolate_y(&u_1_1, uv_w, uv_h), uv_w, height);
    let v_2_2 = interpolate_x(&interpolate_y(&v_1_1, uv_w, uv_h), uv_w, height);
    let chroma_w = uv_w * 2;
    let mut pixels: Vec<u32> = Vec::new();
    let mut y: usize = 0;
    while y < height
        invariant
            1 <= width <= 65535,
            1 <= height <= 65535,
            width * height <= 65535 * 65535,
            y <= height,
            uv_w == (width + 1) / 2,
            chroma_w == 2 * uv_w,
            y_2_2@.len() == width * height,
            pixels@.len() == y * width,
            forall|li: int|
                0 <= li < pixels@.len() ==> #[trigger] pixels@[li] == yuv_pixel_at(
                    y_2_2@,
                    u_2_2@,
                    v_2_2@,
                    width as int,
                    uv_w as int,
                    li,
                ),
        decreases height - y,
    {
        let mut x: usize = 0;
        while x < width
            invariant
                1 <= width <= 65535,
                1 <= height <= 65535,
                width * height <= 65535 * 65535,
                y < height,
                x <= width,
                uv_w == (width + 1) / 2,
                chroma_w == 2 * uv_w,
                y_2_2@.len() == width * height,
                pixels@.len() == y * width + x,
                forall|li: int|
                    0 <= li < pixels@.len() ==> #[trigger] pixels@[li] == yuv_pixel_at(
                        y_2_2@,
                        u_2_2@,
                        v_2_2@,
                        width as int,
                        uv_w as int,
                        li,
                    ),
            decreases width - x,
        {
            proof {
                lemma_index_bound(y as int, width as int, x as int, height as int);
                assert(height * width == width * height) by (nonlinear_arith);
                lemma_index_div_mod(y as int, width as int, x as int);
                lemma_index_bound(y as int, chroma_w as int, chroma_w - 1, height as int);
                assert(height * chroma_w <= 65535 * 65536) by (nonlinear_arith)
                    requires
                        height <= 65535,
                        chroma_w <= 65536,
                ;
            }
            let li = y * width + x;
            let yv = y_2_2[li];
            if yv == 0 {
                pixels.push(0x00000000);
            } else {
                let cx = if x < chroma_w - 1 { x } else { chroma_w - 1 };
                let ci = y * chroma_w + cx;
                let uv = get_or(&u_2_2, ci, 128);
                let vv = get_or(&v_2_2, ci, 128);
                pixels.push(yuv_to_argb(yv, uv, vv));
            }
            x = x + 1;
        }
        proof {
            assert((y + 1) * width == y * width + width) by (nonlinear_arith);
        }
        y = y + 1;
    }
    proof {
        assert(height * width == width * height) by (nonlinear_arith);
        assert(pixels@ =~= Seq::new(
            (width * height) as nat,
            |li: int| yuv_pixel_at(y_2_2@, u_2_2@, v_2_2@, width as int, uv_w as int, li),
        ));
    }
    Some(RgbaImage { width: width as u32, height: height as u32, pixels })
}

/// The ARGB command loop keeps the number of pixels.
proof fn lemma_argb_run_len(d: Seq<u8>, size: int, total: int, i: int, pixel: int, pixels: Seq<u32>)
    requires
        pixels.len() == total,
        0 <= pixel,
    ensures
        argb_run(d, size, total, i, pixel, pixels) matches Some(px) ==> px.len() == pixels.len(),
    decreases d.len() - i,
{
    if i + 2 <= d.len() && i < size + 8 && pixel < total {
        let op = le16(d, i);
        if op == 0 {
            lemma_argb_run_len(d, size, total, i + 2, pixel + 1, pixels.update(pixel, 0));
        } else if op >= 0xC000 && i + 4 <= d.len() {
            let count = op - 0xC000;
            let n = if count < total - pixel { count } else { total - pixel };
            let v = argb1555_spec(le16(d, i + 2)) as u32;
            lemma_argb_run_len(d, size, total, i + 4, pixel + n, fill_run(pixels, pixel, n, v));
        }
    }
}

/// A decoded image has one pixel per position: width times height.
pub proof fn lemma_decoded_size(d: Seq<u8>)
    ensures
        decode_argb_spec(d) matches Some(img) ==> img.2.len() == img.0 * img.1,
        decode_yuv_spec(d) matches Some(img) ==> img.2.len() == img.0 * img.1,
{
    if d.len() >= 8 {
        let w = header_width(d);
        let h = header_height(d);
        if w != 0 && h != 0 {
            lemma_argb_run_len(d, header_size(d), w * h, 8, 0, zero_pixels(w * h));
            assert(0 <= w < 65536 && 0 <= h < 65536);
            assert(w * h >= 0) by (nonlinear_arith)
                requires
                    0 <= w,
                    0 <= h,
            ;
        }
    }
}


/// The red channel of an ARGB pixel value.
pub open spec fn red_of(p: int) -> int {
    (p / 65536) % 256
}

/// The green channel of an ARGB pixel value.
pub open spec fn green_of(p: int) -> int {
    (p / 256) % 256
}

/// The blue channel of an ARGB pixel value.
pub open spec fn blue_of(p: int) -> int {
    p % 256
}

/// `yuv_color` packs its three channels below an opaque alpha.
proof fn lemma_yuv_channels(y: int, u: int, v: int)
    ensures
        ({
            let c = y - 16;
            let r = clip_spec((298 * c + 409 * (v - 128) + 128) / 256);
            let g = clip_spec((298 * c - 100 * (u - 128) - 208 * (v - 128) + 128) / 256);
            let b = clip_spec((298 * c + 516 * (u - 128) + 128) / 256);
            &&& 0 <= r <= 255 && 0 <= g <= 255 && 0 <= b <= 255
            &&& yuv_color(y, u, v) == argb(255, r, g, b)
        }),
{
}

/// Channels read back from a packed ARGB value.
proof fn lemma_argb_channels(a: int, r: int, g: int, b: int)
    requires
        0 <= a <= 255,
        0 <= r <= 255,
        0 <= g <= 255,
        0 <= b <= 255,
    ensures
        argb(a, r, g, b) / 16777216 == a,
        red_of(argb(a, r, g, b)) == r,
        green_of(argb(a, r, g, b)) == g,
        blue_of(argb(a, r, g, b)) == b,
{
    let p = argb(a, r, g, b);
    assert(p == a * 16777216 + r * 65536 + g * 256 + b);
    vstd::arithmetic::div_mod::lemma_fundamental_div_mod_converse(p, 16777216, a, r * 65536 + g * 256 + b);
    vstd::arithmetic::div_mod::lemma_fundamental_div_mod_converse(p, 65536, a * 256 + r, g * 256 + b);
    vstd::arithmetic::div_mod::lemma_fundamental_div_mod_converse(a * 256 + r, 256, a, r);
    vstd::arithmetic::div_mod::lemma_fundamental_div_mod_converse(p, 256, a * 65536 + r * 256 + g, b);
    vstd::arithmetic::div_mod::lemma_fundamental_div_mod_converse(a * 65536 + r * 256 + g, 256, a * 256 + r, g);
}

/// `clip_spec(x / 256)` never decreases as `x` grows.
proof fn lemma_clip_div_monotone(x1: int, x2: int)
    requires
        x1 <= x2,
    ensures
        clip_spec(x1 / 256) <= clip_spec(x2 / 256),
{
    vstd::arithmetic::div_mod::lemma_div_is_ordered(x1, x2, 256);
}

/// The colour conversion: every pixel is opaque; red follows the V
/// (Cr) sample and not U, blue follows U (Cb) and not V, each never
/// falling as its sample grows, and green never rises as either grows; a
/// sample without chroma (U = V = 128) is grey.
pub proof fn lemma_yuv_color_channels(y: int, u1: int, u2: int, v1: int, v2: int)
    requires
        u1 <= u2,
        v1 <= v2,
    ensures
        yuv_color(y, u1, v1) / 16777216 == 255,
        red_of(yuv_color(y, u1, v1)) == red_of(yuv_color(y, u2, v1)),
        blue_of(yuv_color(y, u1, v1)) == blue_of(yuv_color(y, u1, v2)),
        red_of(yuv_color(y, u1, v1)) <= red_of(yuv_color(y, u1, v2)),
        blue_of(yuv_color(y, u1, v1)) <= blue_of(yuv_color(y, u2, v1)),
        green_of(yuv_color(y, u2, v1)) <= green_of(yuv_color(y, u1, v1)),
        green_of(yuv_color(y, u1, v2)) <= green_of(yuv_color(y, u1, v1)),
        red_of(yuv_color(y, 128, 128)) == green_of(yuv_color(y, 128, 128)),
        green_of(yuv_color(y, 128, 128)) == blue_of(yuv_color(y, 128, 128)),
        yuv_color(16, 128, 128) == 0xFF00_0000,
        yuv_color(235, 128, 128) == 0xFFFF_FFFF,
{
    let c = y - 16;
    lemma_yuv_channels(y, u1, v1);
    lemma_yuv_channels(y, u2, v1);
    lemma_yuv_channels(y, u1, v2);
    lemma_yuv_channels(y, 128, 128);
    let r11 = clip_spec((298 * c + 409 * (v1 - 128) + 128) / 256);
    let r12 = clip_spec((298 * c + 409 * (v2 - 128) + 128) / 256);
    let g11 = clip_spec((298 * c - 100 * (u1 - 128) - 208 * (v1 - 128) + 128) / 256);
    let g21 = clip_spec((298 * c - 100 * (u2 - 128) - 208 * (v1 - 128) + 128) / 256);
    let g12 = clip_spec((298 * c - 100 * (u1 - 128) - 208 * (v2 - 128) + 128) / 256);
    let b11 = clip_spec((298 * c + 516 * (u1 - 128) + 128) / 256);
    let b21 = clip_spec((298 * c + 516 * (u2 - 128) + 128) / 256);
    let b12 = clip_spec((298 * c + 516 * (u1 - 128) + 128) / 256);
    let k = clip_spec((298 * c + 128) / 256);
    lemma_argb_channels(255, r11, g11, b11);
    lemma_argb_channels(255, r11, g21, b21);
    lemma_argb_channels(255, r12, g12, b12);
    lemma_argb_channels(255, k, k, k);
    lemma_clip_div_monotone(298 * c + 409 * (v1 - 128) + 128, 298 * c + 409 * (v2 - 128) + 128);
    lemma_clip_div_monotone(298 * c + 516 * (u1 - 128) + 128, 298 * c + 516 * (u2 - 128) + 128);
    lemma_clip_div_monotone(
        298 * c - 100 * (u2 - 128) - 208 * (v1 - 128) + 128,
        298 * c - 100 * (u1 - 128) - 208 * (v1 - 128) + 128,
    );
    lemma_clip_div_monotone(
        298 * c - 100 * (u1 - 128) - 208 * (v2 - 128) + 128,
        298 * c - 100 * (u1 - 128) - 208 * (v1 - 128) + 128,
    );
}


/// Each output pixel of a YUV image takes its red from the V plane alone
/// and its blue from the U plane alone; a pixel with zero luma is
/// transparent whatever the chroma planes hold.
pub proof fn lemma_yuv_pixel_planes(
    yb: Seq<u8>,
    u1: Seq<u8>,
    u2: Seq<u8>,
    v1: Seq<u8>,
    v2: Seq<u8>,
    w: int,
    uvw: int,
    li: int,
)
    requires
        0 <= li < yb.len(),
        w > 0,
    ensures
        red_of(yuv_pixel_at(yb, u1, v1, w, uvw, li) as int) == red_of(yuv_pixel_at(yb, u2, v1, w, uvw, li) as int),
        blue_of(yuv_pixel_at(yb, u1, v1, w, uvw, li) as int) == blue_of(yuv_pixel_at(yb, u1, v2, w, uvw, li) as int),
        yb[li] == 0 ==> yuv_pixel_at(yb, u1, v1, w, uvw, li) == 0,
{
    if yb[li] != 0 {
        let y = li / w;
        let x = li % w;
        let cw = 2 * uvw;
        let cx = if x < cw - 1 { x } else { cw - 1 };
        let ci = y * cw + cx;
        let yv = yb[li] as int;
        let (a1, a2) = (byte_or(u1, ci, 128) as int, byte_or(u2, ci, 128) as int);
        let (b1, b2) = (byte_or(v1, ci, 128) as int, byte_or(v2, ci, 128) as int);
        lemma_yuv_channels(yv, a1, b1);
        lemma_yuv_channels(yv, a2, b1);
        lemma_yuv_channels(yv, a1, b2);
        if a1 <= a2 {
            lemma_yuv_color_channels(yv, a1, a2, b1, b1);
        } else {
            lemma_yuv_color_channels(yv, a2, a1, b1, b1);
        }
        if b1 <= b2 {
            lemma_yuv_color_channels(yv, a1, a1, b1, b2);
        } else {
            lemma_yuv_color_channels(yv, a1, a1, b2, b1);
        }
    }
}

} // verus!
