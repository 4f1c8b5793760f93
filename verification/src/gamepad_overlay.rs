//! A virtual gamepad drawn over the game picture: a D-pad at the bottom
//! left, A and B buttons at the bottom right, each lit while its key is held.

use vstd::prelude::*;

use crate::image_decoder::{lemma_index_bound, lemma_index_div_mod};

verus! {

/// Key codes of the default button mapping.
pub const KEY_UP: u16 = 0x1c00;
pub const KEY_DOWN: u16 = 0x1e00;
pub const KEY_LEFT: u16 = 0x0200;
pub const KEY_RIGHT: u16 = 0x0400;
pub const KEY_A: u16 = 0x4000;
pub const KEY_B: u16 = 0x8800;

/// Colours of the overlay.
pub const COLOR_IDLE: u32 = 0xFF50_5050;
pub const COLOR_DPAD_PRESSED: u32 = 0xFF00_DDFF;
pub const COLOR_A_PRESSED: u32 = 0xFF00_EE44;
pub const COLOR_B_PRESSED: u32 = 0xFFFF_8800;
pub const COLOR_BG: u32 = 0xAA1A_1A1A;
pub const COLOR_LABEL: u32 = 0xFFCC_CCCC;

/// 5x7 glyphs, one row per entry, the low five bits from left to right.
pub const FONT_A: [u8; 7] = [0b01110, 0b10001, 0b10001, 0b11111, 0b10001, 0b10001, 0b10001];
pub const FONT_B: [u8; 7] = [0b11110, 0b10001, 0b10001, 0b11110, 0b10001, 0b10001, 0b11110];
pub const ARROW_UP: [u8; 7] = [0b00100, 0b01110, 0b11111, 0b00100, 0b00100, 0b00100, 0b00100];
pub const ARROW_DOWN: [u8; 7] = [0b00100, 0b00100, 0b00100, 0b00100, 0b11111, 0b01110, 0b00100];
pub const ARROW_LEFT: [u8; 7] = [0b00100, 0b01000, 0b11111, 0b01000, 0b00100, 0b00000, 0b00000];
pub const ARROW_RIGHT: [u8; 7] = [0b00100, 0b00010, 0b11111, 0b00010, 0b00100, 0b00000, 0b00000];

/// Division rounding toward zero, as Rust's integer `/` does.
pub open spec fn div_trunc(a: int, b: int) -> int {
    if a >= 0 {
        a / b
    } else {
        -((-a) / b)
    }
}

/// The column of screen position `p` in a screen of width `bw`.
pub open spec fn col_of(p: int, bw: int) -> int {
    p % bw
}

/// The row of screen position `p` in a screen of width `bw`.
pub open spec fn row_of(p: int, bw: int) -> int {
    p / bw
}

/// The pixels of the rectangle at (`x`, `y`) of `w` by `h`.
pub open spec fn in_rect(x: int, y: int, w: int, h: int, px: int, py: int) -> bool {
    x <= px < x + w && y <= py < y + h
}

/// The pixels of the disc of radius `r` around (`cx`, `cy`).
pub open spec fn in_circle(cx: int, cy: int, r: int, px: int, py: int) -> bool {
    -r <= px - cx <= r && -r <= py - cy <= r && (px - cx) * (px - cx) + (py - cy) * (py - cy)
        <= r * r
}

/// Whether bit `col` from the left (of five) is set in a glyph row.
pub open spec fn glyph_bit(bits: u8, col: int) -> bool {
    bits & (1u8 << ((4 - col) as u8)) != 0
}

/// The pixels of a glyph drawn with `s` by `s` blocks from (`ox`, `oy`).
pub open spec fn in_glyph(glyph: Seq<u8>, ox: int, oy: int, s: int, px: int, py: int) -> bool {
    let rx = px - ox;
    let ry = py - oy;
    0 <= rx < 5 * s && 0 <= ry < 7 * s && glyph_bit(glyph[ry / s], rx / s)
}

/// A channel of `dst` blended under `color` by the alpha of `color`.
pub open spec fn alpha_chan(src: int, dst: int, a: int) -> int {
    (src * a + dst * (255 - a)) / 255
}

/// `color` drawn over `dst` by its alpha; the result is opaque.
pub open spec fn alpha_over(color: u32, dst: u32) -> u32 {
    let a = ((color >> 24u32) & 0xFFu32) as int;
    (0xFF00_0000 + alpha_chan(((color >> 16u32) & 0xFFu32) as int, ((dst >> 16u32) & 0xFFu32) as int, a)
        * 0x1_0000 + alpha_chan(((color >> 8u32) & 0xFFu32) as int, ((dst >> 8u32) & 0xFFu32) as int, a)
        * 0x100 + alpha_chan((color & 0xFFu32) as int, (dst & 0xFFu32) as int, a)) as u32
}

/// A shape the overlay paints.
#[derive(Debug, Clone, Copy)]
pub enum Shape {
    /// A solid rectangle.
    Rect { x: i64, y: i64, w: i64, h: i64, color: u32 },
    /// A rectangle blended over the picture by the alpha of its colour.
    RectAlpha { x: i64, y: i64, w: i64, h: i64, color: u32 },
    /// A solid disc.
    Circle { cx: i64, cy: i64, r: i64, color: u32 },
    /// A 5x7 glyph of `s` by `s` blocks from (`ox`, `oy`).
    Glyph { glyph: [u8; 7], ox: i64, oy: i64, s: i64, color: u32 },
}

/// Whether a shape covers pixel (`px`, `py`).
pub open spec fn covers(sh: Shape, px: int, py: int) -> bool {
    match sh {
        Shape::Rect { x, y, w, h, .. } => in_rect(x as int, y as int, w as int, h as int, px, py),
        Shape::RectAlpha { x, y, w, h, .. } => in_rect(x as int, y as int, w as int, h as int, px, py),
        Shape::Circle { cx, cy, r, .. } => in_circle(cx as int, cy as int, r as int, px, py),
        Shape::Glyph { glyph, ox, oy, s, .. } => s >= 1 && in_glyph(glyph@, ox as int, oy as int, s as int, px, py),
    }
}

/// The colour a shape gives a covered pixel that was `d`.
pub open spec fn shade(sh: Shape, d: u32) -> u32 {
    match sh {
        Shape::RectAlpha { color, .. } => alpha_over(color, d),
        Shape::Rect { color, .. } => color,
        Shape::Circle { color, .. } => color,
        Shape::Glyph { color, .. } => color,
    }
}

/// The screen after painting a shape.
pub open spec fn paint_shape_spec(buf: Seq<u32>, bw: int, bh: int, sh: Shape) -> Seq<u32> {
    Seq::new(
        buf.len(),
        |p: int|
            if 0 <= p < bw * bh && covers(sh, col_of(p, bw), row_of(p, bw)) {
                shade(sh, buf[p])
            } else {
                buf[p]
            },
    )
}

/// The screen after painting the shapes in order.
pub open spec fn paint_all(buf: Seq<u32>, bw: int, bh: int, shapes: Seq<Shape>) -> Seq<u32>
    decreases shapes.len(),
{
    if shapes.len() == 0 {
        buf
    } else {
        paint_shape_spec(paint_all(buf, bw, bh, shapes.drop_last()), bw, bh, shapes.last())
    }
}

/// Coordinates small enough for exact 64-bit arithmetic.
pub open spec fn shape_ok(sh: Shape) -> bool {
    let b = 0x1_0000_0000i64;
    match sh {
        Shape::Rect { x, y, w, h, .. } => -b <= x <= b && -b <= y <= b && -b <= w <= b && -b <= h <= b,
        Shape::RectAlpha { x, y, w, h, .. } => -b <= x <= b && -b <= y <= b && -b <= w <= b && -b <= h <= b,
        Shape::Circle { cx, cy, r, .. } => -b <= cx <= b && -b <= cy <= b && 0 <= r <= 0x10_0000,
        Shape::Glyph { ox, oy, s, .. } => -b <= ox <= b && -b <= oy <= b && 0 <= s <= 0x10_0000,
    }
}

/// The box, first corner inclusive and last exclusive, that holds every
/// pixel the shape covers.
pub open spec fn bbox(sh: Shape) -> (int, int, int, int) {
    match sh {
        Shape::Rect { x, y, w, h, .. } => (x as int, y as int, x + w, y + h),
        Shape::RectAlpha { x, y, w, h, .. } => (x as int, y as int, x + w, y + h),
        Shape::Circle { cx, cy, r, .. } => (cx - r, cy - r, cx + r + 1, cy + r + 1),
        Shape::Glyph { ox, oy, s, .. } => (ox as int, oy as int, ox + 5 * s, oy + 7 * s),
    }
}

/// Whether a shape covers pixel (`px`, `py`).
fn shape_covers(sh: &Shape, px: i64, py: i64) -> (r: bool)
    requires
        shape_ok(*sh),
        0 <= px <= 0x1_0000_0000,
        0 <= py <= 0x1_0000_0000,
    ensures
        r == covers(*sh, px as int, py as int),
{
    match *sh {
        Shape::Rect { x, y, w, h, .. } => x <= px && px < x + w && y <= py && py < y + h,
        Shape::RectAlpha { x, y, w, h, .. } => x <= px && px < x + w && y <= py && py < y + h,
        Shape::Circle { cx, cy, r: rad, .. } => {
            let dx = px - cx;
            let dy = py - cy;
            if -rad <= dx && dx <= rad && -rad <= dy && dy <= rad {
                proof {
                    assert(dx * dx <= rad * rad && dy * dy <= rad * rad) by (nonlinear_arith)
                        requires -rad <= dx <= rad, -rad <= dy <= rad;
                    assert(rad * rad <= 0x100_0000_0000) by (nonlinear_arith)
                        requires 0 <= rad <= 0x10_0000;
                    assert(dx * dx >= 0 && dy * dy >= 0) by (nonlinear_arith);
                }
                dx * dx + dy * dy <= rad * rad
            } else {
                false
            }
        },
        Shape::Glyph { glyph, ox, oy, s, .. } => {
            if s < 1 {
                return false;
            }
            let rx = px - ox;
            let ry = py - oy;
            if 0 <= rx && rx < 5 * s && 0 <= ry && ry < 7 * s {
                let row = ry / s;
                let col = rx / s;
                proof {
                    assert(row < 7 && col < 5) by (nonlinear_arith)
                        requires row == ry / s, col == rx / s, 0 <= rx < 5 * s, 0 <= ry < 7 * s, s >= 1;
                    assert(row >= 0 && col >= 0) by (nonlinear_arith)
                        requires row == ry / s, col == rx / s, 0 <= rx, 0 <= ry, s >= 1;
                }
                let bits = glyph[row as usize];
                let shift = (4 - col) as u8;
                bits & (1u8 << shift) != 0
            } else {
                false
            }
        },
    }
}

/// The colour a shape gives a covered pixel that was `d`.
fn shape_shade(sh: &Shape, d: u32) -> (r: u32)
    ensures
        r == shade(*sh, d),
{
    match *sh {
        Shape::RectAlpha { color, .. } => {
            let c = color;
            let a = (c >> 24) & 0xFF;
            let sr = (c >> 16) & 0xFF;
            let sg = (c >> 8) & 0xFF;
            let sb = c & 0xFF;
            let dr = (d >> 16) & 0xFF;
            let dg = (d >> 8) & 0xFF;
            let db = d & 0xFF;
            proof {
                assert(a <= 255 && sr <= 255 && sg <= 255 && sb <= 255 && dr <= 255 && dg <= 255 && db <= 255) by (bit_vector)
                    requires a == (c >> 24) & 0xFF, sr == (c >> 16) & 0xFF, sg == (c >> 8) & 0xFF, sb == c & 0xFF,
                        dr == (d >> 16) & 0xFF, dg == (d >> 8) & 0xFF, db == d & 0xFF;
            }
            let inv_a = 255 - a;
            proof {
                assert(sr * a + dr * inv_a <= 255 * 255 && sg * a + dg * inv_a <= 255 * 255 && sb * a + db * inv_a <= 255 * 255) by (nonlinear_arith)
                    requires sr <= 255, sg <= 255, sb <= 255, dr <= 255, dg <= 255, db <= 255, a + inv_a == 255;
            }
            let r = (sr * a + dr * inv_a) / 255;
            let g = (sg * a + dg * inv_a) / 255;
            let b = (sb * a + db * inv_a) / 255;
            proof {
                assert(r <= 255 && g <= 255 && b <= 255);
                assert(0xFF000000u32 | (r << 16u32) | (g << 8u32) | b == 0xFF000000u32 + r * 0x10000 + g * 0x100 + b) by (bit_vector)
                    requires r <= 255u32, g <= 255u32, b <= 255u32;
            }
            0xFF000000 | (r << 16) | (g << 8) | b
        },
        Shape::Rect { color, .. } => color,
        Shape::Circle { color, .. } => color,
        Shape::Glyph { color, .. } => color,
    }
}

/// Every pixel a shape covers lies in its box.
proof fn lemma_covers_in_bbox(sh: Shape, px: int, py: int)
    requires
        covers(sh, px, py),
    ensures
        bbox(sh).0 <= px < bbox(sh).2,
        bbox(sh).1 <= py < bbox(sh).3,
{
}

/// The box of a shape, first corner inclusive, last exclusive.
fn shape_bbox(sh: &Shape) -> (r: (i64, i64, i64, i64))
    requires
        shape_ok(*sh),
    ensures
        r.0 == bbox(*sh).0 && r.1 == bbox(*sh).1 && r.2 == bbox(*sh).2 && r.3 == bbox(*sh).3,
{
    match *sh {
        Shape::Rect { x, y, w, h, .. } => (x, y, x + w, y + h),
        Shape::RectAlpha { x, y, w, h, .. } => (x, y, x + w, y + h),
        Shape::Circle { cx, cy, r, .. } => (cx - r, cy - r, cx + r + 1, cy + r + 1),
        Shape::Glyph { ox, oy, s, .. } => (ox, oy, ox + 5 * s, oy + 7 * s),
    }
}

/// Paints a shape onto the `bw` by `bh` screen at the start of `buffer`.
fn paint_shape(buffer: &mut [u32], bw: u32, bh: u32, sh: &Shape)
    requires
        old(buffer)@.len() >= bw * bh,
        bw * bh <= u32::MAX,
        shape_ok(*sh),
    ensures
        final(buffer)@ == paint_shape_spec(old(buffer)@, bw as int, bh as int, *sh),
{
    let ghost old_buf = buffer@;
    let ghost w = bw as int;
    let ghost h = bh as int;
    let (x0, y0, x1, y1) = shape_bbox(sh);
    let xs: i64 = if x0 < 0 { 0 } else { x0 };
    let ys: i64 = if y0 < 0 { 0 } else { y0 };
    let xe: i64 = if x1 > bw as i64 { bw as i64 } else { x1 };
    let ye: i64 = if y1 > bh as i64 { bh as i64 } else { y1 };
    let mut py: i64 = ys;
    if ys < ye {
        while py < ye
            invariant
                shape_ok(*sh),
                old_buf == old(buffer)@,
                w == bw && h == bh,
                w * h <= u32::MAX,
                old_buf.len() >= w * h,
                buffer@.len() == old_buf.len(),
                x0 == bbox(*sh).0 && y0 == bbox(*sh).1 && x1 == bbox(*sh).2 && y1 == bbox(*sh).3,
                xs == (if x0 < 0 { 0 } else { x0 }),
                ys == (if y0 < 0 { 0 } else { y0 }),
                xe == (if x1 > bw { bw as i64 } else { x1 }),
                ye == (if y1 > bh { bh as i64 } else { y1 }),
                ys <= py <= ye,
                forall|p: int|
                    0 <= p < old_buf.len() ==> #[trigger] buffer@[p] == if 0 <= p < w * h && row_of(p, w)
                        < py && covers(*sh, col_of(p, w), row_of(p, w)) {
                        shade(*sh, old_buf[p])
                    } else {
                        old_buf[p]
                    },
            decreases ye - py,
        {
            let mut px: i64 = xs;
            if xs < xe {
                while px < xe
                    invariant
                        shape_ok(*sh),
                        old_buf == old(buffer)@,
                        w == bw && h == bh,
                        w * h <= u32::MAX,
                        old_buf.len() >= w * h,
                        buffer@.len() == old_buf.len(),
                        x0 == bbox(*sh).0 && y0 == bbox(*sh).1 && x1 == bbox(*sh).2 && y1 == bbox(*sh).3,
                        xs == (if x0 < 0 { 0 } else { x0 }),
                        xe == (if x1 > bw { bw as i64 } else { x1 }),
                        ye == (if y1 > bh { bh as i64 } else { y1 }),
                        ys <= py < ye,
                        ys == (if y0 < 0 { 0 } else { y0 }),
                        xs <= px <= xe,
                        forall|p: int|
                            0 <= p < old_buf.len() ==> #[trigger] buffer@[p] == if 0 <= p < w * h && (
                            row_of(p, w) < py || (row_of(p, w) == py && col_of(p, w) < px)) && covers(
                                *sh,
                                col_of(p, w),
                                row_of(p, w),
                            ) {
                                shade(*sh, old_buf[p])
                            } else {
                                old_buf[p]
                            },
                    decreases xe - px,
                {
                    let ghost before = buffer@;
                    proof {
                        lemma_index_bound(py as int, w, px as int, h);
                        lemma_index_div_mod(py as int, w, px as int);
                        assert(h * w == w * h) by (nonlinear_arith);
                    }
                    let pyu = py as u32;
                    let pxu = px as u32;
                    assert(pyu == py && pxu == px);
                    let idx = (pyu * bw + pxu) as usize;
                    if shape_covers(sh, px, py) {
                        let d = buffer[idx];
                        buffer[idx] = shape_shade(sh, d);
                    }
                    assert forall|q: int| 0 <= q < old_buf.len() implies #[trigger] buffer@[q] == if 0 <= q < w * h && (
                        row_of(q, w) < py || (row_of(q, w) == py && col_of(q, w) < px + 1)) && covers(
                        *sh,
                        col_of(q, w),
                        row_of(q, w),
                    ) {
                        shade(*sh, old_buf[q])
                    } else {
                        old_buf[q]
                    } by {
                        if q != idx {
                            assert(buffer@[q] == before[q]);
                            if 0 <= q < w * h && row_of(q, w) == py && col_of(q, w) == px {
                                assert(q == row_of(q, w) * w + col_of(q, w)) by (nonlinear_arith)
                                    requires w > 0;
                                assert(false);
                            }
                        }
                    }
                    px = px + 1;
                }
            }
            assert forall|q: int| 0 <= q < old_buf.len() implies #[trigger] buffer@[q] == if 0 <= q < w * h && row_of(q, w)
                < py + 1 && covers(*sh, col_of(q, w), row_of(q, w)) {
                shade(*sh, old_buf[q])
            } else {
                old_buf[q]
            } by {
                if 0 <= q < w * h && row_of(q, w) == py && covers(*sh, col_of(q, w), row_of(q, w)) {
                    lemma_covers_in_bbox(*sh, col_of(q, w), row_of(q, w));
                    assert(0 <= col_of(q, w) < w) by (nonlinear_arith)
                        requires w > 0;
                }
            }
            py = py + 1;
        }
    }
    assert(buffer@ =~= paint_shape_spec(old_buf, w, h, *sh)) by {
        assert forall|q: int| 0 <= q < old_buf.len() implies buffer@[q] == paint_shape_spec(old_buf, w, h, *sh)[q] by {
            if 0 <= q < w * h && covers(*sh, col_of(q, w), row_of(q, w)) {
                lemma_covers_in_bbox(*sh, col_of(q, w), row_of(q, w));
                assert(0 <= row_of(q, w) < h) by (nonlinear_arith)
                    requires w > 0, 0 <= q < w * h;
                assert(0 <= col_of(q, w) < w) by (nonlinear_arith)
                    requires w > 0;
            }
        }
    }
}

/// The colour of a D-pad arm: lit while its key is held.
pub open spec fn dpad_color(pressed: Set<u16>, key: u16) -> u32 {
    if pressed.contains(key) {
        COLOR_DPAD_PRESSED
    } else {
        COLOR_IDLE
    }
}

/// A glyph centred in the square cell at (`cx`, `cy`) of side `cell`.
pub open spec fn glyph_in_cell(glyph: [u8; 7], cx: int, cy: int, cell: int, gs: int) -> Shape {
    Shape::Glyph {
        glyph,
        ox: (cx + div_trunc(cell - 5 * gs, 2)) as i64,
        oy: (cy + div_trunc(cell - 7 * gs, 2)) as i64,
        s: gs as i64,
        color: COLOR_LABEL,
    }
}

/// The shapes of the overlay on a `width` by `height` screen at `scale`,
/// in drawing order: the D-pad's backdrop, centre and four arms with their
/// arrows, then the buttons' backdrop, the A and B discs and their letters.
/// The unit is three pixels per scale step, the margin two.
pub open spec fn overlay_shapes(width: int, height: int, scale: int, pressed: Set<u16>) -> Seq<Shape> {
    let u = 3 * scale;
    let m = 2 * scale;
    let dcx = m + 5 * u;
    let dcy = height - m - 5 * u;
    let gs = if scale >= 3 {
        2int
    } else {
        1int
    };
    let acx = width - m - 3 * u;
    let acy = height - m - 4 * u;
    let bcx = width - m - 8 * u;
    let bcy = height - m - 2 * u;
    seq![
        Shape::RectAlpha { x: (dcx - 5 * u) as i64, y: (dcy - 5 * u) as i64, w: (11 * u) as i64, h: (11 * u) as i64, color: COLOR_BG },
        Shape::Rect { x: (dcx - u) as i64, y: (dcy - u) as i64, w: (3 * u) as i64, h: (3 * u) as i64, color: COLOR_IDLE },
        Shape::Rect { x: (dcx - u) as i64, y: (dcy - 5 * u) as i64, w: (3 * u) as i64, h: (4 * u) as i64, color: dpad_color(pressed, KEY_UP) },
        Shape::Rect { x: (dcx - u) as i64, y: (dcy + 2 * u) as i64, w: (3 * u) as i64, h: (4 * u) as i64, color: dpad_color(pressed, KEY_DOWN) },
        Shape::Rect { x: (dcx - 5 * u) as i64, y: (dcy - u) as i64, w: (4 * u) as i64, h: (3 * u) as i64, color: dpad_color(pressed, KEY_LEFT) },
        Shape::Rect { x: (dcx + 2 * u) as i64, y: (dcy - u) as i64, w: (4 * u) as i64, h: (3 * u) as i64, color: dpad_color(pressed, KEY_RIGHT) },
        glyph_in_cell(ARROW_UP, dcx - u, dcy - 4 * u, 3 * u, gs),
        glyph_in_cell(ARROW_DOWN, dcx - u, dcy + 2 * u, 3 * u, gs),
        glyph_in_cell(ARROW_LEFT, dcx - 4 * u, dcy - u, 3 * u, gs),
        glyph_in_cell(ARROW_RIGHT, dcx + 2 * u, dcy - u, 3 * u, gs),
        Shape::RectAlpha { x: (bcx - 3 * u) as i64, y: (acy - 3 * u) as i64, w: (12 * u) as i64, h: (8 * u) as i64, color: COLOR_BG },
        Shape::Circle { cx: acx as i64, cy: acy as i64, r: (2 * u) as i64, color: if pressed.contains(KEY_A) { COLOR_A_PRESSED } else { COLOR_IDLE } },
        Shape::Circle { cx: bcx as i64, cy: bcy as i64, r: (2 * u) as i64, color: if pressed.contains(KEY_B) { COLOR_B_PRESSED } else { COLOR_IDLE } },
        glyph_in_cell(FONT_A, acx - u, acy - u, 3 * u, gs),
        glyph_in_cell(FONT_B, bcx - u, bcy - u, 3 * u, gs),
    ]
}

/// Half of `a`, rounded toward zero.
fn half_trunc(a: i64) -> (r: i64)
    requires
        -0x1_0000_0000 <= a <= 0x1_0000_0000,
    ensures
        r == div_trunc(a as int, 2),
{
    if a >= 0 {
        a / 2
    } else {
        -((-a) / 2)
    }
}

/// A glyph centred in a cell.
fn glyph_shape(glyph: [u8; 7], cx: i64, cy: i64, cell: i64, gs: i64) -> (r: Shape)
    requires
        -0x8000_0000 <= cx <= 0x8000_0000,
        -0x8000_0000 <= cy <= 0x8000_0000,
        0 <= cell <= 0x1000_0000,
        1 <= gs <= 2,
    ensures
        r == glyph_in_cell(glyph, cx as int, cy as int, cell as int, gs as int),
        shape_ok(r),
{
    Shape::Glyph {
        glyph,
        ox: cx + half_trunc(cell - 5 * gs),
        oy: cy + half_trunc(cell - 7 * gs),
        s: gs,
        color: COLOR_LABEL,
    }
}

/// The overlay's shapes for a `width` by `height` picture at `scale`.
#[verifier::rlimit(100)]
fn overlay_shape_list(width: u32, height: u32, scale: u32, pressed: &std::collections::HashSet<u16>) -> (r: Vec<Shape>)
    requires
        width <= i32::MAX,
        height <= i32::MAX,
        36 * scale * scale <= i32::MAX,
    ensures
        r@ == overlay_shapes(width as int, height as int, scale as int, pressed@),
        forall|j: int| 0 <= j < r@.len() ==> shape_ok(#[trigger] r@[j]),
{
        broadcast use vstd::std_specs::hash::group_hash_axioms;

        proof {
            assert(scale <= 7723) by (nonlinear_arith)
                requires 36 * scale * scale <= 0x7fff_ffff;
        }
        let sc = scale as i64;
        let u: i64 = 3 * sc;
        let m: i64 = 2 * sc;
        let w = width as i64;
        let h = height as i64;
        let dcx = m + 5 * u;
        let dcy = h - m - 5 * u;
        let gs: i64 = if scale >= 3 {
            2
        } else {
            1
        };
        let acx = w - m - 3 * u;
        let acy = h - m - 4 * u;
        let bcx = w - m - 8 * u;
        let bcy = h - m - 2 * u;
        let up = if pressed.contains(&KEY_UP) { COLOR_DPAD_PRESSED } else { COLOR_IDLE };
        let down = if pressed.contains(&KEY_DOWN) { COLOR_DPAD_PRESSED } else { COLOR_IDLE };
        let left = if pressed.contains(&KEY_LEFT) { COLOR_DPAD_PRESSED } else { COLOR_IDLE };
        let right = if pressed.contains(&KEY_RIGHT) { COLOR_DPAD_PRESSED } else { COLOR_IDLE };
        let a_color = if pressed.contains(&KEY_A) { COLOR_A_PRESSED } else { COLOR_IDLE };
        let b_color = if pressed.contains(&KEY_B) { COLOR_B_PRESSED } else { COLOR_IDLE };
        let mut shapes: Vec<Shape> = Vec::new();
        shapes.push(Shape::RectAlpha { x: dcx - 5 * u, y: dcy - 5 * u, w: 11 * u, h: 11 * u, color: COLOR_BG });
        shapes.push(Shape::Rect { x: dcx - u, y: dcy - u, w: 3 * u, h: 3 * u, color: COLOR_IDLE });
        shapes.push(Shape::Rect { x: dcx - u, y: dcy - 5 * u, w: 3 * u, h: 4 * u, color: up });
        shapes.push(Shape::Rect { x: dcx - u, y: dcy + 2 * u, w: 3 * u, h: 4 * u, color: down });
        shapes.push(Shape::Rect { x: dcx - 5 * u, y: dcy - u, w: 4 * u, h: 3 * u, color: left });
        shapes.push(Shape::Rect { x: dcx + 2 * u, y: dcy - u, w: 4 * u, h: 3 * u, color: right });
        shapes.push(glyph_shape(ARROW_UP, dcx - u, dcy - 4 * u, 3 * u, gs));
        shapes.push(glyph_shape(ARROW_DOWN, dcx - u, dcy + 2 * u, 3 * u, gs));
        shapes.push(glyph_shape(ARROW_LEFT, dcx - 4 * u, dcy - u, 3 * u, gs));
        shapes.push(glyph_shape(ARROW_RIGHT, dcx + 2 * u, dcy - u, 3 * u, gs));
        shapes.push(Shape::RectAlpha { x: bcx - 3 * u, y: acy - 3 * u, w: 12 * u, h: 8 * u, color: COLOR_BG });
        shapes.push(Shape::Circle { cx: acx, cy: acy, r: 2 * u, color: a_color });
        shapes.push(Shape::Circle { cx: bcx, cy: bcy, r: 2 * u, color: b_color });
        shapes.push(glyph_shape(FONT_A, acx - u, acy - u, 3 * u, gs));
        shapes.push(glyph_shape(FONT_B, bcx - u, bcy - u, 3 * u, gs));
        assert(shapes@ =~= overlay_shapes(width as int, height as int, scale as int, pressed@));
        shapes
}

/// The virtual gamepad: draws the overlay shapes onto the `width` by
/// `height` picture at the start of `buffer`, at integer `scale`, lighting
/// the controls whose keys are in `pressed`.
pub struct GamepadOverlay;

impl GamepadOverlay {
    pub fn draw(
        buffer: &mut [u32],
        width: u32,
        height: u32,
        scale: u32,
        pressed: &std::collections::HashSet<u16>,
    )
        requires
            old(buffer)@.len() >= width * height,
            width * height <= u32::MAX,
            width <= i32::MAX,
            height <= i32::MAX,
            36 * scale * scale <= i32::MAX,
        ensures
            final(buffer)@ == paint_all(
                old(buffer)@,
                width as int,
                height as int,
                overlay_shapes(width as int, height as int, scale as int, pressed@),
            ),
    {
        let shapes = overlay_shape_list(width, height, scale, pressed);
        let ghost all = overlay_shapes(width as int, height as int, scale as int, pressed@);
        assert(shapes@ =~= all);
        let ghost start = buffer@;
        let mut k: usize = 0;
        assert(all.subrange(0, 0) =~= Seq::<Shape>::empty());
        while k < shapes.len()
            invariant
                k <= shapes@.len(),
                shapes@ == all,
                forall|j: int| 0 <= j < all.len() ==> shape_ok(#[trigger] all[j]),
                start == old(buffer)@,
                start.len() >= width * height,
                width * height <= u32::MAX,
                buffer@.len() == start.len(),
                buffer@ == paint_all(start, width as int, height as int, all.subrange(0, k as int)),
            decreases shapes@.len() - k,
        {
            let sh = shapes[k];
            assert(all.subrange(0, k + 1).drop_last() =~= all.subrange(0, k as int));
            assert(all.subrange(0, k + 1).last() == all[k as int]);
            paint_shape(buffer, width, height, &sh);
            k = k + 1;
        }
        assert(all.subrange(0, all.len() as int) =~= all);
    }
}

} // verus!
