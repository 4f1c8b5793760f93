//! Drawing a frame: the image objects of the current frame and the visible
//! movie instances, each at its depth, blitted over an opaque black screen.
//! A movie instance can have an override image (a menu thumbnail), which
//! may follow the visibility of another instance, its panel.

use vstd::prelude::*;

use crate::file_loader::{objects_view, opt_chars, FrameObject, FrameObjectView, MovieFrame, Native32Reader, ObjectType};
use crate::image_decoder::{lemma_decoded_size, lemma_index_bound, lemma_index_div_mod, RgbaImage};
use crate::sprite_system::{lookup, SpriteEntry, SpriteSystem};
use crate::text::str_eq;

verus! {

/// Opaque black, the colour of an empty screen.
pub const BLACK: u32 = 0xFF00_0000;

/// What a draw entry blits: an image of the game's image table, or the
/// override image of a named instance.
#[derive(Debug)]
pub enum DrawSource {
    Image(u32),
    Override(String),
}

/// A draw source with the instance name as characters.
pub enum SourceView {
    Image(u32),
    Override(Seq<char>),
}

/// One thing to draw, where, and at which depth.
#[derive(Debug)]
pub struct DrawEntry {
    pub source: DrawSource,
    pub x: i32,
    pub y: i32,
    pub depth: u32,
}

/// A draw entry as source, position and depth.
pub type EntryView = (SourceView, i32, i32, u32);

impl View for DrawEntry {
    type V = EntryView;

    open spec fn view(&self) -> EntryView {
        (
            match self.source {
                DrawSource::Image(i) => SourceView::Image(i),
                DrawSource::Override(n) => SourceView::Override(n@),
            },
            self.x,
            self.y,
            self.depth,
        )
    }
}

/// An image drawn in place of an instance's own, optionally shown only
/// while another instance (its panel) is visible.
#[derive(Debug)]
pub struct SpriteOverride {
    pub image: RgbaImage,
    pub visibility_leader: Option<String>,
}

/// An override as image and leader name.
pub type OverrideView = ((u32, u32, Seq<u32>), Option<Seq<char>>);

/// Named overrides.
pub type OverridesView = Seq<(Seq<char>, OverrideView)>;

/// The view of the overrides.
pub open spec fn overrides_view(v: Seq<(String, SpriteOverride)>) -> OverridesView {
    v.map_values(
        |p: (String, SpriteOverride)|
            (
                p.0@,
                (p.1.image@, opt_chars(p.1.visibility_leader)),
            ),
    )
}

/// `i` is the first override named `name`.
pub open spec fn override_at(s: OverridesView, name: Seq<char>, i: int) -> bool {
    &&& 0 <= i < s.len()
    &&& s[i].0 == name
    &&& forall|j: int| 0 <= j < i ==> s[j].0 != name
}

/// Some override is named `name`.
pub open spec fn has_override(s: OverridesView, name: Seq<char>) -> bool {
    exists|i: int| 0 <= i < s.len() && s[i].0 == name
}

/// The override named `name`, if any.
pub open spec fn override_of(s: OverridesView, name: Seq<char>) -> Option<OverrideView> {
    if has_override(s, name) {
        Some(s[choose|i: int| override_at(s, name, i)].1)
    } else {
        None
    }
}

proof fn lemma_override_at(s: OverridesView, name: Seq<char>, i: int)
    requires
        override_at(s, name, i),
    ensures
        override_of(s, name) == Some(s[i].1),
{
    let j = choose|j: int| override_at(s, name, j);
    assert(override_at(s, name, j));
    if j < i {
        assert(s[j].0 != name);
    } else if i < j {
        assert(s[i].0 != name);
    }
}

/// An image with one pixel per position, small enough to index with
/// 32-bit numbers.
pub open spec fn image_ok(img: (u32, u32, Seq<u32>)) -> bool {
    img.2.len() == img.0 * img.1 && img.0 < 0x1_0000 && img.1 < 0x1_0000
}

/// The draw entries of the image objects of a frame, in order.
pub open spec fn frame_entries(objs: Seq<FrameObjectView>) -> Seq<EntryView>
    decreases objs.len(),
{
    if objs.len() == 0 {
        Seq::empty()
    } else {
        let r = frame_entries(objs.drop_last());
        let o = objs.last();
        if o.0 == ObjectType::Image {
            r.push((SourceView::Image(o.1 as u32), o.2 as i32, o.3 as i32, o.4 as u32))
        } else {
            r
        }
    }
}

/// An override whose panel exists and is hidden is not drawn.
pub open spec fn leader_hidden(ov: OverrideView, all: Seq<SpriteEntry>) -> bool {
    match ov.1 {
        Some(l) => match lookup(all, l) {
            Some(panel) => !panel.visible,
            None => false,
        },
        None => false,
    }
}

/// A visible instance that is drawn: without an override, or with one whose
/// panel is not hidden.
pub open spec fn drawn(ovrs: OverridesView, all: Seq<SpriteEntry>, e: SpriteEntry) -> bool {
    e.1.visible && !(override_of(ovrs, e.0) matches Some(ov) && leader_hidden(ov, all))
}

/// The draw entry of an instance, if it has one: its override image at the
/// instance position plus the offset of its current movie frame (none past
/// the last frame), or the image of its current movie frame.
pub open spec fn sprite_entry(
    frames: Seq<MovieFrame>,
    ovrs: OverridesView,
    e: SpriteEntry,
) -> Option<EntryView> {
    let m = e.1;
    if override_of(ovrs, e.0) is Some {
        let (fx, fy) = if m.frame < frames.len() {
            (frames[m.frame as int].x as int, frames[m.frame as int].y as int)
        } else {
            (0, 0)
        };
        Some((SourceView::Override(e.0), (m.x + fx) as i32, (m.y + fy) as i32, m.depth as u32))
    } else if m.frame < frames.len() {
        let f = frames[m.frame as int];
        Some(
            (
                SourceView::Image(f.image as u32),
                (m.x + f.x) as i32,
                (m.y + f.y) as i32,
                m.depth as u32,
            ),
        )
    } else {
        None
    }
}

/// The draw entries of the instances `s`, in order; `all` are all the
/// instances, among which panels are looked up.
pub open spec fn sprite_entries(
    r: Native32Reader,
    ovrs: OverridesView,
    all: Seq<SpriteEntry>,
    s: Seq<SpriteEntry>,
) -> Seq<EntryView>
    decreases s.len(),
{
    if s.len() == 0 {
        Seq::empty()
    } else {
        let rest = sprite_entries(r, ovrs, all, s.drop_last());
        let e = s.last();
        if drawn(ovrs, all, e) {
            match sprite_entry(r.movie_of(e.1.movie as int), ovrs, e) {
                Some(d) => rest.push(d),
                None => rest,
            }
        } else {
            rest
        }
    }
}

/// Where an entry of depth `d` goes in a list sorted by depth: after every
/// entry of the same or a smaller depth at the end of the list.
pub open spec fn insert_pos(sorted: Seq<EntryView>, d: u32) -> int
    decreases sorted.len(),
{
    if sorted.len() > 0 && sorted.last().3 > d {
        insert_pos(sorted.drop_last(), d)
    } else {
        sorted.len() as int
    }
}

/// The entries sorted by depth, entries of equal depth in their order.
pub open spec fn sort_by_depth(l: Seq<EntryView>) -> Seq<EntryView>
    decreases l.len(),
{
    if l.len() == 0 {
        l
    } else {
        let s = sort_by_depth(l.drop_last());
        s.insert(insert_pos(s, l.last().3), l.last())
    }
}

/// `img` blitted onto the screen `buf` of width `w` at (`dx`, `dy`):
/// every screen pixel under a pixel of the image that is not fully
/// transparent takes that pixel.
pub open spec fn blit(buf: Seq<u32>, w: int, img: (u32, u32, Seq<u32>), dx: int, dy: int) -> Seq<u32> {
    Seq::new(buf.len(), |p: int| blit_pixel(buf, w, img, dx, dy, p))
}

/// One screen pixel after a blit.
pub open spec fn blit_pixel(buf: Seq<u32>, w: int, img: (u32, u32, Seq<u32>), dx: int, dy: int, p: int) -> u32 {
    let sx = p % w - dx;
    let sy = p / w - dy;
    if 0 <= sx < img.0 && 0 <= sy < img.1 && (img.2[sy * img.0 + sx] >> 24u32) != 0 {
        img.2[sy * img.0 + sx]
    } else {
        buf[p]
    }
}

/// The image a draw entry blits, if it has one.
pub open spec fn entry_image(r: Native32Reader, ovrs: OverridesView, e: EntryView) -> Option<
    (u32, u32, Seq<u32>),
> {
    match e.0 {
        SourceView::Image(i) => r.image_of(i as int),
        SourceView::Override(n) => match override_of(ovrs, n) {
            Some(ov) => Some(ov.0),
            None => None,
        },
    }
}

/// The screen after drawing the entries in order, shifted by the screen
/// offset.
pub open spec fn draw_all(
    buf: Seq<u32>,
    w: int,
    ox: int,
    oy: int,
    r: Native32Reader,
    ovrs: OverridesView,
    entries: Seq<EntryView>,
) -> Seq<u32>
    decreases entries.len(),
{
    if entries.len() == 0 {
        buf
    } else {
        let b = draw_all(buf, w, ox, oy, r, ovrs, entries.drop_last());
        let e = entries.last();
        match entry_image(r, ovrs, e) {
            Some(img) => blit(b, w, img, e.1 + ox, e.2 + oy),
            None => b,
        }
    }
}

/// A screen of `n` opaque black pixels.
pub open spec fn black_screen(n: nat) -> Seq<u32> {
    Seq::new(n, |p: int| BLACK)
}

/// The renderer: the screen offset, the screen buffer, and the override
/// images by instance name.
pub struct Renderer {
    pub screen_x: i32,
    pub screen_y: i32,
    pub buffer: Vec<u32>,
    pub width: u32,
    pub height: u32,
    pub sprite_overrides: Vec<(String, SpriteOverride)>,
}

impl Renderer {
    /// The buffer holds the screen; override images are well formed.
    pub open spec fn wf(&self) -> bool {
        &&& self.width * self.height <= u32::MAX
        &&& self.buffer@.len() == self.width * self.height
        &&& forall|i: int|
            0 <= i < self.sprite_overrides@.len() ==> image_ok(
                #[trigger] self.sprite_overrides@[i].1.image@,
            )
    }

    /// The override images, by name.
    pub open spec fn overrides(&self) -> OverridesView {
        overrides_view(self.sprite_overrides@)
    }
}

/// A screen of `n` opaque black pixels.
fn black_buffer(n: usize) -> (r: Vec<u32>)
    ensures
        r@ == black_screen(n as nat),
{
    let mut v: Vec<u32> = Vec::new();
    let mut i: usize = 0;
    while i < n
        invariant
            i <= n,
            v@ == black_screen(i as nat),
        decreases n - i,
    {
        v.push(BLACK);
        i = i + 1;
        assert(v@ =~= black_screen(i as nat));
    }
    v
}

impl Renderer {
    /// A renderer with a black screen of `width` by `height` pixels.
    pub fn new(width: u32, height: u32) -> (r: Self)
        requires
            width * height <= u32::MAX,
        ensures
            r.wf(),
            r.screen_x == 0 && r.screen_y == 0,
            r.width == width && r.height == height,
            r.buffer@ == black_screen((width * height) as nat),
            r.sprite_overrides@.len() == 0,
    {
        let n = (width * height) as usize;
        Renderer {
            screen_x: 0,
            screen_y: 0,
            buffer: black_buffer(n),
            width,
            height,
            sprite_overrides: Vec::new(),
        }
    }

    /// The first override named `name`.
    fn override_position(&self, name: &str) -> (r: Option<usize>)
        ensures
            match r {
                Some(i) => override_at(self.overrides(), name@, i as int) && i
                    < self.sprite_overrides@.len(),
                None => !has_override(self.overrides(), name@),
            },
    {
        let mut i: usize = 0;
        while i < self.sprite_overrides.len()
            invariant
                i <= self.sprite_overrides@.len(),
                forall|j: int| 0 <= j < i ==> #[trigger] self.overrides()[j].0 != name@,
            decreases self.sprite_overrides@.len() - i,
        {
            if str_eq(self.sprite_overrides[i].0.as_str(), name) {
                return Some(i);
            }
            i = i + 1;
        }
        None
    }

    /// Draws `image` in place of the instance `name`'s own image; with a
    /// `visibility_leader`, only while that instance is not hidden.
    pub fn set_sprite_override(
        &mut self,
        name: String,
        image: RgbaImage,
        visibility_leader: Option<String>,
    )
        requires
            old(self).wf(),
            image_ok(image@),
        ensures
            final(self).wf(),
            final(self).overrides() == ({
                let ov = (image@, opt_chars(visibility_leader));
                if has_override(old(self).overrides(), name@) {
                    old(self).overrides().update(
                        choose|i: int| override_at(old(self).overrides(), name@, i),
                        (name@, ov),
                    )
                } else {
                    old(self).overrides().push((name@, ov))
                }
            }),
            final(self).buffer == old(self).buffer,
            final(self).width == old(self).width && final(self).height == old(self).height,
            final(self).screen_x == old(self).screen_x && final(self).screen_y == old(self).screen_y,
    {
        let ghost before = self.overrides();
        let ghost ov = (image@, opt_chars(visibility_leader));
        let ghost nm = name@;
        match self.override_position(name.as_str()) {
            Some(i) => {
                proof {
                    let j = choose|j: int| override_at(before, nm, j);
                    assert(override_at(before, nm, j));
                    if j < i {
                        assert(before[j].0 != nm);
                    } else if (i as int) < j {
                        assert(before[i as int].0 != nm);
                    }
                }
                self.sprite_overrides[i] = (name, SpriteOverride { image, visibility_leader });
                assert(self.overrides() =~= before.update(i as int, (nm, ov)));
            },
            None => {
                self.sprite_overrides.push((name, SpriteOverride { image, visibility_leader }));
                assert(self.overrides() =~= before.push((nm, ov)));
            },
        }
    }

    /// Drops every override image.
    pub fn clear_sprite_overrides(&mut self)
        requires
            old(self).wf(),
        ensures
            final(self).wf(),
            final(self).sprite_overrides@.len() == 0,
            final(self).buffer == old(self).buffer,
            final(self).width == old(self).width && final(self).height == old(self).height,
            final(self).screen_x == old(self).screen_x && final(self).screen_y == old(self).screen_y,
    {
        self.sprite_overrides = Vec::new();
    }

    /// The number of override images.
    pub fn sprite_override_count(&self) -> (r: usize)
        ensures
            r == self.sprite_overrides@.len(),
    {
        self.sprite_overrides.len()
    }

    /// Changes the screen size; the screen turns black.
    pub fn resize(&mut self, width: u32, height: u32)
        requires
            old(self).wf(),
            width * height <= u32::MAX,
        ensures
            final(self).wf(),
            final(self).width == width && final(self).height == height,
            final(self).buffer@ == black_screen((width * height) as nat),
            final(self).sprite_overrides == old(self).sprite_overrides,
            final(self).screen_x == old(self).screen_x && final(self).screen_y == old(self).screen_y,
    {
        self.width = width;
        self.height = height;
        self.buffer = black_buffer((width * height) as usize);
    }

    /// Blits `img` at (`dst_x`, `dst_y`), skipping fully transparent
    /// pixels and pixels off the screen.
    fn blit_image(&mut self, img: &RgbaImage, dst_x: i64, dst_y: i64)
        requires
            old(self).wf(),
            image_ok(img@),
            -0x1_0000_0000 <= dst_x <= 0x1_0000_0000,
            -0x1_0000_0000 <= dst_y <= 0x1_0000_0000,
        ensures
            final(self).wf(),
            final(self).buffer@ == blit(old(self).buffer@, old(self).width as int, img@, dst_x as int, dst_y as int),
            final(self).width == old(self).width && final(self).height == old(self).height,
            final(self).sprite_overrides == old(self).sprite_overrides,
            final(self).screen_x == old(self).screen_x && final(self).screen_y == old(self).screen_y,
    {
        let ghost old_buf = self.buffer@;
        let ghost w = self.width as int;
        let ghost h = self.height as int;
        let ghost im = img@;
        let iw = img.width;
        let ih = img.height;
        let mut sy: u32 = 0;
        while sy < ih
            invariant
                self.wf(),
                self.width == old(self).width && self.height == old(self).height,
                self.sprite_overrides == old(self).sprite_overrides,
                self.screen_x == old(self).screen_x && self.screen_y == old(self).screen_y,
                w == self.width && h == self.height,
                old_buf == old(self).buffer@,
                im == img@,
                image_ok(im),
                iw == im.0 && ih == im.1,
                sy <= ih,
                -0x1_0000_0000 <= dst_x <= 0x1_0000_0000,
                -0x1_0000_0000 <= dst_y <= 0x1_0000_0000,
                self.buffer@.len() == old_buf.len(),
                forall|p: int|
                    0 <= p < old_buf.len() ==> #[trigger] self.buffer@[p] == if p / w - dst_y < sy {
                        blit_pixel(old_buf, w, im, dst_x as int, dst_y as int, p)
                    } else {
                        old_buf[p]
                    },
            decreases ih - sy,
        {
            let dy: i64 = dst_y + sy as i64;
            let mut sx: u32 = 0;
            while sx < iw
                invariant
                    self.wf(),
                    self.width == old(self).width && self.height == old(self).height,
                    self.sprite_overrides == old(self).sprite_overrides,
                    self.screen_x == old(self).screen_x && self.screen_y == old(self).screen_y,
                    w == self.width && h == self.height,
                    old_buf == old(self).buffer@,
                    im == img@,
                    image_ok(im),
                    iw == im.0 && ih == im.1,
                    sy < ih,
                    sx <= iw,
                    dy == dst_y + sy,
                    -0x1_0000_0000 <= dst_x <= 0x1_0000_0000,
                    -0x1_0000_0000 <= dst_y <= 0x1_0000_0000,
                    self.buffer@.len() == old_buf.len(),
                    forall|p: int|
                        0 <= p < old_buf.len() ==> #[trigger] self.buffer@[p] == if p / w - dst_y < sy
                            || (p / w - dst_y == sy && p % w - dst_x < sx) {
                            blit_pixel(old_buf, w, im, dst_x as int, dst_y as int, p)
                        } else {
                            old_buf[p]
                        },
                decreases iw - sx,
            {
                let dx: i64 = dst_x + sx as i64;
                let ghost before = self.buffer@;
                if 0 <= dy && dy < self.height as i64 && 0 <= dx && dx < self.width as i64 {
                    proof {
                        lemma_index_bound(sy as int, iw as int, sx as int, ih as int);
                        lemma_index_bound(dy as int, w, dx as int, h);
                        lemma_index_div_mod(dy as int, w, dx as int);
                        assert(sy as int * iw as int <= (ih as int - 1) * iw as int) by (nonlinear_arith)
                            requires
                                sy < ih,
                        ;
                        assert((ih as int - 1) * (iw as int) + iw as int <= 0xffff_ffff) by (nonlinear_arith)
                            requires
                                1 <= ih < 0x10000,
                                iw < 0x10000,
                        ;
                    }
                    let src_pixel = img.pixels[(sy * iw + sx) as usize];
                    if (src_pixel >> 24u32) != 0 {
                        let p = (dy as u32 * self.width + dx as u32) as usize;
                        self.buffer.set(p, src_pixel);
                    }
                    assert forall|q: int| 0 <= q < old_buf.len() implies #[trigger] self.buffer@[q]
                        == if q / w - dst_y < sy || (q / w - dst_y == sy && q % w - dst_x < sx + 1) {
                        blit_pixel(old_buf, w, im, dst_x as int, dst_y as int, q)
                    } else {
                        old_buf[q]
                    } by {
                        let pp = dy * w + dx;
                        if q != pp {
                            assert(self.buffer@[q] == before[q]);
                            if q / w - dst_y == sy && q % w - dst_x == sx {
                                assert(q == (q / w) * w + q % w) by (nonlinear_arith)
                                    requires w > 0;
                                assert(false);
                            }
                        }
                    }
                } else {
                    assert forall|q: int| 0 <= q < old_buf.len() implies #[trigger] self.buffer@[q]
                        == if q / w - dst_y < sy || (q / w - dst_y == sy && q % w - dst_x < sx + 1) {
                        blit_pixel(old_buf, w, im, dst_x as int, dst_y as int, q)
                    } else {
                        old_buf[q]
                    } by {
                        if q / w - dst_y == sy && q % w - dst_x == sx {
                            assert(0 <= q % w < w) by (nonlinear_arith)
                                requires w > 0;
                            assert(0 <= q / w < h) by (nonlinear_arith)
                                requires w > 0, 0 <= q < w * h;
                            assert(false);
                        }
                    }
                }
                sx = sx + 1;
            }
            sy = sy + 1;
        }
        assert(self.buffer@ =~= blit(old_buf, w, im, dst_x as int, dst_y as int)) by {
            assert forall|p: int| 0 <= p < old_buf.len() implies self.buffer@[p] == blit_pixel(
                old_buf,
                w,
                im,
                dst_x as int,
                dst_y as int,
                p,
            ) by {
                if !(p / w - dst_y < sy) {
                    assert(!(0 <= p / w - dst_y < im.1));
                }
            }
        }
    }
}

/// An entry that draws from the image table names an image (from 1).
pub open spec fn image_index_ok(e: EntryView) -> bool {
    match e.0 {
        SourceView::Image(n) => n >= 1,
        SourceView::Override(_) => true,
    }
}

/// Every entry that draws from the image table names an image.
pub open spec fn image_indices_ok(l: Seq<EntryView>) -> bool {
    forall|k: int| 0 <= k < l.len() ==> image_index_ok(#[trigger] l[k])
}

/// The draw entries as views.
pub open spec fn entries_view(v: Seq<DrawEntry>) -> Seq<EntryView> {
    v.map_values(|e: DrawEntry| e@)
}

/// The entries of a frame, before sorting: its image objects, then its
/// drawn instances.
pub open spec fn frame_draw_list(
    r: Native32Reader,
    ovrs: OverridesView,
    sprites: Seq<SpriteEntry>,
    objs: Seq<FrameObjectView>,
) -> Seq<EntryView> {
    frame_entries(objs) + sprite_entries(r, ovrs, sprites, sprites)
}

/// Every image a game file decodes fits the blitter.
proof fn lemma_image_of_ok(r: Native32Reader, i: int)
    ensures
        r.image_of(i) matches Some(img) ==> image_ok(img),
{
    let d = r.data@;
    let ptr = r.base + r.image_idx + 4 * (i - 1);
    if ptr + 4 <= d.len() {
        let off = crate::image_decoder::le32(d, ptr);
        let start = r.base + off;
        if off != 0xFFFF_FFFF && start + 8 <= d.len() {
            let end = crate::file_loader::min_int(start + 8 + crate::image_decoder::le32(d, start + 4), d.len() as int);
            let block = d.subrange(start, end);
            lemma_decoded_size(block);
            assert(block[0] < 256 && block[1] < 256 && block[2] < 256 && block[3] < 256);
        }
    }
}

/// Puts `e` into the depth-sorted `sorted` after every entry of the same
/// or a smaller depth at its end.
fn insert_sorted(sorted: &mut Vec<DrawEntry>, e: DrawEntry)
    ensures
        entries_view(final(sorted)@) == entries_view(old(sorted)@).insert(
            insert_pos(entries_view(old(sorted)@), e@.3),
            e@,
        ),
{
    let ghost sv = entries_view(sorted@);
    let mut p: usize = sorted.len();
    assert(sv.subrange(0, p as int) =~= sv);
    while p > 0 && sorted[p - 1].depth > e.depth
        invariant
            p <= sorted@.len(),
            sv == entries_view(sorted@),
            insert_pos(sv, e@.3) == insert_pos(sv.subrange(0, p as int), e@.3),
        decreases p,
    {
        assert(sv.subrange(0, p as int).drop_last() =~= sv.subrange(0, p - 1));
        p = p - 1;
    }
    assert(insert_pos(sv.subrange(0, p as int), e@.3) == p) by {
        if p > 0 {
            assert(sv.subrange(0, p as int).last() == sv[p - 1]);
        }
    }
    let ghost ev = e@;
    sorted.insert(p, e);
    assert(entries_view(sorted@) =~= sv.insert(p as int, ev));
}

impl Renderer {
    /// Draws a frame: clears the screen to opaque black, gathers the image
    /// objects of `cur_frame` and the drawn instances of `sprites` (an
    /// instance with an override image draws that, unless its panel is
    /// hidden; another draws its current movie frame), sorts them by depth,
    /// equal depths in that order, and blits each at its place shifted by
    /// the screen offset.
    pub fn draw_frame(
        &mut self,
        reader: &mut Native32Reader,
        sprites: &SpriteSystem,
        cur_frame: &[FrameObject],
    )
        requires
            old(self).wf(),
            old(reader).caches_agree(),
            forall|i: int|
                0 <= i < sprites@.len() && drawn(old(self).overrides(), sprites@, #[trigger] sprites@[i])
                    ==> sprites@[i].1.movie >= 1,
            image_indices_ok(
                sort_by_depth(
                    frame_draw_list(*old(reader), old(self).overrides(), sprites@, objects_view(cur_frame@)),
                ),
            ),
        ensures
            final(self).wf(),
            final(self).buffer@ == draw_all(
                black_screen(old(self).buffer@.len()),
                old(self).width as int,
                old(self).screen_x as int,
                old(self).screen_y as int,
                *old(reader),
                old(self).overrides(),
                sort_by_depth(
                    frame_draw_list(*old(reader), old(self).overrides(), sprites@, objects_view(cur_frame@)),
                ),
            ),
            final(self).width == old(self).width && final(self).height == old(self).height,
            final(self).sprite_overrides == old(self).sprite_overrides,
            final(self).screen_x == old(self).screen_x && final(self).screen_y == old(self).screen_y,
            final(reader).same_layout(*old(reader)),
            final(reader).caches_agree(),
    {
        let ghost r0 = *reader;
        let ghost ovrs = self.overrides();
        let ghost all = sprites@;
        let ghost objs = objects_view(cur_frame@);
        let n = self.buffer.len();
        self.buffer = black_buffer(n);
        let mut sorted: Vec<DrawEntry> = Vec::new();
        let mut k: usize = 0;
        assert(objs.subrange(0, 0) =~= Seq::<FrameObjectView>::empty());
        assert(entries_view(sorted@) =~= Seq::<EntryView>::empty());
        while k < cur_frame.len()
            invariant
                k <= cur_frame@.len(),
                objs == objects_view(cur_frame@),
                entries_view(sorted@) == sort_by_depth(frame_entries(objs.subrange(0, k as int))),
            decreases cur_frame@.len() - k,
        {
            let obj = &cur_frame[k];
            let ghost l = frame_entries(objs.subrange(0, k as int));
            assert(objs.subrange(0, k + 1).drop_last() =~= objs.subrange(0, k as int));
            if obj.obj_type == ObjectType::Image {
                let e = DrawEntry {
                    source: DrawSource::Image(obj.index as u32),
                    x: obj.x as i32,
                    y: obj.y as i32,
                    depth: obj.depth as u32,
                };
                assert(l.push(e@).drop_last() =~= l);
                insert_sorted(&mut sorted, e);
            }
            k = k + 1;
        }
        assert(objs.subrange(0, cur_frame@.len() as int) =~= objs);
        let ghost fe = frame_entries(objs);
        let mut i: usize = 0;
        assert(all.subrange(0, 0) =~= Seq::<SpriteEntry>::empty());
        assert(fe + Seq::<EntryView>::empty() =~= fe);
        while i < sprites.sprites.len()
            invariant
                self.wf(),
                self.overrides() == ovrs,
                self.width == old(self).width && self.height == old(self).height,
                self.sprite_overrides == old(self).sprite_overrides,
                self.screen_x == old(self).screen_x && self.screen_y == old(self).screen_y,
                self.buffer@ == black_screen(n as nat),
                n == old(self).buffer@.len(),
                all == sprites@,
                i <= all.len(),
                reader.same_layout(r0),
                reader.caches_agree(),
                forall|j: int|
                    0 <= j < all.len() && drawn(ovrs, all, #[trigger] all[j]) ==> all[j].1.movie >= 1,
                entries_view(sorted@) == sort_by_depth(fe + sprite_entries(r0, ovrs, all, all.subrange(0, i as int))),
            decreases all.len() - i,
        {
            let name = &sprites.sprites[i].0;
            let m = sprites.sprites[i].1;
            let ghost se = all.subrange(0, i as int);
            let ghost prev = sprite_entries(r0, ovrs, all, se);
            assert(all.subrange(0, i + 1).drop_last() =~= se);
            assert(all.subrange(0, i + 1).last() == all[i as int]);
            assert(all[i as int] == (name@, m));
            if m.visible {
                let pos = self.override_position(name.as_str());
                let mut hidden = false;
                match pos {
                    Some(j) => {
                        proof {
                            lemma_override_at(ovrs, name@, j as int);
                        }
                        match &self.sprite_overrides[j].1.visibility_leader {
                            Some(l) => {
                                match sprites.get(l.as_str()) {
                                    Some(panel) => {
                                        hidden = !panel.visible;
                                    },
                                    None => {},
                                }
                            },
                            None => {},
                        }
                    },
                    None => {},
                }
                if !hidden {
                    assert(drawn(ovrs, all, all[i as int]));
                    let frames = reader.get_movie(m.movie);
                    match pos {
                        Some(_) => {
                            let (fx, fy) = if m.frame < frames.len() {
                                (frames[m.frame].x as i32, frames[m.frame].y as i32)
                            } else {
                                (0, 0)
                            };
                            let e = DrawEntry {
                                source: DrawSource::Override(name.clone()),
                                x: m.x as i32 + fx,
                                y: m.y as i32 + fy,
                                depth: m.depth as u32,
                            };
                            assert((fe + prev).push(e@).drop_last() =~= fe + prev);
                            assert(fe + prev.push(e@) =~= (fe + prev).push(e@));
                            insert_sorted(&mut sorted, e);
                        },
                        None => {
                            if m.frame < frames.len() {
                                let f = frames[m.frame];
                                let e = DrawEntry {
                                    source: DrawSource::Image(f.image as u32),
                                    x: m.x as i32 + f.x as i32,
                                    y: m.y as i32 + f.y as i32,
                                    depth: m.depth as u32,
                                };
                                assert((fe + prev).push(e@).drop_last() =~= fe + prev);
                                assert(fe + prev.push(e@) =~= (fe + prev).push(e@));
                                insert_sorted(&mut sorted, e);
                            }
                        },
                    }
                } else {
                    assert(!drawn(ovrs, all, all[i as int]));
                }
            }
            i = i + 1;
        }
        assert(all.subrange(0, all.len() as int) =~= all);
        let ghost order = entries_view(sorted@);
        let mut d: usize = 0;
        assert(order.subrange(0, 0) =~= Seq::<EntryView>::empty());
        while d < sorted.len()
            invariant
                self.wf(),
                self.overrides() == ovrs,
                self.width == old(self).width && self.height == old(self).height,
                self.sprite_overrides == old(self).sprite_overrides,
                self.screen_x == old(self).screen_x && self.screen_y == old(self).screen_y,
                n == old(self).buffer@.len(),
                d <= sorted@.len(),
                order == entries_view(sorted@),
                reader.same_layout(r0),
                reader.caches_agree(),
                image_indices_ok(order),
                self.buffer@ == draw_all(
                    black_screen(n as nat),
                    self.width as int,
                    self.screen_x as int,
                    self.screen_y as int,
                    r0,
                    ovrs,
                    order.subrange(0, d as int),
                ),
            decreases sorted@.len() - d,
        {
            let e = &sorted[d];
            assert(order[d as int] == e@);
            assert(order.subrange(0, d + 1).drop_last() =~= order.subrange(0, d as int));
            let x = e.x as i64 + self.screen_x as i64;
            let y = e.y as i64 + self.screen_y as i64;
            match &e.source {
                DrawSource::Image(index) => {
                    let img = reader.get_image(*index);
                    proof {
                        lemma_image_of_ok(r0, *index as int);
                    }
                    match img {
                        Some(img) => {
                            self.blit_image(&img, x, y);
                        },
                        None => {},
                    }
                },
                DrawSource::Override(name) => {
                    match self.override_position(name.as_str()) {
                        Some(j) => {
                            proof {
                                lemma_override_at(ovrs, name@, j as int);
                            }
                            let img = self.sprite_overrides[j].1.image.clone();
                            self.blit_image(&img, x, y);
                        },
                        None => {},
                    }
                },
            }
            d = d + 1;
        }
        assert(order.subrange(0, order.len() as int) =~= order);
    }
}

/// The entries are in depth order.
pub open spec fn depth_sorted(l: Seq<EntryView>) -> bool {
    forall|i: int, j: int| 0 <= i < j < l.len() ==> l[i].3 <= l[j].3
}

/// In a depth-sorted list, the entries before the insertion point of depth
/// `d` are no deeper than `d`, and the ones after it deeper.
proof fn lemma_insert_pos(s: Seq<EntryView>, d: u32)
    requires
        depth_sorted(s),
    ensures
        0 <= insert_pos(s, d) <= s.len(),
        forall|k: int| 0 <= k < insert_pos(s, d) ==> s[k].3 <= d,
        forall|k: int| insert_pos(s, d) <= k < s.len() ==> s[k].3 > d,
    decreases s.len(),
{
    if s.len() > 0 && s.last().3 > d {
        let t = s.drop_last();
        assert(depth_sorted(t));
        lemma_insert_pos(t, d);
        assert(insert_pos(s, d) == insert_pos(t, d));
        assert forall|k: int| 0 <= k < insert_pos(s, d) implies s[k].3 <= d by {
            assert(s[k] == t[k]);
        }
        assert forall|k: int| insert_pos(s, d) <= k < s.len() implies s[k].3 > d by {
            if k < s.len() - 1 {
                assert(s[k] == t[k]);
            }
        }
    } else if s.len() > 0 {
        assert forall|k: int| 0 <= k < s.len() implies s[k].3 <= d by {
            if k < s.len() - 1 {
                assert(s[k].3 <= s[s.len() - 1].3);
            }
        }
    }
}

/// Frames are drawn back to front: the sorted entries go by depth, and
/// there are as many as were gathered.
pub proof fn lemma_sort_by_depth(l: Seq<EntryView>)
    ensures
        depth_sorted(sort_by_depth(l)),
        sort_by_depth(l).len() == l.len(),
    decreases l.len(),
{
    if l.len() > 0 {
        let s = sort_by_depth(l.drop_last());
        lemma_sort_by_depth(l.drop_last());
        let e = l.last();
        let p = insert_pos(s, e.3);
        lemma_insert_pos(s, e.3);
        let t = s.insert(p, e);
        assert forall|i: int, j: int| 0 <= i < j < t.len() implies t[i].3 <= t[j].3 by {
            if j < p {
                assert(t[i] == s[i] && t[j] == s[j]);
            } else if j == p {
                assert(t[i] == s[i]);
            } else if i < p {
                assert(t[i] == s[i] && t[j] == s[j - 1]);
            } else if i == p {
                assert(t[j] == s[j - 1]);
            } else {
                assert(t[i] == s[i - 1] && t[j] == s[j - 1]);
            }
        }
    }
}

} // verus!
