//! Reading Native32 game files: skipping the thumbnail, locating and
//! decrypting the header, and parsing the resource tables (frames, movies,
//! images, actions, sounds, button events).
//!
//! All table offsets in the header are relative to `base`, which lies 0x60
//! bytes after the colorspace marker. Resources are numbered from 1.

use vstd::prelude::*;
use std::collections::HashMap;

use crate::actions::{action_of_code, Action};
use crate::error::EmuError;
use crate::header_decryptor::{decrypt_header, first_magic_decryption, lemma_first_magic_len};
use crate::image_decoder::{
    decode_argb_spec, decode_image_argb, decode_image_yuv, decode_yuv_spec, le16, le32,
    opt_image_view, RgbaImage,
};
use crate::text::push_char;

verus! {

broadcast use vstd::std_specs::hash::group_hash_axioms;

/// Kind of an object placed on a frame.
#[derive(Debug, Clone, Copy, PartialEq, Eq, Structural)]
pub enum ObjectType {
    Image,
    Movie,
    Button,
    Action,
    Sound,
}

/// The object kind a type code names, if any.
pub open spec fn object_type_of(val: u16) -> Option<ObjectType> {
    if val == 1 {
        Some(ObjectType::Image)
    } else if val == 2 {
        Some(ObjectType::Movie)
    } else if val == 3 {
        Some(ObjectType::Button)
    } else if val == 4 {
        Some(ObjectType::Action)
    } else if val == 5 {
        Some(ObjectType::Sound)
    } else {
        None
    }
}

impl ObjectType {
    pub fn from_u16(val: u16) -> (r: Option<Self>)
        ensures
            r == object_type_of(val),
    {
        match val {
            1 => Some(ObjectType::Image),
            2 => Some(ObjectType::Movie),
            3 => Some(ObjectType::Button),
            4 => Some(ObjectType::Action),
            5 => Some(ObjectType::Sound),
            _ => None,
        }
    }
}

/// An object placed on a frame of the main timeline.
#[derive(Debug)]
pub struct FrameObject {
    pub obj_type: ObjectType,
    pub index: u16,
    pub x: i16,
    pub y: i16,
    pub depth: u16,
    pub name: Option<String>,
}

/// A frame object with its name as characters.
pub type FrameObjectView = (ObjectType, u16, i16, i16, u16, Option<Seq<char>>);

/// The characters of an optional string.
pub open spec fn opt_chars(o: Option<String>) -> Option<Seq<char>> {
    match o {
        Some(s) => Some(s@),
        None => None,
    }
}

impl View for FrameObject {
    type V = FrameObjectView;

    open spec fn view(&self) -> FrameObjectView {
        (self.obj_type, self.index, self.x, self.y, self.depth, opt_chars(self.name))
    }
}

impl Clone for FrameObject {
    fn clone(&self) -> (r: Self)
        ensures
            r == *self,
    {
        let name = match &self.name {
            Some(s) => Some(s.clone()),
            None => None,
        };
        FrameObject {
            obj_type: self.obj_type,
            index: self.index,
            x: self.x,
            y: self.y,
            depth: self.depth,
            name,
        }
    }
}

/// One frame of a movie clip.
#[derive(Debug, Clone, Copy, PartialEq, Eq)]
pub struct MovieFrame {
    pub image: u16,
    pub x: i16,
    pub y: i16,
    pub action: u16,
    pub sound: u16,
    pub reserved: u16,
}

/// How a sound resource is encoded.
#[derive(Debug, Clone, Copy, PartialEq, Eq, Structural)]
pub enum AudioFormat {
    MP3,
    Raw,
}

/// A sound resource: MP3 data, or raw 16-bit little-endian PCM.
#[derive(Debug)]
pub struct SoundData {
    pub format: AudioFormat,
    pub data: Vec<u8>,
}

impl View for SoundData {
    type V = (AudioFormat, Seq<u8>);

    open spec fn view(&self) -> (AudioFormat, Seq<u8>) {
        (self.format, self.data@)
    }
}

impl Clone for SoundData {
    fn clone(&self) -> (r: Self)
        ensures
            r@ == self@,
    {
        SoundData { format: self.format, data: copy_bytes(&self.data) }
    }
}

/// Pixel encoding of a game's images.
#[derive(Debug, Clone, Copy, PartialEq, Eq, Structural)]
pub enum Colorspace {
    YUV,
    ARGB,
}

/// The operand of an action instruction.
#[derive(Debug)]
pub enum ActionPayload {
    String(String),
    Integer(i16),
}

impl Clone for ActionPayload {
    fn clone(&self) -> (r: Self)
        ensures
            r == *self,
    {
        match self {
            ActionPayload::String(s) => ActionPayload::String(s.clone()),
            ActionPayload::Integer(n) => ActionPayload::Integer(*n),
        }
    }
}

/// An action payload with a string operand as characters.
pub enum PayloadView {
    Str(Seq<char>),
    Int(i16),
}

pub open spec fn payload_view(p: ActionPayload) -> PayloadView {
    match p {
        ActionPayload::String(s) => PayloadView::Str(s@),
        ActionPayload::Integer(n) => PayloadView::Int(n),
    }
}

/// A decoded instruction: opcode and optional operand.
pub type Instruction = (Action, Option<ActionPayload>);

pub type InstructionView = (Action, Option<PayloadView>);

pub open spec fn instruction_view(i: Instruction) -> InstructionView {
    (
        i.0,
        match i.1 {
            Some(p) => Some(payload_view(p)),
            None => None,
        },
    )
}

pub open spec fn opt_instruction_view(o: Option<Instruction>) -> Option<InstructionView> {
    match o {
        Some(i) => Some(instruction_view(i)),
        None => None,
    }
}

fn clone_instruction(i: &Option<Instruction>) -> (r: Option<Instruction>)
    ensures
        r == *i,
{
    match i {
        Some((a, p)) => Some(
            (
                *a,
                match p {
                    Some(p) => Some(p.clone()),
                    None => None,
                },
            ),
        ),
        None => None,
    }
}

fn copy_bytes(v: &Vec<u8>) -> (r: Vec<u8>)
    ensures
        r@ == v@,
{
    let mut out: Vec<u8> = Vec::new();
    let mut i: usize = 0;
    while i < v.len()
        invariant
            i <= v@.len(),
            out@ == v@.subrange(0, i as int),
        decreases v@.len() - i,
    {
        out.push(v[i]);
        i = i + 1;
        assert(out@ =~= v@.subrange(0, i as int));
    }
    assert(v@.subrange(0, v@.len() as int) =~= v@);
    out
}

// ---------------------------------------------------------------------------
// Little-endian reads and C strings
// ---------------------------------------------------------------------------

/// The little-endian signed 16-bit value stored at `off`.
pub open spec fn le16_signed(d: Seq<u8>, off: int) -> int {
    if le16(d, off) >= 32768 {
        le16(d, off) - 65536
    } else {
        le16(d, off)
    }
}

fn read_u16_le(data: &[u8], offset: usize) -> (r: u16)
    requires
        offset + 2 <= data@.len(),
    ensures
        r == le16(data@, offset as int),
{
    data[offset] as u16 + (data[offset + 1] as u16) * 256
}

pub fn read_i16_le(data: &[u8], offset: usize) -> (r: i16)
    requires
        offset + 2 <= data@.len(),
    ensures
        r == le16_signed(data@, offset as int),
{
    let v = read_u16_le(data, offset);
    if v < 32768 {
        v as i16
    } else {
        ((v - 32768) as i16) - 32767 - 1
    }
}

fn read_u32_le(data: &[u8], offset: usize) -> (r: u32)
    requires
        offset + 4 <= data@.len(),
    ensures
        r == le32(data@, offset as int),
{
    data[offset] as u32 + (data[offset + 1] as u32) * 256 + (data[offset + 2] as u32) * 65536 + (
    data[offset + 3] as u32) * 16777216
}

/// The NUL-terminated string at `off`, each byte taken as the character
/// with that code; it ends at the first zero byte or at the end of the data.
pub open spec fn cstring(d: Seq<u8>, off: int) -> Seq<char>
    decreases d.len() - off,
{
    if off < 0 || off >= d.len() || d[off] == 0 {
        Seq::empty()
    } else {
        seq![(d[off] as char)] + cstring(d, off + 1)
    }
}

/// Whether the four bytes at `off` are `m0 m1 m2 m3`.
pub open spec fn magic_at(d: Seq<u8>, off: int, m0: u8, m1: u8, m2: u8, m3: u8) -> bool {
    off + 4 <= d.len() && d[off] == m0 && d[off + 1] == m1 && d[off + 2] == m2 && d[off + 3] == m3
}

fn has_magic(d: &[u8], off: usize, m0: u8, m1: u8, m2: u8, m3: u8) -> (r: bool)
    ensures
        r == magic_at(d@, off as int, m0, m1, m2, m3),
{
    off <= d.len() && d.len() - off >= 4 && d[off] == m0 && d[off + 1] == m1 && d[off + 2] == m2
        && d[off + 3] == m3
}

// ---------------------------------------------------------------------------
// The generator string
// ---------------------------------------------------------------------------

/// Index one past the last non-zero byte of `s`.
pub open spec fn trimmed_len(s: Seq<u8>, n: int) -> int
    decreases n,
{
    if n <= 0 {
        0
    } else if s[n - 1] == 0 {
        trimmed_len(s, n - 1)
    } else {
        n
    }
}

/// Whether `c` is an ASCII digit.
pub open spec fn is_digit(c: u8) -> bool {
    48 <= c <= 57
}

/// The value of the decimal digits `s[from..to]`.
pub open spec fn digits_value(s: Seq<u8>, from: int, to: int) -> int
    decreases to - from,
{
    if to <= from {
        0
    } else {
        digits_value(s, from, to - 1) * 10 + (s[to - 1] - 48)
    }
}

/// How `str::parse::<u32>` reads `s[from..to]`: an optional `+`, then at
/// least one decimal digit and nothing else, with a value that fits.
pub open spec fn parse_u32_spec(s: Seq<u8>, from: int, to: int) -> Option<u32> {
    let start = if from < to && s[from] == 43 { from + 1 } else { from };
    if start >= to {
        None
    } else if exists|k: int| start <= k < to && !is_digit(#[trigger] s[k]) {
        None
    } else if digits_value(s, start, to) > u32::MAX {
        None
    } else {
        Some(digits_value(s, start, to) as u32)
    }
}

/// The first index in `from..to` holding an underscore, or `to`.
pub open spec fn next_underscore(s: Seq<u8>, from: int, to: int) -> int
    decreases to - from,
{
    if from >= to {
        to
    } else if s[from] == 95 {
        from
    } else {
        next_underscore(s, from + 1, to)
    }
}

/// The bytes `Resolution_`.
pub open spec fn resolution_prefix() -> Seq<u8> {
    seq![82u8, 101, 115, 111, 108, 117, 116, 105, 111, 110, 95]
}

/// Width and height from a generator string of the form
/// `Resolution_<width>_<height>[_...]` (after trailing NUL bytes are
/// dropped); `None` when it does not have that form.
pub open spec fn parse_resolution_spec(s: Seq<u8>) -> Option<(u32, u32)> {
    let n = trimmed_len(s, s.len() as int);
    let p = resolution_prefix();
    if n < 11 || s.subrange(0, 11) != p {
        None
    } else {
        let u1 = next_underscore(s, 11, n);
        if u1 >= n {
            None
        } else {
            let u2 = next_underscore(s, u1 + 1, n);
            match (parse_u32_spec(s, 11, u1), parse_u32_spec(s, u1 + 1, u2)) {
                (Some(w), Some(h)) => Some((w, h)),
                _ => None,
            }
        }
    }
}

fn find_underscore(s: &[u8], from: usize, to: usize) -> (r: usize)
    requires
        from <= to <= s@.len(),
    ensures
        r == next_underscore(s@, from as int, to as int),
        from <= r <= to,
    decreases to - from,
{
    if from >= to {
        to
    } else if s[from] == 95 {
        from
    } else {
        find_underscore(s, from + 1, to)
    }
}

proof fn lemma_digits_value_step(s: Seq<u8>, from: int, to: int)
    requires
        from < to,
    ensures
        digits_value(s, from, to) == digits_value(s, from, to - 1) * 10 + (s[to - 1] - 48),
{
}

fn parse_u32(s: &[u8], from: usize, to: usize) -> (r: Option<u32>)
    requires
        from <= to <= s@.len(),
    ensures
        r == parse_u32_spec(s@, from as int, to as int),
{
    let start = if from < to && s[from] == 43 { from + 1 } else { from };
    if start >= to {
        return None;
    }
    let mut value: u64 = 0;
    let mut k = start;
    while k < to
        invariant
            start <= k <= to <= s@.len(),
            start < to,
            start == (if from < to && s@[from as int] == 43 { from + 1 } else { from as int }),
            value == digits_value(s@, start as int, k as int),
            value <= u32::MAX,
            forall|j: int| start <= j < k ==> is_digit(#[trigger] s@[j]),
        decreases to - k,
    {
        let c = s[k];
        if c < 48 || c > 57 {
            assert(!is_digit(s@[k as int]));
            return None;
        }
        value = value * 10 + (c - 48) as u64;
        k = k + 1;
        if value > 0xFFFF_FFFF {
            // Either a later non-digit makes the parse fail, or the final
            // value only grows: both give None.
            proof {
                lemma_digits_grow(s@, start as int, k as int, to as int);
            }
            return None;
        }
    }
    Some(value as u32)
}

/// Appending digits never makes a decimal value smaller.
proof fn lemma_digits_grow(s: Seq<u8>, start: int, k: int, to: int)
    requires
        start <= k <= to,
        forall|j: int| start <= j < k ==> is_digit(#[trigger] s[j]),
        digits_value(s, start, k) > u32::MAX,
    ensures
        (exists|j: int| start <= j < to && !is_digit(#[trigger] s[j])) || digits_value(s, start, to)
            > u32::MAX,
    decreases to - k,
{
    if k < to {
        if is_digit(s[k]) {
            assert forall|j: int| start <= j < k + 1 implies is_digit(#[trigger] s[j]) by {}
            lemma_digits_value_step(s, start, k + 1);
            lemma_digits_grow(s, start, k + 1, to);
        } else {
            assert(!is_digit(s[k]));
        }
    }
}

fn parse_resolution(gen: &[u8]) -> (r: Option<(u32, u32)>)
    ensures
        r == parse_resolution_spec(gen@),
{
    let mut n = gen.len();
    while n > 0 && gen[n - 1] == 0
        invariant
            n <= gen@.len(),
            trimmed_len(gen@, gen@.len() as int) == trimmed_len(gen@, n as int),
        decreases n,
    {
        n = n - 1;
    }
    if n < 11 || !(gen[0] == 82 && gen[1] == 101 && gen[2] == 115 && gen[3] == 111 && gen[4] == 108
        && gen[5] == 117 && gen[6] == 116 && gen[7] == 105 && gen[8] == 111 && gen[9] == 110
        && gen[10] == 95) {
        proof {
            if n >= 11 {
                let p = resolution_prefix();
                if gen@.subrange(0, 11) == p {
                    assert(gen@.subrange(0, 11)[0] == p[0]);
                    assert(gen@.subrange(0, 11)[1] == p[1]);
                    assert(gen@.subrange(0, 11)[2] == p[2]);
                    assert(gen@.subrange(0, 11)[3] == p[3]);
                    assert(gen@.subrange(0, 11)[4] == p[4]);
                    assert(gen@.subrange(0, 11)[5] == p[5]);
                    assert(gen@.subrange(0, 11)[6] == p[6]);
                    assert(gen@.subrange(0, 11)[7] == p[7]);
                    assert(gen@.subrange(0, 11)[8] == p[8]);
                    assert(gen@.subrange(0, 11)[9] == p[9]);
                    assert(gen@.subrange(0, 11)[10] == p[10]);
                }
            }
        }
        return None;
    }
    assert(gen@.subrange(0, 11) =~= resolution_prefix());
    let u1 = find_underscore(gen, 11, n);
    if u1 >= n {
        return None;
    }
    let u2 = find_underscore(gen, u1 + 1, n);
    match (parse_u32(gen, 11, u1), parse_u32(gen, u1 + 1, u2)) {
        (Some(w), Some(h)) => Some((w, h)),
        _ => None,
    }
}

// ---------------------------------------------------------------------------
// Resource tables
// ---------------------------------------------------------------------------

/// The name of a frame object: the string at `base + ptr`, or none for a null pointer.
pub open spec fn name_at(d: Seq<u8>, base: int, ptr: int) -> Option<Seq<char>> {
    if ptr != 0 {
        Some(cstring(d, base + ptr))
    } else {
        None
    }
}

/// The 16-byte object records from `i` on, up to the terminating type word
/// 0x0000 or 0xFFFF; records of an unknown type are skipped.
pub open spec fn frame_objects(d: Seq<u8>, base: int, i: int) -> Seq<FrameObjectView>
    decreases d.len() - i,
{
    if i + 16 > d.len() {
        Seq::empty()
    } else {
        let t = le16(d, i);
        if t == 0 || t == 0xFFFF {
            Seq::empty()
        } else {
            let rest = frame_objects(d, base, i + 16);
            match object_type_of(t as u16) {
                Some(ot) => seq![
                    (
                        ot,
                        le16(d, i + 2) as u16,
                        le16_signed(d, i + 4) as i16,
                        le16_signed(d, i + 6) as i16,
                        le16(d, i + 8) as u16,
                        name_at(d, base, le32(d, i + 12)),
                    ),
                ] + rest,
                None => rest,
            }
        }
    }
}

/// The objects of 1-based frame `frame`; `None` when its table entry lies
/// past the end of the file or points nowhere (zero or past the end).
pub open spec fn spec_frame(d: Seq<u8>, base: int, frame_idx: int, frame: int) -> Option<Seq<FrameObjectView>> {
    let ptr_idx = base + frame_idx + 4 * (frame - 1);
    if ptr_idx + 4 > d.len() {
        None
    } else {
        let off = le32(d, ptr_idx);
        if off == 0 || off > d.len() {
            None
        } else {
            Some(frame_objects(d, base, base + off))
        }
    }
}

/// The 12-byte movie-frame records from `pos` on, up to an image number of
/// 0x0000 or 0xFFFF or one not below the file size.
pub open spec fn movie_frames(d: Seq<u8>, pos: int) -> Seq<MovieFrame>
    decreases d.len() - pos,
{
    if pos + 12 > d.len() {
        Seq::empty()
    } else {
        let img = le16(d, pos);
        if img == 0xFFFF || img == 0 || img >= d.len() {
            Seq::empty()
        } else {
            seq![
                MovieFrame {
                    image: img as u16,
                    x: le16_signed(d, pos + 2) as i16,
                    y: le16_signed(d, pos + 4) as i16,
                    action: le16(d, pos + 6) as u16,
                    sound: le16(d, pos + 8) as u16,
                    reserved: le16(d, pos + 10) as u16,
                },
            ] + movie_frames(d, pos + 12)
        }
    }
}

/// The frames of 1-based movie `movie` (empty when its table entry lies past the end).
pub open spec fn spec_movie(d: Seq<u8>, base: int, movie_idx: int, movie: int) -> Seq<MovieFrame> {
    let idx_ptr = base + movie_idx + 4 * (movie - 1);
    if idx_ptr + 4 > d.len() {
        Seq::empty()
    } else {
        movie_frames(d, le32(d, idx_ptr) + base)
    }
}

/// The smaller of two integers.
pub open spec fn min_int(a: int, b: int) -> int {
    if a < b {
        a
    } else {
        b
    }
}

/// The decoded 1-based image `index`: `None` when the table entry is past
/// the end, marked absent (0xFFFFFFFF), its header is cut off, or it does
/// not decode. The block is cut at the end of the file.
pub open spec fn spec_image(d: Seq<u8>, base: int, image_idx: int, cs: Colorspace, index: int) -> Option<(u32, u32, Seq<u32>)> {
    let ptr = base + image_idx + 4 * (index - 1);
    if ptr + 4 > d.len() {
        None
    } else {
        let off = le32(d, ptr);
        if off == 0xFFFF_FFFF {
            None
        } else {
            let start = base + off;
            if start + 8 > d.len() {
                None
            } else {
                let end = min_int(start + 8 + le32(d, start + 4), d.len() as int);
                let block = d.subrange(start, end);
                match cs {
                    Colorspace::ARGB => decode_argb_spec(block),
                    Colorspace::YUV => decode_yuv_spec(block),
                }
            }
        }
    }
}

/// Big-endian 16-bit samples turned little-endian, each sample emitted twice
/// (a trailing odd byte is dropped).
pub open spec fn endian_swap_spec(data: Seq<u8>) -> Seq<u8> {
    let len = data.len() - data.len() % 2;
    Seq::new((2 * len) as nat, |i: int| data[2 * (i / 4) + 1 - i % 2])
}

/// The 1-based sound `idx`. The table entry's top nibble selects MP3
/// (0xF, data at `mp3_offset`, 6-byte header) or raw PCM (0x0, 4-byte
/// header; byte-swapped and doubled for YUV games); its low 28 bits are
/// the address. `None` for other nibbles or cut-off headers.
pub open spec fn spec_sound(
    d: Seq<u8>,
    base: int,
    mp3_offset: int,
    sound_table: int,
    cs: Colorspace,
    idx: int,
) -> Option<(AudioFormat, Seq<u8>)> {
    let table_idx = sound_table + (idx - 1) * 4;
    if table_idx + 4 > d.len() {
        None
    } else {
        let ptr = le32(d, table_idx);
        let addr = ptr % 0x1000_0000;
        if ptr >= 0xF000_0000 {
            let begin = base + mp3_offset + addr;
            if begin + 6 > d.len() {
                None
            } else {
                let ds = begin + 6;
                Some((AudioFormat::MP3, d.subrange(ds, min_int(ds + le32(d, begin), d.len() as int))))
            }
        } else if ptr < 0x1000_0000 {
            let begin = base + addr;
            if begin + 4 > d.len() {
                None
            } else {
                let ds = begin + 4;
                let raw = d.subrange(ds, min_int(ds + le32(d, begin), d.len() as int));
                if cs == Colorspace::YUV {
                    Some((AudioFormat::Raw, endian_swap_spec(raw)))
                } else {
                    Some((AudioFormat::Raw, raw))
                }
            }
        } else {
            None
        }
    }
}

/// The (keycode, event) pairs of a button's condition list from `pos` on;
/// `i` counts the action lengths consumed out of `total`.
pub open spec fn button_events(d: Seq<u8>, pos: int, i: int, total: int) -> Seq<(u16, u16)>
    decreases d.len() - pos,
{
    if !(i < total && pos + 6 <= d.len()) {
        Seq::empty()
    } else {
        seq![(le16(d, pos) as u16, le16(d, pos + 4) as u16)] + button_events(
            d,
            pos + 6,
            i + le16(d, pos + 2),
            total,
        )
    }
}

/// The events of 1-based button `button`.
pub open spec fn spec_button_events(d: Seq<u8>, base: int, button_cond_idx: int, button: int) -> Seq<(u16, u16)> {
    let cti = base + button_cond_idx + (button - 1) * 4;
    if cti + 4 > d.len() {
        Seq::empty()
    } else {
        let ptr = le32(d, cti) + base;
        if ptr + 2 > d.len() {
            Seq::empty()
        } else {
            button_events(d, ptr + 2, 0, le16(d, ptr))
        }
    }
}

/// Whether an opcode takes an integer operand (branch offsets and frame numbers).
pub open spec fn takes_integer(a: Action) -> bool {
    a == Action::If || a == Action::GotoFrame || a == Action::GotoFrame2 || a == Action::Jump
}

/// The 1-based instruction `index` of the action table: an 8-byte record of
/// opcode and operand pointer. `None` past the end of the file or for an
/// unknown opcode. The operand is absent for a null pointer, for `End`, or
/// when it points past the end; it is a signed 16-bit integer for branches
/// and frame jumps, a NUL-terminated string otherwise.
pub open spec fn disassemble(d: Seq<u8>, base: int, action_idx: int, index: int) -> Option<InstructionView> {
    let ptr = base + action_idx + (index - 1) * 8;
    if ptr + 8 > d.len() {
        None
    } else {
        match action_of_code(le32(d, ptr) as u32) {
            None => None,
            Some(act) => {
                let pv = le32(d, ptr + 4);
                if pv == 0 || act == Action::End {
                    Some((act, None))
                } else {
                    let pidx = base + pv;
                    if pidx >= d.len() {
                        Some((act, None))
                    } else if takes_integer(act) {
                        if pidx + 2 <= d.len() {
                            Some((act, Some(PayloadView::Int(le16_signed(d, pidx) as i16))))
                        } else {
                            Some((act, None))
                        }
                    } else {
                        Some((act, Some(PayloadView::Str(cstring(d, pidx)))))
                    }
                }
            }
        }
    }
}

/// The view of a list of frame objects.
pub open spec fn objects_view(v: Seq<FrameObject>) -> Seq<FrameObjectView> {
    v.map_values(|o: FrameObject| o@)
}

pub open spec fn opt_objects_view(o: Option<Vec<FrameObject>>) -> Option<Seq<FrameObjectView>> {
    match o {
        Some(v) => Some(objects_view(v@)),
        None => None,
    }
}

pub open spec fn opt_sound_view(o: Option<SoundData>) -> Option<(AudioFormat, Seq<u8>)> {
    match o {
        Some(s) => Some(s@),
        None => None,
    }
}

/// Offsets and lengths that any file can produce fit in a machine word.
pub open spec fn offsets_fit(len: int) -> bool {
    2 * len + 0x4_0000_0000 <= usize::MAX
}

/// Reader over a loaded game file, with lazily filled caches of parsed resources.
pub struct Native32Reader {
    pub data: Vec<u8>,
    pub idx: usize,
    pub colorspace: Colorspace,
    pub resolution: (u32, u32),
    pub base: usize,
    pub frame_idx: u32,
    pub image_idx: u32,
    pub action_idx: u32,
    pub movie_idx: u32,
    pub button_idx: u32,
    pub button_cond_idx: u32,
    pub mp3_offset: u32,
    pub sound_table: usize,
    /// Parsed resources, filled on first use.
    pub caches: ResourceCaches,
}

/// Lazily filled caches of parsed resources, keyed by 1-based resource number.
pub struct ResourceCaches {
    actions_cache: Vec<Option<Instruction>>,
    images_cache: HashMap<u32, Option<RgbaImage>>,
    frames_cache: HashMap<u32, Vec<FrameObject>>,
    movies_cache: HashMap<u32, Vec<MovieFrame>>,
    sound_cache: HashMap<u32, SoundData>,
    button_events_cache: HashMap<u32, Vec<(u16, u16)>>,
}

impl Native32Reader {
    /// The fields that determine what every resource parses to.
    pub open spec fn same_layout(self, other: Self) -> bool {
        &&& self.data@ == other.data@
        &&& self.idx == other.idx
        &&& self.colorspace == other.colorspace
        &&& self.resolution == other.resolution
        &&& self.base == other.base
        &&& self.frame_idx == other.frame_idx
        &&& self.image_idx == other.image_idx
        &&& self.action_idx == other.action_idx
        &&& self.movie_idx == other.movie_idx
        &&& self.button_idx == other.button_idx
        &&& self.button_cond_idx == other.button_cond_idx
        &&& self.mp3_offset == other.mp3_offset
        &&& self.sound_table == other.sound_table
    }

    pub open spec fn frame_of(self, frame: int) -> Option<Seq<FrameObjectView>> {
        spec_frame(self.data@, self.base as int, self.frame_idx as int, frame)
    }

    pub open spec fn movie_of(self, movie: int) -> Seq<MovieFrame> {
        spec_movie(self.data@, self.base as int, self.movie_idx as int, movie)
    }

    pub open spec fn image_of(self, index: int) -> Option<(u32, u32, Seq<u32>)> {
        spec_image(self.data@, self.base as int, self.image_idx as int, self.colorspace, index)
    }

    pub open spec fn sound_of(self, idx: int) -> Option<(AudioFormat, Seq<u8>)> {
        spec_sound(
            self.data@,
            self.base as int,
            self.mp3_offset as int,
            self.sound_table as int,
            self.colorspace,
            idx,
        )
    }

    pub open spec fn button_events_of(self, button: int) -> Seq<(u16, u16)> {
        spec_button_events(self.data@, self.base as int, self.button_cond_idx as int, button)
    }

    pub open spec fn instruction_of(self, index: int) -> Option<InstructionView> {
        disassemble(self.data@, self.base as int, self.action_idx as int, index)
    }

    /// Every cached resource is what its table entry parses to now.
    pub closed spec fn caches_agree(self) -> bool {
        &&& self.caches.actions_cache@.len() >= 1
        &&& self.caches.actions_cache@[0] is None
        &&& forall|k: int|
            1 <= k < self.caches.actions_cache@.len() ==> opt_instruction_view(
                #[trigger] self.caches.actions_cache@[k],
            ) == self.instruction_of(k)
        &&& forall|k: u32| #[trigger]
            self.caches.frames_cache@.contains_key(k) ==> Some(objects_view(self.caches.frames_cache@[k]@))
                == self.frame_of(k as int)
        &&& forall|k: u32| #[trigger]
            self.caches.movies_cache@.contains_key(k) ==> self.caches.movies_cache@[k]@ == self.movie_of(k as int)
        &&& forall|k: u32| #[trigger]
            self.caches.images_cache@.contains_key(k) ==> opt_image_view(self.caches.images_cache@[k])
                == self.image_of(k as int)
        &&& forall|k: u32| #[trigger]
            self.caches.sound_cache@.contains_key(k) ==> Some(self.caches.sound_cache@[k]@) == self.sound_of(
                k as int,
            )
        &&& forall|k: u32| #[trigger]
            self.caches.button_events_cache@.contains_key(k) ==> self.caches.button_events_cache@[k]@
                == self.button_events_of(k as int)
    }

    /// Number of instruction slots cached (slot 0 is unused).
    pub closed spec fn action_cache_len(self) -> nat {
        self.caches.actions_cache@.len()
    }

    /// The cached instruction slot `k`.
    pub closed spec fn cached_instruction(self, k: int) -> Option<Instruction> {
        self.caches.actions_cache@[k]
    }

    /// Keeping the layout keeps cached resources correct.
    pub proof fn lemma_cached_instruction(self, k: int)
        requires
            self.caches_agree(),
            1 <= k < self.action_cache_len(),
        ensures
            opt_instruction_view(self.cached_instruction(k)) == self.instruction_of(k),
    {
    }

    pub fn new(data: Vec<u8>) -> (r: Self)
        ensures
            r.data@ == data@,
            r.idx == 0,
            r.colorspace == Colorspace::YUV,
            r.resolution == (320u32, 240u32),
            r.base == 0,
            r.frame_idx == 0 && r.image_idx == 0 && r.action_idx == 0 && r.movie_idx == 0,
            r.button_idx == 0 && r.button_cond_idx == 0 && r.mp3_offset == 0 && r.sound_table == 0,
            r.caches_agree(),
            r.action_cache_len() == 1,
    {
        let mut actions_cache: Vec<Option<Instruction>> = Vec::new();
        actions_cache.push(None);
        let caches = ResourceCaches {
            actions_cache,
            images_cache: HashMap::new(),
            frames_cache: HashMap::new(),
            movies_cache: HashMap::new(),
            sound_cache: HashMap::new(),
            button_events_cache: HashMap::new(),
        };
        Self {
            data,
            idx: 0,
            colorspace: Colorspace::YUV,
            resolution: (320, 240),
            base: 0,
            frame_idx: 0,
            image_idx: 0,
            action_idx: 0,
            movie_idx: 0,
            button_idx: 0,
            button_cond_idx: 0,
            mp3_offset: 0,
            sound_table: 0,
            caches,
        }
    }

    fn get_str(&self, offset: usize) -> (r: String)
        ensures
            r@ == cstring(self.data@, offset as int),
    {
        let mut s = String::new();
        let mut pos = offset;
        while pos < self.data.len() && self.data[pos] != 0
            invariant
                offset <= pos,
                s@ + cstring(self.data@, pos as int) == cstring(self.data@, offset as int),
            decreases self.data@.len() - pos,
        {
            let ghost before = s@;
            push_char(&mut s, self.data[pos] as char);
            assert(cstring(self.data@, pos as int) == seq![(self.data@[pos as int] as char)]
                + cstring(self.data@, pos + 1));
            assert(s@ + cstring(self.data@, pos + 1) =~= before + cstring(self.data@, pos as int));
            pos = pos + 1;
        }
        assert(s@ + cstring(self.data@, pos as int) =~= s@);
        s
    }

    /// The read position after skipping an `SWFT` thumbnail at `idx`: its
    /// 16-byte header (size at offset 12) and pixel data; only the magic
    /// when the header is cut off.
    pub open spec fn after_thumbnail(d: Seq<u8>, idx: int) -> int {
        if magic_at(d, idx, 0x53, 0x57, 0x46, 0x54) {
            let i2 = idx + 4;
            if i2 + 0x10 <= d.len() {
                i2 + 0x10 + le32(d, i2 + 0x0c)
            } else {
                i2
            }
        } else {
            idx
        }
    }

    /// Skip the optional SWFT thumbnail at the beginning of the file.
    pub fn skip_thumbnail(&mut self)
        requires
            offsets_fit(old(self).data@.len() as int),
        ensures
            final(self).idx == Self::after_thumbnail(old(self).data@, old(self).idx as int),
            final(self).data@ == old(self).data@,
            final(self).colorspace == old(self).colorspace,
            final(self).caches == old(self).caches,
    {
        if has_magic(&self.data, self.idx, 0x53, 0x57, 0x46, 0x54) {
            self.idx = self.idx + 4;
            if self.data.len() - self.idx >= 0x10 {
                let size = read_u32_le(&self.data, self.idx + 0x0c) as usize;
                self.idx = self.idx + 0x10 + size;
            }
        }
    }

    /// The first position from `i` on holding a `_YUV` or `ARGB` marker,
    /// with the colorspace it names.
    pub open spec fn header_at(d: Seq<u8>, i: int) -> Option<(int, Colorspace)>
        decreases d.len() - i,
    {
        if i < 0 || i + 4 > d.len() {
            None
        } else if magic_at(d, i, 0x5F, 0x59, 0x55, 0x56) {
            Some((i, Colorspace::YUV))
        } else if magic_at(d, i, 0x41, 0x52, 0x47, 0x42) {
            Some((i, Colorspace::ARGB))
        } else {
            Self::header_at(d, i + 1)
        }
    }

    /// Scan for the `_YUV` or `ARGB` colorspace marker.
    pub fn find_header(&mut self) -> (r: Result<(), EmuError>)
        ensures
            final(self).data@ == old(self).data@,
            final(self).caches == old(self).caches,
            r is Ok ==> final(self).idx + 4 <= final(self).data@.len(),
            match Self::header_at(old(self).data@, old(self).idx as int) {
                Some((pos, cs)) => r is Ok && final(self).idx == pos && final(self).colorspace == cs,
                None => r matches Err(EmuError::HeaderNotFound) && final(self).colorspace
                    == old(self).colorspace && final(self).idx == (if old(self).idx + 4 <= old(
                    self,
                ).data@.len() {
                    old(self).data@.len() - 3
                } else {
                    old(self).idx as int
                }),
            },
    {
        let ghost i0 = self.idx;
        while self.idx <= self.data.len() && self.data.len() - self.idx >= 4
            invariant
                i0 <= self.idx,
                self.data@ == old(self).data@,
                self.caches == old(self).caches,
                self.colorspace == old(self).colorspace,
                i0 == old(self).idx,
                Self::header_at(self.data@, i0 as int) == Self::header_at(self.data@, self.idx as int),
                i0 + 4 <= self.data@.len() ==> self.idx + 3 <= self.data@.len(),
                i0 + 4 > self.data@.len() ==> self.idx == i0,
            decreases self.data@.len() - self.idx,
        {
            if has_magic(&self.data, self.idx, 0x5F, 0x59, 0x55, 0x56) {
                self.colorspace = Colorspace::YUV;
                return Ok(());
            } else if has_magic(&self.data, self.idx, 0x41, 0x52, 0x47, 0x42) {
                self.colorspace = Colorspace::ARGB;
                return Ok(());
            }
            self.idx = self.idx + 1;
        }
        Err(EmuError::HeaderNotFound)
    }

    /// The resolution after reading the generator string at `idx + 4`:
    /// a positive `Resolution_<w>_<h>` replaces `res`.
    pub open spec fn header_resolution(d: Seq<u8>, idx: int, res: (u32, u32)) -> (u32, u32) {
        let gs = idx + 4;
        if gs + 0x30 <= d.len() {
            match parse_resolution_spec(d.subrange(gs, gs + 0x30)) {
                Some((w, h)) => if w > 0 && h > 0 {
                    (w, h)
                } else {
                    res
                },
                None => res,
            }
        } else {
            res
        }
    }

    /// The resource-table fields read from a decrypted header `dec`, and the
    /// sound table found after the cursor image that follows the encrypted block.
    pub open spec fn tables_from(self, dec: Seq<u8>, cursor: int, old_sound_table: usize) -> bool {
        &&& self.frame_idx == le32(dec, 0x08)
        &&& self.image_idx == le32(dec, 0x0c)
        &&& self.action_idx == le32(dec, 0x10)
        &&& self.movie_idx == le32(dec, 0x14)
        &&& self.button_idx == le32(dec, 0x18)
        &&& self.button_cond_idx == le32(dec, 0x1c)
        &&& self.sound_table == if cursor + 4 <= self.data@.len() {
            cursor + 4 + 2 * le16(self.data@, cursor) * le16(self.data@, cursor + 2)
        } else {
            old_sound_table as int
        }
    }

    /// The resource-table fields are unchanged.
    pub open spec fn same_tables(self, other: Self) -> bool {
        &&& self.frame_idx == other.frame_idx
        &&& self.image_idx == other.image_idx
        &&& self.action_idx == other.action_idx
        &&& self.movie_idx == other.movie_idx
        &&& self.button_idx == other.button_idx
        &&& self.button_cond_idx == other.button_cond_idx
        &&& self.sound_table == other.sound_table
    }

    /// Parse the header: generator string, base offset, encrypted section,
    /// resource table offsets.
    pub fn process_header(&mut self) -> (r: Result<(), EmuError>)
        requires
            old(self).idx + 0x98 <= usize::MAX,
            offsets_fit(old(self).data@.len() as int),
        ensures
            final(self).data@ == old(self).data@,
            final(self).caches == old(self).caches,
            final(self).idx == old(self).idx,
            final(self).colorspace == old(self).colorspace,
            final(self).resolution == Self::header_resolution(
                old(self).data@,
                old(self).idx as int,
                old(self).resolution,
            ),
            final(self).base == old(self).idx + 0x60,
            ({
                let d = old(self).data@;
                let base = old(self).idx + 0x60;
                if base + 0x38 > d.len() {
                    &&& r matches Err(EmuError::InvalidFile(m)) && m@ == "Header extends beyond file"@
                    &&& final(self).same_tables(*old(self))
                    &&& final(self).mp3_offset == old(self).mp3_offset
                } else {
                    &&& final(self).mp3_offset == le32(d, base + 0x18)
                    &&& match first_magic_decryption(d.subrange(base + 0x18, base + 0x38), 0) {
                        None => r matches Err(EmuError::DecryptionFailed) && final(self).same_tables(
                            *old(self),
                        ),
                        Some(dec) => r is Ok && final(self).tables_from(
                            dec,
                            base + 0x38,
                            old(self).sound_table,
                        ),
                    }
                }
            }),
    {
        proof {
            reveal_strlit("Header extends beyond file");
        }
        let gen_start = self.idx + 0x04;
        if gen_start <= self.data.len() && self.data.len() - gen_start >= 0x30 {
            let gen_bytes = vstd::slice::slice_subrange(self.data.as_slice(), gen_start, gen_start + 0x30);
            if let Some((w, h)) = parse_resolution(gen_bytes) {
                if w > 0 && h > 0 {
                    self.resolution = (w, h);
                }
            }
        }
        self.base = self.idx + 0x60;
        if self.base > self.data.len() || self.data.len() - self.base < 0x38 {
            return Err(EmuError::InvalidFile(String::from_str("Header extends beyond file")));
        }
        self.mp3_offset = read_u32_le(&self.data, self.base + 0x18);
        let enc_start = self.base + 0x18;
        let encrypted = vstd::slice::slice_subrange(self.data.as_slice(), enc_start, enc_start + 0x20);
        let decrypted = match decrypt_header(encrypted) {
            Some(d) => d,
            None => {
                return Err(EmuError::DecryptionFailed);
            },
        };
        proof {
            lemma_first_magic_len(encrypted@, 0);
        }
        self.frame_idx = read_u32_le(&decrypted, 0x08);
        self.image_idx = read_u32_le(&decrypted, 0x0c);
        self.action_idx = read_u32_le(&decrypted, 0x10);
        self.movie_idx = read_u32_le(&decrypted, 0x14);
        self.button_idx = read_u32_le(&decrypted, 0x18);
        self.button_cond_idx = read_u32_le(&decrypted, 0x1c);
        let cursor_pos = enc_start + 0x20;
        if self.data.len() - cursor_pos >= 4 {
            let cursor_w = read_u16_le(&self.data, cursor_pos) as usize;
            let cursor_h = read_u16_le(&self.data, cursor_pos + 2) as usize;
            proof {
                assert(2 * cursor_w * cursor_h <= 2 * 65535 * 65535) by (nonlinear_arith)
                    requires
                        cursor_w <= 65535,
                        cursor_h <= 65535,
                ;
            }
            let cursor_size = 2 * cursor_w * cursor_h;
            self.sound_table = cursor_pos + 4 + cursor_size;
        }
        Ok(())
    }

    /// Initialize: skip thumbnail, find header, process header.
    pub fn init(&mut self) -> (r: Result<(), EmuError>)
        requires
            offsets_fit(old(self).data@.len() as int),
            old(self).idx <= old(self).data@.len(),
        ensures
            final(self).data@ == old(self).data@,
            final(self).caches == old(self).caches,
            ({
                let i1 = Self::after_thumbnail(old(self).data@, old(self).idx as int);
                match Self::header_at(old(self).data@, i1) {
                    None => r matches Err(EmuError::HeaderNotFound),
                    Some((pos, cs)) => final(self).idx == pos && final(self).colorspace == cs
                        && final(self).base == pos + 0x60 && (r is Ok <==> (pos + 0x98 <= old(
                        self,
                    ).data@.len() && first_magic_decryption(
                        old(self).data@.subrange(pos + 0x78, pos + 0x98),
                        0,
                    ) is Some)),
                }
            }),
    {
        self.skip_thumbnail();
        match self.find_header() {
            Ok(()) => {},
            Err(e) => {
                return Err(e);
            },
        }
        self.process_header()
    }

    /// Decodes the 1-based instruction `index` of the action table.
    fn disassemble_action(&self, index: u32) -> (r: Option<Instruction>)
        requires
            index >= 1,
        ensures
            opt_instruction_view(r) == self.instruction_of(index as int),
    {
        let len = self.data.len();
        let ptr: u128 = self.base as u128 + self.action_idx as u128 + 8 * (index - 1) as u128;
        if ptr + 8 > len as u128 {
            return None;
        }
        let ptr = ptr as usize;
        let opcode = read_u32_le(&self.data, ptr);
        let payload_val = read_u32_le(&self.data, ptr + 4);
        let act = match Action::from_u32(opcode) {
            Some(a) => a,
            None => {
                return None;
            },
        };
        if payload_val == 0 || act == Action::End {
            return Some((act, None));
        }
        let payload_idx: u128 = self.base as u128 + payload_val as u128;
        if payload_idx >= len as u128 {
            return Some((act, None));
        }
        let payload_idx = payload_idx as usize;
        if act == Action::If || act == Action::GotoFrame || act == Action::GotoFrame2 || act
            == Action::Jump {
            if len - payload_idx >= 2 {
                let val = read_i16_le(&self.data, payload_idx);
                Some((act, Some(ActionPayload::Integer(val))))
            } else {
                Some((act, None))
            }
        } else {
            let s = self.get_str(payload_idx);
            Some((act, Some(ActionPayload::String(s))))
        }
    }

    /// The instruction of 1-based number `index`, decoded once and cached;
    /// number 0 names no instruction.
    pub fn get_action(&mut self, index: u32) -> (r: Option<Instruction>)
        requires
            old(self).caches_agree(),
        ensures
            final(self).same_layout(*old(self)),
            final(self).caches_agree(),
            final(self).action_cache_len() >= old(self).action_cache_len(),
            final(self).action_cache_len() > index,
            opt_instruction_view(r) == if index == 0 {
                None
            } else {
                old(self).instruction_of(index as int)
            },
    {
        while index as usize >= self.caches.actions_cache.len()
            invariant
                self.same_layout(*old(self)),
                self.caches_agree(),
                self.action_cache_len() >= old(self).action_cache_len(),
            decreases index as int + 1 - self.caches.actions_cache@.len(),
        {
            let i = self.caches.actions_cache.len() as u32;
            let action = self.disassemble_action(i);
            self.caches.actions_cache.push(action);
        }
        clone_instruction(&self.caches.actions_cache[index as usize])
    }

    /// The cached instruction of 1-based number `index`, if it has been
    /// decoded and exists.
    pub fn get_action_cached(&self, index: u32) -> (r: Option<&Instruction>)
        requires
            self.caches_agree(),
        ensures
            match r {
                Some(i) => 1 <= index < self.action_cache_len() && self.instruction_of(index as int)
                    == Some(instruction_view(*i)),
                None => index >= self.action_cache_len() || index == 0 || self.instruction_of(
                    index as int,
                ) is None,
            },
    {
        if (index as usize) < self.caches.actions_cache.len() {
            match &self.caches.actions_cache[index as usize] {
                Some(i) => Some(i),
                None => None,
            }
        } else {
            None
        }
    }

    /// Whether instructions 1 to `k` all exist.
    pub open spec fn instructions_upto(self, k: int) -> bool {
        forall|j: int| 1 <= j <= k ==> (#[trigger] self.instruction_of(j)) is Some
    }

    /// Decodes and caches the instructions from number 1 on, up to the
    /// first number that names none.
    pub fn cache_all_actions(&mut self)
        requires
            old(self).caches_agree(),
            old(self).data@.len() <= 0x7_ffff_fff0,
        ensures
            final(self).same_layout(*old(self)),
            final(self).caches_agree(),
            final(self).action_cache_len() >= old(self).action_cache_len(),
            forall|k: int|
                1 <= k && #[trigger] final(self).instructions_upto(k) ==> k < final(self).action_cache_len(),
    {
        let ghost d = self.data@;
        let ghost b = self.base as int;
        let ghost a = self.action_idx as int;
        let mut i: u32 = 1;
        loop
            invariant
                self.same_layout(*old(self)),
                self.caches_agree(),
                self.action_cache_len() >= old(self).action_cache_len(),
                self.data@.len() <= 0x7_ffff_fff0,
                self.data@ == d,
                self.base == b,
                self.action_idx == a,
                1 <= i,
                i <= self.action_cache_len(),
                forall|j: int| 1 <= j <= i - 1 ==> (#[trigger] disassemble(d, b, a, j)) is Some,
            ensures
                self.same_layout(*old(self)),
                self.caches_agree(),
                self.action_cache_len() >= old(self).action_cache_len(),
                exists|m: int|
                    1 <= m <= self.action_cache_len() && #[trigger] self.instruction_of(m) is None,
            decreases 0x1_0000_0000 - i,
        {
            let first = self.disassemble_action(i);
            if first.is_none() {
                proof {
                    assert(self.instruction_of(i as int) is None);
                }
                break;
            }
            proof {
                assert(self.instruction_of(i as int) is Some);
                assert(disassemble(d, b, a, i as int) is Some);
                let ptr = self.base + self.action_idx + (i - 1) * 8;
                assert(ptr + 8 <= self.data@.len());
            }
            i = i + 1;
            while (i as usize) >= self.caches.actions_cache.len()
                invariant
                    self.same_layout(*old(self)),
                    self.caches_agree(),
                    self.action_cache_len() >= old(self).action_cache_len(),
                    self.data@ == d,
                    self.base == b,
                    self.action_idx == a,
                    2 <= i,
                decreases i as int + 1 - self.caches.actions_cache@.len(),
            {
                let idx = self.caches.actions_cache.len() as u32;
                let action = self.disassemble_action(idx);
                self.caches.actions_cache.push(action);
            }
            let n = self.caches.actions_cache.len();
            if self.caches.actions_cache[n - 1].is_none() {
                proof {
                    assert(self.instruction_of(n - 1) is None);
                }
                break;
            }
        }
        proof {
            let m = choose|m: int|
                1 <= m <= self.action_cache_len() && #[trigger] self.instruction_of(m) is None;
            assert forall|k: int| 1 <= k && #[trigger] self.instructions_upto(k) implies k
                < self.action_cache_len() by {
                if k >= self.action_cache_len() {
                    assert(self.instruction_of(m) is Some);
                }
            }
        }
    }

    /// Parse a movie's frame list by 1-based movie index.
    pub fn get_movie(&mut self, movie: u32) -> (r: Vec<MovieFrame>)
        requires
            movie >= 1,
        ensures
            final(self).same_layout(*old(self)),
            old(self).caches_agree() ==> final(self).caches_agree() && r@ == old(self).movie_of(
                movie as int,
            ),
    {
        if let Some(cached) = self.caches.movies_cache.get(&movie) {
            return copy_movie_frames(cached);
        }
        let len = self.data.len();
        let idx_ptr: u128 = self.base as u128 + self.movie_idx as u128 + 4 * (movie - 1) as u128;
        if idx_ptr + 4 > len as u128 {
            return Vec::new();
        }
        let ptr: u128 = read_u32_le(&self.data, idx_ptr as usize) as u128 + self.base as u128;
        let mut frames: Vec<MovieFrame> = Vec::new();
        let mut pos: u128 = ptr;
        while pos + 0x0C <= len as u128
            invariant
                len == self.data@.len(),
                pos >= ptr,
                pos == ptr || pos <= len,
                ptr <= 0x1_0000_0000_0000_0000_0000,
                frames@ + movie_frames(self.data@, pos as int) == movie_frames(self.data@, ptr as int),
            ensures
                frames@ == movie_frames(self.data@, ptr as int),
            decreases len - pos,
        {
            let p = pos as usize;
            let img = read_u16_le(&self.data, p);
            if img == 0xFFFF || img == 0x0000 || img as usize >= len {
                assert(movie_frames(self.data@, pos as int) =~= Seq::empty());
                assert(frames@ =~= frames@ + movie_frames(self.data@, pos as int));
                break;
            }
            let f = MovieFrame {
                image: img,
                x: read_i16_le(&self.data, p + 2),
                y: read_i16_le(&self.data, p + 4),
                action: read_u16_le(&self.data, p + 6),
                sound: read_u16_le(&self.data, p + 8),
                reserved: read_u16_le(&self.data, p + 10),
            };
            let ghost before = frames@;
            frames.push(f);
            assert(frames@ + movie_frames(self.data@, pos + 12) =~= before + movie_frames(
                self.data@,
                pos as int,
            ));
            pos = pos + 0x0C;
        }
        let result = copy_movie_frames(&frames);
        self.caches.movies_cache.insert(movie, frames);
        result
    }

    /// Parse a frame's object list by 1-based frame index.
    pub fn get_frame(&mut self, frame: u32) -> (r: Option<Vec<FrameObject>>)
        requires
            frame >= 1,
        ensures
            final(self).same_layout(*old(self)),
            old(self).caches_agree() ==> final(self).caches_agree() && opt_objects_view(r)
                == old(self).frame_of(frame as int),
    {
        if let Some(cached) = self.caches.frames_cache.get(&frame) {
            return Some(copy_objects(cached));
        }
        let len = self.data.len();
        let ptr_idx: u128 = self.base as u128 + self.frame_idx as u128 + 4 * (frame - 1) as u128;
        if ptr_idx + 4 > len as u128 {
            return None;
        }
        let offset = read_u32_le(&self.data, ptr_idx as usize);
        if offset == 0 || offset as u128 > len as u128 {
            return None;
        }
        let start: u128 = self.base as u128 + offset as u128;
        let mut objects: Vec<FrameObject> = Vec::new();
        let mut i: u128 = start;
        while i + 0x10 <= len as u128
            invariant
                len == self.data@.len(),
                i >= start,
                i == start || i <= len,
                start <= 0x1_0000_0000_0000_0000_0000,
                objects_view(objects@) + frame_objects(self.data@, self.base as int, i as int)
                    == frame_objects(self.data@, self.base as int, start as int),
            ensures
                objects_view(objects@) == frame_objects(self.data@, self.base as int, start as int),
            decreases len - i,
        {
            let p = i as usize;
            let obj_type = read_u16_le(&self.data, p);
            if obj_type == 0x0000 || obj_type == 0xFFFF {
                assert(frame_objects(self.data@, self.base as int, i as int) =~= Seq::empty());
                assert(objects_view(objects@) =~= objects_view(objects@) + frame_objects(
                    self.data@,
                    self.base as int,
                    i as int,
                ));
                break;
            }
            let index = read_u16_le(&self.data, p + 2);
            let x = read_i16_le(&self.data, p + 4);
            let y = read_i16_le(&self.data, p + 6);
            let depth = read_u16_le(&self.data, p + 8);
            let name_ptr = read_u32_le(&self.data, p + 12);
            let name = if name_ptr != 0 {
                let at: u128 = self.base as u128 + name_ptr as u128;
                if at < len as u128 {
                    Some(self.get_str(at as usize))
                } else {
                    Some(String::new())
                }
            } else {
                None
            };
            let ghost before = objects@;
            if let Some(ot) = ObjectType::from_u16(obj_type) {
                objects.push(FrameObject { obj_type: ot, index, x, y, depth, name });
                assert(objects_view(objects@) =~= objects_view(before).push(
                    objects@[objects@.len() - 1]@,
                ));
            }
            assert(objects_view(objects@) + frame_objects(self.data@, self.base as int, i + 16)
                =~= objects_view(before) + frame_objects(self.data@, self.base as int, i as int));
            i = i + 0x10;
        }
        let result = copy_objects(&objects);
        self.caches.frames_cache.insert(frame, objects);
        Some(result)
    }

    /// Get decoded image by 1-based index (with lazy caching).
    pub fn get_image(&mut self, index: u32) -> (r: Option<RgbaImage>)
        requires
            index >= 1,
        ensures
            final(self).same_layout(*old(self)),
            old(self).caches_agree() ==> final(self).caches_agree() && opt_image_view(r) == old(
                self,
            ).image_of(index as int),
    {
        if let Some(cached) = self.caches.images_cache.get(&index) {
            return match cached {
                Some(img) => Some(img.clone()),
                None => None,
            };
        }
        let len = self.data.len();
        let ptr: u128 = self.base as u128 + self.image_idx as u128 + 4 * (index - 1) as u128;
        if ptr + 4 > len as u128 {
            self.caches.images_cache.insert(index, None);
            return None;
        }
        let img_offset = read_u32_le(&self.data, ptr as usize);
        if img_offset == 0xFFFFFFFF {
            self.caches.images_cache.insert(index, None);
            return None;
        }
        let img_start: u128 = self.base as u128 + img_offset as u128;
        if img_start + 8 > len as u128 {
            self.caches.images_cache.insert(index, None);
            return None;
        }
        let img_size = read_u32_le(&self.data, img_start as usize + 4);
        let img_end: u128 = if img_start + 8 + (img_size as u128) < len as u128 {
            img_start + 8 + img_size as u128
        } else {
            len as u128
        };
        let img_data = vstd::slice::slice_subrange(self.data.as_slice(), img_start as usize, img_end as usize);
        let result = match self.colorspace {
            Colorspace::ARGB => decode_image_argb(img_data),
            Colorspace::YUV => decode_image_yuv(img_data),
        };
        let stored = match &result {
            Some(img) => Some(img.clone()),
            None => None,
        };
        self.caches.images_cache.insert(index, stored);
        result
    }

    /// Get sound data by 1-based index.
    pub fn get_sound(&mut self, idx: u32) -> (r: Option<SoundData>)
        requires
            idx >= 1,
            offsets_fit(old(self).data@.len() as int),
        ensures
            final(self).same_layout(*old(self)),
            old(self).caches_agree() ==> final(self).caches_agree() && opt_sound_view(r) == old(
                self,
            ).sound_of(idx as int),
    {
        if let Some(cached) = self.caches.sound_cache.get(&idx) {
            return Some(cached.clone());
        }
        let len = self.data.len();
        let table_idx: u128 = self.sound_table as u128 + (idx - 1) as u128 * 4;
        if table_idx + 4 > len as u128 {
            return None;
        }
        let ptr = read_u32_le(&self.data, table_idx as usize);
        let addr = (ptr % 0x1000_0000) as u128;
        let result = if ptr >= 0xF000_0000 {
            let begin: u128 = self.base as u128 + self.mp3_offset as u128 + addr;
            if begin + 6 > len as u128 {
                return None;
            }
            let size = read_u32_le(&self.data, begin as usize) as u128;
            let data_start = begin + 6;
            let data_end = if data_start + size < len as u128 {
                data_start + size
            } else {
                len as u128
            };
            let bytes = vstd::slice::slice_subrange(self.data.as_slice(), data_start as usize, data_end as usize);
            SoundData { format: AudioFormat::MP3, data: vstd::slice::slice_to_vec(bytes) }
        } else if ptr < 0x1000_0000 {
            let begin: u128 = self.base as u128 + addr;
            if begin + 4 > len as u128 {
                return None;
            }
            let size = read_u32_le(&self.data, begin as usize) as u128;
            let data_start = begin + 4;
            let data_end = if data_start + size < len as u128 {
                data_start + size
            } else {
                len as u128
            };
            let raw_data = vstd::slice::slice_subrange(self.data.as_slice(), data_start as usize, data_end as usize);
            if self.colorspace == Colorspace::YUV {
                SoundData { format: AudioFormat::Raw, data: endian_swap_resample(raw_data) }
            } else {
                SoundData { format: AudioFormat::Raw, data: vstd::slice::slice_to_vec(raw_data) }
            }
        } else {
            return None;
        };
        self.caches.sound_cache.insert(idx, result.clone());
        Some(result)
    }

    /// Get button events by 1-based button index.
    pub fn get_button_events(&mut self, button: u32) -> (r: Vec<(u16, u16)>)
        requires
            button >= 1,
        ensures
            final(self).same_layout(*old(self)),
            old(self).caches_agree() ==> final(self).caches_agree() && r@ == old(
                self,
            ).button_events_of(button as int),
    {
        if let Some(cached) = self.caches.button_events_cache.get(&button) {
            return copy_events(cached);
        }
        let len = self.data.len();
        let cond_table_idx: u128 = self.base as u128 + self.button_cond_idx as u128 + (button - 1) as u128 * 4;
        if cond_table_idx + 4 > len as u128 {
            return Vec::new();
        }
        let ptr: u128 = read_u32_le(&self.data, cond_table_idx as usize) as u128 + self.base as u128;
        if ptr + 2 > len as u128 {
            return Vec::new();
        }
        let total_act_len = read_u16_le(&self.data, ptr as usize) as u64;
        let mut pos: u128 = ptr + 2;
        let mut i: u64 = 0;
        let mut events: Vec<(u16, u16)> = Vec::new();
        while i < total_act_len && pos + 6 <= len as u128
            invariant
                len == self.data@.len(),
                ptr + 2 <= len,
                ptr + 2 <= pos <= len + 6,
                total_act_len == le16(self.data@, ptr as int),
                i <= total_act_len + 65535,
                events@ + button_events(self.data@, pos as int, i as int, total_act_len as int)
                    == button_events(self.data@, ptr + 2, 0, total_act_len as int),
            decreases len - pos,
        {
            let p = pos as usize;
            let keycode = read_u16_le(&self.data, p);
            let act_len = read_u16_le(&self.data, p + 2);
            let event = read_u16_le(&self.data, p + 4);
            let ghost before = events@;
            events.push((keycode, event));
            assert(events@ + button_events(self.data@, pos + 6, i + act_len, total_act_len as int)
                =~= before + button_events(self.data@, pos as int, i as int, total_act_len as int));
            i = i + act_len as u64;
            pos = pos + 6;
        }
        assert(events@ =~= button_events(self.data@, ptr + 2, 0, total_act_len as int));
        let result = copy_events(&events);
        self.caches.button_events_cache.insert(button, events);
        result
    }
}

fn copy_events(v: &Vec<(u16, u16)>) -> (r: Vec<(u16, u16)>)
    ensures
        r@ == v@,
{
    let mut out: Vec<(u16, u16)> = Vec::new();
    let mut i: usize = 0;
    while i < v.len()
        invariant
            i <= v@.len(),
            out@ == v@.subrange(0, i as int),
        decreases v@.len() - i,
    {
        out.push(v[i]);
        i = i + 1;
        assert(out@ =~= v@.subrange(0, i as int));
    }
    assert(v@.subrange(0, v@.len() as int) =~= v@);
    out
}

fn copy_objects(v: &Vec<FrameObject>) -> (r: Vec<FrameObject>)
    ensures
        objects_view(r@) == objects_view(v@),
{
    let mut out: Vec<FrameObject> = Vec::new();
    let mut i: usize = 0;
    while i < v.len()
        invariant
            i <= v@.len(),
            objects_view(out@) == objects_view(v@.subrange(0, i as int)),
        decreases v@.len() - i,
    {
        let c = v[i].clone();
        assert(c == v@[i as int]);
        let ghost before = out@;
        out.push(c);
        assert(out@ == before.push(c));
        assert(objects_view(out@) =~= objects_view(before).push(c@));
        assert(v@.subrange(0, i + 1) =~= v@.subrange(0, i as int).push(v@[i as int]));
        i = i + 1;
        assert(objects_view(out@) =~= objects_view(v@.subrange(0, i as int)));
    }
    assert(v@.subrange(0, v@.len() as int) =~= v@);
    out
}

/// Byte-swap big-endian 16-bit samples and emit each sample twice.
pub fn endian_swap_resample(data: &[u8]) -> (r: Vec<u8>)
    requires
        2 * data@.len() <= usize::MAX,
    ensures
        r@ == endian_swap_spec(data@),
{
    let len = data.len() - data.len() % 2;
    let mut result: Vec<u8> = Vec::new();
    let mut i: usize = 0;
    while i < 2 * len
        invariant
            len == data@.len() - data@.len() % 2,
            len <= data@.len(),
            2 * data@.len() <= usize::MAX,
            i <= 2 * len,
            result@ == endian_swap_spec(data@).subrange(0, i as int),
        decreases 2 * len - i,
    {
        result.push(data[2 * (i / 4) + 1 - i % 2]);
        i = i + 1;
        assert(result@ =~= endian_swap_spec(data@).subrange(0, i as int));
    }
    assert(result@ =~= endian_swap_spec(data@));
    result
}

fn copy_movie_frames(v: &Vec<MovieFrame>) -> (r: Vec<MovieFrame>)
    ensures
        r@ == v@,
{
    let mut out: Vec<MovieFrame> = Vec::new();
    let mut i: usize = 0;
    while i < v.len()
        invariant
            i <= v@.len(),
            out@ == v@.subrange(0, i as int),
        decreases v@.len() - i,
    {
        out.push(v[i]);
        i = i + 1;
        assert(out@ =~= v@.subrange(0, i as int));
    }
    assert(v@.subrange(0, v@.len() as int) =~= v@);
    out
}


/// Raw sound of YUV games: each big-endian 16-bit sample of `data` comes
/// out little-endian, twice, with the same value: bytes `4k`, `4k + 1`
/// read low byte first give the sample that bytes `2k`, `2k + 1` of `data`
/// give high byte first, and bytes `4k + 2`, `4k + 3` repeat them; a
/// trailing odd byte is dropped.
pub proof fn lemma_endian_swap_samples(data: Seq<u8>, k: int)
    requires
        0 <= k < data.len() / 2,
    ensures
        endian_swap_spec(data).len() == 4 * (data.len() / 2),
        endian_swap_spec(data)[4 * k] as int + endian_swap_spec(data)[4 * k + 1] as int * 256
            == data[2 * k] as int * 256 + data[2 * k + 1] as int,
        endian_swap_spec(data)[4 * k + 2] == endian_swap_spec(data)[4 * k],
        endian_swap_spec(data)[4 * k + 3] == endian_swap_spec(data)[4 * k + 1],
{
    let out = endian_swap_spec(data);
    assert(data.len() - data.len() % 2 == 2 * (data.len() / 2));
    assert((4 * k) / 4 == k && (4 * k) % 2 == 0);
    assert((4 * k + 1) / 4 == k && (4 * k + 1) % 2 == 1);
    assert((4 * k + 2) / 4 == k && (4 * k + 2) % 2 == 0);
    assert((4 * k + 3) / 4 == k && (4 * k + 3) % 2 == 1);
    assert(out[4 * k] == data[2 * k + 1]);
    assert(out[4 * k + 1] == data[2 * k]);
}

} // verus!
