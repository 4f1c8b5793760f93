//! A most-significant-bit-first reader over a byte buffer that holds a whole
//! MPEG stream: bit reads, byte alignment, start-code scans and VLC decoding.

use vstd::prelude::*;
use vstd::arithmetic::power2::{lemma_pow2_unfold, lemma2_to64, pow2};

verus! {

/// Bit `i` of the stream, counted from the most significant bit of the
/// first byte.
pub open spec fn bit_at(bytes: Seq<u8>, i: int) -> u32 {
    ((bytes[i / 8] as u32) >> ((7 - i % 8) as u32)) & 1u32
}

/// The `count` bits from bit `start` on, read most significant first.
pub open spec fn bits_value(bytes: Seq<u8>, start: int, count: nat) -> nat
    decreases count,
{
    if count == 0 {
        0
    } else {
        (bits_value(bytes, start, (count - 1) as nat) * 2 + bit_at(bytes, start + count - 1)) as nat
    }
}

/// Whether `count` more bits follow bit position `pos` in a stream of `len`
/// bytes.
pub open spec fn has_bits(len: nat, pos: nat, count: nat) -> bool {
    (if pos <= len * 8 { len * 8 - pos } else { 0 }) >= count
}

/// `pos` rounded up to a byte boundary.
pub open spec fn align_up(pos: nat) -> nat {
    if pos % 8 == 0 {
        pos
    } else {
        (pos - pos % 8 + 8) as nat
    }
}

/// The byte at which reading resumes after aligning position `pos`.
pub open spec fn aligned_byte(pos: nat) -> int {
    (align_up(pos) / 8) as int
}

/// The number of bytes equal to `v` from byte `a` on.
pub open spec fn run_len(bytes: Seq<u8>, a: int, v: u8) -> nat
    decreases bytes.len() - a,
{
    if 0 <= a < bytes.len() && bytes[a] == v {
        1 + run_len(bytes, a + 1, v)
    } else {
        0
    }
}

/// A start-code prefix `00 00 01` at byte `p`, followed by its code byte.
pub open spec fn start_code_at(bytes: Seq<u8>, p: int) -> bool {
    &&& 0 <= p
    &&& p + 4 <= bytes.len()
    &&& bytes[p] == 0
    &&& bytes[p + 1] == 0
    &&& bytes[p + 2] == 1
}

/// The first start code from byte `p` on: its code and the byte after it,
/// or -1 and the byte where the scan stopped.
pub open spec fn next_code(bytes: Seq<u8>, p: int) -> (int, int)
    decreases bytes.len() - p,
{
    if p < 0 || p + 4 > bytes.len() {
        (-1, p)
    } else if start_code_at(bytes, p) {
        (bytes[p + 3] as int, p + 4)
    } else {
        next_code(bytes, p + 1)
    }
}

/// A found start code lies after the scan's start, before the end.
pub proof fn lemma_next_code_bounds(bytes: Seq<u8>, p: int)
    requires
        0 <= p,
    ensures
        next_code(bytes, p).0 != -1 ==> p + 4 <= next_code(bytes, p).1 <= bytes.len(),
        next_code(bytes, p).0 != -1 ==> 0 <= next_code(bytes, p).0 < 256,
        next_code(bytes, p).0 == -1 ==> next_code(bytes, p).1 >= p,
    decreases bytes.len() - p,
{
    if p + 4 <= bytes.len() && !start_code_at(bytes, p) {
        lemma_next_code_bounds(bytes, p + 1);
    }
}

/// The first start code from byte `p` on that is `code` or the end: the
/// code found (or -1) and the byte after it.
pub open spec fn find_code(bytes: Seq<u8>, p: int, code: int) -> (int, int)
    decreases bytes.len() - p,
{
    if p < 0 {
        (-1, p)
    } else {
        let (c, q) = next_code(bytes, p);
        if c == code || c == -1 {
            (c, q)
        } else {
            proof {
                lemma_next_code_bounds(bytes, p);
            }
            find_code(bytes, q, code)
        }
    }
}

/// A VLC table whose every link leads forward to a node with both of its
/// entries in the table, so that a decode ends.
pub open spec fn vlc_table_ok<V>(table: Seq<(i16, V)>) -> bool {
    &&& table.len() >= 2
    &&& forall|i: int|
        0 <= i < table.len() && (#[trigger] table[i]).0 > 0 ==> i < table[i].0 && table[i].0 + 1
            < table.len()
}

/// The bit read at `pos`, and the position after it: a read past the end
/// gives 0 and does not move.
pub open spec fn next_bit(bytes: Seq<u8>, pos: nat) -> (u32, nat) {
    if has_bits(bytes.len(), pos, 1) {
        (bit_at(bytes, pos as int), pos + 1)
    } else {
        (0, pos)
    }
}

/// Decoding with a VLC table from node `index`: the value reached and the
/// position after the bits read.
pub open spec fn vlc_decode<V>(table: Seq<(i16, V)>, bytes: Seq<u8>, pos: nat, index: int) -> (
    V,
    nat,
)
    decreases table.len() - index,
{
    let (bit, p1) = next_bit(bytes, pos);
    let e = table[index + bit];
    if e.0 > 0 && 0 <= index < e.0 < table.len() {
        vlc_decode(table, bytes, p1, e.0 as int)
    } else {
        (e.1, p1)
    }
}

/// The value reached from node `index` by following 0 bits.
pub open spec fn vlc_zero_path<V>(table: Seq<(i16, V)>, index: int) -> V
    decreases table.len() - index,
{
    let e = table[index];
    if e.0 > 0 && 0 <= index < e.0 < table.len() {
        vlc_zero_path(table, e.0 as int)
    } else {
        e.1
    }
}

/// A VLC decode never moves back, moves on when a bit is left, and with
/// no bit left ends where following 0 bits ends.
pub proof fn lemma_vlc_progress<V>(table: Seq<(i16, V)>, bytes: Seq<u8>, pos: nat, index: int)
    ensures
        vlc_decode(table, bytes, pos, index).1 >= pos + (if has_bits(bytes.len(), pos, 1) {
            1int
        } else {
            0
        }),
        !has_bits(bytes.len(), pos, 1) ==> vlc_decode(table, bytes, pos, index) == (
            vlc_zero_path(table, index),
            pos,
        ),
    decreases table.len() - index,
{
    let (bit, p1) = next_bit(bytes, pos);
    let e = table[index + bit];
    if e.0 > 0 && 0 <= index < e.0 < table.len() {
        lemma_vlc_progress(table, bytes, p1, e.0 as int);
    }
}

/// A decoded value is one of the table's values, so it lies within any
/// bounds that all of them do.
pub proof fn lemma_vlc_value_bounds(
    table: Seq<(i16, i16)>,
    bytes: Seq<u8>,
    pos: nat,
    index: int,
    lo: int,
    hi: int,
)
    requires
        vlc_table_ok(table),
        0 <= index,
        index + 1 < table.len(),
        forall|k: int| 0 <= k < table.len() ==> lo <= #[trigger] table[k].1 <= hi,
    ensures
        lo <= vlc_decode(table, bytes, pos, index).0 <= hi,
    decreases table.len() - index,
{
    let (bit, p1) = next_bit(bytes, pos);
    if has_bits(bytes.len(), pos, 1) {
        lemma_bit((bytes[pos as int / 8] as u32) >> ((7 - pos as int % 8) as u32));
    }
    assert(bit <= 1);
    let e = table[index + bit];
    assert(lo <= e.1 <= hi);
    if e.0 > 0 && 0 <= index < e.0 < table.len() {
        lemma_vlc_value_bounds(table, bytes, p1, e.0 as int, lo, hi);
    }
}

/// A scan for a start code never ends before where it began, and finds
/// that code or none.
pub proof fn lemma_find_code_progress(bytes: Seq<u8>, p: int, code: int)
    requires
        0 <= p,
    ensures
        find_code(bytes, p, code).1 >= p,
        find_code(bytes, p, code).0 == code || find_code(bytes, p, code).0 == -1,
    decreases bytes.len() - p,
{
    lemma_next_code_bounds(bytes, p);
    let (c, q) = next_code(bytes, p);
    if c != code && c != -1 {
        lemma_find_code_progress(bytes, q, code);
    }
}

/// The `count` bits at `pos`, or 0 when fewer remain.
pub open spec fn bits_or_zero(bytes: Seq<u8>, pos: nat, count: nat) -> nat {
    if has_bits(bytes.len(), pos, count) {
        bits_value(bytes, pos as int, count)
    } else {
        0
    }
}

/// The read position after reading `count` bits at `pos`: moved on when
/// that many remain.
pub open spec fn bits_after(len: nat, pos: nat, count: nat) -> nat {
    if has_bits(len, pos, count) {
        pos + count
    } else {
        pos
    }
}

/// An MPEG audio frame sync at byte `i`: `0xFF`, then three more sync bits
/// and the codes of MPEG-1 Layer II.
pub open spec fn frame_sync_at(bytes: Seq<u8>, i: int) -> bool {
    &&& bytes[i] == 0xFF
    &&& bytes[i + 1] & 0xFEu8 == 0xFCu8
}

/// The first byte from `i` on where a frame sync begins.
pub open spec fn find_sync(bytes: Seq<u8>, i: int) -> Option<int>
    decreases bytes.len() - i,
{
    if i < 0 || i + 1 >= bytes.len() {
        None
    } else if frame_sync_at(bytes, i) {
        Some(i)
    } else {
        find_sync(bytes, i + 1)
    }
}

/// Reading `a` bits and then `b` bits gives the same number as reading
/// `a + b` bits at once.
pub proof fn lemma_bits_split(bytes: Seq<u8>, start: int, a: nat, b: nat)
    ensures
        bits_value(bytes, start, a + b) == bits_value(bytes, start, a) * pow2(b) + bits_value(
            bytes,
            start + a,
            b,
        ),
    decreases b,
{
    if b == 0 {
        assert(pow2(0) == 1) by {
            lemma2_to64();
        }
    } else {
        lemma_bits_split(bytes, start, a, (b - 1) as nat);
        lemma_pow2_unfold(b);
        assert(bits_value(bytes, start, a + b) == bits_value(bytes, start, (a + b - 1) as nat) * 2
            + bit_at(bytes, start + a + b - 1));
        assert(bits_value(bytes, start + a, b) == bits_value(bytes, start + a, (b - 1) as nat) * 2
            + bit_at(bytes, start + a + b - 1));
        let x = bits_value(bytes, start, a);
        let p = pow2((b - 1) as nat);
        assert(x * (2 * p) == (x * p) * 2) by (nonlinear_arith);
    }
}

/// A bit is 0 or 1.
proof fn lemma_bit(x: u32)
    ensures
        x & 1u32 <= 1u32,
{
    assert(x & 1u32 <= 1u32) by (bit_vector);
}

/// `count` bits make a number below `2^count`.
pub proof fn lemma_bits_bound(bytes: Seq<u8>, start: int, count: nat)
    ensures
        bits_value(bytes, start, count) < pow2(count),
    decreases count,
{
    if count == 0 {
        lemma2_to64();
    } else {
        lemma_bits_bound(bytes, start, (count - 1) as nat);
        lemma_pow2_unfold(count);
        let i = start + count - 1;
        lemma_bit((bytes[i / 8] as u32) >> ((7 - i % 8) as u32));
    }
}

/// Rounding up to a byte boundary twice is rounding up once.
pub proof fn lemma_align_idempotent(pos: nat)
    ensures
        align_up(align_up(pos)) == align_up(pos),
        align_up(pos) % 8 == 0,
        pos <= align_up(pos) < pos + 8,
{
}

/// A bit reader over an owned byte buffer.
pub struct Buffer {
    bytes: Vec<u8>,
    bit_index: usize,
}

impl View for Buffer {
    /// The bytes, and the read position in bits.
    type V = (Seq<u8>, nat);

    closed spec fn view(&self) -> (Seq<u8>, nat) {
        (self.bytes@, self.bit_index as nat)
    }
}

impl Buffer {
    /// Positions fit in `usize` with room to round up, and a position past
    /// the end lies on a byte boundary.
    pub open spec fn wf(&self) -> bool {
        &&& self@.0.len() * 8 + 7 <= usize::MAX
        &&& self@.1 + 7 <= usize::MAX
        &&& (self@.1 % 8 == 0 || self@.1 <= self@.0.len() * 8)
    }

    pub fn new(bytes: Vec<u8>) -> (r: Self)
        requires
            bytes@.len() * 8 + 7 <= usize::MAX,
        ensures
            r@ == (bytes@, 0nat),
            r.wf(),
    {
        Buffer { bytes, bit_index: 0 }
    }

    /// Whether at least `count` more bits are available.
    pub fn has(&self, count: usize) -> (r: bool)
        requires
            self.wf(),
        ensures
            r == has_bits(self@.0.len(), self@.1, count as nat),
    {
        let len_bits = self.bytes.len() * 8;
        if len_bits >= self.bit_index {
            len_bits - self.bit_index >= count
        } else {
            count == 0
        }
    }

    /// Whether all bits have been read.
    pub fn has_ended(&self) -> (r: bool)
        requires
            self.wf(),
        ensures
            r == (self@.1 >= self@.0.len() * 8),
    {
        self.bit_index >= self.bytes.len() * 8
    }

    /// Reads `count` bits most significant first as an unsigned number; 0,
    /// without moving, when fewer remain.
    pub fn read(&mut self, count: usize) -> (r: u32)
        requires
            old(self).wf(),
            count <= 32,
        ensures
            final(self).wf(),
            final(self)@.0 == old(self)@.0,
            has_bits(old(self)@.0.len(), old(self)@.1, count as nat) ==> r == bits_value(
                old(self)@.0,
                old(self)@.1 as int,
                count as nat,
            ) && final(self)@.1 == old(self)@.1 + count,
            !has_bits(old(self)@.0.len(), old(self)@.1, count as nat) ==> r == 0 && final(self)@
                == old(self)@,
    {
        if !self.has(count) {
            return 0;
        }
        if count == 0 {
            return 0;
        }
        let start: usize = self.bit_index;
        let ghost bytes = self.bytes@;
        let mut value: u32 = 0;
        let mut k: usize = 0;
        while k < count
            invariant
                self.bytes@ == bytes,
                self.bytes@.len() * 8 + 7 <= usize::MAX,
                k <= count <= 32,
                start + count <= self.bytes@.len() * 8,
                self.bit_index == start + k,
                value == bits_value(self.bytes@, start as int, k as nat),
            decreases count - k,
        {
            let p = self.bit_index;
            let bit = ((self.bytes[p / 8] as u32) >> ((7 - p % 8) as u32)) & 1;
            proof {
                lemma_bit((self.bytes@[p as int / 8] as u32) >> ((7 - p as int % 8) as u32));
                lemma_bits_bound(self.bytes@, start as int, k as nat);
                lemma2_to64();
                if k < 31 {
                    vstd::arithmetic::power2::lemma_pow2_strictly_increases(k as nat, 31);
                }
            }
            value = value * 2 + bit;
            self.bit_index = p + 1;
            k = k + 1;
        }
        value
    }

    /// Moves the read position up to the next byte boundary.
    pub fn align(&mut self)
        requires
            old(self).wf(),
        ensures
            final(self).wf(),
            final(self)@ == (old(self)@.0, align_up(old(self)@.1)),
    {
        let rem = self.bit_index % 8;
        if rem != 0 {
            self.bit_index = self.bit_index - rem + 8;
        }
    }

    /// Skips `count` bits if that many remain.
    pub fn skip(&mut self, count: usize)
        requires
            old(self).wf(),
        ensures
            final(self).wf(),
            final(self)@.0 == old(self)@.0,
            final(self)@.1 == if has_bits(old(self)@.0.len(), old(self)@.1, count as nat) {
                old(self)@.1 + count
            } else {
                old(self)@.1 as int
            },
    {
        if self.has(count) {
            self.bit_index = self.bit_index + count;
        }
    }

    /// Aligns, then skips the bytes equal to `v`; returns how many it
    /// skipped.
    pub fn skip_bytes(&mut self, v: u8) -> (r: usize)
        requires
            old(self).wf(),
        ensures
            final(self).wf(),
            final(self)@.0 == old(self)@.0,
            r == run_len(old(self)@.0, aligned_byte(old(self)@.1), v),
            final(self)@.1 == align_up(old(self)@.1) + r * 8,
    {
        self.align();
        let ghost a = self.bit_index as int / 8;
        let ghost bytes = self.bytes@;
        let mut skipped: usize = 0;
        while self.has(8) && self.bytes[self.bit_index / 8] == v
            invariant
                self.wf(),
                self.bytes@ == bytes,
                self.bit_index % 8 == 0,
                self.bit_index == (a + skipped) * 8,
                run_len(self.bytes@, a, v) == skipped + run_len(self.bytes@, a + skipped, v),
                skipped <= self.bytes@.len(),
            decreases usize::MAX - self.bit_index,
        {
            self.bit_index = self.bit_index + 8;
            skipped = skipped + 1;
        }
        skipped
    }

    /// Aligns, then scans for the next `00 00 01 xx` start code; consumes
    /// the four marker bytes and returns `xx`, or -1 when there is none.
    pub fn next_start_code(&mut self) -> (r: i32)
        requires
            old(self).wf(),
        ensures
            final(self).wf(),
            final(self)@.0 == old(self)@.0,
            r == next_code(old(self)@.0, aligned_byte(old(self)@.1)).0,
            final(self)@.1 == next_code(old(self)@.0, aligned_byte(old(self)@.1)).1 * 8,
    {
        self.align();
        let ghost a = self.bit_index as int / 8;
        proof {
            lemma_next_code_bounds(self.bytes@, a);
        }
        let ghost bytes = self.bytes@;
        while self.has(32)
            invariant
                self.wf(),
                self.bytes@ == bytes,
                bytes == old(self)@.0,
                a == aligned_byte(old(self)@.1),
                self.bit_index % 8 == 0,
                next_code(self.bytes@, self.bit_index as int / 8) == next_code(self.bytes@, a),
            decreases usize::MAX - self.bit_index,
        {
            let byte_index = self.bit_index / 8;
            if self.bytes[byte_index] == 0 && self.bytes[byte_index + 1] == 0 && self.bytes[byte_index
                + 2] == 1 {
                self.bit_index = (byte_index + 4) * 8;
                return self.bytes[byte_index + 3] as i32;
            }
            self.bit_index = self.bit_index + 8;
        }
        -1
    }

    /// Scans for the start code `code`, stopping at the end of the stream;
    /// returns `code`, or -1.
    pub fn find_start_code(&mut self, code: i32) -> (r: i32)
        requires
            old(self).wf(),
        ensures
            final(self).wf(),
            final(self)@.0 == old(self)@.0,
            r == find_code(old(self)@.0, aligned_byte(old(self)@.1), code as int).0,
            final(self)@.1 == find_code(old(self)@.0, aligned_byte(old(self)@.1), code as int).1
                * 8,
    {
        let ghost target = find_code(self.bytes@, aligned_byte(self.bit_index as nat), code as int);
        let ghost bytes = self.bytes@;
        loop
            invariant
                self.wf(),
                self.bytes@ == bytes,
                bytes == old(self)@.0,
                target == find_code(old(self)@.0, aligned_byte(old(self)@.1), code as int),
                find_code(self.bytes@, aligned_byte(self.bit_index as nat), code as int) == target,
            decreases self.bytes@.len() * 8 + 8 - self.bit_index,
        {
            let ghost p = aligned_byte(self.bit_index as nat);
            proof {
                lemma_next_code_bounds(self.bytes@, p);
            }
            let current = self.next_start_code();
            if current == code || current == -1 {
                return current;
            }
        }
    }

    /// Whether the start code `code` comes up ahead: returns `code` or -1,
    /// and leaves the read position where it was.
    pub fn has_start_code(&mut self, code: i32) -> (r: i32)
        requires
            old(self).wf(),
        ensures
            final(self)@ == old(self)@,
            r == find_code(old(self)@.0, aligned_byte(old(self)@.1), code as int).0,
    {
        let previous = self.bit_index;
        let current = self.find_start_code(code);
        self.bit_index = previous;
        current
    }

    /// The read position in whole bytes.
    pub fn tell(&self) -> (r: usize)
        ensures
            r == self@.1 / 8,
    {
        self.bit_index / 8
    }

    /// Moves the read position to byte `byte_pos`.
    pub fn seek(&mut self, byte_pos: usize)
        requires
            old(self).wf(),
            byte_pos * 8 + 7 <= usize::MAX,
        ensures
            final(self).wf(),
            final(self)@ == (old(self)@.0, (byte_pos * 8) as nat),
    {
        self.bit_index = byte_pos * 8;
    }

    /// The `count` bytes from the read position's byte on, without moving;
    /// `None` when they run past the end.
    pub fn peek_bytes(&self, count: usize) -> (r: Option<&[u8]>)
        requires
            self@.1 / 8 + count <= usize::MAX,
        ensures
            match r {
                Some(s) => self@.1 / 8 + count <= self@.0.len() && s@ == self@.0.subrange(
                    (self@.1 / 8) as int,
                    self@.1 / 8 + count,
                ),
                None => self@.1 / 8 + count > self@.0.len(),
            },
    {
        let start = self.bit_index / 8;
        if start + count <= self.bytes.len() {
            Some(vstd::slice::slice_subrange(self.bytes.as_slice(), start, start + count))
        } else {
            None
        }
    }

    /// Decodes a value with a binary VLC table: each entry is `(index,
    /// value)`; a positive `index` leads to the node `index + bit`, and an
    /// index of 0 or less ends with `value`.
    pub fn read_vlc(&mut self, table: &[(i16, i16)]) -> (r: i16)
        requires
            old(self).wf(),
            vlc_table_ok(table@),
        ensures
            final(self).wf(),
            final(self)@.0 == old(self)@.0,
            (r, final(self)@.1) == vlc_decode(table@, old(self)@.0, old(self)@.1, 0),
    {
        let mut index: i16 = 0;
        loop
            invariant
                self.wf(),
                vlc_table_ok(table@),
                0 <= index,
                index + 1 < table@.len(),
                vlc_decode(table@, self.bytes@, self.bit_index as nat, index as int) == vlc_decode(
                    table@,
                    old(self)@.0,
                    old(self)@.1,
                    0,
                ),
                self.bytes@ == old(self)@.0,
            decreases table@.len() - index,
        {
            let ghost p0 = self.bit_index;
            let bit = self.read(1);
            proof {
                reveal_with_fuel(bits_value, 2);
                lemma_bits_bound(self.bytes@, p0 as int, 1);
                lemma2_to64();
            }
            let entry = table[(index as usize) + (bit as usize)];
            if entry.0 <= 0 {
                return entry.1;
            }
            index = entry.0;
        }
    }

    /// Decodes a value with a binary VLC table of unsigned values.
    pub fn read_vlc_uint(&mut self, table: &[(i16, u16)]) -> (r: u16)
        requires
            old(self).wf(),
            vlc_table_ok(table@),
        ensures
            final(self).wf(),
            final(self)@.0 == old(self)@.0,
            (r, final(self)@.1) == vlc_decode(table@, old(self)@.0, old(self)@.1, 0),
    {
        let mut index: i16 = 0;
        loop
            invariant
                self.wf(),
                vlc_table_ok(table@),
                0 <= index,
                index + 1 < table@.len(),
                vlc_decode(table@, self.bytes@, self.bit_index as nat, index as int) == vlc_decode(
                    table@,
                    old(self)@.0,
                    old(self)@.1,
                    0,
                ),
                self.bytes@ == old(self)@.0,
            decreases table@.len() - index,
        {
            let ghost p0 = self.bit_index;
            let bit = self.read(1);
            proof {
                reveal_with_fuel(bits_value, 2);
                lemma_bits_bound(self.bytes@, p0 as int, 1);
                lemma2_to64();
            }
            let entry = table[(index as usize) + (bit as usize)];
            if entry.0 <= 0 {
                return entry.1;
            }
            index = entry.0;
        }
    }

    /// Scans from the read position's byte for an audio frame sync; when
    /// found, moves just past its eleven sync bits and returns true, else
    /// moves past the end and returns false.
    pub fn find_frame_sync(&mut self) -> (r: bool)
        requires
            old(self).wf(),
            old(self)@.0.len() * 8 + 15 <= usize::MAX,
        ensures
            final(self).wf(),
            final(self)@.0 == old(self)@.0,
            r == find_sync(old(self)@.0, (old(self)@.1 / 8) as int) is Some,
            r ==> final(self)@.1 == (find_sync(old(self)@.0, (old(self)@.1 / 8) as int)->0 + 1)
                * 8 + 3,
            !r ==> final(self)@.1 == (old(self)@.0.len() + 1) * 8,
    {
        let ghost start = (self.bit_index / 8) as int;
        let mut i: usize = self.bit_index / 8;
        while i + 1 < self.bytes.len()
            invariant
                self@ == old(self)@,
                self.wf(),
                self@.0.len() * 8 + 15 <= usize::MAX,
                start == (old(self)@.1 / 8) as int,
                i < usize::MAX,
                find_sync(self@.0, i as int) == find_sync(self@.0, start),
            decreases self@.0.len() - i,
        {
            if self.bytes[i] == 0xFF && (self.bytes[i + 1] & 0xFE) == 0xFC {
                self.bit_index = (i + 1) * 8 + 3;
                return true;
            }
            i = i + 1;
        }
        self.bit_index = (self.bytes.len() + 1) * 8;
        false
    }

    /// Whether the next `bit_count` bits hold a non-zero number; the read
    /// position does not move.
    pub fn peek_non_zero(&mut self, bit_count: usize) -> (r: bool)
        requires
            old(self).wf(),
            bit_count <= 32,
        ensures
            *final(self) == *old(self),
            r == (has_bits(old(self)@.0.len(), old(self)@.1, bit_count as nat) && bits_value(
                old(self)@.0,
                old(self)@.1 as int,
                bit_count as nat,
            ) != 0),
    {
        if !self.has(bit_count) || bit_count == 0 {
            return false;
        }
        self.bits_from(self.bit_index, bit_count) != 0
    }

    /// The `count` bits at bit `start`, as a number.
    fn bits_from(&self, start: usize, count: usize) -> (r: u32)
        requires
            self.wf(),
            count <= 32,
            start + count <= self.bytes@.len() * 8,
        ensures
            r == bits_value(self.bytes@, start as int, count as nat),
    {
        let mut value: u32 = 0;
        let mut k: usize = 0;
        while k < count
            invariant
                self.bytes@.len() * 8 + 7 <= usize::MAX,
                k <= count <= 32,
                start + count <= self.bytes@.len() * 8,
                value == bits_value(self.bytes@, start as int, k as nat),
            decreases count - k,
        {
            let p = start + k;
            let bit = ((self.bytes[p / 8] as u32) >> ((7 - p % 8) as u32)) & 1;
            proof {
                lemma_bit((self.bytes@[p as int / 8] as u32) >> ((7 - p as int % 8) as u32));
                lemma_bits_bound(self.bytes@, start as int, k as nat);
                lemma2_to64();
                if k < 31 {
                    vstd::arithmetic::power2::lemma_pow2_strictly_increases(k as nat, 31);
                }
            }
            value = value * 2 + bit;
            k = k + 1;
        }
        value
    }

    /// Nothing to discard: the whole stream stays in memory.
    pub fn discard_read_bytes(&mut self)
        ensures
            final(self)@ == old(self)@,
    {
    }
}

} // verus!
