//! MPEG-1 program stream demultiplexing: the pack and system headers, then
//! the PES packets of the video, audio and private streams, read one at a
//! time from a stream held in memory.
//!
//! Timestamps are kept in ticks of the 90 kHz system clock; a packet without
//! one carries `INVALID_TS`.

use vstd::prelude::*;
use vstd::arithmetic::power2::lemma2_to64;

use crate::mpeg::buffer::{
    align_up, aligned_byte, bits_value, find_code, has_bits, lemma_bits_bound,
    lemma_next_code_bounds, next_code, run_len, Buffer,
};

verus! {

/// Start code of a pack header.
pub const START_PACK: i32 = 0xBA;
/// Start code of a system header.
pub const START_SYSTEM: i32 = 0xBB;
/// Stream ids of the packets the demultiplexer hands out.
pub const PACKET_PRIVATE: i32 = 0xBD;
pub const PACKET_AUDIO_1: i32 = 0xC0;
pub const PACKET_AUDIO_4: i32 = 0xC3;
pub const PACKET_VIDEO_1: i32 = 0xE0;
/// The timestamp of a packet that carries none.
pub const INVALID_TS: i64 = -1;
/// Timestamp ticks per second.
pub const TS_PER_SECOND: i64 = 90000;

/// A PES packet: its stream id, its presentation timestamp in ticks (or
/// `INVALID_TS`) and its payload.
pub struct Packet {
    pub ty: i32,
    pub pts: i64,
    pub data: Vec<u8>,
}

/// The elementary streams taken out of a program stream: the payloads of
/// the first video and of the first audio stream, and the stream counts the
/// system header announces.
pub struct DemuxedStreams {
    pub video: Vec<u8>,
    pub audio: Vec<u8>,
    pub num_video_streams: i32,
    pub num_audio_streams: i32,
}

/// The demultiplexer as plain values: the stream, the read position in
/// bits, and what has been parsed so far.
pub struct DemuxState {
    pub bytes: Seq<u8>,
    pub pos: nat,
    /// A start code already found and not yet handled, or -1.
    pub start_code: int,
    pub has_pack_header: bool,
    pub has_system_header: bool,
    pub has_headers: bool,
    pub num_audio_streams: int,
    pub num_video_streams: int,
    /// The payload length of the packet last handed out, skipped before the
    /// next one is read.
    pub current_length: nat,
    pub next_type: int,
    pub next_length: nat,
    pub next_pts: int,
}

/// A packet as plain values: stream id, timestamp, payload.
pub type PacketView = (int, int, Seq<u8>);

/// `n` bits at `pos`: their value and the position after them; a read past
/// the end gives 0 and stays put.
pub open spec fn read_at(bytes: Seq<u8>, pos: nat, n: nat) -> (int, nat) {
    if has_bits(bytes.len(), pos, n) {
        (bits_value(bytes, pos as int, n) as int, pos + n)
    } else {
        (0, pos)
    }
}

/// The position after skipping `n` bits at `pos`, if that many remain.
pub open spec fn skip_at(bytes: Seq<u8>, pos: nat, n: nat) -> nat {
    if has_bits(bytes.len(), pos, n) {
        pos + n
    } else {
        pos
    }
}

/// A 33-bit timestamp at `pos`, written as 3, 15 and 15 bits each followed
/// by a marker bit: its value and the position after it.
pub open spec fn time_at(bytes: Seq<u8>, pos: nat) -> (int, nat) {
    let (hi, p1) = read_at(bytes, pos, 3);
    let p2 = skip_at(bytes, p1, 1);
    let (mid, p3) = read_at(bytes, p2, 15);
    let p4 = skip_at(bytes, p3, 1);
    let (lo, p5) = read_at(bytes, p4, 15);
    (hi * 0x4000_0000 + mid * 0x8000 + lo, skip_at(bytes, p5, 1))
}

/// A fresh demultiplexer over `bytes`.
pub open spec fn initial_state(bytes: Seq<u8>) -> DemuxState {
    DemuxState {
        bytes,
        pos: 0,
        start_code: -1,
        has_pack_header: false,
        has_system_header: false,
        has_headers: false,
        num_audio_streams: 0,
        num_video_streams: 0,
        current_length: 0,
        next_type: -1,
        next_length: 0,
        next_pts: INVALID_TS as int,
    }
}

/// Moves to the start code `code` unless it was already found: whether it
/// was, and the state after the search.
pub open spec fn seek_header(s: DemuxState, code: int) -> (bool, DemuxState) {
    if s.start_code != code {
        let (c, q) = find_code(s.bytes, aligned_byte(s.pos), code);
        (c != -1, DemuxState { pos: (q * 8) as nat, ..s })
    } else {
        (true, s)
    }
}

/// Reading the pack header: 64 bits that begin with `0010`; the clock
/// reference and mux rate in it are not kept.
pub open spec fn pack_step(s: DemuxState) -> (DemuxState, bool) {
    let (found, s1) = seek_header(s, START_PACK as int);
    if !found {
        (s1, false)
    } else if !has_bits(s.bytes.len(), s1.pos, 64) {
        (DemuxState { start_code: START_PACK as int, ..s1 }, false)
    } else if bits_value(s.bytes, s1.pos as int, 4) != 2 {
        (DemuxState { start_code: -1, pos: s1.pos + 4, ..s1 }, false)
    } else {
        (DemuxState { start_code: -1, pos: s1.pos + 64, has_pack_header: true, ..s1 }, true)
    }
}

/// Reading the system header: 56 bits, with the audio stream count in the
/// 6 bits from bit 40 and the video stream count in the 5 bits from bit 51.
pub open spec fn system_step(s: DemuxState) -> (DemuxState, bool) {
    let (found, s1) = seek_header(s, START_SYSTEM as int);
    if !found {
        (s1, false)
    } else if !has_bits(s.bytes.len(), s1.pos, 56) {
        (DemuxState { start_code: START_SYSTEM as int, ..s1 }, false)
    } else {
        (
            DemuxState {
                start_code: -1,
                pos: s1.pos + 56,
                num_audio_streams: bits_value(s.bytes, (s1.pos + 40) as int, 6) as int,
                num_video_streams: bits_value(s.bytes, (s1.pos + 51) as int, 5) as int,
                has_system_header: true,
                ..s1
            },
            true,
        )
    }
}

/// Parsing whichever of the two headers is still missing: the state after
/// it, and whether both are now in.
pub open spec fn headers_step(s: DemuxState) -> (DemuxState, bool) {
    if s.has_headers {
        (s, true)
    } else {
        let (s1, ok1) = if s.has_pack_header {
            (s, true)
        } else {
            pack_step(s)
        };
        if !ok1 {
            (s1, false)
        } else {
            let (s2, ok2) = if s1.has_system_header {
                (s1, true)
            } else {
                system_step(s1)
            };
            if !ok2 {
                (s2, false)
            } else {
                (DemuxState { has_headers: true, ..s2 }, true)
            }
        }
    }
}

/// The stream ids whose packets are handed out.
pub open spec fn is_packet_code(c: int) -> bool {
    c == PACKET_VIDEO_1 || c == PACKET_PRIVATE || (PACKET_AUDIO_1 <= c <= PACKET_AUDIO_4)
}

/// The first start code from byte `p` on that opens a packet, or -1 at the
/// end: the code and the byte after it.
pub open spec fn scan_packet(bytes: Seq<u8>, p: int) -> (int, int)
    decreases bytes.len() - p,
{
    if p < 0 {
        (-1, p)
    } else {
        let (c, q) = next_code(bytes, p);
        if c == -1 || is_packet_code(c) {
            (c, q)
        } else {
            proof {
                lemma_next_code_bounds(bytes, p);
            }
            scan_packet(bytes, q)
        }
    }
}

/// The length field of a packet header at `pos`, less the stuffing bytes
/// and the buffer information that follow it: that length and the position
/// of the timestamp marker.
pub open spec fn length_at(bytes: Seq<u8>, pos: nat) -> (int, nat) {
    let p1 = pos + 16;
    let l0 = bits_value(bytes, pos as int, 16) as int;
    let k = run_len(bytes, aligned_byte(p1), 0xff);
    let p2 = align_up(p1) + k * 8;
    let (std_marker, p3) = read_at(bytes, p2, 2);
    if std_marker == 1 {
        (l0 - k - 2, skip_at(bytes, p3, 16))
    } else {
        (l0 - k, p3)
    }
}

/// Reading the header of a packet of stream `ty` whose start code was just
/// read, then its payload. The header needs 128 bits ahead to be tried: a
/// 16-bit length, `0xFF` stuffing bytes, optional buffer information
/// (`01` and 14 more bits), then `11` with PTS and DTS, `10` with a PTS or
/// `00` and four bits; the length counts the bytes after the length field.
pub open spec fn packet_step(s: DemuxState, ty: int) -> (DemuxState, Option<PacketView>) {
    let bytes = s.bytes;
    if !has_bits(bytes.len(), s.pos, 128) {
        (s, None)
    } else {
        let (l1, p4) = length_at(bytes, s.pos);
        let (marker, p5) = read_at(bytes, p4, 2);
        let s1 = DemuxState { start_code: -1, next_type: ty, ..s };
        if marker == 3 || marker == 2 || marker == 0 {
            let (pts, p6) = if marker == 0 {
                (INVALID_TS as int, skip_at(bytes, p5, 4))
            } else {
                time_at(bytes, p5)
            };
            let p7 = if marker == 3 {
                skip_at(bytes, p6, 40)
            } else {
                p6
            };
            let l2 = if marker == 3 {
                l1 - 10
            } else if marker == 2 {
                l1 - 5
            } else {
                l1 - 1
            };
            let s2 = DemuxState { pos: p7, next_pts: pts, ..s1 };
            if l2 < 0 {
                (s2, None)
            } else if !has_bits(bytes.len(), p7, (l2 * 8) as nat) {
                (DemuxState { next_length: l2 as nat, ..s2 }, None)
            } else {
                (
                    DemuxState { current_length: l2 as nat, next_length: 0, ..s2 },
                    Some((ty, pts, bytes.subrange((p7 / 8) as int, p7 / 8 + l2))),
                )
            }
        } else {
            (DemuxState { pos: p5, ..s1 }, None)
        }
    }
}

/// The part of a `decode` call before the next packet: finish the headers
/// and skip the payload handed out last; the state after it, and whether a
/// packet may follow.
pub open spec fn before_packet(s: DemuxState) -> (DemuxState, bool) {
    let (s1, ok) = headers_step(s);
    if !ok {
        (s1, false)
    } else if s1.current_length > 0 && !has_bits(s1.bytes.len(), s1.pos, s1.current_length * 8) {
        (s1, false)
    } else if s1.current_length > 0 {
        (DemuxState { pos: s1.pos + s1.current_length * 8, current_length: 0, ..s1 }, true)
    } else {
        (s1, true)
    }
}

/// One call of `decode`: finish the headers, skip the payload handed out
/// last, then read the next packet of a handed-out stream.
#[verifier::opaque]
pub open spec fn decode_step(s: DemuxState) -> (DemuxState, Option<PacketView>) {
    let (s2, ok) = before_packet(s);
    if !ok {
        (s2, None)
    } else {
        if s2.start_code != -1 {
            packet_step(s2, s2.start_code)
        } else {
            let (c, q) = scan_packet(s2.bytes, aligned_byte(s2.pos));
            let s3 = DemuxState { pos: (q * 8) as nat, start_code: c, ..s2 };
            if c == -1 {
                (s3, None)
            } else {
                packet_step(s3, c)
            }
        }
    }
}

/// A state the demultiplexer can be in: positions within the stream and
/// lengths as the 16-bit length field allows.
pub open spec fn state_ok(s: DemuxState) -> bool {
    &&& s.bytes.len() * 8 + 7 <= usize::MAX
    &&& s.pos <= s.bytes.len() * 8
    &&& -1 <= s.start_code < 256
    &&& -1 <= s.next_type < 256
    &&& s.current_length < 0x1_0000
    &&& s.next_length < 0x1_0000
    &&& 0 <= s.num_audio_streams < 64
    &&& 0 <= s.num_video_streams < 32
    &&& -1 <= s.next_pts < 0x2_0000_0000
}

/// The packets `decode` hands out from state `s` on, until it returns none.
#[verifier::opaque]
pub open spec fn stream_packets(s: DemuxState) -> Seq<PacketView>
    decreases s.bytes.len() * 8 - s.pos,
{
    if !state_ok(s) {
        seq![]
    } else {
        let (s2, r) = decode_step(s);
        match r {
            Some(pk) => {
                proof {
                    lemma_decode_step(s);
                }
                seq![pk] + stream_packets(s2)
            },
            None => seq![],
        }
    }
}

/// The packets from a state on are the one `decode` hands out there, then
/// those from the state it leaves.
pub proof fn lemma_stream_packets_unfold(s: DemuxState)
    requires
        state_ok(s),
    ensures
        decode_step(s).1 is Some ==> stream_packets(s) == seq![decode_step(s).1->0] + stream_packets(
            decode_step(s).0,
        ),
        decode_step(s).1 is None ==> stream_packets(s) == Seq::<PacketView>::empty(),
{
    reveal(stream_packets);
}

/// Appending a packet appends its payload when it is of stream `ty`.
pub proof fn lemma_payloads_push(pks: Seq<PacketView>, pk: PacketView, ty: int)
    ensures
        payloads_of(pks.push(pk), ty) == payloads_of(pks, ty) + if pk.0 == ty {
            pk.2
        } else {
            seq![]
        },
{
    assert(pks.push(pk).drop_last() =~= pks);
}

/// The payloads of the packets of stream `ty`, in order, end to end.
pub open spec fn payloads_of(pks: Seq<PacketView>, ty: int) -> Seq<u8>
    decreases pks.len(),
{
    if pks.len() == 0 {
        seq![]
    } else {
        payloads_of(pks.drop_last(), ty) + if pks.last().0 == ty {
            pks.last().2
        } else {
            seq![]
        }
    }
}

/// A start-code scan from inside the stream ends inside it.
proof fn lemma_next_code_within(bytes: Seq<u8>, p: int)
    requires
        0 <= p <= bytes.len(),
    ensures
        p <= next_code(bytes, p).1 <= bytes.len(),
        next_code(bytes, p).0 != -1 ==> p + 4 <= next_code(bytes, p).1,
        -1 <= next_code(bytes, p).0 < 256,
    decreases bytes.len() - p,
{
    if p + 4 <= bytes.len() && !(bytes[p] == 0 && bytes[p + 1] == 0 && bytes[p + 2] == 1) {
        lemma_next_code_within(bytes, p + 1);
    }
}

/// A search for a given start code from inside the stream ends inside it.
proof fn lemma_find_code_within(bytes: Seq<u8>, p: int, code: int)
    requires
        0 <= p <= bytes.len(),
    ensures
        p <= find_code(bytes, p, code).1 <= bytes.len(),
        find_code(bytes, p, code).0 == -1 || find_code(bytes, p, code).0 == code,
    decreases bytes.len() - p,
{
    lemma_next_code_within(bytes, p);
    let (c, q) = next_code(bytes, p);
    if c != code && c != -1 {
        lemma_find_code_within(bytes, q, code);
    }
}

/// A packet scan from inside the stream ends inside it, on a packet code or
/// on -1.
proof fn lemma_scan_packet_within(bytes: Seq<u8>, p: int)
    requires
        0 <= p <= bytes.len(),
    ensures
        p <= scan_packet(bytes, p).1 <= bytes.len(),
        scan_packet(bytes, p).0 == -1 || is_packet_code(scan_packet(bytes, p).0),
        scan_packet(bytes, p).0 != -1 ==> p + 4 <= scan_packet(bytes, p).1,
    decreases bytes.len() - p,
{
    lemma_next_code_within(bytes, p);
    let (c, q) = next_code(bytes, p);
    if c != -1 && !is_packet_code(c) {
        lemma_scan_packet_within(bytes, q);
    }
}

/// The aligned byte of a position inside the stream is inside it.
proof fn lemma_aligned_within(len: nat, pos: nat)
    requires
        pos <= len * 8,
    ensures
        align_up(pos) <= len * 8,
        aligned_byte(pos) * 8 == align_up(pos),
        pos <= align_up(pos),
        0 <= aligned_byte(pos) <= len,
{
}

/// A run of equal bytes from byte `a` ends inside the stream.
proof fn lemma_run_len_within(bytes: Seq<u8>, a: int, v: u8)
    requires
        0 <= a <= bytes.len(),
    ensures
        a + run_len(bytes, a, v) <= bytes.len(),
    decreases bytes.len() - a,
{
    if a < bytes.len() && bytes[a] == v {
        lemma_run_len_within(bytes, a + 1, v);
    }
}

/// A timestamp read stays in the stream, has 33 bits, and moves forward.
proof fn lemma_time_at(bytes: Seq<u8>, pos: nat)
    requires
        pos <= bytes.len() * 8,
    ensures
        pos <= time_at(bytes, pos).1 <= bytes.len() * 8,
        time_at(bytes, pos).1 <= pos + 36,
        0 <= time_at(bytes, pos).0 < 0x2_0000_0000,
        has_bits(bytes.len(), pos, 36) ==> time_at(bytes, pos).1 == pos + 36,
{
    let (hi, p1) = read_at(bytes, pos, 3);
    let p2 = skip_at(bytes, p1, 1);
    let (mid, p3) = read_at(bytes, p2, 15);
    let p4 = skip_at(bytes, p3, 1);
    let (lo, p5) = read_at(bytes, p4, 15);
    lemma_bits_bound(bytes, pos as int, 3);
    lemma_bits_bound(bytes, p2 as int, 15);
    lemma_bits_bound(bytes, p4 as int, 15);
    lemma2_to64();
    assert(0 <= hi < 8 && 0 <= mid < 0x8000 && 0 <= lo < 0x8000);
}

/// The length field and what follows it stay in the stream, move forward
/// by at least 16 bits, and leave a length below 2^16.
proof fn lemma_length_at(bytes: Seq<u8>, pos: nat)
    requires
        has_bits(bytes.len(), pos, 128),
        bytes.len() * 8 + 7 <= usize::MAX,
    ensures
        pos + 16 <= length_at(bytes, pos).1 <= bytes.len() * 8,
        length_at(bytes, pos).0 < 0x1_0000,
        length_at(bytes, pos).0 >= -(bytes.len() as int) - 2,
{
    let p1 = pos + 16;
    lemma_bits_bound(bytes, pos as int, 16);
    lemma2_to64();
    lemma_aligned_within(bytes.len(), p1);
    lemma_run_len_within(bytes, aligned_byte(p1), 0xff);
}

/// What a packet read leaves: a state of the same stream, further on,
/// still within it, and a packet only after reading past its length field.
proof fn lemma_packet_step(s: DemuxState, ty: int)
    requires
        state_ok(s),
        -1 <= ty < 256,
    ensures
        packet_step(s, ty).0.bytes == s.bytes,
        s.pos <= packet_step(s, ty).0.pos <= s.bytes.len() * 8,
        state_ok(packet_step(s, ty).0),
        packet_step(s, ty).1 is Some ==> s.pos + 16 <= packet_step(s, ty).0.pos,
{
    let bytes = s.bytes;
    if has_bits(bytes.len(), s.pos, 128) {
        lemma_length_at(bytes, s.pos);
        let (l1, p4) = length_at(bytes, s.pos);
        let (marker, p5) = read_at(bytes, p4, 2);
        if marker == 3 || marker == 2 {
            lemma_time_at(bytes, p5);
        }
    }
}

/// `decode_step` by cases: no packet when the headers or the last payload
/// are short, else the packet at a start code already found, else the one
/// at the next packet start code.
proof fn lemma_decode_step_cases(s: DemuxState)
    ensures
        ({
            let (s2, ok) = before_packet(s);
            let (c, q) = scan_packet(s2.bytes, aligned_byte(s2.pos));
            let s3 = DemuxState { pos: (q * 8) as nat, start_code: c, ..s2 };
            &&& !ok ==> decode_step(s) == (s2, None::<PacketView>)
            &&& ok && s2.start_code != -1 ==> decode_step(s) == packet_step(s2, s2.start_code)
            &&& ok && s2.start_code == -1 && c == -1 ==> decode_step(s) == (s3, None::<PacketView>)
            &&& ok && s2.start_code == -1 && c != -1 ==> decode_step(s) == packet_step(s3, c)
        }),
{
    reveal(decode_step);
}

/// What a `decode` call leaves: a state of the same stream, still within
/// it, and further on when it hands out a packet.
pub proof fn lemma_decode_step(s: DemuxState)
    requires
        state_ok(s),
    ensures
        decode_step(s).0.bytes == s.bytes,
        decode_step(s).0.pos <= s.bytes.len() * 8,
        state_ok(decode_step(s).0),
        decode_step(s).1 is Some ==> s.pos < decode_step(s).0.pos,
{
    reveal(decode_step);
    let bytes = s.bytes;
    lemma_headers_step(s);
    let (s2, ok) = before_packet(s);
    if ok {
        if s2.start_code != -1 {
            lemma_packet_step(s2, s2.start_code);
        } else {
            lemma_aligned_within(bytes.len(), s2.pos);
            lemma_scan_packet_within(bytes, aligned_byte(s2.pos));
            let (c, q) = scan_packet(s2.bytes, aligned_byte(s2.pos));
            let s3 = DemuxState { pos: (q * 8) as nat, start_code: c, ..s2 };
            if c != -1 {
                lemma_packet_step(s3, c);
            }
        }
    }
}

/// What a header search leaves: a state of the same stream, further on,
/// still within it.
proof fn lemma_seek_header(s: DemuxState, code: int)
    requires
        state_ok(s),
    ensures
        seek_header(s, code).1.bytes == s.bytes,
        s.pos <= seek_header(s, code).1.pos <= s.bytes.len() * 8,
        state_ok(seek_header(s, code).1),
        seek_header(s, code).1.start_code == s.start_code,
{
    if s.start_code != code {
        lemma_aligned_within(s.bytes.len(), s.pos);
        lemma_find_code_within(s.bytes, aligned_byte(s.pos), code);
    }
}

/// What a header read leaves: a state of the same stream, further on,
/// still within it.
proof fn lemma_headers_step(s: DemuxState)
    requires
        state_ok(s),
    ensures
        headers_step(s).0.bytes == s.bytes,
        s.pos <= headers_step(s).0.pos <= s.bytes.len() * 8,
        state_ok(headers_step(s).0),
{
    lemma_seek_header(s, START_PACK as int);
    let s1 = if s.has_pack_header {
        s
    } else {
        pack_step(s).0
    };
    lemma_seek_header(s1, START_SYSTEM as int);
    let (_, t) = seek_header(s1, START_SYSTEM as int);
    lemma_bits_bound(s.bytes, (t.pos + 40) as int, 6);
    lemma_bits_bound(s.bytes, (t.pos + 51) as int, 5);
    lemma2_to64();
}


/// The packet a `decode` call handed out, as plain values.
pub open spec fn packet_view(r: Option<Packet>) -> Option<PacketView> {
    match r {
        Some(p) => Some((p.ty as int, p.pts as int, p.data@)),
        None => None,
    }
}

/// A streaming demultiplexer over a program stream held in memory.
pub struct Demux {
    buffer: Buffer,
    start_code: i32,
    has_pack_header: bool,
    has_system_header: bool,
    has_headers: bool,
    num_audio_streams: i32,
    num_video_streams: i32,
    current_length: usize,
    next_type: i32,
    next_length: usize,
    next_pts: i64,
}

impl View for Demux {
    type V = DemuxState;

    closed spec fn view(&self) -> DemuxState {
        DemuxState {
            bytes: self.buffer@.0,
            pos: self.buffer@.1,
            start_code: self.start_code as int,
            has_pack_header: self.has_pack_header,
            has_system_header: self.has_system_header,
            has_headers: self.has_headers,
            num_audio_streams: self.num_audio_streams as int,
            num_video_streams: self.num_video_streams as int,
            current_length: self.current_length as nat,
            next_type: self.next_type as int,
            next_length: self.next_length as nat,
            next_pts: self.next_pts as int,
        }
    }
}

impl Demux {
    /// The state is one the demultiplexer can be in.
    pub open spec fn wf(&self) -> bool {
        state_ok(self@)
    }

    /// The reader's own invariant follows from the state's.
    proof fn lemma_buffer_wf(&self)
        requires
            self.wf(),
        ensures
            self.buffer.wf(),
    {
    }

    /// A demultiplexer over `data` that has tried to read both headers.
    pub fn new(data: Vec<u8>) -> (r: Self)
        requires
            data@.len() * 8 + 7 <= usize::MAX,
        ensures
            r.wf(),
            r@ == headers_step(initial_state(data@)).0,
    {
        let mut s = Demux {
            buffer: Buffer::new(data),
            start_code: -1,
            has_pack_header: false,
            has_system_header: false,
            has_headers: false,
            num_audio_streams: 0,
            num_video_streams: 0,
            current_length: 0,
            next_type: -1,
            next_length: 0,
            next_pts: INVALID_TS,
        };
        assert(s@ == initial_state(data@));
        s.has_headers();
        s
    }

    /// The number of video streams the system header announces.
    pub fn num_video_streams(&self) -> (r: i32)
        ensures
            r == self@.num_video_streams,
    {
        self.num_video_streams
    }

    /// The number of audio streams the system header announces.
    pub fn num_audio_streams(&self) -> (r: i32)
        ensures
            r == self@.num_audio_streams,
    {
        self.num_audio_streams
    }

    /// Reads a timestamp.
    fn decode_time(&mut self) -> (r: i64)
        requires
            old(self).wf(),
        ensures
            final(self).wf(),
            r == time_at(old(self)@.bytes, old(self)@.pos).0,
            final(self)@ == (DemuxState { pos: time_at(old(self)@.bytes, old(self)@.pos).1, ..old(self)@ }),
    {
        proof {
            self.lemma_buffer_wf();
            lemma_time_at(self@.bytes, self@.pos);
            lemma_bits_bound(self@.bytes, self@.pos as int, 3);
            lemma2_to64();
        }
        let hi = self.buffer.read(3) as i64;
        self.buffer.skip(1);
        proof {
            lemma_bits_bound(self@.bytes, self@.pos as int, 15);
        }
        let mid = self.buffer.read(15) as i64;
        self.buffer.skip(1);
        proof {
            lemma_bits_bound(self@.bytes, self@.pos as int, 15);
        }
        let lo = self.buffer.read(15) as i64;
        self.buffer.skip(1);
        hi * 0x4000_0000 + mid * 0x8000 + lo
    }

    /// Moves to the start code `code` unless it was already found.
    fn seek_header(&mut self, code: i32) -> (r: bool)
        requires
            old(self).wf(),
        ensures
            final(self).wf(),
            (r, final(self)@) == seek_header(old(self)@, code as int),
    {
        proof {
            self.lemma_buffer_wf();
            lemma_seek_header(self@, code as int);
        }
        if self.start_code != code {
            self.buffer.find_start_code(code) != -1
        } else {
            true
        }
    }

    /// Reads the pack header.
    fn read_pack_header(&mut self) -> (r: bool)
        requires
            old(self).wf(),
        ensures
            final(self).wf(),
            (final(self)@, r) == pack_step(old(self)@),
    {
        if !self.seek_header(START_PACK) {
            return false;
        }
        proof {
            self.lemma_buffer_wf();
        }
        self.start_code = START_PACK;
        if !self.buffer.has(64) {
            return false;
        }
        self.start_code = -1;
        if self.buffer.read(4) != 0x02 {
            return false;
        }
        proof {
            lemma_time_at(self@.bytes, self@.pos);
        }
        let _clock_reference = self.decode_time();
        self.buffer.skip(1);
        self.buffer.skip(22);
        self.buffer.skip(1);
        self.has_pack_header = true;
        true
    }

    /// Reads the system header.
    fn read_system_header(&mut self) -> (r: bool)
        requires
            old(self).wf(),
        ensures
            final(self).wf(),
            (final(self)@, r) == system_step(old(self)@),
    {
        if !self.seek_header(START_SYSTEM) {
            return false;
        }
        proof {
            self.lemma_buffer_wf();
        }
        self.start_code = START_SYSTEM;
        if !self.buffer.has(56) {
            return false;
        }
        self.start_code = -1;
        self.buffer.skip(16);
        self.buffer.skip(24);
        proof {
            lemma_bits_bound(self@.bytes, self@.pos as int, 6);
            lemma2_to64();
        }
        self.num_audio_streams = self.buffer.read(6) as i32;
        self.buffer.skip(5);
        proof {
            lemma_bits_bound(self@.bytes, self@.pos as int, 5);
        }
        self.num_video_streams = self.buffer.read(5) as i32;
        self.has_system_header = true;
        true
    }

    /// Reads whichever of the pack and system headers is still missing;
    /// true once both are in.
    pub fn has_headers(&mut self) -> (r: bool)
        requires
            old(self).wf(),
        ensures
            final(self).wf(),
            (final(self)@, r) == headers_step(old(self)@),
    {
        if self.has_headers {
            return true;
        }
        if !self.has_pack_header {
            if !self.read_pack_header() {
                return false;
            }
        }
        if !self.has_system_header {
            if !self.read_system_header() {
                return false;
            }
        }
        self.has_headers = true;
        true
    }

    /// Reads a packet header's length field and what follows it up to the
    /// timestamp marker; returns the length left for the rest.
    fn read_length(&mut self) -> (r: i64)
        requires
            old(self).wf(),
            has_bits(old(self)@.bytes.len(), old(self)@.pos, 128),
        ensures
            final(self).wf(),
            (r as int, final(self)@.pos) == length_at(old(self)@.bytes, old(self)@.pos),
            final(self)@ == (DemuxState { pos: final(self)@.pos, ..old(self)@ }),
    {
        proof {
            self.lemma_buffer_wf();
            lemma_length_at(self@.bytes, self@.pos);
            lemma_bits_bound(self@.bytes, self@.pos as int, 16);
            lemma2_to64();
            lemma_aligned_within(self@.bytes.len(), self@.pos + 16);
            lemma_run_len_within(self@.bytes, aligned_byte(self@.pos + 16), 0xff);
        }
        let mut length: i64 = self.buffer.read(16) as i64;
        let stuffing = self.buffer.skip_bytes(0xff);
        length = length - stuffing as i64;
        if self.buffer.read(2) == 0x01 {
            self.buffer.skip(16);
            length = length - 2;
        }
        length
    }

    /// Hands out the payload of `next_length` bytes at the read position.
    fn get_packet(&mut self) -> (r: Option<Packet>)
        requires
            old(self).wf(),
        ensures
            final(self).wf(),
            !has_bits(old(self)@.bytes.len(), old(self)@.pos, old(self)@.next_length * 8) ==> r is None
                && final(self)@ == old(self)@,
            has_bits(old(self)@.bytes.len(), old(self)@.pos, old(self)@.next_length * 8) ==> packet_view(r)
                == Some(
                (
                    old(self)@.next_type,
                    old(self)@.next_pts,
                    old(self)@.bytes.subrange(
                        (old(self)@.pos / 8) as int,
                        (old(self)@.pos / 8 + old(self)@.next_length) as int,
                    ),
                ),
            ) && final(self)@ == (DemuxState {
                current_length: old(self)@.next_length,
                next_length: 0,
                ..old(self)@
            }),
    {
        proof {
            self.lemma_buffer_wf();
        }
        let bits = self.next_length * 8;
        if !self.buffer.has(bits) {
            return None;
        }
        let data = match self.buffer.peek_bytes(self.next_length) {
            Some(bytes) => vstd::slice::slice_to_vec(bytes),
            None => {
                return None;
            },
        };
        let packet = Packet { ty: self.next_type, pts: self.next_pts, data };
        self.current_length = self.next_length;
        self.next_length = 0;
        Some(packet)
    }

    /// Reads a packet of stream `ty` whose start code was just read.
    fn decode_packet(&mut self, ty: i32) -> (r: Option<Packet>)
        requires
            old(self).wf(),
            -1 <= ty < 256,
        ensures
            final(self).wf(),
            (final(self)@, packet_view(r)) == packet_step(old(self)@, ty as int),
    {
        proof {
            self.lemma_buffer_wf();
            lemma_packet_step(self@, ty as int);
        }
        if !self.buffer.has(128) {
            return None;
        }
        proof {
            lemma_length_at(self@.bytes, self@.pos);
        }
        let mut length = self.read_length();
        self.start_code = -1;
        self.next_type = ty;
        proof {
            self.lemma_buffer_wf();
        }
        let marker = self.buffer.read(2);
        proof {
            lemma_time_at(self@.bytes, self@.pos);
        }
        if marker == 0x03 {
            self.next_pts = self.decode_time();
            self.buffer.skip(40);
            length = length - 10;
        } else if marker == 0x02 {
            self.next_pts = self.decode_time();
            length = length - 5;
        } else if marker == 0x00 {
            self.next_pts = INVALID_TS;
            self.buffer.skip(4);
            length = length - 1;
        } else {
            return None;
        }
        if length < 0 {
            return None;
        }
        self.next_length = length as usize;
        self.get_packet()
    }

    /// Finishes the headers and skips the payload handed out last; whether
    /// a packet may follow.
    fn prepare(&mut self) -> (r: bool)
        requires
            old(self).wf(),
        ensures
            final(self).wf(),
            (final(self)@, r) == before_packet(old(self)@),
    {
        proof {
            lemma_headers_step(self@);
        }
        if !self.has_headers() {
            return false;
        }
        proof {
            self.lemma_buffer_wf();
        }
        if self.current_length > 0 {
            let bits = self.current_length * 8;
            if !self.buffer.has(bits) {
                return false;
            }
            self.buffer.skip(bits);
            self.current_length = 0;
        }
        true
    }

    /// Reads the next packet of the video, audio or private streams; `None`
    /// at the end of the stream or when it breaks off.
    pub fn decode(&mut self) -> (r: Option<Packet>)
        requires
            old(self).wf(),
        ensures
            final(self).wf(),
            (final(self)@, packet_view(r)) == decode_step(old(self)@),
    {
        proof {
            lemma_decode_step_cases(self@);
        }
        if !self.prepare() {
            return None;
        }
        if self.start_code != -1 {
            let code = self.start_code;
            return self.decode_packet(code);
        }
        let ghost s2 = self@;
        let ghost target = scan_packet(s2.bytes, aligned_byte(s2.pos));
        proof {
            lemma_aligned_within(s2.bytes.len(), s2.pos);
            lemma_scan_packet_within(s2.bytes, aligned_byte(s2.pos));
        }
        loop
            invariant
                self.wf(),
                before_packet(old(self)@) == (s2, true),
                s2.start_code == -1,
                target == scan_packet(s2.bytes, aligned_byte(s2.pos)),
                self@ == (DemuxState { pos: self@.pos, start_code: self@.start_code, ..s2 }),
                scan_packet(s2.bytes, aligned_byte(self@.pos)) == target,
                decode_step(old(self)@) == (if target.0 == -1 {
                    (DemuxState { pos: (target.1 * 8) as nat, start_code: target.0, ..s2 }, None)
                } else {
                    packet_step(DemuxState { pos: (target.1 * 8) as nat, start_code: target.0, ..s2 }, target.0)
                }),
            decreases s2.bytes.len() * 8 - self@.pos,
        {
            proof {
                self.lemma_buffer_wf();
                lemma_aligned_within(s2.bytes.len(), self@.pos);
                lemma_next_code_within(s2.bytes, aligned_byte(self@.pos));
            }
            self.start_code = self.buffer.next_start_code();
            let sc = self.start_code;
            if sc == PACKET_VIDEO_1 || sc == PACKET_PRIVATE || (PACKET_AUDIO_1 <= sc && sc <= PACKET_AUDIO_4) {
                assert(self@ == (DemuxState { pos: (target.1 * 8) as nat, start_code: target.0, ..s2 }));
                return self.decode_packet(sc);
            }
            if sc == -1 {
                assert(self@ == (DemuxState { pos: (target.1 * 8) as nat, start_code: target.0, ..s2 }));
                return None;
            }
        }
    }
}

/// Splits a whole program stream held in memory into the payloads of its
/// first video stream and of its first audio stream.
pub fn demux_all(data: Vec<u8>) -> (r: DemuxedStreams)
    requires
        data@.len() * 8 + 7 <= usize::MAX,
    ensures
        ({
            let s0 = headers_step(initial_state(data@)).0;
            &&& r.num_video_streams == s0.num_video_streams
            &&& r.num_audio_streams == s0.num_audio_streams
            &&& r.video@ == payloads_of(stream_packets(s0), PACKET_VIDEO_1 as int)
            &&& r.audio@ == payloads_of(stream_packets(s0), PACKET_AUDIO_1 as int)
        }),
{
    let ghost d = data@;
    let mut demux = Demux::new(data);
    let ghost s0 = demux@;
    let mut out = DemuxedStreams {
        video: Vec::new(),
        audio: Vec::new(),
        num_video_streams: demux.num_video_streams(),
        num_audio_streams: demux.num_audio_streams(),
    };
    let ghost mut done: Seq<PacketView> = seq![];
    loop
        invariant
            demux.wf(),
            s0 == headers_step(initial_state(d)).0,
            d == data@,
            demux@.bytes == s0.bytes,
            done + stream_packets(demux@) == stream_packets(s0),
            out.video@ == payloads_of(done, PACKET_VIDEO_1 as int),
            out.audio@ == payloads_of(done, PACKET_AUDIO_1 as int),
            out.num_video_streams == s0.num_video_streams,
            out.num_audio_streams == s0.num_audio_streams,
        decreases demux@.bytes.len() * 8 - demux@.pos,
    {
        let ghost before = demux@;
        proof {
            lemma_decode_step(before);
            lemma_stream_packets_unfold(before);
        }
        match demux.decode() {
            Some(packet) => {
                let ghost pk = (packet.ty as int, packet.pts as int, packet.data@);
                proof {
                    lemma_payloads_push(done, pk, PACKET_VIDEO_1 as int);
                    lemma_payloads_push(done, pk, PACKET_AUDIO_1 as int);
                }
                if packet.ty == PACKET_VIDEO_1 {
                    out.video.extend_from_slice(packet.data.as_slice());
                } else if packet.ty == PACKET_AUDIO_1 {
                    out.audio.extend_from_slice(packet.data.as_slice());
                }
                proof {
                    let d2 = done.push(pk);
                    assert(d2 + stream_packets(demux@) =~= done + stream_packets(before));
                    done = d2;
                }
            },
            None => {
                assert(done =~= done + stream_packets(before));
                return out;
            },
        }
    }
}

} // verus!
