use native32emu::mpeg::demux::{demux_all, Demux, INVALID_TS, PACKET_AUDIO_1, PACKET_VIDEO_1};

/// A minimal program stream: pack header, system header, one video PES and
/// one audio PES, then an end code and some padding.
fn build_stream() -> Vec<u8> {
    let mut d = Vec::new();
    d.extend_from_slice(&[0x00, 0x00, 0x01, 0xBA]);
    d.extend_from_slice(&[0x21, 0x00, 0x01, 0x00, 0x01, 0x80, 0x80, 0x01]);
    d.extend_from_slice(&[0x00, 0x00, 0x01, 0xBB]);
    d.extend_from_slice(&[0x00, 0x06]);
    d.extend_from_slice(&[0x80, 0x00, 0x00]);
    d.push(0x04);
    d.push(0x00);
    d.push(0x08);
    let payload_v = [0xAAu8, 0xBB, 0xCC, 0xDD];
    d.extend_from_slice(&[0x00, 0x00, 0x01, 0xE0]);
    let len_v = 1 + payload_v.len();
    d.push((len_v >> 8) as u8);
    d.push((len_v & 0xff) as u8);
    d.push(0x0f);
    d.extend_from_slice(&payload_v);
    let payload_a = [0x11u8, 0x22, 0x33];
    d.extend_from_slice(&[0x00, 0x00, 0x01, 0xC0]);
    let len_a = 1 + payload_a.len();
    d.push((len_a >> 8) as u8);
    d.push((len_a & 0xff) as u8);
    d.push(0x0f);
    d.extend_from_slice(&payload_a);
    d.extend_from_slice(&[0x00, 0x00, 0x01, 0xB9]);
    d.extend_from_slice(&[0xFF; 16]);
    d
}

#[test]
fn test_demux_splits_streams() {
    let stream = build_stream();
    let out = demux_all(stream);
    assert_eq!(out.video, vec![0xAA, 0xBB, 0xCC, 0xDD]);
    assert_eq!(out.audio, vec![0x11, 0x22, 0x33]);
}

#[test]
fn test_demux_real_file_header() {
    let data = vec![
        0x00, 0x00, 0x01, 0xBA, 0x21, 0x00, 0x01, 0x00, 0x01, 0x80, 0x80, 0x01,
    ];
    let mut demux = Demux::new(data);
    assert!(demux.decode().is_none());
}

#[test]
fn demux_reads_stream_counts_from_system_header() {
    let out = demux_all(build_stream());
    // Audio bound: the top six bits of 0x04. Video bound: the five bits
    // after five flag bits, which in this stream are all zero.
    assert_eq!(out.num_audio_streams, 1);
    assert_eq!(out.num_video_streams, 0);
}

#[test]
fn demux_hands_out_packets_in_order() {
    let mut demux = Demux::new(build_stream());
    let first = demux.decode().expect("video packet");
    assert_eq!(first.ty, PACKET_VIDEO_1);
    assert_eq!(first.pts, INVALID_TS);
    assert_eq!(first.data, vec![0xAA, 0xBB, 0xCC, 0xDD]);
    let second = demux.decode().expect("audio packet");
    assert_eq!(second.ty, PACKET_AUDIO_1);
    assert_eq!(second.data, vec![0x11, 0x22, 0x33]);
    assert!(demux.decode().is_none());
}

#[test]
fn demux_reads_presentation_timestamp() {
    let mut d = build_stream();
    // Replace the video packet's `00` marker byte by a `10` marker with a
    // PTS of 90000 ticks: 0010 ttt1 tttttttt ttttttt1 tttttttt ttttttt1.
    let at = d.iter().position(|&b| b == 0xE0).unwrap() + 1;
    // New length: 5 bytes of PTS + 4 bytes of payload.
    d[at] = 0x00;
    d[at + 1] = 9;
    let pts: u64 = 90000;
    let hdr = [
        0x20 | (((pts >> 30) as u8 & 0x07) << 1) | 1,
        ((pts >> 22) & 0xff) as u8,
        ((((pts >> 15) & 0x7f) as u8) << 1) | 1,
        ((pts >> 7) & 0xff) as u8,
        (((pts & 0x7f) as u8) << 1) | 1,
    ];
    d.splice(at + 2..at + 3, hdr.iter().cloned());
    let mut demux = Demux::new(d);
    let first = demux.decode().expect("video packet");
    assert_eq!(first.pts, 90000);
    assert_eq!(first.data, vec![0xAA, 0xBB, 0xCC, 0xDD]);
}

#[test]
fn demux_of_empty_input_is_empty() {
    let out = demux_all(Vec::new());
    assert!(out.video.is_empty());
    assert!(out.audio.is_empty());
    assert_eq!(out.num_video_streams, 0);
    assert_eq!(out.num_audio_streams, 0);
}
