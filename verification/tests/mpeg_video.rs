use native32emu::mpeg::video::{idct, Frame, Video};

/// A 16x16 stream: a sequence header, two intra pictures of one
/// macroblock each, and the start of a third picture.
fn two_picture_stream() -> Vec<u8> {
    vec![
        0x00, 0x00, 0x01, 0xb3, 0x01, 0x00, 0x10, 0x13, 0x00, 0x00, 0x20, 0x00, 0x00, 0x00, 0x01, 0x00, 0x00, 0x08, 0x00, 0x00, 0x00, 0x00, 0x01, 0x01, 0x0b, 0x79, 0x29, 0x48, 0x9c, 0x00, 0x00, 0x01, 0x00, 0x00, 0x08, 0x00, 0x00, 0x00, 0x00, 0x01, 0x01, 0x0b, 0x94, 0xa5, 0x22, 0x20, 0x00, 0x00, 0x01, 0x00, 0x00, 0x00, 0x00, 0x00, 0x00, 0x00, 0x00, 0x00, 0x00, 0x00, 0x00, 0x00, 0x00, 0x00, 0x00, 0x00, 0x00, 0x00, 0x00, 0x00, 0x00, 0x00, 0x00, 0x00, 0x00, 0x00, 0x00, 0x00, 0x00, 0x00, 0x00, 0x00, 0x00, 0x00, 0x00, 0x00, 0x00, 0x00, 0x00, 0x00, 0x00, 0x00, 0x00, 0x00, 0x00, 0x00, 0x00, 0x00, 0x00, 0x00, 0x00, 0x00, 0x00, 0x00, 0x00, 0x00, 0x00, 0x00, 0x00, 0x00, 0x00, 0x00, 0x00, 0x00, 0x00, 0x00, 0x00, 0x00, 0x00, 0x00, 0x00, 0x00, 0x00, 0x00, 0x00, 0x00, 0x00, 0x00, 0x00, 0x00, 0x00, 0x00, 0x00, 0x00, 0x00, 0x00, 0x00, 0x00, 0x00, 0x00, 0x00, 0x00, 0x00, 0x00, 0x00, 0x00, 0x00, 0x00, 0x00, 0x00, 0x00, 0x00, 0x00, 0x00, 0x00, 0x00, 0x00, 0x00, 0x00, 0x00, 0x00, 0x00, 0x00, 0x00, 0x00, 0x00, 0x00, 0x00, 0x00, 0x00,
    ]
}

fn plane_value_at(frame: &Frame, x: usize, y: usize) -> u8 {
    frame.y.data[y * frame.y.width + x]
}

#[test]
fn test_video_reads_sequence_header() {
    let mut video = Video::new(two_picture_stream());
    assert!(video.has_header());
    assert_eq!(video.width(), 16);
    assert_eq!(video.height(), 16);
    assert_eq!(video.picture_rate_code(), 3);
    assert_eq!(video.aspect_ratio_code(), 0);
}

#[test]
fn test_video_decodes_intra_picture_one_picture_late() {
    let mut video = Video::new(two_picture_stream());
    let idx = video.decode().expect("the first picture is shown once the second is decoded");
    assert_eq!(video.frames_decoded(), 1);
    let frame = video.frame(idx);
    assert_eq!(frame.width, 16);
    assert_eq!(frame.height, 16);
    assert_eq!(frame.y.data.len(), 256);
    assert_eq!(frame.cb.data.len(), 64);
    assert_eq!(frame.cr.data.len(), 64);
    // Block 0 carries a DC differential of +3, block 1 one of -3.
    assert_eq!(plane_value_at(frame, 0, 0), 131);
    assert_eq!(plane_value_at(frame, 7, 7), 131);
    assert_eq!(plane_value_at(frame, 8, 0), 128);
    assert_eq!(plane_value_at(frame, 0, 8), 128);
    assert_eq!(plane_value_at(frame, 15, 15), 128);
    assert!(frame.cb.data.iter().all(|&v| v == 128));
    assert!(frame.cr.data.iter().all(|&v| v == 129));
    // The third picture has no successor in the stream yet.
    assert_eq!(video.decode(), None);
    assert_eq!(video.frames_decoded(), 1);
}

#[test]
fn test_video_without_sequence_header() {
    let mut video = Video::new(vec![0u8; 200]);
    assert!(!video.has_header());
    assert_eq!(video.decode(), None);
}

#[test]
fn test_video_zero_width_header_is_refused() {
    let mut stream = two_picture_stream();
    // Width field (first 12 bits after the start code) set to zero.
    stream[4] = 0;
    stream[5] &= 0x0f;
    let mut video = Video::new(stream);
    assert!(!video.has_header());
    assert_eq!(video.decode(), None);
}

#[test]
fn test_video_short_stream_has_no_header() {
    let stream: Vec<u8> = two_picture_stream().into_iter().take(100).collect();
    let mut video = Video::new(stream);
    assert!(!video.has_header());
}

#[test]
fn test_idct_of_dc_only_block_is_flat() {
    let mut block = vec![0i32; 64];
    block[0] = 32768;
    idct(&mut block);
    assert!(block.iter().all(|&v| v == 128));
}

#[test]
fn test_idct_of_mixed_block() {
    let mut block = vec![0i32; 64];
    block[0] = 32768;
    block[1] = 1000 * 44;
    block[8] = -500 * 44;
    block[9] = 300 * 62;
    idct(&mut block);
    let expected: Vec<i32> = vec![287, 249, 181, 91, -7, -96, -165, -202, 289, 253, 187, 102, 9, -77, -143, -178, 292, 260, 200, 122, 37, -41, -101, -134, 297, 269, 216, 148, 74, 5, -47, -75, 303, 279, 234, 176, 114, 56, 12, -12, 307, 287, 251, 203, 151, 103, 66, 46, 311, 294, 263, 223, 179, 138, 107, 91, 313, 298, 270, 234, 194, 158, 130, 115];
    assert_eq!(block, expected);
}

#[test]
fn test_idct_of_zero_block_is_zero() {
    let mut block = vec![0i32; 64];
    idct(&mut block);
    assert!(block.iter().all(|&v| v == 0));
}

#[test]
fn test_frame_written_as_rgb_scaled_to_nearest_pixel() {
    let mut video = Video::new(two_picture_stream());
    let idx = video.decode().expect("a frame");
    let frame = video.frame(idx);
    let mut dst = vec![0u32; 32 * 32];
    frame.write_rgb_scaled(&mut dst, 32, 32);
    // Luma 131 with chroma (128, 129) in the top-left block.
    assert_eq!(dst[0], 0xff86_8585);
    assert_eq!(dst[15 * 32 + 15], 0xff86_8585);
    // Luma 128 elsewhere.
    assert_eq!(dst[16], 0xff83_8282);
    assert_eq!(dst[31 * 32 + 31], 0xff83_8282);
    // Downscaled to 8x8 every other picture pixel is taken.
    let mut small = vec![0u32; 8 * 8];
    frame.write_rgb_scaled(&mut small, 8, 8);
    assert_eq!(small[0], 0xff86_8585);
    assert_eq!(small[3 * 8 + 3], 0xff86_8585);
    assert_eq!(small[4], 0xff83_8282);
}

#[test]
fn test_idct_of_negative_dc_only_block_rounds_down() {
    let mut block = vec![0i32; 64];
    block[0] = -1000;
    idct(&mut block);
    assert!(block.iter().all(|&v| v == -4));
}
