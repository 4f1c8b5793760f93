use native32emu::mpeg::audio::{Audio, SUBBAND_VALUES_PER_FRAME};

/// One mono MP2 frame at 32 kbit/s and 44.1 kHz (104 bytes): subband 0
/// has a 3-level grouped quantiser with the largest scale factor; its first
/// group codes 2, 2, 2 and the other eleven code 0, 0, 0.
fn mono_frame() -> Vec<u8> {
    let mut frame = vec![0xff, 0xfd, 0x10, 0xc0, 0x10, 0x00, 0x00, 0x20, 0x34];
    frame.resize(104, 0);
    frame
}

#[test]
fn test_audio_reads_frame_header() {
    let mut audio = Audio::new(mono_frame());
    assert!(audio.has_header());
    assert_eq!(audio.samplerate(), 44100);
}

#[test]
fn test_audio_decodes_grouped_samples() {
    let mut audio = Audio::new(mono_frame());
    let values = audio.decode().expect("a whole frame");
    assert_eq!(values.len(), SUBBAND_VALUES_PER_FRAME);
    // Step 0, channel 0, subband 0: samples 2 lie one level below the
    // midpoint 1.
    assert_eq!(&values[0..3], &[-32768, -32768, -32768]);
    // Mono: channel 1 carries channel 0's samples.
    assert_eq!(&values[96..99], &[-32768, -32768, -32768]);
    // Step 1: samples 0 lie one level above the midpoint.
    assert_eq!(&values[192..195], &[32768, 32768, 32768]);
    // Subbands without allocation are silent.
    assert!(values[3..96].iter().all(|&v| v == 0));
    assert_eq!(audio.samples_decoded(), 1152);
    // The stream holds no further frame.
    assert!(audio.decode().is_none());
    assert_eq!(audio.samples_decoded(), 1152);
}

#[test]
fn test_audio_truncated_frame_is_not_decoded() {
    let mut frame = mono_frame();
    frame.truncate(80);
    let mut audio = Audio::new(frame);
    assert!(audio.has_header());
    assert!(audio.decode().is_none());
}

#[test]
fn test_audio_without_sync_has_no_header() {
    let mut audio = Audio::new(vec![0x12; 64]);
    assert!(!audio.has_header());
    assert_eq!(audio.samplerate(), 0);
    assert!(audio.decode().is_none());
}

#[test]
fn test_audio_finds_sync_after_garbage() {
    let mut stream = vec![0x12, 0x34, 0x56];
    stream.extend(mono_frame());
    let mut audio = Audio::new(stream);
    assert!(audio.has_header());
    assert_eq!(audio.samplerate(), 44100);
}

#[test]
fn test_audio_rejects_layer_three() {
    let mut frame = mono_frame();
    // Layer bits 01 (Layer III) instead of 10.
    frame[1] = 0xfb;
    let mut audio = Audio::new(frame);
    assert!(!audio.has_header());
}
