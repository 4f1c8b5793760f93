use native32emu::file_loader::Native32Reader;
use native32emu::audio_engine::{Mixer, SavedAudioSource};
use native32emu::movies::{current_frame_property, release_ended_sounds, schedule_movie_frames, show_due_frame};
use native32emu::sprite_system::{MovieState, SpriteSystem};

/// A file whose movie 1 has three frames; the second plays sound 0x0102
/// and runs action 5.
fn reader_with_movie() -> Native32Reader {
    let mut data = vec![0u8; 8 + 3 * 12 + 2 + 8];
    data[0..4].copy_from_slice(&8u32.to_le_bytes());
    for k in 0..3 {
        let p = 8 + k * 12;
        data[p..p + 2].copy_from_slice(&1u16.to_le_bytes());
    }
    data[8 + 12 + 6..8 + 12 + 8].copy_from_slice(&5u16.to_le_bytes());
    data[8 + 12 + 8..8 + 12 + 10].copy_from_slice(&0x0102u16.to_le_bytes());
    data[8 + 36..8 + 38].copy_from_slice(&0xFFFFu16.to_le_bytes());
    let mut reader = Native32Reader::new(data);
    reader.base = 0;
    reader.movie_idx = 0;
    reader
}

fn clip(frame: usize) -> MovieState {
    let mut m = MovieState::new(1, 0, 0, 0);
    m.frame = frame;
    m.next_frame = None;
    m
}

#[test]
fn clips_move_on_every_second_tick() {
    let mut reader = reader_with_movie();
    let mut sprites = SpriteSystem::new();
    sprites.insert("a".to_string(), clip(0));
    schedule_movie_frames(&mut sprites, &mut reader, 1);
    assert_eq!(sprites.get("a").unwrap().next_frame, None);
    schedule_movie_frames(&mut sprites, &mut reader, 2);
    assert_eq!(sprites.get("a").unwrap().next_frame, Some(1));
}

#[test]
fn clips_wrap_after_their_last_frame() {
    let mut reader = reader_with_movie();
    let mut sprites = SpriteSystem::new();
    sprites.insert("a".to_string(), clip(2));
    schedule_movie_frames(&mut sprites, &mut reader, 4);
    assert_eq!(sprites.get("a").unwrap().next_frame, Some(0));
}

#[test]
fn stopped_or_sounding_clips_wait() {
    let mut reader = reader_with_movie();
    let mut sprites = SpriteSystem::new();
    let mut stopped = clip(0);
    stopped.playing = false;
    let mut sounding = clip(0);
    sounding.sound_channel = Some(3);
    sprites.insert("stopped".to_string(), stopped);
    sprites.insert("sounding".to_string(), sounding);
    schedule_movie_frames(&mut sprites, &mut reader, 2);
    assert_eq!(sprites.get("stopped").unwrap().next_frame, None);
    assert_eq!(sprites.get("sounding").unwrap().next_frame, None);
}

#[test]
fn due_frame_is_shown_with_its_sound_and_action() {
    let mut reader = reader_with_movie();
    let mut sprites = SpriteSystem::new();
    let mut m = clip(0);
    m.next_frame = Some(1);
    sprites.insert("a".to_string(), m);
    assert_eq!(show_due_frame(&mut sprites, &mut reader, "a"), Some((0x0102, 5)));
    let a = sprites.get("a").unwrap();
    assert_eq!(a.frame, 1);
    assert_eq!(a.next_frame, None);
}

#[test]
fn pending_minus_one_is_the_first_frame_and_past_the_end_stays() {
    let mut reader = reader_with_movie();
    let mut sprites = SpriteSystem::new();
    let mut first = clip(2);
    first.next_frame = Some(-1);
    let mut past = clip(2);
    past.next_frame = Some(7);
    sprites.insert("first".to_string(), first);
    sprites.insert("past".to_string(), past);
    assert_eq!(show_due_frame(&mut sprites, &mut reader, "first"), Some((0, 0)));
    assert_eq!(sprites.get("first").unwrap().frame, 0);
    assert_eq!(show_due_frame(&mut sprites, &mut reader, "past"), Some((0, 0)));
    assert_eq!(sprites.get("past").unwrap().frame, 2);
    assert_eq!(sprites.get("past").unwrap().next_frame, None);
}

#[test]
fn nothing_due_shows_nothing() {
    let mut reader = reader_with_movie();
    let mut sprites = SpriteSystem::new();
    sprites.insert("a".to_string(), clip(0));
    assert_eq!(show_due_frame(&mut sprites, &mut reader, "a"), None);
    assert_eq!(show_due_frame(&mut sprites, &mut reader, "missing"), None);
}

#[test]
fn current_frame_property_reports_from_one() {
    let mut m = MovieState::new(1, 0, 0, 1);
    m.next_frame = Some(-3);
    assert_eq!(current_frame_property(&m), Some(1));
    m.next_frame = Some(4);
    assert_eq!(current_frame_property(&m), Some(5));
    m.next_frame = None;
    m.frame = 2;
    m.playing = true;
    assert_eq!(current_frame_property(&m), Some(4));
    m.playing = false;
    assert_eq!(current_frame_property(&m), Some(3));
    m.frame = u32::MAX as usize;
    assert_eq!(current_frame_property(&m), None);
}

#[test]
fn ended_sounds_let_their_movies_go() {
    let mut mixer = Mixer::new();
    let id = mixer
        .add_channel(vec![1, -1], SavedAudioSource::Raw(vec![0; 2]), 0, &"a".to_string(), false)
        .unwrap();
    let mut sprites = SpriteSystem::new();
    let mut a = MovieState::new(1, 0, 0, 1);
    a.sound_channel = Some(id);
    let mut b = MovieState::new(1, 0, 0, 2);
    b.sound_channel = Some(id + 7);
    sprites.insert("a".to_string(), a);
    sprites.insert("b".to_string(), b);
    release_ended_sounds(&mut sprites, &mixer);
    assert_eq!(sprites.get("a").unwrap().sound_channel, Some(id));
    assert_eq!(sprites.get("b").unwrap().sound_channel, None);
}
