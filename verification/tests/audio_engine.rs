use native32emu::audio_engine::{raw_pcm_to_stereo, PlaybackChannel, SavedAudioSource, SavedChannel};

#[test]
fn playback_channel_honors_finite_and_infinite_loops() {
    let state = SavedChannel {
        id: 1,
        owner: "finite".to_string(),
        source: SavedAudioSource::DecodedPcm(vec![100, 100]),
        position: 0,
        loops_remaining: Some(2),
        is_music: false,
    };
    let mut finite = PlaybackChannel {
        state,
        samples: vec![100, 100],
        finished: false,
    };
    assert_eq!(finite.next_frame(), Some((100, 100)));
    assert_eq!(finite.next_frame(), Some((100, 100)));
    assert_eq!(finite.next_frame(), Some((100, 100)));
    assert_eq!(finite.next_frame(), None);

    let mut infinite = PlaybackChannel {
        state: SavedChannel {
            id: 2,
            owner: "infinite".to_string(),
            source: SavedAudioSource::DecodedPcm(vec![200, 200]),
            position: 0,
            loops_remaining: None,
            is_music: true,
        },
        samples: vec![200, 200],
        finished: false,
    };
    for _ in 0..100 {
        assert_eq!(infinite.next_frame(), Some((200, 200)));
    }
}

#[test]
fn empty_channel_finishes_at_once() {
    let mut ch = PlaybackChannel {
        state: SavedChannel {
            id: 3,
            owner: "empty".to_string(),
            source: SavedAudioSource::Raw(vec![]),
            position: 0,
            loops_remaining: None,
            is_music: false,
        },
        samples: vec![],
        finished: false,
    };
    assert_eq!(ch.next_frame(), None);
    assert!(ch.finished);
}

#[test]
fn raw_pcm_doubles_each_sample_and_drops_odd_byte() {
    let data = [0x01, 0x00, 0xff, 0xff, 0x7f];
    assert_eq!(raw_pcm_to_stereo(&data), vec![1, 1, -1, -1]);
    assert!(raw_pcm_to_stereo(&[]).is_empty());
}

use native32emu::audio_engine::{split_sound_value, Mixer, MAX_SOUND_EFFECTS};

fn raw(owner: &str) -> (Vec<i16>, SavedAudioSource, String) {
    (vec![100, -100, 200, -200], SavedAudioSource::Raw(vec![0; 4]), owner.to_string())
}

#[test]
fn mixer_hands_out_increasing_channel_ids() {
    let mut mixer = Mixer::new();
    let (s, src, o) = raw("a");
    assert_eq!(mixer.add_channel(s, src, 0, &o, false), Some(1));
    let (s, src, o) = raw("b");
    assert_eq!(mixer.add_channel(s, src, 0, &o, false), Some(2));
    assert!(mixer.is_channel_playing(1));
    assert!(!mixer.is_channel_playing(3));
}

#[test]
fn mixer_refuses_effects_beyond_the_limit_but_takes_music() {
    let mut mixer = Mixer::new();
    for _ in 0..MAX_SOUND_EFFECTS {
        let (s, src, o) = raw("fx");
        assert!(mixer.add_channel(s, src, 0xFF, &o, false).is_some());
    }
    let (s, src, o) = raw("fx");
    assert_eq!(mixer.add_channel(s, src, 0xFF, &o, false), None);
    let (s, src, o) = raw("music");
    assert!(mixer.add_channel(s, src, 0xFF, &o, true).is_some());
    assert_eq!(mixer.channels.len(), MAX_SOUND_EFFECTS + 1);
}

#[test]
fn mixer_music_replaces_music() {
    let mut mixer = Mixer::new();
    let (s, src, o) = raw("m1");
    let first = mixer.add_channel(s, src, 0xFF, &o, true).unwrap();
    let (s, src, o) = raw("m2");
    let second = mixer.add_channel(s, src, 0xFF, &o, true).unwrap();
    assert!(!mixer.is_channel_playing(first));
    assert!(mixer.is_channel_playing(second));
    assert_eq!(mixer.channels.len(), 1);
}

#[test]
fn mixer_refuses_empty_sounds() {
    let mut mixer = Mixer::new();
    assert_eq!(mixer.add_channel(Vec::new(), SavedAudioSource::Raw(Vec::new()), 0, "x", false), None);
    assert!(mixer.channels.is_empty());
}

#[test]
fn mixer_sums_channels_and_drops_finished_ones() {
    let mut mixer = Mixer::new();
    let (s, src, o) = raw("a");
    mixer.add_channel(s, src, 0, &o, false);
    mixer.add_channel(vec![1, 2], SavedAudioSource::Raw(vec![0; 2]), 0xFF, "b", false);
    let mixed = mixer.mix(3);
    assert_eq!(mixed, vec![(101, -98), (201, -198), (1, 2)]);
    // The first channel ran out on the third frame; the looping one plays on.
    assert_eq!(mixer.channels.len(), 1);
    assert!(mixer.is_playing());
}

#[test]
fn mixer_stops_by_owner() {
    let mut mixer = Mixer::new();
    let (s, src, o) = raw("a");
    mixer.add_channel(s, src, 0, &o, false);
    let (s, src, o) = raw("b");
    mixer.add_channel(s, src, 0, &o, false);
    mixer.stop_for_movie("a");
    assert_eq!(mixer.channels.len(), 1);
    assert_eq!(mixer.channels[0].state.owner, "b");
    mixer.stop_all();
    assert!(!mixer.is_playing());
}

#[test]
fn mixer_frames_per_tick_carry_the_fraction() {
    let mut mixer = Mixer::new();
    assert_eq!(mixer.frames_for_tick(11025), 367);
    assert_eq!(mixer.sample_frame_remainder, 15);
    assert_eq!(mixer.frames_for_tick(11025), 368);
    assert_eq!(mixer.sample_frame_remainder, 0);
}

#[test]
fn sound_values_split_into_repeat_and_number() {
    assert_eq!(split_sound_value(0x0305), (3, 5));
    assert_eq!(split_sound_value(0xFF01), (0xFF, 1));
}
