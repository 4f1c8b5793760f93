use native32emu::frame_player::FramePlayer;


    #[test]
    fn test_initial_state() {
        let fp = FramePlayer::new();
        assert_eq!(fp.current_frame, 0);
        assert!(fp.playing);
        assert_eq!(fp.next_frame, Some(1));
    }

    #[test]
    fn frame_player_test_default_trait() {
        let fp = FramePlayer::default();
        assert_eq!(fp.current_frame, 0);
        assert!(fp.playing);
    }

    #[test]
    fn test_take_next_frame_consumes() {
        let mut fp = FramePlayer::new();
        assert_eq!(fp.take_next_frame(), Some(1));
        assert!(fp.next_frame.is_none());
    }

    #[test]
    fn test_take_next_frame_returns_none_when_empty() {
        let mut fp = FramePlayer::new();
        fp.take_next_frame();
        assert_eq!(fp.take_next_frame(), None);
    }

    #[test]
    fn test_has_pending_frame() {
        let mut fp = FramePlayer::new();
        assert!(fp.has_pending_frame());
        fp.take_next_frame();
        assert!(!fp.has_pending_frame());
    }

    #[test]
    fn test_tick_advances_when_playing_and_no_pending() {
        let mut fp = FramePlayer::new();
        fp.current_frame = 5;
        fp.take_next_frame(); // consume initial Some(1)
        fp.tick();
        assert_eq!(fp.next_frame, Some(6)); // current_frame + 1
    }

    #[test]
    fn test_tick_does_not_advance_when_paused() {
        let mut fp = FramePlayer::new();
        fp.playing = false;
        fp.take_next_frame(); // consume initial Some(1)
        fp.tick();
        assert!(fp.next_frame.is_none());
    }

    #[test]
    fn test_tick_does_not_advance_when_pending_exists() {
        let mut fp = FramePlayer::new();
        // next_frame is Some(1) initially
        fp.tick();
        // Should still be Some(1), not overwritten
        assert_eq!(fp.next_frame, Some(1));
    }

    #[test]
    fn test_goto_sets_frame_and_playing() {
        let mut fp = FramePlayer::new();
        fp.goto(42, false);
        assert_eq!(fp.next_frame, Some(42));
        assert!(!fp.playing);

        fp.goto(100, true);
        assert_eq!(fp.next_frame, Some(100));
        assert!(fp.playing);
    }

    #[test]
    fn test_goto_frame_zero() {
        let mut fp = FramePlayer::new();
        fp.goto(0, true);
        assert_eq!(fp.next_frame, Some(0));
    }

    #[test]
    fn test_full_tick_cycle() {
        let mut fp = FramePlayer::new();
        // Initial: frame 0, next=Some(1)
        assert_eq!(fp.current_frame, 0);

        // Take the pending frame
        let next = fp.take_next_frame();
        assert_eq!(next, Some(1));

        // Simulate emulator setting current_frame
        fp.current_frame = 1;

        // Tick should advance to 2
        fp.tick();
        assert_eq!(fp.next_frame, Some(2));
    }
