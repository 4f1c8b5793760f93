use native32emu::input_handler::{parse_keycode, InputHandler, KEYCODE_A, KEYCODE_B};

#[test]
fn test_new_handler_has_no_pressed_buttons() {
    let handler = InputHandler::new();
    assert!(handler.get_pressed_buttons().is_empty());
}

#[test]
fn input_handler_test_default_trait() {
    let handler = InputHandler::default();
    assert!(handler.get_pressed_buttons().is_empty());
}

#[test]
fn test_set_buttons_stores_keycodes() {
    let mut handler = InputHandler::new();
    handler.set_buttons(&[0x0200, 0x1c00]);
    let pressed = handler.get_pressed_buttons();
    assert_eq!(pressed.len(), 2);
    assert!(pressed.contains(&0x0200));
    assert!(pressed.contains(&0x1c00));
}

#[test]
fn test_set_buttons_clears_previous() {
    let mut handler = InputHandler::new();
    handler.set_buttons(&[0x0200]);
    handler.set_buttons(&[0x0400]);
    let pressed = handler.get_pressed_buttons();
    assert_eq!(pressed.len(), 1);
    assert!(pressed.contains(&0x0400));
    assert!(!pressed.contains(&0x0200));
}

#[test]
fn test_set_buttons_empty_clears_all() {
    let mut handler = InputHandler::new();
    handler.set_buttons(&[0x0200, 0x0400]);
    handler.set_buttons(&[]);
    assert!(handler.get_pressed_buttons().is_empty());
}

#[test]
fn test_set_buttons_deduplicates() {
    let mut handler = InputHandler::new();
    handler.set_buttons(&[0x0200, 0x0200, 0x0200]);
    let pressed = handler.get_pressed_buttons();
    assert_eq!(pressed.len(), 1);
}

#[test]
fn test_set_buttons_with_all_directions() {
    let mut handler = InputHandler::new();
    handler.set_buttons(&[0x0200, 0x0400, 0x1c00, 0x1e00, 0x4000, 0x8800]);
    assert_eq!(handler.get_pressed_buttons().len(), 6);
}

#[test]
fn test_initial_press_is_active() {
    let mut handler = InputHandler::new();
    handler.set_buttons(&[0x0200]);
    assert!(handler.get_pressed_buttons().contains(&0x0200));
}

#[test]
fn test_held_key_goes_quiet_during_repeat_delay() {
    let mut handler = InputHandler::new();
    handler.set_repeat_timing(12, 3);
    handler.set_buttons(&[0x0200]);
    assert!(handler.get_pressed_buttons().contains(&0x0200));
    for _ in 1..12 {
        handler.set_buttons(&[0x0200]);
        assert!(
            handler.get_pressed_buttons().is_empty(),
            "held key must be quiet during the repeat delay"
        );
    }
}

#[test]
fn test_held_key_repeats_after_delay() {
    let mut handler = InputHandler::new();
    handler.set_repeat_timing(12, 3);
    for frame in 0..=12 {
        handler.set_buttons(&[0x0200]);
        let active = handler.get_pressed_buttons().contains(&0x0200);
        let expected = frame == 0 || frame == 12;
        assert_eq!(active, expected, "unexpected activity on frame {frame}");
    }
    for frame in 13..=15 {
        handler.set_buttons(&[0x0200]);
        let active = handler.get_pressed_buttons().contains(&0x0200);
        assert_eq!(active, frame == 15, "unexpected activity on frame {frame}");
    }
}

#[test]
fn test_release_resets_repeat_state() {
    let mut handler = InputHandler::new();
    handler.set_repeat_timing(12, 3);
    for _ in 0..5 {
        handler.set_buttons(&[0x0200]);
    }
    handler.set_buttons(&[]);
    assert!(handler.get_pressed_buttons().is_empty());
    handler.set_buttons(&[0x0200]);
    assert!(handler.get_pressed_buttons().contains(&0x0200));
}

#[test]
fn test_swap_ab_swaps_a_and_b() {
    let mut handler = InputHandler::new();
    handler.set_swap_ab(true);
    handler.set_buttons(&[KEYCODE_A]);
    assert!(handler.get_pressed_buttons().contains(&KEYCODE_B));
    assert!(!handler.get_pressed_buttons().contains(&KEYCODE_A));
}

#[test]
fn test_swap_ab_leaves_directions_untouched() {
    let mut handler = InputHandler::new();
    handler.set_swap_ab(true);
    handler.set_buttons(&[0x0200, KEYCODE_B]);
    let pressed = handler.get_pressed_buttons();
    assert!(pressed.contains(&0x0200));
    assert!(pressed.contains(&KEYCODE_A));
}

#[test]
fn test_swap_ab_disabled_by_default() {
    let mut handler = InputHandler::new();
    handler.set_buttons(&[KEYCODE_A]);
    assert!(handler.get_pressed_buttons().contains(&KEYCODE_A));
}

#[test]
fn repeat_period_of_zero_counts_as_one() {
    let mut handler = InputHandler::new();
    handler.set_repeat_timing(2, 0);
    let mut seen = Vec::new();
    for _ in 0..5 {
        handler.set_buttons(&[0x0400]);
        seen.push(handler.get_pressed_buttons().contains(&0x0400));
    }
    assert_eq!(seen, vec![true, false, true, true, true]);
}

#[test]
fn held_keys_can_always_be_counted_at_first() {
    let mut handler = InputHandler::new();
    assert!(handler.can_count_frame());
    handler.set_buttons(&[0x0200, 0x0400]);
    assert!(handler.can_count_frame());
}

#[test]
fn keys_register_in_order_of_first_press() {
    let mut handler = InputHandler::new();
    handler.set_buttons(&[0x0400, 0x0200, 0x0400]);
    assert_eq!(handler.get_pressed_buttons(), vec![0x0400, 0x0200]);
}

#[test]
fn parse_keycode_reads_hex_after_prefixes() {
    assert_eq!(parse_keycode("0x0200"), Some(0x0200));
    assert_eq!(parse_keycode("1c00"), Some(0x1c00));
    assert_eq!(parse_keycode("0x0x10"), Some(0x10));
    assert_eq!(parse_keycode("+1F"), Some(0x1f));
    assert_eq!(parse_keycode("0xFFFF"), Some(0xFFFF));
}

#[test]
fn parse_keycode_refuses_bad_input() {
    assert_eq!(parse_keycode("0x10000"), None);
    assert_eq!(parse_keycode(""), None);
    assert_eq!(parse_keycode("0x"), None);
    assert_eq!(parse_keycode("+"), None);
    assert_eq!(parse_keycode("zz"), None);
    assert_eq!(parse_keycode("-1"), None);
    assert_eq!(parse_keycode("0X10"), None);
}
