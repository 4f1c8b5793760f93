use std::collections::HashSet;

use native32emu::gamepad_overlay::{GamepadOverlay, KEY_A, KEY_UP};

fn draw(pressed: &[u16]) -> Vec<u32> {
    let mut buffer = vec![0xFF000000u32; 100 * 100];
    let keys: HashSet<u16> = pressed.iter().cloned().collect();
    GamepadOverlay::draw(&mut buffer, 100, 100, 1, &keys);
    buffer
}

fn at(buffer: &[u32], x: usize, y: usize) -> u32 {
    buffer[y * 100 + x]
}

#[test]
fn overlay_leaves_the_picture_outside_the_pads() {
    let buffer = draw(&[]);
    assert_eq!(at(&buffer, 50, 10), 0xFF000000);
    assert_eq!(at(&buffer, 0, 0), 0xFF000000);
}

#[test]
fn overlay_darkens_under_the_pad_backdrop() {
    let buffer = draw(&[]);
    // 0x1A blended at alpha 0xAA over black: 26 * 170 / 255 = 17.
    assert_eq!(at(&buffer, 3, 69), 0xFF111111);
}

#[test]
fn overlay_dpad_centre_is_idle() {
    let buffer = draw(&[]);
    assert_eq!(at(&buffer, 17, 83), 0xFF505050);
}

#[test]
fn overlay_lights_held_keys() {
    let idle = draw(&[]);
    assert_eq!(at(&idle, 17, 69), 0xFF505050);
    assert_eq!(at(&idle, 94, 86), 0xFF505050);
    let held = draw(&[KEY_UP, KEY_A]);
    assert_eq!(at(&held, 17, 69), 0xFF00DDFF);
    assert_eq!(at(&held, 94, 86), 0xFF00EE44);
}

#[test]
fn overlay_draws_arrow_glyph() {
    let buffer = draw(&[]);
    // The up arrow's tip: the middle column of the glyph's first row.
    assert_eq!(at(&buffer, 18, 72), 0xFFCCCCCC);
    assert_eq!(at(&buffer, 16, 72), 0xFF505050);
}
