use std::str::FromStr;

use native32emu::cheats::{
    format_option, format_sprites, format_vars, parse_rule, CheatManager, CheatParseError,
    CheatRule, FrameField, SpriteField,
};
use native32emu::sprite_system::{MovieState, SpriteSystem};

#[test]
fn parses_variable_cheat() {
    let rule = CheatRule::from_str("var:Lives=99").unwrap();
    assert_eq!(
        rule,
        CheatRule::Variable {
            name: "lives".to_string(),
            value: "99".to_string()
        }
    );
}

#[test]
fn parses_sprite_cheat() {
    let rule = CheatRule::from_str("sprite:player.visible=0").unwrap();
    assert_eq!(
        rule,
        CheatRule::Sprite {
            name: "player".to_string(),
            field: SpriteField::Visible,
            value: "0".to_string()
        }
    );
}

#[test]
fn configures_debug_logging() {
    let mut cheats = CheatManager::new();
    assert!(!cheats.debug_logging_enabled());
    assert_eq!(
        cheats.debug_interval_frames(),
        CheatManager::DEFAULT_DEBUG_INTERVAL_FRAMES
    );

    cheats.set_debug_logging(true, 0);
    assert!(cheats.debug_logging_enabled());
    assert_eq!(cheats.debug_interval_frames(), 1);
}

#[test]
fn parse_errors_name_their_cause() {
    assert_eq!(parse_rule("   "), Err(CheatParseError::Empty));
    assert_eq!(parse_rule("var:x"), Err(CheatParseError::MissingValue));
    assert_eq!(
        parse_rule("var:  = 3"),
        Err(CheatParseError::UnknownTarget("var:".to_string()))
    );
    assert_eq!(
        parse_rule("bogus=1"),
        Err(CheatParseError::UnknownTarget("bogus".to_string()))
    );
    assert_eq!(parse_rule("sprite:hero=1"), Err(CheatParseError::InvalidSpriteTarget));
    assert_eq!(parse_rule("sprite: .x=1"), Err(CheatParseError::InvalidSpriteTarget));
    assert_eq!(parse_rule("sprite:hero.size=1"), Err(CheatParseError::InvalidSpriteTarget));
    assert_eq!(parse_rule("frame:rewind=1"), Err(CheatParseError::InvalidFrameTarget));
}

#[test]
fn parses_movie_and_frame_targets() {
    assert_eq!(
        parse_rule(" movie:a.b.Current_Frame = 7 "),
        Ok(CheatRule::Sprite {
            name: "a.b".to_string(),
            field: SpriteField::Frame,
            value: "7".to_string()
        })
    );
    assert_eq!(
        parse_rule("frame:GOTO=12"),
        Ok(CheatRule::Frame {
            field: FrameField::Goto,
            value: "12".to_string()
        })
    );
    assert_eq!(
        parse_rule("var:SCORE=a=b"),
        Ok(CheatRule::Variable {
            name: "score".to_string(),
            value: "a=b".to_string()
        })
    );
}

#[test]
fn slots_fill_empty_and_number_upwards() {
    let mut cheats = CheatManager::new();
    assert!(cheats.is_empty());
    assert_eq!(cheats.add_code("var:a=1"), Ok(0));
    assert_eq!(cheats.add_code("var:b=2"), Ok(1));
    cheats.set_slot(7, false, "frame:playing=on").unwrap();
    assert_eq!(cheats.add_code("var:c=3"), Ok(8));
    assert_eq!(cheats.len(), 4);
    // A bad code leaves the slots as they were.
    assert_eq!(cheats.set_slot(0, true, "nonsense"), Err(CheatParseError::MissingValue));
    assert_eq!(cheats.len(), 4);
    // A blank code empties the slot.
    cheats.set_slot(7, true, "   ").unwrap();
    assert_eq!(cheats.len(), 3);
    let slot = cheats.slots().get(&8).unwrap();
    assert!(slot.enabled);
    assert_eq!(slot.code, "var:c=3");
    cheats.clear();
    assert!(cheats.is_empty());
}

#[test]
fn field_names_parse_ignoring_ascii_case() {
    assert_eq!(SpriteField::from_str("DePtH"), Ok(SpriteField::Depth));
    assert_eq!(SpriteField::from_str("z"), Err(CheatParseError::InvalidSpriteTarget));
    assert_eq!(FrameField::from_str("Current"), Ok(FrameField::Goto));
    assert_eq!(FrameField::from_str("x"), Err(CheatParseError::InvalidFrameTarget));
}

#[test]
fn formats_discoverable_targets() {
    let vars = vec![("lives".to_string(), "3".to_string())];
    assert_eq!(format_vars(&vars, 64), "[lives=3]");

    let mut sprites = SpriteSystem::new();
    sprites.insert("hero".to_string(), MovieState::new(7, 12, 34, 5));
    let formatted = format_sprites(&sprites, 64);
    assert!(formatted.contains("hero(movie=7"));
    assert!(formatted.contains("x=12"));
    assert!(formatted.contains("y=34"));
}

#[test]
fn formats_sorted_and_limited_lists() {
    let vars = vec![
        ("b".to_string(), "2".to_string()),
        ("a".to_string(), "1".to_string()),
        ("c".to_string(), "3".to_string()),
    ];
    assert_eq!(format_vars(&vars, 64), "[a=1, b=2, c=3]");
    assert_eq!(format_vars(&vars, 2), "[a=1, b=2, ... 1 more]");
    assert_eq!(format_vars(&vars, 0), "[... 3 more]");
    assert_eq!(format_vars(&Vec::new(), 5), "[]");

    let mut sprites = SpriteSystem::new();
    let mut m = MovieState::new(1, -2, 3, 4);
    m.next_frame = None;
    sprites.insert("z".to_string(), m);
    sprites.insert("a".to_string(), MovieState::new(9, 0, 0, 1));
    assert_eq!(
        format_sprites(&sprites, 64),
        "[a(movie=9 x=0 y=0 depth=1 frame=0 visible=true playing=true next=0), \
z(movie=1 x=-2 y=3 depth=4 frame=0 visible=true playing=true next=none)]"
    );
    assert_eq!(format_option(Some(-5)), "-5");
    assert_eq!(format_option(None), "none");
}

use native32emu::action_vm::ActionVM;
use native32emu::cheats::{apply_rule, flag_of};
use native32emu::frame_player::FramePlayer;

/// The number a cheat value reads as: its decimal value, truncated.
fn number_of(rule: &CheatRule) -> i64 {
    let value = match rule {
        CheatRule::Variable { value, .. } => value,
        CheatRule::Sprite { value, .. } => value,
        CheatRule::Frame { value, .. } => value,
    };
    value.trim().parse::<f64>().unwrap_or(0.0) as i64
}

fn apply_enabled(cheats: &CheatManager, vm: &mut ActionVM, sprites: &mut SpriteSystem, frame: &mut FramePlayer) {
    for slot in cheats.slots().values().filter(|slot| slot.enabled) {
        apply_rule(&slot.rule, number_of(&slot.rule), vm, sprites, frame);
    }
}

#[test]
fn enabled_slot_rules_apply() {
    let mut cheats = CheatManager::new();
    cheats.set_slot(0, true, "var:score=1000").unwrap();
    cheats.set_slot(1, false, "var:score=0").unwrap();
    let mut vm = ActionVM::new();
    let mut sprites = SpriteSystem::new();
    let mut frame = FramePlayer::new();
    apply_enabled(&cheats, &mut vm, &mut sprites, &mut frame);
    assert_eq!(vm.get_var("score").map(String::as_str), Some("1000"));
}

#[test]
fn sprite_and_frame_rules_apply() {
    let mut cheats = CheatManager::new();
    cheats.set_slot(0, true, "sprite:hero.x=42").unwrap();
    cheats.set_slot(1, true, "sprite:hero.playing=false").unwrap();
    cheats.set_slot(2, true, "frame:goto=7").unwrap();
    cheats.set_slot(3, true, "frame:playing=on").unwrap();
    let mut vm = ActionVM::new();
    let mut sprites = SpriteSystem::new();
    sprites.insert("hero".to_string(), MovieState::new(1, 0, 0, 0));
    let mut frame = FramePlayer::new();
    apply_enabled(&cheats, &mut vm, &mut sprites, &mut frame);
    let hero = sprites.get("hero").unwrap();
    assert_eq!(hero.x, 42);
    assert!(!hero.playing);
    assert_eq!(frame.next_frame, Some(7));
    assert!(frame.playing);
}

#[test]
fn sprite_rules_clamp_numbers() {
    let mut vm = ActionVM::new();
    let mut sprites = SpriteSystem::new();
    sprites.insert("hero".to_string(), MovieState::new(1, 0, 0, 0));
    let mut frame = FramePlayer::new();
    let x = CheatRule::from_str("sprite:hero.x=99999").unwrap();
    apply_rule(&x, 99999, &mut vm, &mut sprites, &mut frame);
    let depth = CheatRule::from_str("sprite:hero.depth=-5").unwrap();
    apply_rule(&depth, -5, &mut vm, &mut sprites, &mut frame);
    let next = CheatRule::from_str("sprite:hero.frame=-3").unwrap();
    apply_rule(&next, -3, &mut vm, &mut sprites, &mut frame);
    let hero = sprites.get("hero").unwrap();
    assert_eq!(hero.x, i16::MAX);
    assert_eq!(hero.depth, 0);
    assert_eq!(hero.next_frame, Some(0));
}

#[test]
fn rules_on_missing_sprites_do_nothing() {
    let mut vm = ActionVM::new();
    let mut sprites = SpriteSystem::new();
    let mut frame = FramePlayer::new();
    let rule = CheatRule::from_str("sprite:ghost.x=1").unwrap();
    apply_rule(&rule, 1, &mut vm, &mut sprites, &mut frame);
    assert!(sprites.get("ghost").is_none());
}

#[test]
fn flag_words_and_numbers() {
    assert!(!flag_of(" OFF ", 5));
    assert!(!flag_of("", 5));
    assert!(flag_of("Yes", 0));
    assert!(flag_of("2", 2));
    assert!(!flag_of("0.0", 0));
}
