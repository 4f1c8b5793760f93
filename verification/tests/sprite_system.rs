use native32emu::file_loader::{FrameObject, ObjectType};
use native32emu::sprite_system::{MovieState, SpriteSystem};

fn make_movie_object(name: &str, index: u16, x: i16, y: i16, depth: u16) -> FrameObject {
    FrameObject {
        obj_type: ObjectType::Movie,
        index,
        x,
        y,
        depth,
        name: Some(name.to_string()),
    }
}

#[test]
fn test_new_system_is_empty() {
    let ss = SpriteSystem::new();
    assert_eq!(ss.sprites.len(), 0);
}

#[test]
fn sprite_system_test_default_trait() {
    let ss = SpriteSystem::default();
    assert_eq!(ss.sprites.len(), 0);
}

#[test]
fn test_insert_and_get() {
    let mut ss = SpriteSystem::new();
    let state = MovieState::new(1, 10, 20, 5);
    ss.insert("hero".to_string(), state);

    let movie = ss.get("hero").unwrap();
    assert_eq!(movie.movie, 1);
    assert_eq!(movie.x, 10);
    assert_eq!(movie.y, 20);
    assert_eq!(movie.depth, 5);
}

#[test]
fn test_get_nonexistent_returns_none() {
    let ss = SpriteSystem::new();
    assert!(ss.get("missing").is_none());
}

#[test]
fn test_contains_key() {
    let mut ss = SpriteSystem::new();
    assert!(!ss.contains_key("a"));
    ss.insert("a".to_string(), MovieState::new(1, 0, 0, 0));
    assert!(ss.contains_key("a"));
}

#[test]
fn test_remove() {
    let mut ss = SpriteSystem::new();
    ss.insert("a".to_string(), MovieState::new(1, 0, 0, 0));
    let removed = ss.remove("a");
    assert!(removed.is_some());
    assert_eq!(removed.unwrap().movie, 1);
    assert!(!ss.contains_key("a"));
}

#[test]
fn test_remove_nonexistent_returns_none() {
    let mut ss = SpriteSystem::new();
    assert!(ss.remove("missing").is_none());
}

#[test]
fn test_update_for_frame_adds_new_movies() {
    let mut ss = SpriteSystem::new();
    let objects = vec![make_movie_object("hero", 1, 10, 20, 0)];
    ss.update_for_frame(&objects);

    assert!(ss.contains_key("hero"));
    let movie = ss.get("hero").unwrap();
    assert_eq!(movie.movie, 1);
    assert_eq!(movie.x, 10);
    assert_eq!(movie.y, 20);
    assert!(movie.visible);
    assert!(movie.playing);
    assert!(!movie.cloned);
    assert_eq!(movie.next_frame, Some(0));
}

#[test]
fn test_update_for_frame_preserves_existing_state() {
    let mut ss = SpriteSystem::new();
    let mut state = MovieState::new(1, 0, 0, 0);
    state.frame = 42;
    state.visible = false;
    ss.insert("hero".to_string(), state);

    // Same movie in new frame
    let objects = vec![make_movie_object("hero", 1, 10, 20, 0)];
    ss.update_for_frame(&objects);

    let movie = ss.get("hero").unwrap();
    assert_eq!(movie.frame, 42, "frame should be preserved");
    assert!(!movie.visible, "visibility should be preserved");
}

#[test]
fn test_update_for_frame_preserves_renamed_instances_by_identity() {
    let mut ss = SpriteSystem::new();
    let objects = vec![make_movie_object("q0n0", 7, 10, 20, 3)];
    ss.update_for_frame(&objects);

    let mut renamed = ss.remove("q0n0").unwrap();
    renamed.y = -124;
    ss.insert("qn0".to_string(), renamed);

    ss.update_for_frame(&objects);

    assert!(ss.contains_key("qn0"));
    assert!(!ss.contains_key("q0n0"));
    assert_eq!(ss.get("qn0").unwrap().y, -124);
}

#[test]
fn test_update_for_frame_removes_non_cloned_absent_movies() {
    let mut ss = SpriteSystem::new();
    ss.insert("old".to_string(), MovieState::new(1, 0, 0, 0));

    // Empty frame - "old" should be removed
    ss.update_for_frame(&[]);
    assert!(!ss.contains_key("old"));
}

#[test]
fn test_update_for_frame_keeps_cloned_movies() {
    let mut ss = SpriteSystem::new();
    let mut state = MovieState::new(1, 0, 0, 0);
    state.cloned = true;
    ss.insert("clone".to_string(), state);

    ss.update_for_frame(&[]);
    assert!(ss.contains_key("clone"), "cloned movie should survive");
}

#[test]
fn test_update_for_frame_ignores_non_movie_objects() {
    let mut ss = SpriteSystem::new();
    let objects = vec![FrameObject {
        obj_type: ObjectType::Image,
        index: 1,
        x: 0,
        y: 0,
        depth: 0,
        name: Some("not_a_movie".to_string()),
    }];
    ss.update_for_frame(&objects);
    assert!(!ss.contains_key("not_a_movie"));
}

#[test]
fn test_update_for_frame_multiple_movies() {
    let mut ss = SpriteSystem::new();
    let objects = vec![
        make_movie_object("a", 1, 0, 0, 0),
        make_movie_object("b", 2, 10, 20, 1),
        make_movie_object("c", 3, 30, 40, 2),
    ];
    ss.update_for_frame(&objects);
    assert_eq!(ss.sprites.len(), 3);
}

#[test]
fn test_movie_state_new_defaults() {
    let ms = MovieState::new(5, 100, 200, 10);
    assert_eq!(ms.movie, 5);
    assert_eq!(ms.x, 100);
    assert_eq!(ms.y, 200);
    assert_eq!(ms.depth, 10);
    assert_eq!(ms.frame, 0);
    assert!(ms.visible);
    assert!(ms.playing);
    assert!(!ms.cloned);
    assert!(ms.sound_channel.is_none());
    assert_eq!(ms.next_frame, Some(0));
}

#[test]
fn test_iter_and_iter_mut() {
    let mut ss = SpriteSystem::new();
    ss.insert("a".to_string(), MovieState::new(1, 0, 0, 0));
    ss.insert("b".to_string(), MovieState::new(2, 0, 0, 0));

    let names: Vec<&String> = ss.iter().map(|(name, _)| name).collect();
    assert_eq!(names.len(), 2);
    assert!(names.contains(&&"a".to_string()));
    assert!(names.contains(&&"b".to_string()));

    // Mutate via iter_mut
    for (_, movie) in ss.iter_mut() {
        movie.frame = 99;
    }
    assert_eq!(ss.get("a").unwrap().frame, 99);
    assert_eq!(ss.get("b").unwrap().frame, 99);
}

#[test]
fn test_get_mut() {
    let mut ss = SpriteSystem::new();
    ss.insert("hero".to_string(), MovieState::new(1, 0, 0, 0));

    if let Some(movie) = ss.get_mut("hero") {
        movie.x = 42;
        movie.y = 84;
    }
    assert_eq!(ss.get("hero").unwrap().x, 42);
    assert_eq!(ss.get("hero").unwrap().y, 84);
}

#[test]
fn test_update_removes_old_and_adds_new() {
    let mut ss = SpriteSystem::new();
    ss.insert("old".to_string(), MovieState::new(1, 0, 0, 0));

    let objects = vec![make_movie_object("new", 2, 0, 0, 0)];
    ss.update_for_frame(&objects);

    assert!(!ss.contains_key("old"));
    assert!(ss.contains_key("new"));
}

#[test]
fn test_movie_without_name_is_skipped() {
    let mut ss = SpriteSystem::new();
    let objects = vec![FrameObject {
        obj_type: ObjectType::Movie,
        index: 1,
        x: 0,
        y: 0,
        depth: 0,
        name: None, // no name
    }];
    ss.update_for_frame(&objects);
    assert_eq!(ss.sprites.len(), 0);
}

#[test]
fn tick_advances_on_even_ticks_only() {
    let mut ss = SpriteSystem::new();
    let mut state = MovieState::new(1, 0, 0, 0);
    state.frame = 4;
    state.next_frame = None;
    ss.insert("m".to_string(), state);
    ss.tick(3);
    assert_eq!(ss.get("m").unwrap().next_frame, None);
    ss.tick(2);
    assert_eq!(ss.get("m").unwrap().next_frame, Some(5));
    // A frame is already pending: a second tick changes nothing.
    ss.tick(2);
    assert_eq!(ss.get("m").unwrap().next_frame, Some(5));
}

#[test]
fn tick_skips_paused_and_sounding_movies() {
    let mut ss = SpriteSystem::new();
    let mut paused = MovieState::new(1, 0, 0, 0);
    paused.next_frame = None;
    paused.playing = false;
    let mut sounding = MovieState::new(2, 0, 0, 0);
    sounding.next_frame = None;
    sounding.sound_channel = Some(3);
    ss.insert("p".to_string(), paused);
    ss.insert("s".to_string(), sounding);
    ss.tick(0);
    assert_eq!(ss.get("p").unwrap().next_frame, None);
    assert_eq!(ss.get("s").unwrap().next_frame, None);
}

#[test]
fn insert_replaces_existing_name_in_place() {
    let mut ss = SpriteSystem::new();
    ss.insert("a".to_string(), MovieState::new(1, 0, 0, 0));
    ss.insert("b".to_string(), MovieState::new(2, 0, 0, 0));
    ss.insert("a".to_string(), MovieState::new(3, 0, 0, 0));
    assert_eq!(ss.sprites.len(), 2);
    assert_eq!(ss.sprites[0].0, "a");
    assert_eq!(ss.get("a").unwrap().movie, 3);
    assert_eq!(ss.get("b").unwrap().movie, 2);
}

#[test]
fn update_for_frame_keeps_named_and_cloned_drops_rest() {
    let mut ss = SpriteSystem::new();
    let mut kept = MovieState::new(1, 0, 0, 0);
    kept.frame = 7;
    let mut clone = MovieState::new(2, 0, 0, 0);
    clone.cloned = true;
    ss.insert("kept".to_string(), kept);
    ss.insert("gone".to_string(), MovieState::new(5, 0, 0, 9));
    ss.insert("clone".to_string(), clone);
    ss.update_for_frame(&[make_movie_object("kept", 1, 0, 0, 0)]);
    assert_eq!(ss.sprites.len(), 2);
    assert_eq!(ss.get("kept").unwrap().frame, 7);
    assert!(ss.contains_key("clone"));
    assert!(!ss.contains_key("gone"));
}

#[test]
fn set_playing_changes_only_the_named_instance() {
    let mut sprites = SpriteSystem::new();
    sprites.insert("a".to_string(), MovieState::new(1, 0, 0, 1));
    sprites.set_playing("a", false);
    assert!(!sprites.get("a").unwrap().playing);
    sprites.set_playing("missing", false);
    assert!(sprites.get("missing").is_none());
}

#[test]
fn clone_instance_copies_position_and_play_state() {
    let mut sprites = SpriteSystem::new();
    let mut orig = MovieState::new(3, 10, -4, 1);
    orig.frame = 6;
    orig.playing = false;
    sprites.insert("src".to_string(), orig);
    sprites.clone_instance("src", "copy".to_string(), 9);
    let c = *sprites.get("copy").unwrap();
    assert_eq!((c.movie, c.x, c.y, c.depth), (3, 10, -4, 9));
    assert_eq!(c.frame, 0);
    assert!(c.visible && c.cloned && !c.playing);
    assert_eq!(c.next_frame, Some(6));
    sprites.clone_instance("none", "other".to_string(), 2);
    assert!(sprites.get("other").is_none());
}
