use native32emu::file_loader::{FrameObject, Native32Reader, ObjectType};
use native32emu::image_decoder::RgbaImage;
use native32emu::renderer::Renderer;
use native32emu::sprite_system::{MovieState, SpriteSystem};

// A renderer with a single 1x1 opaque-red override bound to `gName0`,
// optionally following `leader`, which is created with the given visibility.
fn setup(leader: Option<&str>, leader_visible: bool) -> (Renderer, Native32Reader, SpriteSystem) {
    let mut renderer = Renderer::new(4, 4);
    let img = RgbaImage {
        width: 1,
        height: 1,
        pixels: vec![0xFFFF0000],
    };
    renderer.set_sprite_override("gName0".to_string(), img, leader.map(|s| s.to_string()));

    let reader = Native32Reader::new(Vec::new());

    let mut sprites = SpriteSystem::new();
    // movie index 1 so the empty reader safely returns no frames.
    sprites.insert("gName0".to_string(), MovieState::new(1, 0, 0, 17));
    if let Some(name) = leader {
        let mut panel = MovieState::new(1, 0, 0, 15);
        panel.visible = leader_visible;
        sprites.insert(name.to_string(), panel);
    }
    (renderer, reader, sprites)
}

#[test]
fn override_drawn_when_leader_visible() {
    let (mut renderer, mut reader, sprites) = setup(Some("listA0"), true);
    renderer.draw_frame(&mut reader, &sprites, &[]);
    assert_eq!(renderer.buffer[0], 0xFFFF0000, "override should be drawn");
}

#[test]
fn override_hidden_when_leader_hidden() {
    let (mut renderer, mut reader, sprites) = setup(Some("listA0"), false);
    renderer.draw_frame(&mut reader, &sprites, &[]);
    assert_eq!(
        renderer.buffer[0], 0xFF000000,
        "override should be skipped while its panel is hidden"
    );
}

#[test]
fn override_drawn_without_leader() {
    // No visibility leader: the override always draws.
    let (mut renderer, mut reader, sprites) = setup(None, false);
    renderer.draw_frame(&mut reader, &sprites, &[]);
    assert_eq!(renderer.buffer[0], 0xFFFF0000);
}

#[test]
fn deeper_override_covers_shallower_one_and_transparency_shows_through() {
    let mut renderer = Renderer::new(3, 2);
    renderer.screen_x = 1;
    renderer.set_sprite_override(
        "back".to_string(),
        RgbaImage { width: 2, height: 1, pixels: vec![0xFF00FF00, 0xFF00FF00] },
        None,
    );
    renderer.set_sprite_override(
        "front".to_string(),
        RgbaImage { width: 2, height: 1, pixels: vec![0x00FFFFFF, 0xFF0000FF] },
        None,
    );
    let mut reader = Native32Reader::new(Vec::new());
    let mut sprites = SpriteSystem::new();
    // Inserted front first: depth decides the order, not insertion.
    sprites.insert("front".to_string(), MovieState::new(1, 0, 1, 9));
    sprites.insert("back".to_string(), MovieState::new(1, 0, 1, 2));
    renderer.draw_frame(&mut reader, &sprites, &[]);
    assert_eq!(renderer.buffer, vec![
        0xFF000000, 0xFF000000, 0xFF000000,
        0xFF000000, 0xFF00FF00, 0xFF0000FF,
    ]);
    assert_eq!(renderer.sprite_override_count(), 2);
    renderer.clear_sprite_overrides();
    assert_eq!(renderer.sprite_override_count(), 0);
}

#[test]
fn image_objects_without_images_draw_nothing() {
    let mut renderer = Renderer::new(2, 2);
    let mut reader = Native32Reader::new(Vec::new());
    let sprites = SpriteSystem::new();
    let objs = vec![FrameObject { obj_type: ObjectType::Image, index: 1, x: 0, y: 0, depth: 0, name: None }];
    renderer.draw_frame(&mut reader, &sprites, &objs);
    assert_eq!(renderer.buffer, vec![0xFF000000; 4]);
    renderer.resize(3, 1);
    assert_eq!(renderer.buffer.len(), 3);
}
