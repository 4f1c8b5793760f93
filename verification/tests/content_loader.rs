use native32emu::content_loader::{entry_name_matches, ContentLoader};

#[test]
fn test_new_loader_has_no_pending() {
    let mut loader = ContentLoader::new();
    assert!(!loader.has_pending());
    assert!(loader.take_pending().is_none());
}

#[test]
fn content_loader_test_default_trait() {
    let loader = ContentLoader::default();
    assert!(!loader.has_pending());
}

#[test]
fn test_queue_load_simple_filename() {
    let mut loader = ContentLoader::new();
    loader.queue_load("level1.ssl");
    assert!(loader.has_pending());
    assert_eq!(loader.take_pending(), Some("level1.ssl".to_string()));
}

#[test]
fn test_queue_load_trims_trailing_spaces() {
    let mut loader = ContentLoader::new();
    loader.queue_load("BBLADE  /level1.ssl");
    assert_eq!(loader.take_pending(), Some("BBLADE/level1.ssl".to_string()));
}

#[test]
fn test_queue_load_trims_leading_spaces() {
    let mut loader = ContentLoader::new();
    loader.queue_load("  BBLADE/level1.ssl");
    assert_eq!(loader.take_pending(), Some("BBLADE/level1.ssl".to_string()));
}

#[test]
fn test_queue_load_removes_empty_segments() {
    let mut loader = ContentLoader::new();
    loader.queue_load("///BBLADE///level1.ssl///");
    assert_eq!(loader.take_pending(), Some("BBLADE/level1.ssl".to_string()));
}

#[test]
fn test_queue_load_empty_string() {
    let mut loader = ContentLoader::new();
    loader.queue_load("");
    assert!(!loader.has_pending(), "empty filename should not be queued");
}

#[test]
fn test_queue_load_only_spaces() {
    let mut loader = ContentLoader::new();
    loader.queue_load("   /   /   ");
    assert!(
        !loader.has_pending(),
        "all-whitespace path should not be queued"
    );
}

#[test]
fn test_queue_load_only_slashes() {
    let mut loader = ContentLoader::new();
    loader.queue_load("///");
    assert!(!loader.has_pending(), "all-slash path should not be queued");
}

#[test]
fn test_queue_load_complex_path() {
    let mut loader = ContentLoader::new();
    loader.queue_load("  Game Dir  /  Sub Dir  /  file.ssl  ");
    assert_eq!(
        loader.take_pending(),
        Some("Game Dir/Sub Dir/file.ssl".to_string())
    );
}

#[test]
fn test_take_pending_consumes() {
    let mut loader = ContentLoader::new();
    loader.queue_load("test.ssl");
    assert!(loader.take_pending().is_some());
    assert!(!loader.has_pending());
    assert!(loader.take_pending().is_none());
}

#[test]
fn test_queue_load_overwrites_previous() {
    let mut loader = ContentLoader::new();
    loader.queue_load("first.ssl");
    loader.queue_load("second.ssl");
    assert_eq!(loader.take_pending(), Some("second.ssl".to_string()));
}

#[test]
fn queue_load_trims_unicode_white_space() {
    let mut loader = ContentLoader::new();
    loader.queue_load("\u{3000}Dir\t/\u{a0}file.ssl\n");
    assert_eq!(loader.take_pending(), Some("Dir/file.ssl".to_string()));
}

#[test]
fn queue_load_of_empty_path_keeps_previous() {
    let mut loader = ContentLoader::new();
    loader.queue_load("first.ssl");
    loader.queue_load(" / ");
    assert_eq!(loader.take_pending(), Some("first.ssl".to_string()));
}

#[test]
fn normalize_keeps_inner_spaces() {
    assert_eq!(
        native32emu::content_loader::normalize_content_path(" a b / c "),
        Some("a b/c".to_string())
    );
    assert_eq!(native32emu::content_loader::normalize_content_path("//"), None);
}

#[test]
fn entry_names_match_without_case_or_padding() {
    assert!(entry_name_matches("EACT    ", "eact"));
    assert!(entry_name_matches(" Game.SMF", "game.smf "));
    assert!(!entry_name_matches("EACT", "EACT2"));
}
