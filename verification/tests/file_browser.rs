use native32emu::file_browser::{game_stem, FileBrowser};

fn listing(names: &[&str]) -> Vec<String> {
    names.iter().map(|s| s.to_string()).collect()
}

#[test]
fn counts_only_smf_files() {
    let mut fb = FileBrowser::new();
    let files = listing(&["EBBLADE.smf", "EBBLADE.dat", "AGUNFIRE.smf", "notes.txt"]);
    assert_eq!(fb.file_count(&files), 2);
}

#[test]
fn iterates_files_sorted_ignoring_case() {
    let mut fb = FileBrowser::default();
    let files = listing(&["zeta.SMF", "EBBLADE.smf", "agunfire.smf", "Beta.Smf"]);
    assert_eq!(fb.first_file(&files), "agunfire");
    assert_eq!(fb.next_file(), "Beta");
    assert_eq!(fb.next_file(), "EBBLADE");
    assert_eq!(fb.next_file(), "zeta");
    // Exhausted -> empty string.
    assert_eq!(fb.next_file(), "");
    assert_eq!(fb.next_file(), "");
}

#[test]
fn missing_directory_yields_nothing() {
    let mut fb = FileBrowser::new();
    assert_eq!(fb.file_count(&Vec::new()), 0);
    assert_eq!(fb.first_file(&Vec::new()), "");
}

#[test]
fn equal_lowercase_names_keep_listing_order() {
    let mut fb = FileBrowser::new();
    let files = listing(&["b.smf", "A.smf", "a.smf"]);
    assert_eq!(fb.first_file(&files), "A");
    assert_eq!(fb.next_file(), "a");
    assert_eq!(fb.next_file(), "b");
}

#[test]
fn stems_follow_the_last_dot() {
    assert_eq!(game_stem("a.b.smf"), Some("a.b".to_string()));
    assert_eq!(game_stem(".smf"), None);
    assert_eq!(game_stem("game.smfx"), None);
    assert_eq!(game_stem("game"), None);
    assert_eq!(game_stem("x.sMf"), Some("x".to_string()));
}
