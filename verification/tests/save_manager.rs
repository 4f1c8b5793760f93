use native32emu::save_manager::SaveManager;

#[test]
fn test_save_path_has_ssl_sav_suffix() {
    let game_path = "/some/path/game.ssl";
    let sm = SaveManager::new(game_path);
    assert_eq!(sm.save_path, "/some/path/game.ssl.ssl_sav");
}
