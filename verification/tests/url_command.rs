use native32emu::menu_text::parse_i32_or_zero;
use native32emu::url_command::{url_action, UrlAction};

fn chars(s: &str) -> Vec<char> {
    s.chars().collect()
}

#[test]
fn get_context_reads_null_before_any_save() {
    assert_eq!(
        url_action("Result", "GetContext", None),
        UrlAction::SetVar { name: "result".to_string(), value: "NULL".to_string() }
    );
    assert_eq!(
        url_action("Result", "GetContext", Some("menu/2")),
        UrlAction::SetVar { name: "result".to_string(), value: "menu/2".to_string() }
    );
}

#[test]
fn save_context_keeps_the_url() {
    assert_eq!(
        url_action("menu/2", "SaveContext", None),
        UrlAction::SaveContext { context: "menu/2".to_string() }
    );
}

#[test]
fn file_commands_take_the_rest_of_the_target() {
    assert_eq!(
        url_action("Count", "GetFileNum+/MENU/GAMES", None),
        UrlAction::CountFiles { var: "count".to_string(), menu: "/MENU/GAMES".to_string() }
    );
    assert_eq!(
        url_action("First", "GetFirstFile+a+b", None),
        UrlAction::FirstFile { var: "first".to_string(), menu: "a+b".to_string() }
    );
    assert_eq!(url_action("Next", "GetNextFile", None), UrlAction::NextFile { var: "next".to_string() });
    assert_eq!(
        url_action("Count", "GetFileNum", None),
        UrlAction::CountFiles { var: "count".to_string(), menu: String::new() }
    );
}

#[test]
fn str_sub_picks_a_field() {
    assert_eq!(
        url_action("Out", "FHUI_StrSub+red,green,blue+,+2", None),
        UrlAction::SetVar { name: "out".to_string(), value: "green".to_string() }
    );
    assert_eq!(
        url_action("Out", "FHUI_StrSub+red", None),
        UrlAction::SetVar { name: "out".to_string(), value: String::new() }
    );
}

#[test]
fn start_game_loads_the_smf_file() {
    assert_eq!(
        url_action("/EACT    /EBBLADE", "StartGame", None),
        UrlAction::QueueLoad { path: "/EACT    /EBBLADE.smf".to_string() }
    );
}

#[test]
fn play_next_queues_videos_then_content() {
    assert_eq!(
        url_action("logo.mpg+ intro /a.mpg+game2.ssl", "SSL+SSL_PlayNext", None),
        UrlAction::QueueVideos {
            videos: vec!["logo.mpg".to_string(), "intro/a.mpg".to_string()],
            content: "game2.ssl".to_string(),
        }
    );
    assert_eq!(
        url_action("game2.ssl", "SSL+SSL_PlayNext", None),
        UrlAction::QueueVideos { videos: vec![], content: "game2.ssl".to_string() }
    );
}

#[test]
fn save_data_commands_name_the_success_variable() {
    assert_eq!(
        url_action("Data", "SSL+SSL_GetSSLData+OK", None),
        UrlAction::LoadSave { data_var: "data".to_string(), success_var: "ok".to_string() }
    );
    assert_eq!(
        url_action("level=3", "SSL+SSL_SaveSSLData+Done", None),
        UrlAction::StoreSave { data: "level=3".to_string(), success_var: "done".to_string() }
    );
    assert_eq!(url_action("Data", "SSL+SSL_GetSSLData", None), UrlAction::Ignore);
}

#[test]
fn screen_move_reads_two_numbers() {
    assert_eq!(url_action("-12+40", "NAV+NAV_ScreenMove", None), UrlAction::ScreenMove { x: -12, y: 40 });
    assert_eq!(url_action("abc+5", "NAV+NAV_ScreenMove", None), UrlAction::ScreenMove { x: 0, y: 5 });
    assert_eq!(url_action("7", "NAV+NAV_ScreenMove", None), UrlAction::Ignore);
}

#[test]
fn other_commands_are_ignored() {
    assert_eq!(url_action("x", "FormateStr", None), UrlAction::Ignore);
    assert_eq!(url_action("x", "SSL+SSL_PlayPlan", None), UrlAction::Ignore);
    assert_eq!(url_action("x", "Unknown+1", None), UrlAction::Ignore);
    assert_eq!(url_action("spr+D+pic", "LoadImage", None), UrlAction::LoadImage { spec: "spr+D+pic".to_string() });
}

#[test]
fn i32_parse_follows_rust() {
    assert_eq!(parse_i32_or_zero(&chars("-2147483648")), i32::MIN);
    assert_eq!(parse_i32_or_zero(&chars("2147483647")), i32::MAX);
    assert_eq!(parse_i32_or_zero(&chars("2147483648")), 0);
    assert_eq!(parse_i32_or_zero(&chars("+17")), 17);
    assert_eq!(parse_i32_or_zero(&chars("-")), 0);
    assert_eq!(parse_i32_or_zero(&chars("")), 0);
    assert_eq!(parse_i32_or_zero(&chars("1a")), 0);
}
