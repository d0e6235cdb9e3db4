use modcrab::config::{generate_default_game_specs, AppConfig, AppData, ModSpec};
use modcrab::notice::{apply_string_sub_map, display_slice, replace_all, Notice, NoticePreset};
use modcrab::text::{stylize_str, FancyText, TextColor, TextStyle};

#[test]
fn style_codes() {
    assert_eq!(TextStyle::Bold.ansi(), "\x1B[1m");
    assert_eq!(TextStyle::Strikedthrough.ansi(), "\x1B[9m");
    assert_eq!(TextColor::Red.ansi_fg(), "\x1B[31m");
    assert_eq!(TextColor::White.ansi_bg(), "\x1B[47m");
    assert_eq!(TextColor::True(255, 0, 7).ansi_fg(), "\x1B[38;2;255;0;7m");
    assert_eq!(TextColor::True(10, 99, 100).ansi_bg(), "\x1B[48;2;10;99;100m");
}

#[test]
fn stylized_text() {
    assert_eq!(stylize_str("hi", Some(TextStyle::Italic), Some(TextColor::Cyan), None), "\x1B[3m\x1B[36mhi\x1B[0m");
    assert_eq!("x".stylize(None, None, Some(TextColor::Black)), "\x1B[40mx\x1B[0m");
}

#[test]
fn notice_rendering() {
    let n = Notice::from_preset(NoticePreset::Warning, "Mod").add_field("Description", "empty");
    let expected = format!(
        "{}\n{}empty\n",
        "\x1B[1m\x1B[33m[WARN - Mod]\x1B[0m",
        "\x1B[1m\x1B[33m  Description: \x1B[0m"
    );
    assert_eq!(n.render(), expected);
    let plain = Notice::new(TextColor::Green, "DONE", "Build");
    assert_eq!(plain.render(), "\x1B[1m\x1B[32m[DONE - Build]\x1B[0m\n");
}

#[test]
fn slices_are_joined() {
    assert_eq!(display_slice(&vec!["a".to_string(), "b".to_string()]), "a, b");
    assert_eq!(display_slice(&vec![]), "");
    assert_eq!(display_slice(&vec!["x, ".to_string()]), "x");
}

#[test]
fn default_games() {
    let games = generate_default_game_specs();
    assert_eq!(games.len(), 3);
    assert_eq!(games[0].0, "skyrim special edition");
    assert_eq!(games[0].1.name, "Skyrim Special Edition");
    assert_eq!(games[0].1.common_root_paths[0], b"~/.steam/steam/steamapps/common/Skyrim Special Edition".to_vec());
    assert_eq!(games[2].1.mod_directory, "");
    assert!(games.iter().all(|g| g.1.plugin_config.is_none()));
    assert_ne!(games[0].0, games[1].0);
    assert_ne!(games[1].0, games[2].0);
}

#[test]
fn notices_are_handed_out_once() {
    let config = AppConfig { games: generate_default_game_specs(), raw_target: None, target: None };
    let mut data = AppData::with_config(config);
    assert!(data.mods.is_empty() && data.root_mods.is_empty());
    data.notices.push(Notice::from_preset(NoticePreset::Error, "IO"));
    let texts = data.print_notices();
    assert_eq!(texts, vec!["\x1B[1m\x1B[31m[ERROR - IO]\x1B[0m\n".to_string()]);
    assert!(data.print_notices().is_empty());
    let d = ModSpec::default();
    assert_eq!(d.priority, 50);
    assert_eq!(d.name, "DEFAULT");
}

#[test]
fn substitutions_apply_in_turn() {
    let map = vec![("{game}".to_string(), "Skyrim".to_string()), ("Sky".to_string(), "Ground".to_string())];
    assert_eq!(apply_string_sub_map("Play {game} {game}!", &map), "Play Groundrim Groundrim!");
    assert_eq!(apply_string_sub_map("unchanged", &vec![]), "unchanged");
    assert_eq!(replace_all("aaa", "aa", "b"), "aaa".replace("aa", "b"));
    assert_eq!(replace_all("abc", "", "x"), "abc".replace("", "x"));
    assert_eq!(replace_all("", "", "x"), "x");
    assert_eq!(replace_all("héllo wörld", "ö", "o"), "héllo world");
}
