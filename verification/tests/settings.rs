use hd2mm::settings::{check_game_path, data_dir, install_paths, settings_file, skip_entry_from_str, skip_entry_text, GamePathProbe, GamePathProblem, Settings, SettingsError};

fn probe(exists: bool, tools: bool, data: bool, bin: bool, exe: bool) -> GamePathProbe {
    GamePathProbe { exists, tools, data, bin, exe }
}

/// What a valid install looks like on disk.
fn valid_install() -> GamePathProbe {
    probe(true, true, true, true, true)
}

fn settings_for(path: &str) -> Settings {
    Settings::V1 { game_path: path.to_string(), skip_list: vec![] }
}

fn keys(v: &[GamePathProblem]) -> Vec<&'static str> {
    v.iter().map(|p| p.key()).collect()
}

#[test]
fn valid_install_passes() {
    assert!(settings_for("/tmp/hd2").validate(&valid_install()).is_ok());
}

#[test]
fn empty_path_fails() {
    let s = Settings::V1 { game_path: String::new(), skip_list: vec![] };
    assert!(s.validate(&valid_install()).is_err());
}

#[test]
fn missing_path_fails() {
    let s = settings_for("/nonexistent/hd2/path/xyz");
    assert!(s.validate(&probe(false, false, false, false, false)).is_err());
}

#[test]
fn missing_tools_fails() {
    assert!(settings_for("/tmp/hd2").validate(&probe(true, false, true, true, true)).is_err());
}

#[test]
fn missing_data_fails() {
    assert!(settings_for("/tmp/hd2").validate(&probe(true, true, false, true, true)).is_err());
}

#[test]
fn missing_exe_fails() {
    assert!(settings_for("/tmp/hd2").validate(&probe(true, true, true, true, false)).is_err());
}

#[test]
fn validate_reports_the_first_problem() {
    match settings_for("/tmp/hd2").validate(&probe(true, false, false, false, false)) {
        Err(SettingsError::InvalidGamePath(p)) => assert_eq!(p.key(), "tools_exists"),
        Ok(()) => panic!("expected an error"),
    }
}

#[test]
fn skip_entry_lookup() {
    let s = Settings::V1 {
        game_path: String::new(),
        skip_list: vec![*b"0cf14e223de06a26"],
    };
    assert!(s.has_skip_entry("0cf14e223de06a26"));
    assert!(!s.has_skip_entry("ffffffffffffffff"));
}

#[test]
fn skip_entry_needs_exact_bytes() {
    let s = Settings::V1 { game_path: String::new(), skip_list: vec![*b"0cf14e223de06a26", [0xff; 16]] };
    assert!(!s.has_skip_entry("0cf14e223de06a2"));
    assert!(!s.has_skip_entry("0cf14e223de06a260"));
    assert!(!s.has_skip_entry(""));
    assert_eq!(s.game_path(), "");
}

#[test]
fn check_valid_path_has_no_errors() {
    assert!(check_game_path("/tmp/hd2", &valid_install()).is_empty());
}

#[test]
fn check_path_with_spaces_is_valid() {
    let root = "/tmp/x/steamapps/common/Helldivers 2";
    assert!(check_game_path(root, &valid_install()).is_empty());
    let paths = install_paths(root);
    assert_eq!(paths.tools, "/tmp/x/steamapps/common/Helldivers 2/tools");
    assert_eq!(paths.data, "/tmp/x/steamapps/common/Helldivers 2/data");
    assert_eq!(paths.bin, "/tmp/x/steamapps/common/Helldivers 2/bin");
    assert_eq!(paths.exe, "/tmp/x/steamapps/common/Helldivers 2/bin/helldivers2.exe");
}

#[test]
fn check_empty_path() {
    assert_eq!(keys(&check_game_path("", &valid_install())), vec!["empty"]);
}

#[test]
fn check_nonexistent_path() {
    assert_eq!(keys(&check_game_path("/no/such/dir/xyz", &probe(false, false, false, false, false))), vec!["exists"]);
}

#[test]
fn check_reports_each_missing_piece() {
    assert_eq!(keys(&check_game_path("/d", &probe(true, false, true, true, true))), vec!["tools_exists"]);
    assert_eq!(keys(&check_game_path("/d", &probe(true, true, false, true, true))), vec!["data_exists"]);
    // Without `bin`, the executable is not looked for.
    assert_eq!(keys(&check_game_path("/d", &probe(true, true, true, false, false))), vec!["bin_exists"]);
    assert_eq!(keys(&check_game_path("/d", &probe(true, true, true, true, false))), vec!["exe_exists"]);
}

#[test]
fn check_reports_multiple_missing() {
    // Exists but empty: tools, data, and bin are all missing.
    let errs = keys(&check_game_path("/d", &probe(true, false, false, false, false)));
    assert!(errs.contains(&"tools_exists"));
    assert!(errs.contains(&"data_exists"));
    assert!(errs.contains(&"bin_exists"));
    assert_eq!(errs, vec!["tools_exists", "data_exists", "bin_exists"]);
}

#[test]
fn default_settings_are_empty() {
    let s = Settings::default_v1();
    assert_eq!(s.game_path(), "");
    assert_eq!(keys(&check_game_path(s.game_path(), &valid_install())), vec!["empty"]);
}

#[test]
fn skip_entries_round_trip_as_text() {
    let a = skip_entry_from_str("0cf14e223de06a26").unwrap();
    assert_eq!(&a, b"0cf14e223de06a26");
    assert_eq!(skip_entry_text(&a), Some("0cf14e223de06a26".to_string()));
    assert_eq!(skip_entry_from_str("short"), None);
    assert_eq!(skip_entry_from_str("0cf14e223de06a26x"), None);
    assert_eq!(skip_entry_text(&[0xff; 16]), None);
    // Sixteen bytes, fewer characters.
    assert!(skip_entry_from_str("ééééééé00").is_some());
}

#[test]
fn data_dir_follows_xdg() {
    assert_eq!(data_dir(Some("/xdg/data"), Some("/home/u")), "/xdg/data/hd2mm");
    assert_eq!(data_dir(Some("relative"), Some("/home/u")), "/home/u/.local/share/hd2mm");
    assert_eq!(data_dir(None, Some("/home/u/")), "/home/u/.local/share/hd2mm");
    assert_eq!(data_dir(None, None), "./.local/share/hd2mm");
    assert_eq!(settings_file("/home/u/.local/share/hd2mm"), "/home/u/.local/share/hd2mm/settings.json");
}
