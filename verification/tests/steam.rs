use hd2mm::casing::CasingFix;
use hd2mm::steam::{candidate_data_dir, game_candidate, library_folders_file, library_list, library_paths_from_captures, steam_roots, vdf_library_paths};

#[test]
fn vdf_lists_library_paths() {
    let vdf = "\"libraryfolders\"\n{\n\t\"0\"\n\t{\n\t\t\"path\"\t\t\"/home/u/.local/share/Steam\"\n\t}\n\t\"1\"\n\t{\n\t\t\"path\"\t\t\"/run/media/u/SD\"\n\t\t\"label\"\t\t\"\"\n\t}\n}\n";
    assert_eq!(vdf_library_paths(vdf), vec!["/home/u/.local/share/Steam".to_string(), "/run/media/u/SD".to_string()]);
}

#[test]
fn vdf_edge_cases() {
    // Doubled backslashes become slashes.
    assert_eq!(vdf_library_paths("\"path\" \"D:\\\\Games\\\\Steam\""), vec!["D:/Games/Steam".to_string()]);
    // No whitespace needed; an empty value does not match.
    assert_eq!(vdf_library_paths("\"path\"\"\" \"path\"\"x\""), vec!["x".to_string()]);
    // An unterminated value does not match.
    assert!(vdf_library_paths("\"path\" \"/never/closed").is_empty());
    // Unicode whitespace counts as whitespace.
    assert_eq!(vdf_library_paths("\"path\"\u{3000}\"/y\""), vec!["/y".to_string()]);
    assert!(vdf_library_paths("").is_empty());
    assert!(vdf_library_paths("\"Path\" \"/z\"").is_empty());
}

#[test]
fn captured_values_are_unescaped() {
    let caps = vec!["D:\\\\Games".to_string(), "/a\\b".to_string(), "\\\\\\".to_string()];
    assert_eq!(
        library_paths_from_captures(&caps),
        vec!["D:/Games".to_string(), "/a\\b".to_string(), "/\\".to_string()]
    );
    assert!(library_paths_from_captures(&vec![]).is_empty());
}

#[test]
fn steam_locations() {
    assert_eq!(
        steam_roots("/home/u"),
        vec![
            "/home/u/.local/share/Steam".to_string(),
            "/home/u/.steam/steam".to_string(),
            "/home/u/.steam/root".to_string(),
            "/home/u/.var/app/com.valvesoftware.Steam/.local/share/Steam".to_string(),
        ]
    );
    assert_eq!(library_folders_file("/s"), "/s/steamapps/libraryfolders.vdf");
    assert_eq!(game_candidate("/lib"), "/lib/steamapps/common/Helldivers 2");
    assert_eq!(candidate_data_dir("/lib/steamapps/common/Helldivers 2"), "/lib/steamapps/common/Helldivers 2/data");
}

#[test]
fn library_list_follows_roots() {
    let roots = vec![
        ("/r1".to_string(), Some("\"path\" \"/x\" \"path\" \"/y\"".to_string())),
        ("/r2".to_string(), None),
    ];
    assert_eq!(library_list(&roots), vec!["/r1".to_string(), "/x".to_string(), "/y".to_string(), "/r2".to_string()]);
}

fn run(base: &str, relative: &str, listings: &[&[&str]]) -> Result<String, String> {
    let mut fix = CasingFix::new(base, relative);
    let mut i = 0;
    while let Some(_dir) = fix.next_dir() {
        let entries: Vec<String> = listings[i].iter().map(|s| s.to_string()).collect();
        fix.feed(&entries);
        i += 1;
    }
    fix.finish().map_err(|e| format!("{:?}", e))
}

#[test]
fn corrects_casing_to_match_disk() {
    let mut fix = CasingFix::new("/tmp/d", "tools/file.txt");
    assert_eq!(fix.next_dir(), Some("/tmp/d".to_string()));
    fix.feed(&vec!["Tools".to_string()]);
    assert_eq!(fix.next_dir(), Some("/tmp/d/Tools".to_string()));
    fix.feed(&vec!["File.txt".to_string()]);
    assert_eq!(fix.next_dir(), None);
    assert_eq!(fix.finish().unwrap(), "Tools/File.txt");
}

#[test]
fn keeps_already_correct_path() {
    assert_eq!(run("/tmp/d", "data", &[&["data"]]), Ok("data".to_string()));
}

#[test]
fn passes_through_missing_components() {
    assert_eq!(run("/tmp/d", "nope", &[&[]]), Ok("nope".to_string()));
}

#[test]
fn casing_takes_first_match_and_drops_dot() {
    assert_eq!(run("/b", "./DATA", &[&["x"], &["data", "Data"]]), Ok("data".to_string()));
    assert!(run("/b", "/etc", &[&[], &[]]).is_err());
}

#[test]
fn first_installed_takes_the_first_library_with_data() {
    let c: Vec<String> = vec!["/a".to_string(), "/b".to_string(), "/c".to_string()];
    assert_eq!(hd2mm::steam::first_installed(&c, &vec![false, true, true]), Some("/b".to_string()));
    assert_eq!(hd2mm::steam::first_installed(&c, &vec![true, false, true]), Some("/a".to_string()));
    assert_eq!(hd2mm::steam::first_installed(&c, &vec![false, false, false]), None);
    assert_eq!(hd2mm::steam::first_installed(&vec![], &vec![]), None);
}
