use hd2mm::archive::{archive_kind, first_unsafe_entry, has_name, has_path, is_safe_entry_path, is_safe_entry_path_on, ArchiveEntry, ArchiveKind};

#[test]
fn allows_normal_relative_paths() {
    assert!(is_safe_entry_path("foo.patch_0"));
    assert!(is_safe_entry_path("sub/dir/file.txt"));
    assert!(is_safe_entry_path("./a/b"));
    // `..` is fine as long as it never climbs above the root.
    assert!(is_safe_entry_path("a/../b"));
}

#[test]
fn rejects_traversal_and_absolute_paths() {
    assert!(!is_safe_entry_path("../evil"));
    assert!(!is_safe_entry_path("../../../home/user/.bashrc"));
    assert!(!is_safe_entry_path("a/../../escape"));
    assert!(!is_safe_entry_path("/etc/passwd"));
    assert!(!is_safe_entry_path("/root/.config/autostart/x.desktop"));
}

#[test]
fn safe_path_edge_cases() {
    assert!(is_safe_entry_path(""));
    assert!(is_safe_entry_path("."));
    assert!(is_safe_entry_path("a/./b//c/"));
    assert!(is_safe_entry_path("a/b/../../c"));
    assert!(!is_safe_entry_path(".."));
    assert!(!is_safe_entry_path("./.."));
    assert!(!is_safe_entry_path("a/b/../../../c"));
    assert!(!is_safe_entry_path("//x"));
    // A name that merely starts with dots is an ordinary name.
    assert!(is_safe_entry_path("..."));
    assert!(is_safe_entry_path("..a/b"));
}

#[test]
fn guard_reads_windows_paths() {
    // Where `\` separates components, drives and prefixes anchor a path.
    assert!(!is_safe_entry_path_on(true, "..\\evil"));
    assert!(!is_safe_entry_path_on(true, "a\\..\\..\\escape"));
    assert!(!is_safe_entry_path_on(true, "C:\\x"));
    assert!(!is_safe_entry_path_on(true, "c:x"));
    assert!(!is_safe_entry_path_on(true, "\\\\server\\share\\x"));
    assert!(!is_safe_entry_path_on(true, "\\x"));
    assert!(!is_safe_entry_path_on(true, "/etc/passwd"));
    assert!(!is_safe_entry_path_on(true, "../evil"));
    assert!(is_safe_entry_path_on(true, "a\\..\\b"));
    assert!(is_safe_entry_path_on(true, "sub\\dir/file.txt"));
    assert!(is_safe_entry_path_on(true, ".\\a"));
    assert!(is_safe_entry_path_on(true, "1:x"));
    assert!(is_safe_entry_path_on(true, ""));
    // Read as a Unix path, a backslash is part of a name.
    assert!(is_safe_entry_path_on(false, "..\\evil"));
    assert!(is_safe_entry_path_on(false, "C:\\x"));
    assert!(!is_safe_entry_path_on(false, "../evil"));
    let bad = vec![
        ArchiveEntry::new(false, "fine.txt".to_string()),
        ArchiveEntry::new(false, "..\\..\\x".to_string()),
    ];
    assert_eq!(first_unsafe_entry(true, &bad), Some(1));
    assert_eq!(first_unsafe_entry(false, &bad), None);
}

#[test]
fn archive_kind_from_extension() {
    assert_eq!(archive_kind("/mods/SuperCreditArrows-v2.1-TEST.zip"), Some(ArchiveKind::Zip));
    assert_eq!(archive_kind("mod.7z"), Some(ArchiveKind::SevenZ));
    assert_eq!(archive_kind("a/b/mod.rar"), Some(ArchiveKind::Rar));
    assert_eq!(archive_kind("mod.tar.gz"), None);
    assert_eq!(archive_kind("mod.ZIP"), None);
    assert_eq!(archive_kind(".zip"), None);
    assert_eq!(archive_kind("zip"), None);
    assert_eq!(archive_kind("mod.zip/"), Some(ArchiveKind::Zip));
    assert_eq!(archive_kind("mod.zip/.."), None);
}

#[test]
fn has_name_looks_at_file_names() {
    let names = vec![
        "dir/".to_string(),
        "dir/mod.json".to_string(),
        "other/0cf14e223de06a26.patch_0".to_string(),
    ];
    assert!(has_name(&names, "mod.json"));
    assert!(has_name(&names, "0cf14e223de06a26.patch_0"));
    assert!(has_name(&names, "dir"));
    assert!(!has_name(&names, "other/0cf14e223de06a26.patch_0"));
    assert!(!has_name(&names, "missing.json"));
    assert!(!has_name(&Vec::new(), "mod.json"));
}

#[test]
fn has_path_compares_components() {
    let names = vec!["dir/mod.json".to_string(), "a//b/".to_string()];
    assert!(has_path(&names, "dir/mod.json"));
    assert!(has_path(&names, "dir//mod.json"));
    assert!(has_path(&names, "a/b"));
    assert!(!has_path(&names, "mod.json"));
    assert!(!has_path(&names, "./dir/mod.json"));
    assert!(!has_path(&names, "/dir/mod.json"));
}

#[test]
fn extraction_guard_finds_first_unsafe_entry() {
    let ok = vec![
        ArchiveEntry::new(true, "sub".to_string()),
        ArchiveEntry::new(false, "sub/file.txt".to_string()),
    ];
    assert_eq!(first_unsafe_entry(false, &ok), None);
    let bad = vec![
        ArchiveEntry::new(false, "fine.txt".to_string()),
        ArchiveEntry::new(false, "../../.config/autostart/x.desktop".to_string()),
        ArchiveEntry::new(false, "/etc/passwd".to_string()),
    ];
    assert_eq!(first_unsafe_entry(false, &bad), Some(1));
    assert_eq!(first_unsafe_entry(false, &Vec::new()), None);
}

#[test]
fn archive_entry_accessors() {
    let e = ArchiveEntry::new(true, "a/b".to_string());
    assert!(e.is_directory());
    assert_eq!(e.path(), "a/b");
    let f = ArchiveEntry::new(false, "c".to_string());
    assert!(!f.is_directory());
    assert_eq!(f.path(), "c");
}

#[test]
fn guard_answer_survives_joining() {
    let join = hd2mm::path::join_path;
    // Unix reading: safe joined with safe stays safe, unsafe stays unsafe.
    assert!(is_safe_entry_path_on(false, &join("a/b", "../c")));
    assert!(is_safe_entry_path_on(false, &join("a/", "./c/..")));
    assert!(!is_safe_entry_path_on(false, &join("..", "a/b")));
    assert!(!is_safe_entry_path_on(false, &join("/abs", "x")));
    // Windows reading, joined with `\`.
    assert!(is_safe_entry_path_on(true, "a\\b\\..\\c"));
    assert!(!is_safe_entry_path_on(true, "..\\x\\y"));
    assert!(!is_safe_entry_path_on(true, "C:\\x"));
}
