use hd2mm::patch::{add_files_from_dir, deploy_plan, is_patch_file_name, patch_files, parse_u32, patch_index_of, DeployAction, PatchGroups};
use hd2mm::settings::Settings;

#[test]
fn matches_valid_patch_names() {
    assert!(is_patch_file_name("0cf14e223de06a26.patch_0"));
    assert!(is_patch_file_name("0cf14e223de06a26.patch_12"));
    assert!(is_patch_file_name("0cf14e223de06a26.patch_0.gpu_resources"));
    assert!(is_patch_file_name("0cf14e223de06a26.patch_3.stream"));
}

#[test]
fn rejects_non_patch_names() {
    // Not 16 hex chars.
    assert!(!is_patch_file_name("0cf14e223de06a2.patch_0"));
    assert!(!is_patch_file_name("0cf14e223de06a26z.patch_0"));
    // Uppercase hex is not allowed.
    assert!(!is_patch_file_name("0CF14E223DE06A26.patch_0"));
    // Missing index.
    assert!(!is_patch_file_name("0cf14e223de06a26.patch_"));
    // Unrelated files in the data dir must be ignored.
    assert!(!is_patch_file_name("game.exe"));
    assert!(!is_patch_file_name("0cf14e223de06a26.patch_0.bak"));
    // Traversal-looking name must not match.
    assert!(!is_patch_file_name("../0cf14e223de06a26.patch_0"));
}

fn strings(v: &[&str]) -> Vec<String> {
    v.iter().map(|s| s.to_string()).collect()
}

#[test]
fn purge_selects_only_patch_files() {
    let listing = strings(&[
        "game.exe",
        "0cf14e223de06a26.patch_0",
        "settings.ini",
        "0cf14e223de06a26.patch_0.stream",
        "0cf14e223de06a26.patch_0.bak",
    ]);
    assert_eq!(
        patch_files(&listing),
        strings(&["0cf14e223de06a26.patch_0", "0cf14e223de06a26.patch_0.stream"])
    );
}

#[test]
fn patch_index_reads_the_digits() {
    let idx = |s: &str| patch_index_of(s);
    assert_eq!(idx("0cf14e223de06a26.patch_0"), Some(0));
    assert_eq!(idx("0cf14e223de06a26.patch_12.gpu_resources"), Some(12));
    assert_eq!(idx("0cf14e223de06a26.patch_007.stream"), Some(7));
    assert_eq!(idx("0cf14e223de06a26.patch_4294967295"), Some(4294967295));
    assert_eq!(idx("0cf14e223de06a26.patch_4294967296"), None);
    assert_eq!(idx("0cf14e223de06a26.patch_"), None);
    // The first `.patch_` followed by digits decides, whatever follows them.
    assert_eq!(idx("0cf14e223de06a26.patch_1x"), Some(1));
    assert_eq!(idx("a.patch_x.patch_5"), Some(5));
    assert_eq!(idx("short"), None);
}

#[test]
fn parse_u32_reads_decimal() {
    assert_eq!(parse_u32("0"), Some(0));
    assert_eq!(parse_u32("+17"), Some(17));
    assert_eq!(parse_u32("4294967295"), Some(4294967295));
    assert_eq!(parse_u32("4294967296"), None);
    assert_eq!(parse_u32(""), None);
    assert_eq!(parse_u32("+"), None);
    assert_eq!(parse_u32("-1"), None);
    assert_eq!(parse_u32("1 "), None);
    assert_eq!(parse_u32("\u{0663}"), None);
}

fn dests(plan: &[DeployAction]) -> Vec<(String, Option<(String, String)>)> {
    plan.iter()
        .map(|a| (a.dest.clone(), a.source.as_ref().map(|s| (s.dir.clone(), s.name.clone()))))
        .collect()
}

fn settings(skip: Vec<[u8; 16]>) -> Settings {
    Settings::V1 { game_path: String::new(), skip_list: skip }
}

#[test]
fn grouping_and_plan_number_triplets() {
    let mut groups = PatchGroups::new();
    let listing = strings(&[
        "0cf14e223de06a26.patch_3",
        "0cf14e223de06a26.patch_3.gpu_resources",
        "mod.json",
        "0cf14e223de06a26.patch_1.stream",
        "aaaaaaaaaaaaaaaa.patch_0",
    ]);
    add_files_from_dir("/mods/a", &listing, &mut groups);
    let plan = deploy_plan(&settings(vec![]), &groups);
    let got = dests(&plan);
    let src = |n: &str| Some(("/mods/a".to_string(), n.to_string()));
    assert_eq!(
        got,
        vec![
            ("0cf14e223de06a26.patch_0".to_string(), src("0cf14e223de06a26.patch_3")),
            ("0cf14e223de06a26.patch_0.gpu_resources".to_string(), src("0cf14e223de06a26.patch_3.gpu_resources")),
            ("0cf14e223de06a26.patch_0.stream".to_string(), None),
            ("0cf14e223de06a26.patch_1".to_string(), None),
            ("0cf14e223de06a26.patch_1.gpu_resources".to_string(), None),
            ("0cf14e223de06a26.patch_1.stream".to_string(), src("0cf14e223de06a26.patch_1.stream")),
            ("aaaaaaaaaaaaaaaa.patch_0".to_string(), src("aaaaaaaaaaaaaaaa.patch_0")),
            ("aaaaaaaaaaaaaaaa.patch_0.gpu_resources".to_string(), None),
            ("aaaaaaaaaaaaaaaa.patch_0.stream".to_string(), None),
        ]
    );
}

#[test]
fn later_directories_append_to_an_asset() {
    let mut groups = PatchGroups::new();
    add_files_from_dir("one", &strings(&["0cf14e223de06a26.patch_0"]), &mut groups);
    add_files_from_dir("two", &strings(&["0cf14e223de06a26.patch_0"]), &mut groups);
    let plan = deploy_plan(&settings(vec![*b"0cf14e223de06a26"]), &groups);
    let names: Vec<String> = plan.iter().map(|a| a.dest.clone()).collect();
    // On the skip list: numbering starts at 1, so patch_0 stays untouched.
    assert_eq!(
        names,
        strings(&[
            "0cf14e223de06a26.patch_1",
            "0cf14e223de06a26.patch_1.gpu_resources",
            "0cf14e223de06a26.patch_1.stream",
            "0cf14e223de06a26.patch_2",
            "0cf14e223de06a26.patch_2.gpu_resources",
            "0cf14e223de06a26.patch_2.stream",
        ])
    );
    assert_eq!(plan[0].source.as_ref().unwrap().dir, "one");
    assert_eq!(plan[3].source.as_ref().unwrap().dir, "two");
    // Everything the plan writes, the next purge removes.
    assert_eq!(patch_files(&names), names);
}

#[test]
fn empty_directory_adds_nothing() {
    let mut groups = PatchGroups::new();
    add_files_from_dir("x", &strings(&["readme.txt"]), &mut groups);
    assert!(deploy_plan(&settings(vec![]), &groups).is_empty());
}
