use hd2mm::mods::{collect_mod_files, deploy_sources, select_mods, CollectError, DeployStop, LegacyManifest, Manifest, ModInfo, V1Manifest, V1Option, V1SubOption};
use hd2mm::profile::{Config, Profile, ProfilesConfig};
use uuid::Uuid;

#[test]
fn config_exposes_uuid_and_enabled() {
    let id = Uuid::from_u128(1);
    let legacy = Config::Legacy { guid: id.as_u128(), enabled: false, selected: 0 };
    assert_eq!(legacy.uuid(), id.as_u128());
    assert!(!legacy.enabled());

    let v1 = Config::V1 { guid: id.as_u128(), enabled: true, toggled: vec![true], selected: vec![0] };
    assert_eq!(v1.uuid(), id.as_u128());
    assert!(v1.enabled());

    let v2 = Config::V2 { guid: id.as_u128(), enabled: true, toggled: vec![], selected: vec![] };
    assert!(v2.enabled());
}

#[test]
fn profile_accessors() {
    let p = Profile::new("Default");
    assert_eq!(p.name(), "Default");
    assert!(p.configs().is_empty());
    let all = ProfilesConfig { profiles: vec![p], active: 0 };
    assert_eq!(all.profiles.len(), 1);
}

fn strings(v: &[&str]) -> Vec<String> {
    v.iter().map(|s| s.to_string()).collect()
}

fn legacy_mod(guid: u128, dir: &str, options: Option<Vec<String>>) -> ModInfo {
    ModInfo { guid, directory: dir.to_string(), manifest: Manifest::Legacy(LegacyManifest { options }) }
}

#[test]
fn legacy_mod_directories() {
    let m = legacy_mod(1, "/mods/a", Some(strings(&["Red", "Blue"])));
    let c = Config::Legacy { guid: 1, enabled: true, selected: 1 };
    assert_eq!(collect_mod_files(&m, &c), Ok(strings(&["/mods/a/Blue"])));
    let c = Config::Legacy { guid: 1, enabled: true, selected: 5 };
    assert_eq!(collect_mod_files(&m, &c), Ok(vec![]));
    let m = legacy_mod(1, "/mods/a", None);
    assert_eq!(collect_mod_files(&m, &c), Ok(strings(&["/mods/a"])));
}

#[test]
fn v1_mod_directories() {
    let opts = vec![
        V1Option { includes: Some(strings(&["base"])), sub_options: None },
        V1Option {
            includes: None,
            sub_options: Some(vec![
                V1SubOption { includes: strings(&["s0"]) },
                V1SubOption { includes: strings(&["s1a", "s1b"]) },
            ]),
        },
        V1Option { includes: Some(strings(&["off"])), sub_options: None },
    ];
    let m = ModInfo { guid: 7, directory: "/m".to_string(), manifest: Manifest::V1(V1Manifest { options: Some(opts) }) };
    let c = Config::V1 { guid: 7, enabled: true, toggled: vec![true, true, false], selected: vec![0, 1] };
    assert_eq!(collect_mod_files(&m, &c), Ok(strings(&["/m/base", "/m/s1a", "/m/s1b"])));
    // Options beyond the toggles are off.
    let c = Config::V1 { guid: 7, enabled: true, toggled: vec![true], selected: vec![] };
    assert_eq!(collect_mod_files(&m, &c), Ok(strings(&["/m/base"])));
    let m = ModInfo { guid: 7, directory: "/m".to_string(), manifest: Manifest::V1(V1Manifest { options: None }) };
    assert_eq!(collect_mod_files(&m, &c), Ok(strings(&["/m"])));
}

#[test]
fn v2_mods_are_refused() {
    let m = ModInfo { guid: 2, directory: "/m".to_string(), manifest: Manifest::V2 };
    let c = Config::V2 { guid: 2, enabled: true, toggled: vec![], selected: vec![] };
    assert_eq!(collect_mod_files(&m, &c), Err(CollectError::V2Unsupported));
}

#[test]
fn selection_pairs_configs_with_installed_mods() {
    let mods = vec![legacy_mod(1, "/a", None), legacy_mod(2, "/b", None), legacy_mod(1, "/c", None)];
    let configs = vec![
        Config::Legacy { guid: 2, enabled: true, selected: 0 },
        Config::Legacy { guid: 9, enabled: true, selected: 0 },
        Config::Legacy { guid: 1, enabled: false, selected: 0 },
    ];
    // The config for an unknown mod is dropped; a repeated identifier names the last mod.
    assert_eq!(select_mods(&mods, &configs), vec![(1, 0), (2, 2)]);
    assert!(select_mods(&mods, &vec![]).is_empty());
}

#[test]
fn deploy_sources_walks_enabled_mods_in_order() {
    let mods = vec![legacy_mod(1, "/a", None), legacy_mod(2, "/b", Some(strings(&["x", "y"])))];
    let configs = vec![
        Config::Legacy { guid: 2, enabled: true, selected: 1 },
        Config::Legacy { guid: 3, enabled: true, selected: 0 },
        Config::Legacy { guid: 1, enabled: false, selected: 0 },
    ];
    let s = deploy_sources(&mods, &configs);
    assert!(s.any_selected);
    assert_eq!(s.dirs, strings(&["/b/y"]));
    assert_eq!(s.stop, DeployStop::Complete);

    let s = deploy_sources(&mods, &vec![Config::Legacy { guid: 5, enabled: true, selected: 0 }]);
    assert!(!s.any_selected);
    assert!(s.dirs.is_empty());
    assert_eq!(s.stop, DeployStop::Complete);
}

#[test]
fn deploy_sources_stops_at_v2_and_mismatch() {
    let mods = vec![
        legacy_mod(1, "/a", None),
        ModInfo { guid: 2, directory: "/v2".to_string(), manifest: Manifest::V2 },
        legacy_mod(3, "/c", None),
    ];
    let configs = vec![
        Config::Legacy { guid: 1, enabled: true, selected: 0 },
        Config::V2 { guid: 2, enabled: true, toggled: vec![], selected: vec![] },
        Config::Legacy { guid: 3, enabled: true, selected: 0 },
    ];
    let s = deploy_sources(&mods, &configs);
    assert_eq!(s.dirs, strings(&["/a"]));
    assert_eq!(s.stop, DeployStop::Unsupported);

    let configs = vec![
        Config::Legacy { guid: 1, enabled: true, selected: 0 },
        Config::V1 { guid: 3, enabled: true, toggled: vec![], selected: vec![] },
    ];
    let s = deploy_sources(&mods, &configs);
    assert_eq!(s.dirs, strings(&["/a"]));
    assert_eq!(s.stop, DeployStop::Mismatch);

    // A disabled V2 mod is skipped.
    let configs = vec![Config::V2 { guid: 2, enabled: false, toggled: vec![], selected: vec![] }];
    let s = deploy_sources(&mods, &configs);
    assert!(s.any_selected);
    assert!(s.dirs.is_empty());
    assert_eq!(s.stop, DeployStop::Complete);
}
