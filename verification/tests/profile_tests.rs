use pull_extractor::profile::{GameKind, LookupError, PullExtractor};

#[test]
fn new_selects_genshin_when_its_data_dir_exists() {
    let dirs = vec!["something".to_string(), "GenshinImpact_Data".to_string()];
    let extractor = PullExtractor::new("/games/genshin", &dirs).unwrap();
    assert_eq!(extractor.install_path, "/games/genshin");
    assert_eq!(extractor.game_type.kind, GameKind::Genshin);
    assert_eq!(extractor.game_type.data_dir_name, "GenshinImpact_Data");
    assert_eq!(extractor.game_type.marker, "e20190909gacha-v3");
    assert_eq!(extractor.game_type.url_start, "https://gs.hoyoverse.com/");
    assert_eq!(extractor.game_type.url_end, "game_biz=hk4e_global");
}

#[test]
fn new_selects_zzz_when_only_its_data_dir_exists() {
    let dirs = vec!["ZenlessZoneZero_Data".to_string()];
    let extractor = PullExtractor::new("/games/zzz", &dirs).unwrap();
    assert_eq!(extractor.game_type.kind, GameKind::ZenlessZoneZero);
    assert_eq!(extractor.game_type.data_dir_name, "ZenlessZoneZero_Data");
    assert_eq!(extractor.game_type.marker, "getGachaLog");
    assert_eq!(extractor.game_type.url_start, "https://");
    assert_eq!(extractor.game_type.url_end, "game_biz=nap_global");
}

// With both data directories present, the first profile in priority
// order wins.
#[test]
fn new_prefers_the_first_matching_profile() {
    let dirs = vec![
        "ZenlessZoneZero_Data".to_string(),
        "GenshinImpact_Data".to_string(),
    ];
    let extractor = PullExtractor::new("/games/both", &dirs).unwrap();
    assert_eq!(extractor.game_type.kind, GameKind::Genshin);
}

#[test]
fn new_fails_without_a_known_data_dir() {
    let dirs = vec!["SomeOtherGame_Data".to_string(), "logs".to_string()];
    let result = PullExtractor::new("/games/other", &dirs);
    assert_eq!(result.unwrap_err(), LookupError::NoMatchingProduct);
}

#[test]
fn new_fails_on_an_empty_root() {
    let dirs: Vec<String> = Vec::new();
    assert!(PullExtractor::new("/games/empty", &dirs).is_err());
}
