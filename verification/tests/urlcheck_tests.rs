use pull_extractor::urlcheck::{
    filter_zzz_query, genshin_accepts_response, genshin_probe_url, merge_genshin_probe_params,
    should_downgrade_scheme, str_eq, zzz_accepts_response, zzz_normalized_url,
};

#[test]
fn str_eq_compares_text() {
    assert!(str_eq("", ""));
    assert!(str_eq("abc", "abc"));
    assert!(!str_eq("abc", "abd"));
    assert!(!str_eq("abc", "abcd"));
    assert!(str_eq("héllo", "héllo"));
    assert!(!str_eq("héllo", "hello"));
}

#[test]
fn scheme_downgrade_only_for_secure_loopback() {
    assert!(should_downgrade_scheme("https", "127.0.0.1"));
    assert!(!should_downgrade_scheme("http", "127.0.0.1"));
    assert!(!should_downgrade_scheme("https", "localhost"));
    assert!(!should_downgrade_scheme("https", "example.com"));
}

// Extraneous query parameters are dropped and the port disappears from
// the canonical form.
#[test]
fn zzz_normalization_keeps_only_needed_params() {
    let url = "http://127.0.0.1:4545/index.html?extraparam=1234&authkey=key&authkey_ver=2&sign_type=sometype&game_biz=nap_global&lang=en&more=stuff&andsomemore=fluffs";
    let result = zzz_normalized_url(url).unwrap();
    assert_eq!(
        "http://127.0.0.1/index.html?authkey=key&authkey_ver=2&sign_type=sometype&game_biz=nap_global&lang=en",
        result
    );
}

#[test]
fn zzz_normalization_rejects_non_urls() {
    assert_eq!(zzz_normalized_url("not a url at all"), None);
    // A URL without a host has no canonical form.
    assert_eq!(zzz_normalized_url("mailto:someone@example.com"), None);
}

#[test]
fn filter_keeps_pairs_in_order() {
    let pairs = vec![
        ("lang".to_string(), "en".to_string()),
        ("extra".to_string(), "1".to_string()),
        ("authkey".to_string(), "k".to_string()),
    ];
    let kept = filter_zzz_query(&pairs);
    assert_eq!(
        kept,
        vec![
            ("lang".to_string(), "en".to_string()),
            ("authkey".to_string(), "k".to_string()),
        ]
    );
}

#[test]
fn genshin_merge_forces_probe_params() {
    let pairs = vec![
        ("authkey".to_string(), "abc".to_string()),
        ("lang".to_string(), "zh".to_string()),
    ];
    let merged = merge_genshin_probe_params(&pairs);
    assert_eq!(
        merged,
        vec![
            ("authkey".to_string(), "abc".to_string()),
            ("lang".to_string(), "en-us".to_string()),
            ("gacha_type".to_string(), "301".to_string()),
            ("size".to_string(), "5".to_string()),
        ]
    );
}

#[test]
fn genshin_probe_points_at_the_backend() {
    let url = "https://gs.hoyoverse.com/genshin/event/e20190909gacha-v3/index.html?authkey=abc&lang=zh";
    let probe = genshin_probe_url(url, "public-operation-hk4e-sg.hoyoverse.com").unwrap();
    assert_eq!(
        "https://public-operation-hk4e-sg.hoyoverse.com/gacha_info/api/getGachaLog?authkey=abc&lang=en-us&gacha_type=301&size=5",
        probe
    );
}

#[test]
fn genshin_probe_rejects_non_urls() {
    assert_eq!(genshin_probe_url("::::", "host"), None);
}

#[test]
fn genshin_accepts_only_nonzero_retcodes() {
    assert!(genshin_accepts_response("{\"retcode\": -1}"));
    assert!(genshin_accepts_response("{\"retcode\": 7}"));
    assert!(!genshin_accepts_response("{\"retcode\": 0}"));
    assert!(!genshin_accepts_response("{}"));
    assert!(!genshin_accepts_response("not json"));
    assert!(!genshin_accepts_response("{\"retcode\": \"1\"}"));
}

#[test]
fn zzz_accepts_only_zero_retcodes() {
    assert!(zzz_accepts_response("{\"retcode\": 0}"));
    assert!(!zzz_accepts_response("{\"retcode\": -1}"));
    assert!(!zzz_accepts_response("{}"));
    assert!(!zzz_accepts_response("nope"));
}
