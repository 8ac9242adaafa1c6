use pull_extractor::extract::{extract_all, extract_all_lenient, find_gacha_urls_in_slice, ExtractError};

// Verify it can find the URL in binary data.
#[test]
fn find_gacha_url_only_url() {
    let test_url = "https://gs.hoyoverse.com/genshin/event/e20190909gacha-v3/index.html?anythinghere&game_biz=hk4e_global";

    // any data.
    let mut test_data: Vec<u8> = vec![2, 8, 11, 22, 93];
    test_data.extend_from_slice(test_url.as_bytes());
    // More irrelevant data at end.
    test_data.extend_from_slice(&[43, 100, 65, 2, 1, 4, 73]);

    let result = find_gacha_urls_in_slice(
        &test_data,
        "gacha-v3",
        "https://gs.hoyoverse.com/",
        "game_biz=hk4e_global",
    );
    assert!(result.is_ok());
    let result = result.unwrap();
    assert_eq!(1, result.len());
    assert_eq!(test_url, result[0]);
}

#[test]
fn find_gacha_url() {
    let test_url = "https://gs.hoyoverse.com/genshin/event/e20190909gacha-v3/index.html?anythinghere&game_biz=hk4e_global";
    let test_url_vec = test_url.as_bytes().to_vec();

    let result = find_gacha_urls_in_slice(
        &test_url_vec,
        "gacha-v3",
        "https://gs.hoyoverse.com/",
        "game_biz=hk4e_global",
    );
    assert!(result.is_ok());
    let result = result.unwrap();
    assert_eq!(1, result.len());
    assert_eq!(test_url, result[0]);
}

// Verify that it can find multiple urls.
#[test]
fn find_gacha_urls_in_ascii() {
    let test_url1 = "https://gs.hoyoverse.com/genshin/event/e20190909gacha-v3/index.html?ANYDATA11111&game_biz=hk4e_global";
    let test_url2 = "https://gs.hoyoverse.com/genshin/event/e20190909gacha-v3/index.html?DIFFERTDATA22222&game_biz=hk4e_global";

    let test_data: Vec<u8> = [
        test_url1.as_bytes(),
        // any data.
        &[0xFF, 0x00, 0x3A, 0xBC],
        test_url2.as_bytes(),
    ]
    .concat();

    let result = find_gacha_urls_in_slice(
        &test_data,
        "gacha-v3",
        "https://gs.hoyoverse.com/",
        "game_biz=hk4e_global",
    );
    assert!(result.is_ok());
    let result = result.unwrap();
    assert_eq!(2, result.len());
    assert_eq!(test_url1, result[0]);
    assert_eq!(test_url2, result[1]);
}

// gacha-v3 marker is in the url but cannot find the end.
#[test]
fn no_gacha_url_has_marker_no_end_marker() {
    let test_url =
        "https://gs.hoyoverse.com/genshin/event/e20190909gacha-v3/index.html?anythinghere";
    let test_url_vec = test_url.as_bytes().to_vec();
    let result = find_gacha_urls_in_slice(
        &test_url_vec,
        "gacha-v3",
        "https://gs.hoyoverse.com/",
        "game_biz=hk4e_global",
    );
    assert!(result.is_err());
}

// gacha-v3 marker and game_biz=hk4e_global are present but cannot find https:// start.
#[test]
fn no_gacha_url_has_marker_has_end_marker_no_start_marker() {
    let test_url = "verse.com/genshin/event/e20190909gacha-v3/index.html?anythinghere";
    let test_url_vec = test_url.as_bytes().to_vec();
    let result = find_gacha_urls_in_slice(
        &test_url_vec,
        "gacha-v3",
        "https://gs.hoyoverse.com/",
        "game_biz=hk4e_global",
    );
    assert!(result.is_err());
}

#[test]
fn missing_end_marker_names_the_failed_step() {
    let data = "junk e20190909gacha-v3 more junk".as_bytes().to_vec();
    let result = find_gacha_urls_in_slice(
        &data,
        "gacha-v3",
        "https://gs.hoyoverse.com/",
        "game_biz=hk4e_global",
    );
    assert_eq!(result.unwrap_err(), ExtractError::EndMarkerNotFound);
}

#[test]
fn missing_start_token_names_the_failed_step() {
    let data = "junk e20190909gacha-v3 junk game_biz=hk4e_global".as_bytes().to_vec();
    let result = find_gacha_urls_in_slice(
        &data,
        "gacha-v3",
        "https://gs.hoyoverse.com/",
        "game_biz=hk4e_global",
    );
    assert_eq!(result.unwrap_err(), ExtractError::StartTokenNotFound);
}

#[test]
fn invalid_utf8_candidate_is_an_error() {
    let mut data: Vec<u8> = Vec::new();
    data.extend_from_slice(b"https://gs.hoyoverse.com/");
    data.extend_from_slice(&[0xFF, 0xFE]);
    data.extend_from_slice(b"e20190909gacha-v3/x?game_biz=hk4e_global");
    let result = find_gacha_urls_in_slice(
        &data,
        "gacha-v3",
        "https://gs.hoyoverse.com/",
        "game_biz=hk4e_global",
    );
    assert_eq!(result.unwrap_err(), ExtractError::InvalidUtf8);
}

// A synthetic buffer with junk on both sides yields exactly the marked URL.
#[test]
fn synthetic_buffer_end_to_end() {
    let url = "https://host/event/MARKERv3/index.html?x&END=1";
    let mut data: Vec<u8> = vec![7, 0, 255, 13, 42];
    data.extend_from_slice(url.as_bytes());
    data.extend_from_slice(&[9, 1, 254, 3]);

    let result = find_gacha_urls_in_slice(&data, "MARKERv3", "https://host/", "END=1");
    let result = result.unwrap();
    assert_eq!(1, result.len());
    assert_eq!(url, result[0]);
}

#[test]
fn extract_all_rejects_empty_input() {
    let data: Vec<u8> = Vec::new();
    let result = extract_all(
        &data,
        "gacha-v3",
        "https://gs.hoyoverse.com/",
        "game_biz=hk4e_global",
    );
    assert_eq!(result.unwrap_err(), ExtractError::NoCandidates);
}

#[test]
fn extract_all_rejects_marker_free_input() {
    let data = "nothing interesting in here".as_bytes().to_vec();
    let result = extract_all(
        &data,
        "gacha-v3",
        "https://gs.hoyoverse.com/",
        "game_biz=hk4e_global",
    );
    assert_eq!(result.unwrap_err(), ExtractError::NoCandidates);
}

#[test]
fn extract_all_returns_candidates() {
    let url = "https://gs.hoyoverse.com/genshin/event/e20190909gacha-v3/index.html?a&game_biz=hk4e_global";
    let data = url.as_bytes().to_vec();
    let result = extract_all(
        &data,
        "gacha-v3",
        "https://gs.hoyoverse.com/",
        "game_biz=hk4e_global",
    );
    let urls = result.unwrap();
    assert_eq!(vec![url.to_string()], urls);
}

// A failed occurrence aborts the fail-fast scan but is skipped by the
// best-effort one.
#[test]
fn lenient_extraction_skips_failed_occurrences() {
    let good = "https://gs.hoyoverse.com/genshin/event/e20190909gacha-v3/index.html?ok&game_biz=hk4e_global";
    let mut data: Vec<u8> = Vec::new();
    // A presence marker whose window holds no start token.
    data.extend_from_slice(b"noise e20190909gacha-v3 noise game_biz=hk4e_global ");
    data.extend_from_slice(good.as_bytes());

    let strict = find_gacha_urls_in_slice(
        &data,
        "gacha-v3",
        "https://gs.hoyoverse.com/",
        "game_biz=hk4e_global",
    );
    assert_eq!(strict.unwrap_err(), ExtractError::StartTokenNotFound);

    let lenient = extract_all_lenient(
        &data,
        "gacha-v3",
        "https://gs.hoyoverse.com/",
        "game_biz=hk4e_global",
    );
    let urls = lenient.unwrap();
    assert_eq!(vec![good.to_string()], urls);
}

#[test]
fn lenient_extraction_still_needs_one_candidate() {
    let data = "noise e20190909gacha-v3 noise".as_bytes().to_vec();
    let result = extract_all_lenient(
        &data,
        "gacha-v3",
        "https://gs.hoyoverse.com/",
        "game_biz=hk4e_global",
    );
    assert_eq!(result.unwrap_err(), ExtractError::NoCandidates);
}
