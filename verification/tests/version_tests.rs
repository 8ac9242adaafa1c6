use pull_extractor::version::{filename_to_version, Version};

#[test]
fn version_order_is_componentwise() {
    let older = Version { major: 1, minor: 2, patch: 3, other: 5000 };
    let newer = Version { major: 1, minor: 2, patch: 4, other: 0 };
    // A smaller last component does not make a version older when an
    // earlier component is larger.
    assert!(older.is_older_than(&newer));
    assert!(!newer.is_older_than(&older));
    assert!(!older.is_older_than(&older));
}

#[test]
fn version_components_compare_numerically() {
    // "4" < "10" must hold by value, not as strings.
    let four = filename_to_version("1.2.3.4").unwrap();
    let ten = filename_to_version("1.2.3.10").unwrap();
    assert!(four.is_older_than(&ten));
    assert!(!ten.is_older_than(&four));
}

#[test]
fn parse_accepts_four_numeric_components() {
    assert_eq!(
        filename_to_version("4.5.6.7"),
        Some(Version { major: 4, minor: 5, patch: 6, other: 7 })
    );
    assert_eq!(
        filename_to_version("1.2.3.5000"),
        Some(Version { major: 1, minor: 2, patch: 3, other: 5000 })
    );
    // Leading zeros are ordinary decimal notation.
    assert_eq!(
        filename_to_version("01.002.0.4294967295"),
        Some(Version { major: 1, minor: 2, patch: 0, other: 4294967295 })
    );
}

#[test]
fn parse_rejects_wrong_component_counts() {
    assert_eq!(filename_to_version("4.5.6"), None);
    assert_eq!(filename_to_version("4.5.6.7.8"), None);
    assert_eq!(filename_to_version("4"), None);
    assert_eq!(filename_to_version(""), None);
}

#[test]
fn parse_rejects_non_numeric_components() {
    assert_eq!(filename_to_version("4.5.6.a"), None);
    assert_eq!(filename_to_version("4.5.6.7a"), None);
    assert_eq!(filename_to_version("4.5..6"), None);
    assert_eq!(filename_to_version("4.5.6.+7"), None);
    assert_eq!(filename_to_version("4.5.6. 7"), None);
}

#[test]
fn parse_rejects_oversized_components() {
    assert_eq!(filename_to_version("1.2.3.4294967296"), None);
    assert_eq!(filename_to_version("99999999999999999999.0.0.0"), None);
}
