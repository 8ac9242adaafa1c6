use pull_extractor::locate::{
    collect_versioned_entries, latest_data2_relative_path, latest_entry_index,
    VersionedEntry,
};
use pull_extractor::version::Version;

#[test]
fn collect_keeps_only_version_named_entries() {
    let names = vec![
        "1.2.3.4".to_string(),
        "notes.txt".to_string(),
        "2.0.0.1".to_string(),
        "2.0".to_string(),
    ];
    let entries = collect_versioned_entries(&names);
    assert_eq!(entries.len(), 2);
    assert_eq!(entries[0].name, "1.2.3.4");
    assert_eq!(entries[0].version, Version { major: 1, minor: 2, patch: 3, other: 4 });
    assert_eq!(entries[1].name, "2.0.0.1");
    assert_eq!(entries[1].version, Version { major: 2, minor: 0, patch: 0, other: 1 });
}

#[test]
fn latest_picks_the_maximal_version() {
    let entries = vec![
        VersionedEntry {
            name: "1.2.3.5000".to_string(),
            version: Version { major: 1, minor: 2, patch: 3, other: 5000 },
        },
        VersionedEntry {
            name: "1.2.4.0".to_string(),
            version: Version { major: 1, minor: 2, patch: 4, other: 0 },
        },
    ];
    assert_eq!(latest_entry_index(&entries), Some(1));
}

// Entries with equal keys tie; the first one listed wins.
#[test]
fn latest_breaks_ties_by_first_listed() {
    let entries = vec![
        VersionedEntry {
            name: "a".to_string(),
            version: Version { major: 1, minor: 0, patch: 0, other: 0 },
        },
        VersionedEntry {
            name: "b".to_string(),
            version: Version { major: 1, minor: 0, patch: 0, other: 0 },
        },
    ];
    assert_eq!(latest_entry_index(&entries), Some(0));
}

#[test]
fn latest_of_nothing_is_none() {
    let entries: Vec<VersionedEntry> = Vec::new();
    assert_eq!(latest_entry_index(&entries), None);
}

// The data file path is found under the newest cache generation.
#[test]
fn data2_path_uses_newest_generation() {
    let names = vec!["1.2.3.5000".to_string(), "1.2.4.0".to_string()];
    let path = latest_data2_relative_path(&names);
    assert_eq!(path, Some("1.2.4.0/Cache/Cache_Data/data_2".to_string()));
}

#[test]
fn data2_path_of_empty_directory_is_none() {
    let names: Vec<String> = Vec::new();
    assert_eq!(latest_data2_relative_path(&names), None);
}

#[test]
fn data2_path_without_version_names_is_none() {
    let names = vec!["Cache".to_string(), "readme".to_string()];
    assert_eq!(latest_data2_relative_path(&names), None);
}
