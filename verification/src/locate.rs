//! Ranking web cache generation directories and naming the data file.
//!
//! The caller lists the entries of a web cache directory and hands their
//! names over; everything here works on those plain names.  Entries whose
//! names spell a four-component version key are ranked, and the newest
//! one names the cache generation that holds the data file.

use vstd::prelude::*;
use vstd::string::StringExecFns;
use crate::version::{filename_to_version, version_key_of, version_lt, Version};

verus! {

/// A directory entry name paired with the version key its name spells.
pub struct VersionedEntry {
    pub name: String,
    pub version: Version,
}

/// The (name, key) pair an entry name contributes, if its name spells a
/// version key.
pub open spec fn entry_pair(n: String) -> Option<(Seq<char>, Version)> {
    match version_key_of(n@) {
        Some(v) => Some((n@, v)),
        None => None,
    }
}

/// [`entry_pair`] as a function value, for use with sequence folds.
pub open spec fn entry_pair_fn() -> spec_fn(String) -> Option<(Seq<char>, Version)> {
    |n: String| entry_pair(n)
}

/// The model of a list of entries: each as its (name, key) pair.
pub open spec fn entries_model(r: Seq<VersionedEntry>) -> Seq<(Seq<char>, Version)> {
    r.map_values(|e: VersionedEntry| (e.name@, e.version))
}

/// The (name, key) pairs of the names that spell version keys, in order.
pub open spec fn versioned_pairs_of(names: Seq<String>) -> Seq<(Seq<char>, Version)> {
    names.filter_map(entry_pair_fn())
}

/// Keeps, in order, the entries whose names spell a version key, and
/// silently ignores every other name.
pub fn collect_versioned_entries(names: &Vec<String>) -> (r: Vec<VersionedEntry>)
    ensures
        entries_model(r@) == versioned_pairs_of(names@),
{
    let mut r: Vec<VersionedEntry> = Vec::new();
    let mut i: usize = 0;
    proof {
        assert(names@.take(0).filter_map(entry_pair_fn()) =~= Seq::<(Seq<char>, Version)>::empty());
        assert(entries_model(r@) =~= Seq::<(Seq<char>, Version)>::empty());
    }
    while i < names.len()
        invariant
            i <= names@.len(),
            entries_model(r@) == names@.take(i as int).filter_map(entry_pair_fn()),
        decreases names@.len() - i,
    {
        let name: &String = &names[i];
        let ghost old_model = entries_model(r@);
        match filename_to_version(name.as_str()) {
            Some(v) => {
                r.push(VersionedEntry { name: name.clone(), version: v });
                proof {
                    assert(entries_model(r@) =~= old_model.push((name@, v)));
                }
            },
            None => {},
        }
        proof {
            names@.lemma_filter_map_take_succ(entry_pair_fn(), i as int);
            match entry_pair_fn()(names@[i as int]) {
                Some(p) => {
                    assert(old_model.push(p) =~= old_model + seq![p]);
                },
                None => {
                    assert(old_model + Seq::<(Seq<char>, Version)>::empty() =~= old_model);
                },
            }
        }
        i = i + 1;
    }
    proof {
        assert(names@.take(names@.len() as int) =~= names@);
    }
    r
}

/// Index of the first entry carrying a maximal version key.
pub open spec fn is_first_max(model: Seq<(Seq<char>, Version)>, i: int) -> bool {
    &&& 0 <= i < model.len()
    &&& forall|j: int| 0 <= j < model.len() ==> !version_lt(model[i].1, (#[trigger] model[j]).1)
    &&& forall|j: int| 0 <= j < i ==> version_lt((#[trigger] model[j]).1, model[i].1)
}

/// Picks the entry with the maximal version key; among entries whose
/// keys tie, the first one listed wins.
pub fn latest_entry_index(entries: &Vec<VersionedEntry>) -> (r: Option<usize>)
    ensures
        match r {
            Some(i) => i < entries@.len() && (forall|j: int|
                0 <= j < entries@.len() ==> !version_lt(
                    entries@[i as int].version,
                    (#[trigger] entries@[j]).version,
                )) && (forall|j: int|
                0 <= j < i ==> version_lt(
                    (#[trigger] entries@[j]).version,
                    entries@[i as int].version,
                )),
            None => entries@.len() == 0,
        },
{
    if entries.len() == 0 {
        return None;
    }
    let mut best: usize = 0;
    let mut j: usize = 1;
    while j < entries.len()
        invariant
            best < j <= entries@.len(),
            forall|k: int|
                0 <= k < j ==> !version_lt(
                    entries@[best as int].version,
                    (#[trigger] entries@[k]).version,
                ),
            forall|k: int|
                0 <= k < best ==> version_lt(
                    (#[trigger] entries@[k]).version,
                    entries@[best as int].version,
                ),
        decreases entries@.len() - j,
    {
        if entries[best].version.is_older_than(&entries[j].version) {
            proof {
                let vb = entries@[best as int].version;
                let vj = entries@[j as int].version;
                assert forall|k: int| 0 <= k < j implies version_lt(
                    (#[trigger] entries@[k]).version,
                    vj,
                ) by {
                    let vk = entries@[k].version;
                    crate::version::lemma_version_order_total(vk, vj);
                    if vk == vj {
                        assert(version_lt(vb, vk));
                    } else if version_lt(vj, vk) {
                        crate::version::lemma_version_order_transitive(vb, vj, vk);
                    }
                }
                assert forall|k: int| 0 <= k <= j implies !version_lt(
                    vj,
                    (#[trigger] entries@[k]).version,
                ) by {
                    let vk = entries@[k].version;
                    if k < j && version_lt(vj, vk) {
                        crate::version::lemma_version_order_transitive(vb, vj, vk);
                    }
                    if k == j {
                        crate::version::lemma_version_order_irreflexive(vj);
                    }
                }
            }
            best = j;
        }
        j = j + 1;
    }
    Some(best)
}

/// Names the data file of the newest cache generation: the entry name
/// with the maximal version key, extended by the fixed relative path of
/// the cache data file.  Comes back empty when no entry name spells a
/// version key, which is a lookup failure, not an error.
pub fn latest_data2_relative_path(names: &Vec<String>) -> (r: Option<String>)
    ensures
        match r {
            Some(p) => exists|i: int|
                #[trigger] is_first_max(versioned_pairs_of(names@), i) && p@ == versioned_pairs_of(
                    names@,
                )[i].0 + "/Cache/Cache_Data/data_2"@,
            None => versioned_pairs_of(names@).len() == 0,
        },
{
    let entries = collect_versioned_entries(names);
    match latest_entry_index(&entries) {
        None => None,
        Some(i) => {
            let mut p = String::from_str(entries[i].name.as_str());
            p.append("/Cache/Cache_Data/data_2");
            proof {
                let model = versioned_pairs_of(names@);
                assert(model == entries_model(entries@));
                assert(is_first_max(model, i as int));
                assert(p@ == model[i as int].0 + "/Cache/Cache_Data/data_2"@);
            }
            Some(p)
        },
    }
}

} // verus!
