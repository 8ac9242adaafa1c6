//! Supported products and the selection of one from an install root.
//!
//! Each supported product carries the name of its data directory and the
//! three marker strings that bound its pull history URL inside the cache
//! bytes.  Products are tried in a fixed priority order; the first one
//! whose data directory exists under the install root wins.

use vstd::prelude::*;
use vstd::string::StringExecFns;

verus! {

/// Which product a profile belongs to.  The tag picks the validation
/// strategy a caller should apply to extracted candidate URLs.
#[derive(Clone, Copy, Debug, PartialEq, Eq, Structural)]
pub enum GameKind {
    Genshin,
    ZenlessZoneZero,
}

/// Static, per-product configuration: the product's data directory name
/// and the marker strings bounding its pull history URL.
#[derive(Debug)]
pub struct GameProfile {
    pub data_dir_name: String,
    pub marker: String,
    pub url_start: String,
    pub url_end: String,
    pub kind: GameKind,
}

/// Failure to match an install root to a supported product.
#[derive(Clone, Copy, Debug, PartialEq, Eq, Structural)]
pub enum LookupError {
    /// No supported product's data directory exists under the root.
    NoMatchingProduct,
}

impl LookupError {
    /// A short description of the failure.
    pub fn message(&self) -> (r: &'static str)
        ensures
            r@ == "failed to find a supported data directory"@,
    {
        match self {
            LookupError::NoMatchingProduct => "failed to find a supported data directory",
        }
    }
}

/// The profile values configured for the Genshin product.
pub open spec fn genshin_profile_ok(p: GameProfile) -> bool {
    &&& p.kind == GameKind::Genshin
    &&& p.data_dir_name@ == "GenshinImpact_Data"@
    &&& p.marker@ == "e20190909gacha-v3"@
    &&& p.url_start@ == "https://gs.hoyoverse.com/"@
    &&& p.url_end@ == "game_biz=hk4e_global"@
}

/// The profile values configured for the Zenless Zone Zero product.
pub open spec fn zzz_profile_ok(p: GameProfile) -> bool {
    &&& p.kind == GameKind::ZenlessZoneZero
    &&& p.data_dir_name@ == "ZenlessZoneZero_Data"@
    &&& p.marker@ == "getGachaLog"@
    &&& p.url_start@ == "https://"@
    &&& p.url_end@ == "game_biz=nap_global"@
}

/// Some entry of `dirs` spells exactly the name `name`.
pub open spec fn dirs_contain(dirs: Seq<String>, name: Seq<char>) -> bool {
    exists|k: int| 0 <= k < dirs.len() && (#[trigger] dirs[k])@ == name
}

/// The Genshin profile.
pub fn genshin_profile() -> (p: GameProfile)
    ensures
        genshin_profile_ok(p),
{
    GameProfile {
        data_dir_name: String::from_str("GenshinImpact_Data"),
        marker: String::from_str("e20190909gacha-v3"),
        url_start: String::from_str("https://gs.hoyoverse.com/"),
        url_end: String::from_str("game_biz=hk4e_global"),
        kind: GameKind::Genshin,
    }
}

/// The Zenless Zone Zero profile.
pub fn zzz_profile() -> (p: GameProfile)
    ensures
        zzz_profile_ok(p),
{
    GameProfile {
        data_dir_name: String::from_str("ZenlessZoneZero_Data"),
        marker: String::from_str("getGachaLog"),
        url_start: String::from_str("https://"),
        url_end: String::from_str("game_biz=nap_global"),
        kind: GameKind::ZenlessZoneZero,
    }
}

fn contains_name(dirs: &Vec<String>, name: &String) -> (b: bool)
    ensures
        b == dirs_contain(dirs@, name@),
{
    let mut i: usize = 0;
    while i < dirs.len()
        invariant
            i <= dirs@.len(),
            forall|k: int| 0 <= k < i ==> (#[trigger] dirs@[k])@ != name@,
        decreases dirs@.len() - i,
    {
        if dirs[i].eq(name) {
            return true;
        }
        i = i + 1;
    }
    false
}

/// Scans an install root for a supported product's cache and extracts
/// its pull history URL.  The extractor itself only carries the chosen
/// configuration; all file reading is left to the caller.
#[derive(Debug)]
pub struct PullExtractor {
    pub install_path: String,
    pub game_type: GameProfile,
}

impl PullExtractor {
    /// Selects the product to work on: `install_dirs` lists the names of
    /// the entries under the install root, and the first supported
    /// product (Genshin before Zenless Zone Zero) whose data directory
    /// name is among them is chosen.  Fails when none matches.
    pub fn new(install_path: &str, install_dirs: &Vec<String>) -> (r: Result<
        PullExtractor,
        LookupError,
    >)
        ensures
            match r {
                Ok(e) => e.install_path@ == install_path@ && ((dirs_contain(
                    install_dirs@,
                    "GenshinImpact_Data"@,
                ) && genshin_profile_ok(e.game_type)) || (!dirs_contain(
                    install_dirs@,
                    "GenshinImpact_Data"@,
                ) && dirs_contain(install_dirs@, "ZenlessZoneZero_Data"@) && zzz_profile_ok(
                    e.game_type,
                ))),
                Err(err) => err == LookupError::NoMatchingProduct && !dirs_contain(
                    install_dirs@,
                    "GenshinImpact_Data"@,
                ) && !dirs_contain(install_dirs@, "ZenlessZoneZero_Data"@),
            },
    {
        let genshin = genshin_profile();
        if contains_name(install_dirs, &genshin.data_dir_name) {
            return Ok(
                PullExtractor {
                    install_path: String::from_str(install_path),
                    game_type: genshin,
                },
            );
        }
        let zzz = zzz_profile();
        if contains_name(install_dirs, &zzz.data_dir_name) {
            return Ok(
                PullExtractor { install_path: String::from_str(install_path), game_type: zzz },
            );
        }
        Err(LookupError::NoMatchingProduct)
    }
}

} // verus!
