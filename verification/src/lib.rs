//! Scans a game client's browser-engine disk cache for an embedded pull
//! history URL.
//!
//! The crate discovers the newest cache generation by ranking directory
//! names as four-component version keys, scans the cache file's raw bytes
//! for a URL bounded by textual markers, and normalizes candidate URLs for
//! validation against a backend.  All file system and network traffic is
//! left to the caller: the functions here work on plain values (names,
//! bytes, strings) and carry contracts for what they compute.

pub mod extract;
pub mod locate;
pub mod profile;
pub mod urlcheck;
pub mod version;
