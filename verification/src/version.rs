//! Four-component version keys parsed from cache directory names.

use vstd::prelude::*;
use vstd::string::StrSliceExecFns;

verus! {

/// A version key with four numeric components, as found in the names of
/// web cache generation directories.  Ordering is lexicographic by
/// component, so `1.2.4.0` ranks above `1.2.3.5000`.
#[derive(Clone, Copy, Debug, PartialEq, Eq, Structural)]
pub struct Version {
    pub major: u32,
    pub minor: u32,
    pub patch: u32,
    pub other: u32,
}

/// Strict lexicographic order on the four components: compare `major`,
/// then `minor`, then `patch`, then `other`.
pub open spec fn version_lt(a: Version, b: Version) -> bool {
    if a.major != b.major {
        a.major < b.major
    } else if a.minor != b.minor {
        a.minor < b.minor
    } else if a.patch != b.patch {
        a.patch < b.patch
    } else {
        a.other < b.other
    }
}

impl Version {
    /// True when `self` ranks strictly below `other`, that is, `other`
    /// names a newer cache generation.
    pub fn is_older_than(&self, other: &Version) -> (r: bool)
        ensures
            r == version_lt(*self, *other),
    {
        if self.major != other.major {
            self.major < other.major
        } else if self.minor != other.minor {
            self.minor < other.minor
        } else if self.patch != other.patch {
            self.patch < other.patch
        } else {
            self.other < other.other
        }
    }
}

/// The order never relates a key to itself.
pub proof fn lemma_version_order_irreflexive(a: Version)
    ensures
        !version_lt(a, a),
{
}

/// At most one direction of the order holds between two keys.
pub proof fn lemma_version_order_asymmetric(a: Version, b: Version)
    ensures
        version_lt(a, b) ==> !version_lt(b, a),
{
}

/// The order composes transitively.
pub proof fn lemma_version_order_transitive(a: Version, b: Version, c: Version)
    requires
        version_lt(a, b),
        version_lt(b, c),
    ensures
        version_lt(a, c),
{
}

/// Any two distinct keys are ordered one way or the other: together with
/// irreflexivity, asymmetry and transitivity this makes the order a
/// strict total order on version keys.
pub proof fn lemma_version_order_total(a: Version, b: Version)
    ensures
        version_lt(a, b) || version_lt(b, a) || a == b,
{
}

/// A decimal digit.
pub open spec fn is_digit(c: char) -> bool {
    '0' <= c && c <= '9'
}

/// Numeric value of a decimal digit.
pub open spec fn digit_val(c: char) -> int
    recommends
        is_digit(c),
{
    c as u32 - 48
}

/// Every character of `s` is a decimal digit.
pub open spec fn all_digits(s: Seq<char>) -> bool {
    forall|i: int| 0 <= i < s.len() ==> is_digit(#[trigger] s[i])
}

/// Value of `s` read as a base-10 numeral.
pub open spec fn digits_val(s: Seq<char>) -> int
    recommends
        all_digits(s),
    decreases s.len(),
{
    if s.len() == 0 {
        0
    } else {
        digits_val(s.drop_last()) * 10 + digit_val(s.last())
    }
}

/// A usable version component: a non-empty run of digits whose value
/// fits in a `u32`.
pub open spec fn is_component(s: Seq<char>) -> bool {
    s.len() > 0 && all_digits(s) && digits_val(s) <= u32::MAX
}

/// No `'.'` occurs in `s` at an index in `[lo, hi)`.
pub open spec fn no_dots(s: Seq<char>, lo: int, hi: int) -> bool {
    forall|j: int| lo <= j < hi ==> (#[trigger] s[j]) != '.'
}

/// `d1 < d2 < d3` are the positions of the dots of `s`, and there are no
/// others: `s` splits on `'.'` into exactly four parts.
pub open spec fn is_dot_split(s: Seq<char>, d1: int, d2: int, d3: int) -> bool {
    &&& 0 <= d1 < d2 < d3 < s.len()
    &&& s[d1] == '.'
    &&& s[d2] == '.'
    &&& s[d3] == '.'
    &&& forall|j: int| 0 <= j < s.len() && (#[trigger] s[j]) == '.' ==> j == d1 || j == d2 || j == d3
}

/// All four parts of the split at `d1 < d2 < d3` are usable components.
pub open spec fn components_ok(s: Seq<char>, d1: int, d2: int, d3: int) -> bool {
    &&& is_component(s.subrange(0, d1))
    &&& is_component(s.subrange(d1 + 1, d2))
    &&& is_component(s.subrange(d2 + 1, d3))
    &&& is_component(s.subrange(d3 + 1, s.len() as int))
}

/// `s` splits on `'.'` into exactly four usable components at `d1 < d2 < d3`.
pub open spec fn valid_version_split(s: Seq<char>, d1: int, d2: int, d3: int) -> bool {
    is_dot_split(s, d1, d2, d3) && components_ok(s, d1, d2, d3)
}

/// The key read off a valid split of `s` at `d1 < d2 < d3`.
pub open spec fn version_from_split(s: Seq<char>, d1: int, d2: int, d3: int) -> Version
    recommends
        valid_version_split(s, d1, d2, d3),
{
    Version {
        major: digits_val(s.subrange(0, d1)) as u32,
        minor: digits_val(s.subrange(d1 + 1, d2)) as u32,
        patch: digits_val(s.subrange(d2 + 1, d3)) as u32,
        other: digits_val(s.subrange(d3 + 1, s.len() as int)) as u32,
    }
}

/// The version key named by `s`, if any: `s` must split on `'.'` into
/// exactly four non-empty all-digit parts, each fitting in a `u32`.
/// Any other shape names no version.
pub open spec fn version_key_of(s: Seq<char>) -> Option<Version> {
    if exists|d1: int, d2: int, d3: int| #[trigger] valid_version_split(s, d1, d2, d3) {
        let (d1, d2, d3) = choose|d1: int, d2: int, d3: int|
            #[trigger] valid_version_split(s, d1, d2, d3);
        Some(version_from_split(s, d1, d2, d3))
    } else {
        None
    }
}

/// A name that does not split on `'.'` into exactly four usable integer
/// components names no version key at all.
pub proof fn lemma_no_valid_split_no_version(s: Seq<char>)
    requires
        forall|d1: int, d2: int, d3: int| !valid_version_split(s, d1, d2, d3),
    ensures
        version_key_of(s) is None,
{
}

/// A valid split of `s` is unique: the three dot positions are pinned by
/// the dots of `s` themselves.
pub proof fn lemma_dot_split_unique(s: Seq<char>, a: int, b: int, c: int, x: int, y: int, z: int)
    requires
        is_dot_split(s, a, b, c),
        is_dot_split(s, x, y, z),
    ensures
        a == x && b == y && c == z,
{
    assert(s[a] == '.');
    assert(s[b] == '.');
    assert(s[c] == '.');
    assert(s[x] == '.');
    assert(s[y] == '.');
    assert(s[z] == '.');
}

proof fn lemma_digits_val_nonneg(s: Seq<char>)
    requires
        all_digits(s),
    ensures
        digits_val(s) >= 0,
    decreases s.len(),
{
    if s.len() > 0 {
        assert(all_digits(s.drop_last()));
        lemma_digits_val_nonneg(s.drop_last());
    }
}

proof fn lemma_digits_val_prefix(s: Seq<char>, k: int)
    requires
        all_digits(s),
        0 <= k <= s.len(),
    ensures
        digits_val(s.subrange(0, k)) <= digits_val(s),
    decreases s.len() - k,
{
    if k == s.len() {
        assert(s.subrange(0, k) =~= s);
    } else {
        let t = s.subrange(0, k + 1);
        assert(t.drop_last() =~= s.subrange(0, k));
        assert(all_digits(s.subrange(0, k)));
        lemma_digits_val_nonneg(s.subrange(0, k));
        assert(is_digit(s[k]));
        assert(digits_val(t) >= digits_val(s.subrange(0, k)));
        lemma_digits_val_prefix(s, k + 1);
    }
}

/// Parses `s[start..end]` as one version component: a non-empty run of
/// decimal digits whose value fits in a `u32`.
fn parse_component(s: &str, start: usize, end: usize) -> (r: Option<u32>)
    requires
        start <= end <= s@.len(),
    ensures
        ({
            let sub = s@.subrange(start as int, end as int);
            match r {
                Some(v) => is_component(sub) && v == digits_val(sub),
                None => !is_component(sub),
            }
        }),
{
    let ghost sub = s@.subrange(start as int, end as int);
    if start == end {
        return None;
    }
    let mut acc: u64 = 0;
    let mut i: usize = start;
    while i < end
        invariant
            start <= i <= end <= s@.len(),
            sub == s@.subrange(start as int, end as int),
            all_digits(s@.subrange(start as int, i as int)),
            acc == digits_val(s@.subrange(start as int, i as int)),
            acc <= u32::MAX,
        decreases end - i,
    {
        let c = s.get_char(i);
        let u = c as u32;
        if u < 48 || u > 57 {
            proof {
                assert(sub[i - start] == s@[i as int]);
                assert(!is_digit(sub[i - start]));
            }
            return None;
        }
        let d: u64 = (u - 48) as u64;
        let next: u64 = acc * 10 + d;
        proof {
            assert(s@.subrange(start as int, i + 1) =~= s@.subrange(
                start as int,
                i as int,
            ).push(s@[i as int]));
            assert(s@.subrange(start as int, i + 1).drop_last() =~= s@.subrange(
                start as int,
                i as int,
            ));
            assert(digits_val(s@.subrange(start as int, i + 1)) == acc * 10 + digit_val(
                s@[i as int],
            ));
        }
        if next > 0xFFFF_FFFF {
            proof {
                if is_component(sub) {
                    assert(sub.subrange(0, i + 1 - start) =~= s@.subrange(start as int, i + 1));
                    lemma_digits_val_prefix(sub, i + 1 - start);
                    assert(digits_val(sub) >= next);
                    assert(false);
                }
            }
            return None;
        }
        acc = next;
        i = i + 1;
    }
    proof {
        assert(s@.subrange(start as int, i as int) =~= sub);
    }
    Some(acc as u32)
}

/// Reads a directory name as a version key.  Returns the key when the
/// name splits on `'.'` into exactly four non-negative integers, and
/// nothing for any other shape: a wrong part count, an empty part, a
/// non-digit character, or a value too large for a `u32`.
pub fn filename_to_version(filename: &str) -> (r: Option<Version>)
    ensures
        r == version_key_of(filename@),
{
    let ghost s = filename@;
    let n = filename.unicode_len();
    let mut count: usize = 0;
    let mut d1: usize = 0;
    let mut d2: usize = 0;
    let mut d3: usize = 0;
    let mut d4: usize = 0;
    let mut i: usize = 0;
    while i < n
        invariant
            i <= n,
            n == s.len(),
            s == filename@,
            count <= i,
            count == 0 ==> no_dots(s, 0, i as int),
            count >= 1 ==> d1 < i && s[d1 as int] == '.' && no_dots(s, 0, d1 as int),
            count == 1 ==> no_dots(s, d1 + 1, i as int),
            count >= 2 ==> d1 < d2 < i && s[d2 as int] == '.' && no_dots(s, d1 + 1, d2 as int),
            count == 2 ==> no_dots(s, d2 + 1, i as int),
            count >= 3 ==> d2 < d3 < i && s[d3 as int] == '.' && no_dots(s, d2 + 1, d3 as int),
            count == 3 ==> no_dots(s, d3 + 1, i as int),
            count >= 4 ==> d3 < d4 < i && s[d4 as int] == '.',
        decreases n - i,
    {
        let c = filename.get_char(i);
        if c == '.' {
            if count == 0 {
                d1 = i;
            } else if count == 1 {
                d2 = i;
            } else if count == 2 {
                d3 = i;
            } else if count == 3 {
                d4 = i;
            }
            count = count + 1;
        }
        i = i + 1;
    }
    if count != 3 {
        proof {
            assert forall|a: int, b: int, c: int| !valid_version_split(s, a, b, c) by {
                if is_dot_split(s, a, b, c) {
                    assert(s[a] == '.');
                    assert(s[b] == '.');
                    assert(s[c] == '.');
                    if count == 0 {
                        assert(false);
                    } else if count == 1 {
                        assert(a == d1 && b == d1);
                        assert(false);
                    } else if count == 2 {
                        assert(a == d1 || a == d2);
                        assert(b == d1 || b == d2);
                        assert(c == d1 || c == d2);
                        assert(false);
                    } else {
                        assert(s[d1 as int] == '.');
                        assert(s[d2 as int] == '.');
                        assert(s[d3 as int] == '.');
                        assert(s[d4 as int] == '.');
                        assert(false);
                    }
                }
            }
        }
        return None;
    }
    proof {
        assert(is_dot_split(s, d1 as int, d2 as int, d3 as int));
    }
    let major = match parse_component(filename, 0, d1) {
        Some(v) => v,
        None => {
            proof {
                lemma_version_key_none(s, d1 as int, d2 as int, d3 as int);
            }
            return None;
        },
    };
    let minor = match parse_component(filename, d1 + 1, d2) {
        Some(v) => v,
        None => {
            proof {
                lemma_version_key_none(s, d1 as int, d2 as int, d3 as int);
            }
            return None;
        },
    };
    let patch = match parse_component(filename, d2 + 1, d3) {
        Some(v) => v,
        None => {
            proof {
                lemma_version_key_none(s, d1 as int, d2 as int, d3 as int);
            }
            return None;
        },
    };
    let other = match parse_component(filename, d3 + 1, n) {
        Some(v) => v,
        None => {
            proof {
                lemma_version_key_none(s, d1 as int, d2 as int, d3 as int);
            }
            return None;
        },
    };
    proof {
        assert(valid_version_split(s, d1 as int, d2 as int, d3 as int));
        let (a, b, c) = choose|a: int, b: int, c: int| #[trigger] valid_version_split(s, a, b, c);
        lemma_dot_split_unique(s, a, b, c, d1 as int, d2 as int, d3 as int);
    }
    Some(Version { major, minor, patch, other })
}

/// When the dots of `s` sit at `d1 < d2 < d3` but one part is not a
/// usable component, `s` names no version.
proof fn lemma_version_key_none(s: Seq<char>, d1: int, d2: int, d3: int)
    requires
        is_dot_split(s, d1, d2, d3),
        !components_ok(s, d1, d2, d3),
    ensures
        version_key_of(s) is None,
{
    if exists|a: int, b: int, c: int| #[trigger] valid_version_split(s, a, b, c) {
        let (a, b, c) = choose|a: int, b: int, c: int| #[trigger] valid_version_split(s, a, b, c);
        lemma_dot_split_unique(s, a, b, c, d1, d2, d3);
    }
}

} // verus!
