//! Marker-bounded URL extraction from raw cache bytes.
//!
//! A candidate URL is located by finding a presence marker, then the first
//! end marker after it, then the last start token inside a bounded window
//! that ends where the end marker ends.  The window never reaches further
//! back than [`MAX_URL_LENGTH`] bytes, which bounds the scan and guards
//! against buffers holding no start token.

use vstd::prelude::*;
use vstd::slice::{slice_subrange, slice_to_vec};
use vstd::string::StringSliceAdditionalSpecFns;
use vstd::utf8::{decode_utf8, encode_utf8, encode_scalar, valid_utf8};
use bstr::ByteSlice;

verus! {

/// Upper bound on the length, in bytes, of a URL worth considering.
pub const MAX_URL_LENGTH: usize = 2048;

/// Why a scan produced no usable candidate.
#[derive(Clone, Copy, Debug, PartialEq, Eq, Structural)]
pub enum ExtractError {
    /// A presence marker had no end marker anywhere after it.
    EndMarkerNotFound,
    /// No start token occurs in the bounded window before an end offset.
    StartTokenNotFound,
    /// The bytes between start token and end offset are not UTF-8.
    InvalidUtf8,
    /// The scan finished without producing a single candidate.
    NoCandidates,
}

impl ExtractError {
    /// A short description of the failure.
    pub fn message(&self) -> (r: &'static str)
        ensures
            match self {
                ExtractError::EndMarkerNotFound => r@ == "end marker not found"@,
                ExtractError::StartTokenNotFound => r@ == "url start token not found"@,
                ExtractError::InvalidUtf8 => r@ == "candidate bytes are not valid UTF-8"@,
                ExtractError::NoCandidates => r@ == "found no candidate urls"@,
            },
    {
        match self {
            ExtractError::EndMarkerNotFound => "end marker not found",
            ExtractError::StartTokenNotFound => "url start token not found",
            ExtractError::InvalidUtf8 => "candidate bytes are not valid UTF-8",
            ExtractError::NoCandidates => "found no candidate urls",
        }
    }
}

/// The needle `n` occurs in `h` starting at index `i`.
pub open spec fn match_at(h: Seq<u8>, n: Seq<u8>, i: int) -> bool {
    0 <= i && i + n.len() <= h.len() && h.subrange(i, i + n.len() as int) == n
}

/// Index of the first occurrence of `n` in `h` at or after `from`.
pub open spec fn first_match_from(h: Seq<u8>, n: Seq<u8>, from: int) -> Option<int>
    decreases h.len() - from + 1,
{
    if from < 0 || from + n.len() > h.len() {
        None
    } else if match_at(h, n, from) {
        Some(from)
    } else {
        first_match_from(h, n, from + 1)
    }
}

/// Index of the last occurrence of `n` in `h` starting at or before `i`,
/// but not before `lo`.
pub open spec fn last_match_before(h: Seq<u8>, n: Seq<u8>, lo: int, i: int) -> Option<int>
    decreases i - lo + 1,
{
    if i < lo || lo < 0 {
        None
    } else if match_at(h, n, i) {
        Some(i)
    } else {
        last_match_before(h, n, lo, i - 1)
    }
}

/// What [`first_match_from`] returns: the first occurrence at or after
/// `from`, or nothing when there is none.
pub proof fn lemma_first_match_from_spec(h: Seq<u8>, n: Seq<u8>, from: int)
    requires
        0 <= from,
    ensures
        match first_match_from(h, n, from) {
            Some(i) => from <= i && match_at(h, n, i) && (forall|j: int|
                from <= j < i ==> !match_at(h, n, j)),
            None => forall|j: int| j >= from ==> !match_at(h, n, j),
        },
    decreases h.len() - from + 1,
{
    if from + n.len() > h.len() {
    } else if match_at(h, n, from) {
    } else {
        lemma_first_match_from_spec(h, n, from + 1);
    }
}

/// An occurrence at `i` with none between `from` and `i` pins the result
/// of [`first_match_from`].
pub proof fn lemma_first_match_from_exact(h: Seq<u8>, n: Seq<u8>, from: int, i: int)
    requires
        0 <= from <= i,
        match_at(h, n, i),
        forall|j: int| from <= j < i ==> !match_at(h, n, j),
    ensures
        first_match_from(h, n, from) == Some(i),
{
    lemma_first_match_from_spec(h, n, from);
    match first_match_from(h, n, from) {
        Some(k) => {
            if k < i {
                assert(!match_at(h, n, k));
            } else if k > i {
                assert(!match_at(h, n, i));
            }
        },
        None => {
            assert(!match_at(h, n, i));
        },
    }
}

/// With no occurrence at or after `from`, [`first_match_from`] finds none.
pub proof fn lemma_first_match_from_none(h: Seq<u8>, n: Seq<u8>, from: int)
    requires
        0 <= from,
        forall|j: int| j >= from ==> !match_at(h, n, j),
    ensures
        first_match_from(h, n, from) is None,
{
    lemma_first_match_from_spec(h, n, from);
    match first_match_from(h, n, from) {
        Some(k) => {
            assert(!match_at(h, n, k));
        },
        None => {},
    }
}

/// What [`last_match_before`] returns: the last occurrence in `[lo, i]`,
/// or nothing when there is none.
pub proof fn lemma_last_match_before_spec(h: Seq<u8>, n: Seq<u8>, lo: int, i: int)
    requires
        0 <= lo,
    ensures
        match last_match_before(h, n, lo, i) {
            Some(k) => lo <= k <= i && match_at(h, n, k) && (forall|j: int|
                k < j <= i ==> !match_at(h, n, j)),
            None => forall|j: int| lo <= j <= i ==> !match_at(h, n, j),
        },
    decreases i - lo + 1,
{
    if i < lo {
    } else if match_at(h, n, i) {
    } else {
        lemma_last_match_before_spec(h, n, lo, i - 1);
    }
}

/// An occurrence at `k` with none between `k` and `i` pins the result of
/// [`last_match_before`].
pub proof fn lemma_last_match_before_exact(h: Seq<u8>, n: Seq<u8>, lo: int, i: int, k: int)
    requires
        0 <= lo <= k <= i,
        match_at(h, n, k),
        forall|j: int| k < j <= i ==> !match_at(h, n, j),
    ensures
        last_match_before(h, n, lo, i) == Some(k),
{
    lemma_last_match_before_spec(h, n, lo, i);
    match last_match_before(h, n, lo, i) {
        Some(x) => {
            if x < k {
                assert(!match_at(h, n, k));
            } else if x > k {
                assert(!match_at(h, n, x));
            }
        },
        None => {
            assert(!match_at(h, n, k));
        },
    }
}

/// With no occurrence inside `[lo, i]`, [`last_match_before`] finds none.
pub proof fn lemma_last_match_before_none(h: Seq<u8>, n: Seq<u8>, lo: int, i: int)
    requires
        0 <= lo,
        forall|j: int| lo <= j <= i ==> !match_at(h, n, j),
    ensures
        last_match_before(h, n, lo, i) is None,
{
    lemma_last_match_before_spec(h, n, lo, i);
    match last_match_before(h, n, lo, i) {
        Some(k) => {
            assert(!match_at(h, n, k));
        },
        None => {},
    }
}

/// Occurrences inside a subrange of `h` are occurrences of `h`, shifted.
pub proof fn lemma_match_at_shift(h: Seq<u8>, n: Seq<u8>, lo: int, hi: int, i: int)
    requires
        0 <= lo <= hi <= h.len(),
    ensures
        match_at(h.subrange(lo, hi), n, i) <==> (0 <= i && i + n.len() <= hi - lo && match_at(
            h,
            n,
            lo + i,
        )),
{
    if 0 <= i && i + n.len() <= hi - lo {
        assert(h.subrange(lo, hi).subrange(i, i + n.len() as int) =~= h.subrange(
            lo + i,
            lo + i + n.len() as int,
        ));
    }
}

/// Encoding a non-empty character sequence yields at least one byte.
pub proof fn lemma_encode_utf8_nonempty(chars: Seq<char>)
    requires
        chars.len() > 0,
    ensures
        encode_utf8(chars).len() > 0,
{
    assert(encode_utf8(chars) == encode_scalar(chars[0] as u32) + encode_utf8(
        chars.drop_first(),
    ));
}

/// Start of the bounded window that ends at `url_end`.
pub open spec fn window_start_of(url_end: int) -> int {
    if url_end > MAX_URL_LENGTH as int {
        url_end - MAX_URL_LENGTH as int
    } else {
        0
    }
}

/// The candidate decoded for the presence-marker occurrence whose marker
/// text ends at `marker_end`, in fail-fast form: the first end marker at
/// or after `marker_end` closes the URL, and the last start token in the
/// bounded window before that end offset opens it.
pub open spec fn candidate_at(
    h: Seq<u8>,
    start_tok: Seq<u8>,
    end_mark: Seq<u8>,
    marker_end: int,
) -> Result<Seq<char>, ExtractError> {
    match first_match_from(h, end_mark, marker_end) {
        None => Err(ExtractError::EndMarkerNotFound),
        Some(e) => {
            let url_end = e + end_mark.len() as int;
            match last_match_before(
                h,
                start_tok,
                window_start_of(url_end),
                url_end - start_tok.len() as int,
            ) {
                None => Err(ExtractError::StartTokenNotFound),
                Some(u) => {
                    if valid_utf8(h.subrange(u, url_end)) {
                        Ok(decode_utf8(h.subrange(u, url_end)))
                    } else {
                        Err(ExtractError::InvalidUtf8)
                    }
                },
            }
        },
    }
}

/// All candidates from presence-marker occurrences at or after `pos`, in
/// left-to-right order, failing fast on the first occurrence that fails
/// a step.  Occurrences are non-overlapping: the scan resumes right
/// after each marker match.
pub open spec fn extract_spec(
    h: Seq<u8>,
    marker: Seq<u8>,
    start_tok: Seq<u8>,
    end_mark: Seq<u8>,
    pos: int,
) -> Result<Seq<Seq<char>>, ExtractError>
    decreases h.len() - pos + 1,
        when 0 <= pos && marker.len() > 0
{
    match first_match_from(h, marker, pos) {
        None => Ok(Seq::empty()),
        Some(m) => {
            proof {
                lemma_first_match_from_spec(h, marker, pos);
            }
            let marker_end = m + marker.len() as int;
            match candidate_at(h, start_tok, end_mark, marker_end) {
                Err(err) => Err(err),
                Ok(chars) => match extract_spec(h, marker, start_tok, end_mark, marker_end) {
                    Ok(rest) => Ok(seq![chars] + rest),
                    Err(err) => Err(err),
                },
            }
        },
    }
}

/// All candidates from occurrences at or after `pos`, in left-to-right
/// order, in best-effort form: an occurrence that fails a step is
/// skipped and the scan moves on.
pub open spec fn extract_lenient_spec(
    h: Seq<u8>,
    marker: Seq<u8>,
    start_tok: Seq<u8>,
    end_mark: Seq<u8>,
    pos: int,
) -> Seq<Seq<char>>
    decreases h.len() - pos + 1,
        when 0 <= pos && marker.len() > 0
{
    match first_match_from(h, marker, pos) {
        None => Seq::empty(),
        Some(m) => {
            proof {
                lemma_first_match_from_spec(h, marker, pos);
            }
            let marker_end = m + marker.len() as int;
            let rest = extract_lenient_spec(h, marker, start_tok, end_mark, marker_end);
            match candidate_at(h, start_tok, end_mark, marker_end) {
                Err(_) => rest,
                Ok(chars) => seq![chars] + rest,
            }
        },
    }
}

/// Relies on bstr's `ByteSlice::find`: returns the index of the first
/// occurrence of the needle in the haystack, or nothing when the needle
/// does not occur.
#[verifier::external_body]
fn bytes_find(h: &[u8], n: &[u8]) -> (r: Option<usize>)
    ensures
        match r {
            Some(i) => match_at(h@, n@, i as int) && (forall|j: int|
                0 <= j < i ==> !match_at(h@, n@, j)),
            None => forall|j: int| !match_at(h@, n@, j),
        },
{
    h.find(n)
}

/// Relies on bstr's `ByteSlice::rfind`: returns the index of the last
/// occurrence of the needle in the haystack, or nothing when the needle
/// does not occur.
#[verifier::external_body]
fn bytes_rfind(h: &[u8], n: &[u8]) -> (r: Option<usize>)
    ensures
        match r {
            Some(i) => match_at(h@, n@, i as int) && (forall|j: int|
                j > i ==> !match_at(h@, n@, j)),
            None => forall|j: int| !match_at(h@, n@, j),
        },
{
    h.rfind(n)
}

/// Relies on `String::from_utf8`: succeeds exactly on valid UTF-8 input
/// and returns the string spelling those bytes.
#[verifier::external_body]
fn bytes_to_string(v: Vec<u8>) -> (r: Option<String>)
    ensures
        r is Some <==> valid_utf8(v@),
        (r matches Some(s) ==> s@ == decode_utf8(v@)),
{
    String::from_utf8(v).ok()
}

/// A result of extraction, seen at the level of character sequences.
pub open spec fn extracted_view(r: Result<Vec<String>, ExtractError>) -> Result<
    Seq<Seq<char>>,
    ExtractError,
> {
    match r {
        Ok(v) => Ok(v.deep_view()),
        Err(e) => Err(e),
    }
}

/// Prepends already-collected candidates to the outcome of a scan of the
/// remaining bytes.
pub open spec fn with_prefix(
    pre: Seq<Seq<char>>,
    r: Result<Seq<Seq<char>>, ExtractError>,
) -> Result<Seq<Seq<char>>, ExtractError> {
    match r {
        Ok(rest) => Ok(pre + rest),
        Err(e) => Err(e),
    }
}

proof fn lemma_with_prefix_empty(r: Result<Seq<Seq<char>>, ExtractError>)
    ensures
        with_prefix(Seq::empty(), r) == r,
{
    match r {
        Ok(v) => {
            assert(Seq::<Seq<char>>::empty() + v =~= v);
        },
        Err(_) => {},
    }
}

/// Scans `content` for every candidate URL bounded by the given markers,
/// in left-to-right order of the presence marker's occurrences, and fails
/// on the first occurrence where a step finds nothing.  A buffer without
/// any presence marker yields an empty list.
#[verifier::loop_isolation(false)]
pub fn find_gacha_urls_in_slice(
    content: &[u8],
    marker: &str,
    url_start: &str,
    end_marker: &str,
) -> (r: Result<Vec<String>, ExtractError>)
    requires
        marker@.len() > 0,
    ensures
        extracted_view(r) == extract_spec(
            content@,
            marker.spec_bytes(),
            url_start.spec_bytes(),
            end_marker.spec_bytes(),
            0,
        ),
{
    let ghost gh = content@;
    let ghost gm = marker.spec_bytes();
    let ghost gs = url_start.spec_bytes();
    let ghost ge = end_marker.spec_bytes();
    let m_bytes: &[u8] = marker.as_bytes();
    let s_bytes: &[u8] = url_start.as_bytes();
    let e_bytes: &[u8] = end_marker.as_bytes();
    proof {
        lemma_encode_utf8_nonempty(marker@);
    }
    let n: usize = content.len();
    let mut urls: Vec<String> = Vec::new();
    let mut pos: usize = 0;
    proof {
        lemma_with_prefix_empty(extract_spec(gh, gm, gs, ge, 0));
        assert(urls.deep_view() =~= Seq::<Seq<char>>::empty());
    }
    loop
        invariant
            pos <= n,
            with_prefix(urls.deep_view(), extract_spec(gh, gm, gs, ge, pos as int)) == extract_spec(
                gh,
                gm,
                gs,
                ge,
                0,
            ),
        decreases n - pos,
    {
        let rest = slice_subrange(content, pos, n);
        match bytes_find(rest, m_bytes) {
            None => {
                proof {
                    assert forall|j: int| j >= pos implies !match_at(gh, gm, j) by {
                        if match_at(gh, gm, j) {
                            lemma_match_at_shift(gh, gm, pos as int, n as int, j - pos);
                        }
                    }
                    lemma_first_match_from_none(gh, gm, pos as int);
                    assert(urls.deep_view() + Seq::<Seq<char>>::empty() =~= urls.deep_view());
                }
                return Ok(urls);
            },
            Some(i) => {
                proof {
                    lemma_match_at_shift(gh, gm, pos as int, n as int, i as int);
                    assert forall|j: int| pos <= j < pos + i implies !match_at(gh, gm, j) by {
                        lemma_match_at_shift(gh, gm, pos as int, n as int, j - pos);
                    }
                    lemma_first_match_from_exact(gh, gm, pos as int, pos + i);
                }
                let m_abs = pos + i;
                let marker_end = m_abs + m_bytes.len();
                let rest2 = slice_subrange(content, marker_end, n);
                match bytes_find(rest2, e_bytes) {
                    None => {
                        proof {
                            assert forall|j: int| j >= marker_end implies !match_at(gh, ge, j) by {
                                if match_at(gh, ge, j) {
                                    lemma_match_at_shift(gh, ge, marker_end as int, n as int, j - marker_end);
                                }
                            }
                            lemma_first_match_from_none(gh, ge, marker_end as int);
                        }
                        return Err(ExtractError::EndMarkerNotFound);
                    },
                    Some(j) => {
                        proof {
                            lemma_match_at_shift(gh, ge, marker_end as int, n as int, j as int);
                            assert forall|j2: int| marker_end <= j2 < marker_end + j implies !match_at(
                                gh,
                                ge,
                                j2,
                            ) by {
                                lemma_match_at_shift(gh, ge, marker_end as int, n as int, j2 - marker_end);
                            }
                            lemma_first_match_from_exact(gh, ge, marker_end as int, marker_end + j);
                        }
                        let e_abs = marker_end + j;
                        let url_end = e_abs + e_bytes.len();
                        let window_start = if url_end > MAX_URL_LENGTH {
                            url_end - MAX_URL_LENGTH
                        } else {
                            0
                        };
                        let window = slice_subrange(content, window_start, url_end);
                        match bytes_rfind(window, s_bytes) {
                            None => {
                                proof {
                                    assert forall|j2: int|
                                        window_start <= j2 <= url_end - gs.len() implies !match_at(
                                        gh,
                                        gs,
                                        j2,
                                    ) by {
                                        if match_at(gh, gs, j2) {
                                            lemma_match_at_shift(
                                                gh,
                                                gs,
                                                window_start as int,
                                                url_end as int,
                                                j2 - window_start,
                                            );
                                        }
                                    }
                                    lemma_last_match_before_none(
                                        gh,
                                        gs,
                                        window_start as int,
                                        url_end - gs.len(),
                                    );
                                }
                                return Err(ExtractError::StartTokenNotFound);
                            },
                            Some(k) => {
                                proof {
                                    lemma_match_at_shift(
                                        gh,
                                        gs,
                                        window_start as int,
                                        url_end as int,
                                        k as int,
                                    );
                                    assert forall|j2: int|
                                        window_start + k < j2 <= url_end - gs.len() implies !match_at(
                                        gh,
                                        gs,
                                        j2,
                                    ) by {
                                        if match_at(gh, gs, j2) {
                                            lemma_match_at_shift(
                                                gh,
                                                gs,
                                                window_start as int,
                                                url_end as int,
                                                j2 - window_start,
                                            );
                                        }
                                    }
                                    lemma_last_match_before_exact(
                                        gh,
                                        gs,
                                        window_start as int,
                                        url_end - gs.len(),
                                        window_start + k,
                                    );
                                }
                                let u_abs = window_start + k;
                                let url_slice = slice_subrange(content, u_abs, url_end);
                                let url_vec = slice_to_vec(url_slice);
                                match bytes_to_string(url_vec) {
                                    None => {
                                        return Err(ExtractError::InvalidUtf8);
                                    },
                                    Some(s) => {
                                        proof {
                                            let ghost old_dv = urls.deep_view();
                                            let ghost inner = extract_spec(
                                                gh,
                                                gm,
                                                gs,
                                                ge,
                                                marker_end as int,
                                            );
                                            match inner {
                                                Ok(rest_urls) => {
                                                    assert(old_dv.push(s@) + rest_urls =~= old_dv + (
                                                    seq![s@] + rest_urls));
                                                },
                                                Err(_) => {},
                                            }
                                        }
                                        let ghost old_dv = urls.deep_view();
                                        urls.push(s);
                                        proof {
                                            assert(urls.deep_view() =~= old_dv.push(s@));
                                        }
                                        pos = marker_end;
                                    },
                                }
                            },
                        }
                    },
                }
            },
        }
    }
}

/// Extracts every candidate URL, failing fast on an occurrence that
/// fails a step, and failing with [`ExtractError::NoCandidates`] when the
/// scan produces no candidate at all (an empty buffer included).
pub fn extract_all(
    content: &[u8],
    marker: &str,
    url_start: &str,
    end_marker: &str,
) -> (r: Result<Vec<String>, ExtractError>)
    requires
        marker@.len() > 0,
    ensures
        match extract_spec(
            content@,
            marker.spec_bytes(),
            url_start.spec_bytes(),
            end_marker.spec_bytes(),
            0,
        ) {
            Ok(urls) => if urls.len() == 0 {
                r == Err::<Vec<String>, ExtractError>(ExtractError::NoCandidates)
            } else {
                extracted_view(r) == Ok::<Seq<Seq<char>>, ExtractError>(urls)
            },
            Err(e) => r == Err::<Vec<String>, ExtractError>(e),
        },
{
    match find_gacha_urls_in_slice(content, marker, url_start, end_marker) {
        Ok(urls) => {
            if urls.len() == 0 {
                Err(ExtractError::NoCandidates)
            } else {
                Ok(urls)
            }
        },
        Err(e) => Err(e),
    }
}

/// Scans `content` as [`extract_all`] does, but in best-effort form: an
/// occurrence that fails a step is skipped rather than aborting the
/// scan.  The scan still fails with [`ExtractError::NoCandidates`] when
/// no occurrence yields a candidate.
#[verifier::loop_isolation(false)]
pub fn extract_all_lenient(
    content: &[u8],
    marker: &str,
    url_start: &str,
    end_marker: &str,
) -> (r: Result<Vec<String>, ExtractError>)
    requires
        marker@.len() > 0,
    ensures
        ({
            let urls = extract_lenient_spec(
                content@,
                marker.spec_bytes(),
                url_start.spec_bytes(),
                end_marker.spec_bytes(),
                0,
            );
            if urls.len() == 0 {
                r == Err::<Vec<String>, ExtractError>(ExtractError::NoCandidates)
            } else {
                extracted_view(r) == Ok::<Seq<Seq<char>>, ExtractError>(urls)
            }
        }),
{
    let ghost gh = content@;
    let ghost gm = marker.spec_bytes();
    let ghost gs = url_start.spec_bytes();
    let ghost ge = end_marker.spec_bytes();
    let m_bytes: &[u8] = marker.as_bytes();
    let s_bytes: &[u8] = url_start.as_bytes();
    let e_bytes: &[u8] = end_marker.as_bytes();
    proof {
        lemma_encode_utf8_nonempty(marker@);
    }
    let n: usize = content.len();
    let mut urls: Vec<String> = Vec::new();
    let mut pos: usize = 0;
    proof {
        assert(urls.deep_view() + extract_lenient_spec(gh, gm, gs, ge, 0)
            =~= extract_lenient_spec(gh, gm, gs, ge, 0));
    }
    loop
        invariant
            pos <= n,
            urls.deep_view() + extract_lenient_spec(gh, gm, gs, ge, pos as int)
                == extract_lenient_spec(gh, gm, gs, ge, 0),
        decreases n - pos,
    {
        let rest = slice_subrange(content, pos, n);
        match bytes_find(rest, m_bytes) {
            None => {
                proof {
                    assert forall|j: int| j >= pos implies !match_at(gh, gm, j) by {
                        if match_at(gh, gm, j) {
                            lemma_match_at_shift(gh, gm, pos as int, n as int, j - pos);
                        }
                    }
                    lemma_first_match_from_none(gh, gm, pos as int);
                    assert(urls.deep_view() + Seq::<Seq<char>>::empty() =~= urls.deep_view());
                }
                if urls.len() == 0 {
                    return Err(ExtractError::NoCandidates);
                }
                return Ok(urls);
            },
            Some(i) => {
                proof {
                    lemma_match_at_shift(gh, gm, pos as int, n as int, i as int);
                    assert forall|j: int| pos <= j < pos + i implies !match_at(gh, gm, j) by {
                        lemma_match_at_shift(gh, gm, pos as int, n as int, j - pos);
                    }
                    lemma_first_match_from_exact(gh, gm, pos as int, pos + i);
                }
                let m_abs = pos + i;
                let marker_end = m_abs + m_bytes.len();
                let ghost old_dv = urls.deep_view();
                let rest2 = slice_subrange(content, marker_end, n);
                match bytes_find(rest2, e_bytes) {
                    None => {
                        proof {
                            assert forall|j: int| j >= marker_end implies !match_at(gh, ge, j) by {
                                if match_at(gh, ge, j) {
                                    lemma_match_at_shift(gh, ge, marker_end as int, n as int, j - marker_end);
                                }
                            }
                            lemma_first_match_from_none(gh, ge, marker_end as int);
                        }
                    },
                    Some(j) => {
                        proof {
                            lemma_match_at_shift(gh, ge, marker_end as int, n as int, j as int);
                            assert forall|j2: int| marker_end <= j2 < marker_end + j implies !match_at(
                                gh,
                                ge,
                                j2,
                            ) by {
                                lemma_match_at_shift(gh, ge, marker_end as int, n as int, j2 - marker_end);
                            }
                            lemma_first_match_from_exact(gh, ge, marker_end as int, marker_end + j);
                        }
                        let e_abs = marker_end + j;
                        let url_end = e_abs + e_bytes.len();
                        let window_start = if url_end > MAX_URL_LENGTH {
                            url_end - MAX_URL_LENGTH
                        } else {
                            0
                        };
                        let window = slice_subrange(content, window_start, url_end);
                        match bytes_rfind(window, s_bytes) {
                            None => {
                                proof {
                                    assert forall|j2: int|
                                        window_start <= j2 <= url_end - gs.len() implies !match_at(
                                        gh,
                                        gs,
                                        j2,
                                    ) by {
                                        if match_at(gh, gs, j2) {
                                            lemma_match_at_shift(
                                                gh,
                                                gs,
                                                window_start as int,
                                                url_end as int,
                                                j2 - window_start,
                                            );
                                        }
                                    }
                                    lemma_last_match_before_none(
                                        gh,
                                        gs,
                                        window_start as int,
                                        url_end - gs.len(),
                                    );
                                }
                            },
                            Some(k) => {
                                proof {
                                    lemma_match_at_shift(
                                        gh,
                                        gs,
                                        window_start as int,
                                        url_end as int,
                                        k as int,
                                    );
                                    assert forall|j2: int|
                                        window_start + k < j2 <= url_end - gs.len() implies !match_at(
                                        gh,
                                        gs,
                                        j2,
                                    ) by {
                                        if match_at(gh, gs, j2) {
                                            lemma_match_at_shift(
                                                gh,
                                                gs,
                                                window_start as int,
                                                url_end as int,
                                                j2 - window_start,
                                            );
                                        }
                                    }
                                    lemma_last_match_before_exact(
                                        gh,
                                        gs,
                                        window_start as int,
                                        url_end - gs.len(),
                                        window_start + k,
                                    );
                                }
                                let u_abs = window_start + k;
                                let url_slice = slice_subrange(content, u_abs, url_end);
                                let url_vec = slice_to_vec(url_slice);
                                match bytes_to_string(url_vec) {
                                    None => {},
                                    Some(s) => {
                                        proof {
                                            let ghost tail = extract_lenient_spec(
                                                gh,
                                                gm,
                                                gs,
                                                ge,
                                                marker_end as int,
                                            );
                                            assert(old_dv.push(s@) + tail =~= old_dv + (seq![s@]
                                                + tail));
                                        }
                                        urls.push(s);
                                        proof {
                                            assert(urls.deep_view() =~= old_dv.push(s@));
                                        }
                                    },
                                }
                            },
                        }
                    },
                }
                pos = marker_end;
            },
        }
    }
}

/// A buffer holding exactly one well-formed occurrence — presence marker
/// at `m`, first following end marker at `e`, last start token of the
/// bounded window at `u`, and UTF-8 bytes between — yields exactly one
/// candidate: the text from the start token through the end of the end
/// marker.
pub proof fn lemma_single_occurrence(
    h: Seq<u8>,
    marker: Seq<u8>,
    start_tok: Seq<u8>,
    end_mark: Seq<u8>,
    m: int,
    e: int,
    u: int,
)
    requires
        marker.len() > 0,
        match_at(h, marker, m),
        forall|j: int| j != m ==> !match_at(h, marker, j),
        e >= m + marker.len(),
        match_at(h, end_mark, e),
        forall|j: int| m + marker.len() <= j < e ==> !match_at(h, end_mark, j),
        window_start_of(e + end_mark.len() as int) <= u,
        u + start_tok.len() <= e + end_mark.len(),
        match_at(h, start_tok, u),
        forall|j: int| u < j <= e + end_mark.len() - start_tok.len() ==> !match_at(h, start_tok, j),
        valid_utf8(h.subrange(u, e + end_mark.len() as int)),
    ensures
        extract_spec(h, marker, start_tok, end_mark, 0) == Ok::<Seq<Seq<char>>, ExtractError>(
            seq![decode_utf8(h.subrange(u, e + end_mark.len() as int))],
        ),
{
    let marker_end = m + marker.len() as int;
    let url_end = e + end_mark.len() as int;
    lemma_first_match_from_exact(h, marker, 0, m);
    lemma_first_match_from_exact(h, end_mark, marker_end, e);
    lemma_last_match_before_exact(h, start_tok, window_start_of(url_end), url_end
        - start_tok.len() as int, u);
    assert forall|j: int| j >= marker_end implies !match_at(h, marker, j) by {}
    lemma_first_match_from_none(h, marker, marker_end);
    let c = decode_utf8(h.subrange(u, url_end));
    assert(candidate_at(h, start_tok, end_mark, marker_end) == Ok::<Seq<char>, ExtractError>(c));
    assert(extract_spec(h, marker, start_tok, end_mark, marker_end) == Ok::<
        Seq<Seq<char>>,
        ExtractError,
    >(Seq::empty()));
    assert(extract_spec(h, marker, start_tok, end_mark, 0) == Ok::<Seq<Seq<char>>, ExtractError>(
        seq![c] + Seq::empty(),
    ));
    assert(seq![c] + Seq::<Seq<char>>::empty() =~= seq![c]);
}

/// A buffer holding two well-formed, non-overlapping occurrences yields
/// both candidates, in left-to-right order of the presence marker.
pub proof fn lemma_two_occurrences(
    h: Seq<u8>,
    marker: Seq<u8>,
    start_tok: Seq<u8>,
    end_mark: Seq<u8>,
    m1: int,
    e1: int,
    u1: int,
    m2: int,
    e2: int,
    u2: int,
)
    requires
        marker.len() > 0,
        match_at(h, marker, m1),
        match_at(h, marker, m2),
        m1 + marker.len() <= m2,
        forall|j: int| j != m1 && j != m2 ==> !match_at(h, marker, j),
        e1 >= m1 + marker.len(),
        match_at(h, end_mark, e1),
        forall|j: int| m1 + marker.len() <= j < e1 ==> !match_at(h, end_mark, j),
        window_start_of(e1 + end_mark.len() as int) <= u1,
        u1 + start_tok.len() <= e1 + end_mark.len(),
        match_at(h, start_tok, u1),
        forall|j: int|
            u1 < j <= e1 + end_mark.len() - start_tok.len() ==> !match_at(h, start_tok, j),
        valid_utf8(h.subrange(u1, e1 + end_mark.len() as int)),
        e2 >= m2 + marker.len(),
        match_at(h, end_mark, e2),
        forall|j: int| m2 + marker.len() <= j < e2 ==> !match_at(h, end_mark, j),
        window_start_of(e2 + end_mark.len() as int) <= u2,
        u2 + start_tok.len() <= e2 + end_mark.len(),
        match_at(h, start_tok, u2),
        forall|j: int|
            u2 < j <= e2 + end_mark.len() - start_tok.len() ==> !match_at(h, start_tok, j),
        valid_utf8(h.subrange(u2, e2 + end_mark.len() as int)),
    ensures
        extract_spec(h, marker, start_tok, end_mark, 0) == Ok::<Seq<Seq<char>>, ExtractError>(
            seq![
                decode_utf8(h.subrange(u1, e1 + end_mark.len() as int)),
                decode_utf8(h.subrange(u2, e2 + end_mark.len() as int)),
            ],
        ),
{
    let end1 = m1 + marker.len() as int;
    let end2 = m2 + marker.len() as int;
    let url_end1 = e1 + end_mark.len() as int;
    let url_end2 = e2 + end_mark.len() as int;
    lemma_first_match_from_exact(h, marker, 0, m1);
    lemma_first_match_from_exact(h, end_mark, end1, e1);
    lemma_last_match_before_exact(h, start_tok, window_start_of(url_end1), url_end1
        - start_tok.len() as int, u1);
    lemma_first_match_from_exact(h, marker, end1, m2);
    lemma_first_match_from_exact(h, end_mark, end2, e2);
    lemma_last_match_before_exact(h, start_tok, window_start_of(url_end2), url_end2
        - start_tok.len() as int, u2);
    assert forall|j: int| j >= end2 implies !match_at(h, marker, j) by {}
    lemma_first_match_from_none(h, marker, end2);
    let c1 = decode_utf8(h.subrange(u1, url_end1));
    let c2 = decode_utf8(h.subrange(u2, url_end2));
    assert forall|j: int| end1 <= j < m2 implies !match_at(h, marker, j) by {}
    assert(candidate_at(h, start_tok, end_mark, end1) == Ok::<Seq<char>, ExtractError>(c1));
    assert(candidate_at(h, start_tok, end_mark, end2) == Ok::<Seq<char>, ExtractError>(c2));
    assert(extract_spec(h, marker, start_tok, end_mark, end2) == Ok::<
        Seq<Seq<char>>,
        ExtractError,
    >(Seq::empty()));
    assert(extract_spec(h, marker, start_tok, end_mark, end1) == Ok::<
        Seq<Seq<char>>,
        ExtractError,
    >(seq![c2] + Seq::empty()));
    assert(extract_spec(h, marker, start_tok, end_mark, 0) == Ok::<Seq<Seq<char>>, ExtractError>(
        seq![c1] + (seq![c2] + Seq::empty()),
    ));
    assert(seq![c1] + (seq![c2] + Seq::<Seq<char>>::empty()) =~= seq![c1, c2]);
}

proof fn lemma_lenient_no_end_marker(
    h: Seq<u8>,
    marker: Seq<u8>,
    start_tok: Seq<u8>,
    end_mark: Seq<u8>,
    pos: int,
)
    requires
        marker.len() > 0,
        0 <= pos,
        forall|j: int| j >= pos ==> !match_at(h, end_mark, j),
    ensures
        extract_lenient_spec(h, marker, start_tok, end_mark, pos).len() == 0,
    decreases h.len() - pos + 1,
{
    lemma_first_match_from_spec(h, marker, pos);
    match first_match_from(h, marker, pos) {
        None => {},
        Some(m) => {
            let marker_end = m + marker.len() as int;
            lemma_first_match_from_none(h, end_mark, marker_end);
            lemma_lenient_no_end_marker(h, marker, start_tok, end_mark, marker_end);
        },
    }
}

/// A buffer whose presence marker has no end marker anywhere after it
/// yields no candidate: the fail-fast scan reports the missing end
/// marker, and even the best-effort scan comes back empty.
pub proof fn lemma_no_end_marker_fails(
    h: Seq<u8>,
    marker: Seq<u8>,
    start_tok: Seq<u8>,
    end_mark: Seq<u8>,
    m: int,
)
    requires
        marker.len() > 0,
        match_at(h, marker, m),
        forall|j: int| 0 <= j < m ==> !match_at(h, marker, j),
        forall|j: int| j >= m + marker.len() ==> !match_at(h, end_mark, j),
    ensures
        extract_spec(h, marker, start_tok, end_mark, 0) == Err::<Seq<Seq<char>>, ExtractError>(
            ExtractError::EndMarkerNotFound,
        ),
        extract_lenient_spec(h, marker, start_tok, end_mark, 0).len() == 0,
{
    let marker_end = m + marker.len() as int;
    lemma_first_match_from_exact(h, marker, 0, m);
    lemma_first_match_from_none(h, end_mark, marker_end);
    lemma_first_match_from_spec(h, marker, 0);
    lemma_lenient_no_end_marker(h, marker, start_tok, end_mark, marker_end);
}

/// A buffer whose first presence marker is closed by an end marker, but
/// whose bounded window holds no start token, fails that occurrence: the
/// fail-fast scan reports the missing start token.
pub proof fn lemma_no_start_token_fails(
    h: Seq<u8>,
    marker: Seq<u8>,
    start_tok: Seq<u8>,
    end_mark: Seq<u8>,
    m: int,
    e: int,
)
    requires
        marker.len() > 0,
        match_at(h, marker, m),
        forall|j: int| 0 <= j < m ==> !match_at(h, marker, j),
        e >= m + marker.len(),
        match_at(h, end_mark, e),
        forall|j: int| m + marker.len() <= j < e ==> !match_at(h, end_mark, j),
        forall|j: int|
            window_start_of(e + end_mark.len() as int) <= j <= e + end_mark.len()
                - start_tok.len() ==> !match_at(h, start_tok, j),
    ensures
        extract_spec(h, marker, start_tok, end_mark, 0) == Err::<Seq<Seq<char>>, ExtractError>(
            ExtractError::StartTokenNotFound,
        ),
{
    let marker_end = m + marker.len() as int;
    let url_end = e + end_mark.len() as int;
    lemma_first_match_from_exact(h, marker, 0, m);
    lemma_first_match_from_exact(h, end_mark, marker_end, e);
    lemma_last_match_before_none(h, start_tok, window_start_of(url_end), url_end
        - start_tok.len() as int);
}

} // verus!
