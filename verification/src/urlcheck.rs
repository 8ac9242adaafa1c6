//! Candidate URL preparation and backend response checks.
//!
//! A candidate URL extracted from the cache is validated against a live
//! backend.  The pieces that compute live here: taking a URL apart into
//! plain values, rebuilding probe and canonical forms, deciding on a
//! scheme downgrade for loopback testing, and reading the backend's
//! JSON answer.  Sending the request itself is the caller's business.

use vstd::prelude::*;
use vstd::slice::slice_index_get;
use vstd::string::{StringExecFns, StringSliceAdditionalSpecFns};
use vstd::utf8::encode_utf8_decode_utf8;

verus! {

/// Whether `s` parses as an absolute URL with a host.
pub uninterp spec fn url_ok(s: Seq<char>) -> bool;

/// The scheme of the URL spelled by `s`.
pub uninterp spec fn url_scheme(s: Seq<char>) -> Seq<char>;

/// The host of the URL spelled by `s`, without any port.
pub uninterp spec fn url_host(s: Seq<char>) -> Seq<char>;

/// The path of the URL spelled by `s`.
pub uninterp spec fn url_path(s: Seq<char>) -> Seq<char>;

/// The decoded query pairs of the URL spelled by `s`, in order.
pub uninterp spec fn url_query(s: Seq<char>) -> Seq<(Seq<char>, Seq<char>)>;

/// The `application/x-www-form-urlencoded` rendering of query pairs.
pub uninterp spec fn urlencoded_of(q: Seq<(Seq<char>, Seq<char>)>) -> Seq<char>;

/// The value of the integer field `key` of the JSON document `body`, if
/// `body` parses and carries one.
pub uninterp spec fn json_i64_field_of(body: Seq<char>, key: Seq<char>) -> Option<i64>;

/// A URL taken apart into plain values: scheme, host (with no port),
/// path, and decoded query pairs.
struct ParsedUrl {
    scheme: String,
    host: String,
    path: String,
    query: Vec<(String, String)>,
}

/// Query pairs seen as character sequences.
pub open spec fn pairs_model(q: Seq<(String, String)>) -> Seq<(Seq<char>, Seq<char>)> {
    q.map_values(|p: (String, String)| (p.0@, p.1@))
}

/// Relies on `url::Url::parse` and the accessors `scheme`, `host_str`,
/// `path` and `query_pairs`: whether a string parses as a URL with a
/// host, and every part read off it, depend on the string alone.
#[verifier::external_body]
fn parse_url(s: &str) -> (r: Option<ParsedUrl>)
    ensures
        r is Some <==> url_ok(s@),
        (r matches Some(p) ==> p.scheme@ == url_scheme(s@) && p.host@ == url_host(s@) && p.path@
            == url_path(s@) && pairs_model(p.query@) == url_query(s@)),
{
    let u = match url::Url::parse(s) {
        Ok(u) => u,
        Err(_) => return None,
    };
    let host = match u.host_str() {
        Some(h) => h.to_string(),
        None => return None,
    };
    Some(ParsedUrl {
        scheme: u.scheme().to_string(),
        host,
        path: u.path().to_string(),
        query: u.query_pairs().into_owned().collect(),
    })
}

/// Relies on `serde_urlencoded::to_string`: the encoding of a sequence
/// of string pairs depends on the pairs alone; for string pairs every
/// key and value goes through the serializer's infallible string path,
/// so the error arm below is never taken.
#[verifier::external_body]
fn encode_query(pairs: &Vec<(String, String)>) -> (r: String)
    ensures
        r@ == urlencoded_of(pairs_model(pairs@)),
{
    match serde_urlencoded::to_string(pairs) {
        Ok(s) => s,
        Err(_) => String::new(),
    }
}

/// Relies on `serde_json::from_str`, `Value::get` and `Value::as_i64`:
/// whether `body` parses as JSON, whether its top level carries the
/// field `key`, and that field's integer value depend on the two
/// strings alone.
#[verifier::external_body]
fn json_i64_field(body: &str, key: &str) -> (r: Option<i64>)
    ensures
        r == json_i64_field_of(body@, key@),
{
    let v = match serde_json::from_str::<serde_json::Value>(body) {
        Ok(v) => v,
        Err(_) => return None,
    };
    match v.get(key) {
        Some(f) => f.as_i64(),
        None => None,
    }
}

/// Compares two string slices by their text.
pub fn str_eq(a: &str, b: &str) -> (r: bool)
    ensures
        r == (a@ == b@),
{
    let ab = a.as_bytes();
    let bb = b.as_bytes();
    if ab.len() != bb.len() {
        return false;
    }
    let mut i: usize = 0;
    while i < ab.len()
        invariant
            i <= ab@.len(),
            ab@.len() == bb@.len(),
            ab@ == a.spec_bytes(),
            bb@ == b.spec_bytes(),
            forall|k: int| 0 <= k < i ==> ab@[k] == bb@[k],
        decreases ab@.len() - i,
    {
        let x = *slice_index_get(ab, i);
        let y = *slice_index_get(bb, i);
        if x != y {
            return false;
        }
        i = i + 1;
    }
    proof {
        assert(ab@ =~= bb@);
        encode_utf8_decode_utf8(a@);
        encode_utf8_decode_utf8(b@);
    }
    true
}

/// A candidate tried against a local test backend keeps its meaning but
/// must drop encryption: a secure scheme pointed at the loopback host.
pub fn should_downgrade_scheme(scheme: &str, host: &str) -> (r: bool)
    ensures
        r == (scheme@ == "https"@ && host@ == "127.0.0.1"@),
{
    let s = str_eq(scheme, "https");
    let h = str_eq(host, "127.0.0.1");
    s && h
}

/// The query keys a shareable pull URL keeps.
pub open spec fn zzz_kept_key(k: Seq<char>) -> bool {
    ||| k == "authkey"@
    ||| k == "authkey_ver"@
    ||| k == "sign_type"@
    ||| k == "game_biz"@
    ||| k == "lang"@
}

/// [`zzz_kept_key`] on a pair's key, as a function value.
pub open spec fn zzz_kept_fn() -> spec_fn((Seq<char>, Seq<char>)) -> bool {
    |p: (Seq<char>, Seq<char>)| zzz_kept_key(p.0)
}

proof fn lemma_filter_step(
    q: Seq<(Seq<char>, Seq<char>)>,
    pred: spec_fn((Seq<char>, Seq<char>)) -> bool,
    i: int,
)
    requires
        0 <= i < q.len(),
    ensures
        q.take(i + 1).filter(pred) == if pred(q[i]) {
            q.take(i).filter(pred).push(q[i])
        } else {
            q.take(i).filter(pred)
        },
{
    reveal_with_fuel(Seq::filter, 2);
    assert(q.take(i + 1).drop_last() =~= q.take(i));
    assert(q.take(i + 1).last() == q[i]);
}

/// Keeps, in order, exactly the query pairs whose keys a shareable pull
/// URL needs, and drops every other pair.
pub fn filter_zzz_query(pairs: &Vec<(String, String)>) -> (r: Vec<(String, String)>)
    ensures
        pairs_model(r@) == pairs_model(pairs@).filter(zzz_kept_fn()),
{
    let ghost q = pairs_model(pairs@);
    let mut r: Vec<(String, String)> = Vec::new();
    let mut i: usize = 0;
    proof {
        reveal_with_fuel(Seq::filter, 1);
        assert(q.take(0) =~= Seq::<(Seq<char>, Seq<char>)>::empty());
        assert(pairs_model(r@) =~= Seq::<(Seq<char>, Seq<char>)>::empty());
    }
    while i < pairs.len()
        invariant
            i <= pairs@.len(),
            q == pairs_model(pairs@),
            pairs_model(r@) == q.take(i as int).filter(zzz_kept_fn()),
        decreases pairs@.len() - i,
    {
        let p = &pairs[i];
        let ghost old_model = pairs_model(r@);
        let keep = {
            let k0 = str_eq(p.0.as_str(), "authkey");
            let k1 = str_eq(p.0.as_str(), "authkey_ver");
            let k2 = str_eq(p.0.as_str(), "sign_type");
            let k3 = str_eq(p.0.as_str(), "game_biz");
            let k4 = str_eq(p.0.as_str(), "lang");
            k0 || k1 || k2 || k3 || k4
        };
        if keep {
            r.push((p.0.clone(), p.1.clone()));
            proof {
                assert(pairs_model(r@) =~= old_model.push(q[i as int]));
            }
        }
        proof {
            lemma_filter_step(q, zzz_kept_fn(), i as int);
        }
        i = i + 1;
    }
    proof {
        assert(q.take(q.len() as int) =~= q);
    }
    r
}

/// The canonical, shareable form of a pull URL: scheme, host without a
/// port, path, and only the needed query parameters, re-encoded.
pub open spec fn zzz_normal_form(u: Seq<char>) -> Seq<char>
    recommends
        url_ok(u),
{
    url_scheme(u) + "://"@ + url_host(u) + url_path(u) + "?"@ + urlencoded_of(
        url_query(u).filter(zzz_kept_fn()),
    )
}

/// Rebuilds a candidate pull URL in canonical, shareable form.  Fails
/// exactly when the candidate does not parse as a URL with a host.
pub fn zzz_normalized_url(url: &str) -> (r: Option<String>)
    ensures
        r is Some <==> url_ok(url@),
        (r matches Some(s) ==> s@ == zzz_normal_form(url@)),
{
    let p = match parse_url(url) {
        Some(p) => p,
        None => {
            return None;
        },
    };
    let kept = filter_zzz_query(&p.query);
    let encoded = encode_query(&kept);
    let mut out = String::new();
    out.append(p.scheme.as_str());
    out.append("://");
    out.append(p.host.as_str());
    out.append(p.path.as_str());
    out.append("?");
    out.append(encoded.as_str());
    proof {
        assert(out@ =~= zzz_normal_form(url@));
    }
    Some(out)
}

/// One query pair as the Genshin probe wants it: the probe forces its
/// own language, pull type and page size, and keeps everything else.
pub open spec fn genshin_override_pair(p: (Seq<char>, Seq<char>)) -> (Seq<char>, Seq<char>) {
    if p.0 == "lang"@ {
        (p.0, "en-us"@)
    } else if p.0 == "gacha_type"@ {
        (p.0, "301"@)
    } else if p.0 == "size"@ {
        (p.0, "5"@)
    } else {
        p
    }
}

/// [`genshin_override_pair`] as a function value.
pub open spec fn genshin_override_fn() -> spec_fn((Seq<char>, Seq<char>)) -> (Seq<char>, Seq<char>) {
    |p: (Seq<char>, Seq<char>)| genshin_override_pair(p)
}

/// Some pair of `q` has the key `k`.
pub open spec fn has_key(q: Seq<(Seq<char>, Seq<char>)>, k: Seq<char>) -> bool {
    exists|i: int| 0 <= i < q.len() && (#[trigger] q[i]).0 == k
}

/// The Genshin probe's query: every pair with its forced value where the
/// key asks for one, and the forced pairs appended (language, pull type,
/// page size, in that order) where their keys do not occur at all.  A
/// key occurring more than once is forced in each of its pairs.
pub open spec fn genshin_merged(q: Seq<(Seq<char>, Seq<char>)>) -> Seq<(Seq<char>, Seq<char>)> {
    let base = q.map_values(genshin_override_fn());
    let with_lang = if has_key(q, "lang"@) {
        base
    } else {
        base.push(("lang"@, "en-us"@))
    };
    let with_gacha = if has_key(q, "gacha_type"@) {
        with_lang
    } else {
        with_lang.push(("gacha_type"@, "301"@))
    };
    if has_key(q, "size"@) {
        with_gacha
    } else {
        with_gacha.push(("size"@, "5"@))
    }
}

proof fn lemma_has_key_take_succ(q: Seq<(Seq<char>, Seq<char>)>, k: Seq<char>, i: int)
    requires
        0 <= i < q.len(),
    ensures
        has_key(q.take(i + 1), k) <==> (has_key(q.take(i), k) || q[i].0 == k),
{
    if has_key(q.take(i + 1), k) {
        let w = choose|w: int| 0 <= w < q.take(i + 1).len() && (#[trigger] q.take(i + 1)[w]).0 == k;
        if w < i {
            assert(q.take(i)[w].0 == k);
        }
    }
    if has_key(q.take(i), k) {
        let w = choose|w: int| 0 <= w < q.take(i).len() && (#[trigger] q.take(i)[w]).0 == k;
        assert(q.take(i + 1)[w].0 == k);
    }
    if q[i].0 == k {
        assert(q.take(i + 1)[i].0 == k);
    }
}

/// Rewrites query pairs as the Genshin probe wants them, per
/// [`genshin_merged`].
pub fn merge_genshin_probe_params(pairs: &Vec<(String, String)>) -> (r: Vec<(String, String)>)
    ensures
        pairs_model(r@) == genshin_merged(pairs_model(pairs@)),
{
    let ghost q = pairs_model(pairs@);
    let mut r: Vec<(String, String)> = Vec::new();
    let mut saw_lang = false;
    let mut saw_gacha = false;
    let mut saw_size = false;
    let mut i: usize = 0;
    proof {
        assert(q.take(0) =~= Seq::<(Seq<char>, Seq<char>)>::empty());
        assert(pairs_model(r@) =~= q.take(0).map_values(genshin_override_fn()));
    }
    while i < pairs.len()
        invariant
            i <= pairs@.len(),
            q == pairs_model(pairs@),
            pairs_model(r@) == q.take(i as int).map_values(genshin_override_fn()),
            saw_lang == has_key(q.take(i as int), "lang"@),
            saw_gacha == has_key(q.take(i as int), "gacha_type"@),
            saw_size == has_key(q.take(i as int), "size"@),
        decreases pairs@.len() - i,
    {
        let p = &pairs[i];
        let ghost old_model = pairs_model(r@);
        if str_eq(p.0.as_str(), "lang") {
            r.push((p.0.clone(), String::from_str("en-us")));
            saw_lang = true;
        } else if str_eq(p.0.as_str(), "gacha_type") {
            r.push((p.0.clone(), String::from_str("301")));
            saw_gacha = true;
        } else if str_eq(p.0.as_str(), "size") {
            r.push((p.0.clone(), String::from_str("5")));
            saw_size = true;
        } else {
            r.push((p.0.clone(), p.1.clone()));
        }
        proof {
            reveal_strlit("lang");
            reveal_strlit("gacha_type");
            reveal_strlit("size");
            assert("lang"@.len() == 4 && "gacha_type"@.len() == 10 && "size"@.len() == 4);
            assert("lang"@[0] == 'l' && "size"@[0] == 's');
            assert("lang"@ != "gacha_type"@ && "lang"@ != "size"@ && "gacha_type"@ != "size"@);
            assert(pairs_model(r@) =~= old_model.push(genshin_override_pair(q[i as int])));
            assert(q.take(i + 1).map_values(genshin_override_fn()) =~= q.take(
                i as int,
            ).map_values(genshin_override_fn()).push(genshin_override_pair(q[i as int])));
            lemma_has_key_take_succ(q, "lang"@, i as int);
            lemma_has_key_take_succ(q, "gacha_type"@, i as int);
            lemma_has_key_take_succ(q, "size"@, i as int);
        }
        i = i + 1;
    }
    proof {
        assert(q.take(q.len() as int) =~= q);
    }
    let ghost base = q.map_values(genshin_override_fn());
    if !saw_lang {
        r.push((String::from_str("lang"), String::from_str("en-us")));
        proof {
            assert(pairs_model(r@) =~= base.push(("lang"@, "en-us"@)));
        }
    }
    let ghost with_lang = pairs_model(r@);
    if !saw_gacha {
        r.push((String::from_str("gacha_type"), String::from_str("301")));
        proof {
            assert(pairs_model(r@) =~= with_lang.push(("gacha_type"@, "301"@)));
        }
    }
    let ghost with_gacha = pairs_model(r@);
    if !saw_size {
        r.push((String::from_str("size"), String::from_str("5")));
        proof {
            assert(pairs_model(r@) =~= with_gacha.push(("size"@, "5"@)));
        }
    }
    r
}

/// The URL the Genshin validation probe asks: the candidate's scheme,
/// the given backend host, the pull log endpoint's fixed path, and the
/// candidate's query rewritten per [`genshin_merged`].  Any explicit
/// port and any fragment of the candidate are dropped.
pub open spec fn genshin_probe_form(u: Seq<char>, api_host: Seq<char>) -> Seq<char>
    recommends
        url_ok(u),
{
    url_scheme(u) + "://"@ + api_host + "/gacha_info/api/getGachaLog"@ + "?"@ + urlencoded_of(
        genshin_merged(url_query(u)),
    )
}

/// Builds the Genshin validation probe URL for a candidate.  Fails
/// exactly when the candidate does not parse as a URL with a host.
pub fn genshin_probe_url(url: &str, api_host: &str) -> (r: Option<String>)
    ensures
        r is Some <==> url_ok(url@),
        (r matches Some(s) ==> s@ == genshin_probe_form(url@, api_host@)),
{
    let p = match parse_url(url) {
        Some(p) => p,
        None => {
            return None;
        },
    };
    let merged = merge_genshin_probe_params(&p.query);
    let encoded = encode_query(&merged);
    let mut out = String::new();
    out.append(p.scheme.as_str());
    out.append("://");
    out.append(api_host);
    out.append("/gacha_info/api/getGachaLog");
    out.append("?");
    out.append(encoded.as_str());
    proof {
        assert(out@ =~= genshin_probe_form(url@, api_host@));
    }
    Some(out)
}

/// Whether a Genshin probe response accepts the candidate: the body is
/// JSON whose `retcode` field holds a non-zero integer.
pub fn genshin_accepts_response(body: &str) -> (r: bool)
    ensures
        r == (match json_i64_field_of(body@, "retcode"@) {
            Some(c) => c != 0,
            None => false,
        }),
{
    match json_i64_field(body, "retcode") {
        Some(c) => c != 0,
        None => false,
    }
}

/// Whether a Zenless Zone Zero response accepts the candidate: the body
/// is JSON whose `retcode` field holds exactly zero.
pub fn zzz_accepts_response(body: &str) -> (r: bool)
    ensures
        r == (json_i64_field_of(body@, "retcode"@) == Some(0i64)),
{
    match json_i64_field(body, "retcode") {
        Some(c) => c == 0,
        None => false,
    }
}

} // verus!
