//! URLs: parsing through the `url` crate, and the browser's own rules on top of
//! it — origins, hosts, cache keys, capture targets and tracking parameters.

use vstd::prelude::*;
use crate::text::{
    is_ws, lower_ascii, trim_ws, trim_start_in, starts_with, contains_seq, to_chars, from_chars,
    push_all, push_str_chars, trim_chars, lower_ascii_chars, starts_with_chars, contains_chars,
    char_is_whitespace, trim_start_set, trim_end_set, trim_end_in, str_eq,
};
use crate::numbers::decimal_chars;
use crate::text::{split_on, join_with};
use vstd::utf8::{is_ascii_chars, encode_utf8};

verus! {

// ---------------------------------------------------------------------------
// The parsed form
// ---------------------------------------------------------------------------

/// What the library reads of a parsed URL.
pub struct UrlView {
    pub serialization: Seq<char>,
    pub scheme: Seq<char>,
    pub host: Option<Seq<char>>,
    pub port: Option<u16>,
    pub path: Seq<char>,
    pub query: Option<Seq<char>>,
    pub fragment: Option<Seq<char>>,
}

/// A URL as `url::Url` parsed it: its serialization and components.
pub struct ParsedUrl {
    pub serialization: String,
    pub scheme: String,
    pub host: Option<String>,
    pub port: Option<u16>,
    pub path: String,
    pub query: Option<String>,
    pub fragment: Option<String>,
}

impl View for ParsedUrl {
    type V = UrlView;

    open spec fn view(&self) -> UrlView {
        UrlView {
            serialization: self.serialization@,
            scheme: self.scheme@,
            host: self.host.deep_view(),
            port: self.port,
            path: self.path@,
            query: self.query.deep_view(),
            fragment: self.fragment.deep_view(),
        }
    }
}

pub open spec fn opt_url_view(u: Option<ParsedUrl>) -> Option<UrlView> {
    match u {
        Some(p) => Some(p@),
        None => None,
    }
}

/// What `url::Url::parse` yields for a string: `None` where it returns an error.
pub uninterp spec fn url_parse(input: Seq<char>) -> Option<UrlView>;

/// The serialization `url::Url::join` yields for a reference against the URL
/// serialized as `base`, or `None` where either does not parse.
pub uninterp spec fn url_join(base: Seq<char>, reference: Seq<char>) -> Option<Seq<char>>;

/// The serialization after `url::Url::set_fragment(None)` on the URL serialized
/// as `url` (unchanged where `url` does not parse).
pub uninterp spec fn url_without_fragment(url: Seq<char>) -> Seq<char>;

/// The serialization after `url::Url::set_path(path)`.
pub uninterp spec fn url_with_path(url: Seq<char>, path: Seq<char>) -> Seq<char>;

/// Calls `url::Url::parse` and reads the parts of the result. The crate
/// documents the path as a percent-encoded ASCII string.
#[verifier::external_body]
pub(crate) fn parse_url(input: &str) -> (r: Option<ParsedUrl>)
    ensures
        opt_url_view(r) == url_parse(input@),
        r matches Some(u) ==> is_ascii_chars(u.path@),
{
    url::Url::parse(input).ok().map(|u| ParsedUrl {
        serialization: u.as_str().to_string(),
        scheme: u.scheme().to_string(),
        host: u.host_str().map(|h| h.to_string()),
        port: u.port(),
        path: u.path().to_string(),
        query: u.query().map(|q| q.to_string()),
        fragment: u.fragment().map(|f| f.to_string()),
    })
}

impl ParsedUrl {
    /// Parses a URL as the `url` crate does.
    pub fn parse(input: &str) -> (r: Option<ParsedUrl>)
        ensures
            opt_url_view(r) == url_parse(input@),
            r matches Some(u) ==> is_ascii_chars(u.path@),
    {
        parse_url(input)
    }
}

/// Calls `url::Url::join`.
#[verifier::external_body]
fn join_url(base: &str, reference: &str) -> (r: Option<String>)
    ensures
        r.deep_view() == url_join(base@, reference@),
{
    url::Url::parse(base).ok()?.join(reference).ok().map(|u| u.to_string())
}

/// Calls `url::Url::set_fragment(None)`.
#[verifier::external_body]
fn drop_fragment(url: &str) -> (r: String)
    ensures
        r@ == url_without_fragment(url@),
{
    match url::Url::parse(url) {
        Ok(mut u) => {
            u.set_fragment(None);
            u.to_string()
        },
        Err(_) => url.to_string(),
    }
}

/// Calls `url::Url::set_path`.
#[verifier::external_body]
fn replace_path(url: &str, path: &str) -> (r: String)
    ensures
        r@ == url_with_path(url@, path@),
{
    match url::Url::parse(url) {
        Ok(mut u) => {
            u.set_path(path);
            u.to_string()
        },
        Err(_) => url.to_string(),
    }
}

// ---------------------------------------------------------------------------
// Small string helpers
// ---------------------------------------------------------------------------

/// `s` with every leading copy of `p` removed (`trim_start_matches` with a
/// string pattern).
pub open spec fn strip_leading_repeats(s: Seq<char>, p: Seq<char>) -> Seq<char>
    decreases s.len(),
{
    if p.len() > 0 && starts_with(s, p) {
        strip_leading_repeats(s.subrange(p.len() as int, s.len() as int), p)
    } else {
        s
    }
}

pub fn strip_leading_repeats_chars(s: &[char], p: &[char]) -> (r: Vec<char>)
    ensures
        r@ == strip_leading_repeats(s@, p@),
{
    let n = s.len();
    let m = p.len();
    let mut i: usize = 0;
    assert(s@.subrange(0, n as int) =~= s@);
    if m == 0 {
        return crate::text::subvec(s, 0, n);
    }
    while i < n && crate::text::match_at(s, p, i)
        invariant
            n == s@.len(),
            m == p@.len(),
            m > 0,
            i <= n,
            strip_leading_repeats(s@, p@) == strip_leading_repeats(
                s@.subrange(i as int, n as int),
                p@,
            ),
        decreases n - i,
    {
        let ghost rest = s@.subrange(i as int, n as int);
        assert(rest.subrange(0, m as int) =~= s@.subrange(i as int, i + m));
        assert(rest.subrange(m as int, rest.len() as int) =~= s@.subrange(i + m, n as int));
        i += m;
    }
    proof {
        let rest = s@.subrange(i as int, n as int);
        if i < n && m <= rest.len() {
            assert(rest.subrange(0, m as int) =~= s@.subrange(i as int, i + m));
        }
        if i == n {
            assert(rest.len() == 0);
        }
    }
    crate::text::subvec(s, i, n)
}

/// The text `a` followed by the characters `b`.
fn cat(a: &str, b: &[char]) -> (r: Vec<char>)
    ensures
        r@ == a@ + b@,
{
    let mut v = to_chars(a);
    push_all(&mut v, b);
    v
}

// ---------------------------------------------------------------------------
// Origins and hosts
// ---------------------------------------------------------------------------

pub open spec fn is_http_scheme(scheme: Seq<char>) -> bool {
    scheme == "http"@ || scheme == "https"@
}

/// `scheme://host[:port]` for an http(s) URL with a host.
pub open spec fn origin_of(u: UrlView) -> Option<Seq<char>> {
    if is_http_scheme(u.scheme) && u.host is Some {
        Some(
            match u.port {
                Some(port) => u.scheme + "://"@ + u.host->0 + ":"@ + decimal_chars(port as nat),
                None => u.scheme + "://"@ + u.host->0,
            },
        )
    } else {
        None
    }
}

fn is_http(scheme: &str) -> (r: bool)
    ensures
        r == is_http_scheme(scheme@),
{
    str_eq(scheme, "http") || str_eq(scheme, "https")
}

/// `https://host:port` for an http(s) URL: the favicon cache key, so it must not
/// carry the path — every page on a host shares one favicon.
pub fn favicon_origin(url: &str) -> (r: Option<String>)
    ensures
        r.deep_view() == match url_parse(url@) {
            Some(u) => origin_of(u),
            None => None,
        },
{
    let parsed = match parse_url(url) {
        Some(p) => p,
        None => return None,
    };
    if !is_http(parsed.scheme.as_str()) {
        return None;
    }
    let host = match &parsed.host {
        Some(h) => h,
        None => return None,
    };
    let mut out = to_chars(parsed.scheme.as_str());
    push_str_chars(&mut out, "://");
    push_str_chars(&mut out, host.as_str());
    match parsed.port {
        Some(port) => {
            push_str_chars(&mut out, ":");
            let digits = crate::numbers::decimal_digits(port as usize);
            push_all(&mut out, digits.as_slice());
        },
        None => {},
    }
    Some(from_chars(out.as_slice()))
}

/// The host a tab shows: the URL's host without leading `www.` labels, or empty.
pub open spec fn tab_host(url: Seq<char>) -> Seq<char> {
    match url_parse(url) {
        Some(u) => match u.host {
            Some(h) => strip_leading_repeats(h, "www."@),
            None => Seq::empty(),
        },
        None => Seq::empty(),
    }
}

pub fn get_tab_host(url: &str) -> (r: String)
    ensures
        r@ == tab_host(url@),
{
    match parse_url(url) {
        Some(p) => match &p.host {
            Some(h) => {
                let hv = to_chars(h.as_str());
                let www = to_chars("www.");
                let stripped = strip_leading_repeats_chars(hv.as_slice(), www.as_slice());
                from_chars(stripped.as_slice())
            },
            None => String::new(),
        },
        None => String::new(),
    }
}

/// A tab title derived from its URL: the host, or "New tab".
pub open spec fn url_title(url: Seq<char>) -> Seq<char> {
    if tab_host(url).len() == 0 {
        "New tab"@
    } else {
        tab_host(url)
    }
}

pub fn title_from_url(url: &str) -> (r: String)
    ensures
        r@ == url_title(url@),
{
    let host = get_tab_host(url);
    if host.as_str().is_empty() {
        String::from_str("New tab")
    } else {
        host
    }
}

/// `scheme://host/favicon.ico` for any URL with a host.
pub open spec fn favicon_url(url: Seq<char>) -> Option<Seq<char>> {
    match url_parse(url) {
        Some(u) => match u.host {
            Some(h) => Some(u.scheme + "://"@ + h + "/favicon.ico"@),
            None => None,
        },
        None => None,
    }
}

pub fn favicon_for_url(url: &str) -> (r: Option<String>)
    ensures
        r.deep_view() == favicon_url(url@),
{
    let parsed = match parse_url(url) {
        Some(p) => p,
        None => return None,
    };
    match &parsed.host {
        Some(h) => {
            let mut out = to_chars(parsed.scheme.as_str());
            push_str_chars(&mut out, "://");
            push_str_chars(&mut out, h.as_str());
            push_str_chars(&mut out, "/favicon.ico");
            Some(from_chars(out.as_slice()))
        },
        None => None,
    }
}

/// The URL's host in ASCII lower case.
pub fn host_of(url: &str) -> (r: Option<String>)
    ensures
        r.deep_view() == match url_parse(url@) {
            Some(u) => match u.host {
                Some(h) => Some(lower_ascii(h)),
                None => None,
            },
            None => None,
        },
{
    match parse_url(url) {
        Some(p) => match &p.host {
            Some(h) => {
                let hv = to_chars(h.as_str());
                let lowered = lower_ascii_chars(hv.as_slice());
                Some(from_chars(lowered.as_slice()))
            },
            None => None,
        },
        None => None,
    }
}

// ---------------------------------------------------------------------------
// Keys for de-duplication
// ---------------------------------------------------------------------------

/// One citation per page: the URL without its fragment.
pub fn normalize_citation_key(url: &str) -> (r: String)
    ensures
        r@ == match url_parse(url@) {
            Some(_) => url_without_fragment(url@),
            None => url@,
        },
{
    match parse_url(url) {
        Some(_) => drop_fragment(url),
        None => String::from_str(url),
    }
}

/// The capture key of a URL: no fragment, no root path, no trailing slashes.
pub open spec fn capture_url_key(url: Seq<char>) -> Seq<char> {
    match url_parse(url) {
        Some(u) => {
            let without = url_without_fragment(url);
            let with_path = if u.path == "/"@ {
                url_with_path(without, Seq::empty())
            } else {
                without
            };
            trim_end_in(with_path, seq!['/'])
        },
        None => trim_end_in(trim_ws(url), seq!['/']),
    }
}

pub fn normalize_capture_url_key(url: &str) -> (r: String)
    ensures
        r@ == capture_url_key(url@),
{
    let slash = to_chars("/");
    assert(slash@ =~= seq!['/']) by {
        reveal_strlit("/");
    }
    proof {
        reveal_strlit("");
        assert(""@ =~= Seq::<char>::empty());
    }
    match parse_url(url) {
        Some(p) => {
            let without = drop_fragment(url);
            let with_path = if str_eq(p.path.as_str(), "/") {
                replace_path(without.as_str(), "")
            } else {
                without
            };
            let v = to_chars(with_path.as_str());
            let t = trim_end_set(v.as_slice(), slash.as_slice());
            from_chars(t.as_slice())
        },
        None => {
            let v = to_chars(url);
            let trimmed = trim_chars(v.as_slice());
            let t = trim_end_set(trimmed.as_slice(), slash.as_slice());
            from_chars(t.as_slice())
        },
    }
}

// ---------------------------------------------------------------------------
// Capture targets
// ---------------------------------------------------------------------------

pub open spec fn not_a_web_address(t: Seq<char>) -> Seq<char> {
    "\""@ + t + "\" is not a web address."@
}

/// Strict counterpart of address-bar navigation: capture never turns a typo into
/// a search and indexes the results page. Bare hosts are accepted.
pub open spec fn capture_target(raw: Seq<char>) -> Result<Seq<char>, Seq<char>> {
    let t = trim_ws(raw);
    let lowered = lower_ascii(t);
    if t.len() == 0 {
        Err("Enter a web address to capture."@)
    } else if !(starts_with(lowered, "http://"@) || starts_with(lowered, "https://"@))
        && contains_seq(lowered, "://"@) {
        Err("Only http and https pages can be captured."@)
    } else if !(starts_with(lowered, "http://"@) || starts_with(lowered, "https://"@)) && ((
    exists|i: int| 0 <= i < t.len() && is_ws(#[trigger] t[i])) || !t.contains('.')) {
        Err(not_a_web_address(t))
    } else {
        let candidate = if starts_with(lowered, "http://"@) || starts_with(lowered, "https://"@) {
            t
        } else {
            "https://"@ + t
        };
        match url_parse(candidate) {
            Some(u) => if u.host is Some && u.host->0.len() > 0 {
                Ok(u.serialization)
            } else {
                Err(not_a_web_address(t))
            },
            None => Err(not_a_web_address(t)),
        }
    }
}

fn has_whitespace(s: &[char]) -> (r: bool)
    ensures
        r == exists|i: int| 0 <= i < s@.len() && is_ws(#[trigger] s@[i]),
{
    let n = s.len();
    let mut i: usize = 0;
    while i < n
        invariant
            n == s@.len(),
            i <= n,
            forall|k: int| 0 <= k < i ==> !is_ws(#[trigger] s@[k]),
        decreases n - i,
    {
        if char_is_whitespace(s[i]) {
            return true;
        }
        i += 1;
    }
    false
}

fn not_a_web_address_chars(t: &[char]) -> (r: String)
    ensures
        r@ == not_a_web_address(t@),
{
    let mut v = cat("\"", t);
    push_str_chars(&mut v, "\" is not a web address.");
    from_chars(v.as_slice())
}

/// Resolves what the user typed into the URL to capture.
pub fn capture_target_url(raw: &str) -> (r: Result<String, String>)
    ensures
        match r {
            Ok(s) => capture_target(raw@) == Ok::<Seq<char>, Seq<char>>(s@),
            Err(e) => capture_target(raw@) == Err::<Seq<char>, Seq<char>>(e@),
        },
{
    let v = to_chars(raw);
    let t = trim_chars(v.as_slice());
    if t.len() == 0 {
        return Err(String::from_str("Enter a web address to capture."));
    }
    let lowered = lower_ascii_chars(t.as_slice());
    let http = to_chars("http://");
    let https = to_chars("https://");
    let sep = to_chars("://");
    let is_web = starts_with_chars(lowered.as_slice(), http.as_slice()) || starts_with_chars(
        lowered.as_slice(),
        https.as_slice(),
    );
    let candidate = if is_web {
        t.clone()
    } else if contains_chars(lowered.as_slice(), sep.as_slice()) {
        return Err(String::from_str("Only http and https pages can be captured."));
    } else if !has_whitespace(t.as_slice()) && crate::text::char_in('.', t.as_slice()) {
        cat("https://", t.as_slice())
    } else {
        return Err(not_a_web_address_chars(t.as_slice()));
    };
    let candidate_str = from_chars(candidate.as_slice());
    match parse_url(candidate_str.as_str()) {
        Some(p) => match &p.host {
            Some(h) => if h.as_str().is_empty() {
                Err(not_a_web_address_chars(t.as_slice()))
            } else {
                Ok(p.serialization)
            },
            None => Err(not_a_web_address_chars(t.as_slice())),
        },
        None => Err(not_a_web_address_chars(t.as_slice())),
    }
}


// ---------------------------------------------------------------------------
// Tracking parameters
// ---------------------------------------------------------------------------

/// Click identifiers, matched exactly. Each joins a visit to an ad impression or
/// a mail send; none is load-bearing for rendering the page.
pub open spec fn tracking_param_names() -> Seq<Seq<char>> {
    seq![
        "fbclid"@, "gclid"@, "gclsrc"@, "dclid"@, "gbraid"@, "wbraid"@, "msclkid"@, "twclid"@,
        "ttclid"@, "igshid"@, "yclid"@, "li_fat_id"@, "mkt_tok"@, "mc_cid"@, "mc_eid"@,
        "s_kwcid"@, "ef_id"@, "epik"@, "irclickid"@, "rb_clickid"@, "vero_id"@, "oly_enc_id"@,
    ]
}

/// Whole families of analytics parameters, kept narrow on purpose.
pub open spec fn tracking_param_prefixes() -> Seq<Seq<char>> {
    seq!["utm_"@, "pk_"@, "_hsenc"@, "_hsmi"@, "hsa_"@]
}

/// A query key that identifies a click rather than selecting content.
pub open spec fn is_tracking_key(key: Seq<char>) -> bool {
    let lowered = lower_ascii(key);
    tracking_param_names().contains(lowered) || exists|k: int|
        0 <= k < tracking_param_prefixes().len() && starts_with(
            lowered,
            #[trigger] tracking_param_prefixes()[k],
        )
}

fn tracking_name_list() -> (r: Vec<Vec<char>>)
    ensures
        crate::text::views(r@) == tracking_param_names(),
{
    let mut v: Vec<Vec<char>> = Vec::new();
    v.push(to_chars("fbclid"));
    v.push(to_chars("gclid"));
    v.push(to_chars("gclsrc"));
    v.push(to_chars("dclid"));
    v.push(to_chars("gbraid"));
    v.push(to_chars("wbraid"));
    v.push(to_chars("msclkid"));
    v.push(to_chars("twclid"));
    v.push(to_chars("ttclid"));
    v.push(to_chars("igshid"));
    v.push(to_chars("yclid"));
    v.push(to_chars("li_fat_id"));
    v.push(to_chars("mkt_tok"));
    v.push(to_chars("mc_cid"));
    v.push(to_chars("mc_eid"));
    v.push(to_chars("s_kwcid"));
    v.push(to_chars("ef_id"));
    v.push(to_chars("epik"));
    v.push(to_chars("irclickid"));
    v.push(to_chars("rb_clickid"));
    v.push(to_chars("vero_id"));
    v.push(to_chars("oly_enc_id"));
    assert(crate::text::views(v@) =~= tracking_param_names());
    v
}

fn tracking_prefix_list() -> (r: Vec<Vec<char>>)
    ensures
        crate::text::views(r@) == tracking_param_prefixes(),
{
    let mut v: Vec<Vec<char>> = Vec::new();
    v.push(to_chars("utm_"));
    v.push(to_chars("pk_"));
    v.push(to_chars("_hsenc"));
    v.push(to_chars("_hsmi"));
    v.push(to_chars("hsa_"));
    assert(crate::text::views(v@) =~= tracking_param_prefixes());
    v
}

/// Whether a query key is a click identifier or an analytics parameter.
pub fn is_tracking_param(key: &str) -> (r: bool)
    ensures
        r == is_tracking_key(key@),
{
    let k = to_chars(key);
    let lowered = lower_ascii_chars(k.as_slice());
    let names = tracking_name_list();
    let prefixes = tracking_prefix_list();
    let n = names.len();
    let mut i: usize = 0;
    while i < n
        invariant
            n == names@.len(),
            crate::text::views(names@) == tracking_param_names(),
            lowered@ == lower_ascii(key@),
            i <= n,
            forall|j: int| 0 <= j < i ==> tracking_param_names()[j] != lowered@,
        decreases n - i,
    {
        if crate::text::chars_eq(names[i].as_slice(), lowered.as_slice()) {
            assert(tracking_param_names()[i as int] == names@[i as int]@);
            assert(tracking_param_names()[i as int] == lowered@);
            assert(tracking_param_names().contains(lowered@));
            return true;
        }
        assert(tracking_param_names()[i as int] == names@[i as int]@);
        i += 1;
    }
    let m = prefixes.len();
    let mut j: usize = 0;
    while j < m
        invariant
            m == prefixes@.len(),
            crate::text::views(prefixes@) == tracking_param_prefixes(),
            lowered@ == lower_ascii(key@),
            j <= m,
            !tracking_param_names().contains(lowered@),
            forall|t: int| 0 <= t < j ==> !starts_with(lowered@, tracking_param_prefixes()[t]),
        decreases m - j,
    {
        assert(tracking_param_prefixes()[j as int] == prefixes@[j as int]@);
        if starts_with_chars(lowered.as_slice(), prefixes[j].as_slice()) {
            assert(starts_with(lowered@, tracking_param_prefixes()[j as int]));
            return true;
        }
        j += 1;
    }
    false
}

/// Form decoding of the bytes of a query component from `i` on: `+` is a
/// space, `%` and two hex digits the byte they spell, anything else itself.
pub open spec fn form_decode_from(b: Seq<u8>, i: int) -> Seq<u8>
    decreases b.len() - i,
{
    if i < 0 || i >= b.len() {
        Seq::empty()
    } else if b[i] == 43 {
        seq![32u8] + form_decode_from(b, i + 1)
    } else if b[i] == 37 && i + 2 < b.len() && crate::downloads::hex_val(b[i + 1]) is Some
        && crate::downloads::hex_val(b[i + 2]) is Some {
        seq![(crate::downloads::hex_val(b[i + 1])->0 * 16 + crate::downloads::hex_val(b[i + 2])->0) as u8]
            + form_decode_from(b, i + 3)
    } else {
        seq![b[i]] + form_decode_from(b, i + 1)
    }
}

/// The key of a raw `key=value` query segment: what comes before its first
/// `=`.
pub open spec fn segment_key(seg: Seq<char>) -> Seq<char> {
    match crate::iceberg::first_index(seg, '=') {
        Some(i) => seg.take(i),
        None => seg,
    }
}

/// A raw query segment whose decoded key is a tracking parameter.
pub open spec fn tracking_segment(seg: Seq<char>) -> bool {
    is_tracking_key(crate::downloads::utf8_lossy(form_decode_from(encode_utf8(segment_key(seg)), 0)))
}

/// The segments that are not tracking segments, in order.
pub open spec fn untracked_segments(segs: Seq<Seq<char>>) -> Seq<Seq<char>>
    decreases segs.len(),
{
    if segs.len() == 0 {
        Seq::empty()
    } else {
        let r = untracked_segments(segs.drop_last());
        if tracking_segment(segs.last()) {
            r
        } else {
            r.push(segs.last())
        }
    }
}

/// The raw query of `url` given that its first `?` is at `q`: up to the next
/// `#`.
pub open spec fn raw_query_end(url: Seq<char>, q: int) -> int {
    match crate::iceberg::first_index(url.skip(q + 1), '#') {
        Some(h) => q + 1 + h,
        None => url.len() as int,
    }
}

/// An http(s) URL with a query, the raw segments of its query whose decoded
/// key is a tracking parameter taken out and every other character left as it
/// was; the `?` goes when no segment is left. Any other input, or a URL with
/// nothing to remove, comes back unchanged.
pub open spec fn tracking_stripped(url: Seq<char>) -> Seq<char> {
    match url_parse(url) {
        Some(u) => if is_http_scheme(u.scheme) && u.query is Some {
            match crate::iceberg::first_index(url, '?') {
                Some(q) => {
                    let end = raw_query_end(url, q);
                    let segs = split_on(url.subrange(q + 1, end), '&');
                    let kept = untracked_segments(segs);
                    if kept.len() == segs.len() {
                        url
                    } else if kept.len() == 0 {
                        url.take(q) + url.skip(end)
                    } else {
                        url.take(q) + "?"@ + join_with(kept, "&"@) + url.skip(end)
                    }
                },
                None => url,
            }
        } else {
            url
        },
        None => url,
    }
}

/// Form-decodes the bytes of a query component.
fn form_decode(b: &[u8]) -> (r: Vec<u8>)
    ensures
        r@ == form_decode_from(b@, 0),
{
    let n = b.len();
    let mut out: Vec<u8> = Vec::new();
    let mut i: usize = 0;
    while i < n
        invariant
            n == b@.len(),
            i <= n,
            form_decode_from(b@, 0) == out@ + form_decode_from(b@, i as int),
        decreases n - i,
    {
        let ghost before = out@;
        if b[i] == 43 {
            out.push(32);
            assert(out@ + form_decode_from(b@, i + 1) =~= before + form_decode_from(b@, i as int));
            i += 1;
        } else if b[i] == 37 && n - i > 2 && crate::downloads::hex_digit_value(b[i + 1]).is_some()
            && crate::downloads::hex_digit_value(b[i + 2]).is_some() {
            let h = crate::downloads::hex_digit_value(b[i + 1]).unwrap();
            let l = crate::downloads::hex_digit_value(b[i + 2]).unwrap();
            out.push(h * 16 + l);
            assert(out@ + form_decode_from(b@, i + 3) =~= before + form_decode_from(b@, i as int));
            i += 3;
        } else {
            out.push(b[i]);
            assert(out@ + form_decode_from(b@, i + 1) =~= before + form_decode_from(b@, i as int));
            i += 1;
        }
    }
    assert(out@ =~= out@ + form_decode_from(b@, n as int));
    out
}

/// Whether a raw query segment's decoded key is a tracking parameter.
fn is_tracking_segment(seg: &[char]) -> (r: bool)
    ensures
        r == tracking_segment(seg@),
{
    let key = match crate::iceberg::first_index_of(seg, '=') {
        Some(i) => crate::text::take_chars(seg, i),
        None => crate::text::take_chars(seg, seg.len()),
    };
    let key_s = from_chars(key.as_slice());
    assert(key_s@ == segment_key(seg@)) by {
        assert(seg@.take(seg@.len() as int) =~= seg@);
    }
    let decoded = form_decode(key_s.as_str().as_bytes());
    let text = crate::downloads::from_utf8_lossy(decoded.as_slice());
    is_tracking_param(text.as_str())
}

/// Removes click identifiers from an http(s) URL, leaving every other
/// character as it was (see [`tracking_stripped`]). Runs on navigation and on
/// capture, so neither the site nor the local index ever receives the
/// identifier.
pub fn strip_tracking_params(url: &str) -> (r: String)
    ensures
        r@ == tracking_stripped(url@),
{
    let parsed = match parse_url(url) {
        Some(p) => p,
        None => return String::from_str(url),
    };
    if !is_http(parsed.scheme.as_str()) || parsed.query.is_none() {
        return String::from_str(url);
    }
    let chars = to_chars(url);
    let q = match crate::iceberg::first_index_of(chars.as_slice(), '?') {
        Some(q) => q,
        None => return String::from_str(url),
    };
    assert(q < chars@.len());
    let tail = crate::text::subvec(chars.as_slice(), q + 1, chars.len());
    let end = match crate::iceberg::first_index_of(tail.as_slice(), '#') {
        Some(h) => q + 1 + h,
        None => chars.len(),
    };
    assert(tail@ =~= url@.skip(q + 1));
    assert(end == raw_query_end(url@, q as int));
    let raw = crate::text::subvec(chars.as_slice(), q + 1, end);
    let segs = crate::text::split_chars(raw.as_slice(), '&');
    let ghost sv = crate::text::views(segs@);
    let n = segs.len();
    let mut kept: Vec<Vec<char>> = Vec::new();
    let mut i: usize = 0;
    assert(sv.take(0) =~= Seq::<Seq<char>>::empty());
    while i < n
        invariant
            n == segs@.len(),
            sv == crate::text::views(segs@),
            i <= n,
            crate::text::views(kept@) == untracked_segments(sv.take(i as int)),
        decreases n - i,
    {
        assert(sv.take(i + 1).drop_last() =~= sv.take(i as int));
        assert(sv.take(i + 1).last() == segs@[i as int]@);
        if !is_tracking_segment(segs[i].as_slice()) {
            let ghost before = crate::text::views(kept@);
            kept.push(crate::text::subvec(segs[i].as_slice(), 0, segs[i].len()));
            assert(segs@[i as int]@.subrange(0, segs@[i as int]@.len() as int) =~= segs@[i as int]@);
            assert(crate::text::views(kept@) =~= before.push(segs@[i as int]@));
        }
        i += 1;
    }
    assert(sv.take(n as int) =~= sv);
    if kept.len() == n {
        return String::from_str(url);
    }
    let mut out = crate::text::subvec(chars.as_slice(), 0, q);
    if kept.len() > 0 {
        proof {
            reveal_strlit("?");
            reveal_strlit("&");
        }
        push_str_chars(&mut out, "?");
        let sep = to_chars("&");
        let joined = crate::text::join_chars(&kept, sep.as_slice());
        push_all(&mut out, joined.as_slice());
    }
    let after = crate::text::subvec(chars.as_slice(), end, chars.len());
    push_all(&mut out, after.as_slice());
    assert(url@.take(q as int) =~= url@.subrange(0, q as int));
    assert(url@.skip(end as int) =~= url@.subrange(end as int, url@.len() as int));
    from_chars(out.as_slice())
}

/// Where a page's canonical URL points: the value itself, or the value resolved
/// against the page URL; http(s) only, without fragment or tracking parameters.
pub open spec fn provenance_url(value: Seq<char>, base_url: Seq<char>) -> Option<Seq<char>> {
    let resolved = match url_parse(value) {
        Some(u) => Some(u),
        None => match url_join(base_url, value) {
            Some(joined) => url_parse(joined),
            None => None,
        },
    };
    match resolved {
        Some(u) => if is_http_scheme(u.scheme) {
            Some(tracking_stripped(url_without_fragment(u.serialization)))
        } else {
            None
        },
        None => None,
    }
}

pub fn normalize_provenance_url(value: &str, base_url: &str) -> (r: Option<String>)
    ensures
        r.deep_view() == provenance_url(value@, base_url@),
{
    let resolved = match parse_url(value) {
        Some(p) => p,
        None => match join_url(base_url, value) {
            Some(joined) => match parse_url(joined.as_str()) {
                Some(p) => p,
                None => return None,
            },
            None => return None,
        },
    };
    if !is_http(resolved.scheme.as_str()) {
        return None;
    }
    let without = drop_fragment(resolved.serialization.as_str());
    Some(strip_tracking_params(without.as_str()))
}

// ---------------------------------------------------------------------------
// Proxies
// ---------------------------------------------------------------------------

/// A proxy endpoint the webview transports can carry: `socks5` or `http`, with
/// a host and an explicit port.
pub open spec fn proxy_url_check(raw: Seq<char>) -> Result<UrlView, Seq<char>> {
    let t = trim_ws(raw);
    if t.len() == 0 {
        Err("A proxy address is required while the proxy is on."@)
    } else {
        match url_parse(t) {
            None => Err("\""@ + t + "\" is not a valid proxy address."@),
            Some(u) => if !(u.scheme == "socks5"@ || u.scheme == "http"@) {
                Err("\""@ + u.scheme + "\" is not a supported proxy scheme — use socks5:// or http://."@)
            } else if u.host is None || u.host->0.len() == 0 {
                Err("\""@ + t + "\" is missing a host."@)
            } else if u.port is None {
                Err("\""@ + t + "\" is missing a port."@)
            } else {
                Ok(u)
            },
        }
    }
}

fn quoted(t: &[char], rest: &str) -> (r: String)
    ensures
        r@ == "\""@ + t@ + rest@,
{
    let mut v = cat("\"", t);
    push_str_chars(&mut v, rest);
    from_chars(v.as_slice())
}

/// Parses a proxy endpoint, rejecting anything the transports cannot carry.
pub fn parse_proxy_url(raw: &str) -> (r: Result<ParsedUrl, String>)
    ensures
        match r {
            Ok(u) => proxy_url_check(raw@) == Ok::<UrlView, Seq<char>>(u@),
            Err(e) => proxy_url_check(raw@) == Err::<UrlView, Seq<char>>(e@),
        },
{
    let v = to_chars(raw);
    let t = trim_chars(v.as_slice());
    if t.len() == 0 {
        return Err(String::from_str("A proxy address is required while the proxy is on."));
    }
    let ts = from_chars(t.as_slice());
    let parsed = match parse_url(ts.as_str()) {
        Some(p) => p,
        None => return Err(quoted(t.as_slice(), "\" is not a valid proxy address.")),
    };
    if !(str_eq(parsed.scheme.as_str(), "socks5") || str_eq(parsed.scheme.as_str(), "http")) {
        let scheme = to_chars(parsed.scheme.as_str());
        return Err(
            quoted(
                scheme.as_slice(),
                "\" is not a supported proxy scheme — use socks5:// or http://.",
            ),
        );
    }
    let host_empty = match &parsed.host {
        Some(h) => h.as_str().is_empty(),
        None => true,
    };
    if host_empty {
        return Err(quoted(t.as_slice(), "\" is missing a host."));
    }
    if parsed.port.is_none() {
        return Err(quoted(t.as_slice(), "\" is missing a port."));
    }
    Ok(parsed)
}


} // verus!
