//! Address-bar policy: search engines, AI-free search, proxies and timezone
//! pinning, and turning what the user typed into a URL.

use vstd::prelude::*;
use vstd::string::StringSliceAdditionalSpecFns;
use vstd::utf8::encode_utf8;
use crate::text::{
    is_ws, trim_ws, starts_with, to_chars, from_chars, push_all, push_str_chars, trim_chars,
    str_eq, starts_with_chars, char_in, unicode_lowercase, to_lowercase, lower_ascii,
    lower_ascii_chars, ends_with, is_hex_digit, char_is_hex_digit, take_chars, char_is_whitespace,
};
use crate::urls::{
    url_parse, parse_url, tracking_stripped, strip_tracking_params, proxy_url_check,
    parse_proxy_url, ParsedUrl, UrlView, strip_leading_repeats, strip_leading_repeats_chars,
};

verus! {

/// The engine used when no settings are at hand, and for unrecognised ids:
/// the option that does not build a profile of the user.
pub const DEFAULT_SEARCH_ENGINE: &'static str = "duckduckgo";

/// Whether AI-free search is requested when no settings say otherwise.
pub fn default_ai_free_search() -> (r: bool)
    ensures
        r == true,
{
    true
}

/// Which engine a typed query goes to, and whether to ask it for results
/// without AI-generated answers. One decision, so the two travel together.
#[derive(Clone, Copy)]
pub struct SearchPrefs<'a> {
    pub engine: &'a str,
    pub ai_free: bool,
}

impl<'a> SearchPrefs<'a> {
    /// For callers with no settings in hand.
    pub fn fallback() -> (r: SearchPrefs<'static>)
        ensures
            r.engine@ == DEFAULT_SEARCH_ENGINE@,
            r.ai_free == true,
    {
        SearchPrefs { engine: DEFAULT_SEARCH_ENGINE, ai_free: default_ai_free_search() }
    }
}

pub struct ProxySettings {
    pub enabled: bool,
    pub url: String,
}

pub struct BrowserSettings {
    pub default_search_engine: String,
    pub ai_free_search: bool,
    pub proxy: ProxySettings,
    pub pin_timezone: bool,
}

impl BrowserSettings {
    pub fn search_prefs(&self) -> (r: SearchPrefs<'_>)
        ensures
            r.engine@ == self.default_search_engine@,
            r.ai_free == self.ai_free_search,
    {
        SearchPrefs { engine: self.default_search_engine.as_str(), ai_free: self.ai_free_search }
    }
}

/// How an engine lets a user refuse AI-generated answers, if it does at all.
pub enum AiFreeSearch {
    /// No URL-level opt-out exists.
    Unavailable,
    /// A query operator appended to the search terms.
    QueryOperator(&'static str),
    /// A parameter on the search URL.
    UrlParam(&'static str),
    /// A different host serving the same engine with AI features off.
    AltHost { search: &'static str, home: &'static str },
}

/// The AI-free mechanism of an engine, as strings: (kind, value, home).
pub open spec fn ai_free_mechanism(id: Seq<char>) -> (u8, Seq<char>, Seq<char>) {
    if id == "google"@ {
        (1, "udm=14"@, Seq::empty())
    } else if id == "bing"@ {
        (2, "-ai"@, Seq::empty())
    } else if id == "duckduckgo"@ {
        (3, "https://noai.duckduckgo.com/?q="@, "https://noai.duckduckgo.com"@)
    } else {
        (0, Seq::empty(), Seq::empty())
    }
}

pub open spec fn ai_free_view(a: AiFreeSearch) -> (u8, Seq<char>, Seq<char>) {
    match a {
        AiFreeSearch::Unavailable => (0, Seq::empty(), Seq::empty()),
        AiFreeSearch::UrlParam(p) => (1, p@, Seq::empty()),
        AiFreeSearch::QueryOperator(o) => (2, o@, Seq::empty()),
        AiFreeSearch::AltHost { search, home } => (3, search@, home@),
    }
}

/// Google: the `udm=14` Web vertical; Bing: the `-ai` operator; DuckDuckGo: the
/// `noai` host. Yahoo, Ecosia and anything unrecognised have none.
pub fn ai_free_search(id: &str) -> (r: AiFreeSearch)
    ensures
        ai_free_view(r) == ai_free_mechanism(id@),
{
    proof {
        reveal_strlit("");
    }
    if str_eq(id, "google") {
        AiFreeSearch::UrlParam("udm=14")
    } else if str_eq(id, "bing") {
        AiFreeSearch::QueryOperator("-ai")
    } else if str_eq(id, "duckduckgo") {
        AiFreeSearch::AltHost {
            search: "https://noai.duckduckgo.com/?q=",
            home: "https://noai.duckduckgo.com",
        }
    } else {
        AiFreeSearch::Unavailable
    }
}

pub struct AiFreeSearchStatus {
    pub enabled: bool,
    pub available: bool,
    pub mechanism: String,
}

/// How the mechanism is described in Settings.
pub open spec fn ai_free_description(id: Seq<char>) -> Seq<char> {
    let m = ai_free_mechanism(id);
    if m.0 == 1 {
        m.1 + " Web filter"@
    } else if m.0 == 2 {
        m.1 + " operator"@
    } else if m.0 == 3 {
        strip_leading_repeats(m.2, "https://"@)
    } else {
        Seq::empty()
    }
}

/// What AI-free search does for the engine the user selected.
pub fn ai_free_search_status(browser: &BrowserSettings) -> (r: AiFreeSearchStatus)
    ensures
        r.mechanism@ == ai_free_description(browser.default_search_engine@),
        r.enabled == browser.ai_free_search,
        r.available == (r.mechanism@.len() > 0),
{
    let mechanism = match ai_free_search(browser.default_search_engine.as_str()) {
        AiFreeSearch::UrlParam(param) => {
            let mut v = to_chars(param);
            push_str_chars(&mut v, " Web filter");
            v
        },
        AiFreeSearch::QueryOperator(operator) => {
            let mut v = to_chars(operator);
            push_str_chars(&mut v, " operator");
            v
        },
        AiFreeSearch::AltHost { home, .. } => {
            let h = to_chars(home);
            let p = to_chars("https://");
            strip_leading_repeats_chars(h.as_slice(), p.as_slice())
        },
        AiFreeSearch::Unavailable => Vec::new(),
    };
    let available = mechanism.len() > 0;
    AiFreeSearchStatus {
        enabled: browser.ai_free_search,
        available,
        mechanism: from_chars(mechanism.as_slice()),
    }
}

// ---------------------------------------------------------------------------
// Engines
// ---------------------------------------------------------------------------

pub open spec fn engine_prefix(id: Seq<char>) -> Seq<char> {
    if id == "google"@ {
        "https://www.google.com/search?q="@
    } else if id == "bing"@ {
        "https://www.bing.com/search?q="@
    } else if id == "yahoo"@ {
        "https://search.yahoo.com/search?p="@
    } else if id == "ecosia"@ {
        "https://www.ecosia.org/search?q="@
    } else {
        "https://duckduckgo.com/?q="@
    }
}

/// The search URL prefix of an engine; DuckDuckGo for anything unrecognised.
pub fn search_engine_prefix(id: &str) -> (r: &'static str)
    ensures
        r@ == engine_prefix(id@),
{
    if str_eq(id, "google") {
        "https://www.google.com/search?q="
    } else if str_eq(id, "bing") {
        "https://www.bing.com/search?q="
    } else if str_eq(id, "yahoo") {
        "https://search.yahoo.com/search?p="
    } else if str_eq(id, "ecosia") {
        "https://www.ecosia.org/search?q="
    } else {
        "https://duckduckgo.com/?q="
    }
}

pub open spec fn engine_home(id: Seq<char>, ai_free: bool) -> Seq<char> {
    if ai_free && ai_free_mechanism(id).0 == 3 {
        ai_free_mechanism(id).2
    } else if id == "google"@ {
        "https://www.google.com"@
    } else if id == "bing"@ {
        "https://www.bing.com"@
    } else if id == "yahoo"@ {
        "https://search.yahoo.com"@
    } else if id == "ecosia"@ {
        "https://www.ecosia.org"@
    } else {
        "https://duckduckgo.com"@
    }
}

/// The engine's landing page, which an empty address bar opens. Only
/// DuckDuckGo differs with AI-free on: its opt-out is a whole host.
pub fn search_engine_home(search: SearchPrefs<'_>) -> (r: &'static str)
    ensures
        r@ == engine_home(search.engine@, search.ai_free),
{
    if search.ai_free {
        if let AiFreeSearch::AltHost { home, .. } = ai_free_search(search.engine) {
            return home;
        }
    }
    if str_eq(search.engine, "google") {
        "https://www.google.com"
    } else if str_eq(search.engine, "bing") {
        "https://www.bing.com"
    } else if str_eq(search.engine, "yahoo") {
        "https://search.yahoo.com"
    } else if str_eq(search.engine, "ecosia") {
        "https://www.ecosia.org"
    } else {
        "https://duckduckgo.com"
    }
}

pub open spec fn known_engine(id: Seq<char>) -> bool {
    id == "google"@ || id == "bing"@ || id == "yahoo"@ || id == "ecosia"@ || id == "duckduckgo"@
}

/// A known engine id as given, anything else as `duckduckgo`.
pub fn normalize_search_engine_id(value: &str) -> (r: String)
    ensures
        r@ == if known_engine(value@) {
            value@
        } else {
            "duckduckgo"@
        },
{
    if str_eq(value, "google") || str_eq(value, "bing") || str_eq(value, "yahoo") || str_eq(
        value,
        "ecosia",
    ) || str_eq(value, "duckduckgo") {
        String::from_str(value)
    } else {
        String::from_str("duckduckgo")
    }
}

// ---------------------------------------------------------------------------
// Form encoding
// ---------------------------------------------------------------------------

pub open spec fn is_unreserved_byte(b: u8) -> bool {
    (0x41 <= b <= 0x5A) || (0x61 <= b <= 0x7A) || (0x30 <= b <= 0x39) || b == 0x2D || b == 0x5F
        || b == 0x2E || b == 0x7E
}

pub open spec fn hex_upper(d: u8) -> char {
    if d < 10 {
        ((d + 48) as u8) as char
    } else {
        ((d + 55) as u8) as char
    }
}

/// One byte of a query string: unreserved bytes as themselves, a space as `+`,
/// everything else as `%XX` in upper-case hex.
pub open spec fn encode_byte(b: u8) -> Seq<char> {
    if is_unreserved_byte(b) {
        seq![b as char]
    } else if b == 0x20 {
        seq!['+']
    } else {
        seq!['%', hex_upper(b / 16), hex_upper(b % 16)]
    }
}

pub open spec fn encode_bytes(b: Seq<u8>) -> Seq<char>
    decreases b.len(),
{
    if b.len() == 0 {
        Seq::empty()
    } else {
        encode_bytes(b.drop_last()) + encode_byte(b.last())
    }
}

/// The UTF-8 bytes of `s`, form-encoded.
pub open spec fn form_encoded(s: Seq<char>) -> Seq<char> {
    encode_bytes(encode_utf8(s))
}

fn hex_digit_upper(d: u8) -> (r: char)
    requires
        d < 16,
    ensures
        r == hex_upper(d),
{
    if d < 10 {
        (d + 48) as char
    } else {
        (d + 55) as char
    }
}

/// Form-encodes the UTF-8 bytes of a string.
pub fn urlencoding(value: &str) -> (r: String)
    ensures
        r@ == form_encoded(value@),
{
    let bytes = value.as_bytes();
    let n = bytes.len();
    let mut out: Vec<char> = Vec::new();
    let mut i: usize = 0;
    let ghost b = value.spec_bytes();
    assert(b.take(0) =~= Seq::<u8>::empty());
    while i < n
        invariant
            n == b.len(),
            bytes@ == b,
            i <= n,
            out@ == encode_bytes(b.take(i as int)),
        decreases n - i,
    {
        let x = bytes[i];
        assert(b.take(i + 1).drop_last() =~= b.take(i as int));
        assert(b.take(i + 1).last() == x);
        let ghost before = out@;
        if (0x41 <= x && x <= 0x5A) || (0x61 <= x && x <= 0x7A) || (0x30 <= x && x <= 0x39) || x
            == 0x2D || x == 0x5F || x == 0x2E || x == 0x7E {
            out.push(x as char);
        } else if x == 0x20 {
            out.push('+');
        } else {
            out.push('%');
            out.push(hex_digit_upper(x / 16));
            out.push(hex_digit_upper(x % 16));
        }
        assert(out@ =~= before + encode_byte(x));
        i += 1;
    }
    assert(b.take(n as int) =~= b);
    from_chars(out.as_slice())
}

// ---------------------------------------------------------------------------
// Typed input to URL
// ---------------------------------------------------------------------------

/// The search URL for terms, honouring the AI-free request for the engine.
pub open spec fn search_url_for(terms: Seq<char>, engine: Seq<char>, ai_free: bool) -> Seq<char> {
    let m = ai_free_mechanism(engine);
    if !ai_free {
        engine_prefix(engine) + form_encoded(terms)
    } else if m.0 == 2 {
        engine_prefix(engine) + form_encoded(terms + seq![' '] + m.1)
    } else if m.0 == 1 {
        engine_prefix(engine) + form_encoded(terms) + seq!['&'] + m.1
    } else if m.0 == 3 {
        m.1 + form_encoded(terms)
    } else {
        engine_prefix(engine) + form_encoded(terms)
    }
}

/// Turns search terms into a URL for the chosen engine.
pub fn search_url(terms: &str, search: SearchPrefs<'_>) -> (r: String)
    ensures
        r@ == search_url_for(terms@, search.engine@, search.ai_free),
{
    let prefix = search_engine_prefix(search.engine);
    if !search.ai_free {
        let mut v = to_chars(prefix);
        let enc = urlencoding(terms);
        push_str_chars(&mut v, enc.as_str());
        return from_chars(v.as_slice());
    }
    match ai_free_search(search.engine) {
        AiFreeSearch::QueryOperator(operator) => {
            let mut q = to_chars(terms);
            q.push(' ');
            push_str_chars(&mut q, operator);
            let qs = from_chars(q.as_slice());
            assert(qs@ =~= terms@ + seq![' '] + operator@);
            let enc = urlencoding(qs.as_str());
            let mut v = to_chars(prefix);
            push_str_chars(&mut v, enc.as_str());
            from_chars(v.as_slice())
        },
        AiFreeSearch::UrlParam(param) => {
            let mut v = to_chars(prefix);
            let enc = urlencoding(terms);
            push_str_chars(&mut v, enc.as_str());
            v.push('&');
            push_str_chars(&mut v, param);
            assert(v@ =~= prefix@ + enc@ + seq!['&'] + param@);
            from_chars(v.as_slice())
        },
        AiFreeSearch::AltHost { search: alt, .. } => {
            let mut v = to_chars(alt);
            let enc = urlencoding(terms);
            push_str_chars(&mut v, enc.as_str());
            from_chars(v.as_slice())
        },
        AiFreeSearch::Unavailable => {
            let mut v = to_chars(prefix);
            let enc = urlencoding(terms);
            push_str_chars(&mut v, enc.as_str());
            from_chars(v.as_slice())
        },
    }
}

pub open spec fn has_ws(s: Seq<char>) -> bool {
    exists|i: int| 0 <= i < s.len() && is_ws(#[trigger] s[i])
}

/// Address-bar input to a URL: empty opens the engine's home, a parseable URL
/// is kept (minus tracking parameters), text with spaces or without a dot or
/// colon is searched, local hosts get `http://`, everything else `https://`.
pub open spec fn navigation_url(raw: Seq<char>, engine: Seq<char>, ai_free: bool) -> Seq<char> {
    let t = trim_ws(raw);
    if t.len() == 0 {
        engine_home(engine, ai_free)
    } else if url_parse(t) is Some {
        tracking_stripped(t)
    } else if has_ws(t) || !(t.contains('.') || t.contains(':')) {
        search_url_for(t, engine, ai_free)
    } else if starts_with(t, "localhost"@) || starts_with(t, "127.0.0.1"@) || starts_with(
        t,
        "[::1]"@,
    ) {
        "http://"@ + t
    } else {
        "https://"@ + t
    }
}

fn has_ws_chars(s: &[char]) -> (r: bool)
    ensures
        r == has_ws(s@),
{
    let n = s.len();
    let mut i: usize = 0;
    while i < n
        invariant
            n == s@.len(),
            i <= n,
            forall|k: int| 0 <= k < i ==> !is_ws(#[trigger] s@[k]),
        decreases n - i,
    {
        if char_is_whitespace(s[i]) {
            return true;
        }
        i += 1;
    }
    false
}

pub fn normalize_url(raw_url: &str, search: SearchPrefs<'_>) -> (r: String)
    ensures
        r@ == navigation_url(raw_url@, search.engine@, search.ai_free),
{
    let v = to_chars(raw_url);
    let t = trim_chars(v.as_slice());
    if t.len() == 0 {
        return String::from_str(search_engine_home(search));
    }
    let ts = from_chars(t.as_slice());
    if parse_url(ts.as_str()).is_some() {
        return strip_tracking_params(ts.as_str());
    }
    if has_ws_chars(t.as_slice()) || !(char_in('.', t.as_slice()) || char_in(':', t.as_slice())) {
        return search_url(ts.as_str(), search);
    }
    let localhost = to_chars("localhost");
    let loopback = to_chars("127.0.0.1");
    let loopback6 = to_chars("[::1]");
    let mut out = if starts_with_chars(t.as_slice(), localhost.as_slice()) || starts_with_chars(
        t.as_slice(),
        loopback.as_slice(),
    ) || starts_with_chars(t.as_slice(), loopback6.as_slice()) {
        to_chars("http://")
    } else {
        to_chars("https://")
    };
    push_all(&mut out, t.as_slice());
    from_chars(out.as_slice())
}

// ---------------------------------------------------------------------------
// Platform support
// ---------------------------------------------------------------------------

/// The platform a build runs on, with what the platform checks read of it.
pub enum Platform {
    MacOs { major_version: isize },
    Linux,
    Windows,
    Android,
    Ios,
}

pub open spec fn is_desktop(p: Platform) -> bool {
    p is MacOs || p is Linux || p is Windows
}

pub open spec fn proxy_support(p: Platform) -> Result<(), Seq<char>> {
    match p {
        Platform::MacOs { major_version } => if major_version < 14 {
            Err("Proxy support needs macOS 14 or later; this Mac browses directly."@)
        } else {
            Ok(())
        },
        Platform::Android => Err(
            "Proxy support is not available on Android; this device browses directly."@,
        ),
        _ => Ok(()),
    }
}

pub open spec fn result_view(r: Result<(), String>) -> Result<(), Seq<char>> {
    match r {
        Ok(()) => Ok(()),
        Err(e) => Err(e@),
    }
}

/// Whether the platform can route webview traffic through a proxy. On macOS
/// before 14 the data-store key wry sets does not exist and setting it crashes
/// the tab, so the proxy is refused there.
pub fn proxy_platform_support(platform: &Platform) -> (r: Result<(), String>)
    ensures
        result_view(r) == proxy_support(*platform),
{
    match platform {
        Platform::MacOs { major_version } => if *major_version < 14 {
            Err(String::from_str("Proxy support needs macOS 14 or later; this Mac browses directly."))
        } else {
            Ok(())
        },
        Platform::Android => Err(
            String::from_str(
                "Proxy support is not available on Android; this device browses directly.",
            ),
        ),
        _ => Ok(()),
    }
}

pub struct ProxyStatus {
    pub enabled: bool,
    pub url: String,
    pub available: bool,
    pub unsupported_reason: Option<String>,
    pub active: bool,
}

/// What the proxy is actually doing: `active` only when it is switched on,
/// supported here, and its endpoint parses.
pub fn proxy_status(browser: &BrowserSettings, platform: &Platform) -> (r: ProxyStatus)
    ensures
        r.enabled == browser.proxy.enabled,
        r.url@ == browser.proxy.url@,
        r.available == (proxy_support(*platform) is Ok),
        r.unsupported_reason.deep_view() == match proxy_support(*platform) {
            Ok(()) => None,
            Err(e) => Some(e),
        },
        r.active == (browser.proxy.enabled && proxy_support(*platform) is Ok && proxy_url_check(
            browser.proxy.url@,
        ) is Ok),
{
    let support = proxy_platform_support(platform);
    let available = support.is_ok();
    let usable = available && parse_proxy_url(browser.proxy.url.as_str()).is_ok();
    let reason = match support {
        Ok(()) => None,
        Err(e) => Some(e),
    };
    ProxyStatus {
        enabled: browser.proxy.enabled,
        url: browser.proxy.url.clone(),
        available,
        unsupported_reason: reason,
        active: browser.proxy.enabled && usable,
    }
}

/// The endpoint to hand to the webview and HTTP client, or `None` to go direct.
pub fn active_proxy_url(browser: &BrowserSettings, platform: &Platform) -> (r: Option<ParsedUrl>)
    ensures
        match r {
            Some(u) => browser.proxy.enabled && proxy_support(*platform) is Ok && proxy_url_check(
                browser.proxy.url@,
            ) == Ok::<UrlView, Seq<char>>(u@),
            None => !browser.proxy.enabled || proxy_support(*platform) is Err || proxy_url_check(
                browser.proxy.url@,
            ) is Err,
        },
{
    if !browser.proxy.enabled || proxy_platform_support(platform).is_err() {
        return None;
    }
    match parse_proxy_url(browser.proxy.url.as_str()) {
        Ok(u) => Some(u),
        Err(_) => None,
    }
}

pub open spec fn timezone_support(p: Platform) -> Result<(), Seq<char>> {
    if is_desktop(p) {
        Ok(())
    } else {
        Err(
            "Timezone pinning is not available on this platform; pages see the device's own timezone."@,
        )
    }
}

/// Whether this shell can inject a document-start script into a visited page.
pub fn timezone_pin_platform_support(platform: &Platform) -> (r: Result<(), String>)
    ensures
        result_view(r) == timezone_support(*platform),
{
    match platform {
        Platform::MacOs { .. } | Platform::Linux | Platform::Windows => Ok(()),
        _ => Err(
            String::from_str(
                "Timezone pinning is not available on this platform; pages see the device's own timezone.",
            ),
        ),
    }
}

pub struct TimezonePinStatus {
    pub enabled: bool,
    pub available: bool,
    pub unsupported_reason: Option<String>,
    pub active: bool,
}

pub fn timezone_pin_status(browser: &BrowserSettings, platform: &Platform) -> (r:
    TimezonePinStatus)
    ensures
        r.enabled == browser.pin_timezone,
        r.available == is_desktop(*platform),
        r.unsupported_reason.deep_view() == match timezone_support(*platform) {
            Ok(()) => None,
            Err(e) => Some(e),
        },
        r.active == (browser.pin_timezone && is_desktop(*platform)),
{
    let support = timezone_pin_platform_support(platform);
    let available = support.is_ok();
    let reason = match support {
        Ok(()) => None,
        Err(e) => Some(e),
    };
    TimezonePinStatus {
        enabled: browser.pin_timezone,
        available,
        unsupported_reason: reason,
        active: browser.pin_timezone && available,
    }
}

} // verus!
