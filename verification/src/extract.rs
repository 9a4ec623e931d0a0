//! Turning a page snapshot from the webview into capturable text with its
//! provenance: which metadata is believed, which text is indexed, and when a
//! page or a selection is refused.

use vstd::prelude::*;
use vstd::string::StringSliceAdditionalSpecFns;
use vstd::utf8::encode_utf8;
use crate::text::{
    trim_ws, join_with, views, first_n, normalized_text, word_count, to_chars, from_chars,
    push_str_chars, push_all, trim_chars, take_chars, join_chars, normalize_captured_text,
    count_words, string_views, to_char_vecs,
};
use crate::urls::{tracking_stripped, provenance_url, strip_tracking_params, normalize_provenance_url};
use crate::tabs::{copy_string, clone_opt_string};

verus! {

// ---------------------------------------------------------------------------
// Reading the page's HTML
// ---------------------------------------------------------------------------

/// The text nodes of the first element of `html` (parsed as a document by
/// `scraper`) matching the CSS `selector`; `None` when nothing matches or the
/// selector does not parse.
pub uninterp spec fn html_first_texts(html: Seq<char>, selector: Seq<char>) -> Option<
    Seq<Seq<char>>,
>;

/// The text nodes of every element of `html` (parsed as a document by
/// `scraper`) matching the CSS `selector`, in document order; empty when
/// nothing matches or the selector does not parse.
pub uninterp spec fn html_all_texts(html: Seq<char>, selector: Seq<char>) -> Seq<Seq<Seq<char>>>;

/// The attribute of the first element of `html` matching `selector`: `None`
/// when nothing matches or the selector does not parse, `Some(None)` when the
/// element lacks the attribute.
pub uninterp spec fn html_first_attribute(
    html: Seq<char>,
    selector: Seq<char>,
    attribute: Seq<char>,
) -> Option<Option<Seq<char>>>;

/// Calls `scraper::Html::parse_document`, `scraper::Selector::parse`,
/// `Html::select` and `ElementRef::text` for the first match.
#[verifier::external_body]
fn first_match_texts(html: &str, selector: &str) -> (r: Option<Vec<String>>)
    ensures
        match r {
            Some(v) => html_first_texts(html@, selector@) == Some(string_views(v@)),
            None => html_first_texts(html@, selector@) is None,
        },
{
    let document = scraper::Html::parse_document(html);
    let selector = scraper::Selector::parse(selector).ok()?;
    document.select(&selector).next().map(|node| node.text().map(|t| t.to_string()).collect())
}

/// Calls `scraper::Html::parse_document`, `scraper::Selector::parse`,
/// `Html::select` and `ElementRef::text` for every match.
#[verifier::external_body]
fn all_match_texts(html: &str, selector: &str) -> (r: Vec<Vec<String>>)
    ensures
        r@.map_values(|v: Vec<String>| string_views(v@)) == html_all_texts(html@, selector@),
{
    let document = scraper::Html::parse_document(html);
    match scraper::Selector::parse(selector) {
        Ok(selector) => document.select(&selector).map(|node| node.text().map(|t| t.to_string()).collect()).collect(),
        Err(_) => Vec::new(),
    }
}

/// Calls `scraper::Html::parse_document`, `scraper::Selector::parse`,
/// `Html::select` and `ElementRef::attr` for the first match.
#[verifier::external_body]
fn first_match_attribute(html: &str, selector: &str, attribute: &str) -> (r: Option<
    Option<String>,
>)
    ensures
        match r {
            Some(Some(v)) => html_first_attribute(html@, selector@, attribute@) == Some(
                Some(v@),
            ),
            Some(None) => html_first_attribute(html@, selector@, attribute@) == Some(
                None::<Seq<char>>,
            ),
            None => html_first_attribute(html@, selector@, attribute@) is None,
        },
{
    let document = scraper::Html::parse_document(html);
    let selector = scraper::Selector::parse(selector).ok()?;
    document.select(&selector).next().map(|node| node.attr(attribute).map(|v| v.to_string()))
}

/// Metadata from a page is untrusted: trimmed, dropped when empty, and held
/// to 2048 characters.
pub open spec fn clean_meta(value: Option<Seq<char>>) -> Option<Seq<char>> {
    match value {
        Some(v) => if trim_ws(v).len() > 0 {
            Some(first_n(trim_ws(v), 2048))
        } else {
            None
        },
        None => None,
    }
}

pub fn clean_metadata_value(value: Option<String>) -> (r: Option<String>)
    ensures
        r.deep_view() == clean_meta(value.deep_view()),
{
    match value {
        Some(v) => {
            let c = to_chars(v.as_str());
            let t = trim_chars(c.as_slice());
            if t.len() == 0 {
                None
            } else {
                let k = take_chars(t.as_slice(), 2048);
                Some(from_chars(k.as_slice()))
            }
        },
        None => None,
    }
}

/// The first match's text, its nodes joined by spaces and trimmed.
pub open spec fn first_text(html: Seq<char>, selector: Seq<char>) -> Option<Seq<char>> {
    match html_first_texts(html, selector) {
        Some(ts) => Some(trim_ws(join_with(ts, " "@))),
        None => None,
    }
}

pub fn select_first_text(html: &str, selector: &str) -> (r: Option<String>)
    ensures
        r.deep_view() == first_text(html@, selector@),
{
    match first_match_texts(html, selector) {
        Some(texts) => {
            let parts = to_char_vecs(&texts);
            let joined = join_chars(&parts, to_chars(" ").as_slice());
            let t = trim_chars(joined.as_slice());
            Some(from_chars(t.as_slice()))
        },
        None => None,
    }
}

/// An attribute of the first match, cleaned.
pub open spec fn element_attribute(html: Seq<char>, selector: Seq<char>, attribute: Seq<char>) -> Option<
    Seq<char>,
> {
    match html_first_attribute(html, selector, attribute) {
        Some(Some(v)) => clean_meta(Some(v)),
        _ => None,
    }
}

pub fn select_element_attribute(html: &str, selector: &str, attribute: &str) -> (r: Option<String>)
    ensures
        r.deep_view() == element_attribute(html@, selector@, attribute@),
{
    match first_match_attribute(html, selector, attribute) {
        Some(Some(v)) => clean_metadata_value(Some(v)),
        _ => None,
    }
}

/// `prefix + value + "\"]"`, the attribute selectors below.
pub open spec fn attr_selector(prefix: Seq<char>, value: Seq<char>) -> Seq<char> {
    prefix + value + "\"]"@
}

fn build_selector(prefix: &str, value: &str) -> (r: String)
    ensures
        r@ == attr_selector(prefix@, value@),
{
    let mut v = to_chars(prefix);
    push_str_chars(&mut v, value);
    push_str_chars(&mut v, "\"]");
    from_chars(v.as_slice())
}

pub open spec fn meta_content(html: Seq<char>, name: Seq<char>) -> Option<Seq<char>> {
    element_attribute(html, attr_selector("meta[name=\""@, name), "content"@)
}

pub fn select_meta_content(html: &str, name: &str) -> (r: Option<String>)
    ensures
        r.deep_view() == meta_content(html@, name@),
{
    let selector = build_selector("meta[name=\"", name);
    select_element_attribute(html, selector.as_str(), "content")
}

pub open spec fn meta_property(html: Seq<char>, property: Seq<char>) -> Option<Seq<char>> {
    element_attribute(html, attr_selector("meta[property=\""@, property), "content"@)
}

pub fn select_meta_property(html: &str, property: &str) -> (r: Option<String>)
    ensures
        r.deep_view() == meta_property(html@, property@),
{
    let selector = build_selector("meta[property=\"", property);
    select_element_attribute(html, selector.as_str(), "content")
}

pub open spec fn meta_itemprop(html: Seq<char>, itemprop: Seq<char>) -> Option<Seq<char>> {
    element_attribute(html, attr_selector("meta[itemprop=\""@, itemprop), "content"@)
}

pub fn select_meta_itemprop(html: &str, itemprop: &str) -> (r: Option<String>)
    ensures
        r.deep_view() == meta_itemprop(html@, itemprop@),
{
    let selector = build_selector("meta[itemprop=\"", itemprop);
    select_element_attribute(html, selector.as_str(), "content")
}

pub open spec fn link_href(html: Seq<char>, rel: Seq<char>) -> Option<Seq<char>> {
    element_attribute(html, attr_selector("link[rel~=\""@, rel), "href"@)
}

pub fn select_link_href(html: &str, rel: &str) -> (r: Option<String>)
    ensures
        r.deep_view() == link_href(html@, rel@),
{
    let selector = build_selector("link[rel~=\"", rel);
    select_element_attribute(html, selector.as_str(), "href")
}

pub open spec fn document_language(html: Seq<char>) -> Option<Seq<char>> {
    element_attribute(html, "html[lang]"@, "lang"@)
}

pub fn select_document_language(html: &str) -> (r: Option<String>)
    ensures
        r.deep_view() == document_language(html@),
{
    select_element_attribute(html, "html[lang]", "lang")
}

/// Selects a page's JSON-LD documents.
pub const JSON_LD_SELECTOR: &'static str = "script[type=\"application/ld+json\"]";

/// The source of each JSON-LD script of `html`, in document order: the
/// script's text nodes joined.
pub fn json_ld_script_texts(html: &str) -> (r: Vec<String>)
    ensures
        string_views(r@) == html_all_texts(html@, JSON_LD_SELECTOR@).map_values(
            |ts: Seq<Seq<char>>| join_with(ts, Seq::empty()),
        ),
{
    let scripts = all_match_texts(html, JSON_LD_SELECTOR);
    let ghost all = scripts@.map_values(|v: Vec<String>| string_views(v@));
    let n = scripts.len();
    let mut out: Vec<String> = Vec::new();
    let mut i: usize = 0;
    while i < n
        invariant
            n == scripts@.len(),
            all == scripts@.map_values(|v: Vec<String>| string_views(v@)),
            i <= n,
            string_views(out@) == all.take(i as int).map_values(|ts: Seq<Seq<char>>| join_with(ts, Seq::empty())),
        decreases n - i,
    {
        let parts = to_char_vecs(&scripts[i]);
        let sep: Vec<char> = Vec::new();
        let joined = join_chars(&parts, sep.as_slice());
        assert(sep@ =~= Seq::<char>::empty());
        let ghost before = string_views(out@);
        out.push(from_chars(joined.as_slice()));
        proof {
            assert(all[i as int] == string_views(scripts@[i as int]@));
            assert(views(parts@) == string_views(scripts@[i as int]@));
            assert(string_views(out@) =~= before.push(join_with(all[i as int], Seq::empty())));
            assert(all.take(i + 1).map_values(|ts: Seq<Seq<char>>| join_with(ts, Seq::empty())) =~= all.take(
                i as int,
            ).map_values(|ts: Seq<Seq<char>>| join_with(ts, Seq::empty())).push(join_with(all[i as int], Seq::empty())));
        }
        i += 1;
    }
    assert(all.take(n as int) =~= all);
    out
}

// ---------------------------------------------------------------------------
// Content hash and words
// ---------------------------------------------------------------------------

/// The SHA-256 digest of a byte string.
pub uninterp spec fn sha256(bytes: Seq<u8>) -> Seq<u8>;

/// Calls `sha2::Sha256::digest`; the digest is 32 bytes.
#[verifier::external_body]
fn sha256_digest(bytes: &[u8]) -> (r: Vec<u8>)
    ensures
        r@ == sha256(bytes@),
        r@.len() == 32,
{
    <sha2::Sha256 as sha2::Digest>::digest(bytes).to_vec()
}

pub open spec fn hex_digit(d: u8) -> char {
    if d < 10 {
        ((d + 48) as u8) as char
    } else {
        ((d + 87) as u8) as char
    }
}

/// Lower-case hexadecimal, two digits per byte.
pub open spec fn hex_lower(bytes: Seq<u8>) -> Seq<char>
    decreases bytes.len(),
{
    if bytes.len() == 0 {
        Seq::empty()
    } else {
        hex_lower(bytes.drop_last()) + seq![hex_digit(bytes.last() / 16), hex_digit(bytes.last() % 16)]
    }
}

fn hex_char(d: u8) -> (r: char)
    requires
        d < 16,
    ensures
        r == hex_digit(d),
{
    if d < 10 {
        (d + 48) as char
    } else {
        (d + 87) as char
    }
}

/// The content hash recorded for captured text.
pub open spec fn content_hash(text: Seq<char>) -> Seq<char> {
    hex_lower(sha256(encode_utf8(text)))
}

pub fn hash_extracted_content(text: &str) -> (r: String)
    ensures
        r@ == content_hash(text@),
{
    let digest = sha256_digest(text.as_bytes());
    let n = digest.len();
    let mut out: Vec<char> = Vec::new();
    let mut i: usize = 0;
    assert(digest@.take(0) =~= Seq::<u8>::empty());
    while i < n
        invariant
            n == digest@.len(),
            i <= n,
            out@ == hex_lower(digest@.take(i as int)),
        decreases n - i,
    {
        let b = digest[i];
        assert(digest@.take(i + 1).drop_last() =~= digest@.take(i as int));
        assert(digest@.take(i + 1).last() == b);
        let ghost before = out@;
        out.push(hex_char(b / 16));
        out.push(hex_char(b % 16));
        assert(out@ =~= before + seq![hex_digit(b / 16), hex_digit(b % 16)]);
        i += 1;
    }
    assert(digest@.take(n as int) =~= digest@);
    from_chars(out.as_slice())
}

pub fn count_extracted_words(text: &str) -> (r: usize)
    ensures
        r as nat == word_count(text@),
{
    let v = to_chars(text);
    count_words(v.as_slice())
}

// ---------------------------------------------------------------------------
// Snapshots
// ---------------------------------------------------------------------------

/// What the injected script reads from the live page.
pub struct BrowserPageSnapshot {
    /// The document with scripts, navigation and cookie banners removed.
    pub html: Option<String>,
    pub url: Option<String>,
    pub title: Option<String>,
    pub description: Option<String>,
    /// `document.body.innerText` of the untouched page.
    pub body_text: Option<String>,
    pub canonical_url: Option<String>,
    pub author: Option<String>,
    pub published_at: Option<String>,
    pub site_name: Option<String>,
    pub language: Option<String>,
    pub selected_text: Option<String>,
    pub selection_selector: Option<String>,
    pub selection_context_before: Option<String>,
    pub selection_context_after: Option<String>,
}

/// The article-like part of a document and where it was found.
pub struct ReadableContent {
    pub text: String,
    pub selector: String,
    pub fallback_reason: Option<String>,
}

#[derive(Clone, Copy, Debug, PartialEq, Eq, Structural)]
pub enum ExtractionMethod {
    LiveDom,
    HttpFetch,
}

#[derive(Clone, Copy, Debug, PartialEq, Eq, Structural)]
pub enum CaptureScope {
    Page,
    Selection,
}

/// Where captured text came from and what the page said about itself.
pub struct CaptureProvenance {
    pub receipt_version: u8,
    pub extractor_version: String,
    pub requested_url: Option<String>,
    pub canonical_url: Option<String>,
    pub author: Option<String>,
    pub published_at: Option<String>,
    pub site_name: Option<String>,
    pub language: Option<String>,
    pub content_hash: String,
    pub extraction_method: ExtractionMethod,
    pub content_scope: CaptureScope,
    pub content_selector: String,
    pub word_count: usize,
    pub fallback_reason: Option<String>,
    pub selection_context_before: Option<String>,
    pub selection_context_after: Option<String>,
}

/// A readable page as captured.
pub struct CapturedPage {
    pub title: String,
    pub url: String,
    pub text: String,
    pub provenance: CaptureProvenance,
}

pub const RECEIPT_VERSION: u8 = 1;
pub const EXTRACTOR_VERSION: &'static str = "aether-extract/2";
pub const MIN_CAPTURE_TEXT_LENGTH: usize = 120;

/// A document query, or nothing when there is no document.
pub open spec fn from_doc(html: Option<Seq<char>>, q: spec_fn(Seq<char>) -> Option<Seq<char>>) -> Option<
    Seq<char>,
> {
    match html {
        Some(h) => q(h),
        None => None,
    }
}

/// `a`, else `b`.
pub open spec fn or_else(a: Option<Seq<char>>, b: Option<Seq<char>>) -> Option<Seq<char>> {
    match a {
        Some(x) => Some(x),
        None => b,
    }
}

/// The snapshot's URL when it has one that is not blank.
pub open spec fn snapshot_url(s: BrowserPageSnapshot) -> Option<Seq<char>> {
    match s.url {
        Some(u) => if trim_ws(u@).len() > 0 {
            Some(u@)
        } else {
            None
        },
        None => None,
    }
}

/// The page's own title, else the document's `<title>`, else the tab's.
pub open spec fn page_title(s: BrowserPageSnapshot, fallback: Seq<char>) -> Seq<char> {
    let html = s.html.deep_view();
    match s.title {
        Some(t) if trim_ws(t@).len() > 0 => t@,
        _ => match from_doc(html, |h: Seq<char>| first_text(h, "title"@)) {
            Some(t) => t,
            None => fallback,
        },
    }
}

/// Canonical address: the snapshot's, the document's `rel=canonical`, or its
/// `og:url`, resolved against the page and kept only for the web.
pub open spec fn page_canonical(s: BrowserPageSnapshot, url: Seq<char>) -> Option<Seq<char>> {
    let html = s.html.deep_view();
    match or_else(
        clean_meta(s.canonical_url.deep_view()),
        or_else(
            from_doc(html, |h: Seq<char>| link_href(h, "canonical"@)),
            from_doc(html, |h: Seq<char>| meta_property(h, "og:url"@)),
        ),
    ) {
        Some(v) => provenance_url(v, url),
        None => None,
    }
}

pub open spec fn page_author(s: BrowserPageSnapshot) -> Option<Seq<char>> {
    let html = s.html.deep_view();
    or_else(
        clean_meta(s.author.deep_view()),
        or_else(
            from_doc(html, |h: Seq<char>| meta_content(h, "author"@)),
            from_doc(html, |h: Seq<char>| meta_property(h, "article:author"@)),
        ),
    )
}

pub open spec fn page_published(s: BrowserPageSnapshot) -> Option<Seq<char>> {
    let html = s.html.deep_view();
    or_else(
        clean_meta(s.published_at.deep_view()),
        or_else(
            from_doc(html, |h: Seq<char>| meta_property(h, "article:published_time"@)),
            from_doc(html, |h: Seq<char>| meta_itemprop(h, "datePublished"@)),
        ),
    )
}

pub open spec fn page_site_name(s: BrowserPageSnapshot) -> Option<Seq<char>> {
    or_else(
        clean_meta(s.site_name.deep_view()),
        from_doc(s.html.deep_view(), |h: Seq<char>| meta_property(h, "og:site_name"@)),
    )
}

pub open spec fn page_language(s: BrowserPageSnapshot) -> Option<Seq<char>> {
    or_else(
        clean_meta(s.language.deep_view()),
        from_doc(s.html.deep_view(), |h: Seq<char>| document_language(h)),
    )
}

/// Fields shared by page and selection captures.
pub struct PageMetadata {
    pub title: String,
    pub canonical_url: Option<String>,
    pub author: Option<String>,
    pub published_at: Option<String>,
    pub site_name: Option<String>,
    pub language: Option<String>,
}

fn or_else_doc(first: Option<String>, second: Option<String>) -> (r: Option<String>)
    ensures
        r.deep_view() == or_else(first.deep_view(), second.deep_view()),
{
    match first {
        Some(x) => Some(x),
        None => second,
    }
}

/// Metadata of the snapshot, each field from the snapshot itself first and
/// the document second.
fn read_metadata(s: &BrowserPageSnapshot, url: &str, fallback_title: &str) -> (r: PageMetadata)
    ensures
        r.title@ == page_title(*s, fallback_title@),
        r.canonical_url.deep_view() == page_canonical(*s, url@),
        r.author.deep_view() == page_author(*s),
        r.published_at.deep_view() == page_published(*s),
        r.site_name.deep_view() == page_site_name(*s),
        r.language.deep_view() == page_language(*s),
{
    let title = match &s.title {
        Some(t) if trim_chars(to_chars(t.as_str()).as_slice()).len() > 0 => copy_string(t),
        _ => {
            let from_html = match &s.html {
                Some(h) => select_first_text(h.as_str(), "title"),
                None => None,
            };
            match from_html {
                Some(t) => t,
                None => String::from_str(fallback_title),
            }
        },
    };
    let (canonical_doc, og_doc, author_doc, author_prop_doc, published_doc, published_item_doc, site_doc, lang_doc) =
        match &s.html {
        Some(h) => (
            select_link_href(h.as_str(), "canonical"),
            select_meta_property(h.as_str(), "og:url"),
            select_meta_content(h.as_str(), "author"),
            select_meta_property(h.as_str(), "article:author"),
            select_meta_property(h.as_str(), "article:published_time"),
            select_meta_itemprop(h.as_str(), "datePublished"),
            select_meta_property(h.as_str(), "og:site_name"),
            select_document_language(h.as_str()),
        ),
        None => (None, None, None, None, None, None, None, None),
    };
    let canonical_candidate = or_else_doc(
        clean_metadata_value(clone_opt_string(&s.canonical_url)),
        or_else_doc(canonical_doc, og_doc),
    );
    let canonical_url = match canonical_candidate {
        Some(v) => normalize_provenance_url(v.as_str(), url),
        None => None,
    };
    PageMetadata {
        title,
        canonical_url,
        author: or_else_doc(
            clean_metadata_value(clone_opt_string(&s.author)),
            or_else_doc(author_doc, author_prop_doc),
        ),
        published_at: or_else_doc(
            clean_metadata_value(clone_opt_string(&s.published_at)),
            or_else_doc(published_doc, published_item_doc),
        ),
        site_name: or_else_doc(clean_metadata_value(clone_opt_string(&s.site_name)), site_doc),
        language: or_else_doc(clean_metadata_value(clone_opt_string(&s.language)), lang_doc),
    }
}

/// Below this many bytes the cleaned document is taken to have yielded
/// nothing and the live `innerText` is used instead.
pub const CLONE_TEXT_FLOOR: usize = 32;

/// The text to index, the selector it came from, and why a fallback was used:
/// the cleaned document's readable content when it yielded something, else
/// the live body text, else nothing.
pub open spec fn page_body(
    s: BrowserPageSnapshot,
    readable: Option<(Seq<char>, Seq<char>, Option<Seq<char>>)>,
) -> (Seq<char>, Seq<char>, Option<Seq<char>>) {
    match readable {
        Some(c) if s.html is Some && (encode_utf8(c.0).len() as usize) >= CLONE_TEXT_FLOOR => c,
        _ => match s.body_text {
            Some(t) => (
                t@,
                "body.innerText"@,
                Some("The cleaned DOM was unavailable, so AETHER used visible body text."@),
            ),
            None => (Seq::empty(), "none"@, Some("No readable DOM content was available."@)),
        },
    }
}

pub open spec fn readable_view(r: Option<ReadableContent>) -> Option<
    (Seq<char>, Seq<char>, Option<Seq<char>>),
> {
    match r {
        Some(c) => Some((c.text@, c.selector@, c.fallback_reason.deep_view())),
        None => None,
    }
}

/// The indexed text of a page capture.
pub open spec fn page_text(title: Seq<char>, description: Seq<char>, body: Seq<char>) -> Seq<char> {
    normalized_text(title + "\n\n"@ + description + "\n\n"@ + body)
}

/// The description: the snapshot's, else the document's meta description.
pub open spec fn page_description(s: BrowserPageSnapshot) -> Seq<char> {
    match s.description {
        Some(d) => d@,
        None => match from_doc(s.html.deep_view(), |h: Seq<char>| meta_content(h, "description"@)) {
            Some(d) => d,
            None => Seq::empty(),
        },
    }
}

/// A whole-page capture from a live snapshot. `readable` is the readable
/// content found in the snapshot's HTML; it is read only when there is HTML.
pub fn snapshot_to_captured_page(
    snapshot: BrowserPageSnapshot,
    fallback_title: &str,
    readable: Option<ReadableContent>,
) -> (r: Result<CapturedPage, String>)
    ensures
        snapshot_url(snapshot) is None ==> r is Err && r->Err_0@ == "Unable to read the active page."@,
        snapshot_url(snapshot) matches Some(raw) ==> {
            let url = tracking_stripped(raw);
            let title = page_title(snapshot, fallback_title@);
            let body = page_body(snapshot, readable_view(readable));
            let text = page_text(title, page_description(snapshot), body.0);
            &&& (encode_utf8(text).len() as usize) < MIN_CAPTURE_TEXT_LENGTH ==> r is Err
                && r->Err_0@ == "This page does not contain enough readable text to capture."@
            &&& (encode_utf8(text).len() as usize) >= MIN_CAPTURE_TEXT_LENGTH ==> (r matches Ok(p)
                && p.title@ == title && p.url@ == url && p.text@ == text
                && p.provenance.receipt_version == RECEIPT_VERSION
                && p.provenance.extractor_version@ == EXTRACTOR_VERSION@
                && p.provenance.requested_url.deep_view() == Some(url)
                && p.provenance.canonical_url.deep_view() == page_canonical(snapshot, url)
                && p.provenance.author.deep_view() == page_author(snapshot)
                && p.provenance.published_at.deep_view() == page_published(snapshot)
                && p.provenance.site_name.deep_view() == page_site_name(snapshot)
                && p.provenance.language.deep_view() == page_language(snapshot)
                && p.provenance.content_hash@ == content_hash(text)
                && p.provenance.extraction_method == ExtractionMethod::LiveDom
                && p.provenance.content_scope == CaptureScope::Page
                && p.provenance.content_selector@ == body.1
                && p.provenance.word_count == word_count(text)
                && p.provenance.fallback_reason.deep_view() == body.2
                && p.provenance.selection_context_before is None
                && p.provenance.selection_context_after is None)
        },
{
    let raw = match &snapshot.url {
        Some(u) if trim_chars(to_chars(u.as_str()).as_slice()).len() > 0 => copy_string(u),
        _ => return Err(String::from_str("Unable to read the active page.")),
    };
    let url = strip_tracking_params(raw.as_str());
    let meta = read_metadata(&snapshot, url.as_str(), fallback_title);
    let description = match &snapshot.description {
        Some(d) => copy_string(d),
        None => {
            let from_html = match &snapshot.html {
                Some(h) => select_meta_content(h.as_str(), "description"),
                None => None,
            };
            match from_html {
                Some(d) => d,
                None => String::new(),
            }
        },
    };
    proof {
        reveal_strlit("");
    }
    let ghost rv = readable_view(readable);
    let usable = match &readable {
        Some(c) => snapshot.html.is_some() && c.text.as_str().len() >= CLONE_TEXT_FLOOR,
        None => false,
    };
    let (body_text, content_selector, fallback_reason) = if usable {
        match readable {
            Some(c) => (c.text, c.selector, c.fallback_reason),
            None => (String::new(), String::new(), None),
        }
    } else {
        match &snapshot.body_text {
            Some(t) => (
                copy_string(t),
                String::from_str("body.innerText"),
                Some(
                    String::from_str(
                        "The cleaned DOM was unavailable, so AETHER used visible body text.",
                    ),
                ),
            ),
            None => (
                String::new(),
                String::from_str("none"),
                Some(String::from_str("No readable DOM content was available.")),
            ),
        }
    };
    assert(body_text@ == page_body(snapshot, rv).0);
    let mut joined = to_chars(meta.title.as_str());
    push_str_chars(&mut joined, "\n\n");
    push_str_chars(&mut joined, description.as_str());
    push_str_chars(&mut joined, "\n\n");
    push_str_chars(&mut joined, body_text.as_str());
    let joined_s = from_chars(joined.as_slice());
    let text = normalize_captured_text(joined_s.as_str());
    if text.as_str().len() < MIN_CAPTURE_TEXT_LENGTH {
        return Err(String::from_str("This page does not contain enough readable text to capture."));
    }
    let content_hash = hash_extracted_content(text.as_str());
    let word_count = count_extracted_words(text.as_str());
    Ok(
        CapturedPage {
            title: meta.title,
            url: copy_string(&url),
            text,
            provenance: CaptureProvenance {
                receipt_version: RECEIPT_VERSION,
                extractor_version: String::from_str(EXTRACTOR_VERSION),
                requested_url: Some(url),
                canonical_url: meta.canonical_url,
                author: meta.author,
                published_at: meta.published_at,
                site_name: meta.site_name,
                language: meta.language,
                content_hash,
                extraction_method: ExtractionMethod::LiveDom,
                content_scope: CaptureScope::Page,
                content_selector,
                word_count,
                fallback_reason,
                selection_context_before: None,
                selection_context_after: None,
            },
        },
    )
}

// ---------------------------------------------------------------------------
// Pages fetched over HTTP
// ---------------------------------------------------------------------------

/// Only web pages are fetched: the address must parse and use `http` or
/// `https`.
pub open spec fn fetch_allowed(url: Seq<char>) -> Result<(), Seq<char>> {
    match crate::urls::url_parse(url) {
        None => Err("Unable to read the active page URL."@),
        Some(u) => if u.scheme == "http"@ || u.scheme == "https"@ {
            Ok(())
        } else {
            Err("Only http and https pages can be captured in the Tauri build."@)
        },
    }
}

/// Whether `url` may be fetched for capture (see [`fetch_allowed`]).
pub fn check_fetch_url(url: &str) -> (r: Result<(), String>)
    ensures
        match fetch_allowed(url@) {
            Ok(()) => r is Ok,
            Err(m) => r matches Err(e) && e@ == m,
        },
{
    match crate::urls::parse_url(url) {
        None => Err(String::from_str("Unable to read the active page URL.")),
        Some(u) => {
            if crate::text::str_eq(u.scheme.as_str(), "http") || crate::text::str_eq(u.scheme.as_str(), "https") {
                Ok(())
            } else {
                Err(String::from_str("Only http and https pages can be captured in the Tauri build."))
            }
        },
    }
}

/// The fetched document's `<title>` when it is not empty, else the title
/// made from the address it was fetched from.
pub open spec fn fetched_title(html: Seq<char>, final_url: Seq<char>) -> Seq<char> {
    match first_text(html, "title"@) {
        Some(t) if t.len() > 0 => t,
        _ => crate::urls::url_title(final_url),
    }
}

pub open spec fn fetched_description(html: Seq<char>) -> Seq<char> {
    match meta_content(html, "description"@) {
        Some(d) => d,
        None => Seq::empty(),
    }
}

/// Metadata of a fetched page: each field from the document's own tags
/// first and its JSON-LD second; the canonical address resolved against the
/// address it was fetched from.
pub open spec fn fetched_metadata(
    html: Seq<char>,
    final_url: Seq<char>,
    structured: crate::jsonld::MetadataView,
) -> crate::jsonld::MetadataView {
    (
        match or_else(link_href(html, "canonical"@), or_else(meta_property(html, "og:url"@), structured.0)) {
            Some(v) => provenance_url(v, final_url),
            None => None,
        },
        or_else(meta_content(html, "author"@), or_else(meta_property(html, "article:author"@), structured.1)),
        or_else(
            meta_property(html, "article:published_time"@),
            or_else(meta_itemprop(html, "datePublished"@), structured.2),
        ),
        or_else(meta_property(html, "og:site_name"@), structured.3),
        or_else(document_language(html), structured.4),
    )
}

/// A whole-page capture of a document fetched over HTTP: `requested_url` is
/// the address asked for, `final_url` the one answered after redirects,
/// `readable` the readable content found in `html`, and `structured` what
/// the document's JSON-LD says.
pub fn fetched_page_to_captured_page(
    requested_url: &str,
    final_url: &str,
    html: &str,
    readable: ReadableContent,
    structured: crate::jsonld::StructuredPageMetadata,
) -> (r: Result<CapturedPage, String>)
    ensures
        ({
            let title = fetched_title(html@, final_url@);
            let text = page_text(title, fetched_description(html@), readable.text@);
            let meta = fetched_metadata(html@, final_url@, crate::jsonld::metadata_view(structured));
            &&& (encode_utf8(text).len() as usize) < MIN_CAPTURE_TEXT_LENGTH ==> r is Err && r->Err_0@
                == "This page does not contain enough readable text to capture."@
            &&& (encode_utf8(text).len() as usize) >= MIN_CAPTURE_TEXT_LENGTH ==> (r matches Ok(p) && p.title@
                == title && p.url@ == tracking_stripped(final_url@) && p.text@ == text
                && p.provenance.receipt_version == RECEIPT_VERSION
                && p.provenance.extractor_version@ == EXTRACTOR_VERSION@
                && p.provenance.requested_url.deep_view() == Some(tracking_stripped(requested_url@))
                && p.provenance.canonical_url.deep_view() == meta.0
                && p.provenance.author.deep_view() == meta.1
                && p.provenance.published_at.deep_view() == meta.2
                && p.provenance.site_name.deep_view() == meta.3
                && p.provenance.language.deep_view() == meta.4
                && p.provenance.content_hash@ == content_hash(text)
                && p.provenance.extraction_method == ExtractionMethod::HttpFetch
                && p.provenance.content_scope == CaptureScope::Page
                && p.provenance.content_selector@ == readable.selector@
                && p.provenance.word_count == word_count(text)
                && p.provenance.fallback_reason.deep_view() == readable.fallback_reason.deep_view()
                && p.provenance.selection_context_before is None
                && p.provenance.selection_context_after is None)
        }),
{
    let title = match select_first_text(html, "title") {
        Some(t) if to_chars(t.as_str()).len() > 0 => t,
        _ => crate::urls::title_from_url(final_url),
    };
    let description = match select_meta_content(html, "description") {
        Some(d) => d,
        None => String::new(),
    };
    proof {
        reveal_strlit("");
    }
    let mut joined = to_chars(title.as_str());
    push_str_chars(&mut joined, "\n\n");
    push_str_chars(&mut joined, description.as_str());
    push_str_chars(&mut joined, "\n\n");
    push_str_chars(&mut joined, readable.text.as_str());
    let joined_s = from_chars(joined.as_slice());
    let text = normalize_captured_text(joined_s.as_str());
    if text.as_str().len() < MIN_CAPTURE_TEXT_LENGTH {
        return Err(String::from_str("This page does not contain enough readable text to capture."));
    }
    let canonical_candidate = or_else_doc(
        select_link_href(html, "canonical"),
        or_else_doc(select_meta_property(html, "og:url"), structured.canonical_url),
    );
    let canonical_url = match canonical_candidate {
        Some(v) => normalize_provenance_url(v.as_str(), final_url),
        None => None,
    };
    let author = or_else_doc(
        select_meta_content(html, "author"),
        or_else_doc(select_meta_property(html, "article:author"), structured.author),
    );
    let published_at = or_else_doc(
        select_meta_property(html, "article:published_time"),
        or_else_doc(select_meta_itemprop(html, "datePublished"), structured.published_at),
    );
    let site_name = or_else_doc(select_meta_property(html, "og:site_name"), structured.site_name);
    let language = or_else_doc(select_document_language(html), structured.language);
    let content_hash = hash_extracted_content(text.as_str());
    let word_count = count_extracted_words(text.as_str());
    Ok(
        CapturedPage {
            title,
            url: strip_tracking_params(final_url),
            text,
            provenance: CaptureProvenance {
                receipt_version: RECEIPT_VERSION,
                extractor_version: String::from_str(EXTRACTOR_VERSION),
                requested_url: Some(strip_tracking_params(requested_url)),
                canonical_url,
                author,
                published_at,
                site_name,
                language,
                content_hash,
                extraction_method: ExtractionMethod::HttpFetch,
                content_scope: CaptureScope::Page,
                content_selector: readable.selector,
                word_count,
                fallback_reason: readable.fallback_reason,
                selection_context_before: None,
                selection_context_after: None,
            },
        },
    )
}

/// The selected passage, trimmed, when there is one.
pub open spec fn selected_passage(s: BrowserPageSnapshot) -> Option<Seq<char>> {
    match s.selected_text {
        Some(t) => if trim_ws(t@).len() > 0 {
            Some(trim_ws(t@))
        } else {
            None
        },
        None => None,
    }
}

pub const MIN_SELECTED_TEXT_LENGTH: usize = 20;

/// The indexed text of a selection capture.
pub open spec fn selection_text(title: Seq<char>, passage: Seq<char>) -> Seq<char> {
    normalized_text(title + "\n\nSelected passage\n\n"@ + passage)
}

/// A capture of the passage the user selected. Refused when nothing (or
/// fewer than 20 characters) is selected, or the page has no address.
pub fn snapshot_to_selected_page(snapshot: BrowserPageSnapshot, fallback_title: &str) -> (r: Result<
    CapturedPage,
    String,
>)
    ensures
        selected_passage(snapshot) is None ==> r is Err && r->Err_0@
            == "Select a passage on the page before capturing the selection."@,
        selected_passage(snapshot) matches Some(p) ==> {
            &&& p.len() < MIN_SELECTED_TEXT_LENGTH ==> r is Err && r->Err_0@
                == "Select a passage of at least 20 characters."@
            &&& (p.len() >= MIN_SELECTED_TEXT_LENGTH && snapshot_url(snapshot) is None) ==> r is Err
                && r->Err_0@ == "Unable to read the active page."@
            &&& p.len() >= MIN_SELECTED_TEXT_LENGTH ==> (snapshot_url(snapshot) matches Some(raw)
                ==> {
                let url = tracking_stripped(raw);
                let title = page_title(snapshot, fallback_title@);
                let text = selection_text(title, p);
                r matches Ok(c) && c.title@ == title && c.url@ == url && c.text@ == text
                    && c.provenance.receipt_version == RECEIPT_VERSION
                    && c.provenance.extractor_version@ == EXTRACTOR_VERSION@
                    && c.provenance.requested_url.deep_view() == Some(url)
                    && c.provenance.canonical_url.deep_view() == page_canonical(snapshot, url)
                    && c.provenance.author.deep_view() == page_author(snapshot)
                    && c.provenance.published_at.deep_view() == page_published(snapshot)
                    && c.provenance.site_name.deep_view() == page_site_name(snapshot)
                    && c.provenance.language.deep_view() == page_language(snapshot)
                    && c.provenance.content_hash@ == content_hash(text)
                    && c.provenance.extraction_method == ExtractionMethod::LiveDom
                    && c.provenance.content_scope == CaptureScope::Selection
                    && c.provenance.content_selector@ == match clean_meta(
                        snapshot.selection_selector.deep_view(),
                    ) {
                        Some(v) => v,
                        None => "user-selection"@,
                    }
                    && c.provenance.word_count == word_count(p)
                    && c.provenance.fallback_reason is None
                    && c.provenance.selection_context_before.deep_view() == clean_meta(
                        snapshot.selection_context_before.deep_view(),
                    )
                    && c.provenance.selection_context_after.deep_view() == clean_meta(
                        snapshot.selection_context_after.deep_view(),
                    )
            })
        },
{
    let selected = match &snapshot.selected_text {
        Some(t) => {
            let v = to_chars(t.as_str());
            let trimmed = trim_chars(v.as_slice());
            if trimmed.len() == 0 {
                return Err(
                    String::from_str("Select a passage on the page before capturing the selection."),
                );
            }
            trimmed
        },
        None => {
            return Err(
                String::from_str("Select a passage on the page before capturing the selection."),
            )
        },
    };
    if selected.len() < MIN_SELECTED_TEXT_LENGTH {
        return Err(String::from_str("Select a passage of at least 20 characters."));
    }
    let raw = match &snapshot.url {
        Some(u) if trim_chars(to_chars(u.as_str()).as_slice()).len() > 0 => copy_string(u),
        _ => return Err(String::from_str("Unable to read the active page.")),
    };
    let url = strip_tracking_params(raw.as_str());
    let meta = read_metadata(&snapshot, url.as_str(), fallback_title);
    let content_selector = match clean_metadata_value(clone_opt_string(&snapshot.selection_selector)) {
        Some(v) => v,
        None => String::from_str("user-selection"),
    };
    let selected_s = from_chars(selected.as_slice());
    let mut joined = to_chars(meta.title.as_str());
    push_str_chars(&mut joined, "\n\nSelected passage\n\n");
    push_str_chars(&mut joined, selected_s.as_str());
    let joined_s = from_chars(joined.as_slice());
    let text = normalize_captured_text(joined_s.as_str());
    let word_count = count_extracted_words(selected_s.as_str());
    let content_hash = hash_extracted_content(text.as_str());
    Ok(
        CapturedPage {
            title: meta.title,
            url: copy_string(&url),
            provenance: CaptureProvenance {
                receipt_version: RECEIPT_VERSION,
                extractor_version: String::from_str(EXTRACTOR_VERSION),
                requested_url: Some(url),
                canonical_url: meta.canonical_url,
                author: meta.author,
                published_at: meta.published_at,
                site_name: meta.site_name,
                language: meta.language,
                content_hash,
                extraction_method: ExtractionMethod::LiveDom,
                content_scope: CaptureScope::Selection,
                content_selector,
                word_count,
                fallback_reason: None,
                selection_context_before: clean_metadata_value(
                    clone_opt_string(&snapshot.selection_context_before),
                ),
                selection_context_after: clean_metadata_value(
                    clone_opt_string(&snapshot.selection_context_after),
                ),
            },
            text,
        },
    )
}

} // verus!
