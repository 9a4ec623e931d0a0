//! Browser tabs: each tab's own back/forward history, the set of open tabs and
//! which one is active, and the summaries the interface is drawn from.

use vstd::prelude::*;
use crate::text::{
    trim_ws, lower_ascii, starts_with, string_views, to_chars, from_chars, push_str_chars,
    trim_chars, lower_ascii_chars, chars_eq, str_eq, starts_with_chars,
};
use crate::urls::{url_title, favicon_url, tab_host, title_from_url, favicon_for_url, get_tab_host};
use crate::search::{SearchPrefs, navigation_url, normalize_url, DEFAULT_SEARCH_ENGINE};

verus! {

/// The renderer's own start page (portals and search), not a web page.
pub const START_PAGE_URL: &'static str = "aether://start";

/// A lower-case hexadecimal digit.
pub open spec fn is_lower_hex(c: char) -> bool {
    ('0' <= c && c <= '9') || ('a' <= c && c <= 'f')
}

/// A random (version 4, RFC 4122 variant) UUID as text: 36 characters,
/// lower-case hex digits in groups of 8, 4, 4, 4 and 12 joined by `-`, the
/// version digit `4` and a variant digit of `8`, `9`, `a` or `b`.
pub open spec fn is_v4_uuid_text(s: Seq<char>) -> bool {
    &&& s.len() == 36
    &&& forall|i: int| 0 <= i < 36 ==> if i == 8 || i == 13 || i == 18 || i == 23 {
        #[trigger] s[i] == '-'
    } else {
        is_lower_hex(s[i])
    }
    &&& s[14] == '4'
    &&& (s[19] == '8' || s[19] == '9' || s[19] == 'a' || s[19] == 'b')
}

/// A fresh random tab id: calls `uuid::Uuid::new_v4` and writes it in the
/// crate's hyphenated lower-case form.
#[verifier::external_body]
pub(crate) fn uuid() -> (r: String)
    ensures
        is_v4_uuid_text(r@),
{
    uuid::Uuid::new_v4().to_string()
}

/// `Option<String>` copied.
pub fn clone_opt_string(o: &Option<String>) -> (r: Option<String>)
    ensures
        r.deep_view() == o.deep_view(),
{
    match o {
        Some(s) => Some(from_chars(to_chars(s.as_str()).as_slice())),
        None => None,
    }
}

/// A copy of a string.
pub fn copy_string(s: &String) -> (r: String)
    ensures
        r@ == s@,
{
    from_chars(to_chars(s.as_str()).as_slice())
}

// ---------------------------------------------------------------------------
// Which URLs a webview may report
// ---------------------------------------------------------------------------

/// Blank and `srcdoc` documents a webview passes through while loading.
pub open spec fn is_transient(url: Seq<char>) -> bool {
    let n = lower_ascii(trim_ws(url));
    n == "about:blank"@ || starts_with(n, "about:blank#"@) || n == "about:srcdoc"@
}

pub fn is_transient_webview_url(url: &str) -> (r: bool)
    ensures
        r == is_transient(url@),
{
    let v = to_chars(url);
    let t = trim_chars(v.as_slice());
    let n = lower_ascii_chars(t.as_slice());
    chars_eq(n.as_slice(), to_chars("about:blank").as_slice()) || starts_with_chars(
        n.as_slice(),
        to_chars("about:blank#").as_slice(),
    ) || chars_eq(n.as_slice(), to_chars("about:srcdoc").as_slice())
}

/// A reported URL replaces the tab's unless it is empty, the tab is parked
/// on the start page, or it is a transient document replacing a real page.
pub open spec fn accepts_webview_url(current: Seq<char>, next: Seq<char>) -> bool {
    next.len() > 0 && current != START_PAGE_URL@ && !(is_transient(next) && !is_transient(
        current,
    ))
}

pub fn should_accept_webview_url(current_url: &str, next_url: &str) -> (r: bool)
    ensures
        r == accepts_webview_url(current_url@, next_url@),
{
    if next_url.is_empty() {
        return false;
    }
    if str_eq(current_url, START_PAGE_URL) {
        return false;
    }
    if is_transient_webview_url(next_url) && !is_transient_webview_url(current_url) {
        return false;
    }
    true
}

/// The label of a tab's native webview.
pub fn native_webview_label(tab_id: &str) -> (r: String)
    ensures
        r@ == "aether-browser-tab-"@ + tab_id@,
{
    let mut v = to_chars("aether-browser-tab-");
    push_str_chars(&mut v, tab_id);
    from_chars(v.as_slice())
}

// ---------------------------------------------------------------------------
// History
// ---------------------------------------------------------------------------

/// The last position of `u` in `h`.
pub open spec fn last_index_of(h: Seq<Seq<char>>, u: Seq<char>) -> Option<int>
    decreases h.len(),
{
    if h.len() == 0 {
        None
    } else if h.last() == u {
        Some(h.len() - 1)
    } else {
        last_index_of(h.drop_last(), u)
    }
}

pub proof fn lemma_last_index_of(h: Seq<Seq<char>>, u: Seq<char>)
    ensures
        match last_index_of(h, u) {
            Some(k) => 0 <= k < h.len() && h[k] == u && forall|j: int|
                k < j < h.len() ==> h[j] != u,
            None => forall|j: int| 0 <= j < h.len() ==> h[j] != u,
        },
    decreases h.len(),
{
    if h.len() > 0 && h.last() != u {
        lemma_last_index_of(h.drop_last(), u);
        assert forall|j: int| 0 <= j < h.len() - 1 implies h[j] == h.drop_last()[j] by {}
    }
}

/// History and position after the webview settles on `u`: nothing changes if
/// `u` is the current entry; an entry already in the history (its last
/// occurrence) becomes current, as after back or forward; otherwise the
/// forward entries are dropped and `u` is appended.
pub open spec fn committed(h: Seq<Seq<char>>, i: int, u: Seq<char>) -> (Seq<Seq<char>>, int) {
    if h[i] == u {
        (h, i)
    } else {
        match last_index_of(h, u) {
            Some(k) => (h, k),
            None => (h.take(i + 1).push(u), i + 1),
        }
    }
}

/// Settling on a URL makes it the current entry, within the history.
pub proof fn lemma_commit_lands_on_url(h: Seq<Seq<char>>, i: int, u: Seq<char>)
    requires
        0 <= i < h.len(),
    ensures
        0 <= committed(h, i, u).1 < committed(h, i, u).0.len(),
        committed(h, i, u).0[committed(h, i, u).1] == u,
{
    lemma_last_index_of(h, u);
}

/// Settling again on the URL just settled on changes nothing.
pub proof fn lemma_commit_idempotent(h: Seq<Seq<char>>, i: int, u: Seq<char>)
    requires
        0 <= i < h.len(),
    ensures
        committed(committed(h, i, u).0, committed(h, i, u).1, u) == committed(h, i, u),
{
    lemma_commit_lands_on_url(h, i, u);
}

/// Navigating drops the forward entries and appends the new URL.
pub open spec fn navigated(h: Seq<Seq<char>>, i: int, u: Seq<char>) -> Seq<Seq<char>> {
    h.take(i + 1).push(u)
}

/// After navigating, back leads to the page that was current and forward is gone.
pub proof fn lemma_navigate_then_back(h: Seq<Seq<char>>, i: int, u: Seq<char>)
    requires
        0 <= i < h.len(),
    ensures
        navigated(h, i, u).len() == i + 2,
        navigated(h, i, u)[i + 1] == u,
        navigated(h, i, u)[i] == h[i],
        forall|j: int| 0 <= j <= i ==> navigated(h, i, u)[j] == h[j],
{
}

// ---------------------------------------------------------------------------
// A tab
// ---------------------------------------------------------------------------

pub struct ManagedTab {
    pub id: String,
    pub app_id: String,
    pub title: String,
    pub url: String,
    pub is_loading: bool,
    pub favicon: Option<String>,
    pub theme_color: Option<String>,
    pub history: Vec<String>,
    pub history_index: usize,
    /// What the platform webview itself reports; it extends (ORs with) the
    /// history kept here, which also holds entries the webview never saw,
    /// such as the start page.
    pub native_can_go_back: Option<bool>,
    pub native_can_go_forward: Option<bool>,
}

/// What the interface shows of a tab.
pub struct BrowserTabSummary {
    pub id: String,
    pub app_id: String,
    pub title: String,
    pub url: String,
    pub host: String,
    pub is_active: bool,
    pub is_loading: bool,
    pub can_go_back: bool,
    pub can_go_forward: bool,
    pub favicon: Option<String>,
    pub theme_color: Option<String>,
}

/// The title a freshly opened tab shows for its URL.
pub open spec fn initial_title(url: Seq<char>) -> Seq<char> {
    if url == START_PAGE_URL@ {
        "New tab"@
    } else {
        url_title(url)
    }
}

/// The search preferences a tab opened without settings uses.
pub open spec fn fallback_engine() -> Seq<char> {
    DEFAULT_SEARCH_ENGINE@
}

impl ManagedTab {
    /// The current position lies within the history.
    pub open spec fn wf(&self) -> bool {
        self.history_index < self.history@.len()
    }

    pub open spec fn history_view(&self) -> Seq<Seq<char>> {
        string_views(self.history@)
    }

    pub open spec fn back_possible(&self) -> bool {
        self.history_index > 0
    }

    pub open spec fn forward_possible(&self) -> bool {
        self.history_index + 1 < self.history@.len()
    }

    /// A tab for `raw_url`, interpreted as the address bar does with the
    /// fallback search preferences; its history holds that one URL.
    pub fn new(app_id: &str, raw_url: &str) -> (r: ManagedTab)
        ensures
            r.wf(),
            r.url@ == navigation_url(raw_url@, fallback_engine(), true),
            r.app_id@ == app_id@,
            r.title@ == initial_title(r.url@),
            r.history_view() == seq![r.url@],
            r.history_index == 0,
            !r.is_loading,
            r.favicon is None,
            r.theme_color is None,
            r.native_can_go_back is None,
            r.native_can_go_forward is None,
            is_v4_uuid_text(r.id@),
    {
        let prefs = SearchPrefs::fallback();
        let url = normalize_url(raw_url, prefs);
        let title = if str_eq(url.as_str(), START_PAGE_URL) {
            String::from_str("New tab")
        } else {
            title_from_url(url.as_str())
        };
        let mut history: Vec<String> = Vec::new();
        history.push(copy_string(&url));
        assert(string_views(history@) =~= seq![url@]);
        ManagedTab {
            id: uuid(),
            app_id: String::from_str(app_id),
            title,
            url,
            is_loading: false,
            favicon: None,
            theme_color: None,
            history,
            history_index: 0,
            native_can_go_back: None,
            native_can_go_forward: None,
        }
    }

    /// Goes to what the user typed: the URL, title and icon follow it, the
    /// forward history is dropped, and the new URL becomes the current entry.
    pub fn navigate(&mut self, raw_url: &str, search: SearchPrefs<'_>)
        requires
            old(self).wf(),
        ensures
            final(self).wf(),
            final(self).url@ == navigation_url(raw_url@, search.engine@, search.ai_free),
            final(self).title@ == url_title(final(self).url@),
            final(self).favicon.deep_view() == favicon_url(final(self).url@),
            final(self).theme_color is None,
            !final(self).is_loading,
            final(self).history_view() == navigated(
                old(self).history_view(),
                old(self).history_index as int,
                final(self).url@,
            ),
            final(self).history_index == old(self).history_index + 1,
            final(self).back_possible(),
            !final(self).forward_possible(),
            final(self).native_can_go_back is None,
            final(self).native_can_go_forward is None,
            final(self).id == old(self).id,
            final(self).app_id == old(self).app_id,
    {
        let url = normalize_url(raw_url, search);
        self.title = title_from_url(url.as_str());
        self.favicon = favicon_for_url(url.as_str());
        self.theme_color = None;
        self.is_loading = false;
        let ghost h = self.history_view();
        let ghost i = self.history_index as int;
        let len = self.history.len();
        assert(self.history_index < len);
        self.history.truncate(self.history_index + 1);
        assert(string_views(self.history@) =~= h.take(i + 1));
        self.history.push(copy_string(&url));
        assert(string_views(self.history@) =~= h.take(i + 1).push(url@));
        self.history_index = self.history.len() - 1;
        self.url = url;
        self.native_can_go_back = None;
        self.native_can_go_forward = None;
    }

    /// Records that the webview settled on `url` (see [`committed`]).
    pub fn commit_history_url(&mut self, url: String)
        requires
            old(self).wf(),
        ensures
            final(self).wf(),
            (final(self).history_view(), final(self).history_index as int) == committed(
                old(self).history_view(),
                old(self).history_index as int,
                url@,
            ),
            final(self).history_view()[final(self).history_index as int] == url@,
            final(self).id == old(self).id,
            final(self).app_id == old(self).app_id,
            final(self).url == old(self).url,
            final(self).title == old(self).title,
            final(self).is_loading == old(self).is_loading,
            final(self).favicon == old(self).favicon,
            final(self).theme_color == old(self).theme_color,
            final(self).native_can_go_back == old(self).native_can_go_back,
            final(self).native_can_go_forward == old(self).native_can_go_forward,
    {
        let ghost h = self.history_view();
        let ghost i = self.history_index as int;
        proof {
            lemma_commit_lands_on_url(h, i, url@);
            lemma_last_index_of(h, url@);
        }
        assert(h[i] == self.history@[i]@);
        if str_eq(self.history[self.history_index].as_str(), url.as_str()) {
            return;
        }
        let n = self.history.len();
        let mut k: usize = n;
        while k > 0
            invariant
                k <= n,
                n == self.history@.len(),
                h == string_views(self.history@),
                h == old(self).history_view(),
                i == self.history_index,
                *self == *old(self),
                i < n,
                h[i] != url@,
                forall|j: int| k <= j < n ==> h[j] != url@,
            decreases k,
        {
            assert(h[k - 1] == self.history@[k - 1]@);
            if str_eq(self.history[k - 1].as_str(), url.as_str()) {
                proof {
                    lemma_last_index_of(h, url@);
                }
                self.history_index = k - 1;
                return;
            }
            k -= 1;
        }
        self.history.truncate(self.history_index + 1);
        assert(string_views(self.history@) =~= h.take(i + 1));
        self.history.push(url);
        assert(string_views(self.history@) =~= h.take(i + 1).push(url@));
        self.history_index = self.history.len() - 1;
    }

    pub fn can_go_back(&self) -> (r: bool)
        ensures
            r == self.back_possible(),
    {
        self.history_index > 0
    }

    pub fn can_go_forward(&self) -> (r: bool)
        ensures
            r == self.forward_possible(),
    {
        self.history.len() > 0 && self.history_index < self.history.len() - 1
    }

    /// The summary the interface draws; back and forward are offered when
    /// either this history or the native webview allows them.
    pub fn summary(&self, is_active: bool) -> (r: BrowserTabSummary)
        ensures
            r.id@ == self.id@,
            r.app_id@ == self.app_id@,
            r.title@ == self.title@,
            r.url@ == self.url@,
            r.host@ == tab_host(self.url@),
            r.is_active == is_active,
            r.is_loading == self.is_loading,
            r.can_go_back == (self.back_possible() || self.native_can_go_back == Some(true)),
            r.can_go_forward == (self.forward_possible() || self.native_can_go_forward == Some(
                true,
            )),
            r.favicon.deep_view() == self.favicon.deep_view(),
            r.theme_color.deep_view() == self.theme_color.deep_view(),
    {
        let native_back = match self.native_can_go_back {
            Some(b) => b,
            None => false,
        };
        let native_forward = match self.native_can_go_forward {
            Some(b) => b,
            None => false,
        };
        BrowserTabSummary {
            id: copy_string(&self.id),
            app_id: copy_string(&self.app_id),
            title: copy_string(&self.title),
            url: copy_string(&self.url),
            host: get_tab_host(self.url.as_str()),
            is_active,
            is_loading: self.is_loading,
            can_go_back: self.can_go_back() || native_back,
            can_go_forward: self.can_go_forward() || native_forward,
            favicon: clone_opt_string(&self.favicon),
            theme_color: clone_opt_string(&self.theme_color),
        }
    }

    /// Back from the entry after the start page: the start page is drawn by
    /// the renderer, so the tab parks on it instead of asking the webview.
    /// Says whether it did.
    pub fn park_on_start_page(&mut self) -> (parked: bool)
        requires
            old(self).wf(),
        ensures
            final(self).wf(),
            parked == (old(self).back_possible() && old(self).history_view()[old(
                self,
            ).history_index - 1] == START_PAGE_URL@),
            parked ==> final(self).history_index == old(self).history_index - 1
                && final(self).url@ == START_PAGE_URL@ && final(self).title@ == "New tab"@
                && !final(self).is_loading,
            !parked ==> *final(self) == *old(self),
            final(self).history == old(self).history,
            final(self).id == old(self).id,
    {
        if self.history_index > 0 {
            assert(self.history_view()[self.history_index - 1] == self.history@[self.history_index
                - 1]@);
            if str_eq(self.history[self.history_index - 1].as_str(), START_PAGE_URL) {
                self.history_index = self.history_index - 1;
                self.url = String::from_str(START_PAGE_URL);
                self.title = String::from_str("New tab");
                self.is_loading = false;
                return true;
            }
        }
        false
    }

    /// Forward off the start page: the tab moves to the next entry, whose
    /// webview was kept, and shows it again. Says whether it did.
    pub fn leave_start_page(&mut self) -> (left: bool)
        requires
            old(self).wf(),
        ensures
            final(self).wf(),
            left == (old(self).url@ == START_PAGE_URL@ && old(self).forward_possible()),
            left ==> final(self).history_index == old(self).history_index + 1
                && final(self).url@ == old(self).history_view()[old(self).history_index + 1]
                && final(self).title@ == url_title(final(self).url@) && !final(self).is_loading,
            !left ==> *final(self) == *old(self),
            final(self).history == old(self).history,
            final(self).id == old(self).id,
    {
        if str_eq(self.url.as_str(), START_PAGE_URL) && self.can_go_forward() {
            let len = self.history.len();
            assert(self.history_index + 1 < len);
            self.history_index = self.history_index + 1;
            assert(self.history_view()[self.history_index as int] == self.history@[self.history_index as int]@);
            self.url = copy_string(&self.history[self.history_index]);
            self.title = title_from_url(self.url.as_str());
            self.is_loading = false;
            return true;
        }
        false
    }

    /// A navigation the webview reported: ignored (but for the loading flag)
    /// unless [`accepts_webview_url`]; otherwise the URL and icon follow it, a
    /// title that was only a placeholder follows too, and once loading is done
    /// the URL is committed to the history.
    pub fn apply_navigation_event(&mut self, reported_url: &str, is_loading: bool)
        requires
            old(self).wf(),
        ensures
            final(self).wf(),
            final(self).is_loading == is_loading,
            final(self).id == old(self).id,
            !accepts_webview_url(old(self).url@, trim_ws(reported_url@)) ==> final(self).url
                == old(self).url && final(self).history == old(self).history
                && final(self).history_index == old(self).history_index,
            accepts_webview_url(old(self).url@, trim_ws(reported_url@)) ==> {
                let u = trim_ws(reported_url@);
                &&& final(self).url@ == u
                &&& final(self).favicon.deep_view() == favicon_url(u)
                &&& (u != old(self).url@ ==> final(self).theme_color is None)
                &&& (u == old(self).url@ ==> final(self).theme_color == old(self).theme_color)
                &&& final(self).title@ == if old(self).title@ == "New tab"@ || old(
                    self,
                ).title@.len() == 0 || old(self).title@ == tab_host(u) {
                    url_title(u)
                } else {
                    old(self).title@
                }
                &&& !is_loading ==> (final(self).history_view(), final(self).history_index as int)
                    == committed(old(self).history_view(), old(self).history_index as int, u)
                &&& is_loading ==> final(self).history == old(self).history
                    && final(self).history_index == old(self).history_index
            },
    {
        self.is_loading = is_loading;
        let v = to_chars(reported_url);
        let t = trim_chars(v.as_slice());
        let url = from_chars(t.as_slice());
        if !should_accept_webview_url(self.url.as_str(), url.as_str()) {
            return;
        }
        let url_changed = !str_eq(self.url.as_str(), url.as_str());
        self.url = copy_string(&url);
        self.favicon = favicon_for_url(url.as_str());
        if url_changed {
            self.theme_color = None;
        }
        let host = get_tab_host(self.url.as_str());
        if str_eq(self.title.as_str(), "New tab") || self.title.as_str().is_empty() || str_eq(
            self.title.as_str(),
            host.as_str(),
        ) {
            self.title = title_from_url(url.as_str());
        }
        if !is_loading {
            self.commit_history_url(url);
        }
    }
}

// ---------------------------------------------------------------------------
// The set of tabs
// ---------------------------------------------------------------------------

/// The one app the shell hosts, as the dashboard lists it.
pub struct AppSummary {
    pub id: String,
    pub name: String,
    pub category: String,
    pub home_url: String,
    pub current_url: String,
    pub title: String,
    pub is_active: bool,
    pub is_loading: bool,
    pub can_go_back: bool,
    pub can_go_forward: bool,
}

/// Everything the renderer is told about tabs in one update.
pub struct AetherState {
    pub apps: Vec<AppSummary>,
    pub tabs: Vec<BrowserTabSummary>,
    pub active_app_id: String,
    pub active_tab_id: String,
    pub dashboard_open: bool,
    pub panel_collapsed: bool,
}

pub struct TabState {
    pub tabs: Vec<ManagedTab>,
    pub active_app_id: String,
    pub active_tab_id: String,
    pub dashboard_open: bool,
    pub modal_overlay_open: bool,
    pub panel_collapsed: bool,
}

/// The first tab whose id is `id`.
pub open spec fn first_with_id(tabs: Seq<ManagedTab>, id: Seq<char>) -> Option<int>
    decreases tabs.len(),
{
    if tabs.len() == 0 {
        None
    } else {
        match first_with_id(tabs.drop_last(), id) {
            Some(k) => Some(k),
            None => if tabs.last().id@ == id {
                Some(tabs.len() - 1)
            } else {
                None
            },
        }
    }
}

pub proof fn lemma_first_with_id(tabs: Seq<ManagedTab>, id: Seq<char>)
    ensures
        match first_with_id(tabs, id) {
            Some(k) => 0 <= k < tabs.len() && tabs[k].id@ == id && forall|j: int|
                0 <= j < k ==> tabs[j].id@ != id,
            None => forall|j: int| 0 <= j < tabs.len() ==> tabs[j].id@ != id,
        },
    decreases tabs.len(),
{
    if tabs.len() > 0 {
        lemma_first_with_id(tabs.drop_last(), id);
        assert forall|j: int| 0 <= j < tabs.len() - 1 implies tabs[j] == tabs.drop_last()[j] by {}
    }
}

/// Whether the summary shows the tab as given.
pub open spec fn summarizes(s: BrowserTabSummary, t: ManagedTab, is_active: bool) -> bool {
    &&& s.id@ == t.id@
    &&& s.app_id@ == t.app_id@
    &&& s.title@ == t.title@
    &&& s.url@ == t.url@
    &&& s.host@ == tab_host(t.url@)
    &&& s.is_active == is_active
    &&& s.is_loading == t.is_loading
    &&& s.can_go_back == (t.back_possible() || t.native_can_go_back == Some(true))
    &&& s.can_go_forward == (t.forward_possible() || t.native_can_go_forward == Some(true))
    &&& s.favicon.deep_view() == t.favicon.deep_view()
    &&& s.theme_color.deep_view() == t.theme_color.deep_view()
}

impl TabState {
    /// Every tab's position lies within its history.
    pub open spec fn wf(&self) -> bool {
        forall|k: int| 0 <= k < self.tabs@.len() ==> (#[trigger] self.tabs@[k]).wf()
    }

    pub open spec fn active_index(&self) -> Option<int> {
        first_with_id(self.tabs@, self.active_tab_id@)
    }

    /// One browser tab on the start page, active, with the dashboard open.
    pub fn new() -> (r: TabState)
        ensures
            r.wf(),
            r.tabs@.len() == 1,
            r.tabs@[0].url@ == navigation_url(START_PAGE_URL@, fallback_engine(), true),
            r.active_tab_id@ == r.tabs@[0].id@,
            r.active_app_id@ == "browser"@,
            r.dashboard_open,
            !r.modal_overlay_open,
            r.panel_collapsed,
    {
        let initial = ManagedTab::new("browser", START_PAGE_URL);
        let active_tab_id = copy_string(&initial.id);
        let mut tabs: Vec<ManagedTab> = Vec::new();
        tabs.push(initial);
        TabState {
            tabs,
            active_app_id: String::from_str("browser"),
            active_tab_id,
            dashboard_open: true,
            modal_overlay_open: false,
            panel_collapsed: true,
        }
    }

    /// Position of the active tab.
    pub fn active_tab_index(&self) -> (r: Option<usize>)
        ensures
            match r {
                Some(k) => self.active_index() == Some(k as int) && k < self.tabs@.len(),
                None => self.active_index() is None,
            },
    {
        proof {
            lemma_first_with_id(self.tabs@, self.active_tab_id@);
        }
        let n = self.tabs.len();
        let mut k: usize = 0;
        while k < n
            invariant
                n == self.tabs@.len(),
                k <= n,
                forall|j: int| 0 <= j < k ==> self.tabs@[j].id@ != self.active_tab_id@,
                match first_with_id(self.tabs@, self.active_tab_id@) {
                    Some(f) => 0 <= f < self.tabs@.len() && self.tabs@[f].id@ == self.active_tab_id@
                        && forall|j: int| 0 <= j < f ==> self.tabs@[j].id@ != self.active_tab_id@,
                    None => forall|j: int|
                        0 <= j < self.tabs@.len() ==> self.tabs@[j].id@ != self.active_tab_id@,
                },
            decreases n - k,
        {
            if str_eq(self.tabs[k].id.as_str(), self.active_tab_id.as_str()) {
                return Some(k);
            }
            k += 1;
        }
        None
    }

    /// The active tab, if one matches the active id.
    pub fn active_tab(&self) -> (r: Option<&ManagedTab>)
        ensures
            match r {
                Some(t) => self.active_index() is Some && *t == self.tabs@[self.active_index()->0],
                None => self.active_index() is None,
            },
    {
        match self.active_tab_index() {
            Some(k) => Some(&self.tabs[k]),
            None => None,
        }
    }

    /// The summaries of all tabs; the active one is shown active unless the
    /// dashboard covers it.
    pub fn tabs(&self) -> (r: Vec<BrowserTabSummary>)
        ensures
            r@.len() == self.tabs@.len(),
            forall|k: int|
                0 <= k < r@.len() ==> summarizes(
                    #[trigger] r@[k],
                    self.tabs@[k],
                    self.tabs@[k].id@ == self.active_tab_id@ && !self.dashboard_open,
                ),
    {
        let n = self.tabs.len();
        let mut out: Vec<BrowserTabSummary> = Vec::new();
        let mut k: usize = 0;
        while k < n
            invariant
                n == self.tabs@.len(),
                k <= n,
                out@.len() == k,
                forall|j: int|
                    0 <= j < k ==> summarizes(
                        #[trigger] out@[j],
                        self.tabs@[j],
                        self.tabs@[j].id@ == self.active_tab_id@ && !self.dashboard_open,
                    ),
            decreases n - k,
        {
            let tab = &self.tabs[k];
            let is_active = str_eq(tab.id.as_str(), self.active_tab_id.as_str())
                && !self.dashboard_open;
            out.push(tab.summary(is_active));
            k += 1;
        }
        out
    }

    /// The browser app as the dashboard lists it, reflecting the active tab.
    pub fn apps(&self) -> (r: Vec<AppSummary>)
        ensures
            r@.len() == 1,
            r@[0].id@ == "browser"@,
            r@[0].name@ == "Browser"@,
            r@[0].category@ == "Web"@,
            r@[0].home_url@ == "https://www.google.com"@,
            r@[0].is_active == !self.dashboard_open,
            match self.active_index() {
                Some(k) => {
                    let t = self.tabs@[k];
                    &&& r@[0].current_url@ == t.url@
                    &&& r@[0].title@ == t.title@
                    &&& r@[0].is_loading == t.is_loading
                    &&& r@[0].can_go_back == t.back_possible()
                    &&& r@[0].can_go_forward == t.forward_possible()
                },
                None => {
                    &&& r@[0].current_url@ == "https://www.google.com"@
                    &&& r@[0].title@ == "Browser"@
                    &&& !r@[0].is_loading
                    &&& !r@[0].can_go_back
                    &&& !r@[0].can_go_forward
                },
            },
    {
        let active = self.active_tab();
        let (current_url, title, is_loading, can_go_back, can_go_forward) = match active {
            Some(tab) => (
                copy_string(&tab.url),
                copy_string(&tab.title),
                tab.is_loading,
                tab.can_go_back(),
                tab.can_go_forward(),
            ),
            None => (
                String::from_str("https://www.google.com"),
                String::from_str("Browser"),
                false,
                false,
                false,
            ),
        };
        let mut out: Vec<AppSummary> = Vec::new();
        out.push(
            AppSummary {
                id: String::from_str("browser"),
                name: String::from_str("Browser"),
                category: String::from_str("Web"),
                home_url: String::from_str("https://www.google.com"),
                current_url,
                title,
                is_active: !self.dashboard_open,
                is_loading,
                can_go_back,
                can_go_forward,
            },
        );
        out
    }

    /// Everything the renderer needs after a change.
    pub fn state(&self) -> (r: AetherState)
        ensures
            r.tabs@.len() == self.tabs@.len(),
            forall|k: int|
                0 <= k < r.tabs@.len() ==> summarizes(
                    #[trigger] r.tabs@[k],
                    self.tabs@[k],
                    self.tabs@[k].id@ == self.active_tab_id@ && !self.dashboard_open,
                ),
            r.apps@.len() == 1,
            r.apps@[0].is_active == !self.dashboard_open,
            r.active_app_id@ == self.active_app_id@,
            r.active_tab_id@ == self.active_tab_id@,
            r.dashboard_open == self.dashboard_open,
            r.panel_collapsed == self.panel_collapsed,
    {
        AetherState {
            apps: self.apps(),
            tabs: self.tabs(),
            active_app_id: copy_string(&self.active_app_id),
            active_tab_id: copy_string(&self.active_tab_id),
            dashboard_open: self.dashboard_open,
            panel_collapsed: self.panel_collapsed,
        }
    }

    /// Makes a tab active and hides the dashboard; an unknown id is refused.
    pub fn activate(&mut self, tab_id: &str) -> (r: Result<(), String>)
        ensures
            r is Err <==> (forall|j: int|
                0 <= j < old(self).tabs@.len() ==> old(self).tabs@[j].id@ != tab_id@),
            r is Err ==> *final(self) == *old(self) && r->Err_0@ == "Unknown tab: "@ + tab_id@,
            r is Ok ==> final(self).active_tab_id@ == tab_id@ && final(self).active_app_id@
                == "browser"@ && !final(self).dashboard_open && final(self).tabs
                == old(self).tabs,
    {
        let n = self.tabs.len();
        let mut k: usize = 0;
        let mut found = false;
        while k < n && !found
            invariant
                n == self.tabs@.len(),
                k <= n,
                found ==> k >= 1 && self.tabs@[k - 1].id@ == tab_id@,
                !found ==> forall|j: int| 0 <= j < k ==> self.tabs@[j].id@ != tab_id@,
            decreases n - k,
        {
            if str_eq(self.tabs[k].id.as_str(), tab_id) {
                found = true;
            }
            k += 1;
        }
        if !found {
            let mut msg = to_chars("Unknown tab: ");
            push_str_chars(&mut msg, tab_id);
            return Err(from_chars(msg.as_slice()));
        }
        self.active_tab_id = String::from_str(tab_id);
        self.active_app_id = String::from_str("browser");
        self.dashboard_open = false;
        Ok(())
    }

    /// Opens a tab and makes it active, hiding the dashboard.
    pub fn add_tab(&mut self, tab: ManagedTab)
        requires
            old(self).wf(),
            tab.wf(),
        ensures
            final(self).wf(),
            final(self).tabs@ == old(self).tabs@.push(tab),
            final(self).active_tab_id@ == tab.id@,
            final(self).active_app_id@ == tab.app_id@,
            !final(self).dashboard_open,
    {
        self.active_tab_id = copy_string(&tab.id);
        self.active_app_id = copy_string(&tab.app_id);
        self.dashboard_open = false;
        self.tabs.push(tab);
    }

    /// Closes a tab, never the last one. When the active tab closes, the last
    /// remaining tab becomes active; its id is returned.
    pub fn close(&mut self, tab_id: &str) -> (next_active: Option<String>)
        requires
            old(self).wf(),
        ensures
            final(self).wf(),
            old(self).tabs@.len() == 1 ==> *final(self) == *old(self) && next_active is None,
            old(self).tabs@.len() != 1 ==> {
                &&& final(self).tabs@ == tabs_without(old(self).tabs@, tab_id@)
                &&& (old(self).active_tab_id@ == tab_id@ && final(self).tabs@.len() > 0) ==> (
                next_active is Some && next_active->0@ == final(self).tabs@.last().id@
                    && final(self).active_tab_id@ == next_active->0@)
                &&& !(old(self).active_tab_id@ == tab_id@ && final(self).tabs@.len() > 0) ==> (
                next_active is None && final(self).active_tab_id == old(self).active_tab_id)
                &&& final(self).active_app_id == old(self).active_app_id
                &&& final(self).dashboard_open == old(self).dashboard_open
            },
    {
        if self.tabs.len() == 1 {
            return None;
        }
        let was_active = str_eq(self.active_tab_id.as_str(), tab_id);
        let ghost old_tabs = self.tabs@;
        let mut kept: Vec<ManagedTab> = Vec::new();
        let mut rest: Vec<ManagedTab> = Vec::new();
        std::mem::swap(&mut rest, &mut self.tabs);
        let n = rest.len();
        assert(old_tabs.take(0) =~= Seq::<ManagedTab>::empty());
        assert(old_tabs.skip(0) =~= old_tabs);
        while rest.len() > 0
            invariant
                n == old_tabs.len(),
                rest.len() <= n,
                rest@ == old_tabs.skip(n - rest.len()),
                forall|j: int| 0 <= j < old_tabs.len() ==> (#[trigger] old_tabs[j]).wf(),
                kept@ == tabs_without(old_tabs.take(n - rest.len()), tab_id@),
                forall|j: int| 0 <= j < kept@.len() ==> (#[trigger] kept@[j]).wf(),
            decreases rest.len(),
        {
            let ghost k = n - rest.len();
            let t = rest.remove(0);
            assert(t == old_tabs[k]);
            assert(rest@ =~= old_tabs.skip(k + 1));
            assert(old_tabs.take(k + 1).drop_last() =~= old_tabs.take(k));
            assert(old_tabs.take(k + 1).last() == old_tabs[k]);
            if !str_eq(t.id.as_str(), tab_id) {
                kept.push(t);
            }
        }
        assert(old_tabs.take(n as int) =~= old_tabs);
        self.tabs = kept;
        if was_active && self.tabs.len() > 0 {
            let last = self.tabs.len() - 1;
            let next_id = copy_string(&self.tabs[last].id);
            self.active_tab_id = copy_string(&next_id);
            return Some(next_id);
        }
        None
    }
}

/// The tabs whose id is not `id`, in order.
pub open spec fn tabs_without(tabs: Seq<ManagedTab>, id: Seq<char>) -> Seq<ManagedTab>
    decreases tabs.len(),
{
    if tabs.len() == 0 {
        tabs
    } else {
        let r = tabs_without(tabs.drop_last(), id);
        if tabs.last().id@ != id {
            r.push(tabs.last())
        } else {
            r
        }
    }
}

// ---------------------------------------------------------------------------
// Sessions
// ---------------------------------------------------------------------------

/// A tab as the session file keeps it.
pub struct SessionTab {
    pub id: String,
    pub url: String,
    pub title: String,
}

/// The tab restored from a saved one: opened as a browser tab for its URL,
/// keeping its id, and its title where it had one.
pub open spec fn restored_from(t: ManagedTab, s: SessionTab) -> bool {
    &&& t.wf()
    &&& t.id@ == s.id@
    &&& t.app_id@ == "browser"@
    &&& t.url@ == navigation_url(s.url@, fallback_engine(), true)
    &&& t.title@ == if s.title@.len() > 0 {
        s.title@
    } else {
        initial_title(t.url@)
    }
    &&& t.history_view() == seq![t.url@]
    &&& t.history_index == 0
    &&& !t.is_loading
    &&& t.favicon is None
    &&& t.theme_color is None
    &&& t.native_can_go_back is None
    &&& t.native_can_go_forward is None
}

/// Whether some saved tab has id `id`.
pub open spec fn session_has(tabs: Seq<SessionTab>, id: Seq<char>) -> bool {
    exists|k: int| 0 <= k < tabs.len() && (#[trigger] tabs[k]).id@ == id
}

impl TabState {
    /// Reopens the saved tabs behind the dashboard: the saved active tab stays
    /// active when it was restored, else the first tab is. With no saved tabs
    /// nothing changes.
    pub fn restore_session_tabs(&mut self, tabs: &Vec<SessionTab>, active_tab_id: &str)
        ensures
            tabs@.len() == 0 ==> *final(self) == *old(self),
            tabs@.len() > 0 ==> {
                &&& final(self).tabs@.len() == tabs@.len()
                &&& forall|k: int| 0 <= k < tabs@.len() ==> restored_from(#[trigger] final(self).tabs@[k], tabs@[k])
                &&& final(self).active_tab_id@ == if session_has(tabs@, active_tab_id@) {
                    active_tab_id@
                } else {
                    tabs@[0].id@
                }
                &&& final(self).dashboard_open
                &&& final(self).active_app_id == old(self).active_app_id
                &&& final(self).modal_overlay_open == old(self).modal_overlay_open
                &&& final(self).panel_collapsed == old(self).panel_collapsed
                &&& final(self).wf()
            },
    {
        let n = tabs.len();
        if n == 0 {
            return;
        }
        let mut restored: Vec<ManagedTab> = Vec::new();
        let mut found = false;
        let mut i: usize = 0;
        while i < n
            invariant
                n == tabs@.len(),
                i <= n,
                restored@.len() == i,
                forall|k: int| 0 <= k < i ==> restored_from(#[trigger] restored@[k], tabs@[k]),
                found == exists|k: int| 0 <= k < i && (#[trigger] tabs@[k]).id@ == active_tab_id@,
            decreases n - i,
        {
            let saved = &tabs[i];
            let mut tab = ManagedTab::new("browser", saved.url.as_str());
            tab.id = copy_string(&saved.id);
            if to_chars(saved.title.as_str()).len() > 0 {
                tab.title = copy_string(&saved.title);
            }
            if str_eq(saved.id.as_str(), active_tab_id) {
                found = true;
            }
            restored.push(tab);
            i += 1;
        }
        let active = if found {
            String::from_str(active_tab_id)
        } else {
            copy_string(&restored[0].id)
        };
        self.active_tab_id = active;
        self.tabs = restored;
        self.dashboard_open = true;
    }

    /// The tabs worth reopening next time, with the active tab's id: a tab on
    /// the start page or another internal page has nothing to reopen.
    pub fn session_tabs(&self) -> (r: (Vec<SessionTab>, String))
        ensures
            r.1@ == self.active_tab_id@,
            r.0@.len() == self.tabs@.filter(reopenable_tab()).len(),
            forall|k: int|
                0 <= k < r.0@.len() ==> {
                    let t = self.tabs@.filter(reopenable_tab())[k];
                    &&& (#[trigger] r.0@[k]).id@ == t.id@
                    &&& r.0@[k].url@ == t.url@
                    &&& r.0@[k].title@ == t.title@
                },
    {
        let ghost keep = reopenable_tab();
        let n = self.tabs.len();
        let mut out: Vec<SessionTab> = Vec::new();
        let mut i: usize = 0;
        proof {
            crate::gather::lemma_filter_empty(keep);
            assert(self.tabs@.take(0) =~= Seq::<ManagedTab>::empty());
        }
        while i < n
            invariant
                n == self.tabs@.len(),
                keep == reopenable_tab(),
                i <= n,
                out@.len() == self.tabs@.take(i as int).filter(keep).len(),
                forall|k: int|
                    0 <= k < out@.len() ==> {
                        let t = self.tabs@.take(i as int).filter(keep)[k];
                        &&& (#[trigger] out@[k]).id@ == t.id@
                        &&& out@[k].url@ == t.url@
                        &&& out@[k].title@ == t.title@
                    },
            decreases n - i,
        {
            let tab = &self.tabs[i];
            proof {
                assert(self.tabs@.take(i + 1) =~= self.tabs@.take(i as int).push(*tab));
                crate::gather::lemma_filter_push(self.tabs@.take(i as int), keep, *tab);
            }
            let url = to_chars(tab.url.as_str());
            proof {
                reveal_strlit("aether://");
            }
            let internal = to_chars("aether://");
            let start = str_eq(tab.url.as_str(), START_PAGE_URL);
            let inner = starts_with_chars(url.as_slice(), internal.as_slice());
            let worth = !start && !inner;
            assert(worth == keep(*tab));
            let ghost before = self.tabs@.take(i as int).filter(keep);
            if worth {
                out.push(SessionTab { id: copy_string(&tab.id), url: copy_string(&tab.url), title: copy_string(&tab.title) });
                assert(self.tabs@.take(i + 1).filter(keep) == before.push(*tab));
            } else {
                assert(self.tabs@.take(i + 1).filter(keep) == before);
            }
            i += 1;
        }
        assert(self.tabs@.take(n as int) =~= self.tabs@);
        (out, copy_string(&self.active_tab_id))
    }
}

/// A tab's URL is worth reopening: it is not the start page nor another
/// internal `aether://` page.
pub open spec fn reopenable(url: Seq<char>) -> bool {
    url != START_PAGE_URL@ && !starts_with(url, "aether://"@)
}

pub open spec fn reopenable_tab() -> spec_fn(ManagedTab) -> bool {
    |t: ManagedTab| reopenable(t.url@)
}

} // verus!
