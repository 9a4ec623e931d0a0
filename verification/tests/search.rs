use aether::search::{
    active_proxy_url, ai_free_search, ai_free_search_status, default_ai_free_search,
    normalize_search_engine_id, normalize_url, proxy_platform_support, proxy_status,
    search_engine_home, search_engine_prefix, search_url, timezone_pin_platform_support,
    timezone_pin_status, urlencoding, AiFreeSearch, BrowserSettings, Platform, ProxySettings,
    SearchPrefs, DEFAULT_SEARCH_ENGINE,
};

fn settings(engine: &str, ai_free: bool, proxy: Option<&str>) -> BrowserSettings {
    BrowserSettings {
        default_search_engine: engine.to_string(),
        ai_free_search: ai_free,
        proxy: ProxySettings {
            enabled: proxy.is_some(),
            url: proxy.unwrap_or("").to_string(),
        },
        pin_timezone: true,
    }
}

#[test]
fn form_encoding_matches_query_strings() {
    assert_eq!(urlencoding("a b&c~é"), "a+b%26c~%C3%A9");
    assert_eq!(urlencoding(""), "");
}

#[test]
fn typed_text_becomes_a_search_or_a_url() {
    let google = SearchPrefs { engine: "google", ai_free: false };
    assert_eq!(normalize_url("  ", google), "https://www.google.com");
    assert_eq!(normalize_url("rust lang", google), "https://www.google.com/search?q=rust+lang");
    assert_eq!(normalize_url("example.com", google), "https://example.com");
    assert_eq!(normalize_url("localhost:3000", google), "localhost:3000");
    assert_eq!(normalize_url("127.0.0.1.nip.io/x", google), "http://127.0.0.1.nip.io/x");
    assert_eq!(
        normalize_url("https://example.com/?utm_source=a&b=1", google),
        "https://example.com/?b=1"
    );
    assert_eq!(normalize_url("word", google), "https://www.google.com/search?q=word");
}

#[test]
fn ai_free_search_follows_each_engine() {
    let google = SearchPrefs { engine: "google", ai_free: true };
    assert_eq!(search_url("a b", google), "https://www.google.com/search?q=a+b&udm=14");
    let bing = SearchPrefs { engine: "bing", ai_free: true };
    assert_eq!(search_url("a", bing), "https://www.bing.com/search?q=a+-ai");
    let ddg = SearchPrefs { engine: "duckduckgo", ai_free: true };
    assert_eq!(search_url("a", ddg), "https://noai.duckduckgo.com/?q=a");
    assert_eq!(search_engine_home(ddg), "https://noai.duckduckgo.com");
    let yahoo = SearchPrefs { engine: "yahoo", ai_free: true };
    assert_eq!(search_url("a", yahoo), "https://search.yahoo.com/search?p=a");
    assert!(matches!(ai_free_search("ecosia"), AiFreeSearch::Unavailable));
    assert_eq!(search_engine_prefix("unknown"), "https://duckduckgo.com/?q=");
}

#[test]
fn settings_describe_the_ai_free_mechanism() {
    let status = ai_free_search_status(&settings("duckduckgo", true, None));
    assert!(status.enabled && status.available);
    assert_eq!(status.mechanism, "noai.duckduckgo.com");
    let status = ai_free_search_status(&settings("google", false, None));
    assert_eq!(status.mechanism, "udm=14 Web filter");
    let status = ai_free_search_status(&settings("yahoo", true, None));
    assert!(!status.available);
    assert_eq!(status.mechanism, "");
}

#[test]
fn search_preferences_have_a_fallback() {
    let prefs = SearchPrefs::fallback();
    assert_eq!(prefs.engine, DEFAULT_SEARCH_ENGINE);
    assert!(prefs.ai_free);
    assert!(default_ai_free_search());
    let s = settings("bing", false, None);
    assert_eq!(s.search_prefs().engine, "bing");
    assert_eq!(normalize_search_engine_id("bing"), "bing");
    assert_eq!(normalize_search_engine_id("altavista"), "duckduckgo");
}

#[test]
fn proxies_are_refused_where_the_platform_cannot_carry_them() {
    assert!(proxy_platform_support(&Platform::MacOs { major_version: 13 }).is_err());
    assert!(proxy_platform_support(&Platform::MacOs { major_version: 14 }).is_ok());
    assert!(proxy_platform_support(&Platform::Android).is_err());
    let s = settings("bing", false, Some("socks5://127.0.0.1:9050"));
    let status = proxy_status(&s, &Platform::Linux);
    assert!(status.active && status.available);
    assert!(active_proxy_url(&s, &Platform::Linux).is_some());
    assert!(active_proxy_url(&s, &Platform::Android).is_none());
    let bad = settings("bing", false, Some("ftp://x:1"));
    assert!(!proxy_status(&bad, &Platform::Linux).active);
}

#[test]
fn timezone_pinning_is_desktop_only() {
    assert!(timezone_pin_platform_support(&Platform::Windows).is_ok());
    assert!(timezone_pin_platform_support(&Platform::Ios).is_err());
    let s = settings("bing", false, None);
    assert!(timezone_pin_status(&s, &Platform::Linux).active);
    assert!(!timezone_pin_status(&s, &Platform::Android).active);
}
