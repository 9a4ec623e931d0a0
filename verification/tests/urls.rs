use aether::urls::{
    capture_target_url, favicon_for_url, favicon_origin, get_tab_host, host_of,
    is_tracking_param, normalize_capture_url_key, normalize_provenance_url, parse_proxy_url,
    strip_tracking_params, title_from_url, ParsedUrl,
};

#[test]
fn origin_drops_the_path_so_one_host_shares_one_icon() {
    assert_eq!(
        favicon_origin("https://example.com/a/b?c=d#e"),
        Some("https://example.com".to_string())
    );
}

#[test]
fn origin_keeps_a_non_default_port() {
    assert_eq!(
        favicon_origin("http://localhost:3000/x"),
        Some("http://localhost:3000".to_string())
    );
}

#[test]
fn origin_rejects_non_http_schemes() {
    assert_eq!(favicon_origin("aether://start"), None);
    assert_eq!(favicon_origin("file:///etc/passwd"), None);
    assert_eq!(favicon_origin("not a url"), None);
}

#[test]
fn capture_target_rejects_search_text_instead_of_guessing_a_url() {
    assert!(capture_target_url("how do vaccines work").is_err());
    assert!(capture_target_url("   ").is_err());
    assert!(capture_target_url("notaurl").is_err());
}

#[test]
fn capture_target_accepts_bare_hosts_and_full_urls() {
    assert_eq!(
        capture_target_url("example.com/article"),
        Ok("https://example.com/article".to_string())
    );
    assert_eq!(
        capture_target_url("  https://en.wikipedia.org/wiki/Augustus  "),
        Ok("https://en.wikipedia.org/wiki/Augustus".to_string())
    );
    assert_eq!(
        capture_target_url("http://example.com"),
        Ok("http://example.com/".to_string())
    );
}

#[test]
fn capture_target_rejects_non_web_schemes() {
    for raw in [
        "file:///etc/passwd",
        "aether://dashboard",
        "javascript:alert(1)",
        "ftp://example.com/x",
    ] {
        assert!(
            capture_target_url(raw).is_err(),
            "{raw} should not be capturable"
        );
    }
}

#[test]
fn tab_host_drops_leading_www_labels() {
    assert_eq!(get_tab_host("https://www.example.com/a"), "example.com");
    assert_eq!(get_tab_host("https://www.www.example.com/"), "example.com");
    assert_eq!(get_tab_host("not a url"), "");
}

#[test]
fn tab_title_is_the_host_or_new_tab() {
    assert_eq!(title_from_url("https://news.example.org/story"), "news.example.org");
    assert_eq!(title_from_url("aether://start"), "start");
    assert_eq!(title_from_url("not a url"), "New tab");
}

#[test]
fn favicon_url_sits_at_the_root_of_the_host() {
    assert_eq!(
        favicon_for_url("https://example.com/deep/page"),
        Some("https://example.com/favicon.ico".to_string())
    );
    assert_eq!(favicon_for_url("nonsense"), None);
}

#[test]
fn hosts_are_lower_cased() {
    assert_eq!(host_of("https://EXAMPLE.com/x"), Some("example.com".to_string()));
    assert_eq!(host_of("mailto:someone@example.com"), None);
}

#[test]
fn tracking_parameters_are_removed_and_others_kept() {
    assert!(is_tracking_param("utm_source"));
    assert!(is_tracking_param("fbclid"));
    assert!(!is_tracking_param("q"));
    let cleaned = strip_tracking_params("https://example.com/a?utm_source=x&q=1");
    assert_eq!(cleaned, "https://example.com/a?q=1");
    let again = strip_tracking_params(&cleaned);
    assert_eq!(again, cleaned);
}

#[test]
fn capture_keys_ignore_fragments_and_trailing_slashes() {
    assert_eq!(
        normalize_capture_url_key("https://example.com/a#intro"),
        normalize_capture_url_key("https://example.com/a#details")
    );
    assert_eq!(normalize_capture_url_key("https://example.com/"), "https://example.com");
}

#[test]
fn provenance_urls_resolve_against_the_page() {
    assert_eq!(
        normalize_provenance_url("/canonical#x", "https://example.com/a/b"),
        Some("https://example.com/canonical".to_string())
    );
    assert_eq!(normalize_provenance_url("javascript:alert(1)", "https://example.com/"), None);
}

#[test]
fn proxy_urls_must_name_a_supported_scheme() {
    assert!(parse_proxy_url("socks5://127.0.0.1:9050").is_ok());
    assert!(parse_proxy_url("not a proxy").is_err());
}

#[test]
fn parsed_urls_expose_their_path() {
    let parsed = ParsedUrl::parse("https://example.com/a/b?x=1").expect("url");
    assert_eq!(parsed.path, "/a/b");
    assert_eq!(parsed.host.as_deref(), Some("example.com"));
    assert!(ParsedUrl::parse("no scheme").is_none());
}

#[test]
fn stripping_keeps_every_other_character_as_written() {
    assert_eq!(
        strip_tracking_params("https://a.com/?q=a%20b&gclid=1"),
        "https://a.com/?q=a%20b"
    );
    assert_eq!(
        strip_tracking_params("https://a.com/p?x=1+2&UTM_Source=z&&y=%7E#frag"),
        "https://a.com/p?x=1+2&&y=%7E#frag"
    );
    // An encoded key is decoded before it is compared.
    assert_eq!(strip_tracking_params("https://a.com/?%67clid=1#top"), "https://a.com/#top");
    assert_eq!(strip_tracking_params("https://a.com/?q=1"), "https://a.com/?q=1");
    assert_eq!(strip_tracking_params("ftp://a.com/?gclid=1"), "ftp://a.com/?gclid=1");
}
