use aether::blocking::{
    blocked_host_of_filter, blocked_hosts, content_blocking_status, is_blocked_host,
    rule_domain_count, same_site, should_block_request, BlockRule,
};
use aether::search::Platform;

#[test]
fn cookie_blocking_is_reported_per_platform() {
    for platform in [
        Platform::MacOs { major_version: 14 },
        Platform::Linux,
        Platform::Windows,
        Platform::Android,
    ] {
        let status = content_blocking_status(&platform, 3);
        match platform {
            Platform::MacOs { .. } | Platform::Linux => {
                assert!(status.available);
                assert!(
                    status.blocks_third_party_cookies,
                    "WebKit evaluates the block-cookies rule on this platform"
                );
            }
            Platform::Windows => {
                assert!(status.available);
                assert!(
                    !status.blocks_third_party_cookies,
                    "WebView2 has no block-cookies equivalent; claiming otherwise misleads"
                );
            }
            Platform::Android => assert!(!status.available),
            Platform::Ios => {}
        }
        assert_eq!(status.engine.is_empty(), !status.available);
        assert_eq!(status.blocked_host_count, 3);
    }
}

#[test]
fn subdomains_of_a_blocked_host_are_blocked() {
    let blocklist = vec!["doubleclick.net".to_string()];
    assert!(is_blocked_host("doubleclick.net", &blocklist));
    assert!(is_blocked_host("stats.g.doubleclick.net", &blocklist));
}

#[test]
fn lookalike_hosts_are_not_blocked() {
    let blocklist = vec!["doubleclick.net".to_string()];
    assert!(!is_blocked_host("notdoubleclick.net", &blocklist));
    assert!(!is_blocked_host("doubleclick.net.evil.com", &blocklist));
    assert!(!is_blocked_host("example.com", &blocklist));
}

#[test]
fn same_site_ignores_subdomains_but_separates_real_sites() {
    assert!(same_site("cdn.example.com", "www.example.com"));
    assert!(!same_site("tracker.net", "example.com"));
    assert!(!same_site("", "example.com"));
}

#[test]
fn first_party_requests_to_a_listed_host_go_through() {
    let blocklist = vec!["doubleclick.net".to_string()];
    assert!(should_block_request(
        "https://ad.doubleclick.net/pixel",
        Some("https://news.example.com/"),
        &blocklist
    ));
    assert!(!should_block_request(
        "https://ad.doubleclick.net/pixel",
        Some("https://www.doubleclick.net/"),
        &blocklist
    ));
    assert!(!should_block_request("https://example.com/x", None, &blocklist));
    assert!(!should_block_request("not a url", None, &blocklist));
    assert!(should_block_request("https://doubleclick.net/x", None, &blocklist));
}

#[test]
fn rule_filters_reduce_to_bare_hosts() {
    assert_eq!(
        blocked_host_of_filter("^https?://([^/]+\\.)?doubleclick\\.net"),
        Some("doubleclick.net".to_string())
    );
    assert_eq!(
        blocked_host_of_filter("^https?://connect\\.facebook\\.com"),
        Some("connect.facebook.com".to_string())
    );
    assert_eq!(
        blocked_host_of_filter("^https?://([^/]+\\.)?adservice\\.google\\."),
        Some("adservice.google".to_string())
    );
    assert_eq!(blocked_host_of_filter("^https?://([^/]+\\.)?criteo\\.(com|net)"), None);
    assert_eq!(blocked_host_of_filter(".*tracker"), None);
}

#[test]
fn only_blocking_rules_name_hosts() {
    let rules = vec![
        BlockRule {
            is_block: true,
            url_filter: Some("^https?://([^/]+\\.)?criteo\\.com".to_string()),
        },
        BlockRule {
            is_block: false,
            url_filter: Some("^https?://([^/]+\\.)?example\\.com".to_string()),
        },
        BlockRule {
            is_block: true,
            url_filter: Some("^https?://([^/]+\\.)?criteo\\.net".to_string()),
        },
        BlockRule { is_block: true, url_filter: None },
    ];
    assert_eq!(blocked_hosts(&rules), vec!["criteo.com".to_string(), "criteo.net".to_string()]);
    assert_eq!(rule_domain_count(&rules), 3);
}
