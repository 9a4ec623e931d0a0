use aether::search::SearchPrefs;
use aether::tabs::{
    is_transient_webview_url, native_webview_label, should_accept_webview_url, ManagedTab,
    SessionTab, TabState, START_PAGE_URL,
};

#[test]
fn a_new_tab_state_has_one_start_page_tab() {
    let state = TabState::new();
    assert_eq!(state.tabs.len(), 1);
    assert_eq!(state.tabs[0].url, START_PAGE_URL);
    assert_eq!(state.tabs[0].title, "New tab");
    assert_eq!(state.active_tab_id, state.tabs[0].id);
    assert!(state.dashboard_open);
    let summaries = state.tabs();
    assert_eq!(summaries.len(), 1);
    assert!(!summaries[0].is_active);
    let apps = state.apps();
    assert_eq!(apps[0].current_url, START_PAGE_URL);
    assert!(!apps[0].is_active);
}

#[test]
fn navigating_makes_back_possible_and_drops_forward_entries() {
    let mut tab = ManagedTab::new("browser", "https://example.com/a");
    assert!(!tab.can_go_back());
    let prefs = SearchPrefs { engine: "google", ai_free: false };
    tab.navigate("https://example.com/b", prefs);
    assert!(tab.can_go_back());
    assert!(!tab.can_go_forward());
    assert_eq!(tab.history, vec!["https://example.com/a", "https://example.com/b"]);
    assert_eq!(tab.title, "example.com");
    tab.history_index = 0;
    tab.navigate("rust verus", prefs);
    assert_eq!(tab.history.len(), 2);
    assert_eq!(tab.history[1], "https://www.google.com/search?q=rust+verus");
    assert_eq!(tab.history_index, 1);
}

#[test]
fn committing_a_known_url_moves_to_it() {
    let mut tab = ManagedTab::new("browser", "https://example.com/a");
    tab.commit_history_url("https://example.com/b".to_string());
    tab.commit_history_url("https://example.com/c".to_string());
    assert_eq!(tab.history_index, 2);
    tab.commit_history_url("https://example.com/a".to_string());
    assert_eq!(tab.history_index, 0);
    assert_eq!(tab.history.len(), 3);
    tab.commit_history_url("https://example.com/a".to_string());
    assert_eq!(tab.history_index, 0);
    tab.commit_history_url("https://example.com/d".to_string());
    assert_eq!(tab.history, vec!["https://example.com/a", "https://example.com/d"]);
    assert!(tab.can_go_back());
}

#[test]
fn the_start_page_is_parked_on_and_left_without_the_webview() {
    let mut tab = ManagedTab::new("browser", START_PAGE_URL);
    tab.navigate("https://example.com/", SearchPrefs::fallback());
    assert!(tab.park_on_start_page());
    assert_eq!(tab.url, START_PAGE_URL);
    assert_eq!(tab.history_index, 0);
    assert!(!tab.park_on_start_page());
    assert!(tab.leave_start_page());
    assert_eq!(tab.url, "https://example.com/");
    assert!(!tab.leave_start_page());
}

#[test]
fn webview_reports_are_filtered() {
    assert!(is_transient_webview_url(" ABOUT:BLANK "));
    assert!(is_transient_webview_url("about:blank#x"));
    assert!(!is_transient_webview_url("https://example.com"));
    assert!(!should_accept_webview_url("https://example.com", ""));
    assert!(!should_accept_webview_url(START_PAGE_URL, "https://example.com"));
    assert!(!should_accept_webview_url("https://example.com", "about:blank"));
    assert!(should_accept_webview_url("about:blank", "about:srcdoc"));
    assert!(should_accept_webview_url("https://a.example", "https://b.example"));
    assert_eq!(native_webview_label("t1"), "aether-browser-tab-t1");
}

#[test]
fn navigation_events_update_the_tab() {
    let mut tab = ManagedTab::new("browser", "https://example.com/");
    tab.apply_navigation_event("  https://other.example/page ", true);
    assert!(tab.is_loading);
    assert_eq!(tab.url, "https://other.example/page");
    assert_eq!(tab.title, "example.com");
    assert_eq!(tab.favicon.as_deref(), Some("https://other.example/favicon.ico"));
    assert_eq!(tab.history.len(), 1);
    tab.apply_navigation_event("https://other.example/page", false);
    assert_eq!(tab.history.len(), 2);
    assert_eq!(tab.history_index, 1);
    tab.apply_navigation_event("about:blank", false);
    assert_eq!(tab.url, "https://other.example/page");
}

#[test]
fn tabs_are_activated_and_closed() {
    let mut state = TabState::new();
    let first = state.tabs[0].id.clone();
    let second_tab = ManagedTab::new("browser", "https://example.com/");
    let second = second_tab.id.clone();
    state.add_tab(second_tab);
    assert_eq!(state.active_tab_id, second);
    assert!(!state.dashboard_open);
    assert_eq!(state.activate("missing"), Err("Unknown tab: missing".to_string()));
    assert_eq!(state.activate(&first), Ok(()));
    assert_eq!(state.active_tab().map(|t| t.id.clone()), Some(first.clone()));
    let next = state.close(&first);
    assert_eq!(next, Some(second.clone()));
    assert_eq!(state.tabs.len(), 1);
    assert_eq!(state.close(&second), None);
    assert_eq!(state.tabs.len(), 1);
}

#[test]
fn summaries_mark_the_active_tab() {
    let mut state = TabState::new();
    let tab = ManagedTab::new("browser", "https://example.com/");
    let id = tab.id.clone();
    state.add_tab(tab);
    let summaries = state.tabs();
    assert!(summaries.iter().any(|s| s.id == id && s.is_active && s.host == "example.com"));
    let s = state.state();
    assert_eq!(s.active_tab_id, id);
    assert!(s.apps[0].is_active);
}

fn session_tab(id: &str, url: &str, title: &str) -> SessionTab {
    SessionTab { id: id.to_string(), url: url.to_string(), title: title.to_string() }
}

#[test]
fn restored_session_keeps_the_saved_active_tab() {
    let tabs = vec![
        session_tab("tab-a", "https://example.com/a", "A"),
        session_tab("tab-b", "https://example.com/b", "B"),
    ];
    let mut state = TabState::new();
    state.restore_session_tabs(&tabs, "tab-b");
    assert_eq!(state.active_tab_id, "tab-b");

    // A stale active id must fall back to the first tab, not to an empty string.
    let mut stale = TabState::new();
    stale.restore_session_tabs(&tabs, "tab-gone");
    assert_eq!(stale.active_tab_id, "tab-a");
}

#[test]
fn restored_tabs_keep_ids_and_titles_behind_the_dashboard() {
    let tabs = vec![
        session_tab("tab-a", "https://example.com/a", ""),
        session_tab("tab-b", "example.org", "Saved title"),
    ];
    let mut state = TabState::new();
    state.dashboard_open = false;
    state.restore_session_tabs(&tabs, "tab-a");
    assert!(state.dashboard_open);
    assert_eq!(state.tabs.len(), 2);
    assert_eq!(state.tabs[0].id, "tab-a");
    assert_eq!(state.tabs[0].title, "example.com");
    assert_eq!(state.tabs[1].url, "https://example.org");
    assert_eq!(state.tabs[1].title, "Saved title");
    assert_eq!(state.tabs[1].app_id, "browser");

    let mut untouched = TabState::new();
    let before = untouched.active_tab_id.clone();
    untouched.restore_session_tabs(&vec![], "tab-a");
    assert_eq!(untouched.active_tab_id, before);
    assert_eq!(untouched.tabs.len(), 1);
}

#[test]
fn session_tabs_skip_internal_pages() {
    let tabs = vec![
        session_tab("tab-a", "https://example.com/a", "A"),
        session_tab("tab-b", "https://example.com/b", "B"),
    ];
    let mut state = TabState::new();
    state.restore_session_tabs(&tabs, "tab-b");
    state.tabs.push(ManagedTab::new("browser", START_PAGE_URL));
    let mut internal = ManagedTab::new("browser", START_PAGE_URL);
    internal.url = "aether://settings".to_string();
    state.tabs.push(internal);
    let (saved, active) = state.session_tabs();
    assert_eq!(active, "tab-b");
    let ids = saved.iter().map(|tab| tab.id.as_str()).collect::<Vec<_>>();
    assert_eq!(ids, vec!["tab-a", "tab-b"]);
    assert_eq!(saved[1].url, "https://example.com/b");
}

#[test]
fn new_tabs_get_random_hyphenated_ids() {
    let tab = ManagedTab::new("browser", "https://example.com");
    let id = tab.id.as_bytes();
    assert_eq!(id.len(), 36);
    for (index, byte) in id.iter().enumerate() {
        if [8, 13, 18, 23].contains(&index) {
            assert_eq!(*byte, b'-');
        } else {
            assert!(byte.is_ascii_digit() || (b'a'..=b'f').contains(byte));
        }
    }
    assert_eq!(id[14], b'4');
    assert_ne!(tab.id, ManagedTab::new("browser", "https://example.com").id);
}
