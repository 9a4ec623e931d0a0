use aether::library::{
    capture_chunk_settings, conversation_thread_key, default_settings_version,
    default_update_auto_check, drop_captures_without_collections, find_collection, is_false,
    normalize_iceberg_icon, normalize_theme_color, plan_capture, query_terms, record_capture, reorder, slugify,
    split_text,
    CaptureSummary, CollectionSummary, LibraryData, CURRENT_PAGE_THREAD_KEY,
};

#[test]
fn conversation_thread_key_separates_hub_and_page_threads() {
    assert_eq!(conversation_thread_key(Some("hub-1")), "hub-1");
    assert_eq!(conversation_thread_key(None), CURRENT_PAGE_THREAD_KEY);
    assert_eq!(conversation_thread_key(Some("")), CURRENT_PAGE_THREAD_KEY);
}

#[test]
fn chunking_handles_multibyte_text_without_splitting_characters() {
    let body = "— 私は研究します。".repeat(20);
    let chunks = split_text(&body, 40, 10);

    assert!(!chunks.is_empty());
    for chunk in &chunks {
        assert_eq!(chunk.as_bytes(), chunk.clone().into_bytes().as_slice());
    }
    assert!(chunks.concat().contains("私は研究します"));
}

#[test]
fn chunks_overlap_and_cover_the_text() {
    let text = "abcdefghij";
    assert_eq!(split_text(text, 4, 1), vec!["abcd", "defg", "ghij"]);
    assert_eq!(split_text("   ", 4, 1), Vec::<String>::new());
    assert_eq!(capture_chunk_settings(), (2200, 240));
}

fn collection(id: &str) -> CollectionSummary {
    CollectionSummary {
        id: id.to_string(),
        name: format!("Hub {id}"),
        description: String::new(),
        icon: None,
        created_at: "2026-01-01T00:00:00Z".to_string(),
        updated_at: "2026-01-01T00:00:00Z".to_string(),
        capture_count: 0,
        chunk_count: 0,
    }
}

fn capture(id: &str, collection_id: &str) -> CaptureSummary {
    CaptureSummary {
        id: id.to_string(),
        collection_id: collection_id.to_string(),
        title: "Title".to_string(),
        url: "https://example.com".to_string(),
        app_id: "browser".to_string(),
        captured_at: "2026-01-01T00:00:00Z".to_string(),
        chunk_count: 1,
        metadata: None,
    }
}

#[test]
fn captures_of_deleted_hubs_are_dropped() {
    let mut library = LibraryData {
        version: 1,
        collections: vec![collection("a")],
        captures: vec![capture("1", "a"), capture("2", "gone"), capture("3", "a")],
        shortcuts: Vec::new(),
        migrated_realm_tables: Vec::new(),
    };
    assert_eq!(drop_captures_without_collections(&mut library), 1);
    let ids: Vec<&str> = library.captures.iter().map(|c| c.id.as_str()).collect();
    assert_eq!(ids, vec!["1", "3"]);
    assert!(find_collection(&library, "a").is_ok());
    assert_eq!(find_collection(&library, "b").err(), Some("Collection not found.".to_string()));
}

#[test]
fn slugs_are_lowercase_and_dashed() {
    assert_eq!(slugify("  My Research Hub!  "), "my-research-hub");
    assert_eq!(slugify("a -- b"), "a-b");
    assert_eq!(slugify("!!!"), "collection");
    assert_eq!(slugify("snake_case"), "snake_case");
}

#[test]
fn only_known_icons_survive() {
    assert_eq!(normalize_iceberg_icon(Some(" Brain ".to_string())), Some("brain".to_string()));
    assert_eq!(normalize_iceberg_icon(Some("rocket".to_string())), None);
    assert_eq!(normalize_iceberg_icon(None), None);
}

#[test]
fn theme_colors_are_hex_or_css_functions() {
    assert_eq!(normalize_theme_color(" #fff "), Some("#fff".to_string()));
    assert_eq!(normalize_theme_color("#12345678"), Some("#12345678".to_string()));
    assert_eq!(normalize_theme_color("#12"), None);
    assert_eq!(normalize_theme_color("#ggg"), None);
    assert_eq!(normalize_theme_color("RGB(1, 2, 3)"), Some("RGB(1, 2, 3)".to_string()));
    assert_eq!(normalize_theme_color("rgb(1, 2, 3"), None);
    assert_eq!(normalize_theme_color("red"), None);
    assert_eq!(normalize_theme_color(""), None);
}

#[test]
fn stored_defaults() {
    assert_eq!(default_settings_version(), 1);
    assert!(default_update_auto_check());
    assert!(is_false(&false));
    assert!(!is_false(&true));
}

#[test]
fn query_terms_drop_stopwords_short_words_and_repeats() {
    assert_eq!(
        query_terms("What is the Roman Empire, and the ROMAN army?"),
        vec!["roman".to_string(), "empire".to_string(), "army".to_string()]
    );
    assert_eq!(query_terms("a an of"), Vec::<String>::new());
}

fn library_with(collections: Vec<CollectionSummary>, captures: Vec<CaptureSummary>) -> LibraryData {
    LibraryData {
        version: 2,
        collections,
        captures,
        shortcuts: Vec::new(),
        migrated_realm_tables: Vec::new(),
    }
}

#[test]
fn planning_a_capture_checks_the_hub_and_duplicates() {
    let library = library_with(vec![collection("a")], vec![capture("c1", "a")]);
    assert_eq!(
        plan_capture(&library, "missing", "https://new.example/", "text").err().as_deref(),
        Some("Collection not found.")
    );
    assert_eq!(
        plan_capture(&library, "a", "https://example.com/#section", "text").err().as_deref(),
        Some("Page is already in Hub a.")
    );
    assert_eq!(
        plan_capture(&library, "a", "https://new.example/", "   ").err().as_deref(),
        Some("No readable text found on that page.")
    );
    let (hub, chunks) = plan_capture(&library, "a", "https://new.example/", "Readable words.").expect("plan");
    assert_eq!(hub.id, "a");
    assert_eq!(chunks, vec!["Readable words.".to_string()]);
}

#[test]
fn recording_a_capture_counts_it_in_its_hub() {
    let mut library = library_with(vec![collection("a"), collection("b")], Vec::new());
    let mut added = capture("c1", "b");
    added.chunk_count = 3;
    added.captured_at = "2026-02-02T00:00:00Z".to_string();
    record_capture(&mut library, added);
    assert_eq!(library.captures.len(), 1);
    assert_eq!(library.collections[0].capture_count, 0);
    assert_eq!(library.collections[1].capture_count, 1);
    assert_eq!(library.collections[1].chunk_count, 3);
    assert_eq!(library.collections[1].updated_at, "2026-02-02T00:00:00Z");
}

fn ids(values: &[&str]) -> Vec<String> {
    values.iter().map(|v| v.to_string()).collect()
}

#[test]
fn reordering_puts_requested_items_first_and_keeps_the_rest() {
    let items = ids(&["a", "b", "c", "d"]);
    assert_eq!(reorder(&items, &ids(&["c", "a"])), vec![2, 0, 1, 3]);
    assert_eq!(reorder(&items, &ids(&["", "missing", "d"])), vec![3, 0, 1, 2]);
    assert_eq!(reorder(&items, &[]), vec![0, 1, 2, 3]);
}

#[test]
fn reordering_keeps_every_item_exactly_once() {
    let items = ids(&["a", "b", "c", "d", "e"]);
    let mut order = reorder(&items, &ids(&["e", "x", "b", "d"]));
    assert_eq!(order, vec![4, 1, 3, 0, 2]);
    order.sort();
    assert_eq!(order, vec![0, 1, 2, 3, 4]);
}

#[test]
fn text_that_fits_one_window_is_one_chunk_whatever_the_overlap() {
    assert_eq!(split_text("  abc ", 6, 10), vec!["abc"]);
    assert_eq!(split_text("", 0, 3), Vec::<String>::new());
}
