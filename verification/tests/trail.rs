use aether::extract::{
    CaptureProvenance, CaptureScope, CapturedPage, ExtractionMethod,
};
use aether::trail::{
    add_semantic_trail_reason, merge_semantic_trail_excerpts, semantic_trail_default_query,
    semantic_trail_edges, semantic_trail_excerpt, semantic_trail_items, SemanticTrailEdgeKind,
    SemanticTrailItem, SemanticTrailReason, TrailCandidate, TrailChunk, semantic_trail_plan,
    semantic_trail_start, TrailStart, QUERY_ROOT_EXCERPT,
};
use aether::library::CaptureSummary;

fn semantic_trail_candidate(
    url: &str,
    text: &str,
    total: f64,
    reasons: Vec<SemanticTrailReason>,
) -> TrailCandidate<(f64, f64, f64)> {
    TrailCandidate {
        chunk: TrailChunk {
            capture_id: "capture".to_string(),
            collection_id: "collection".to_string(),
            app_id: "browser".to_string(),
            title: "Example".to_string(),
            url: url.to_string(),
            captured_at: "2026-01-01T00:00:00.000Z".to_string(),
            chunk_index: 0,
            text: text.to_string(),
        },
        collection_name: "Research".to_string(),
        score: (total, total, 50.0),
        reasons,
    }
}

#[test]
fn semantic_trail_items_dedupe_urls_and_merge_excerpts() {
    let first = semantic_trail_candidate(
        "https://example.com/a#intro",
        "First source passage about local semantic browsing.",
        92.0,
        vec![SemanticTrailReason::SemanticMatch],
    );
    let second = semantic_trail_candidate(
        "https://example.com/a#details",
        "Second source passage with more implementation detail.",
        84.0,
        vec![SemanticTrailReason::RecentCapture],
    );

    let items = semantic_trail_items(vec![first, second], 12);

    assert_eq!(items.len(), 1);
    assert!(items[0].excerpt.contains("First source passage"));
    assert!(items[0].excerpt.contains("Second source passage"));
    assert!(items[0].reasons.contains(&SemanticTrailReason::SemanticMatch));
    assert!(items[0].reasons.contains(&SemanticTrailReason::RecentCapture));
}

#[test]
fn trail_items_stop_at_the_limit_but_still_merge() {
    let items = semantic_trail_items(
        vec![
            semantic_trail_candidate("https://a.example/", "Alpha text.", 90.0, vec![]),
            semantic_trail_candidate("https://b.example/", "Beta text.", 80.0, vec![]),
            semantic_trail_candidate(
                "https://a.example",
                "More alpha.",
                70.0,
                vec![SemanticTrailReason::SameCollection],
            ),
        ],
        1,
    );
    assert_eq!(items.len(), 1);
    assert_eq!(items[0].url, "https://a.example/");
    assert_eq!(items[0].host, "a.example");
    assert_eq!(items[0].score.0, 90.0);
    assert_eq!(items[0].excerpt, "Alpha text.\n\n[…]\n\nMore alpha.".split_whitespace().collect::<Vec<_>>().join(" "));
    assert_eq!(items[0].reasons, vec![SemanticTrailReason::SameCollection]);
}

#[test]
fn excerpts_are_normalised_and_clipped() {
    assert_eq!(semantic_trail_excerpt("  a\r\n  b  ", 10), "a b");
    assert_eq!(semantic_trail_excerpt("abcdef", 3), "abc…");
}

#[test]
fn repeated_passages_are_not_merged_twice() {
    assert_eq!(merge_semantic_trail_excerpts("one two", "two"), "one two");
    assert_eq!(merge_semantic_trail_excerpts("one", "   "), "one");
    assert_eq!(merge_semantic_trail_excerpts("one", "two"), "one […] two");
}

#[test]
fn reasons_are_added_once() {
    let mut reasons = vec![SemanticTrailReason::SemanticMatch];
    add_semantic_trail_reason(&mut reasons, SemanticTrailReason::SemanticMatch);
    add_semantic_trail_reason(&mut reasons, SemanticTrailReason::RecentCapture);
    assert_eq!(
        reasons,
        vec![SemanticTrailReason::SemanticMatch, SemanticTrailReason::RecentCapture]
    );
}

#[test]
fn default_query_is_title_then_text() {
    let page = CapturedPage {
        title: "Rome".to_string(),
        url: "https://example.com".to_string(),
        text: "The   city\nof Rome.".to_string(),
        provenance: CaptureProvenance {
            receipt_version: 1,
            extractor_version: "x".to_string(),
            requested_url: None,
            canonical_url: None,
            author: None,
            published_at: None,
            site_name: None,
            language: None,
            content_hash: String::new(),
            extraction_method: ExtractionMethod::LiveDom,
            content_scope: CaptureScope::Page,
            content_selector: "body".to_string(),
            word_count: 0,
            fallback_reason: None,
            selection_context_before: None,
            selection_context_after: None,
        },
    };
    assert_eq!(semantic_trail_default_query(&page), "Rome The city of Rome.");
}

fn trail_item(id: &str, collection_id: &str, host: &str) -> SemanticTrailItem<f64> {
    SemanticTrailItem {
        id: id.to_string(),
        collection_id: collection_id.to_string(),
        collection_name: "Hub".to_string(),
        capture_id: id.to_string(),
        app_id: "browser".to_string(),
        title: id.to_string(),
        url: format!("https://{host}/"),
        host: host.to_string(),
        captured_at: "2026-01-01T00:00:00.000Z".to_string(),
        chunk_index: 0,
        excerpt: String::new(),
        score: 50.0,
        reasons: vec![SemanticTrailReason::SemanticMatch],
    }
}

#[test]
fn trail_edges_link_the_root_and_related_items() {
    let items = vec![
        trail_item("a", "hub-1", "example.com"),
        trail_item("b", "hub-1", "other.org"),
        trail_item("c", "hub-2", "example.com"),
    ];
    let edges = semantic_trail_edges("example.com", &items);
    let described = edges
        .iter()
        .map(|edge| (edge.from.as_str(), edge.to.as_str(), edge.kind, edge.from_item, edge.to_item))
        .collect::<Vec<_>>();
    assert_eq!(
        described,
        vec![
            ("root", "a", SemanticTrailEdgeKind::SemanticMatch, None, 0),
            ("root", "a", SemanticTrailEdgeKind::SameHost, None, 0),
            ("root", "b", SemanticTrailEdgeKind::SemanticMatch, None, 1),
            ("root", "c", SemanticTrailEdgeKind::SemanticMatch, None, 2),
            ("root", "c", SemanticTrailEdgeKind::SameHost, None, 2),
            ("a", "b", SemanticTrailEdgeKind::SameCollection, Some(0), 1),
            ("a", "c", SemanticTrailEdgeKind::SameHost, Some(0), 2),
        ]
    );
}

#[test]
fn trail_edges_without_a_page_root_skip_host_links_and_cap_at_36() {
    let items = (0..20)
        .map(|index| trail_item(&format!("item-{index}"), "hub", ""))
        .collect::<Vec<_>>();
    let edges = semantic_trail_edges("", &items);
    // Twelve root edges, then all 28 pairs of the first eight share a hub: capped.
    assert_eq!(edges.len(), 36);
    assert_eq!(edges.iter().filter(|edge| edge.from == "root").count(), 12);
    assert!(edges.iter().all(|edge| edge.kind != SemanticTrailEdgeKind::SameHost));
}

fn page(title: &str, url: &str, text: &str) -> CapturedPage {
    CapturedPage {
        title: title.to_string(),
        url: url.to_string(),
        text: text.to_string(),
        provenance: CaptureProvenance {
            receipt_version: 1,
            extractor_version: "x".to_string(),
            requested_url: None,
            canonical_url: None,
            author: None,
            published_at: None,
            site_name: None,
            language: None,
            content_hash: String::new(),
            extraction_method: ExtractionMethod::LiveDom,
            content_scope: CaptureScope::Page,
            content_selector: "body".to_string(),
            word_count: 0,
            fallback_reason: None,
            selection_context_before: None,
            selection_context_after: None,
        },
    }
}

fn capture_at(collection_id: &str, url: &str) -> CaptureSummary {
    CaptureSummary {
        id: format!("{collection_id}-{url}"),
        collection_id: collection_id.to_string(),
        title: "Title".to_string(),
        url: url.to_string(),
        app_id: "browser".to_string(),
        captured_at: "2026-01-01T00:00:00Z".to_string(),
        chunk_count: 1,
        metadata: None,
    }
}

#[test]
fn a_trail_starts_from_a_query_or_the_active_page() {
    assert!(matches!(semantic_trail_start(Some("  rome  "), true, false), Ok(TrailStart::Query(q)) if q == "rome"));
    assert!(matches!(semantic_trail_start(Some("   "), false, true), Ok(TrailStart::ReadActivePage)));
    assert!(matches!(semantic_trail_start(None, true, true), Err(e) if e == "Open a web page before building Flow."));
    assert!(matches!(semantic_trail_start(None, false, false), Err(e) if e == "No active browser tab."));
}

#[test]
fn a_query_trail_has_a_fixed_root_and_clamped_limit() {
    let plan = semantic_trail_plan(Some(" rome "), None, &[], Some(100));
    assert_eq!(plan.root.title, "rome");
    assert_eq!(plan.root.excerpt, QUERY_ROOT_EXCERPT);
    assert!(plan.root.url.is_empty() && plan.root.host.is_empty());
    assert_eq!((plan.visible_query.as_str(), plan.embedding_query.as_str()), ("rome", "rome"));
    assert_eq!(plan.limit, 24);
    assert!(plan.root_collection_ids.is_empty());
    assert_eq!(semantic_trail_plan(Some("x"), None, &[], None).limit, 12);
    assert_eq!(semantic_trail_plan(Some("x"), None, &[], Some(0)).limit, 1);
}

#[test]
fn a_page_trail_is_held_by_the_hubs_that_captured_the_page() {
    let current = page("Rome", "https://www.example.com/rome#top", "The   city\nof Rome.");
    let captures = vec![
        capture_at("hub-a", "https://www.example.com/rome"),
        capture_at("hub-b", "https://other.com/"),
        capture_at("hub-a", "https://www.example.com/rome/"),
        capture_at("hub-c", "https://www.example.com/rome#later"),
    ];
    let plan = semantic_trail_plan(None, Some(&current), &captures, Some(5));
    assert_eq!(plan.root.title, "Rome");
    assert_eq!(plan.root.host, "example.com");
    assert_eq!(plan.root.excerpt, "The city of Rome.");
    assert_eq!(plan.visible_query, "Rome");
    assert_eq!(plan.embedding_query, "Rome The city of Rome.");
    assert_eq!(plan.limit, 5);
    assert_eq!(plan.root_collection_ids, vec!["hub-a".to_string(), "hub-c".to_string()]);
}
