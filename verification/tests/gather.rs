use aether::dossier::AirDossierSource;
use aether::air::AirLensKind;
use aether::gather::{
    air_dossier_limit, air_gather_plan, air_visible_lens, hub_sources, iceberg_lens_context,
    merge_flow_sources, search_results_to_air_sources, select_saved_iceberg, AirGatherPlan,
    ChunkText, IcebergTopic, SavedIcebergHeader,
};
use aether::retrieval::{dedupe_citations, SearchResult};
use aether::library::{CaptureMetadata, CaptureSummary, CollectionSummary};

fn header(id: &str, title: &str) -> SavedIcebergHeader {
    SavedIcebergHeader { id: id.to_string(), title: title.to_string() }
}

#[test]
fn saved_iceberg_is_chosen_by_id_then_title_then_first() {
    let headers = vec![header("a", "Rust"), header("b", "Quantum Computing"), header("c", "quantum computing")];
    assert_eq!(select_saved_iceberg(&headers, Some("c"), "Rust"), Some(2));
    assert_eq!(select_saved_iceberg(&headers, Some("zzz"), "QUANTUM computing"), Some(1));
    assert_eq!(select_saved_iceberg(&headers, None, "nothing"), Some(0));
    assert_eq!(select_saved_iceberg(&[], None, "nothing"), None);
}

fn topic(id: &str, name: &str, level: u8) -> IcebergTopic {
    IcebergTopic {
        id: id.to_string(),
        name: name.to_string(),
        description: format!("About {name}."),
        level,
    }
}

#[test]
fn iceberg_context_lists_topics_by_level_then_name() {
    let topics = vec![topic("t1", "zeta", 2), topic("t2", "Beta", 1), topic("t3", "alpha", 2)];
    let (sources, map) = iceberg_lens_context(&topics, "Chart", "2026-03-01", 2);
    assert_eq!(sources.len(), 2);
    assert_eq!(sources[0].id, "iceberg-t2");
    assert_eq!(sources[0].title, "Beta");
    assert_eq!(sources[0].excerpt, "Level 1: About Beta.");
    assert_eq!(sources[0].collection_name.as_deref(), Some("iCE · Chart"));
    assert_eq!(sources[0].captured_at.as_deref(), Some("2026-03-01"));
    assert_eq!(sources[0].url, None);
    assert_eq!(sources[1].id, "iceberg-t3");
    assert_eq!(
        map,
        "- Level 1 · Beta: About Beta.\n- Level 2 · alpha: About alpha.\n- Level 2 · zeta: About zeta."
    );
}

fn hub(id: &str, name: &str) -> CollectionSummary {
    CollectionSummary {
        id: id.to_string(),
        name: name.to_string(),
        description: String::new(),
        icon: None,
        created_at: String::new(),
        updated_at: String::new(),
        capture_count: 0,
        chunk_count: 0,
    }
}

fn capture(id: &str, hub_id: &str, at: &str, summary: Option<&str>) -> CaptureSummary {
    CaptureSummary {
        id: id.to_string(),
        collection_id: hub_id.to_string(),
        title: format!("Title {id}"),
        url: format!("https://www.{id}.example/page"),
        app_id: "browser".to_string(),
        captured_at: at.to_string(),
        chunk_count: 1,
        metadata: summary.map(|s| CaptureMetadata { note: None, summary: Some(s.to_string()), tags: None }),
    }
}

fn chunk(capture_id: &str, text: &str) -> ChunkText {
    ChunkText { capture_id: capture_id.to_string(), text: text.to_string() }
}

#[test]
fn hub_sources_are_the_newest_captures_with_their_longest_chunk() {
    let collections = vec![hub("h1", "Research"), hub("h2", "Other")];
    let captures = vec![
        capture("old", "h1", "2026-01-01", Some("Old summary")),
        capture("new", "h1", "2026-03-01", None),
        capture("elsewhere", "h2", "2026-04-01", None),
        capture("mid", "h1", "2026-02-01", Some("Mid summary")),
    ];
    let chunks = vec![
        chunk("new", "short"),
        chunk("new", "the longest text"),
        chunk("new", "same length text"),
        chunk("old", "ignored"),
    ];
    let sources = hub_sources(&captures, &chunks, &collections, Some("h1"), 2);
    let ids = sources.iter().map(|s| s.id.as_str()).collect::<Vec<_>>();
    assert_eq!(ids, vec!["new", "mid"]);
    assert_eq!(sources[0].excerpt, "same length text");
    assert_eq!(sources[0].collection_name.as_deref(), Some("Research"));
    assert_eq!(sources[0].host.as_deref(), Some("new.example"));
    assert_eq!(sources[1].excerpt, "Mid summary");
    let all = hub_sources(&captures, &chunks, &collections, None, 10);
    assert_eq!(all[0].id, "elsewhere");
    assert_eq!(all[0].excerpt, "");
    assert_eq!(all.len(), 4);
}

fn source(id: &str) -> AirDossierSource {
    AirDossierSource {
        id: id.to_string(),
        title: id.to_string(),
        excerpt: String::new(),
        collection_name: None,
        url: None,
        host: None,
        captured_at: None,
        score_text: None,
    }
}

#[test]
fn flow_sources_add_new_related_sources_up_to_the_limit() {
    let own = vec![source("a")];
    let related = vec![source("a"), source("b"), source("c"), source("d")];
    let merged = merge_flow_sources(own, related, 3);
    let ids = merged.iter().map(|s| s.id.as_str()).collect::<Vec<_>>();
    assert_eq!(ids, vec!["a", "b", "c"]);
    let merged = merge_flow_sources(vec![source("a"), source("b")], vec![source("c")], 1);
    assert_eq!(merged.len(), 2);
}

#[test]
fn blank_lenses_take_the_standing_name_of_their_kind() {
    assert_eq!(air_visible_lens("  ", AirLensKind::Topic), "Local knowledge");
    assert_eq!(air_visible_lens("", AirLensKind::Flow), "Current Flow lens");
    assert_eq!(air_visible_lens("", AirLensKind::Hub), "Selected knowledge hub");
    assert_eq!(air_visible_lens("\n", AirLensKind::Answer), "Latest AiON answer");
    assert_eq!(air_visible_lens("", AirLensKind::Iceberg), "Saved iCE map");
    assert_eq!(air_visible_lens("  rust async  ", AirLensKind::Topic), "rust async");
}

#[test]
fn dossier_limits_default_to_twelve_within_one_and_twenty_four() {
    assert_eq!(air_dossier_limit(None), 12);
    assert_eq!(air_dossier_limit(Some(0)), 1);
    assert_eq!(air_dossier_limit(Some(5)), 5);
    assert_eq!(air_dossier_limit(Some(99)), 24);
}

#[test]
fn lens_kinds_pick_where_sources_come_from() {
    assert!(matches!(air_gather_plan(AirLensKind::Answer, false, None, None), AirGatherPlan::Nothing));
    assert!(matches!(air_gather_plan(AirLensKind::Answer, true, None, None), AirGatherPlan::AnswerCitations));
    assert!(matches!(air_gather_plan(AirLensKind::Iceberg, false, None, None), AirGatherPlan::SavedIceberg));
    assert!(matches!(air_gather_plan(AirLensKind::Topic, false, Some("h"), Some("c")), AirGatherPlan::Topic));
    match air_gather_plan(AirLensKind::Hub, false, None, Some("c")) {
        AirGatherPlan::Hub { collection_id } => assert_eq!(collection_id, None),
        _ => panic!("a hub lens reads a hub"),
    }
    match air_gather_plan(AirLensKind::Flow, false, Some("h"), Some("c")) {
        AirGatherPlan::Hub { collection_id } => assert_eq!(collection_id.as_deref(), Some("h")),
        _ => panic!("a Flow lens on a hub reads that hub"),
    }
    match air_gather_plan(AirLensKind::Flow, false, None, Some("c")) {
        AirGatherPlan::Flow { capture_id } => assert_eq!(capture_id.as_deref(), Some("c")),
        _ => panic!("a Flow lens without a hub reads its capture"),
    }
}

fn cited(id: &str, url: &str, text: &str) -> SearchResult<f64> {
    SearchResult {
        id: id.to_string(),
        collection_id: "hub-1".to_string(),
        capture_id: format!("capture-{id}"),
        app_id: "browser".to_string(),
        title: format!("Title {id}"),
        url: url.to_string(),
        captured_at: "2026-07-01T00:00:00Z".to_string(),
        chunk_index: 0,
        text: text.to_string(),
        score: 0.3,
    }
}

#[test]
fn answer_citations_become_dossier_sources() {
    let merged = dedupe_citations(vec![
        cited("a", "https://a.com/x#one", "First   passage."),
        cited("b", "https://b.com/", "Other page."),
        cited("c", "https://a.com/x#two", "Second passage."),
    ]);
    assert_eq!(merged.len(), 2);
    let scores = vec!["75.0".to_string(), "60.5".to_string()];
    let sources = search_results_to_air_sources(&merged, &scores, &[hub("hub-1", "Research")], 1);
    assert_eq!(sources.len(), 1);
    assert_eq!(sources[0].id, "capture-a");
    assert_eq!(sources[0].title, "Title a");
    assert_eq!(sources[0].excerpt, "First passage. […] Second passage.");
    assert_eq!(sources[0].collection_name.as_deref(), Some("Research"));
    assert_eq!(sources[0].url.as_deref(), Some("https://a.com/x#one"));
    assert_eq!(sources[0].host.as_deref(), Some("a.com"));
    assert_eq!(sources[0].score_text.as_deref(), Some("75.0"));
    let all = search_results_to_air_sources(&merged, &scores, &[], 10);
    assert_eq!(all.len(), 2);
    assert_eq!(all[1].collection_name, None);
    assert_eq!(all[1].score_text.as_deref(), Some("60.5"));
}
