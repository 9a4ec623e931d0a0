use std::collections::HashSet;

use aether::library::{split_text, CollectionSummary};
use aether::retrieval::{
    current_page_search_result, dedupe_citations, literal_match_score, rank_library_hits,
    search_result_to_air_source, LibrarySearchHit, SearchChunk, SearchResult,
};

fn chunk_for_search(capture_id: &str, title: &str, url: &str, text: &str) -> SearchChunk {
    SearchChunk {
        capture_id: capture_id.to_string(),
        collection_id: "hub".to_string(),
        title: title.to_string(),
        url: url.to_string(),
        captured_at: "2026-07-01T00:00:00Z".to_string(),
        text: text.to_string(),
    }
}

#[test]
fn literal_search_ranks_title_matches_above_body_matches() {
    let titled = chunk_for_search("a", "Quantum mechanics", "https://example.com/a", "unrelated");
    let mentioned = chunk_for_search("b", "Cooking basics", "https://example.com/b", "quantum mechanics");
    let titled_score = literal_match_score("quantum mechanics", &titled);
    let mentioned_score = literal_match_score("quantum mechanics", &mentioned);
    assert!(titled_score > mentioned_score);
    assert!(mentioned_score > 0, "body matches should still be findable");
}

#[test]
fn literal_search_matches_hosts_and_ignores_misses() {
    let chunk = chunk_for_search("a", "Augustus", "https://en.wikipedia.org/wiki/x", "body");
    assert!(literal_match_score("wikipedia", &chunk) > 0);
    assert_eq!(literal_match_score("nonexistent-term", &chunk), 0);
    assert_eq!(literal_match_score("", &chunk), 0);
}

#[test]
fn literal_search_is_case_insensitive_and_capped() {
    let chunk = chunk_for_search("a", "Augustus", "https://augustus.example", "augustus");
    // Title + url + body all match; the score stays a valid percentage (100.0).
    assert_eq!(literal_match_score("augustus", &chunk), 1000);
}

#[test]
fn literal_scores_weigh_title_url_and_body() {
    let chunk = chunk_for_search("a", "Rust Book", "https://doc.rust-lang.org/", "A language.");
    assert_eq!(literal_match_score("rust", &chunk), 900);
    assert_eq!(literal_match_score("language", &chunk), 250);
}

const EVAL_DIM: usize = 512;

fn eval_embed(text: &str) -> Vec<f32> {
    let mut vector = vec![0.0_f32; EVAL_DIM];
    for word in text.to_lowercase().split(|c: char| !c.is_alphanumeric()) {
        if word.len() < 3 {
            continue;
        }
        let mut hash = 2166136261_u32;
        for byte in word.bytes() {
            hash ^= byte as u32;
            hash = hash.wrapping_mul(16777619);
        }
        vector[(hash as usize) % EVAL_DIM] += 1.0;
    }
    let norm = vector.iter().map(|v| v * v).sum::<f32>().sqrt();
    if norm > 0.0 {
        for value in &mut vector {
            *value /= norm;
        }
    }
    vector
}

fn cosine_distance(left: &[f32], right: &[f32]) -> f64 {
    if left.is_empty() || left.len() != right.len() {
        return f64::INFINITY;
    }
    let mut dot = 0.0_f64;
    let mut left_norm = 0.0_f64;
    let mut right_norm = 0.0_f64;
    for (left, right) in left.iter().zip(right.iter()) {
        let left = *left as f64;
        let right = *right as f64;
        dot += left * right;
        left_norm += left * left;
        right_norm += right * right;
    }
    if left_norm == 0.0 || right_norm == 0.0 {
        f64::INFINITY
    } else {
        1.0 - dot / (left_norm.sqrt() * right_norm.sqrt())
    }
}

/// The semantic match score of a distance, in tenths.
fn semantic_tenths(distance: f64) -> u32 {
    if !distance.is_finite() {
        return 0;
    }
    ((1.0 - (distance / 1.2)).clamp(0.0, 1.0) * 1000.0).round() as u32
}

struct EvalDoc {
    capture_id: &'static str,
    title: &'static str,
    url: &'static str,
    body: &'static str,
}

fn eval_corpus() -> Vec<EvalDoc> {
    vec![
        EvalDoc {
            capture_id: "quantum",
            title: "Quantum mechanics",
            url: "https://en.wikipedia.org/wiki/Quantum_mechanics",
            body: "Quantum mechanics describes matter and light at atomic scale. Max Planck solved the black-body radiation problem in 1900. Niels Bohr, Erwin Schrodinger and Werner Heisenberg developed the theory during the mid 1920s. The wave function encodes probability amplitudes for a particle.",
        },
        EvalDoc {
            capture_id: "photosynthesis",
            title: "Photosynthesis",
            url: "https://en.wikipedia.org/wiki/Photosynthesis",
            body: "Photosynthesis converts light energy into chemical energy inside chloroplasts. Plants absorb carbon dioxide and water, releasing oxygen. Chlorophyll captures photons that drive the light dependent reactions producing glucose.",
        },
        EvalDoc {
            capture_id: "roman-empire",
            title: "Augustus and the Roman Empire",
            url: "https://en.wikipedia.org/wiki/Augustus",
            body: "Augustus founded the Roman Empire and became its first emperor in 27 BC. Julius Caesar named Octavian as his heir. The principate established an era of imperial peace known as the Pax Romana across the Roman world.",
        },
        EvalDoc {
            capture_id: "rust-ownership",
            title: "Ownership in Rust",
            url: "https://doc.rust-lang.org/book/ch04-01-what-is-ownership.html",
            body: "Ownership governs how a Rust program manages heap memory. Each value has a single owner, and the value is dropped when the owner goes out of scope. Borrowing lends a reference without transferring ownership, and the borrow checker rejects dangling references at compile time.",
        },
    ]
}

struct EvalStore {
    chunks: Vec<SearchChunk>,
    vectors: Vec<Vec<f32>>,
    hubs: Vec<CollectionSummary>,
}

fn eval_store() -> EvalStore {
    let mut chunks = Vec::new();
    let mut vectors = Vec::new();
    for doc in eval_corpus() {
        let texts = split_text(doc.body, 220, 40);
        assert!(!texts.is_empty(), "fixture {} produced no chunks", doc.capture_id);
        for (index, text) in texts.into_iter().enumerate() {
            vectors.push(eval_embed(&text));
            chunks.push(SearchChunk {
                capture_id: doc.capture_id.to_string(),
                collection_id: "hub-eval".to_string(),
                title: doc.title.to_string(),
                url: doc.url.to_string(),
                captured_at: format!("2026-07-{:02}T00:00:00Z", 10 + index),
                text,
            });
        }
    }
    let hubs = vec![CollectionSummary {
        id: "hub-eval".to_string(),
        name: "Eval hub".to_string(),
        description: String::new(),
        icon: None,
        created_at: String::new(),
        updated_at: String::new(),
        capture_count: 4,
        chunk_count: chunks.len(),
    }];
    EvalStore { chunks, vectors, hubs }
}

fn rank(store: &EvalStore, question: &str, scope: Option<&str>, limit: usize) -> (Vec<LibrarySearchHit>, usize) {
    let query = eval_embed(question);
    let scores = store
        .vectors
        .iter()
        .map(|vector| semantic_tenths(cosine_distance(&query, vector)))
        .collect::<Vec<_>>();
    rank_library_hits(&store.chunks, &scores, &store.hubs, scope, limit)
}

fn eval_top_ids(store: &EvalStore, question: &str, take: usize) -> Vec<String> {
    rank(store, question, None, 20).0.into_iter().take(take).map(|hit| hit.capture_id).collect()
}

#[test]
fn retrieval_eval_ranks_the_expected_source_in_the_top_three() {
    let store = eval_store();
    let cases = [
        ("When did quantum mechanics develop?", "quantum"),
        ("Who was the first Roman emperor?", "roman-empire"),
        ("How do plants turn light into chemical energy?", "photosynthesis"),
        ("What happens when a value's owner goes out of scope?", "rust-ownership"),
        ("black-body radiation problem", "quantum"),
        ("chlorophyll photons glucose", "photosynthesis"),
        ("borrow checker dangling references", "rust-ownership"),
        ("Pax Romana imperial peace", "roman-empire"),
    ];
    let mut failures = Vec::new();
    for (question, expected) in cases {
        let top = eval_top_ids(&store, question, 3);
        if !top.iter().any(|id| id == expected) {
            failures.push(format!("{question:?} expected {expected}, got {top:?}"));
        }
    }
    assert!(failures.is_empty(), "retrieval regressions:\n{}", failures.join("\n"));
}

#[test]
fn retrieval_eval_ranks_the_expected_source_first_for_distinctive_terms() {
    let store = eval_store();
    for (question, expected) in [
        ("Schrodinger Heisenberg wave function", "quantum"),
        ("chloroplasts carbon dioxide oxygen", "photosynthesis"),
        ("Octavian Julius Caesar principate", "roman-empire"),
        ("ownership borrowing heap memory", "rust-ownership"),
    ] {
        let top = eval_top_ids(&store, question, 1);
        assert_eq!(top, vec![expected.to_string()], "for query {question:?}");
    }
}

#[test]
fn retrieval_eval_returns_one_row_per_source() {
    let store = eval_store();
    let (hits, examined) = rank(&store, "quantum mechanics wave function", None, 20);
    assert_eq!(examined, store.chunks.len(), "every chunk should be scored");
    let mut ids = hits.iter().map(|hit| hit.capture_id.clone()).collect::<Vec<_>>();
    ids.sort();
    let unique = ids.iter().collect::<HashSet<_>>().len();
    assert_eq!(ids.len(), unique, "a source must not appear twice: {ids:?}");
    assert!(hits.len() <= eval_corpus().len());
    let quantum = hits.iter().find(|hit| hit.capture_id == "quantum").expect("quantum hit");
    assert!(quantum.chunk_matches >= 1);
    assert_eq!(quantum.collection_name, "Eval hub");
    assert_eq!(quantum.host, "en.wikipedia.org");
}

#[test]
fn retrieval_eval_respects_hub_scope_and_limit() {
    let store = eval_store();
    let question = "quantum photosynthesis Augustus ownership";
    let (limited, _) = rank(&store, question, None, 2);
    assert_eq!(limited.len(), 2, "limit must cap the result set");
    let (other_hub, examined) = rank(&store, question, Some("hub-missing"), 20);
    assert!(other_hub.is_empty(), "scoping to another hub must exclude everything");
    assert_eq!(examined, 0);
}

#[test]
fn retrieval_eval_ordering_is_stable_across_runs() {
    let store = eval_store();
    let first = rank(&store, "energy", None, 20).0;
    for _ in 0..5 {
        let again = rank(&store, "energy", None, 20).0;
        assert_eq!(
            first.iter().map(|h| &h.capture_id).collect::<Vec<_>>(),
            again.iter().map(|h| &h.capture_id).collect::<Vec<_>>()
        );
    }
}

#[test]
fn search_rows_keep_the_best_passage_and_count_matches() {
    let chunks = vec![
        chunk_for_search("a", "A", "https://a.example/", "first passage"),
        chunk_for_search("b", "B", "https://b.example/", "other source"),
        chunk_for_search("a", "A", "https://a.example/", "better passage"),
        chunk_for_search("a", "A", "https://a.example/", "weaker passage"),
    ];
    let scores = vec![400, 500, 900, 100];
    let (hits, examined) = rank_library_hits(&chunks, &scores, &[], None, 10);
    assert_eq!(examined, 4);
    assert_eq!(hits.len(), 2);
    assert_eq!(hits[0].capture_id, "a");
    assert_eq!(hits[0].score, 900);
    assert_eq!(hits[0].excerpt, "better passage");
    assert_eq!(hits[0].chunk_matches, 3);
    assert_eq!(hits[0].collection_name, "Unknown hub");
    assert_eq!(hits[1].capture_id, "b");
}

#[test]
fn search_ties_go_to_the_newer_capture_then_the_capture_id() {
    let mut older = chunk_for_search("x", "X", "https://x.example/", "t");
    older.captured_at = "2026-01-01".to_string();
    let newer = chunk_for_search("y", "Y", "https://y.example/", "t");
    let same_time = chunk_for_search("w", "W", "https://w.example/", "t");
    let zero = chunk_for_search("z", "Z", "https://z.example/", "t");
    let (hits, _) = rank_library_hits(&[older, newer, same_time, zero], &[500, 500, 500, 0], &[], None, 10);
    let ids = hits.iter().map(|h| h.capture_id.as_str()).collect::<Vec<_>>();
    assert_eq!(ids, vec!["w", "y", "x"]);
}

fn search_result(id: &str, url: &str, text: &str, score: f64) -> SearchResult<f64> {
    SearchResult {
        id: id.to_string(),
        collection_id: "hub-1".to_string(),
        capture_id: format!("capture-{id}"),
        app_id: "browser".to_string(),
        title: format!("Title {id}"),
        url: url.to_string(),
        captured_at: "2026-07-01T00:00:00Z".to_string(),
        chunk_index: 0,
        text: text.to_string(),
        score,
    }
}

#[test]
fn citations_of_one_page_merge_into_one() {
    let merged = dedupe_citations(vec![
        search_result("1", "https://example.com/a#intro", "First passage.", 0.4),
        search_result("2", "https://example.com/b", "Other page.", 0.3),
        search_result("3", "https://example.com/a#details", "Second passage.", 0.2),
        search_result("4", "https://example.com/a", "First passage.", 0.1),
    ]);
    assert_eq!(merged.len(), 2);
    assert_eq!(merged[0].citation.id, "1");
    assert_eq!(merged[0].citation.text, "First passage.\n\n[…]\n\nSecond passage.");
    assert_eq!(merged[0].merged, vec![0, 2, 3]);
    assert_eq!(merged[1].merged, vec![1]);
    let best = merged[0].merged.iter().map(|i| [0.4, 0.3, 0.2, 0.1][*i]).fold(f64::INFINITY, f64::min);
    assert_eq!(best, 0.1);
}

#[test]
fn merged_citation_text_is_capped() {
    let long = "x".repeat(8000);
    let other = "y".repeat(3000);
    let merged = dedupe_citations(vec![
        search_result("1", "https://example.com/a", &long, 0.0),
        search_result("2", "https://example.com/a", &other, 0.0),
    ]);
    assert_eq!(merged[0].citation.text.chars().count(), 9000);
}

#[test]
fn citations_become_dossier_sources() {
    let hubs = vec![CollectionSummary {
        id: "hub-1".to_string(),
        name: "Research".to_string(),
        description: String::new(),
        icon: None,
        created_at: String::new(),
        updated_at: String::new(),
        capture_count: 0,
        chunk_count: 0,
    }];
    let source = search_result_to_air_source(&search_result("1", "https://www.example.com/a", "Body.", 0.2), &hubs);
    assert_eq!(source.id, "capture-1");
    assert_eq!(source.excerpt, "Body.");
    assert_eq!(source.collection_name.as_deref(), Some("Research"));
    assert_eq!(source.host.as_deref(), Some("example.com"));
    assert_eq!(source.score_text, None);
}

#[test]
fn the_current_page_is_cited_like_a_stored_source() {
    let page = aether::extract::CapturedPage {
        title: "Page".to_string(),
        url: "https://example.com/".to_string(),
        text: "Text".to_string(),
        provenance: aether::extract::CaptureProvenance {
            receipt_version: 1,
            extractor_version: "x".to_string(),
            requested_url: None,
            canonical_url: None,
            author: None,
            published_at: None,
            site_name: None,
            language: None,
            content_hash: String::new(),
            extraction_method: aether::extract::ExtractionMethod::LiveDom,
            content_scope: aether::extract::CaptureScope::Page,
            content_selector: String::new(),
            word_count: 0,
            fallback_reason: None,
            selection_context_before: None,
            selection_context_after: None,
        },
    };
    let result = current_page_search_result(&page, None, 2, 0.5, "chunk".to_string(), "2026-07-01");
    assert!(result.id.starts_with("current-"));
    assert!(result.id.len() > "current-".len());
    assert_eq!(result.collection_id, "current-page");
    assert_eq!(result.capture_id, "current-page");
    assert_eq!(result.chunk_index, 2);
    let scoped = current_page_search_result(&page, Some("hub-1"), 0, 0.5, "chunk".to_string(), "now");
    assert_eq!(scoped.collection_id, "hub-1");
}
