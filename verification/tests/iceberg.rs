use std::collections::{HashMap, HashSet};

use aether::iceberg::{
    bracketed_array, complete_objects, normalize_iceberg_items, strip_code_fence, IcebergCandidate,
    IcebergPlacement, ICEBERG_LEVEL_COUNT, ICEBERG_MAX_ITEMS_PER_LEVEL,
};
use aether::library::unique_slug;

fn candidate(name: &str, description: &str, score: u32, reason: &str) -> IcebergCandidate {
    IcebergCandidate {
        name: Some(name.to_string()),
        description: Some(description.to_string()),
        score,
        reason: Some(reason.to_string()),
    }
}

fn find<'a>(items: &'a [IcebergPlacement], name: &str) -> &'a IcebergPlacement {
    items.iter().find(|item| item.name == name).expect("item present")
}

#[test]
fn iceberg_normalizer_scores_layers_deterministically() {
    // Rubric scores weighted as the reader does: 5.8 and 89.8.
    let candidates = vec![
        candidate("Public overview", "A familiar entry point.", 58, "Common public vocabulary."),
        candidate(
            "Specialist mechanism",
            "A deep technical mechanism.",
            898,
            "Requires specialist context.",
        ),
    ];
    let items = normalize_iceberg_items(&candidates, Some(12)).expect("valid iceberg items");
    let public = find(&items, "Public overview");
    let specialist = find(&items, "Specialist mechanism");
    assert_eq!(public.level, 1);
    assert_eq!(specialist.level, 5);
    assert!(public.score < specialist.score);
    assert_eq!(specialist.reason.as_deref(), Some("Requires specialist context."));
}

#[test]
fn iceberg_normalizer_allows_variable_counts_above_old_cap() {
    let candidates = (0..30u32)
        .map(|index| {
            let band = index / 6;
            let score = match band {
                0 => 8,
                1 => 28,
                2 => 48,
                3 => 68,
                _ => 88,
            } + (index % 6);
            candidate(&format!("Fragment {index}"), "A generated fragment.", score * 10, "Test scoring.")
        })
        .collect::<Vec<_>>();
    let normalized = normalize_iceberg_items(&candidates, Some(30)).expect("valid iceberg items");
    assert_eq!(normalized.len(), 30);
    assert!(normalized.len() > 25);
    let mut counts = HashMap::<u8, usize>::new();
    for item in normalized {
        *counts.entry(item.level).or_default() += 1;
    }
    assert!(counts.values().all(|count| *count <= ICEBERG_MAX_ITEMS_PER_LEVEL));
}

#[test]
fn iceberg_normalizer_stretches_compressed_scores_across_layers() {
    let candidates = (0..15u32)
        .map(|index| {
            candidate(
                &format!("Compressed fragment {index}"),
                "A generated fragment with conservative scoring.",
                (22 + index) * 10,
                "Test compressed scoring.",
            )
        })
        .collect::<Vec<_>>();
    let normalized = normalize_iceberg_items(&candidates, Some(15)).expect("valid iceberg items");
    let levels = normalized.iter().map(|item| item.level).collect::<HashSet<_>>();
    assert_eq!(levels.len(), ICEBERG_LEVEL_COUNT as usize);
    assert!(normalized.iter().any(|item| item.level == 5 && item.score >= 800));
}

#[test]
fn iceberg_layout_drops_unnamed_and_repeated_topics() {
    let candidates = vec![
        candidate("  Alpha  ", "First.", 100, "r"),
        IcebergCandidate { name: None, description: Some("No name.".to_string()), score: 100, reason: None },
        candidate("Beta", "   ", 100, "r"),
        candidate("alpha", "Same slug as the first.", 900, "r"),
        candidate("Gamma", "Third.", 450, "r"),
    ];
    let items = normalize_iceberg_items(&candidates, None).expect("items");
    let names = items.iter().map(|item| item.name.as_str()).collect::<Vec<_>>();
    assert_eq!(names, vec!["Alpha", "Gamma"]);
    assert_eq!(items[0].id, "1-1-alpha");
    assert_eq!(items[0].source, 0);
    assert_eq!(items[0].lane, 0);
    assert_eq!(items[1].id, "3-1-gamma");
    assert_eq!(items[1].source, 4);
    assert_eq!(items[1].level, 3);
}

#[test]
fn iceberg_layout_orders_by_level_score_then_name_and_numbers_lanes() {
    let candidates = vec![
        candidate("Zed", "d", 150, "r"),
        candidate("Deep", "d", 850, "r"),
        candidate("Able", "d", 150, "r"),
        candidate("Low", "d", 50, "r"),
    ];
    let items = normalize_iceberg_items(&candidates, None).expect("items");
    let names = items.iter().map(|item| item.name.as_str()).collect::<Vec<_>>();
    assert_eq!(names, vec!["Low", "Able", "Zed", "Deep"]);
    let lanes = items.iter().map(|item| item.lane).collect::<Vec<_>>();
    assert_eq!(lanes, vec![0, 1, 2, 0]);
    assert_eq!(items[2].id, "1-3-zed");
    assert_eq!(items[3].id, "5-1-deep");
}

#[test]
fn iceberg_layout_caps_each_level_and_the_total() {
    let candidates = (0..40u32)
        .map(|index| candidate(&format!("Topic {index}"), "d", 100 + index, "r"))
        .collect::<Vec<_>>();
    // All on level 1, and more than five, so they are spread by rank.
    let items = normalize_iceberg_items(&candidates, Some(20)).expect("items");
    assert_eq!(items.len(), 20);
    let mut counts = HashMap::<u8, usize>::new();
    for item in &items {
        *counts.entry(item.level).or_default() += 1;
    }
    assert_eq!(counts.len(), 5);
    assert!(counts.values().all(|count| *count == 4));
}

#[test]
fn iceberg_layout_fails_when_nothing_is_usable() {
    let candidates = vec![candidate("", "d", 10, "r"), candidate("x", "", 10, "r")];
    assert_eq!(
        normalize_iceberg_items(&candidates, None).err().as_deref(),
        Some("Local model did not return any usable iceberg items.")
    );
}

#[test]
fn iceberg_layout_cuts_long_reasons() {
    let long = "x".repeat(300);
    let candidates = vec![candidate("Alpha", "d", 10, &long)];
    let items = normalize_iceberg_items(&candidates, None).expect("items");
    assert_eq!(items[0].reason.as_ref().map(|r| r.chars().count()), Some(220));
}

#[test]
fn iceberg_ids_carry_level_lane_and_name() {
    let candidates = vec![candidate("A b", "d", 10, "r"), candidate("A-b!", "d", 10, "r")];
    // Both names slug to "a-b", so only the first is kept.
    let items = normalize_iceberg_items(&candidates, None).expect("items");
    assert_eq!(items.len(), 1);
    let candidates = vec![candidate("1 x", "d", 10, "r"), candidate("x", "d", 10, "r")];
    let items = normalize_iceberg_items(&candidates, None).expect("items");
    let ids = items.iter().map(|item| item.id.clone()).collect::<Vec<_>>();
    assert_eq!(ids, vec!["1-1-1-x", "1-2-x"]);
}

#[test]
fn unique_slug_appends_the_first_free_number() {
    assert_eq!(unique_slug("My Hub", &[]), "my-hub");
    let taken = vec!["my-hub".to_string(), "my-hub-2".to_string()];
    assert_eq!(unique_slug("My Hub", &taken), "my-hub-3");
    assert_eq!(unique_slug("  ", &[]), "collection");
}

#[test]
fn code_fences_and_whitespace_are_stripped() {
    assert_eq!(strip_code_fence("  ```json\n{\"a\": 1}\n```  "), "{\"a\": 1}");
    assert_eq!(strip_code_fence("```[1]``````"), "[1]");
    assert_eq!(strip_code_fence("plain"), "plain");
}

#[test]
fn bracketed_array_spans_first_to_last_bracket() {
    assert_eq!(bracketed_array("Here: [1, [2]] done").as_deref(), Some("[1, [2]]"));
    assert_eq!(bracketed_array("no array"), None);
    assert_eq!(bracketed_array("][").as_deref(), Some(""));
}

#[test]
fn complete_objects_recovers_the_objects_before_a_cut() {
    let text = r#"{"items": [{"name": "a}"}, {"name": "b", "x": {"y": 1}}, {"name": "c"#;
    let objects = complete_objects(text).expect("array present");
    assert_eq!(objects, vec![r#"{"name": "a}"}"#.to_string(), r#"{"name": "b", "x": {"y": 1}}"#.to_string()]);
    assert_eq!(complete_objects("{}"), None);
    assert_eq!(complete_objects(r#"[{"a": "\"}"}] {"b": 1}"#), Some(vec![r#"{"a": "\"}"}"#.to_string()]));
}

#[test]
fn iceberg_layout_uses_every_level_once_five_topics_are_usable() {
    let names = ["Alpha", "Beta", "Gamma", "Delta", "Epsilon", "Zeta", "Eta"];
    let candidates = names
        .iter()
        .map(|name| candidate(name, "A topic.", 500, "Mid depth."))
        .collect::<Vec<_>>();
    let items = normalize_iceberg_items(&candidates, None).expect("valid iceberg items");
    let levels = items.iter().map(|item| item.level).collect::<HashSet<_>>();
    assert_eq!(levels, (1..=ICEBERG_LEVEL_COUNT).collect::<HashSet<_>>());
    assert_eq!(items.len(), names.len());
}
