use aether::flow::{
    build_flow_graph, flow_source_limit, indexed_source_count, pick_flow_sources, FlowGraphNodeKind,
};
use aether::gather::ChunkText;
use aether::library::{CaptureSummary, CollectionSummary};
use aether::shell::FlowGraphEdgeKind;

fn hub(id: &str, name: &str, captures: usize, chunks: usize) -> CollectionSummary {
    CollectionSummary {
        id: id.to_string(),
        name: name.to_string(),
        description: if id == "h1" { "Notes on physics".to_string() } else { String::new() },
        icon: None,
        created_at: String::new(),
        updated_at: "2026-05-01".to_string(),
        capture_count: captures,
        chunk_count: chunks,
    }
}

fn capture(id: &str, hub_id: &str, at: &str, chunks: usize) -> CaptureSummary {
    CaptureSummary {
        id: id.to_string(),
        collection_id: hub_id.to_string(),
        title: format!("Title {id}"),
        url: format!("https://{id}.example/"),
        app_id: "browser".to_string(),
        captured_at: at.to_string(),
        chunk_count: chunks,
        metadata: None,
    }
}

#[test]
fn flow_source_limit_defaults_and_clamps() {
    assert_eq!(flow_source_limit(None), 96);
    assert_eq!(flow_source_limit(Some(0)), 1);
    assert_eq!(flow_source_limit(Some(500)), 180);
    assert_eq!(flow_source_limit(Some(12)), 12);
}

#[test]
fn flow_sources_are_the_newest_drawable_captures() {
    let captures = vec![
        capture("a", "h1", "2026-01-01", 1),
        capture("b", "h1", "2026-03-01", 1),
        capture("c", "h1", "2026-02-01", 0),
        capture("d", "h2", "2026-04-01", 1),
    ];
    let usable = vec![true, true, false, true];
    assert_eq!(pick_flow_sources(&captures, &usable, 2), vec![3, 1]);
    assert_eq!(pick_flow_sources(&captures, &usable, 10), vec![3, 1, 0]);
    assert_eq!(indexed_source_count(&[true, true, false, true]), 3);
}

#[test]
fn flow_graph_draws_hubs_sources_and_their_links() {
    let collections = vec![hub("h1", "Physics", 2, 5), hub("h2", "Misc", 20, 40)];
    let captures = vec![
        capture("a", "h1", "2026-01-01", 3),
        capture("b", "h1", "2026-03-01", 30),
        capture("c", "h2", "2026-02-01", 1),
    ];
    let chunks = vec![
        ChunkText { capture_id: "a".to_string(), text: "alpha text".to_string() },
        ChunkText { capture_id: "b".to_string(), text: "beta".to_string() },
    ];
    let positions = vec![1, 2, 0];
    let scores = vec![800, 300, 500];
    let pairs = vec![(0, 1, 430), (0, 2, 900), (1, 2, 100)];
    let graph = build_flow_graph("  wave ", &collections, &captures, &positions, 4, &chunks, &scores, &pairs);

    assert_eq!(graph.query, "wave");
    assert_eq!(graph.hub_count, 2);
    assert_eq!(graph.source_count, 3);
    assert_eq!(graph.omitted_source_count, 1);

    let ids = graph.nodes.iter().map(|n| n.id.as_str()).collect::<Vec<_>>();
    assert_eq!(ids, vec!["query", "hub-h1", "hub-h2", "source-b", "source-c", "source-a"]);
    assert_eq!(graph.nodes[0].kind, FlowGraphNodeKind::Query);
    assert_eq!(graph.nodes[0].weight, 720);
    assert_eq!(graph.nodes[1].subtitle, "2 sources · 5 chunks");
    assert_eq!(graph.nodes[1].weight, 560);
    assert_eq!(graph.nodes[1].excerpt.as_deref(), Some("Notes on physics"));
    assert_eq!(graph.nodes[2].weight, 920);
    assert_eq!(graph.nodes[2].excerpt, None);
    assert_eq!(graph.nodes[3].subtitle, "Physics");
    assert_eq!(graph.nodes[3].weight, 580);
    assert_eq!(graph.nodes[3].score, Some(800));
    assert_eq!(graph.nodes[3].excerpt.as_deref(), Some("beta"));
    assert_eq!(graph.nodes[4].excerpt, None);
    assert_eq!(graph.nodes[5].weight, 300);
    assert_eq!(graph.nodes[5].host.as_deref(), Some("a.example"));

    let edges = graph
        .edges
        .iter()
        .map(|e| (e.id.as_str(), e.kind, e.weight))
        .collect::<Vec<_>>();
    assert_eq!(
        edges,
        vec![
            ("contains-hub-h1-source-b", FlowGraphEdgeKind::Contains, 360),
            ("contains-hub-h2-source-c", FlowGraphEdgeKind::Contains, 360),
            ("contains-hub-h1-source-a", FlowGraphEdgeKind::Contains, 360),
            ("query-query-source-b", FlowGraphEdgeKind::QueryMatch, 800),
            ("query-query-source-a", FlowGraphEdgeKind::QueryMatch, 500),
            ("semantic-source-b-source-a", FlowGraphEdgeKind::Semantic, 900),
            ("semantic-source-b-source-c", FlowGraphEdgeKind::Semantic, 430),
        ]
    );
}

#[test]
fn flow_graph_without_a_query_has_no_query_node_or_scores() {
    let collections = vec![hub("h1", "Physics", 1, 1)];
    let captures = vec![capture("a", "h9", "2026-01-01", 1)];
    let graph = build_flow_graph("   ", &collections, &captures, &[0], 1, &[], &[999], &[]);
    assert_eq!(graph.nodes.len(), 2);
    assert_eq!(graph.nodes[1].score, None);
    assert_eq!(graph.nodes[1].subtitle, "Knowledge Hub");
    assert_eq!(graph.edges.len(), 1);
    assert_eq!(graph.omitted_source_count, 0);
}

#[test]
fn flow_graph_limits_similarity_links_per_source() {
    let captures = (0..6)
        .map(|i| capture(&format!("s{i}"), "h1", "2026-01-01", 1))
        .collect::<Vec<_>>();
    let positions = (0..6).collect::<Vec<_>>();
    let mut pairs = Vec::new();
    for left in 0..6 {
        for right in (left + 1)..6 {
            pairs.push((left, right, 900));
        }
    }
    let graph = build_flow_graph("", &[], &captures, &positions, 6, &[], &[0; 6], &pairs);
    let mut degree = [0usize; 6];
    for edge in graph.edges.iter().filter(|e| e.kind == FlowGraphEdgeKind::Semantic) {
        let from: usize = edge.from.trim_start_matches("source-s").parse().unwrap();
        let to: usize = edge.to.trim_start_matches("source-s").parse().unwrap();
        degree[from] += 1;
        degree[to] += 1;
    }
    assert!(degree.iter().all(|d| *d <= 3));
    assert_eq!(graph.edges.iter().filter(|e| e.kind == FlowGraphEdgeKind::Semantic).count(), 7);
}
