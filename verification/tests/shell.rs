use aether::shell::{
    build_iceberg_prompt, container_data_store_id, embedding_query_input, flow_edge_id,
    flow_edge_kind_label, flow_hub_node_id, flow_source_node_id, read_page_snapshot_from_android,
    select_semantic_edges, FlowGraphEdgeKind, SnapshotResponse,
};
use aether::models::ModelFile;

#[test]
fn flow_node_and_edge_ids() {
    assert_eq!(flow_hub_node_id("h1"), "hub-h1");
    assert_eq!(flow_source_node_id("c1"), "source-c1");
    assert_eq!(flow_edge_kind_label(FlowGraphEdgeKind::QueryMatch), "query");
    assert_eq!(flow_edge_id(FlowGraphEdgeKind::Contains, "hub-h1", "source-c1"), "contains-hub-h1-source-c1");
}

#[test]
fn semantic_edges_respect_both_caps() {
    let candidates = [(0, 1), (0, 2), (0, 3), (1, 2), (2, 3)];
    assert_eq!(select_semantic_edges(&candidates, 10, 2), vec![0, 1, 3]);
    assert_eq!(select_semantic_edges(&candidates, 1, 2), vec![0]);
    assert_eq!(select_semantic_edges(&candidates, 10, 0), Vec::<usize>::new());
}

#[test]
fn iceberg_prompt_names_the_topic() {
    let prompt = build_iceberg_prompt("Roman law");
    assert!(prompt.starts_with("Create an iceberg chart for the topic \"Roman law\".\n\nReturn JSON only"));
    assert!(prompt.contains("\"recommendedItemCount\": 24,"));
    assert!(prompt.ends_with("- Do not include markdown, prose, or comments."));
}

#[test]
fn qwen3_queries_carry_an_instruction() {
    let qwen = ModelFile {
        path: "/m/Qwen3-Embedding-0.6B-Q8_0.gguf".to_string(),
        file_name: Some("Qwen3-Embedding-0.6B-Q8_0.gguf".to_string()),
        is_file: true,
    };
    assert_eq!(
        embedding_query_input(Some(&qwen), "rome"),
        "Instruct: Given a web search query, retrieve relevant passages that answer the query\nQuery: rome"
    );
    assert_eq!(embedding_query_input(None, "rome"), "rome");
}

#[test]
fn container_ids_are_stable_per_name() {
    let a = container_data_store_id("Work");
    let b = container_data_store_id("  work ");
    let c = container_data_store_id("home");
    assert_eq!(a, b);
    assert_ne!(a, c);
    assert_eq!(a[6] >> 4, 5);
}

#[test]
fn android_snapshots_must_hold_something() {
    assert!(read_page_snapshot_from_android(&SnapshotResponse { payload: " null ".to_string() }).is_err());
    assert!(read_page_snapshot_from_android(&SnapshotResponse { payload: "".to_string() }).is_err());
    assert_eq!(
        read_page_snapshot_from_android(&SnapshotResponse { payload: " {\"a\":1} ".to_string() }),
        Ok("{\"a\":1}".to_string())
    );
}

#[test]
fn container_ids_are_version_5_rfc4122_uuids() {
    for name in ["Work", "home", ""] {
        let id = container_data_store_id(name);
        assert_eq!(id[6] >> 4, 5);
        assert_eq!(id[8] & 0xC0, 0x80);
    }
}
