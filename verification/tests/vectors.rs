use aether::vectors::{
    majority_vector_dim, migrated_vector_store, ChunkRecord, LegacyChunkRecord, VectorStoreData,
    VECTOR_COMPACTION_MIN_SLOTS, VECTOR_STORE_VERSION,
};

fn uuid() -> String {
    uuid::Uuid::new_v4().to_string()
}

fn vector_chunk(capture_id: &str, vector: Vec<f32>) -> ChunkRecord<f32> {
    ChunkRecord {
        id: uuid(),
        vector,
        vector_slot: 0,
        needs_reembed: false,
        text: format!("text for {capture_id}"),
        collection_id: "hub-1".to_string(),
        capture_id: capture_id.to_string(),
        title: format!("Title {capture_id}"),
        url: format!("https://example.com/{capture_id}"),
        app_id: "browser".to_string(),
        captured_at: "2026-07-01T00:00:00Z".to_string(),
        chunk_index: 0,
    }
}

// A width the store cannot hold must cost the vector, never the text.
#[test]
fn vector_store_parks_mismatched_chunks_instead_of_discarding_them() {
    let mut store = VectorStoreData::empty();
    store.push_chunks(vec![
        vector_chunk("a", vec![1.0, 2.0, 3.0, 4.0]),
        vector_chunk("b", vec![1.0, 2.0]),
        vector_chunk("c", vec![]),
    ]);

    assert_eq!(store.dim, 4);
    assert_eq!(store.chunks.len(), 3, "no chunk is thrown away");
    assert_eq!(store.embedded_count(), 1);
    assert_eq!(store.pending_reembed_count(), 2);
    assert_eq!(store.next_slot, 1, "only embedded chunks consume slots");

    for chunk in store.chunks.iter().filter(|chunk| chunk.needs_reembed) {
        assert!(chunk.vector.is_empty(), "parked chunks hold no vector");
        assert!(!chunk.text.is_empty(), "parked chunks keep their text");
    }
}

#[test]
fn majority_width_breaks_ties_toward_the_wider_vector() {
    let chunk = |vector: Vec<f32>| LegacyChunkRecord {
        id: uuid(),
        vector,
        text: String::new(),
        collection_id: String::new(),
        capture_id: String::new(),
        title: String::new(),
        url: String::new(),
        app_id: String::new(),
        captured_at: String::new(),
        chunk_index: 0,
    };

    assert_eq!(majority_vector_dim::<f32>(&[]), 0);
    assert_eq!(majority_vector_dim(&[chunk(vec![]), chunk(vec![])]), 0);
    // One each: the wider vector wins, since newer models are wider in practice.
    assert_eq!(majority_vector_dim(&[chunk(vec![0.0; 2]), chunk(vec![0.0; 8])]), 8);
    // Count beats width.
    assert_eq!(
        majority_vector_dim(&[chunk(vec![0.0; 2]), chunk(vec![0.0; 2]), chunk(vec![0.0; 8])]),
        2
    );
}

#[test]
fn pushed_vectors_take_consecutive_slots() {
    let mut store = VectorStoreData::empty();
    store.push_chunks(vec![vector_chunk("a", vec![1.0, 2.0]), vector_chunk("b", vec![3.0, 4.0])]);
    store.push_chunks(vec![vector_chunk("c", vec![5.0]), vector_chunk("d", vec![6.0, 7.0])]);
    let slots = store
        .chunks
        .iter()
        .map(|chunk| (chunk.capture_id.as_str(), chunk.needs_reembed, chunk.vector_slot))
        .collect::<Vec<_>>();
    assert_eq!(slots, vec![("a", false, 0), ("b", false, 1), ("c", true, 0), ("d", false, 2)]);
    assert_eq!(store.next_slot, 3);
    assert_eq!(store.version, VECTOR_STORE_VERSION);
}

#[test]
fn compaction_renumbers_embedded_chunks_and_keeps_parked_ones() {
    let mut store = VectorStoreData::empty();
    store.push_chunks((0..6).map(|index| vector_chunk(&format!("c{index}"), vec![index as f32, 0.0])).collect());
    store.push_chunks(vec![vector_chunk("parked", vec![1.0])]);
    // Delete some chunks, leaving dead slots, and shuffle the order.
    store.chunks.retain(|chunk| chunk.needs_reembed || chunk.vector_slot % 2 == 1);
    store.chunks.reverse();
    assert_eq!(store.next_slot, 6);
    store.compact();
    let order = store
        .chunks
        .iter()
        .map(|chunk| (chunk.capture_id.as_str(), chunk.needs_reembed, chunk.vector_slot))
        .collect::<Vec<_>>();
    assert_eq!(order, vec![("c1", false, 0), ("c3", false, 1), ("c5", false, 2), ("parked", true, 0)]);
    assert_eq!(store.next_slot, 3);
    // Vectors stay with their text.
    assert_eq!(store.chunks[1].vector, vec![3.0, 0.0]);
}

#[test]
fn compaction_waits_for_enough_dead_slots() {
    let mut store = VectorStoreData::empty();
    let total = VECTOR_COMPACTION_MIN_SLOTS as usize + 8;
    store.push_chunks((0..total).map(|index| vector_chunk(&format!("c{index}"), vec![index as f32])).collect());
    assert!(!store.needs_compaction());
    store.chunks.retain(|chunk| chunk.vector_slot % 8 == 0);
    assert!(store.needs_compaction());

    let mut small = VectorStoreData::empty();
    small.push_chunks((0..10).map(|index| vector_chunk(&format!("s{index}"), vec![1.0])).collect());
    small.chunks.clear();
    assert!(!small.needs_compaction(), "too few slots to be worth a rewrite");
}

#[test]
fn sidecar_writes_go_in_slot_order_from_the_first_missing_slot() {
    let mut store = VectorStoreData::empty();
    store.push_chunks((0..4).map(|index| vector_chunk(&format!("c{index}"), vec![1.0])).collect());
    store.push_chunks(vec![vector_chunk("parked", vec![])]);
    store.chunks.swap(0, 3);
    // Positions now hold slots 3, 1, 2, 0 and a parked chunk.
    assert_eq!(store.sidecar_writes(0), vec![3, 1, 2, 0]);
    assert_eq!(store.sidecar_writes(2), vec![2, 0]);
    assert_eq!(store.sidecar_writes(4), Vec::<usize>::new());
}

#[test]
fn loading_keeps_only_chunks_the_sidecar_backs() {
    let mut store = VectorStoreData::empty();
    store.push_chunks((0..3).map(|index| vector_chunk(&format!("c{index}"), vec![1.0, 2.0])).collect());
    store.push_chunks(vec![vector_chunk("parked", vec![])]);
    store.keep_backed_chunks(Some(2));
    let kept = store.chunks.iter().map(|chunk| chunk.capture_id.as_str()).collect::<Vec<_>>();
    assert_eq!(kept, vec!["c0", "c1", "parked"]);
    store.keep_backed_chunks(None);
    assert!(store.chunks.is_empty(), "an unreadable sidecar costs the chunks");

    let mut dimensionless = VectorStoreData::<f32>::empty();
    dimensionless.push_chunks(vec![vector_chunk("p", vec![])]);
    assert_eq!(dimensionless.dim, 0);
    dimensionless.keep_backed_chunks(Some(10));
    assert!(dimensionless.chunks.is_empty());
}

#[test]
fn migration_keeps_the_majority_width_and_parks_the_rest() {
    let legacy = |capture: &str, vector: Vec<f32>| LegacyChunkRecord {
        id: capture.to_string(),
        vector,
        text: format!("text {capture}"),
        collection_id: "hub-1".to_string(),
        capture_id: capture.to_string(),
        title: String::new(),
        url: String::new(),
        app_id: "browser".to_string(),
        captured_at: String::new(),
        chunk_index: 0,
    };
    let store = migrated_vector_store(vec![
        legacy("old", vec![0.5; 2]),
        legacy("new-1", vec![0.25; 3]),
        legacy("new-2", vec![0.75; 3]),
    ]);
    assert_eq!(store.dim, 3, "the majority width wins, not the first one");
    assert_eq!(store.chunks.len(), 3, "nothing is discarded");
    assert!(store.chunks[0].needs_reembed && store.chunks[0].vector.is_empty());
    assert_eq!(store.chunks[0].text, "text old");
    assert_eq!((store.chunks[1].vector_slot, store.chunks[2].vector_slot), (0, 1));
    assert_eq!(store.next_slot, 2);
}
