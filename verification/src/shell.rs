//! Smaller pieces of the shell: Flow graph ids, the iCE prompt, embedding
//! query framing, container data stores, and the messages exchanged with the
//! Android tab plugin.

use vstd::prelude::*;
use vstd::string::StringSliceAdditionalSpecFns;
use vstd::utf8::encode_utf8;
use crate::text::{
    trim_ws, unicode_lowercase, contains_seq, to_chars, from_chars, push_str_chars, trim_chars,
    trim_str, to_lowercase, str_contains, str_eq,
};
use crate::models::{ModelFile, lower_label, model_label};

verus! {

// ---------------------------------------------------------------------------
// Flow graph
// ---------------------------------------------------------------------------

pub fn flow_hub_node_id(collection_id: &str) -> (r: String)
    ensures
        r@ == "hub-"@ + collection_id@,
{
    let mut v = to_chars("hub-");
    push_str_chars(&mut v, collection_id);
    from_chars(v.as_slice())
}

pub fn flow_source_node_id(capture_id: &str) -> (r: String)
    ensures
        r@ == "source-"@ + capture_id@,
{
    let mut v = to_chars("source-");
    push_str_chars(&mut v, capture_id);
    from_chars(v.as_slice())
}

/// How two Flow nodes are related.
#[derive(Clone, Copy, Debug, PartialEq, Eq, Structural)]
pub enum FlowGraphEdgeKind {
    Contains,
    Semantic,
    QueryMatch,
}

pub open spec fn edge_kind_label(kind: FlowGraphEdgeKind) -> Seq<char> {
    match kind {
        FlowGraphEdgeKind::Contains => "contains"@,
        FlowGraphEdgeKind::Semantic => "semantic"@,
        FlowGraphEdgeKind::QueryMatch => "query"@,
    }
}

pub fn flow_edge_kind_label(kind: FlowGraphEdgeKind) -> (r: &'static str)
    ensures
        r@ == edge_kind_label(kind),
{
    match kind {
        FlowGraphEdgeKind::Contains => "contains",
        FlowGraphEdgeKind::Semantic => "semantic",
        FlowGraphEdgeKind::QueryMatch => "query",
    }
}

/// An edge's id: its kind's label and both ends.
pub fn flow_edge_id(kind: FlowGraphEdgeKind, from: &str, to: &str) -> (r: String)
    ensures
        r@ == edge_kind_label(kind) + "-"@ + from@ + "-"@ + to@,
{
    let mut v = to_chars(flow_edge_kind_label(kind));
    push_str_chars(&mut v, "-");
    push_str_chars(&mut v, from);
    push_str_chars(&mut v, "-");
    push_str_chars(&mut v, to);
    from_chars(v.as_slice())
}

/// Picks semantic edges among candidates already ordered strongest first: at
/// most `max_edges`, and no node may get more than `per_node` of them.
/// Candidates are pairs of node indices; the chosen candidates' positions are
/// returned in order.
pub open spec fn chosen_edges(
    cands: Seq<(usize, usize)>,
    max_edges: usize,
    per_node: usize,
) -> Seq<int>
    decreases cands.len(),
{
    if cands.len() == 0 {
        Seq::empty()
    } else {
        let prev = chosen_edges(cands.drop_last(), max_edges, per_node);
        let c = cands.last();
        if prev.len() < max_edges && degree(cands, prev, c.0 as int) < per_node && degree(
            cands,
            prev,
            c.1 as int,
        ) < per_node {
            prev.push(cands.len() - 1)
        } else {
            prev
        }
    }
}

pub open spec fn min_nat(a: nat, b: nat) -> nat {
    if a <= b {
        a
    } else {
        b
    }
}

/// How many chosen edges touch `node`.
pub open spec fn degree(cands: Seq<(usize, usize)>, chosen: Seq<int>, node: int) -> nat
    decreases chosen.len(),
{
    if chosen.len() == 0 {
        0
    } else {
        let e = cands[chosen.last()];
        degree(cands, chosen.drop_last(), node) + (if e.0 as int == node {
            1nat
        } else {
            0nat
        }) + (if e.1 as int == node {
            1nat
        } else {
            0nat
        })
    }
}

proof fn lemma_degree_prefix(cands: Seq<(usize, usize)>, longer: Seq<(usize, usize)>, chosen: Seq<int>, node: int)
    requires
        cands.len() <= longer.len(),
        forall|i: int| 0 <= i < cands.len() ==> longer[i] == cands[i],
        forall|i: int| 0 <= i < chosen.len() ==> 0 <= #[trigger] chosen[i] < cands.len(),
    ensures
        degree(cands, chosen, node) == degree(longer, chosen, node),
    decreases chosen.len(),
{
    if chosen.len() > 0 {
        lemma_degree_prefix(cands, longer, chosen.drop_last(), node);
    }
}

pub proof fn lemma_chosen_in_range(cands: Seq<(usize, usize)>, max_edges: usize, per_node: usize)
    ensures
        forall|i: int|
            0 <= i < chosen_edges(cands, max_edges, per_node).len() ==> 0 <= #[trigger] chosen_edges(
                cands,
                max_edges,
                per_node,
            )[i] < cands.len(),
        chosen_edges(cands, max_edges, per_node).len() <= max_edges,
    decreases cands.len(),
{
    if cands.len() > 0 {
        lemma_chosen_in_range(cands.drop_last(), max_edges, per_node);
    }
}

pub fn select_semantic_edges(candidates: &[(usize, usize)], max_edges: usize, per_node: usize) -> (r: Vec<
    usize,
>)
    ensures
        r@.map_values(|i: usize| i as int) == chosen_edges(candidates@, max_edges, per_node),
        r@.len() <= max_edges,
{
    let n = candidates.len();
    let mut chosen: Vec<usize> = Vec::new();
    let mut i: usize = 0;
    assert(candidates@.take(0) =~= Seq::<(usize, usize)>::empty());
    while i < n
        invariant
            n == candidates@.len(),
            i <= n,
            chosen@.map_values(|k: usize| k as int) == chosen_edges(
                candidates@.take(i as int),
                max_edges,
                per_node,
            ),
            chosen@.len() <= max_edges,
            forall|j: int| 0 <= j < chosen@.len() ==> #[trigger] chosen@[j] < i,
        decreases n - i,
    {
        let ghost pre = candidates@.take(i as int);
        let ghost cur = candidates@.take(i + 1);
        assert(cur.drop_last() =~= pre);
        assert(cur.last() == candidates@[i as int]);
        let ghost ch = chosen@.map_values(|k: usize| k as int);
        proof {
            lemma_chosen_in_range(pre, max_edges, per_node);
            lemma_degree_prefix(pre, cur, ch, candidates@[i as int].0 as int);
            lemma_degree_prefix(pre, cur, ch, candidates@[i as int].1 as int);
        }
        let (a, b) = candidates[i];
        if chosen.len() < max_edges {
            let mut da: usize = 0;
            let mut db: usize = 0;
            let mut k: usize = 0;
            assert(ch.take(0) =~= Seq::<int>::empty());
            while k < chosen.len()
                invariant
                    k <= chosen@.len(),
                    ch == chosen@.map_values(|k: usize| k as int),
                    forall|j: int| 0 <= j < chosen@.len() ==> #[trigger] chosen@[j] < i,
                    i < n,
                    n == candidates@.len(),
                    cur == candidates@.take(i + 1),
                    cur.len() == i + 1,
                    da as nat == min_nat(degree(cur, ch.take(k as int), a as int), per_node as nat),
                    db as nat == min_nat(degree(cur, ch.take(k as int), b as int), per_node as nat),
                decreases chosen.len() - k,
            {
                let e = candidates[chosen[k]];
                assert(ch.take(k + 1).drop_last() =~= ch.take(k as int));
                assert(ch.take(k + 1).last() == chosen@[k as int] as int);
                assert(cur[chosen@[k as int] as int] == e);
                if e.0 == a && da < per_node {
                    da += 1;
                }
                if e.1 == a && da < per_node {
                    da += 1;
                }
                if e.0 == b && db < per_node {
                    db += 1;
                }
                if e.1 == b && db < per_node {
                    db += 1;
                }
                k += 1;
            }
            assert(ch.take(chosen@.len() as int) =~= ch);
            if da < per_node && db < per_node {
                let ghost before = chosen@;
                chosen.push(i);
                assert(chosen@.map_values(|k: usize| k as int) =~= ch.push(i as int));
            }
        }
        i += 1;
    }
    assert(candidates@.take(n as int) =~= candidates@);
    chosen
}

// ---------------------------------------------------------------------------
// iCE
// ---------------------------------------------------------------------------

pub open spec fn iceberg_prompt_head() -> Seq<char> {
    "Create an iceberg chart for the topic \""@
}

pub open spec fn iceberg_prompt_tail() -> Seq<char> {
    "\".\n\nReturn JSON only with this exact shape:\n{\n  \"recommendedItemCount\": 24,\n  \"items\": [\n    {\n      \"name\": \"Visible phrase\",\n      \"description\": \"One short explanation.\",\n      \"depthScore\": 12,\n      \"familiarity\": 85,\n      \"specificity\": 20,\n      \"jargonDensity\": 15,\n      \"prerequisiteDepth\": 10,\n      \"obscurity\": 12,\n      \"reason\": \"Common public entry point.\"\n    }\n  ]\n}\n\nRules:\n- Choose recommendedItemCount based on topic scope: 12-18 for narrow topics, 20-30 for medium topics, 32-45 for broad domains.\n- Return between 12 and 45 usable items.\n- Cover all five iceberg layers whenever the topic has enough material. Include at least one item intentionally scored for each depth band: 0-19, 20-39, 40-59, 60-79, and 80-100.\n- Prefer 2-5 genuinely obscure or specialist items for the 80-100 band instead of stopping at intermediate concepts.\n- Do not include more than 10 items that would clearly belong to the same depth band.\n- Use concise item names that fit on a node.\n- Every item must include a non-empty description.\n- Scores are integers from 0-100, never 1-10.\n- depthScore: intended iceberg depth, where 0-19 is public surface knowledge and 80-100 is obscure, specialist, prerequisite-heavy, or rarely explained.\n- familiarity: how likely a general audience already knows this.\n- specificity: how narrow the concept is within the topic.\n- jargonDensity: how much specialist vocabulary is needed.\n- prerequisiteDepth: how much prior conceptual knowledge is required.\n- obscurity: how rarely this appears in mainstream explainers or beginner material.\n- reason: one short explanation for why the item sits at its depth.\n- Do not include level; the app will compute levels from the scoring rubric.\n- Do not include markdown, prose, or comments."@
}

/// The prompt asking a model for an iceberg chart of `keyword`.
pub fn build_iceberg_prompt(keyword: &str) -> (r: String)
    ensures
        r@ == iceberg_prompt_head() + keyword@ + iceberg_prompt_tail(),
{
    let mut v = to_chars("Create an iceberg chart for the topic \"");
    push_str_chars(&mut v, keyword);
    push_str_chars(
        &mut v,
        "\".\n\nReturn JSON only with this exact shape:\n{\n  \"recommendedItemCount\": 24,\n  \"items\": [\n    {\n      \"name\": \"Visible phrase\",\n      \"description\": \"One short explanation.\",\n      \"depthScore\": 12,\n      \"familiarity\": 85,\n      \"specificity\": 20,\n      \"jargonDensity\": 15,\n      \"prerequisiteDepth\": 10,\n      \"obscurity\": 12,\n      \"reason\": \"Common public entry point.\"\n    }\n  ]\n}\n\nRules:\n- Choose recommendedItemCount based on topic scope: 12-18 for narrow topics, 20-30 for medium topics, 32-45 for broad domains.\n- Return between 12 and 45 usable items.\n- Cover all five iceberg layers whenever the topic has enough material. Include at least one item intentionally scored for each depth band: 0-19, 20-39, 40-59, 60-79, and 80-100.\n- Prefer 2-5 genuinely obscure or specialist items for the 80-100 band instead of stopping at intermediate concepts.\n- Do not include more than 10 items that would clearly belong to the same depth band.\n- Use concise item names that fit on a node.\n- Every item must include a non-empty description.\n- Scores are integers from 0-100, never 1-10.\n- depthScore: intended iceberg depth, where 0-19 is public surface knowledge and 80-100 is obscure, specialist, prerequisite-heavy, or rarely explained.\n- familiarity: how likely a general audience already knows this.\n- specificity: how narrow the concept is within the topic.\n- jargonDensity: how much specialist vocabulary is needed.\n- prerequisiteDepth: how much prior conceptual knowledge is required.\n- obscurity: how rarely this appears in mainstream explainers or beginner material.\n- reason: one short explanation for why the item sits at its depth.\n- Do not include level; the app will compute levels from the scoring rubric.\n- Do not include markdown, prose, or comments.",
    );
    from_chars(v.as_slice())
}

// ---------------------------------------------------------------------------
// Embedding queries
// ---------------------------------------------------------------------------

pub open spec fn retrieval_instruction() -> Seq<char> {
    "Given a web search query, retrieve relevant passages that answer the query"@
}

/// Qwen3 embeddings are asked with a retrieval instruction; other models get
/// the query as it is, and so does a library without an embedding model.
pub open spec fn query_input(model: Option<ModelFile>, query: Seq<char>) -> Seq<char> {
    match model {
        Some(m) => if contains_seq(lower_label(m), "qwen3-embedding"@) {
            "Instruct: "@ + retrieval_instruction() + "\nQuery: "@ + query
        } else {
            query
        },
        None => query,
    }
}

pub fn embedding_query_input(embedding_model: Option<&ModelFile>, query: &str) -> (r: String)
    ensures
        r@ == query_input(
            match embedding_model {
                Some(m) => Some(*m),
                None => None,
            },
            query@,
        ),
{
    match embedding_model {
        Some(m) => {
            let label = model_label(m);
            let lower = to_lowercase(label.as_str());
            if str_contains(lower.as_str(), "qwen3-embedding") {
                let mut v = to_chars("Instruct: ");
                push_str_chars(
                    &mut v,
                    "Given a web search query, retrieve relevant passages that answer the query",
                );
                push_str_chars(&mut v, "\nQuery: ");
                push_str_chars(&mut v, query);
                return from_chars(v.as_slice());
            }
            String::from_str(query)
        },
        None => String::from_str(query),
    }
}

// ---------------------------------------------------------------------------
// Containers
// ---------------------------------------------------------------------------

/// Version 5 (name-based, SHA-1) UUID bytes for `name` in `namespace`.
pub uninterp spec fn uuid_v5(namespace: Seq<u8>, name: Seq<u8>) -> Seq<u8>;

/// The 16 bytes are a version 5 UUID of the RFC 4122 variant: the high
/// nibble of byte 6 is 5, the two high bits of byte 8 are `10`.
pub open spec fn is_v5_rfc4122(b: Seq<u8>) -> bool {
    b.len() == 16 && 0x50 <= b[6] < 0x60 && 0x80 <= b[8] < 0xC0
}

/// Calls `uuid::Uuid::new_v5` and reads its 16 bytes, which the crate builds
/// with the RFC 4122 variant and version 5.
#[verifier::external_body]
fn uuid_v5_bytes(namespace: [u8; 16], name: &[u8]) -> (r: [u8; 16])
    ensures
        r@ == uuid_v5(namespace@, name@),
        is_v5_rfc4122(r@),
{
    *uuid::Uuid::new_v5(&uuid::Uuid::from_bytes(namespace), name).as_bytes()
}

/// The namespace container data stores are derived in.
pub open spec fn container_namespace() -> Seq<u8> {
    seq![0x41u8, 0x45, 0x54, 0x48, 0x45, 0x52, 0x43, 0x54, 0x52, 0x00, 0x00, 0x00, 0x00, 0x00, 0x00, 0x01]
}

/// The data store of a container: a deterministic id of its trimmed,
/// lower-cased name, so the same container finds its cookies on every launch.
pub fn container_data_store_id(container: &str) -> (r: [u8; 16])
    ensures
        r@ == uuid_v5(container_namespace(), encode_utf8(unicode_lowercase(trim_ws(container@)))),
        is_v5_rfc4122(r@),
{
    let namespace: [u8; 16] = [
        0x41, 0x45, 0x54, 0x48, 0x45, 0x52, 0x43, 0x54, 0x52, 0x00, 0x00, 0x00, 0x00, 0x00, 0x00,
        0x01,
    ];
    assert(namespace@ =~= container_namespace());
    let trimmed = trim_str(container);
    let lower = to_lowercase(trimmed.as_str());
    uuid_v5_bytes(namespace, lower.as_str().as_bytes())
}

// ---------------------------------------------------------------------------
// The Android tab plugin
// ---------------------------------------------------------------------------

/// A tab thumbnail, as a data URL when the plugin could draw one.
pub struct ThumbnailResponse {
    pub image: Option<String>,
}

/// The page snapshot the plugin read, as JSON text.
pub struct SnapshotResponse {
    pub payload: String,
}

pub struct TabUrlPayload<'a> {
    pub tab_id: &'a str,
    pub url: &'a str,
}

pub struct TabPayload<'a> {
    pub tab_id: &'a str,
}

pub struct EvalPayload<'a> {
    pub tab_id: &'a str,
    pub script: String,
}

pub struct FindPayload<'a> {
    pub tab_id: &'a str,
    pub query: Option<&'a str>,
    pub action: &'a str,
}

/// The snapshot JSON the plugin returned, unless it read nothing.
pub open spec fn snapshot_payload(payload: Seq<char>) -> Result<Seq<char>, Seq<char>> {
    let t = trim_ws(payload);
    if t.len() == 0 || t == "null"@ {
        Err("Unable to read the active page."@)
    } else {
        Ok(t)
    }
}

pub fn read_page_snapshot_from_android(response: &SnapshotResponse) -> (r: Result<String, String>)
    ensures
        match r {
            Ok(p) => snapshot_payload(response.payload@) == Ok::<Seq<char>, Seq<char>>(p@),
            Err(e) => snapshot_payload(response.payload@) == Err::<Seq<char>, Seq<char>>(e@),
        },
{
    let t = trim_str(response.payload.as_str());
    if t.as_str().is_empty() || str_eq(t.as_str(), "null") {
        return Err(String::from_str("Unable to read the active page."));
    }
    Ok(t)
}

} // verus!
