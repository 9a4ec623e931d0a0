//! The Flow graph: hubs and captured sources as nodes, linked by which hub
//! holds a source, how well a source matches the query, and how similar two
//! sources are.
//!
//! Match and similarity scores are in tenths of a point (`0 ..= 1000`), the
//! precision every score is rounded to; node weights are in tenths too.

use vstd::prelude::*;
use crate::text::{trim_ws, first_n, to_chars, from_chars, push_all, push_str_chars, trim_str, str_eq};
use crate::order::{seq_lt, chars_lt, sort_by, lemma_insert_pos_by, lemma_sort_by_len};
use crate::numbers::{decimal_chars, decimal_digits};
use crate::library::{CaptureSummary, CollectionSummary};
use crate::gather::{
    ChunkText, longest_chunk, hub_name, hub_name_of, longest_chunk_of, first_where, lemma_filter_push,
    lemma_filter_empty, lemma_first_where_found,
};
use crate::trail::{trail_excerpt, semantic_trail_excerpt};
use crate::urls::{tab_host, get_tab_host};
use crate::shell::{
    FlowGraphEdgeKind, edge_kind_label, chosen_edges, select_semantic_edges, flow_hub_node_id,
    flow_source_node_id, flow_edge_id,
};
use crate::tabs::copy_string;

verus! {

pub const DEFAULT_FLOW_GRAPH_SOURCE_LIMIT: usize = 96;
pub const MAX_FLOW_GRAPH_SOURCE_LIMIT: usize = 180;
/// Weaker matches and similarities draw no edge (42.0).
pub const FLOW_GRAPH_MIN_EDGE_SCORE: u32 = 420;
pub const FLOW_GRAPH_NEIGHBORS_PER_SOURCE: usize = 3;
pub const FLOW_GRAPH_MAX_SEMANTIC_EDGES: usize = 180;
pub const FLOW_GRAPH_QUERY_MATCH_LIMIT: usize = 18;
/// The weight of a hub-to-source edge (36.0).
pub const FLOW_CONTAINS_WEIGHT: u32 = 360;

/// The number of sources asked for, kept within 1 ..= 180 (96 by default).
pub open spec fn source_limit(requested: Option<usize>) -> int {
    let n = match requested {
        Some(k) => k as int,
        None => DEFAULT_FLOW_GRAPH_SOURCE_LIMIT as int,
    };
    if n < 1 {
        1
    } else if n > MAX_FLOW_GRAPH_SOURCE_LIMIT {
        MAX_FLOW_GRAPH_SOURCE_LIMIT as int
    } else {
        n
    }
}

pub fn flow_source_limit(requested: Option<usize>) -> (r: usize)
    ensures
        r as int == source_limit(requested),
{
    let n = match requested {
        Some(k) => k,
        None => DEFAULT_FLOW_GRAPH_SOURCE_LIMIT,
    };
    if n < 1 {
        1
    } else if n > MAX_FLOW_GRAPH_SOURCE_LIMIT {
        MAX_FLOW_GRAPH_SOURCE_LIMIT
    } else {
        n
    }
}

// ---------------------------------------------------------------------------
// Which captures become sources
// ---------------------------------------------------------------------------

/// A capture's place in recency order: capture time, position.
pub type RecencyKey = (Seq<char>, int);

pub open spec fn recency_order() -> spec_fn(RecencyKey, RecencyKey) -> bool {
    |a: RecencyKey, b: RecencyKey| !seq_lt(a.0, b.0)
}

pub open spec fn recency_keys(captures: Seq<CaptureSummary>) -> Seq<RecencyKey> {
    Seq::new(captures.len(), |p: int| (captures[p].captured_at@, p))
}

/// Capture positions, newest first; captures made at the same time keep their
/// order.
pub open spec fn by_recency(captures: Seq<CaptureSummary>) -> Seq<int> {
    sort_by(recency_keys(captures), recency_order()).map_values(|k: RecencyKey| k.1)
}

/// The positions, in `order`, of the captures that can be drawn.
pub open spec fn drawable(order: Seq<int>, usable: Seq<bool>) -> Seq<int>
    decreases order.len(),
{
    if order.len() == 0 {
        Seq::empty()
    } else {
        let prev = drawable(order.drop_last(), usable);
        if usable[order.last()] {
            prev.push(order.last())
        } else {
            prev
        }
    }
}

/// The newest `limit` captures that can be drawn: those with stored chunks
/// whose vectors average to a usable one.
pub open spec fn flow_source_positions(captures: Seq<CaptureSummary>, usable: Seq<bool>, limit: nat) -> Seq<int> {
    first_n(drawable(by_recency(captures), usable), limit)
}

pub open spec fn count_true(flags: Seq<bool>) -> nat
    decreases flags.len(),
{
    if flags.len() == 0 {
        0
    } else {
        count_true(flags.drop_last()) + if flags.last() {
            1nat
        } else {
            0nat
        }
    }
}

/// Picks the captures drawn as sources (see [`flow_source_positions`]);
/// `usable` says which captures can be drawn.
pub fn pick_flow_sources(captures: &[CaptureSummary], usable: &[bool], limit: usize) -> (r: Vec<usize>)
    requires
        usable@.len() == captures@.len(),
    ensures
        r@.map_values(|p: usize| p as int) == flow_source_positions(captures@, usable@, limit as nat),
        forall|k: int| 0 <= k < r@.len() ==> #[trigger] r@[k] < captures@.len(),
{
    let n = captures.len();
    let ghost keys = recency_keys(captures@);
    let mut perm: Vec<usize> = Vec::new();
    let mut i: usize = 0;
    while i < n
        invariant
            n == captures@.len(),
            keys == recency_keys(captures@),
            i <= n,
            perm@.len() == i,
            forall|k: int| 0 <= k < perm@.len() ==> #[trigger] perm@[k] < i,
            perm@.map_values(|p: usize| keys[p as int]) == sort_by(keys.take(i as int), recency_order()),
        decreases n - i,
    {
        let ghost sorted = sort_by(keys.take(i as int), recency_order());
        let at = to_chars(captures[i].captured_at.as_str());
        let mut j: usize = 0;
        while j < perm.len() && !chars_lt(to_chars(captures[perm[j]].captured_at.as_str()).as_slice(), at.as_slice())
            invariant
                n == captures@.len(),
                keys == recency_keys(captures@),
                i < n,
                perm@.len() == i,
                forall|k: int| 0 <= k < perm@.len() ==> #[trigger] perm@[k] < i,
                sorted == perm@.map_values(|p: usize| keys[p as int]),
                at@ == captures@[i as int].captured_at@,
                j <= perm@.len(),
                forall|k: int| 0 <= k < j ==> (recency_order())(#[trigger] sorted[k], keys[i as int]),
            decreases perm@.len() - j,
        {
            j += 1;
        }
        proof {
            lemma_insert_pos_by(sorted, keys[i as int], recency_order(), j as int);
            assert(keys.take(i + 1).drop_last() =~= keys.take(i as int));
            assert(keys.take(i + 1).last() == keys[i as int]);
        }
        perm.insert(j, i);
        assert(perm@.map_values(|p: usize| keys[p as int]) =~= sorted.insert(j as int, keys[i as int]));
        i += 1;
    }
    assert(keys.take(n as int) =~= keys);
    let ghost order = by_recency(captures@);
    proof {
        lemma_sort_by_len(keys, recency_order());
        assert forall|k: int| 0 <= k < n implies order[k] == perm@[k] as int by {
            assert(sort_by(keys, recency_order())[k] == keys[perm@[k] as int]);
        }
    }
    let mut out: Vec<usize> = Vec::new();
    let mut k: usize = 0;
    assert(order.take(0) =~= Seq::<int>::empty());
    while k < n && out.len() < limit
        invariant
            n == captures@.len(),
            usable@.len() == n,
            perm@.len() == n,
            order.len() == n,
            forall|q: int| 0 <= q < n ==> order[q] == perm@[q] as int,
            forall|q: int| 0 <= q < n ==> #[trigger] perm@[q] < n,
            k <= n,
            out@.len() <= limit,
            out@.map_values(|p: usize| p as int) == drawable(order.take(k as int), usable@),
            forall|q: int| 0 <= q < out@.len() ==> #[trigger] out@[q] < n,
        decreases n - k,
    {
        let p = perm[k];
        assert(order.take(k + 1).drop_last() =~= order.take(k as int));
        assert(order.take(k + 1).last() == p as int);
        if usable[p] {
            let ghost before = out@.map_values(|q: usize| q as int);
            out.push(p);
            assert(out@.map_values(|q: usize| q as int) =~= before.push(p as int));
        }
        k += 1;
    }
    proof {
        lemma_drawable_prefix(order, usable@, k as int, limit as nat);
    }
    out
}

proof fn lemma_drawable_len(order: Seq<int>, usable: Seq<bool>)
    ensures
        drawable(order, usable).len() <= order.len(),
    decreases order.len(),
{
    if order.len() > 0 {
        lemma_drawable_len(order.drop_last(), usable);
    }
}

/// Once `limit` drawable captures are found, later ones do not change the
/// first `limit`.
proof fn lemma_drawable_prefix(order: Seq<int>, usable: Seq<bool>, k: int, limit: nat)
    requires
        0 <= k <= order.len(),
        k == order.len() || drawable(order.take(k), usable).len() >= limit,
        drawable(order.take(k), usable).len() <= limit,
    ensures
        first_n(drawable(order, usable), limit) == drawable(order.take(k), usable),
    decreases order.len() - k,
{
    if k == order.len() {
        assert(order.take(k) =~= order);
    } else {
        lemma_drawable_extends(order, usable, k, order.len() as int);
        assert(order.take(order.len() as int) =~= order);
        let a = drawable(order.take(k), usable);
        let c = drawable(order, usable);
        assert(c.take(a.len() as int) == a);
        if c.len() <= limit {
            assert(c.take(a.len() as int) =~= c);
        }
    }
}

/// The drawable captures of a prefix begin those of a longer prefix.
proof fn lemma_drawable_extends(order: Seq<int>, usable: Seq<bool>, k: int, m: int)
    requires
        0 <= k <= m <= order.len(),
    ensures
        drawable(order.take(k), usable).len() <= drawable(order.take(m), usable).len(),
        drawable(order.take(m), usable).take(drawable(order.take(k), usable).len() as int) == drawable(
            order.take(k),
            usable,
        ),
    decreases m - k,
{
    if m > k {
        lemma_drawable_extends(order, usable, k, m - 1);
        assert(order.take(m).drop_last() =~= order.take(m - 1));
        let a = drawable(order.take(k), usable);
        let b = drawable(order.take(m - 1), usable);
        let c = drawable(order.take(m), usable);
        assert(c.take(a.len() as int) =~= b.take(a.len() as int));
    } else {
        assert(drawable(order.take(m), usable).take(drawable(order.take(k), usable).len() as int)
            =~= drawable(order.take(k), usable));
    }
}

// ---------------------------------------------------------------------------
// Nodes
// ---------------------------------------------------------------------------

#[derive(Clone, Copy, Debug, PartialEq, Eq, Structural)]
pub enum FlowGraphNodeKind {
    Query,
    Hub,
    Source,
}

pub struct FlowGraphNode {
    pub id: String,
    pub kind: FlowGraphNodeKind,
    pub title: String,
    pub subtitle: String,
    /// Its drawing weight, in tenths.
    pub weight: u32,
    pub collection_id: Option<String>,
    pub collection_name: Option<String>,
    pub capture_id: Option<String>,
    pub url: Option<String>,
    pub host: Option<String>,
    pub captured_at: Option<String>,
    pub excerpt: Option<String>,
    /// How well a source matches the query, in tenths.
    pub score: Option<u32>,
}

/// A node as values.
pub struct FlowNodeView {
    pub id: Seq<char>,
    pub kind: FlowGraphNodeKind,
    pub title: Seq<char>,
    pub subtitle: Seq<char>,
    pub weight: int,
    pub collection_id: Option<Seq<char>>,
    pub collection_name: Option<Seq<char>>,
    pub capture_id: Option<Seq<char>>,
    pub url: Option<Seq<char>>,
    pub host: Option<Seq<char>>,
    pub captured_at: Option<Seq<char>>,
    pub excerpt: Option<Seq<char>>,
    pub score: Option<int>,
}

impl FlowGraphNode {
    pub open spec fn node_view(&self) -> FlowNodeView {
        FlowNodeView {
            id: self.id@,
            kind: self.kind,
            title: self.title@,
            subtitle: self.subtitle@,
            weight: self.weight as int,
            collection_id: self.collection_id.deep_view(),
            collection_name: self.collection_name.deep_view(),
            capture_id: self.capture_id.deep_view(),
            url: self.url.deep_view(),
            host: self.host.deep_view(),
            captured_at: self.captured_at.deep_view(),
            excerpt: self.excerpt.deep_view(),
            score: match self.score {
                Some(s) => Some(s as int),
                None => None,
            },
        }
    }
}

pub open spec fn node_views(ns: Seq<FlowGraphNode>) -> Seq<FlowNodeView> {
    ns.map_values(|n: FlowGraphNode| n.node_view())
}

pub open spec fn nonempty_text(s: Seq<char>) -> Option<Seq<char>> {
    if s.len() > 0 {
        Some(s)
    } else {
        None
    }
}

/// The query lens node.
pub open spec fn query_node(query: Seq<char>) -> FlowNodeView {
    FlowNodeView {
        id: "query"@,
        kind: FlowGraphNodeKind::Query,
        title: query,
        subtitle: "Semantic search lens"@,
        weight: 720,
        collection_id: None,
        collection_name: None,
        capture_id: None,
        url: None,
        host: None,
        captured_at: None,
        excerpt: None,
        score: None,
    }
}

/// A hub's weight grows with its captures: 42.0 + 7.0 each, at most 92.0.
pub open spec fn hub_weight(captures: nat) -> int {
    if 420 + 70 * captures < 920 {
        (420 + 70 * captures) as int
    } else {
        920
    }
}

pub open spec fn hub_node(c: CollectionSummary) -> FlowNodeView {
    FlowNodeView {
        id: "hub-"@ + c.id@,
        kind: FlowGraphNodeKind::Hub,
        title: c.name@,
        subtitle: decimal_chars(c.capture_count as nat) + " sources · "@ + decimal_chars(c.chunk_count as nat)
            + " chunks"@,
        weight: hub_weight(c.capture_count as nat),
        collection_id: Some(c.id@),
        collection_name: Some(c.name@),
        capture_id: None,
        url: None,
        host: None,
        captured_at: Some(c.updated_at@),
        excerpt: nonempty_text(c.description@),
        score: None,
    }
}

/// A source's weight grows with its chunks: 24.0 + 2.0 each, at most 58.0.
pub open spec fn source_weight(chunks: nat) -> int {
    if 240 + 20 * chunks < 580 {
        (240 + 20 * chunks) as int
    } else {
        580
    }
}

pub open spec fn source_hub_name(cols: Seq<CollectionSummary>, cap: CaptureSummary) -> Seq<char> {
    match hub_name(cols, cap.collection_id@) {
        Some(n) => n,
        None => "Knowledge Hub"@,
    }
}

/// A source's excerpt: its longest chunk, cut to 300 characters.
pub open spec fn source_excerpt(chunks: Seq<ChunkText>, cap: CaptureSummary) -> Seq<char> {
    match longest_chunk(chunks, cap.id@) {
        Some(t) => trail_excerpt(t, 300),
        None => Seq::empty(),
    }
}

pub open spec fn source_node(
    cap: CaptureSummary,
    cols: Seq<CollectionSummary>,
    chunks: Seq<ChunkText>,
    score: Option<int>,
) -> FlowNodeView {
    FlowNodeView {
        id: "source-"@ + cap.id@,
        kind: FlowGraphNodeKind::Source,
        title: cap.title@,
        subtitle: source_hub_name(cols, cap),
        weight: source_weight(cap.chunk_count as nat),
        collection_id: Some(cap.collection_id@),
        collection_name: Some(source_hub_name(cols, cap)),
        capture_id: Some(cap.id@),
        url: Some(cap.url@),
        host: Some(tab_host(cap.url@)),
        captured_at: Some(cap.captured_at@),
        excerpt: nonempty_text(source_excerpt(chunks, cap)),
        score,
    }
}

/// The query scores of the sources, one per node id (a later source with the
/// same id overriding an earlier one), in the order the ids first appear.
pub open spec fn score_entries(ids: Seq<Seq<char>>, scores: Seq<u32>) -> Seq<(Seq<char>, int)>
    decreases ids.len(),
{
    if ids.len() == 0 {
        Seq::empty()
    } else {
        let prev = score_entries(ids.drop_last(), scores);
        let id = ids.last();
        let s = scores[ids.len() - 1] as int;
        match entry_for(prev, id) {
            Some(i) => prev.update(i, (id, s)),
            None => prev.push((id, s)),
        }
    }
}

pub open spec fn entry_for(es: Seq<(Seq<char>, int)>, id: Seq<char>) -> Option<int>
    decreases es.len(),
{
    if es.len() == 0 {
        None
    } else {
        match entry_for(es.drop_last(), id) {
            Some(i) => Some(i),
            None => if es.last().0 == id {
                Some(es.len() - 1)
            } else {
                None
            },
        }
    }
}

pub open spec fn source_ids(sources: Seq<CaptureSummary>) -> Seq<Seq<char>> {
    sources.map_values(|c: CaptureSummary| "source-"@ + c.id@)
}

/// Whether the sources are scored against a query at all.
pub open spec fn scored(query: Seq<char>, sources: Seq<CaptureSummary>) -> bool {
    query.len() > 0 && sources.len() > 0
}

pub open spec fn node_score(
    query: Seq<char>,
    sources: Seq<CaptureSummary>,
    scores: Seq<u32>,
    i: int,
) -> Option<int> {
    if scored(query, sources) {
        let es = score_entries(source_ids(sources), scores);
        match entry_for(es, source_ids(sources)[i]) {
            Some(k) => Some(es[k].1),
            None => None,
        }
    } else {
        None
    }
}

/// The nodes: the query lens when there is a query, every hub, then every
/// source.
pub open spec fn flow_nodes(
    query: Seq<char>,
    cols: Seq<CollectionSummary>,
    sources: Seq<CaptureSummary>,
    chunks: Seq<ChunkText>,
    scores: Seq<u32>,
) -> Seq<FlowNodeView> {
    (if query.len() > 0 {
        seq![query_node(query)]
    } else {
        Seq::empty()
    }) + cols.map_values(|c: CollectionSummary| hub_node(c)) + Seq::new(
        sources.len(),
        |i: int| source_node(sources[i], cols, chunks, node_score(query, sources, scores, i)),
    )
}


// ---------------------------------------------------------------------------
// Edges
// ---------------------------------------------------------------------------

pub struct FlowGraphEdge {
    pub id: String,
    pub from: String,
    pub to: String,
    pub kind: FlowGraphEdgeKind,
    /// Its weight, in tenths.
    pub weight: u32,
}

/// An edge as values: id, from, to, kind, weight.
pub type FlowEdgeView = (Seq<char>, Seq<char>, Seq<char>, FlowGraphEdgeKind, int);

pub open spec fn flow_edge_view(e: FlowGraphEdge) -> FlowEdgeView {
    (e.id@, e.from@, e.to@, e.kind, e.weight as int)
}

pub open spec fn flow_edge_views(es: Seq<FlowGraphEdge>) -> Seq<FlowEdgeView> {
    es.map_values(|e: FlowGraphEdge| flow_edge_view(e))
}

/// `es` with an edge from `from` to `to`, unless that would be a loop.
pub open spec fn with_flow_edge(
    es: Seq<FlowEdgeView>,
    from: Seq<char>,
    to: Seq<char>,
    kind: FlowGraphEdgeKind,
    weight: int,
) -> Seq<FlowEdgeView> {
    if from == to {
        es
    } else {
        es.push((edge_kind_label(kind) + "-"@ + from + "-"@ + to, from, to, kind, weight))
    }
}

/// Each of the first `k` sources linked from its hub.
pub open spec fn contains_edges(sources: Seq<CaptureSummary>, k: nat) -> Seq<FlowEdgeView>
    decreases k,
{
    if k == 0 {
        Seq::empty()
    } else {
        let c = sources[k - 1];
        with_flow_edge(
            contains_edges(sources, (k - 1) as nat),
            "hub-"@ + c.collection_id@,
            "source-"@ + c.id@,
            FlowGraphEdgeKind::Contains,
            FLOW_CONTAINS_WEIGHT as int,
        )
    }
}

/// Strongest first; equal scores keep their order.
pub open spec fn strongest_first() -> spec_fn((Seq<char>, int), (Seq<char>, int)) -> bool {
    |a: (Seq<char>, int), b: (Seq<char>, int)| !(b.1 > a.1)
}

/// The first `k` ranked query matches linked from the query, those of at
/// least 42.0.
pub open spec fn match_edges(acc: Seq<FlowEdgeView>, ranked: Seq<(Seq<char>, int)>, k: nat) -> Seq<FlowEdgeView>
    decreases k,
{
    if k == 0 {
        acc
    } else {
        let prev = match_edges(acc, ranked, (k - 1) as nat);
        let e = ranked[k - 1];
        if e.1 >= FLOW_GRAPH_MIN_EDGE_SCORE {
            with_flow_edge(prev, "query"@, e.0, FlowGraphEdgeKind::QueryMatch, e.1)
        } else {
            prev
        }
    }
}

/// The query's links: the 18 best-matching sources that match at least 42.0,
/// when the sources were scored against a query.
pub open spec fn query_edges(
    acc: Seq<FlowEdgeView>,
    query: Seq<char>,
    sources: Seq<CaptureSummary>,
    scores: Seq<u32>,
) -> Seq<FlowEdgeView> {
    if scored(query, sources) {
        let ranked = sort_by(score_entries(source_ids(sources), scores), strongest_first());
        match_edges(
            acc,
            ranked,
            if ranked.len() < FLOW_GRAPH_QUERY_MATCH_LIMIT {
                ranked.len()
            } else {
                FLOW_GRAPH_QUERY_MATCH_LIMIT as nat
            },
        )
    } else {
        acc
    }
}

/// Two sources (by position) and how similar they are, in tenths.
pub type PairScore = (usize, usize, u32);

pub open spec fn strong_pair() -> spec_fn(PairScore) -> bool {
    |p: PairScore| p.2 >= FLOW_GRAPH_MIN_EDGE_SCORE
}

pub open spec fn pair_order() -> spec_fn(PairScore, PairScore) -> bool {
    |a: PairScore, b: PairScore| !(b.2 > a.2)
}

/// The pairs similar enough to link, most similar first.
pub open spec fn ranked_pairs(pairs: Seq<PairScore>) -> Seq<PairScore> {
    sort_by(pairs.filter(strong_pair()), pair_order())
}

pub open spec fn same_capture(id: Seq<char>) -> spec_fn(CaptureSummary) -> bool {
    |c: CaptureSummary| c.id@ == id
}

/// The first source with the same node id as source `i`.
pub open spec fn canonical(sources: Seq<CaptureSummary>, i: int) -> int {
    match first_where(sources, same_capture(sources[i].id@)) {
        Some(j) => j,
        None => i,
    }
}

/// Ranked pairs as pairs of nodes, a node being named by its first source.
pub open spec fn pair_nodes(sources: Seq<CaptureSummary>, ranked: Seq<PairScore>) -> Seq<(usize, usize)> {
    ranked.map_values(|p: PairScore| (canonical(sources, p.0 as int) as usize, canonical(sources, p.1 as int) as usize))
}

/// The chosen pairs, in order, linked as similar.
pub open spec fn similarity_edges(
    acc: Seq<FlowEdgeView>,
    sources: Seq<CaptureSummary>,
    ranked: Seq<PairScore>,
    chosen: Seq<int>,
    k: nat,
) -> Seq<FlowEdgeView>
    decreases k,
{
    if k == 0 {
        acc
    } else {
        let p = ranked[chosen[k - 1]];
        with_flow_edge(
            similarity_edges(acc, sources, ranked, chosen, (k - 1) as nat),
            "source-"@ + sources[p.0 as int].id@,
            "source-"@ + sources[p.1 as int].id@,
            FlowGraphEdgeKind::Semantic,
            p.2 as int,
        )
    }
}

/// The edges: hub to source, then query matches, then similarities (at most
/// 180, no node in more than three).
pub open spec fn flow_edges(
    query: Seq<char>,
    sources: Seq<CaptureSummary>,
    scores: Seq<u32>,
    pairs: Seq<PairScore>,
) -> Seq<FlowEdgeView> {
    let linked = query_edges(contains_edges(sources, sources.len()), query, sources, scores);
    let ranked = ranked_pairs(pairs);
    let chosen = chosen_edges(pair_nodes(sources, ranked), FLOW_GRAPH_MAX_SEMANTIC_EDGES, FLOW_GRAPH_NEIGHBORS_PER_SOURCE);
    similarity_edges(linked, sources, ranked, chosen, chosen.len())
}

fn push_flow_edge(edges: &mut Vec<FlowGraphEdge>, from: &str, to: &str, kind: FlowGraphEdgeKind, weight: u32)
    ensures
        flow_edge_views(final(edges)@) == with_flow_edge(
            flow_edge_views(old(edges)@),
            from@,
            to@,
            kind,
            weight as int,
        ),
{
    let ghost before = flow_edge_views(edges@);
    if str_eq(from, to) {
        return;
    }
    let e = FlowGraphEdge {
        id: flow_edge_id(kind, from, to),
        from: String::from_str(from),
        to: String::from_str(to),
        kind,
        weight,
    };
    edges.push(e);
    assert(flow_edge_views(edges@) =~= before.push(flow_edge_view(e)));
}


// ---------------------------------------------------------------------------
// Building the graph
// ---------------------------------------------------------------------------

pub struct FlowGraph {
    pub query: String,
    pub nodes: Vec<FlowGraphNode>,
    pub edges: Vec<FlowGraphEdge>,
    pub hub_count: usize,
    pub source_count: usize,
    /// Indexed captures left out by the source limit.
    pub omitted_source_count: usize,
}

/// How many captures have stored chunks.
pub fn indexed_source_count(has_chunks: &[bool]) -> (r: usize)
    ensures
        r == count_true(has_chunks@),
{
    let n = has_chunks.len();
    let mut count: usize = 0;
    let mut i: usize = 0;
    while i < n
        invariant
            n == has_chunks@.len(),
            i <= n,
            count <= i,
            count == count_true(has_chunks@.take(i as int)),
        decreases n - i,
    {
        assert(has_chunks@.take(i + 1).drop_last() =~= has_chunks@.take(i as int));
        if has_chunks[i] {
            count += 1;
        }
        i += 1;
    }
    assert(has_chunks@.take(n as int) =~= has_chunks@);
    count
}

pub open spec fn entry_views(es: Seq<(String, u32)>) -> Seq<(Seq<char>, int)> {
    es.map_values(|e: (String, u32)| (e.0@, e.1 as int))
}

fn find_entry(es: &Vec<(String, u32)>, id: &str) -> (r: Option<usize>)
    ensures
        r matches Some(i) ==> entry_for(entry_views(es@), id@) == Some(i as int) && i < es@.len(),
        r is None ==> entry_for(entry_views(es@), id@) is None,
{
    let ghost ev = entry_views(es@);
    let n = es.len();
    let mut i: usize = 0;
    while i < n
        invariant
            n == es@.len(),
            ev == entry_views(es@),
            i <= n,
            entry_for(ev.take(i as int), id@) is None,
        decreases n - i,
    {
        assert(ev.take(i + 1).drop_last() =~= ev.take(i as int));
        if str_eq(es[i].0.as_str(), id) {
            proof {
                lemma_entry_for_found(ev, id@, i as int);
            }
            return Some(i);
        }
        i += 1;
    }
    assert(ev.take(n as int) =~= ev);
    None
}

proof fn lemma_entry_for_found(es: Seq<(Seq<char>, int)>, id: Seq<char>, k: int)
    requires
        0 <= k < es.len(),
        entry_for(es.take(k), id) is None,
        es[k].0 == id,
    ensures
        entry_for(es, id) == Some(k),
    decreases es.len(),
{
    assert(es.take(k + 1).drop_last() =~= es.take(k));
    if k + 1 < es.len() {
        assert(es.drop_last().take(k) =~= es.take(k));
        lemma_entry_for_found(es.drop_last(), id, k);
    } else {
        assert(es.take(k + 1) =~= es);
    }
}

/// The node ids of the sources.
fn source_node_ids(captures: &[CaptureSummary], positions: &[usize]) -> (r: Vec<String>)
    requires
        forall|k: int| 0 <= k < positions@.len() ==> #[trigger] positions@[k] < captures@.len(),
    ensures
        crate::text::string_views(r@) == source_ids(positions@.map_values(|p: usize| captures@[p as int])),
{
    let ghost sources = positions@.map_values(|p: usize| captures@[p as int]);
    let n = positions.len();
    let mut out: Vec<String> = Vec::new();
    let mut i: usize = 0;
    while i < n
        invariant
            n == positions@.len(),
            sources == positions@.map_values(|p: usize| captures@[p as int]),
            forall|k: int| 0 <= k < n ==> #[trigger] positions@[k] < captures@.len(),
            i <= n,
            crate::text::string_views(out@) == source_ids(sources).take(i as int),
        decreases n - i,
    {
        let id = flow_source_node_id(captures[positions[i]].id.as_str());
        let ghost before = crate::text::string_views(out@);
        out.push(id);
        assert(crate::text::string_views(out@) =~= before.push(id@));
        assert(source_ids(sources).take(i + 1) =~= source_ids(sources).take(i as int).push(source_ids(sources)[i as int]));
        i += 1;
    }
    assert(source_ids(sources).take(n as int) =~= source_ids(sources));
    out
}

fn score_entries_of(ids: &Vec<String>, scores: &[u32]) -> (r: Vec<(String, u32)>)
    requires
        scores@.len() == ids@.len(),
    ensures
        entry_views(r@) == score_entries(crate::text::string_views(ids@), scores@),
{
    let ghost iv = crate::text::string_views(ids@);
    let n = ids.len();
    let mut es: Vec<(String, u32)> = Vec::new();
    let mut i: usize = 0;
    while i < n
        invariant
            n == ids@.len(),
            scores@.len() == n,
            iv == crate::text::string_views(ids@),
            i <= n,
            entry_views(es@) == score_entries(iv.take(i as int), scores@),
        decreases n - i,
    {
        let ghost prefix = iv.take(i + 1);
        assert(prefix.drop_last() =~= iv.take(i as int));
        assert(prefix.last() == ids@[i as int]@);
        let ghost before = entry_views(es@);
        match find_entry(&es, ids[i].as_str()) {
            Some(k) => {
                es.set(k, (copy_string(&ids[i]), scores[i]));
                assert(entry_views(es@) =~= before.update(k as int, (ids@[i as int]@, scores@[i as int] as int)));
            },
            None => {
                es.push((copy_string(&ids[i]), scores[i]));
                assert(entry_views(es@) =~= before.push((ids@[i as int]@, scores@[i as int] as int)));
            },
        }
        i += 1;
    }
    assert(iv.take(n as int) =~= iv);
    es
}

fn nonempty_string(s: String) -> (r: Option<String>)
    ensures
        r.deep_view() == nonempty_text(s@),
{
    if crate::text::to_chars(s.as_str()).len() > 0 {
        Some(s)
    } else {
        None
    }
}

fn hub_node_of(c: &CollectionSummary) -> (r: FlowGraphNode)
    ensures
        r.node_view() == hub_node(*c),
{
    proof {
        reveal_strlit(" sources · ");
        reveal_strlit(" chunks");
    }
    let mut subtitle = decimal_digits(c.capture_count);
    push_str_chars(&mut subtitle, " sources · ");
    push_all(&mut subtitle, decimal_digits(c.chunk_count).as_slice());
    push_str_chars(&mut subtitle, " chunks");
    let weight: u32 = if c.capture_count < 8 {
        420 + 70 * (c.capture_count as u32)
    } else {
        920
    };
    FlowGraphNode {
        id: flow_hub_node_id(c.id.as_str()),
        kind: FlowGraphNodeKind::Hub,
        title: copy_string(&c.name),
        subtitle: from_chars(subtitle.as_slice()),
        weight,
        collection_id: Some(copy_string(&c.id)),
        collection_name: Some(copy_string(&c.name)),
        capture_id: None,
        url: None,
        host: None,
        captured_at: Some(copy_string(&c.updated_at)),
        excerpt: nonempty_string(copy_string(&c.description)),
        score: None,
    }
}

fn source_node_of(
    c: &CaptureSummary,
    cols: &[CollectionSummary],
    chunks: &[ChunkText],
    score: Option<u32>,
) -> (r: FlowGraphNode)
    ensures
        r.node_view() == source_node(
            *c,
            cols@,
            chunks@,
            match score {
                Some(s) => Some(s as int),
                None => None,
            },
        ),
{
    proof {
        reveal_strlit("Knowledge Hub");
    }
    let name = match hub_name_of(cols, c.collection_id.as_str()) {
        Some(n) => n,
        None => String::from_str("Knowledge Hub"),
    };
    let excerpt = match longest_chunk_of(chunks, c.id.as_str()) {
        Some(t) => semantic_trail_excerpt(t.as_str(), 300),
        None => String::new(),
    };
    let weight: u32 = if c.chunk_count < 17 {
        240 + 20 * (c.chunk_count as u32)
    } else {
        580
    };
    FlowGraphNode {
        id: flow_source_node_id(c.id.as_str()),
        kind: FlowGraphNodeKind::Source,
        title: copy_string(&c.title),
        subtitle: copy_string(&name),
        weight,
        collection_id: Some(copy_string(&c.collection_id)),
        collection_name: Some(name),
        capture_id: Some(copy_string(&c.id)),
        url: Some(copy_string(&c.url)),
        host: Some(get_tab_host(c.url.as_str())),
        captured_at: Some(copy_string(&c.captured_at)),
        excerpt: nonempty_string(excerpt),
        score,
    }
}


fn has_text(s: &str) -> (r: bool)
    ensures
        r == (s@.len() > 0),
{
    to_chars(s).len() > 0
}

/// Entry positions, strongest first.
fn rank_entries(es: &Vec<(String, u32)>) -> (perm: Vec<usize>)
    ensures
        perm@.len() == es@.len(),
        forall|k: int| 0 <= k < perm@.len() ==> #[trigger] perm@[k] < es@.len(),
        perm@.map_values(|p: usize| entry_views(es@)[p as int]) == sort_by(entry_views(es@), strongest_first()),
{
    let ghost ev = entry_views(es@);
    let n = es.len();
    let mut perm: Vec<usize> = Vec::new();
    let mut i: usize = 0;
    while i < n
        invariant
            n == es@.len(),
            ev == entry_views(es@),
            i <= n,
            perm@.len() == i,
            forall|k: int| 0 <= k < perm@.len() ==> #[trigger] perm@[k] < i,
            perm@.map_values(|p: usize| ev[p as int]) == sort_by(ev.take(i as int), strongest_first()),
        decreases n - i,
    {
        let ghost sorted = sort_by(ev.take(i as int), strongest_first());
        let mut j: usize = 0;
        while j < perm.len() && !(es[i].1 > es[perm[j]].1)
            invariant
                n == es@.len(),
                ev == entry_views(es@),
                i < n,
                perm@.len() == i,
                forall|k: int| 0 <= k < perm@.len() ==> #[trigger] perm@[k] < i,
                sorted == perm@.map_values(|p: usize| ev[p as int]),
                j <= perm@.len(),
                forall|k: int| 0 <= k < j ==> (strongest_first())(#[trigger] sorted[k], ev[i as int]),
            decreases perm@.len() - j,
        {
            j += 1;
        }
        proof {
            lemma_insert_pos_by(sorted, ev[i as int], strongest_first(), j as int);
            assert(ev.take(i + 1).drop_last() =~= ev.take(i as int));
            assert(ev.take(i + 1).last() == ev[i as int]);
        }
        perm.insert(j, i);
        assert(perm@.map_values(|p: usize| ev[p as int]) =~= sorted.insert(j as int, ev[i as int]));
        i += 1;
    }
    assert(ev.take(n as int) =~= ev);
    perm
}

/// The pairs similar enough to link, most similar first.
fn rank_pairs(pairs: &[PairScore]) -> (r: Vec<PairScore>)
    ensures
        r@ == ranked_pairs(pairs@),
{
    let n = pairs.len();
    let mut strong: Vec<PairScore> = Vec::new();
    let mut i: usize = 0;
    proof {
        lemma_filter_empty(strong_pair());
        assert(pairs@.take(0) =~= Seq::<PairScore>::empty());
    }
    while i < n
        invariant
            n == pairs@.len(),
            i <= n,
            strong@ == pairs@.take(i as int).filter(strong_pair()),
        decreases n - i,
    {
        proof {
            lemma_filter_push(pairs@.take(i as int), strong_pair(), pairs@[i as int]);
            assert(pairs@.take(i + 1) =~= pairs@.take(i as int).push(pairs@[i as int]));
        }
        let p = pairs[i];
        if p.2 >= FLOW_GRAPH_MIN_EDGE_SCORE {
            strong.push(p);
        }
        i += 1;
    }
    assert(pairs@.take(n as int) =~= pairs@);
    let ghost st = strong@;
    let m = strong.len();
    let mut out: Vec<PairScore> = Vec::new();
    let mut k: usize = 0;
    while k < m
        invariant
            m == strong@.len(),
            st == strong@,
            k <= m,
            out@ == sort_by(st.take(k as int), pair_order()),
        decreases m - k,
    {
        let p = strong[k];
        let ghost sorted = out@;
        let mut j: usize = 0;
        while j < out.len() && !(p.2 > out[j].2)
            invariant
                j <= out@.len(),
                out@ == sorted,
                p == st[k as int],
                forall|q: int| 0 <= q < j ==> (pair_order())(#[trigger] sorted[q], p),
            decreases out@.len() - j,
        {
            j += 1;
        }
        proof {
            lemma_insert_pos_by(sorted, p, pair_order(), j as int);
            assert(st.take(k + 1).drop_last() =~= st.take(k as int));
            assert(st.take(k + 1).last() == p);
        }
        out.insert(j, p);
        k += 1;
    }
    assert(st.take(m as int) =~= st);
    out
}

/// The first source with the same capture id as source `i`.
fn canonical_of(captures: &[CaptureSummary], positions: &[usize], i: usize) -> (r: usize)
    requires
        i < positions@.len(),
        forall|k: int| 0 <= k < positions@.len() ==> #[trigger] positions@[k] < captures@.len(),
    ensures
        r as int == canonical(positions@.map_values(|p: usize| captures@[p as int]), i as int),
        r <= i,
{
    let ghost sources = positions@.map_values(|p: usize| captures@[p as int]);
    let ghost pred = same_capture(sources[i as int].id@);
    let mut j: usize = 0;
    while j < i
        invariant
            i < positions@.len(),
            sources == positions@.map_values(|p: usize| captures@[p as int]),
            forall|k: int| 0 <= k < positions@.len() ==> #[trigger] positions@[k] < captures@.len(),
            pred == same_capture(sources[i as int].id@),
            j <= i,
            first_where(sources.take(j as int), pred) is None,
        decreases i - j,
    {
        assert(sources.take(j + 1).drop_last() =~= sources.take(j as int));
        if str_eq(captures[positions[j]].id.as_str(), captures[positions[i]].id.as_str()) {
            proof {
                lemma_first_where_found(sources, pred, j as int);
            }
            return j;
        }
        j += 1;
    }
    proof {
        lemma_first_where_found(sources, pred, i as int);
    }
    i
}

/// Builds the Flow graph for the chosen sources (positions into `captures`,
/// from [`pick_flow_sources`]). `scores` holds each source's match with the
/// query in tenths (read only when there is a query), `pairs` the similarity
/// of source pairs, and `indexed_count` how many captures have chunks.
pub fn build_flow_graph(
    query: &str,
    collections: &[CollectionSummary],
    captures: &[CaptureSummary],
    positions: &[usize],
    indexed_count: usize,
    chunks: &[ChunkText],
    scores: &[u32],
    pairs: &[PairScore],
) -> (r: FlowGraph)
    requires
        forall|k: int| 0 <= k < positions@.len() ==> #[trigger] positions@[k] < captures@.len(),
        scores@.len() == positions@.len(),
        forall|k: int|
            0 <= k < pairs@.len() ==> (#[trigger] pairs@[k]).0 < positions@.len() && pairs@[k].1 < positions@.len(),
    ensures
        r.query@ == trim_ws(query@),
        node_views(r.nodes@) == flow_nodes(
            trim_ws(query@),
            collections@,
            positions@.map_values(|p: usize| captures@[p as int]),
            chunks@,
            scores@,
        ),
        flow_edge_views(r.edges@) == flow_edges(
            trim_ws(query@),
            positions@.map_values(|p: usize| captures@[p as int]),
            scores@,
            pairs@,
        ),
        r.hub_count == collections@.len(),
        r.source_count == positions@.len(),
        r.omitted_source_count == if indexed_count >= positions@.len() {
            indexed_count - positions@.len()
        } else {
            0
        },
{
    let q = trim_str(query);
    let ghost qv = q@;
    let ghost sources = positions@.map_values(|p: usize| captures@[p as int]);
    let n = positions.len();
    let ids = source_node_ids(captures, positions);
    assert(crate::text::string_views(ids@).len() == ids@.len());
    assert(ids@.len() == n);
    let is_scored = has_text(q.as_str()) && n > 0;
    let entries: Vec<(String, u32)> = if is_scored {
        score_entries_of(&ids, scores)
    } else {
        Vec::new()
    };
    // Nodes.
    let mut nodes: Vec<FlowGraphNode> = Vec::new();
    if has_text(q.as_str()) {
        proof {
            reveal_strlit("query");
            reveal_strlit("Semantic search lens");
        }
        nodes.push(
            FlowGraphNode {
                id: String::from_str("query"),
                kind: FlowGraphNodeKind::Query,
                title: copy_string(&q),
                subtitle: String::from_str("Semantic search lens"),
                weight: 720,
                collection_id: None,
                collection_name: None,
                capture_id: None,
                url: None,
                host: None,
                captured_at: None,
                excerpt: None,
                score: None,
            },
        );
    }
    let ghost head = node_views(nodes@);
    assert(head =~= if qv.len() > 0 {
        seq![query_node(qv)]
    } else {
        Seq::<FlowNodeView>::empty()
    });
    let hubs = collections.len();
    let mut h: usize = 0;
    while h < hubs
        invariant
            hubs == collections@.len(),
            h <= hubs,
            node_views(nodes@) == head + collections@.take(h as int).map_values(|c: CollectionSummary| hub_node(c)),
        decreases hubs - h,
    {
        let node = hub_node_of(&collections[h]);
        let ghost before = node_views(nodes@);
        nodes.push(node);
        assert(node_views(nodes@) =~= before.push(hub_node(collections@[h as int])));
        assert(collections@.take(h + 1).map_values(|c: CollectionSummary| hub_node(c)) =~= collections@.take(
            h as int,
        ).map_values(|c: CollectionSummary| hub_node(c)).push(hub_node(collections@[h as int])));
        h += 1;
    }
    assert(collections@.take(hubs as int) =~= collections@);
    let ghost with_hubs = node_views(nodes@);
    let mut i: usize = 0;
    while i < n
        invariant
            n == positions@.len(),
            sources == positions@.map_values(|p: usize| captures@[p as int]),
            forall|k: int| 0 <= k < n ==> #[trigger] positions@[k] < captures@.len(),
            scores@.len() == n,
            qv == q@,
            is_scored == scored(qv, sources),
            crate::text::string_views(ids@) == source_ids(sources),
            ids@.len() == n,
            is_scored ==> entry_views(entries@) == score_entries(source_ids(sources), scores@),
            i <= n,
            node_views(nodes@) == with_hubs + Seq::new(
                i as nat,
                |k: int| source_node(sources[k], collections@, chunks@, node_score(qv, sources, scores@, k)),
            ),
        decreases n - i,
    {
        let score = if is_scored {
            match find_entry(&entries, ids[i].as_str()) {
                Some(k) => Some(entries[k].1),
                None => None,
            }
        } else {
            None
        };
        assert(crate::text::string_views(ids@)[i as int] == ids@[i as int]@);
        let node = source_node_of(&captures[positions[i]], collections, chunks, score);
        let ghost before = node_views(nodes@);
        nodes.push(node);
        assert(node.node_view() == source_node(sources[i as int], collections@, chunks@, node_score(qv, sources, scores@, i as int)));
        assert(node_views(nodes@) =~= before.push(node.node_view()));
        assert(Seq::new(
            (i + 1) as nat,
            |k: int| source_node(sources[k], collections@, chunks@, node_score(qv, sources, scores@, k)),
        ) =~= Seq::new(
            i as nat,
            |k: int| source_node(sources[k], collections@, chunks@, node_score(qv, sources, scores@, k)),
        ).push(node.node_view()));
        assert(node_views(nodes@) =~= with_hubs + Seq::new(
            (i + 1) as nat,
            |k: int| source_node(sources[k], collections@, chunks@, node_score(qv, sources, scores@, k)),
        ));
        i += 1;
    }
    // Edges: each source from its hub.
    let mut edges: Vec<FlowGraphEdge> = Vec::new();
    assert(flow_edge_views(edges@) =~= Seq::<FlowEdgeView>::empty());
    let mut c: usize = 0;
    while c < n
        invariant
            n == positions@.len(),
            sources == positions@.map_values(|p: usize| captures@[p as int]),
            forall|k: int| 0 <= k < n ==> #[trigger] positions@[k] < captures@.len(),
            c <= n,
            flow_edge_views(edges@) == contains_edges(sources, c as nat),
        decreases n - c,
    {
        let cap = &captures[positions[c]];
        let from = flow_hub_node_id(cap.collection_id.as_str());
        let to = flow_source_node_id(cap.id.as_str());
        push_flow_edge(&mut edges, from.as_str(), to.as_str(), FlowGraphEdgeKind::Contains, FLOW_CONTAINS_WEIGHT);
        c += 1;
    }
    // The query's matches.
    let ghost linked0 = flow_edge_views(edges@);
    if is_scored {
        let perm = rank_entries(&entries);
        let ghost ranked = sort_by(entry_views(entries@), strongest_first());
        proof {
            lemma_sort_by_len(entry_views(entries@), strongest_first());
        }
        let m = if perm.len() < FLOW_GRAPH_QUERY_MATCH_LIMIT {
            perm.len()
        } else {
            FLOW_GRAPH_QUERY_MATCH_LIMIT
        };
        proof {
            reveal_strlit("query");
        }
        let mut k: usize = 0;
        while k < m
            invariant
                m <= perm@.len(),
                perm@.len() == entries@.len(),
                forall|t: int| 0 <= t < perm@.len() ==> #[trigger] perm@[t] < entries@.len(),
                perm@.map_values(|p: usize| entry_views(entries@)[p as int]) == ranked,
                k <= m,
                flow_edge_views(edges@) == match_edges(linked0, ranked, k as nat),
            decreases m - k,
        {
            let e = &entries[perm[k]];
            assert(ranked[k as int] == entry_views(entries@)[perm@[k as int] as int]);
            if e.1 >= FLOW_GRAPH_MIN_EDGE_SCORE {
                push_flow_edge(&mut edges, "query", e.0.as_str(), FlowGraphEdgeKind::QueryMatch, e.1);
            }
            k += 1;
        }
    }
    let ghost linked = flow_edge_views(edges@);
    assert(linked == query_edges(contains_edges(sources, n as nat), qv, sources, scores@));
    // Similar sources.
    let ranked_pairs_v = rank_pairs(pairs);
    let ghost rp = ranked_pairs(pairs@);
    let r_len = ranked_pairs_v.len();
    let mut nodes_of_pairs: Vec<(usize, usize)> = Vec::new();
    let mut t: usize = 0;
    proof {
        assert forall|k: int| 0 <= k < rp.len() implies (#[trigger] rp[k]).0 < n && rp[k].1 < n by {
            lemma_ranked_pairs_in_range(pairs@, n as int, k);
        }
    }
    while t < r_len
        invariant
            r_len == ranked_pairs_v@.len(),
            ranked_pairs_v@ == rp,
            n == positions@.len(),
            sources == positions@.map_values(|p: usize| captures@[p as int]),
            forall|k: int| 0 <= k < n ==> #[trigger] positions@[k] < captures@.len(),
            forall|k: int| 0 <= k < rp.len() ==> (#[trigger] rp[k]).0 < n && rp[k].1 < n,
            t <= r_len,
            nodes_of_pairs@ == pair_nodes(sources, rp).take(t as int),
        decreases r_len - t,
    {
        let p = ranked_pairs_v[t];
        let a = canonical_of(captures, positions, p.0);
        let b = canonical_of(captures, positions, p.1);
        nodes_of_pairs.push((a, b));
        assert(pair_nodes(sources, rp).take(t + 1) =~= pair_nodes(sources, rp).take(t as int).push((a, b)));
        t += 1;
    }
    assert(pair_nodes(sources, rp).take(r_len as int) =~= pair_nodes(sources, rp));
    let chosen = select_semantic_edges(nodes_of_pairs.as_slice(), FLOW_GRAPH_MAX_SEMANTIC_EDGES, FLOW_GRAPH_NEIGHBORS_PER_SOURCE);
    let ghost ch = chosen@.map_values(|x: usize| x as int);
    proof {
        crate::shell::lemma_chosen_in_range(pair_nodes(sources, rp), FLOW_GRAPH_MAX_SEMANTIC_EDGES, FLOW_GRAPH_NEIGHBORS_PER_SOURCE);
    }
    let mut u: usize = 0;
    while u < chosen.len()
        invariant
            ch == chosen@.map_values(|x: usize| x as int),
            ch == chosen_edges(pair_nodes(sources, rp), FLOW_GRAPH_MAX_SEMANTIC_EDGES, FLOW_GRAPH_NEIGHBORS_PER_SOURCE),
            forall|k: int| 0 <= k < ch.len() ==> 0 <= #[trigger] ch[k] < rp.len(),
            ranked_pairs_v@ == rp,
            forall|k: int| 0 <= k < rp.len() ==> (#[trigger] rp[k]).0 < n && rp[k].1 < n,
            n == positions@.len(),
            sources == positions@.map_values(|p: usize| captures@[p as int]),
            crate::text::string_views(ids@) == source_ids(sources),
            ids@.len() == n,
            u <= chosen@.len(),
            flow_edge_views(edges@) == similarity_edges(linked, sources, rp, ch, u as nat),
        decreases chosen@.len() - u,
    {
        assert(ch[u as int] == chosen@[u as int] as int);
        let p = ranked_pairs_v[chosen[u]];
        assert(crate::text::string_views(ids@)[p.0 as int] == ids@[p.0 as int]@);
        assert(crate::text::string_views(ids@)[p.1 as int] == ids@[p.1 as int]@);
        push_flow_edge(&mut edges, ids[p.0].as_str(), ids[p.1].as_str(), FlowGraphEdgeKind::Semantic, p.2);
        u += 1;
    }
    let omitted = if indexed_count >= n {
        indexed_count - n
    } else {
        0
    };
    FlowGraph { query: q, nodes, edges, hub_count: hubs, source_count: n, omitted_source_count: omitted }
}

proof fn lemma_ranked_pairs_in_range(pairs: Seq<PairScore>, n: int, k: int)
    requires
        forall|j: int| 0 <= j < pairs.len() ==> (#[trigger] pairs[j]).0 < n && pairs[j].1 < n,
        0 <= k < ranked_pairs(pairs).len(),
    ensures
        ranked_pairs(pairs)[k].0 < n && ranked_pairs(pairs)[k].1 < n,
{
    let f = pairs.filter(strong_pair());
    assert forall|j: int| 0 <= j < f.len() implies (#[trigger] f[j]).0 < n && f[j].1 < n by {
        assert(f.contains(f[j]));
        pairs.lemma_filter_contains_rev(strong_pair(), f[j]);
    }
    crate::order::lemma_sort_by_contains(f, pair_order());
    assert(f.contains(ranked_pairs(pairs)[k]));
}


} // verus!
