//! Semantic trails: the list of captured sources related to a page or a query,
//! one entry per source, with excerpts and the reasons each was included.

use vstd::prelude::*;
use crate::text::{
    normalized_text, contains_seq, to_chars, from_chars, push_str_chars, push_all, subvec,
    str_contains, normalize_captured_text, str_eq, trim_ws, trim_str,
};
use crate::urls::{capture_url_key, tab_host, normalize_capture_url_key, get_tab_host};
use crate::tabs::copy_string;
use crate::extract::CapturedPage;

verus! {

/// Why a source is on the trail.
#[derive(Clone, Copy, Debug, PartialEq, Eq, Structural)]
pub enum SemanticTrailReason {
    SemanticMatch,
    RecentCapture,
    SameCollection,
}

/// `reasons` with `reason` appended unless already present.
pub open spec fn with_reason(reasons: Seq<SemanticTrailReason>, reason: SemanticTrailReason) -> Seq<
    SemanticTrailReason,
> {
    if reasons.contains(reason) {
        reasons
    } else {
        reasons.push(reason)
    }
}

/// Each of `more` added in turn.
pub open spec fn with_reasons(
    reasons: Seq<SemanticTrailReason>,
    more: Seq<SemanticTrailReason>,
) -> Seq<SemanticTrailReason>
    decreases more.len(),
{
    if more.len() == 0 {
        reasons
    } else {
        with_reason(with_reasons(reasons, more.drop_last()), more.last())
    }
}

pub fn add_semantic_trail_reason(reasons: &mut Vec<SemanticTrailReason>, reason: SemanticTrailReason)
    ensures
        final(reasons)@ == with_reason(old(reasons)@, reason),
{
    let n = reasons.len();
    let mut i: usize = 0;
    while i < n
        invariant
            n == reasons@.len(),
            i <= n,
            forall|k: int| 0 <= k < i ==> reasons@[k] != reason,
        decreases n - i,
    {
        if reasons[i] == reason {
            assert(reasons@[i as int] == reason);
            return;
        }
        i += 1;
    }
    reasons.push(reason);
}

/// Adds each of `more` in turn.
pub fn add_semantic_trail_reasons(reasons: &mut Vec<SemanticTrailReason>, more: &Vec<SemanticTrailReason>)
    ensures
        final(reasons)@ == with_reasons(old(reasons)@, more@),
{
    let m = more.len();
    let mut t: usize = 0;
    assert(more@.take(0) =~= Seq::<SemanticTrailReason>::empty());
    while t < m
        invariant
            m == more@.len(),
            t <= m,
            reasons@ == with_reasons(old(reasons)@, more@.take(t as int)),
        decreases m - t,
    {
        add_semantic_trail_reason(reasons, more[t]);
        assert(more@.take(t + 1).drop_last() =~= more@.take(t as int));
        t += 1;
    }
    assert(more@.take(m as int) =~= more@);
}

// ---------------------------------------------------------------------------
// Excerpts
// ---------------------------------------------------------------------------

/// Normalised text clipped to `limit` characters, with `…` when clipped.
pub open spec fn trail_excerpt(text: Seq<char>, limit: usize) -> Seq<char> {
    let n = normalized_text(text);
    if n.len() <= limit {
        n
    } else {
        n.take(limit as int).push('…')
    }
}

pub fn semantic_trail_excerpt(text: &str, limit: usize) -> (r: String)
    ensures
        r@ == trail_excerpt(text@, limit),
{
    let normalized = normalize_captured_text(text);
    let v = to_chars(normalized.as_str());
    if v.len() <= limit {
        return normalized;
    }
    let mut clipped = subvec(v.as_slice(), 0, limit);
    clipped.push('…');
    from_chars(clipped.as_slice())
}

/// A further passage of the same source, appended after a `[…]` separator
/// unless it is empty or already there.
pub open spec fn merged_excerpt(existing: Seq<char>, next: Seq<char>) -> Seq<char> {
    let n = trail_excerpt(next, 360);
    if n.len() == 0 || contains_seq(existing, n) {
        existing
    } else {
        trail_excerpt(existing + "\n\n[…]\n\n"@ + n, 920)
    }
}

pub fn merge_semantic_trail_excerpts(existing: &str, next: &str) -> (r: String)
    ensures
        r@ == merged_excerpt(existing@, next@),
{
    let n = semantic_trail_excerpt(next, 360);
    if n.as_str().is_empty() || str_contains(existing, n.as_str()) {
        return String::from_str(existing);
    }
    let mut joined = to_chars(existing);
    push_str_chars(&mut joined, "\n\n[…]\n\n");
    push_str_chars(&mut joined, n.as_str());
    let s = from_chars(joined.as_slice());
    semantic_trail_excerpt(s.as_str(), 920)
}

/// What a page is searched by when no query is typed: its title and the
/// start of its text, normalised.
pub open spec fn default_trail_query(title: Seq<char>, text: Seq<char>) -> Seq<char> {
    normalized_text(title + "\n\n"@ + trail_excerpt(text, 1600))
}

pub fn semantic_trail_default_query(captured: &CapturedPage) -> (r: String)
    ensures
        r@ == default_trail_query(captured.title@, captured.text@),
{
    let excerpt = semantic_trail_excerpt(captured.text.as_str(), 1600);
    let mut v = to_chars(captured.title.as_str());
    push_str_chars(&mut v, "\n\n");
    push_str_chars(&mut v, excerpt.as_str());
    let s = from_chars(v.as_slice());
    normalize_captured_text(s.as_str())
}

// ---------------------------------------------------------------------------
// Items
// ---------------------------------------------------------------------------

/// The parts of a stored chunk the trail reads.
pub struct TrailChunk {
    pub capture_id: String,
    pub collection_id: String,
    pub app_id: String,
    pub title: String,
    pub url: String,
    pub captured_at: String,
    pub chunk_index: usize,
    pub text: String,
}

/// A scored chunk; the score is carried through unchanged, so its type is the
/// caller's.
pub struct TrailCandidate<S> {
    pub chunk: TrailChunk,
    pub collection_name: String,
    pub score: S,
    pub reasons: Vec<SemanticTrailReason>,
}

/// One source on the trail.
pub struct SemanticTrailItem<S> {
    pub id: String,
    pub collection_id: String,
    pub collection_name: String,
    pub capture_id: String,
    pub app_id: String,
    pub title: String,
    pub url: String,
    pub host: String,
    pub captured_at: String,
    pub chunk_index: usize,
    pub excerpt: String,
    pub score: S,
    pub reasons: Vec<SemanticTrailReason>,
}

/// A trail item as values.
pub struct TrailItemView<S> {
    pub id: Seq<char>,
    pub collection_id: Seq<char>,
    pub collection_name: Seq<char>,
    pub capture_id: Seq<char>,
    pub app_id: Seq<char>,
    pub title: Seq<char>,
    pub url: Seq<char>,
    pub host: Seq<char>,
    pub captured_at: Seq<char>,
    pub chunk_index: usize,
    pub excerpt: Seq<char>,
    pub score: S,
    pub reasons: Seq<SemanticTrailReason>,
}

impl<S> SemanticTrailItem<S> {
    pub open spec fn item_view(&self) -> TrailItemView<S> {
        TrailItemView {
            id: self.id@,
            collection_id: self.collection_id@,
            collection_name: self.collection_name@,
            capture_id: self.capture_id@,
            app_id: self.app_id@,
            title: self.title@,
            url: self.url@,
            host: self.host@,
            captured_at: self.captured_at@,
            chunk_index: self.chunk_index,
            excerpt: self.excerpt@,
            score: self.score,
            reasons: self.reasons@,
        }
    }
}

pub open spec fn item_views<S>(items: Seq<SemanticTrailItem<S>>) -> Seq<TrailItemView<S>> {
    items.map_values(|i: SemanticTrailItem<S>| i.item_view())
}

/// The item a candidate starts when its source is new to the trail.
pub open spec fn new_item<S>(c: TrailCandidate<S>) -> TrailItemView<S> {
    TrailItemView {
        id: c.chunk.capture_id@,
        collection_id: c.chunk.collection_id@,
        collection_name: c.collection_name@,
        capture_id: c.chunk.capture_id@,
        app_id: c.chunk.app_id@,
        title: c.chunk.title@,
        url: c.chunk.url@,
        host: tab_host(c.chunk.url@),
        captured_at: c.chunk.captured_at@,
        chunk_index: c.chunk.chunk_index,
        excerpt: trail_excerpt(c.chunk.text@, 520),
        score: c.score,
        reasons: c.reasons@,
    }
}

/// A later candidate of the same source adds its passage and reasons.
pub open spec fn merged_item<S>(item: TrailItemView<S>, c: TrailCandidate<S>) -> TrailItemView<S> {
    TrailItemView {
        excerpt: merged_excerpt(item.excerpt, c.chunk.text@),
        reasons: with_reasons(item.reasons, c.reasons@),
        ..item
    }
}

/// The first item whose URL has capture key `key`.
pub open spec fn item_with_key<S>(items: Seq<TrailItemView<S>>, key: Seq<char>) -> Option<int>
    decreases items.len(),
{
    if items.len() == 0 {
        None
    } else {
        match item_with_key(items.drop_last(), key) {
            Some(i) => Some(i),
            None => if capture_url_key(items.last().url) == key {
                Some(items.len() - 1)
            } else {
                None
            },
        }
    }
}

/// Candidates, best first, folded into at most `limit` items, one per source
/// (capture key of the URL): the first candidate of a source makes its item,
/// later ones merge into it, and new sources past the limit are left out.
pub open spec fn trail_items<S>(cands: Seq<TrailCandidate<S>>, limit: usize) -> Seq<
    TrailItemView<S>,
>
    decreases cands.len(),
{
    if cands.len() == 0 {
        Seq::empty()
    } else {
        let items = trail_items(cands.drop_last(), limit);
        let c = cands.last();
        match item_with_key(items, capture_url_key(c.chunk.url@)) {
            Some(i) => items.update(i, merged_item(items[i], c)),
            None => if items.len() >= limit {
                items
            } else {
                items.push(new_item(c))
            },
        }
    }
}

pub proof fn lemma_item_with_key<S>(items: Seq<TrailItemView<S>>, key: Seq<char>)
    ensures
        match item_with_key(items, key) {
            Some(i) => 0 <= i < items.len() && capture_url_key(items[i].url) == key && forall|j: int|
                0 <= j < i ==> capture_url_key(#[trigger] items[j].url) != key,
            None => forall|j: int|
                0 <= j < items.len() ==> capture_url_key(#[trigger] items[j].url) != key,
        },
    decreases items.len(),
{
    if items.len() > 0 {
        lemma_item_with_key(items.drop_last(), key);
        assert forall|j: int| 0 <= j < items.len() - 1 implies items[j] == items.drop_last()[j] by {}
    }
}

/// The trail never holds more than `limit` items.
pub proof fn lemma_trail_items_bounded<S>(cands: Seq<TrailCandidate<S>>, limit: usize)
    ensures
        trail_items(cands, limit).len() <= limit,
    decreases cands.len(),
{
    if cands.len() > 0 {
        lemma_trail_items_bounded(cands.drop_last(), limit);
        lemma_item_with_key(
            trail_items(cands.drop_last(), limit),
            capture_url_key(cands.last().chunk.url@),
        );
    }
}

/// No two items share a source.
pub proof fn lemma_trail_items_distinct<S>(cands: Seq<TrailCandidate<S>>, limit: usize)
    ensures
        forall|i: int, j: int|
            0 <= i < j < trail_items(cands, limit).len() ==> capture_url_key(
                #[trigger] trail_items(cands, limit)[i].url,
            ) != capture_url_key(#[trigger] trail_items(cands, limit)[j].url),
    decreases cands.len(),
{
    if cands.len() > 0 {
        lemma_trail_items_distinct(cands.drop_last(), limit);
        let items = trail_items(cands.drop_last(), limit);
        lemma_item_with_key(items, capture_url_key(cands.last().chunk.url@));
    }
}

/// Index of `key` among `keys`.
fn find_key(keys: &Vec<String>, key: &String) -> (r: Option<usize>)
    ensures
        match r {
            Some(i) => i < keys@.len() && keys@[i as int]@ == key@ && forall|j: int|
                0 <= j < i ==> keys@[j]@ != key@,
            None => forall|j: int| 0 <= j < keys@.len() ==> keys@[j]@ != key@,
        },
{
    let n = keys.len();
    let mut i: usize = 0;
    while i < n
        invariant
            n == keys@.len(),
            i <= n,
            forall|j: int| 0 <= j < i ==> keys@[j]@ != key@,
        decreases n - i,
    {
        if str_eq(keys[i].as_str(), key.as_str()) {
            return Some(i);
        }
        i += 1;
    }
    None
}

/// Folds ranked candidates into the trail (see [`trail_items`]).
pub fn semantic_trail_items<S>(candidates: Vec<TrailCandidate<S>>, limit: usize) -> (r: Vec<
    SemanticTrailItem<S>,
>)
    ensures
        item_views(r@) == trail_items(candidates@, limit),
{
    let ghost cands = candidates@;
    let n = candidates.len();
    let mut rest = candidates;
    let mut items: Vec<SemanticTrailItem<S>> = Vec::new();
    let mut keys: Vec<String> = Vec::new();
    assert(cands.take(0) =~= Seq::<TrailCandidate<S>>::empty());
    assert(cands.skip(0) =~= cands);
    assert(item_views(items@) =~= Seq::<TrailItemView<S>>::empty());
    while rest.len() > 0
        invariant
            n == cands.len(),
            rest.len() <= n,
            rest@ == cands.skip(n - rest.len()),
            item_views(items@) == trail_items(cands.take(n - rest.len()), limit),
            keys@.len() == items@.len(),
            forall|j: int|
                0 <= j < keys@.len() ==> (#[trigger] keys@[j])@ == capture_url_key(items@[j].url@),
        decreases rest.len(),
    {
        let ghost k = n - rest.len();
        let ghost before = item_views(items@);
        let c = rest.remove(0);
        assert(c == cands[k]);
        assert(rest@ =~= cands.skip(k + 1));
        assert(cands.take(k + 1).drop_last() =~= cands.take(k));
        assert(cands.take(k + 1).last() == cands[k]);
        let key = normalize_capture_url_key(c.chunk.url.as_str());
        proof {
            lemma_item_with_key(before, key@);
            assert forall|j: int| 0 <= j < before.len() implies before[j].url == items@[j].url@ by {}
        }
        match find_key(&keys, &key) {
            Some(i) => {
                proof {
                    assert(keys@[i as int]@ == capture_url_key(items@[i as int].url@));
                    assert(before[i as int].url == items@[i as int].url@);
                    match item_with_key(before, key@) {
                        Some(f) => {
                            assert(keys@[f]@ == capture_url_key(items@[f].url@));
                            assert(before[f].url == items@[f].url@);
                        },
                        None => {},
                    }
                }
                assert(item_with_key(before, key@) == Some(i as int));
                let ghost old_item = items@[i as int];
                assert(before[i as int] == old_item.item_view());
                let mut item = items.remove(i);
                let excerpt = merge_semantic_trail_excerpts(item.excerpt.as_str(), c.chunk.text.as_str());
                item.excerpt = excerpt;
                add_semantic_trail_reasons(&mut item.reasons, &c.reasons);
                assert(item.item_view() == merged_item(before[i as int], c));
                items.insert(i, item);
                assert(item_views(items@) =~= before.update(i as int, merged_item(before[i as int], c)));
            },
            None => {
                proof {
                    match item_with_key(before, key@) {
                        Some(f) => {
                            assert(keys@[f]@ == capture_url_key(items@[f].url@));
                            assert(before[f].url == items@[f].url@);
                        },
                        None => {},
                    }
                }
                assert(item_with_key(before, key@) is None);
                if items.len() < limit {
                    let url = copy_string(&c.chunk.url);
                    let item = SemanticTrailItem {
                        id: copy_string(&c.chunk.capture_id),
                        collection_id: c.chunk.collection_id,
                        collection_name: c.collection_name,
                        capture_id: c.chunk.capture_id,
                        app_id: c.chunk.app_id,
                        title: c.chunk.title,
                        host: get_tab_host(url.as_str()),
                        url,
                        captured_at: c.chunk.captured_at,
                        chunk_index: c.chunk.chunk_index,
                        excerpt: semantic_trail_excerpt(c.chunk.text.as_str(), 520),
                        score: c.score,
                        reasons: c.reasons,
                    };
                    assert(item.item_view() == new_item(c));
                    items.push(item);
                    keys.push(key);
                    assert(item_views(items@) =~= before.push(new_item(c)));
                }
            },
        }
    }
    assert(cands.take(n as int) =~= cands);
    items
}

// ---------------------------------------------------------------------------
// Edges
// ---------------------------------------------------------------------------

#[derive(Clone, Copy, Debug, PartialEq, Eq, Structural)]
pub enum SemanticTrailEdgeKind {
    SemanticMatch,
    SameHost,
    SameCollection,
}

/// At most this many edges are drawn.
pub const TRAIL_MAX_EDGES: usize = 36;
/// Items linked to the root.
pub const TRAIL_ROOT_EDGE_ITEMS: usize = 12;
/// Items linked to one another.
pub const TRAIL_PAIR_EDGE_ITEMS: usize = 8;

/// An edge of the trail graph. Its weight is the score of `to_item` for an
/// edge from the root (`from_item` is `None`), else the lower score of the two
/// items.
pub struct SemanticTrailEdge {
    pub from: String,
    pub to: String,
    pub kind: SemanticTrailEdgeKind,
    pub from_item: Option<usize>,
    pub to_item: usize,
}

/// An edge as values: from, to, kind, from item, to item.
pub type EdgeView = (Seq<char>, Seq<char>, SemanticTrailEdgeKind, Option<int>, int);

pub open spec fn edge_view(e: SemanticTrailEdge) -> EdgeView {
    (e.from@, e.to@, e.kind, match e.from_item {
        Some(i) => Some(i as int),
        None => None,
    }, e.to_item as int)
}

/// `e` added unless the graph is full or it would be a loop.
pub open spec fn with_edge(edges: Seq<EdgeView>, e: EdgeView) -> Seq<EdgeView> {
    if edges.len() >= TRAIL_MAX_EDGES || e.0 == e.1 {
        edges
    } else {
        edges.push(e)
    }
}

/// The edges from the root to the first `k` items: every item matches the
/// root, and one on the root's host also shares it.
pub open spec fn root_edges<S>(items: Seq<TrailItemView<S>>, root_host: Seq<char>, k: nat) -> Seq<EdgeView>
    decreases k,
{
    if k == 0 {
        Seq::empty()
    } else {
        let i = k - 1;
        let prev = root_edges(items, root_host, (k - 1) as nat);
        let matched = with_edge(prev, ("root"@, items[i].id, SemanticTrailEdgeKind::SemanticMatch, None, i));
        if root_host.len() > 0 && root_host == items[i].host {
            with_edge(matched, ("root"@, items[i].id, SemanticTrailEdgeKind::SameHost, None, i))
        } else {
            matched
        }
    }
}

/// The edge between two items, if any: same hub, else same (known) host.
pub open spec fn pair_edge<S>(edges: Seq<EdgeView>, items: Seq<TrailItemView<S>>, a: int, b: int) -> Seq<
    EdgeView,
> {
    if items[a].collection_id == items[b].collection_id {
        with_edge(edges, (items[a].id, items[b].id, SemanticTrailEdgeKind::SameCollection, Some(a), b))
    } else if items[a].host.len() > 0 && items[a].host == items[b].host {
        with_edge(edges, (items[a].id, items[b].id, SemanticTrailEdgeKind::SameHost, Some(a), b))
    } else {
        edges
    }
}

/// The pairs of item `a` with items `a + 1 .. b`.
pub open spec fn pair_row<S>(edges: Seq<EdgeView>, items: Seq<TrailItemView<S>>, a: int, b: int) -> Seq<
    EdgeView,
>
    decreases b - a,
{
    if b <= a + 1 {
        edges
    } else {
        pair_edge(pair_row(edges, items, a, b - 1), items, a, b - 1)
    }
}

/// The pairs among the first `m` items, row by row for the first `a`.
pub open spec fn pair_rows<S>(edges: Seq<EdgeView>, items: Seq<TrailItemView<S>>, m: int, a: int) -> Seq<
    EdgeView,
>
    decreases a,
{
    if a <= 0 {
        edges
    } else {
        pair_row(pair_rows(edges, items, m, a - 1), items, a - 1, m)
    }
}

/// The trail graph: root edges for the first twelve items, then edges among
/// the first eight, capped at 36 edges.
pub open spec fn trail_edges<S>(items: Seq<TrailItemView<S>>, root_host: Seq<char>) -> Seq<EdgeView> {
    let k = if items.len() < TRAIL_ROOT_EDGE_ITEMS {
        items.len()
    } else {
        TRAIL_ROOT_EDGE_ITEMS as nat
    };
    let m = if items.len() < TRAIL_PAIR_EDGE_ITEMS {
        items.len() as int
    } else {
        TRAIL_PAIR_EDGE_ITEMS as int
    };
    pair_rows(root_edges(items, root_host, k), items, m, m)
}

fn has_text(s: &str) -> (r: bool)
    ensures
        r == (s@.len() > 0),
{
    to_chars(s).len() > 0
}

fn push_trail_edge(
    edges: &mut Vec<SemanticTrailEdge>,
    from: &str,
    to: &str,
    kind: SemanticTrailEdgeKind,
    from_item: Option<usize>,
    to_item: usize,
)
    ensures
        final(edges)@.map_values(|e: SemanticTrailEdge| edge_view(e)) == with_edge(
            old(edges)@.map_values(|e: SemanticTrailEdge| edge_view(e)),
            (from@, to@, kind, match from_item {
                Some(i) => Some(i as int),
                None => None,
            }, to_item as int),
        ),
{
    let ghost before = edges@.map_values(|e: SemanticTrailEdge| edge_view(e));
    if edges.len() >= TRAIL_MAX_EDGES || str_eq(from, to) {
        return;
    }
    let e = SemanticTrailEdge { from: String::from_str(from), to: String::from_str(to), kind, from_item, to_item };
    edges.push(e);
    assert(edges@.map_values(|e: SemanticTrailEdge| edge_view(e)) =~= before.push(edge_view(e)));
}

/// The edges of the trail graph for `items`, the root being on `root_host`
/// (empty when the trail has no page).
pub fn semantic_trail_edges<S>(root_host: &str, items: &[SemanticTrailItem<S>]) -> (r: Vec<SemanticTrailEdge>)
    ensures
        r@.map_values(|e: SemanticTrailEdge| edge_view(e)) == trail_edges(item_views(items@), root_host@),
{
    proof {
        reveal_strlit("root");
    }
    let ghost views = item_views(items@);
    let n = items.len();
    let k = if n < TRAIL_ROOT_EDGE_ITEMS {
        n
    } else {
        TRAIL_ROOT_EDGE_ITEMS
    };
    let mut edges: Vec<SemanticTrailEdge> = Vec::new();
    let mut i: usize = 0;
    assert(edges@.map_values(|e: SemanticTrailEdge| edge_view(e)) =~= Seq::<EdgeView>::empty());
    while i < k
        invariant
            views == item_views(items@),
            n == items@.len(),
            k <= n,
            i <= k,
            edges@.map_values(|e: SemanticTrailEdge| edge_view(e)) == root_edges(views, root_host@, i as nat),
        decreases k - i,
    {
        let item = &items[i];
        assert(views[i as int] == item.item_view());
        push_trail_edge(&mut edges, "root", item.id.as_str(), SemanticTrailEdgeKind::SemanticMatch, None, i);
        if has_text(root_host) && str_eq(root_host, item.host.as_str()) {
            push_trail_edge(&mut edges, "root", item.id.as_str(), SemanticTrailEdgeKind::SameHost, None, i);
        }
        i += 1;
    }
    let m = if n < TRAIL_PAIR_EDGE_ITEMS {
        n
    } else {
        TRAIL_PAIR_EDGE_ITEMS
    };
    let ghost base = edges@.map_values(|e: SemanticTrailEdge| edge_view(e));
    let mut a: usize = 0;
    while a < m
        invariant
            views == item_views(items@),
            n == items@.len(),
            m <= n,
            a <= m,
            edges@.map_values(|e: SemanticTrailEdge| edge_view(e)) == pair_rows(base, views, m as int, a as int),
        decreases m - a,
    {
        let ghost row_start = edges@.map_values(|e: SemanticTrailEdge| edge_view(e));
        let mut b: usize = a + 1;
        while b < m
            invariant
                views == item_views(items@),
                n == items@.len(),
                m <= n,
                a < m,
                a + 1 <= b <= m,
                edges@.map_values(|e: SemanticTrailEdge| edge_view(e)) == pair_row(row_start, views, a as int, b as int),
            decreases m - b,
        {
            let left = &items[a];
            let right = &items[b];
            assert(views[a as int] == left.item_view());
            assert(views[b as int] == right.item_view());
            if str_eq(left.collection_id.as_str(), right.collection_id.as_str()) {
                push_trail_edge(
                    &mut edges,
                    left.id.as_str(),
                    right.id.as_str(),
                    SemanticTrailEdgeKind::SameCollection,
                    Some(a),
                    b,
                );
            } else if has_text(left.host.as_str()) && str_eq(left.host.as_str(), right.host.as_str()) {
                push_trail_edge(&mut edges, left.id.as_str(), right.id.as_str(), SemanticTrailEdgeKind::SameHost, Some(a), b);
            }
            b += 1;
        }
        a += 1;
    }
    edges
}

// ---------------------------------------------------------------------------
// Starting a trail
// ---------------------------------------------------------------------------

pub const DEFAULT_SEMANTIC_TRAIL_LIMIT: usize = 12;
pub const MAX_SEMANTIC_TRAIL_LIMIT: usize = 24;
/// What the root of a trail built for a typed query says of itself.
pub const QUERY_ROOT_EXCERPT: &'static str = "Custom Focus lens matching captured sources across your knowledge hubs.";

/// The query or page a trail starts from.
pub struct SemanticTrailRoot {
    pub title: String,
    pub url: String,
    pub host: String,
    pub excerpt: String,
}

/// How a trail starts: from a typed query, or from the page in the active
/// tab, which must be read first.
pub enum TrailStart {
    Query(String),
    ReadActivePage,
}

/// A typed query, trimmed, when it is not blank.
pub open spec fn explicit_query(query: Option<Seq<char>>) -> Option<Seq<char>> {
    match query {
        Some(q) => if trim_ws(q).len() > 0 {
            Some(trim_ws(q))
        } else {
            None
        },
        None => None,
    }
}

pub open spec fn opt_str(query: Option<&str>) -> Option<Seq<char>> {
    match query {
        Some(q) => Some(q@),
        None => None,
    }
}

fn explicit_query_of(query: Option<&str>) -> (r: Option<String>)
    ensures
        r.deep_view() == explicit_query(opt_str(query)),
{
    match query {
        Some(q) => {
            let t = trim_str(q);
            if to_chars(t.as_str()).len() > 0 {
                Some(t)
            } else {
                None
            }
        },
        None => None,
    }
}

/// Where a trail starts: a typed query as it is; else the active page,
/// which there is none of while the dashboard is open or no tab is active.
pub fn semantic_trail_start(query: Option<&str>, dashboard_open: bool, has_active_tab: bool) -> (r: Result<
    TrailStart,
    String,
>)
    ensures
        explicit_query(opt_str(query)) matches Some(q) ==> (r matches Ok(TrailStart::Query(t)) && t@ == q),
        explicit_query(opt_str(query)) is None && dashboard_open ==> (r matches Err(e) && e@
            == "Open a web page before building Flow."@),
        explicit_query(opt_str(query)) is None && !dashboard_open && !has_active_tab ==> (r matches Err(e)
            && e@ == "No active browser tab."@),
        explicit_query(opt_str(query)) is None && !dashboard_open && has_active_tab ==> r matches Ok(
            TrailStart::ReadActivePage,
        ),
{
    match explicit_query_of(query) {
        Some(q) => Ok(TrailStart::Query(q)),
        None => {
            if dashboard_open {
                Err(String::from_str("Open a web page before building Flow."))
            } else if !has_active_tab {
                Err(String::from_str("No active browser tab."))
            } else {
                Ok(TrailStart::ReadActivePage)
            }
        },
    }
}

/// How many items a trail holds: the number asked for, else 12, within
/// 1 ..= 24.
pub open spec fn trail_limit(limit: Option<usize>) -> int {
    let l = match limit {
        Some(l) => l as int,
        None => DEFAULT_SEMANTIC_TRAIL_LIMIT as int,
    };
    if l < 1 {
        1
    } else if l > MAX_SEMANTIC_TRAIL_LIMIT {
        MAX_SEMANTIC_TRAIL_LIMIT as int
    } else {
        l
    }
}

/// Everything a trail search needs before it looks at stored passages.
pub struct TrailPlan {
    pub root: SemanticTrailRoot,
    /// The query the result shows.
    pub visible_query: String,
    /// The text embedded to search with.
    pub embedding_query: String,
    pub limit: usize,
    /// Hubs that already hold the root page; items from them are marked as
    /// from the same collection.
    pub root_collection_ids: Vec<String>,
}

/// The hubs holding a capture of the page whose capture key is `key`.
pub open spec fn holds_page(captures: Seq<crate::library::CaptureSummary>, key: Seq<char>, id: Seq<char>) -> bool {
    exists|i: int| 0 <= i < captures.len() && capture_url_key((#[trigger] captures[i]).url@) == key && captures[i].collection_id@ == id
}

proof fn lemma_holds_page_push(s: Seq<crate::library::CaptureSummary>, c: crate::library::CaptureSummary, key: Seq<char>, id: Seq<char>)
    ensures
        holds_page(s.push(c), key, id) <==> (holds_page(s, key, id) || (capture_url_key(c.url@) == key && c.collection_id@ == id)),
{
    let t = s.push(c);
    if holds_page(s, key, id) {
        let w = choose|w: int| 0 <= w < s.len() && capture_url_key((#[trigger] s[w]).url@) == key && s[w].collection_id@ == id;
        assert(t[w] == s[w]);
    }
    if capture_url_key(c.url@) == key && c.collection_id@ == id {
        assert(t[s.len() as int] == c);
    }
    if holds_page(t, key, id) {
        let w = choose|w: int| 0 <= w < t.len() && capture_url_key((#[trigger] t[w]).url@) == key && t[w].collection_id@ == id;
        if w < s.len() {
            assert(t[w] == s[w]);
        }
    }
}

fn contains_string(v: &Vec<String>, s: &str) -> (r: bool)
    ensures
        r == exists|i: int| 0 <= i < v@.len() && (#[trigger] v@[i])@ == s@,
{
    let n = v.len();
    let mut i: usize = 0;
    while i < n
        invariant
            n == v@.len(),
            i <= n,
            forall|j: int| 0 <= j < i ==> (#[trigger] v@[j])@ != s@,
        decreases n - i,
    {
        if str_eq(v[i].as_str(), s) {
            return true;
        }
        i += 1;
    }
    false
}

/// The distinct hubs holding the page whose capture key is `key`.
fn hubs_holding(captures: &[crate::library::CaptureSummary], key: &str) -> (r: Vec<String>)
    ensures
        forall|i: int, j: int| 0 <= i < j < r@.len() ==> (#[trigger] r@[i])@ != (#[trigger] r@[j])@,
        forall|id: Seq<char>| (exists|i: int| 0 <= i < r@.len() && (#[trigger] r@[i])@ == id) <==> holds_page(captures@, key@, id),
{
    let n = captures.len();
    let mut out: Vec<String> = Vec::new();
    let mut i: usize = 0;
    while i < n
        invariant
            n == captures@.len(),
            i <= n,
            forall|a: int, b: int| 0 <= a < b < out@.len() ==> (#[trigger] out@[a])@ != (#[trigger] out@[b])@,
            forall|id: Seq<char>| (exists|k: int| 0 <= k < out@.len() && (#[trigger] out@[k])@ == id) <==> holds_page(captures@.take(i as int), key@, id),
        decreases n - i,
    {
        let c = &captures[i];
        let ck = normalize_capture_url_key(c.url.as_str());
        let ghost before = out@;
        let matched = str_eq(ck.as_str(), key);
        if matched && !contains_string(&out, c.collection_id.as_str()) {
            out.push(copy_string(&c.collection_id));
        }
        proof {
            let t = captures@.take(i + 1);
            assert(t =~= captures@.take(i as int).push(*c));
            assert forall|id: Seq<char>| (exists|k: int| 0 <= k < out@.len() && (#[trigger] out@[k])@ == id) <==> holds_page(t, key@, id) by {
                lemma_holds_page_push(captures@.take(i as int), *c, key@, id);
                if exists|k: int| 0 <= k < before.len() && (#[trigger] before[k])@ == id {
                    let k = choose|k: int| 0 <= k < before.len() && (#[trigger] before[k])@ == id;
                    assert(out@[k] == before[k]);
                }
                if exists|k: int| 0 <= k < out@.len() && (#[trigger] out@[k])@ == id {
                    let k = choose|k: int| 0 <= k < out@.len() && (#[trigger] out@[k])@ == id;
                    if k < before.len() {
                        assert(out@[k] == before[k]);
                    }
                }
                if matched && c.collection_id@ == id && !(exists|k: int| 0 <= k < before.len() && (#[trigger] before[k])@ == id) {
                    assert(out@[before.len() as int]@ == id);
                }
            }
        }
        i += 1;
    }
    assert(captures@.take(n as int) =~= captures@);
    out
}

/// The plan of a trail: for a typed query, a root that is the query itself,
/// searched as typed, with no hub holding it; for the active page, a root
/// with the page's title, address, host and a 420-character excerpt, shown
/// as the page's title, searched with the page's default query, and held by
/// the hubs that captured the same page. The limit as [`trail_limit`] says.
pub fn semantic_trail_plan(
    query: Option<&str>,
    page: Option<&CapturedPage>,
    captures: &[crate::library::CaptureSummary],
    limit: Option<usize>,
) -> (r: TrailPlan)
    requires
        explicit_query(opt_str(query)) is Some || page is Some,
    ensures
        r.limit == trail_limit(limit),
        explicit_query(opt_str(query)) matches Some(q) ==> {
            &&& r.root.title@ == q
            &&& r.root.url@.len() == 0
            &&& r.root.host@.len() == 0
            &&& r.root.excerpt@ == QUERY_ROOT_EXCERPT@
            &&& r.visible_query@ == q
            &&& r.embedding_query@ == q
            &&& r.root_collection_ids@.len() == 0
        },
        explicit_query(opt_str(query)) is None ==> (page matches Some(p) && {
            &&& r.root.title@ == p.title@
            &&& r.root.url@ == p.url@
            &&& r.root.host@ == tab_host(p.url@)
            &&& r.root.excerpt@ == trail_excerpt(p.text@, 420)
            &&& r.visible_query@ == p.title@
            &&& r.embedding_query@ == default_trail_query(p.title@, p.text@)
            &&& forall|i: int, j: int| 0 <= i < j < r.root_collection_ids@.len() ==> (#[trigger] r.root_collection_ids@[i])@ != (#[trigger] r.root_collection_ids@[j])@
            &&& forall|id: Seq<char>| (exists|i: int| 0 <= i < r.root_collection_ids@.len() && (#[trigger] r.root_collection_ids@[i])@ == id) <==> holds_page(captures@, capture_url_key(p.url@), id)
        }),
{
    let l = match limit {
        Some(l) => l,
        None => DEFAULT_SEMANTIC_TRAIL_LIMIT,
    };
    let limit = if l < 1 {
        1
    } else if l > MAX_SEMANTIC_TRAIL_LIMIT {
        MAX_SEMANTIC_TRAIL_LIMIT
    } else {
        l
    };
    match explicit_query_of(query) {
        Some(q) => TrailPlan {
            root: SemanticTrailRoot {
                title: copy_string(&q),
                url: String::new(),
                host: String::new(),
                excerpt: String::from_str(QUERY_ROOT_EXCERPT),
            },
            visible_query: copy_string(&q),
            embedding_query: q,
            limit,
            root_collection_ids: Vec::new(),
        },
        None => {
            let p = page.unwrap();
            let key = normalize_capture_url_key(p.url.as_str());
            let ids = hubs_holding(captures, key.as_str());
            let ghost ids_view = ids@;
            assert(key@ == capture_url_key(p.url@));
            let r = TrailPlan {
                root: SemanticTrailRoot {
                    title: copy_string(&p.title),
                    url: copy_string(&p.url),
                    host: get_tab_host(p.url.as_str()),
                    excerpt: semantic_trail_excerpt(p.text.as_str(), 420),
                },
                visible_query: copy_string(&p.title),
                embedding_query: semantic_trail_default_query(p),
                limit,
                root_collection_ids: ids,
            };
            assert forall|id: Seq<char>| (exists|i: int| 0 <= i < r.root_collection_ids@.len() && (#[trigger] r.root_collection_ids@[i])@ == id) <==> holds_page(captures@, capture_url_key(p.url@), id) by {
                assert(holds_page(captures@, key@, id) == holds_page(captures@, capture_url_key(p.url@), id));
                assert(r.root_collection_ids@ == ids_view);
                assert((exists|i: int| 0 <= i < ids_view.len() && (#[trigger] ids_view[i])@ == id) <==> holds_page(captures@, key@, id));
            }
            r
        },
    }
}

} // verus!
