//! Library search: one row per captured source, each with its best-matching
//! passage and how many of its passages matched, ranked best first.
//!
//! Scores are in tenths of a point (`0 ..= 1000`), the precision every match
//! score is rounded to.

use vstd::prelude::*;
use crate::text::{unicode_lowercase, contains_seq, to_lowercase, str_contains, str_eq, first_n};
use crate::order::{seq_lt, chars_lt, sort_by, lemma_insert_pos_by, lemma_sort_by_len, lemma_sort_by_keeps_keys_distinct};
use crate::library::CollectionSummary;
use crate::gather::{hub_name, hub_name_of};
use crate::trail::{trail_excerpt, semantic_trail_excerpt};
use crate::urls::{tab_host, get_tab_host};
use crate::tabs::copy_string;
use crate::urls::normalize_citation_key;
use crate::dossier::AirDossierSource;
use crate::extract::CapturedPage;

verus! {

/// The parts of a stored chunk a search reads.
pub struct SearchChunk {
    pub capture_id: String,
    pub collection_id: String,
    pub title: String,
    pub url: String,
    pub captured_at: String,
    pub text: String,
}

/// One source in the results.
pub struct LibrarySearchHit {
    pub capture_id: String,
    pub collection_id: String,
    pub collection_name: String,
    pub title: String,
    pub url: String,
    pub host: String,
    pub captured_at: String,
    pub excerpt: String,
    /// The best passage's score, in tenths.
    pub score: u32,
    pub chunk_matches: usize,
}

/// A result row as values: capture, hub, hub name, title, URL, host, capture
/// time, excerpt, score, matching passages.
pub type HitView = (Seq<char>, Seq<char>, Seq<char>, Seq<char>, Seq<char>, Seq<char>, Seq<char>, Seq<char>, int, int);

pub open spec fn hit_view(h: LibrarySearchHit) -> HitView {
    (
        h.capture_id@,
        h.collection_id@,
        h.collection_name@,
        h.title@,
        h.url@,
        h.host@,
        h.captured_at@,
        h.excerpt@,
        h.score as int,
        h.chunk_matches as int,
    )
}

pub open spec fn hit_views(hs: Seq<LibrarySearchHit>) -> Seq<HitView> {
    hs.map_values(|h: LibrarySearchHit| hit_view(h))
}

/// Title matches count 70 points, URL matches 20, body matches 25, capped at
/// 100; an empty needle matches nothing.
pub open spec fn literal_score(needle: Seq<char>, title: Seq<char>, url: Seq<char>, text: Seq<char>) -> int {
    if needle.len() == 0 {
        0
    } else {
        let s = (if contains_seq(unicode_lowercase(title), needle) {
            700int
        } else {
            0
        }) + (if contains_seq(unicode_lowercase(url), needle) {
            200int
        } else {
            0
        }) + (if contains_seq(unicode_lowercase(text), needle) {
            250int
        } else {
            0
        });
        if s > 1000 {
            1000
        } else {
            s
        }
    }
}

/// The score of a chunk for a literal search (no embedding model): title and
/// host matches outrank body matches.
pub fn literal_match_score(needle: &str, chunk: &SearchChunk) -> (r: u32)
    ensures
        r as int == literal_score(needle@, chunk.title@, chunk.url@, chunk.text@),
{
    if !has_text(needle) {
        return 0;
    }
    let mut score: u32 = 0;
    if str_contains(to_lowercase(chunk.title.as_str()).as_str(), needle) {
        score = score + 700;
    }
    if str_contains(to_lowercase(chunk.url.as_str()).as_str(), needle) {
        score = score + 200;
    }
    if str_contains(to_lowercase(chunk.text.as_str()).as_str(), needle) {
        score = score + 250;
    }
    if score > 1000 {
        1000
    } else {
        score
    }
}

fn has_text(s: &str) -> (r: bool)
    ensures
        r == (s@.len() > 0),
{
    crate::text::to_chars(s).len() > 0
}

pub open spec fn in_scope(c: SearchChunk, scope: Option<Seq<char>>) -> bool {
    match scope {
        Some(id) => c.collection_id@ == id,
        None => true,
    }
}

/// The first row for capture `id`.
pub open spec fn hit_for(hits: Seq<HitView>, id: Seq<char>) -> Option<int>
    decreases hits.len(),
{
    if hits.len() == 0 {
        None
    } else {
        match hit_for(hits.drop_last(), id) {
            Some(i) => Some(i),
            None => if hits.last().0 == id {
                Some(hits.len() - 1)
            } else {
                None
            },
        }
    }
}

pub open spec fn new_hit(c: SearchChunk, score: int, cols: Seq<CollectionSummary>) -> HitView {
    (
        c.capture_id@,
        c.collection_id@,
        match hub_name(cols, c.collection_id@) {
            Some(n) => n,
            None => "Unknown hub"@,
        },
        c.title@,
        c.url@,
        tab_host(c.url@),
        c.captured_at@,
        trail_excerpt(c.text@, 240),
        score,
        1,
    )
}

/// Another matching passage of a source: counted, and shown when it scores
/// higher than the best so far.
pub open spec fn matched_again(h: HitView, c: SearchChunk, score: int) -> HitView {
    if score > h.8 {
        (h.0, h.1, h.2, h.3, h.4, h.5, h.6, trail_excerpt(c.text@, 240), score, h.9 + 1)
    } else {
        (h.0, h.1, h.2, h.3, h.4, h.5, h.6, h.7, h.8, h.9 + 1)
    }
}

/// The rows for the first `k` chunks: each in-scope chunk with a positive
/// score starts its source's row or adds to it.
pub open spec fn grouped(
    chunks: Seq<SearchChunk>,
    scores: Seq<u32>,
    cols: Seq<CollectionSummary>,
    scope: Option<Seq<char>>,
    k: int,
) -> Seq<HitView>
    decreases k,
{
    if k <= 0 {
        Seq::empty()
    } else {
        let prev = grouped(chunks, scores, cols, scope, k - 1);
        let c = chunks[k - 1];
        let s = scores[k - 1] as int;
        if !in_scope(c, scope) || s == 0 {
            prev
        } else {
            match hit_for(prev, c.capture_id@) {
                Some(i) => prev.update(i, matched_again(prev[i], c, s)),
                None => prev.push(new_hit(c, s, cols)),
            }
        }
    }
}

/// How many of the first `k` chunks are in scope.
pub open spec fn scoped_count(chunks: Seq<SearchChunk>, scope: Option<Seq<char>>, k: int) -> nat
    decreases k,
{
    if k <= 0 {
        0
    } else {
        scoped_count(chunks, scope, k - 1) + if in_scope(chunks[k - 1], scope) {
            1nat
        } else {
            0nat
        }
    }
}

/// `a` ranks strictly before `b`: higher score, then newer, then by capture id.
pub open spec fn ranks_before(a: HitView, b: HitView) -> bool {
    a.8 > b.8 || (a.8 == b.8 && (seq_lt(b.6, a.6) || (a.6 == b.6 && seq_lt(a.0, b.0))))
}

pub open spec fn hit_order() -> spec_fn(HitView, HitView) -> bool {
    |a: HitView, b: HitView| !ranks_before(b, a)
}

/// The results: rows ranked best first, at most `limit` of them.
pub open spec fn ranked_hits(
    chunks: Seq<SearchChunk>,
    scores: Seq<u32>,
    cols: Seq<CollectionSummary>,
    scope: Option<Seq<char>>,
    limit: nat,
) -> Seq<HitView> {
    first_n(sort_by(grouped(chunks, scores, cols, scope, chunks.len() as int), hit_order()), limit)
}

fn find_hit(hits: &Vec<LibrarySearchHit>, id: &str) -> (r: Option<usize>)
    ensures
        r matches Some(i) ==> hit_for(hit_views(hits@), id@) == Some(i as int) && i < hits@.len(),
        r is None ==> hit_for(hit_views(hits@), id@) is None,
{
    let ghost hv = hit_views(hits@);
    let n = hits.len();
    let mut i: usize = 0;
    while i < n
        invariant
            n == hits@.len(),
            hv == hit_views(hits@),
            i <= n,
            hit_for(hv.take(i as int), id@) is None,
        decreases n - i,
    {
        assert(hv.take(i + 1).drop_last() =~= hv.take(i as int));
        assert(hv.take(i + 1).last() == hit_view(hits@[i as int]));
        if str_eq(hits[i].capture_id.as_str(), id) {
            proof {
                lemma_hit_for_found(hv, id@, i as int);
            }
            return Some(i);
        }
        i += 1;
    }
    assert(hv.take(n as int) =~= hv);
    None
}

proof fn lemma_hit_for_found(hs: Seq<HitView>, id: Seq<char>, k: int)
    requires
        0 <= k < hs.len(),
        hit_for(hs.take(k), id) is None,
        hs[k].0 == id,
    ensures
        hit_for(hs, id) == Some(k),
    decreases hs.len(),
{
    assert(hs.take(k + 1).drop_last() =~= hs.take(k));
    if k + 1 < hs.len() {
        assert(hs.drop_last().take(k) =~= hs.take(k));
        lemma_hit_for_found(hs.drop_last(), id, k);
    } else {
        assert(hs.take(k + 1) =~= hs);
    }
}

fn copy_hit(h: &LibrarySearchHit) -> (r: LibrarySearchHit)
    ensures
        hit_view(r) == hit_view(*h),
{
    LibrarySearchHit {
        capture_id: copy_string(&h.capture_id),
        collection_id: copy_string(&h.collection_id),
        collection_name: copy_string(&h.collection_name),
        title: copy_string(&h.title),
        url: copy_string(&h.url),
        host: copy_string(&h.host),
        captured_at: copy_string(&h.captured_at),
        excerpt: copy_string(&h.excerpt),
        score: h.score,
        chunk_matches: h.chunk_matches,
    }
}

fn ranks_before_at(hits: &Vec<LibrarySearchHit>, a: usize, b: usize) -> (r: bool)
    requires
        a < hits@.len(),
        b < hits@.len(),
    ensures
        r == ranks_before(hit_view(hits@[a as int]), hit_view(hits@[b as int])),
{
    let x = &hits[a];
    let y = &hits[b];
    let xa = crate::text::to_chars(x.captured_at.as_str());
    let ya = crate::text::to_chars(y.captured_at.as_str());
    x.score > y.score || (x.score == y.score && (chars_lt(ya.as_slice(), xa.as_slice()) || (
    crate::text::chars_eq(xa.as_slice(), ya.as_slice()) && chars_lt(
        crate::text::to_chars(x.capture_id.as_str()).as_slice(),
        crate::text::to_chars(y.capture_id.as_str()).as_slice(),
    ))))
}

/// Ranks the chunks' sources for a search (see [`ranked_hits`]). `scores`
/// holds each chunk's match score in tenths; `scope` limits the search to one
/// hub. Also says how many chunks were in scope.
pub fn rank_library_hits(
    chunks: &[SearchChunk],
    scores: &[u32],
    collections: &[CollectionSummary],
    scope: Option<&str>,
    limit: usize,
) -> (r: (Vec<LibrarySearchHit>, usize))
    requires
        scores@.len() == chunks@.len(),
    ensures
        hit_views(r.0@) == ranked_hits(
            chunks@,
            scores@,
            collections@,
            match scope {
                Some(id) => Some(id@),
                None => None,
            },
            limit as nat,
        ),
        r.1 == scoped_count(
            chunks@,
            match scope {
                Some(id) => Some(id@),
                None => None,
            },
            chunks@.len() as int,
        ),
{
    let ghost sc = match scope {
        Some(id) => Some(id@),
        None => None,
    };
    let n = chunks.len();
    let mut hits: Vec<LibrarySearchHit> = Vec::new();
    let mut examined: usize = 0;
    let mut k: usize = 0;
    assert(hit_views(hits@) =~= Seq::<HitView>::empty());
    while k < n
        invariant
            n == chunks@.len(),
            scores@.len() == n,
            sc == match scope {
                Some(id) => Some(id@),
                None => None,
            },
            k <= n,
            examined <= k,
            examined == scoped_count(chunks@, sc, k as int),
            hit_views(hits@) == grouped(chunks@, scores@, collections@, sc, k as int),
            forall|q: int| 0 <= q < hits@.len() ==> (#[trigger] hits@[q]).chunk_matches <= k,
        decreases n - k,
    {
        let c = &chunks[k];
        let s = scores[k];
        let in_hub = match scope {
            Some(id) => str_eq(c.collection_id.as_str(), id),
            None => true,
        };
        assert(in_hub == in_scope(chunks@[k as int], sc));
        if in_hub {
            examined += 1;
        }
        let ghost prev = hit_views(hits@);
        if in_hub && s > 0 {
            match find_hit(&hits, c.capture_id.as_str()) {
                Some(i) => {
                    let mut h = hits.remove(i);
                    h.chunk_matches = h.chunk_matches + 1;
                    if s > h.score {
                        h.score = s;
                        h.excerpt = semantic_trail_excerpt(c.text.as_str(), 240);
                    }
                    hits.insert(i, h);
                    assert forall|q: int| 0 <= q < hits@.len() implies (#[trigger] hits@[q]).chunk_matches <= k + 1 by {}
                    assert(hit_views(hits@) =~= prev.update(i as int, matched_again(prev[i as int], *c, s as int)));
                },
                None => {
                    proof {
                        reveal_strlit("Unknown hub");
                    }
                    let name = match hub_name_of(collections, c.collection_id.as_str()) {
                        Some(name) => name,
                        None => String::from_str("Unknown hub"),
                    };
                    let h = LibrarySearchHit {
                        capture_id: copy_string(&c.capture_id),
                        collection_id: copy_string(&c.collection_id),
                        collection_name: name,
                        title: copy_string(&c.title),
                        url: copy_string(&c.url),
                        host: get_tab_host(c.url.as_str()),
                        captured_at: copy_string(&c.captured_at),
                        excerpt: semantic_trail_excerpt(c.text.as_str(), 240),
                        score: s,
                        chunk_matches: 1,
                    };
                    hits.push(h);
                    assert(hit_views(hits@) =~= prev.push(new_hit(*c, s as int, collections@)));
                },
            }
        }
        k += 1;
    }
    let ghost groups = hit_views(hits@);
    let m = hits.len();
    let mut perm: Vec<usize> = Vec::new();
    let mut i: usize = 0;
    while i < m
        invariant
            m == hits@.len(),
            groups == hit_views(hits@),
            i <= m,
            perm@.len() == i,
            forall|q: int| 0 <= q < perm@.len() ==> #[trigger] perm@[q] < i,
            perm@.map_values(|p: usize| groups[p as int]) == sort_by(groups.take(i as int), hit_order()),
        decreases m - i,
    {
        let ghost sorted = sort_by(groups.take(i as int), hit_order());
        let mut j: usize = 0;
        while j < perm.len() && !ranks_before_at(&hits, i, perm[j])
            invariant
                m == hits@.len(),
                groups == hit_views(hits@),
                i < m,
                perm@.len() == i,
                forall|q: int| 0 <= q < perm@.len() ==> #[trigger] perm@[q] < i,
                sorted == perm@.map_values(|p: usize| groups[p as int]),
                j <= perm@.len(),
                forall|q: int| 0 <= q < j ==> (hit_order())(#[trigger] sorted[q], groups[i as int]),
            decreases perm@.len() - j,
        {
            j += 1;
        }
        proof {
            lemma_insert_pos_by(sorted, groups[i as int], hit_order(), j as int);
            assert(groups.take(i + 1).drop_last() =~= groups.take(i as int));
            assert(groups.take(i + 1).last() == groups[i as int]);
        }
        perm.insert(j, i);
        assert(perm@.map_values(|p: usize| groups[p as int]) =~= sorted.insert(j as int, groups[i as int]));
        i += 1;
    }
    assert(groups.take(m as int) =~= groups);
    let ghost ordered = sort_by(groups, hit_order());
    proof {
        lemma_sort_by_len(groups, hit_order());
    }
    let count = if m < limit {
        m
    } else {
        limit
    };
    let mut out: Vec<LibrarySearchHit> = Vec::new();
    let mut q: usize = 0;
    while q < count
        invariant
            m == hits@.len(),
            m == perm@.len(),
            groups == hit_views(hits@),
            forall|t: int| 0 <= t < m ==> #[trigger] perm@[t] < m,
            perm@.map_values(|p: usize| groups[p as int]) == ordered,
            count <= m,
            q <= count,
            hit_views(out@) == ordered.take(q as int),
        decreases count - q,
    {
        let p = perm[q];
        assert(ordered[q as int] == groups[p as int]);
        let h = copy_hit(&hits[p]);
        let ghost before = hit_views(out@);
        out.push(h);
        assert(hit_views(out@) =~= before.push(hit_view(h)));
        assert(ordered.take(q + 1) =~= ordered.take(q as int).push(ordered[q as int]));
        q += 1;
    }
    assert(first_n(ordered, limit as nat) =~= ordered.take(count as int));
    (out, examined)
}

proof fn lemma_hit_for(hs: Seq<HitView>, id: Seq<char>)
    ensures
        match hit_for(hs, id) {
            Some(i) => 0 <= i < hs.len() && hs[i].0 == id,
            None => forall|j: int| 0 <= j < hs.len() ==> hs[j].0 != id,
        },
    decreases hs.len(),
{
    if hs.len() > 0 {
        lemma_hit_for(hs.drop_last(), id);
        assert forall|j: int| 0 <= j < hs.len() - 1 implies hs.drop_last()[j] == hs[j] by {}
    }
}

proof fn lemma_grouped(
    chunks: Seq<SearchChunk>,
    scores: Seq<u32>,
    cols: Seq<CollectionSummary>,
    scope: Option<Seq<char>>,
    k: int,
)
    requires
        k <= chunks.len(),
    ensures
        forall|i: int, j: int|
            0 <= i < j < grouped(chunks, scores, cols, scope, k).len() ==> (#[trigger] grouped(
                chunks,
                scores,
                cols,
                scope,
                k,
            )[i]).0 != (#[trigger] grouped(chunks, scores, cols, scope, k)[j]).0,
        forall|i: int|
            0 <= i < grouped(chunks, scores, cols, scope, k).len() ==> match scope {
                Some(id) => (#[trigger] grouped(chunks, scores, cols, scope, k)[i]).1 == id,
                None => true,
            },
    decreases k,
{
    if k > 0 {
        lemma_grouped(chunks, scores, cols, scope, k - 1);
        let prev = grouped(chunks, scores, cols, scope, k - 1);
        let c = chunks[k - 1];
        lemma_hit_for(prev, c.capture_id@);
    }
}

/// A search gives at most `limit` rows, one per source, and with a hub
/// scope only rows of that hub.
pub proof fn lemma_search_one_row_per_source(
    chunks: Seq<SearchChunk>,
    scores: Seq<u32>,
    cols: Seq<CollectionSummary>,
    scope: Option<Seq<char>>,
    limit: nat,
)
    ensures
        ranked_hits(chunks, scores, cols, scope, limit).len() <= limit,
        forall|i: int, j: int|
            0 <= i < j < ranked_hits(chunks, scores, cols, scope, limit).len() ==> (#[trigger] ranked_hits(
                chunks,
                scores,
                cols,
                scope,
                limit,
            )[i]).0 != (#[trigger] ranked_hits(chunks, scores, cols, scope, limit)[j]).0,
        forall|i: int|
            0 <= i < ranked_hits(chunks, scores, cols, scope, limit).len() ==> match scope {
                Some(id) => (#[trigger] ranked_hits(chunks, scores, cols, scope, limit)[i]).1 == id,
                None => true,
            },
{
    let g = grouped(chunks, scores, cols, scope, chunks.len() as int);
    lemma_grouped(chunks, scores, cols, scope, chunks.len() as int);
    let key = |h: HitView| h.0;
    lemma_sort_by_keeps_keys_distinct(g, hit_order(), key);
    let sorted = sort_by(g, hit_order());
    let r = ranked_hits(chunks, scores, cols, scope, limit);
    assert forall|i: int| 0 <= i < r.len() implies match scope {
        Some(id) => (#[trigger] r[i]).1 == id,
        None => true,
    } by {
        assert(r[i] == sorted[i]);
        assert(g.contains(sorted[i]));
    }
    assert forall|i: int, j: int| 0 <= i < j < r.len() implies (#[trigger] r[i]).0 != (#[trigger] r[j]).0 by {
        assert(r[i] == sorted[i] && r[j] == sorted[j]);
        assert(key(sorted[i]) != key(sorted[j]));
    }
}

// ---------------------------------------------------------------------------
// Citations
// ---------------------------------------------------------------------------

/// A retrieved passage; the score is carried through unchanged, so its type
/// is the caller's.
pub struct SearchResult<S> {
    pub id: String,
    pub collection_id: String,
    pub capture_id: String,
    pub app_id: String,
    pub title: String,
    pub url: String,
    pub captured_at: String,
    pub chunk_index: usize,
    pub text: String,
    pub score: S,
}

/// A passage as values.
pub struct CitationView<S> {
    pub id: Seq<char>,
    pub collection_id: Seq<char>,
    pub capture_id: Seq<char>,
    pub app_id: Seq<char>,
    pub title: Seq<char>,
    pub url: Seq<char>,
    pub captured_at: Seq<char>,
    pub chunk_index: usize,
    pub text: Seq<char>,
    pub score: S,
}

impl<S> SearchResult<S> {
    pub open spec fn citation_view(&self) -> CitationView<S> {
        CitationView {
            id: self.id@,
            collection_id: self.collection_id@,
            capture_id: self.capture_id@,
            app_id: self.app_id@,
            title: self.title@,
            url: self.url@,
            captured_at: self.captured_at@,
            chunk_index: self.chunk_index,
            text: self.text@,
            score: self.score,
        }
    }
}

/// A page's citation after merging: the first passage of the page with the
/// others' text added, and the positions of every passage merged into it.
pub struct MergedCitation<S> {
    pub citation: SearchResult<S>,
    pub merged: Vec<usize>,
}

/// The page a citation belongs to: its URL without the fragment.
pub open spec fn citation_key(url: Seq<char>) -> Seq<char> {
    match crate::urls::url_parse(url) {
        Some(_) => crate::urls::url_without_fragment(url),
        None => url,
    }
}

/// A later passage of the same page joins the text, marked as a gap, unless
/// the text already holds it; at most 9000 characters are kept.
pub open spec fn merged_text(existing: Seq<char>, next: Seq<char>) -> Seq<char> {
    if contains_seq(existing, next) {
        existing
    } else {
        first_n(existing + "\n\n[…]\n\n"@ + next, 9000)
    }
}

pub open spec fn group_for<S>(groups: Seq<(CitationView<S>, Seq<int>)>, key: Seq<char>) -> Option<int>
    decreases groups.len(),
{
    if groups.len() == 0 {
        None
    } else {
        match group_for(groups.drop_last(), key) {
            Some(i) => Some(i),
            None => if citation_key(groups.last().0.url) == key {
                Some(groups.len() - 1)
            } else {
                None
            },
        }
    }
}

/// Passages folded into one citation per page, in first-appearance order.
pub open spec fn citation_groups<S>(cs: Seq<SearchResult<S>>) -> Seq<(CitationView<S>, Seq<int>)>
    decreases cs.len(),
{
    if cs.len() == 0 {
        Seq::empty()
    } else {
        let prev = citation_groups(cs.drop_last());
        let c = cs.last();
        let k = cs.len() - 1;
        match group_for(prev, citation_key(c.url@)) {
            Some(i) => {
                let g = prev[i];
                prev.update(i, (CitationView { text: merged_text(g.0.text, c.text@), ..g.0 }, g.1.push(k)))
            },
            None => prev.push((c.citation_view(), seq![k])),
        }
    }
}

pub open spec fn merged_view<S>(m: MergedCitation<S>) -> (CitationView<S>, Seq<int>) {
    (m.citation.citation_view(), m.merged@.map_values(|p: usize| p as int))
}

fn find_group(keys: &Vec<String>, key: &str) -> (r: Option<usize>)
    ensures
        r matches Some(i) ==> i < keys@.len() && keys@[i as int]@ == key@ && forall|j: int|
            0 <= j < i ==> keys@[j]@ != key@,
        r is None ==> forall|j: int| 0 <= j < keys@.len() ==> keys@[j]@ != key@,
{
    let n = keys.len();
    let mut i: usize = 0;
    while i < n
        invariant
            n == keys@.len(),
            i <= n,
            forall|j: int| 0 <= j < i ==> keys@[j]@ != key@,
        decreases n - i,
    {
        if str_eq(keys[i].as_str(), key) {
            return Some(i);
        }
        i += 1;
    }
    None
}

proof fn lemma_group_for<S>(groups: Seq<(CitationView<S>, Seq<int>)>, key: Seq<char>)
    ensures
        match group_for(groups, key) {
            Some(i) => 0 <= i < groups.len() && citation_key(groups[i].0.url) == key && forall|j: int|
                0 <= j < i ==> citation_key(groups[j].0.url) != key,
            None => forall|j: int| 0 <= j < groups.len() ==> citation_key(groups[j].0.url) != key,
        },
    decreases groups.len(),
{
    if groups.len() > 0 {
        lemma_group_for(groups.drop_last(), key);
        assert forall|j: int| 0 <= j < groups.len() - 1 implies groups.drop_last()[j] == groups[j] by {}
    }
}

fn merge_texts(existing: &str, next: &str) -> (r: String)
    ensures
        r@ == merged_text(existing@, next@),
{
    if str_contains(existing, next) {
        return String::from_str(existing);
    }
    proof {
        reveal_strlit("\n\n[…]\n\n");
    }
    let mut v = crate::text::to_chars(existing);
    crate::text::push_str_chars(&mut v, "\n\n[…]\n\n");
    crate::text::push_str_chars(&mut v, next);
    let t = crate::text::take_chars(v.as_slice(), 9000);
    crate::text::from_chars(t.as_slice())
}

/// Folds passages into one citation per page (see [`citation_groups`]); the
/// caller keeps the best score among each citation's merged passages.
pub fn dedupe_citations<S>(citations: Vec<SearchResult<S>>) -> (r: Vec<MergedCitation<S>>)
    ensures
        r@.map_values(|m: MergedCitation<S>| merged_view(m)) == citation_groups(citations@),
{
    let ghost all = citations@;
    let n = citations.len();
    let mut rest = citations;
    let mut out: Vec<MergedCitation<S>> = Vec::new();
    let mut keys: Vec<String> = Vec::new();
    assert(all.take(0) =~= Seq::<SearchResult<S>>::empty());
    assert(all.skip(0) =~= all);
    assert(out@.map_values(|m: MergedCitation<S>| merged_view(m)) =~= Seq::<(CitationView<S>, Seq<int>)>::empty());
    while rest.len() > 0
        invariant
            n == all.len(),
            rest.len() <= n,
            rest@ == all.skip(n - rest.len()),
            out@.map_values(|m: MergedCitation<S>| merged_view(m)) == citation_groups(all.take(n - rest.len())),
            keys@.len() == out@.len(),
            forall|j: int| 0 <= j < keys@.len() ==> (#[trigger] keys@[j])@ == citation_key(out@[j].citation.url@),
            forall|j: int|
                0 <= j < out@.len() ==> forall|q: int|
                    0 <= q < (#[trigger] out@[j]).merged@.len() ==> out@[j].merged@[q] < n - rest.len(),
        decreases rest.len(),
    {
        let k = n - rest.len();
        let ghost before = out@.map_values(|m: MergedCitation<S>| merged_view(m));
        let c = rest.remove(0);
        assert(c == all[k as int]);
        assert(rest@ =~= all.skip(k + 1));
        assert(all.take(k + 1).drop_last() =~= all.take(k as int));
        assert(all.take(k + 1).last() == all[k as int]);
        let key = normalize_citation_key(c.url.as_str());
        proof {
            lemma_group_for(before, key@);
            assert forall|j: int| 0 <= j < before.len() implies before[j].0.url == out@[j].citation.url@ by {}
        }
        match find_group(&keys, key.as_str()) {
            Some(i) => {
                proof {
                    assert(keys@[i as int]@ == citation_key(out@[i as int].citation.url@));
                    assert(before[i as int].0.url == out@[i as int].citation.url@);
                    assert(citation_key(before[i as int].0.url) == key@);
                    match group_for(before, key@) {
                        Some(f) => {
                            assert(keys@[f]@ == citation_key(out@[f].citation.url@));
                        },
                        None => {},
                    }
                }
                assert(group_for(before, key@) == Some(i as int));
                let ghost old_out = out@;
                let mut g = out.remove(i);
                assert(merged_view(g) == before[i as int]);
                let text = merge_texts(g.citation.text.as_str(), c.text.as_str());
                g.citation.text = text;
                let ghost old_merged = g.merged@;
                g.merged.push(k);
                assert(g.merged@.map_values(|p: usize| p as int) =~= old_merged.map_values(|p: usize| p as int).push(k as int));
                out.insert(i, g);
                assert(out@.map_values(|m: MergedCitation<S>| merged_view(m)) =~= before.update(
                    i as int,
                    (CitationView { text: merged_text(before[i as int].0.text, c.text@), ..before[i as int].0 }, before[i as int].1.push(k as int)),
                ));
            },
            None => {
                proof {
                    match group_for(before, key@) {
                        Some(f) => {
                            assert(keys@[f]@ == citation_key(out@[f].citation.url@));
                        },
                        None => {},
                    }
                }
                assert(group_for(before, key@) is None);
                let mut merged: Vec<usize> = Vec::new();
                merged.push(k);
                let m = MergedCitation { citation: c, merged };
                out.push(m);
                keys.push(key);
                assert(merged@.map_values(|p: usize| p as int) =~= seq![k as int]);
                assert(out@.map_values(|m: MergedCitation<S>| merged_view(m)) =~= before.push(
                    (all[k as int].citation_view(), seq![k as int]),
                ));
            },
        }
    }
    assert(all.take(n as int) =~= all);
    out
}

/// A passage as a dossier source; its score is written by the caller.
pub open spec fn citation_source<S>(c: CitationView<S>, cols: Seq<CollectionSummary>) -> (
    Seq<char>,
    Seq<char>,
    Seq<char>,
    Option<Seq<char>>,
    Option<Seq<char>>,
    Option<Seq<char>>,
    Option<Seq<char>>,
    Option<Seq<char>>,
) {
    (
        c.capture_id,
        c.title,
        trail_excerpt(c.text, 850),
        hub_name(cols, c.collection_id),
        Some(c.url),
        Some(tab_host(c.url)),
        Some(c.captured_at),
        None,
    )
}

pub fn search_result_to_air_source<S>(result: &SearchResult<S>, collections: &[CollectionSummary]) -> (r:
    AirDossierSource)
    ensures
        crate::gather::source_view(r) == citation_source(result.citation_view(), collections@),
{
    AirDossierSource {
        id: copy_string(&result.capture_id),
        title: copy_string(&result.title),
        excerpt: semantic_trail_excerpt(result.text.as_str(), 850),
        collection_name: hub_name_of(collections, result.collection_id.as_str()),
        url: Some(copy_string(&result.url)),
        host: Some(get_tab_host(result.url.as_str())),
        captured_at: Some(copy_string(&result.captured_at)),
        score_text: None,
    }
}

/// A passage of the page being read, cited like a stored one: a fresh
/// `current-` id, the hub asked about (else `current-page`), taken now.
pub fn current_page_search_result<S>(
    captured: &CapturedPage,
    collection_id: Option<&str>,
    chunk_index: usize,
    score: S,
    text: String,
    now: &str,
) -> (r: SearchResult<S>)
    ensures
        r.id@.len() >= 8 && r.id@.take(8) == "current-"@,
        r.collection_id@ == match collection_id {
            Some(id) => id@,
            None => "current-page"@,
        },
        r.capture_id@ == "current-page"@,
        r.app_id@ == "browser"@,
        r.title@ == captured.title@,
        r.url@ == captured.url@,
        r.captured_at@ == now@,
        r.chunk_index == chunk_index,
        r.text@ == text@,
        r.score == score,
{
    proof {
        reveal_strlit("current-");
        reveal_strlit("current-page");
        reveal_strlit("browser");
    }
    let mut id = crate::text::to_chars("current-");
    crate::text::push_str_chars(&mut id, crate::tabs::uuid().as_str());
    assert(id@.take(8) =~= "current-"@);
    SearchResult {
        id: crate::text::from_chars(id.as_slice()),
        collection_id: match collection_id {
            Some(c) => String::from_str(c),
            None => String::from_str("current-page"),
        },
        capture_id: String::from_str("current-page"),
        app_id: String::from_str("browser"),
        title: copy_string(&captured.title),
        url: copy_string(&captured.url),
        captured_at: String::from_str(now),
        chunk_index,
        text,
        score,
    }
}

} // verus!
