//! Gathering what an AiR dossier is written from: the saved iceberg chart a
//! lens names, a hub's most recent sources, and the sources of a Flow lens.

use vstd::prelude::*;
use crate::text::{
    lower_ascii, lower_ascii_chars, unicode_lowercase, to_lowercase, first_n, join_with, views,
    to_chars, from_chars, push_all, push_str_chars, join_chars, chars_eq, str_eq, trim_ws, trim_str,
};
use crate::order::{seq_lt, chars_lt, sort_by, lemma_insert_pos_by, lemma_sort_by_len};
use crate::numbers::{decimal_chars, decimal_digits};
use crate::dossier::AirDossierSource;
use crate::tabs::{copy_string, clone_opt_string};
use crate::library::{CaptureSummary, CollectionSummary};
use crate::trail::{trail_excerpt, semantic_trail_excerpt};
use crate::urls::{tab_host, get_tab_host};
use crate::air::AirLensKind;
use crate::retrieval::{SearchResult, MergedCitation};

verus! {

/// A dossier source as values: id, title, excerpt, hub name, URL, host,
/// capture time, score.
pub type SourceView = (
    Seq<char>,
    Seq<char>,
    Seq<char>,
    Option<Seq<char>>,
    Option<Seq<char>>,
    Option<Seq<char>>,
    Option<Seq<char>>,
    Option<Seq<char>>,
);

pub open spec fn source_view(s: AirDossierSource) -> SourceView {
    (
        s.id@,
        s.title@,
        s.excerpt@,
        s.collection_name.deep_view(),
        s.url.deep_view(),
        s.host.deep_view(),
        s.captured_at.deep_view(),
        s.score_text.deep_view(),
    )
}

pub open spec fn source_views(ss: Seq<AirDossierSource>) -> Seq<SourceView> {
    ss.map_values(|s: AirDossierSource| source_view(s))
}

/// The first index whose element satisfies `p`.
pub open spec fn first_where<T>(s: Seq<T>, p: spec_fn(T) -> bool) -> Option<int>
    decreases s.len(),
{
    if s.len() == 0 {
        None
    } else {
        match first_where(s.drop_last(), p) {
            Some(i) => Some(i),
            None => if p(s.last()) {
                Some(s.len() - 1)
            } else {
                None
            },
        }
    }
}

pub proof fn lemma_filter_push<T>(s: Seq<T>, p: spec_fn(T) -> bool, x: T)
    ensures
        s.push(x).filter(p) == if p(x) {
            s.filter(p).push(x)
        } else {
            s.filter(p)
        },
{
    reveal(Seq::filter);
    assert(s.push(x).drop_last() =~= s);
}

pub proof fn lemma_filter_empty<T>(p: spec_fn(T) -> bool)
    ensures
        Seq::<T>::empty().filter(p) == Seq::<T>::empty(),
{
    reveal(Seq::filter);
}

pub proof fn lemma_first_where_found<T>(s: Seq<T>, p: spec_fn(T) -> bool, k: int)
    requires
        0 <= k < s.len(),
        first_where(s.take(k), p) is None,
        p(s[k]),
    ensures
        first_where(s, p) == Some(k),
    decreases s.len(),
{
    assert(s.take(k + 1).drop_last() =~= s.take(k));
    if k + 1 < s.len() {
        assert(s.drop_last().take(k) =~= s.take(k));
        lemma_first_where_found(s.drop_last(), p, k);
    } else {
        assert(s.take(k + 1) =~= s);
    }
}

// ---------------------------------------------------------------------------
// The saved iceberg a lens names
// ---------------------------------------------------------------------------

/// A saved iceberg chart, as a lens looks it up.
pub struct SavedIcebergHeader {
    pub id: String,
    pub title: String,
}

pub open spec fn has_id(id: Seq<char>) -> spec_fn(SavedIcebergHeader) -> bool {
    |h: SavedIcebergHeader| h.id@ == id
}

/// Titled like the lens, ignoring ASCII case.
pub open spec fn titled(lens: Seq<char>) -> spec_fn(SavedIcebergHeader) -> bool {
    |h: SavedIcebergHeader| lower_ascii(h.title@) == lower_ascii(lens)
}

/// The chart asked for by id, else the first titled like the lens, else the
/// first chart.
pub open spec fn chosen_iceberg(hs: Seq<SavedIcebergHeader>, saved_id: Option<Seq<char>>, lens: Seq<char>) -> Option<
    int,
> {
    let by_id = match saved_id {
        Some(id) => first_where(hs, has_id(id)),
        None => None,
    };
    if by_id is Some {
        by_id
    } else if first_where(hs, titled(lens)) is Some {
        first_where(hs, titled(lens))
    } else if hs.len() > 0 {
        Some(0)
    } else {
        None
    }
}

fn find_by_id(hs: &[SavedIcebergHeader], id: &str) -> (r: Option<usize>)
    ensures
        r matches Some(i) ==> first_where(hs@, has_id(id@)) == Some(i as int),
        r is None ==> first_where(hs@, has_id(id@)) is None,
{
    let n = hs.len();
    let mut i: usize = 0;
    while i < n
        invariant
            n == hs@.len(),
            i <= n,
            first_where(hs@.take(i as int), has_id(id@)) is None,
        decreases n - i,
    {
        assert(hs@.take(i + 1).drop_last() =~= hs@.take(i as int));
        if str_eq(hs[i].id.as_str(), id) {
            proof {
                lemma_first_where_found(hs@, has_id(id@), i as int);
            }
            return Some(i);
        }
        i += 1;
    }
    assert(hs@.take(n as int) =~= hs@);
    None
}

fn find_titled(hs: &[SavedIcebergHeader], lens: &str) -> (r: Option<usize>)
    ensures
        r matches Some(i) ==> first_where(hs@, titled(lens@)) == Some(i as int),
        r is None ==> first_where(hs@, titled(lens@)) is None,
{
    let wanted = lower_ascii_chars(to_chars(lens).as_slice());
    let n = hs.len();
    let mut i: usize = 0;
    while i < n
        invariant
            n == hs@.len(),
            i <= n,
            wanted@ == lower_ascii(lens@),
            first_where(hs@.take(i as int), titled(lens@)) is None,
        decreases n - i,
    {
        assert(hs@.take(i + 1).drop_last() =~= hs@.take(i as int));
        let title = lower_ascii_chars(to_chars(hs[i].title.as_str()).as_slice());
        if chars_eq(title.as_slice(), wanted.as_slice()) {
            proof {
                lemma_first_where_found(hs@, titled(lens@), i as int);
            }
            return Some(i);
        }
        i += 1;
    }
    assert(hs@.take(n as int) =~= hs@);
    None
}

/// Which saved chart an iceberg lens uses (see [`chosen_iceberg`]).
pub fn select_saved_iceberg(headers: &[SavedIcebergHeader], saved_id: Option<&str>, lens: &str) -> (r: Option<
    usize,
>)
    ensures
        r matches Some(i) ==> chosen_iceberg(
            headers@,
            match saved_id {
                Some(id) => Some(id@),
                None => None,
            },
            lens@,
        ) == Some(i as int),
        r is None ==> chosen_iceberg(
            headers@,
            match saved_id {
                Some(id) => Some(id@),
                None => None,
            },
            lens@,
        ) is None,
{
    if let Some(id) = saved_id {
        if let Some(i) = find_by_id(headers, id) {
            return Some(i);
        }
    }
    if let Some(i) = find_titled(headers, lens) {
        return Some(i);
    }
    if headers.len() > 0 {
        Some(0)
    } else {
        None
    }
}

// ---------------------------------------------------------------------------
// An iceberg chart as dossier context
// ---------------------------------------------------------------------------

/// A topic of a saved chart.
pub struct IcebergTopic {
    pub id: String,
    pub name: String,
    pub description: String,
    pub level: u8,
}

/// A topic's place in the chart listing: level, lower-cased name, position.
pub type TopicKey = (int, Seq<char>, int);

pub open spec fn topic_order() -> spec_fn(TopicKey, TopicKey) -> bool {
    |a: TopicKey, b: TopicKey| !(b.0 < a.0 || (b.0 == a.0 && seq_lt(b.1, a.1)))
}

pub open spec fn topic_keys(ts: Seq<IcebergTopic>) -> Seq<TopicKey> {
    Seq::new(ts.len(), |p: int| (ts[p].level as int, unicode_lowercase(ts[p].name@), p))
}

/// Topic positions by level, then name ignoring case; ties keep their order.
pub open spec fn listed_topics(ts: Seq<IcebergTopic>) -> Seq<int> {
    sort_by(topic_keys(ts), topic_order()).map_values(|k: TopicKey| k.2)
}

pub open spec fn topic_source(t: IcebergTopic, chart_title: Seq<char>, updated_at: Seq<char>) -> SourceView {
    (
        "iceberg-"@ + t.id@,
        t.name@,
        "Level "@ + decimal_chars(t.level as nat) + ": "@ + t.description@,
        Some("iCE · "@ + chart_title),
        None,
        None,
        Some(updated_at),
        None,
    )
}

pub open spec fn topic_line(t: IcebergTopic) -> Seq<char> {
    "- Level "@ + decimal_chars(t.level as nat) + " · "@ + t.name@ + ": "@ + t.description@
}

/// The dossier context a saved chart gives: a source for each of its first
/// `limit` listed topics, and the whole listing as a map, one topic a line.
pub open spec fn iceberg_context(
    ts: Seq<IcebergTopic>,
    chart_title: Seq<char>,
    updated_at: Seq<char>,
    limit: nat,
) -> (Seq<SourceView>, Seq<char>) {
    let listed = listed_topics(ts);
    (
        first_n(listed, limit).map_values(|p: int| topic_source(ts[p], chart_title, updated_at)),
        join_with(listed.map_values(|p: int| topic_line(ts[p])), "\n"@),
    )
}

fn topic_le_at(ts: &[IcebergTopic], lowered: &Vec<Vec<char>>, a: usize, b: usize) -> (r: bool)
    requires
        a < ts@.len(),
        b < ts@.len(),
        lowered@.len() == ts@.len(),
        forall|k: int| 0 <= k < ts@.len() ==> (#[trigger] lowered@[k])@ == unicode_lowercase(ts@[k].name@),
    ensures
        r == (topic_order())(topic_keys(ts@)[a as int], topic_keys(ts@)[b as int]),
{
    !(ts[b].level < ts[a].level || (ts[b].level == ts[a].level && chars_lt(
        lowered[b].as_slice(),
        lowered[a].as_slice(),
    )))
}

fn topic_order_of(ts: &[IcebergTopic]) -> (perm: Vec<usize>)
    ensures
        perm@.len() == ts@.len(),
        forall|k: int| 0 <= k < perm@.len() ==> #[trigger] perm@[k] < ts@.len(),
        perm@.map_values(|p: usize| p as int) == listed_topics(ts@),
{
    let n = ts.len();
    let ghost keys = topic_keys(ts@);
    let mut lowered: Vec<Vec<char>> = Vec::new();
    let mut q: usize = 0;
    while q < n
        invariant
            n == ts@.len(),
            q <= n,
            lowered@.len() == q,
            forall|k: int| 0 <= k < q ==> (#[trigger] lowered@[k])@ == unicode_lowercase(ts@[k].name@),
        decreases n - q,
    {
        let l = to_lowercase(ts[q].name.as_str());
        lowered.push(to_chars(l.as_str()));
        q += 1;
    }
    let mut perm: Vec<usize> = Vec::new();
    let mut i: usize = 0;
    while i < n
        invariant
            n == ts@.len(),
            keys == topic_keys(ts@),
            lowered@.len() == n,
            forall|k: int| 0 <= k < n ==> (#[trigger] lowered@[k])@ == unicode_lowercase(ts@[k].name@),
            i <= n,
            perm@.len() == i,
            forall|k: int| 0 <= k < perm@.len() ==> #[trigger] perm@[k] < i,
            perm@.map_values(|p: usize| keys[p as int]) == sort_by(keys.take(i as int), topic_order()),
        decreases n - i,
    {
        let ghost sorted = sort_by(keys.take(i as int), topic_order());
        let mut j: usize = 0;
        while j < perm.len() && topic_le_at(ts, &lowered, perm[j], i)
            invariant
                n == ts@.len(),
                keys == topic_keys(ts@),
                lowered@.len() == n,
                forall|k: int| 0 <= k < n ==> (#[trigger] lowered@[k])@ == unicode_lowercase(ts@[k].name@),
                i < n,
                perm@.len() == i,
                forall|k: int| 0 <= k < perm@.len() ==> #[trigger] perm@[k] < i,
                sorted == perm@.map_values(|p: usize| keys[p as int]),
                j <= perm@.len(),
                forall|k: int| 0 <= k < j ==> (topic_order())(#[trigger] sorted[k], keys[i as int]),
            decreases perm@.len() - j,
        {
            j += 1;
        }
        proof {
            lemma_insert_pos_by(sorted, keys[i as int], topic_order(), j as int);
            assert(keys.take(i + 1).drop_last() =~= keys.take(i as int));
            assert(keys.take(i + 1).last() == keys[i as int]);
        }
        perm.insert(j, i);
        assert(perm@.map_values(|p: usize| keys[p as int]) =~= sorted.insert(j as int, keys[i as int]));
        i += 1;
    }
    assert(keys.take(n as int) =~= keys);
    assert(perm@.map_values(|p: usize| p as int) =~= listed_topics(ts@)) by {
        lemma_sort_by_len(keys, topic_order());
        assert forall|k: int| 0 <= k < perm@.len() implies perm@.map_values(|p: usize| p as int)[k]
            == listed_topics(ts@)[k] by {
            assert(sort_by(keys, topic_order())[k] == keys[perm@[k] as int]);
        }
    }
    perm
}

fn topic_source_of(t: &IcebergTopic, chart_title: &str, updated_at: &str) -> (r: AirDossierSource)
    ensures
        source_view(r) == topic_source(*t, chart_title@, updated_at@),
{
    proof {
        reveal_strlit("iceberg-");
        reveal_strlit("Level ");
        reveal_strlit(": ");
        reveal_strlit("iCE · ");
    }
    let mut id = to_chars("iceberg-");
    push_str_chars(&mut id, t.id.as_str());
    let mut excerpt = to_chars("Level ");
    push_all(&mut excerpt, decimal_digits(t.level as usize).as_slice());
    push_str_chars(&mut excerpt, ": ");
    push_str_chars(&mut excerpt, t.description.as_str());
    let mut hub = to_chars("iCE · ");
    push_str_chars(&mut hub, chart_title);
    AirDossierSource {
        id: from_chars(id.as_slice()),
        title: copy_string(&t.name),
        excerpt: from_chars(excerpt.as_slice()),
        collection_name: Some(from_chars(hub.as_slice())),
        url: None,
        host: None,
        captured_at: Some(String::from_str(updated_at)),
        score_text: None,
    }
}

fn topic_line_of(t: &IcebergTopic) -> (r: Vec<char>)
    ensures
        r@ == topic_line(*t),
{
    proof {
        reveal_strlit("- Level ");
        reveal_strlit(" · ");
        reveal_strlit(": ");
    }
    let mut line = to_chars("- Level ");
    push_all(&mut line, decimal_digits(t.level as usize).as_slice());
    push_str_chars(&mut line, " · ");
    push_str_chars(&mut line, t.name.as_str());
    push_str_chars(&mut line, ": ");
    push_str_chars(&mut line, t.description.as_str());
    line
}

/// The dossier context a saved chart gives (see [`iceberg_context`]).
pub fn iceberg_lens_context(
    topics: &[IcebergTopic],
    chart_title: &str,
    updated_at: &str,
    limit: usize,
) -> (r: (Vec<AirDossierSource>, String))
    ensures
        (source_views(r.0@), r.1@) == iceberg_context(topics@, chart_title@, updated_at@, limit as nat),
{
    let perm = topic_order_of(topics);
    let ghost listed = listed_topics(topics@);
    let n = perm.len();
    let mut sources: Vec<AirDossierSource> = Vec::new();
    let mut lines: Vec<Vec<char>> = Vec::new();
    let mut k: usize = 0;
    while k < n
        invariant
            n == perm@.len(),
            n == topics@.len(),
            forall|q: int| 0 <= q < n ==> #[trigger] perm@[q] < topics@.len(),
            perm@.map_values(|p: usize| p as int) == listed,
            k <= n,
            sources@.len() == if k < limit { k } else { limit },
            source_views(sources@) == first_n(listed.take(k as int), limit as nat).map_values(
                |p: int| topic_source(topics@[p], chart_title@, updated_at@),
            ),
            views(lines@) == listed.take(k as int).map_values(|p: int| topic_line(topics@[p])),
        decreases n - k,
    {
        let p = perm[k];
        assert(listed[k as int] == p as int);
        assert(listed.take(k + 1) =~= listed.take(k as int).push(p as int));
        let ghost before_sources = source_views(sources@);
        if k < limit {
            let s = topic_source_of(&topics[p], chart_title, updated_at);
            sources.push(s);
            assert(source_views(sources@) =~= before_sources.push(source_view(s)));
            assert(first_n(listed.take(k + 1), limit as nat) =~= first_n(listed.take(k as int), limit as nat).push(
                p as int,
            ));
        } else {
            assert(first_n(listed.take(k + 1), limit as nat) =~= first_n(listed.take(k as int), limit as nat));
        }
        let ghost before_lines = views(lines@);
        let line = topic_line_of(&topics[p]);
        lines.push(line);
        assert(views(lines@) =~= before_lines.push(topic_line(topics@[p as int])));
        k += 1;
    }
    assert(listed.take(n as int) =~= listed);
    proof {
        reveal_strlit("\n");
    }
    let map = join_chars(&lines, to_chars("\n").as_slice());
    (sources, from_chars(map.as_slice()))
}

// ---------------------------------------------------------------------------
// A hub's most recent sources
// ---------------------------------------------------------------------------

/// The text of a stored chunk and the capture it belongs to.
pub struct ChunkText {
    pub capture_id: String,
    pub text: String,
}

/// The longest chunk text of a capture (the last of equally long ones).
pub open spec fn longest_chunk(chunks: Seq<ChunkText>, capture_id: Seq<char>) -> Option<Seq<char>>
    decreases chunks.len(),
{
    if chunks.len() == 0 {
        None
    } else {
        let prev = longest_chunk(chunks.drop_last(), capture_id);
        let c = chunks.last();
        if c.capture_id@ != capture_id {
            prev
        } else {
            match prev {
                Some(best) => if c.text@.len() >= best.len() {
                    Some(c.text@)
                } else {
                    prev
                },
                None => Some(c.text@),
            }
        }
    }
}

/// The name of the hub with id `id` (the last listed, should ids repeat).
pub open spec fn hub_name(cols: Seq<CollectionSummary>, id: Seq<char>) -> Option<Seq<char>>
    decreases cols.len(),
{
    if cols.len() == 0 {
        None
    } else if cols.last().id@ == id {
        Some(cols.last().name@)
    } else {
        hub_name(cols.drop_last(), id)
    }
}

pub open spec fn capture_summary_text(c: CaptureSummary) -> Seq<char> {
    match c.metadata {
        Some(m) => match m.summary {
            Some(s) => s@,
            None => Seq::empty(),
        },
        None => Seq::empty(),
    }
}

pub open spec fn hub_source(c: CaptureSummary, chunks: Seq<ChunkText>, cols: Seq<CollectionSummary>) -> SourceView {
    (
        c.id@,
        c.title@,
        match longest_chunk(chunks, c.id@) {
            Some(t) => trail_excerpt(t, 700),
            None => capture_summary_text(c),
        },
        hub_name(cols, c.collection_id@),
        Some(c.url@),
        Some(tab_host(c.url@)),
        Some(c.captured_at@),
        None,
    )
}

/// In the hub asked for, or any hub when none is.
pub open spec fn in_hub(collection_id: Option<Seq<char>>) -> spec_fn(CaptureSummary) -> bool {
    |c: CaptureSummary| match collection_id {
        Some(id) => c.collection_id@ == id,
        None => true,
    }
}

/// Newest first; captures made at the same time keep their order.
pub open spec fn newest_first() -> spec_fn(CaptureSummary, CaptureSummary) -> bool {
    |a: CaptureSummary, b: CaptureSummary| !seq_lt(a.captured_at@, b.captured_at@)
}

/// The most recent `limit` captures of a hub (or of all hubs) as dossier
/// sources, each excerpted from its longest chunk, else its summary.
pub open spec fn hub_sources_of(
    captures: Seq<CaptureSummary>,
    chunks: Seq<ChunkText>,
    cols: Seq<CollectionSummary>,
    collection_id: Option<Seq<char>>,
    limit: nat,
) -> Seq<SourceView> {
    first_n(sort_by(captures.filter(in_hub(collection_id)), newest_first()), limit).map_values(
        |c: CaptureSummary| hub_source(c, chunks, cols),
    )
}

pub(crate) fn longest_chunk_of(chunks: &[ChunkText], capture_id: &str) -> (r: Option<String>)
    ensures
        r.deep_view() == longest_chunk(chunks@, capture_id@),
{
    let n = chunks.len();
    let mut best: Option<Vec<char>> = None;
    let mut i: usize = 0;
    while i < n
        invariant
            n == chunks@.len(),
            i <= n,
            match best {
                Some(b) => longest_chunk(chunks@.take(i as int), capture_id@) == Some(b@),
                None => longest_chunk(chunks@.take(i as int), capture_id@) is None,
            },
        decreases n - i,
    {
        assert(chunks@.take(i + 1).drop_last() =~= chunks@.take(i as int));
        let c = &chunks[i];
        if str_eq(c.capture_id.as_str(), capture_id) {
            let t = to_chars(c.text.as_str());
            let replace = match &best {
                Some(b) => t.len() >= b.len(),
                None => true,
            };
            if replace {
                best = Some(t);
            }
        }
        i += 1;
    }
    assert(chunks@.take(n as int) =~= chunks@);
    match best {
        Some(b) => Some(from_chars(b.as_slice())),
        None => None,
    }
}

pub(crate) fn hub_name_of(cols: &[CollectionSummary], id: &str) -> (r: Option<String>)
    ensures
        r.deep_view() == hub_name(cols@, id@),
{
    let mut i: usize = cols.len();
    assert(cols@.take(i as int) =~= cols@);
    while i > 0
        invariant
            i <= cols@.len(),
            hub_name(cols@, id@) == hub_name(cols@.take(i as int), id@),
        decreases i,
    {
        let ghost t = cols@.take(i as int);
        assert(t.drop_last() =~= cols@.take(i - 1));
        assert(t.last() == cols@[i - 1]);
        if str_eq(cols[i - 1].id.as_str(), id) {
            return Some(copy_string(&cols[i - 1].name));
        }
        i -= 1;
    }
    None
}

fn summary_text(c: &CaptureSummary) -> (r: String)
    ensures
        r@ == capture_summary_text(*c),
{
    match &c.metadata {
        Some(m) => match &m.summary {
            Some(s) => copy_string(s),
            None => String::new(),
        },
        None => String::new(),
    }
}

fn hub_source_of(c: &CaptureSummary, chunks: &[ChunkText], cols: &[CollectionSummary]) -> (r: AirDossierSource)
    ensures
        source_view(r) == hub_source(*c, chunks@, cols@),
{
    let excerpt = match longest_chunk_of(chunks, c.id.as_str()) {
        Some(t) => semantic_trail_excerpt(t.as_str(), 700),
        None => summary_text(c),
    };
    AirDossierSource {
        id: copy_string(&c.id),
        title: copy_string(&c.title),
        excerpt,
        collection_name: hub_name_of(cols, c.collection_id.as_str()),
        url: Some(copy_string(&c.url)),
        host: Some(get_tab_host(c.url.as_str())),
        captured_at: Some(copy_string(&c.captured_at)),
        score_text: None,
    }
}

/// The positions of the captures in the hub asked for, in order.
fn hub_positions(captures: &[CaptureSummary], collection_id: Option<&str>) -> (r: Vec<usize>)
    ensures
        r@.map_values(|p: usize| captures@[p as int]) == captures@.filter(
            in_hub(
                match collection_id {
                    Some(id) => Some(id@),
                    None => None,
                },
            ),
        ),
        forall|k: int| 0 <= k < r@.len() ==> #[trigger] r@[k] < captures@.len(),
{
    let ghost wanted = match collection_id {
        Some(id) => Some(id@),
        None => None,
    };
    let n = captures.len();
    let mut out: Vec<usize> = Vec::new();
    let mut i: usize = 0;
    while i < n
        invariant
            n == captures@.len(),
            i <= n,
            wanted == match collection_id {
                Some(id) => Some(id@),
                None => None,
            },
            out@.map_values(|p: usize| captures@[p as int]) == captures@.take(i as int).filter(in_hub(wanted)),
            forall|k: int| 0 <= k < out@.len() ==> #[trigger] out@[k] < i,
        decreases n - i,
    {
        let ghost t = captures@.take(i + 1);
        assert(t.drop_last() =~= captures@.take(i as int));
        assert(t.last() == captures@[i as int]);
        proof {
            lemma_filter_push(captures@.take(i as int), in_hub(wanted), captures@[i as int]);
            assert(t =~= captures@.take(i as int).push(captures@[i as int]));
        }
        let keep = match collection_id {
            Some(id) => str_eq(captures[i].collection_id.as_str(), id),
            None => true,
        };
        if keep {
            let ghost before = out@.map_values(|p: usize| captures@[p as int]);
            out.push(i);
            assert(out@.map_values(|p: usize| captures@[p as int]) =~= before.push(captures@[i as int]));
        }
        i += 1;
    }
    assert(captures@.take(n as int) =~= captures@);
    out
}

/// The most recent captures as dossier sources (see [`hub_sources_of`]).
pub fn hub_sources(
    captures: &[CaptureSummary],
    chunks: &[ChunkText],
    collections: &[CollectionSummary],
    collection_id: Option<&str>,
    limit: usize,
) -> (r: Vec<AirDossierSource>)
    ensures
        source_views(r@) == hub_sources_of(
            captures@,
            chunks@,
            collections@,
            match collection_id {
                Some(id) => Some(id@),
                None => None,
            },
            limit as nat,
        ),
{
    let ghost wanted = match collection_id {
        Some(id) => Some(id@),
        None => None,
    };
    let positions = hub_positions(captures, collection_id);
    let ghost hub = positions@.map_values(|p: usize| captures@[p as int]);
    let m = positions.len();
    let mut perm: Vec<usize> = Vec::new();
    let mut i: usize = 0;
    while i < m
        invariant
            m == positions@.len(),
            hub == positions@.map_values(|p: usize| captures@[p as int]),
            forall|k: int| 0 <= k < m ==> #[trigger] positions@[k] < captures@.len(),
            i <= m,
            perm@.len() == i,
            forall|k: int| 0 <= k < perm@.len() ==> #[trigger] perm@[k] < i,
            perm@.map_values(|q: usize| hub[q as int]) == sort_by(hub.take(i as int), newest_first()),
        decreases m - i,
    {
        let ghost sorted = sort_by(hub.take(i as int), newest_first());
        let new_at = to_chars(captures[positions[i]].captured_at.as_str());
        let mut j: usize = 0;
        while j < perm.len() && !chars_lt(
            to_chars(captures[positions[perm[j]]].captured_at.as_str()).as_slice(),
            new_at.as_slice(),
        )
            invariant
                m == positions@.len(),
                hub == positions@.map_values(|p: usize| captures@[p as int]),
                forall|k: int| 0 <= k < m ==> #[trigger] positions@[k] < captures@.len(),
                i < m,
                perm@.len() == i,
                forall|k: int| 0 <= k < perm@.len() ==> #[trigger] perm@[k] < i,
                sorted == perm@.map_values(|q: usize| hub[q as int]),
                new_at@ == hub[i as int].captured_at@,
                j <= perm@.len(),
                forall|k: int| 0 <= k < j ==> (newest_first())(#[trigger] sorted[k], hub[i as int]),
            decreases perm@.len() - j,
        {
            assert(sorted[j as int] == hub[perm@[j as int] as int]);
            j += 1;
        }
        proof {
            if j < perm@.len() {
                assert(sorted[j as int] == hub[perm@[j as int] as int]);
            }
            lemma_insert_pos_by(sorted, hub[i as int], newest_first(), j as int);
            assert(hub.take(i + 1).drop_last() =~= hub.take(i as int));
            assert(hub.take(i + 1).last() == hub[i as int]);
        }
        perm.insert(j, i);
        assert(perm@.map_values(|q: usize| hub[q as int]) =~= sorted.insert(j as int, hub[i as int]));
        i += 1;
    }
    assert(hub.take(m as int) =~= hub);
    let ghost ordered = sort_by(hub, newest_first());
    let count = if m < limit {
        m
    } else {
        limit
    };
    let mut out: Vec<AirDossierSource> = Vec::new();
    let mut k: usize = 0;
    while k < count
        invariant
            m == positions@.len(),
            m == perm@.len(),
            hub == positions@.map_values(|p: usize| captures@[p as int]),
            forall|q: int| 0 <= q < m ==> #[trigger] positions@[q] < captures@.len(),
            forall|q: int| 0 <= q < m ==> #[trigger] perm@[q] < m,
            perm@.map_values(|q: usize| hub[q as int]) == ordered,
            count <= m,
            count == if m < limit { m } else { limit },
            k <= count,
            source_views(out@) == ordered.take(k as int).map_values(
                |c: CaptureSummary| hub_source(c, chunks@, collections@),
            ),
        decreases count - k,
    {
        let q = perm[k];
        let p = positions[q];
        assert(ordered[k as int] == hub[q as int]);
        assert(hub[q as int] == captures@[p as int]);
        let s = hub_source_of(&captures[p], chunks, collections);
        let ghost before = source_views(out@);
        out.push(s);
        assert(source_views(out@) =~= before.push(source_view(s)));
        assert(ordered.take(k + 1) =~= ordered.take(k as int).push(ordered[k as int]));
        k += 1;
    }
    proof {
        lemma_sort_by_len(hub, newest_first());
        assert(first_n(ordered, limit as nat) =~= ordered.take(count as int));
    }
    out
}

// ---------------------------------------------------------------------------
// A Flow lens's sources
// ---------------------------------------------------------------------------

pub open spec fn source_ids(ss: Seq<SourceView>) -> Seq<Seq<char>> {
    ss.map_values(|s: SourceView| s.0)
}

pub open spec fn not_among(ids: Seq<Seq<char>>) -> spec_fn(SourceView) -> bool {
    |s: SourceView| !ids.contains(s.0)
}

/// The capture's own sources, then related ones it does not already hold, up
/// to `limit` in all.
pub open spec fn flow_sources_of(own: Seq<SourceView>, related: Seq<SourceView>, limit: nat) -> Seq<SourceView> {
    let room: nat = if own.len() < limit {
        (limit - own.len()) as nat
    } else {
        0
    };
    own + first_n(related.filter(not_among(source_ids(own))), room)
}

fn ids_contain(own: &Vec<AirDossierSource>, own_count: usize, id: &str) -> (r: bool)
    requires
        own_count <= own@.len(),
    ensures
        r == source_ids(source_views(own@.take(own_count as int))).contains(id@),
{
    let ghost ids = source_ids(source_views(own@.take(own_count as int)));
    let mut i: usize = 0;
    while i < own_count
        invariant
            own_count <= own@.len(),
            ids == source_ids(source_views(own@.take(own_count as int))),
            i <= own_count,
            forall|k: int| 0 <= k < i ==> own@[k].id@ != id@,
        decreases own_count - i,
    {
        if str_eq(own[i].id.as_str(), id) {
            assert(ids[i as int] == id@);
            return true;
        }
        i += 1;
    }
    assert forall|k: int| 0 <= k < ids.len() implies ids[k] != id@ by {
        assert(ids[k] == own@[k].id@);
    }
    false
}

/// Extends a capture's own sources with related ones (see [`flow_sources_of`]).
pub fn merge_flow_sources(own: Vec<AirDossierSource>, related: Vec<AirDossierSource>, limit: usize) -> (r: Vec<
    AirDossierSource,
>)
    ensures
        source_views(r@) == flow_sources_of(source_views(own@), source_views(related@), limit as nat),
{
    let ghost own_views = source_views(own@);
    let ghost rel = source_views(related@);
    let ghost keep = not_among(source_ids(own_views));
    let own_count = own.len();
    let room = if own_count < limit {
        limit - own_count
    } else {
        0
    };
    let mut out = own;
    assert(out@.take(own_count as int) =~= out@);
    let mut rest = related;
    let n = rest.len();
    let mut added: usize = 0;
    proof {
        lemma_filter_empty(keep);
        assert(rel.take(0) =~= Seq::<SourceView>::empty());
    }
    assert(rest@ =~= related@.skip(0));
    while rest.len() > 0
        invariant
            n == related@.len(),
            rel == source_views(related@),
            rest.len() <= n,
            rest@ == related@.skip(n - rest.len()),
            own_count <= out@.len(),
            own_views == source_views(out@.take(own_count as int)),
            keep == not_among(source_ids(own_views)),
            added == out@.len() - own_count,
            source_views(out@) == own_views + first_n(rel.take(n - rest.len()).filter(keep), room as nat),
        decreases rest.len(),
    {
        let ghost k = n - rest.len();
        let s = rest.remove(0);
        assert(s == related@[k]);
        assert(rest@ =~= related@.skip(k + 1));
        proof {
            assert(rel.take(k + 1) =~= rel.take(k).push(rel[k]));
            lemma_filter_push(rel.take(k), keep, rel[k]);
            assert(rel[k] == source_view(s));
        }
        let fresh = !ids_contain(&out, own_count, s.id.as_str());
        let ghost f_k = rel.take(k).filter(keep);
        let ghost f_next = rel.take(k + 1).filter(keep);
        assert(fresh == keep(source_view(s)));
        assert(source_views(out@).len() == own_views.len() + first_n(f_k, room as nat).len());
        if fresh && added < room {
            let ghost before = out@;
            out.push(s);
            added += 1;
            assert(source_views(out@) =~= source_views(before).push(source_view(s)));
            assert(out@.take(own_count as int) =~= before.take(own_count as int));
            assert(first_n(f_next, room as nat) =~= first_n(f_k, room as nat).push(source_view(s)));
        } else if fresh {
            assert(first_n(f_next, room as nat) =~= first_n(f_k, room as nat));
        } else {
            assert(f_next =~= f_k);
        }
    }
    assert(rel.take(n as int) =~= rel);
    out
}



// ---------------------------------------------------------------------------
// Lenses
// ---------------------------------------------------------------------------

/// The lens a dossier shows: the lens as typed, trimmed, else the standing
/// name of its kind.
pub open spec fn visible_lens(lens: Seq<char>, kind: AirLensKind) -> Seq<char> {
    let t = trim_ws(lens);
    if t.len() > 0 {
        t
    } else {
        match kind {
            AirLensKind::Topic => "Local knowledge"@,
            AirLensKind::Flow => "Current Flow lens"@,
            AirLensKind::Hub => "Selected knowledge hub"@,
            AirLensKind::Answer => "Latest AiON answer"@,
            AirLensKind::Iceberg => "Saved iCE map"@,
        }
    }
}

pub fn air_visible_lens(lens: &str, kind: AirLensKind) -> (r: String)
    ensures
        r@ == visible_lens(lens@, kind),
{
    let t = trim_str(lens);
    if to_chars(t.as_str()).len() > 0 {
        return t;
    }
    proof {
        reveal_strlit("Local knowledge");
        reveal_strlit("Current Flow lens");
        reveal_strlit("Selected knowledge hub");
        reveal_strlit("Latest AiON answer");
        reveal_strlit("Saved iCE map");
    }
    match kind {
        AirLensKind::Topic => String::from_str("Local knowledge"),
        AirLensKind::Flow => String::from_str("Current Flow lens"),
        AirLensKind::Hub => String::from_str("Selected knowledge hub"),
        AirLensKind::Answer => String::from_str("Latest AiON answer"),
        AirLensKind::Iceberg => String::from_str("Saved iCE map"),
    }
}

/// How many sources a dossier cites: the number asked for, else 12, within
/// 1 ..= 24.
pub open spec fn dossier_limit(limit: Option<usize>) -> int {
    let l = match limit {
        Some(l) => l as int,
        None => 12,
    };
    if l < 1 {
        1
    } else if l > 24 {
        24
    } else {
        l
    }
}

pub fn air_dossier_limit(limit: Option<usize>) -> (r: usize)
    ensures
        r == dossier_limit(limit),
{
    let l = match limit {
        Some(l) => l,
        None => 12,
    };
    if l < 1 {
        1
    } else if l > 24 {
        24
    } else {
        l
    }
}

/// Where the sources of a dossier come from, by its lens.
pub enum AirGatherPlan {
    /// Nothing to cite: an answer lens with no answer.
    Nothing,
    /// The citations of the answer given.
    AnswerCitations,
    /// A saved iceberg chart (see [`select_saved_iceberg`]).
    SavedIceberg,
    /// The most recent captures of a hub, or of all hubs.
    Hub { collection_id: Option<String> },
    /// A capture's own sources, topped up with sources on the lens.
    Flow { capture_id: Option<String> },
    /// Sources found for the lens as a topic.
    Topic,
}

/// A Flow lens on a hub reads that hub; a Flow lens without one reads the
/// capture it was opened on, if any, and the topic around it.
pub open spec fn gather_plan_matches(
    r: AirGatherPlan,
    kind: AirLensKind,
    has_answer: bool,
    collection_id: Option<Seq<char>>,
    capture_id: Option<Seq<char>>,
) -> bool {
    match kind {
        AirLensKind::Answer => if has_answer {
            r is AnswerCitations
        } else {
            r is Nothing
        },
        AirLensKind::Iceberg => r is SavedIceberg,
        AirLensKind::Hub => r matches AirGatherPlan::Hub { collection_id: c } && c.deep_view()
            == collection_id,
        AirLensKind::Flow => match collection_id {
            Some(id) => r matches AirGatherPlan::Hub { collection_id: c } && c.deep_view() == Some(
                id,
            ),
            None => r matches AirGatherPlan::Flow { capture_id: c } && c.deep_view() == capture_id,
        },
        AirLensKind::Topic => r is Topic,
    }
}

pub fn air_gather_plan(
    kind: AirLensKind,
    has_answer: bool,
    collection_id: Option<&str>,
    capture_id: Option<&str>,
) -> (r: AirGatherPlan)
    ensures
        gather_plan_matches(
            r,
            kind,
            has_answer,
            match collection_id {
                Some(id) => Some(id@),
                None => None,
            },
            match capture_id {
                Some(id) => Some(id@),
                None => None,
            },
        ),
{
    match kind {
        AirLensKind::Answer => if has_answer {
            AirGatherPlan::AnswerCitations
        } else {
            AirGatherPlan::Nothing
        },
        AirLensKind::Iceberg => AirGatherPlan::SavedIceberg,
        AirLensKind::Hub => AirGatherPlan::Hub { collection_id: opt_string(collection_id) },
        AirLensKind::Flow => match collection_id {
            Some(id) => AirGatherPlan::Hub { collection_id: Some(String::from_str(id)) },
            None => AirGatherPlan::Flow { capture_id: opt_string(capture_id) },
        },
        AirLensKind::Topic => AirGatherPlan::Topic,
    }
}

fn opt_string(s: Option<&str>) -> (r: Option<String>)
    ensures
        r.deep_view() == match s {
            Some(t) => Some(t@),
            None => None,
        },
{
    match s {
        Some(t) => Some(String::from_str(t)),
        None => None,
    }
}

/// A cited passage as a dossier source: its capture, an 850-character
/// excerpt of its text, its hub's name, its page's address and host, and
/// the score as the caller wrote it out.
pub open spec fn citation_source<S>(
    c: SearchResult<S>,
    cols: Seq<CollectionSummary>,
    score_text: Seq<char>,
) -> SourceView {
    (
        c.capture_id@,
        c.title@,
        trail_excerpt(c.text@, 850),
        hub_name(cols, c.collection_id@),
        Some(c.url@),
        Some(tab_host(c.url@)),
        Some(c.captured_at@),
        Some(score_text),
    )
}

/// The first `limit` merged citations of an answer as dossier sources, the
/// `i`-th with the `i`-th score text.
pub open spec fn answer_sources_of<S>(
    merged: Seq<MergedCitation<S>>,
    score_texts: Seq<String>,
    cols: Seq<CollectionSummary>,
    limit: nat,
) -> Seq<SourceView> {
    Seq::new(
        if merged.len() < limit {
            merged.len()
        } else {
            limit
        },
        |i: int| citation_source(merged[i].citation, cols, score_texts[i]@),
    )
}

/// The sources of an answer lens: its merged citations (see
/// [`crate::retrieval::dedupe_citations`]), at most `limit` of them.
pub fn search_results_to_air_sources<S>(
    merged: &[MergedCitation<S>],
    score_texts: &[String],
    collections: &[CollectionSummary],
    limit: usize,
) -> (r: Vec<AirDossierSource>)
    requires
        score_texts@.len() == merged@.len(),
    ensures
        source_views(r@) == answer_sources_of(merged@, score_texts@, collections@, limit as nat),
{
    let n = if merged.len() < limit {
        merged.len()
    } else {
        limit
    };
    let mut out: Vec<AirDossierSource> = Vec::new();
    let mut i: usize = 0;
    while i < n
        invariant
            n <= merged@.len(),
            n <= limit,
            n == (if merged@.len() < limit { merged@.len() } else { limit as nat }),
            score_texts@.len() == merged@.len(),
            i <= n,
            source_views(out@) == answer_sources_of(merged@, score_texts@, collections@, limit as nat).take(i as int),
        decreases n - i,
    {
        let c = &merged[i].citation;
        let s = AirDossierSource {
            id: copy_string(&c.capture_id),
            title: copy_string(&c.title),
            excerpt: semantic_trail_excerpt(c.text.as_str(), 850),
            collection_name: hub_name_of(collections, c.collection_id.as_str()),
            url: Some(copy_string(&c.url)),
            host: Some(get_tab_host(c.url.as_str())),
            captured_at: Some(copy_string(&c.captured_at)),
            score_text: Some(copy_string(&score_texts[i])),
        };
        let ghost before = out@;
        out.push(s);
        proof {
            let want = answer_sources_of(merged@, score_texts@, collections@, limit as nat);
            assert(source_views(out@) =~= source_views(before).push(source_view(s)));
            assert(want.take(i + 1) =~= want.take(i as int).push(want[i as int]));
        }
        i += 1;
    }
    proof {
        let want = answer_sources_of(merged@, score_texts@, collections@, limit as nat);
        assert(want.take(n as int) =~= want);
    }
    out
}

} // verus!
