//! The knowledge library: hubs (collections) and their captures, slugs, chunking
//! text for indexing, query terms, conversation threads, and the small values
//! stored settings default to.

use vstd::prelude::*;
use crate::text::{
    is_ws, trim_ws, lower_ascii, starts_with, ends_with, is_hex_digit, is_ascii_alnum,
    trim_in, unicode_lowercase, unicode_alphanumeric, first_n, string_views, views, to_chars,
    from_chars, push_str_chars, push_all, subvec, trim_chars, trim_str, str_eq, to_lowercase,
    char_is_alphanumeric, char_is_ascii_alnum, char_is_hex_digit, lower_ascii_chars,
    starts_with_chars, ends_with_chars, trim_set, take_chars, to_strings, trim_start_ws,
    trim_end_ws,
};
use crate::tabs::copy_string;
use crate::urls::{capture_url_key, normalize_capture_url_key};
use crate::numbers::{decimal_chars, lemma_decimal_round_trip, lemma_decimal_injective};

verus! {

// ---------------------------------------------------------------------------
// Hubs and captures
// ---------------------------------------------------------------------------

pub struct CollectionSummary {
    pub id: String,
    pub name: String,
    pub description: String,
    pub icon: Option<String>,
    pub created_at: String,
    pub updated_at: String,
    pub capture_count: usize,
    pub chunk_count: usize,
}

pub struct CaptureMetadata {
    pub note: Option<String>,
    pub summary: Option<String>,
    pub tags: Option<Vec<String>>,
}

pub struct CaptureSummary {
    pub id: String,
    pub collection_id: String,
    pub title: String,
    pub url: String,
    pub app_id: String,
    pub captured_at: String,
    pub chunk_count: usize,
    pub metadata: Option<CaptureMetadata>,
}

pub struct HubShortcutSummary {
    pub id: String,
    pub title: String,
    pub url: String,
    pub host: String,
    pub created_at: String,
    pub favicon: Option<String>,
    pub theme_color: Option<String>,
}

pub struct LibraryData {
    pub version: u8,
    pub collections: Vec<CollectionSummary>,
    pub captures: Vec<CaptureSummary>,
    pub shortcuts: Vec<HubShortcutSummary>,
    pub migrated_realm_tables: Vec<String>,
}

/// Whether some collection has id `id`.
pub open spec fn has_collection(collections: Seq<CollectionSummary>, id: Seq<char>) -> bool {
    exists|k: int| 0 <= k < collections.len() && (#[trigger] collections[k]).id@ == id
}

/// The captures whose collection still exists, in order.
pub open spec fn live_captures(captures: Seq<CaptureSummary>, collections: Seq<CollectionSummary>) -> Seq<
    CaptureSummary,
>
    decreases captures.len(),
{
    if captures.len() == 0 {
        captures
    } else {
        let r = live_captures(captures.drop_last(), collections);
        if has_collection(collections, captures.last().collection_id@) {
            r.push(captures.last())
        } else {
            r
        }
    }
}

proof fn lemma_live_captures_len(captures: Seq<CaptureSummary>, collections: Seq<CollectionSummary>)
    ensures
        live_captures(captures, collections).len() <= captures.len(),
    decreases captures.len(),
{
    if captures.len() > 0 {
        lemma_live_captures_len(captures.drop_last(), collections);
    }
}

fn collection_exists(collections: &Vec<CollectionSummary>, id: &str) -> (r: bool)
    ensures
        r == has_collection(collections@, id@),
{
    let n = collections.len();
    let mut k: usize = 0;
    while k < n
        invariant
            n == collections@.len(),
            k <= n,
            forall|j: int| 0 <= j < k ==> collections@[j].id@ != id@,
        decreases n - k,
    {
        if str_eq(collections[k].id.as_str(), id) {
            return true;
        }
        k += 1;
    }
    false
}

/// Drops captures whose collection no longer exists (they would otherwise
/// keep answering searches for a hub the user deleted); says how many went.
pub fn drop_captures_without_collections(library: &mut LibraryData) -> (dropped: usize)
    ensures
        final(library).captures@ == live_captures(old(library).captures@, old(library).collections@),
        dropped == old(library).captures@.len() - final(library).captures@.len(),
        final(library).collections == old(library).collections,
        final(library).version == old(library).version,
        final(library).shortcuts == old(library).shortcuts,
        final(library).migrated_realm_tables == old(library).migrated_realm_tables,
{
    let ghost old_caps = library.captures@;
    let before = library.captures.len();
    let mut rest: Vec<CaptureSummary> = Vec::new();
    std::mem::swap(&mut rest, &mut library.captures);
    let mut kept: Vec<CaptureSummary> = Vec::new();
    let n = rest.len();
    assert(old_caps.take(0) =~= Seq::<CaptureSummary>::empty());
    assert(old_caps.skip(0) =~= old_caps);
    while rest.len() > 0
        invariant
            n == old_caps.len(),
            rest.len() <= n,
            rest@ == old_caps.skip(n - rest.len()),
            kept@ == live_captures(old_caps.take(n - rest.len()), library.collections@),
        decreases rest.len(),
    {
        let ghost k = n - rest.len();
        let c = rest.remove(0);
        assert(c == old_caps[k]);
        assert(rest@ =~= old_caps.skip(k + 1));
        assert(old_caps.take(k + 1).drop_last() =~= old_caps.take(k));
        assert(old_caps.take(k + 1).last() == old_caps[k]);
        if collection_exists(&library.collections, c.collection_id.as_str()) {
            kept.push(c);
        }
    }
    assert(old_caps.take(n as int) =~= old_caps);
    proof {
        lemma_live_captures_len(old_caps, library.collections@);
    }
    library.captures = kept;
    before - library.captures.len()
}

/// The first collection with id `id`.
pub open spec fn collection_index(collections: Seq<CollectionSummary>, id: Seq<char>) -> Option<int>
    decreases collections.len(),
{
    if collections.len() == 0 {
        None
    } else {
        match collection_index(collections.drop_last(), id) {
            Some(k) => Some(k),
            None => if collections.last().id@ == id {
                Some(collections.len() - 1)
            } else {
                None
            },
        }
    }
}

proof fn lemma_collection_index(collections: Seq<CollectionSummary>, id: Seq<char>)
    ensures
        match collection_index(collections, id) {
            Some(k) => 0 <= k < collections.len() && collections[k].id@ == id && forall|j: int|
                0 <= j < k ==> collections[j].id@ != id,
            None => forall|j: int| 0 <= j < collections.len() ==> collections[j].id@ != id,
        },
    decreases collections.len(),
{
    if collections.len() > 0 {
        lemma_collection_index(collections.drop_last(), id);
        assert forall|j: int| 0 <= j < collections.len() - 1 implies collections.drop_last()[j]
            == collections[j] by {}
    }
}

/// Whether `c` is a field-for-field copy of `o`.
pub open spec fn same_collection(c: CollectionSummary, o: CollectionSummary) -> bool {
    &&& c.id@ == o.id@
    &&& c.name@ == o.name@
    &&& c.description@ == o.description@
    &&& c.icon.deep_view() == o.icon.deep_view()
    &&& c.created_at@ == o.created_at@
    &&& c.updated_at@ == o.updated_at@
    &&& c.capture_count == o.capture_count
    &&& c.chunk_count == o.chunk_count
}

/// A copy of the collection with id `collection_id`, or an error.
pub fn find_collection(library: &LibraryData, collection_id: &str) -> (r: Result<
    CollectionSummary,
    String,
>)
    ensures
        match r {
            Ok(c) => collection_index(library.collections@, collection_id@) is Some && same_collection(
                c,
                library.collections@[collection_index(library.collections@, collection_id@)->0],
            ),
            Err(e) => collection_index(library.collections@, collection_id@) is None && e@
                == "Collection not found."@,
        },
{
    proof {
        lemma_collection_index(library.collections@, collection_id@);
    }
    let n = library.collections.len();
    let mut k: usize = 0;
    while k < n
        invariant
            n == library.collections@.len(),
            k <= n,
            forall|j: int| 0 <= j < k ==> library.collections@[j].id@ != collection_id@,
            match collection_index(library.collections@, collection_id@) {
                Some(f) => 0 <= f < library.collections@.len() && library.collections@[f].id@
                    == collection_id@ && forall|j: int|
                    0 <= j < f ==> library.collections@[j].id@ != collection_id@,
                None => forall|j: int|
                    0 <= j < library.collections@.len() ==> library.collections@[j].id@
                        != collection_id@,
            },
        decreases n - k,
    {
        let c = &library.collections[k];
        if str_eq(c.id.as_str(), collection_id) {
            return Ok(
                CollectionSummary {
                    id: copy_string(&c.id),
                    name: copy_string(&c.name),
                    description: copy_string(&c.description),
                    icon: crate::tabs::clone_opt_string(&c.icon),
                    created_at: copy_string(&c.created_at),
                    updated_at: copy_string(&c.updated_at),
                    capture_count: c.capture_count,
                    chunk_count: c.chunk_count,
                },
            );
        }
        k += 1;
    }
    Err(String::from_str("Collection not found."))
}

// ---------------------------------------------------------------------------
// Capturing a page into a hub
// ---------------------------------------------------------------------------

/// One of the hub's captures already has the page's capture key.
pub open spec fn already_captured(captures: Seq<CaptureSummary>, collection_id: Seq<char>, key: Seq<char>) -> bool {
    exists|k: int|
        0 <= k < captures.len() && (#[trigger] captures[k]).collection_id@ == collection_id && capture_url_key(
            captures[k].url@,
        ) == key
}

/// The chunks a captured page's text is stored as.
pub open spec fn capture_chunks(text: Seq<char>) -> Seq<Seq<char>> {
    chunks_from(text, 0, DEFAULT_CAPTURE_CHUNK_SIZE as nat, DEFAULT_CAPTURE_CHUNK_OVERLAP as nat)
}

fn captured_in(captures: &Vec<CaptureSummary>, collection_id: &str, key: &str) -> (r: bool)
    ensures
        r == already_captured(captures@, collection_id@, key@),
{
    let n = captures.len();
    let mut k: usize = 0;
    while k < n
        invariant
            n == captures@.len(),
            k <= n,
            forall|j: int|
                0 <= j < k ==> !((#[trigger] captures@[j]).collection_id@ == collection_id@ && capture_url_key(
                    captures@[j].url@,
                ) == key@),
        decreases n - k,
    {
        let c = &captures[k];
        if str_eq(c.collection_id.as_str(), collection_id) {
            let other = normalize_capture_url_key(c.url.as_str());
            if str_eq(other.as_str(), key) {
                return true;
            }
        }
        k += 1;
    }
    false
}

/// What is settled before a page is embedded into a hub: the hub must exist
/// and not already hold the page, and the page's text must yield chunks.
/// Gives the hub and the chunks to embed.
pub fn plan_capture(library: &LibraryData, collection_id: &str, url: &str, text: &str) -> (r: Result<
    (CollectionSummary, Vec<String>),
    String,
>)
    ensures
        match collection_index(library.collections@, collection_id@) {
            None => r is Err && r->Err_0@ == "Collection not found."@,
            Some(k) => {
                let c = library.collections@[k];
                if already_captured(library.captures@, c.id@, capture_url_key(url@)) {
                    r is Err && r->Err_0@ == "Page is already in "@ + c.name@ + "."@
                } else if capture_chunks(text@).len() == 0 {
                    r is Err && r->Err_0@ == "No readable text found on that page."@
                } else {
                    r matches Ok(plan) && same_collection(plan.0, c) && string_views(plan.1@) == capture_chunks(
                        text@,
                    )
                }
            },
        },
{
    let collection = match find_collection(library, collection_id) {
        Ok(c) => c,
        Err(e) => return Err(e),
    };
    let key = normalize_capture_url_key(url);
    if captured_in(&library.captures, collection.id.as_str(), key.as_str()) {
        proof {
            reveal_strlit("Page is already in ");
            reveal_strlit(".");
        }
        let mut message = to_chars("Page is already in ");
        push_str_chars(&mut message, collection.name.as_str());
        push_str_chars(&mut message, ".");
        return Err(from_chars(message.as_slice()));
    }
    let (size, overlap) = capture_chunk_settings();
    let chunks = split_text(text, size, overlap);
    if chunks.len() == 0 {
        return Err(String::from_str("No readable text found on that page."));
    }
    Ok((collection, chunks))
}

/// Adds a stored capture to the library and counts it in its hub (the first
/// with its collection id): one more capture, its chunks, and the hub updated
/// at the capture's time.
pub fn record_capture(library: &mut LibraryData, capture: CaptureSummary)
    requires
        match collection_index(old(library).collections@, capture.collection_id@) {
            Some(k) => old(library).collections@[k].capture_count < usize::MAX
                && old(library).collections@[k].chunk_count + capture.chunk_count <= usize::MAX,
            None => true,
        },
    ensures
        final(library).captures@ == old(library).captures@.push(capture),
        final(library).collections@.len() == old(library).collections@.len(),
        match collection_index(old(library).collections@, capture.collection_id@) {
            None => final(library).collections@ == old(library).collections@,
            Some(k) => {
                let before = old(library).collections@[k];
                let after = final(library).collections@[k];
                &&& forall|j: int|
                    0 <= j < old(library).collections@.len() && j != k ==> final(library).collections@[j]
                        == old(library).collections@[j]
                &&& after.id == before.id
                &&& after.name == before.name
                &&& after.description == before.description
                &&& after.icon == before.icon
                &&& after.created_at == before.created_at
                &&& after.updated_at@ == capture.captured_at@
                &&& after.capture_count == before.capture_count + 1
                &&& after.chunk_count == before.chunk_count + capture.chunk_count
            },
        },
        final(library).version == old(library).version,
        final(library).shortcuts == old(library).shortcuts,
        final(library).migrated_realm_tables == old(library).migrated_realm_tables,
{
    proof {
        lemma_collection_index(library.collections@, capture.collection_id@);
    }
    let n = library.collections.len();
    let mut k: usize = 0;
    while k < n
        invariant
            n == library.collections@.len(),
            library.collections@ == old(library).collections@,
            k <= n,
            forall|j: int| 0 <= j < k ==> library.collections@[j].id@ != capture.collection_id@,
        ensures
            k <= n,
            library.collections@ == old(library).collections@,
            forall|j: int| 0 <= j < k ==> library.collections@[j].id@ != capture.collection_id@,
            k < n ==> library.collections@[k as int].id@ == capture.collection_id@,
        decreases n - k,
    {
        if str_eq(library.collections[k].id.as_str(), capture.collection_id.as_str()) {
            break;
        }
        k += 1;
    }
    if k < n {
        assert(collection_index(library.collections@, capture.collection_id@) == Some(k as int));
        let mut c = library.collections.remove(k);
        c.capture_count = c.capture_count + 1;
        c.chunk_count = c.chunk_count + capture.chunk_count;
        c.updated_at = copy_string(&capture.captured_at);
        library.collections.insert(k, c);
    } else {
        assert(collection_index(library.collections@, capture.collection_id@) is None);
    }
    library.captures.push(capture);
}

// ---------------------------------------------------------------------------
// Reordering
// ---------------------------------------------------------------------------

/// The last item with id `id` (later items with the same id win).
pub open spec fn last_with_id(item_ids: Seq<Seq<char>>, id: Seq<char>) -> Option<int>
    decreases item_ids.len(),
{
    if item_ids.len() == 0 {
        None
    } else if item_ids.last() == id {
        Some(item_ids.len() - 1)
    } else {
        last_with_id(item_ids.drop_last(), id)
    }
}

/// The items the first `k` requested ids name, in request order (blank ids
/// and ids of no item are skipped).
pub open spec fn requested_items(item_ids: Seq<Seq<char>>, ids: Seq<Seq<char>>, k: int) -> Seq<int>
    decreases k,
{
    if k <= 0 {
        Seq::empty()
    } else {
        let prev = requested_items(item_ids, ids, k - 1);
        let id = ids[k - 1];
        if id.len() > 0 {
            match last_with_id(item_ids, id) {
                Some(j) => prev.push(j),
                None => prev,
            }
        } else {
            prev
        }
    }
}

/// The first `k` items whose ids were not requested, in their order.
pub open spec fn unrequested_items(item_ids: Seq<Seq<char>>, ids: Seq<Seq<char>>, k: int) -> Seq<int>
    decreases k,
{
    if k <= 0 {
        Seq::empty()
    } else {
        let prev = unrequested_items(item_ids, ids, k - 1);
        if ids.contains(item_ids[k - 1]) && item_ids[k - 1].len() > 0 {
            prev
        } else {
            prev.push(k - 1)
        }
    }
}

/// A new order for items: those the ids request first, in request order, then
/// the rest in their old order. Given as positions of the old list.
pub open spec fn reordered(item_ids: Seq<Seq<char>>, ids: Seq<Seq<char>>) -> Seq<int> {
    requested_items(item_ids, ids, ids.len() as int) + unrequested_items(item_ids, ids, item_ids.len() as int)
}

fn last_with_id_of(item_ids: &[String], id: &str) -> (r: Option<usize>)
    ensures
        match last_with_id(string_views(item_ids@), id@) {
            Some(j) => 0 <= j < item_ids@.len() && r is Some && r->0 as int == j,
            None => r is None,
        },
{
    let ghost v = string_views(item_ids@);
    let mut i: usize = item_ids.len();
    assert(v.take(i as int) =~= v);
    while i > 0
        invariant
            v == string_views(item_ids@),
            i <= item_ids@.len(),
            last_with_id(v, id@) == last_with_id(v.take(i as int), id@),
        decreases i,
    {
        let ghost t = v.take(i as int);
        assert(t.drop_last() =~= v.take(i - 1));
        assert(t.last() == item_ids@[i - 1]@);
        if str_eq(item_ids[i - 1].as_str(), id) {
            return Some(i - 1);
        }
        i -= 1;
    }
    None
}

fn requested(ids: &[String], id: &str) -> (r: bool)
    ensures
        r == string_views(ids@).contains(id@),
{
    let n = ids.len();
    let mut i: usize = 0;
    while i < n
        invariant
            n == ids@.len(),
            i <= n,
            forall|k: int| 0 <= k < i ==> ids@[k]@ != id@,
        decreases n - i,
    {
        if str_eq(ids[i].as_str(), id) {
            assert(string_views(ids@)[i as int] == id@);
            return true;
        }
        i += 1;
    }
    assert forall|k: int| 0 <= k < string_views(ids@).len() implies string_views(ids@)[k] != id@ by {
        assert(string_views(ids@)[k] == ids@[k]@);
    }
    false
}

/// The new order of items with ids `item_ids` for the requested `ids` (see
/// [`reordered`]).
pub fn reorder(item_ids: &[String], ids: &[String]) -> (r: Vec<usize>)
    ensures
        r@.map_values(|p: usize| p as int) == reordered(string_views(item_ids@), string_views(ids@)),
{
    let ghost iv = string_views(item_ids@);
    let ghost dv = string_views(ids@);
    let mut out: Vec<usize> = Vec::new();
    let m = ids.len();
    let mut k: usize = 0;
    while k < m
        invariant
            m == ids@.len(),
            iv == string_views(item_ids@),
            dv == string_views(ids@),
            k <= m,
            out@.map_values(|p: usize| p as int) == requested_items(iv, dv, k as int),
        decreases m - k,
    {
        assert(dv[k as int] == ids@[k as int]@);
        if to_chars(ids[k].as_str()).len() > 0 {
            match last_with_id_of(item_ids, ids[k].as_str()) {
                Some(j) => {
                    let ghost before = out@.map_values(|p: usize| p as int);
                    out.push(j);
                    assert(out@.map_values(|p: usize| p as int) =~= before.push(j as int));
                },
                None => {},
            }
        }
        k += 1;
    }
    let ghost head = out@.map_values(|p: usize| p as int);
    let n = item_ids.len();
    let mut i: usize = 0;
    while i < n
        invariant
            n == item_ids@.len(),
            iv == string_views(item_ids@),
            dv == string_views(ids@),
            i <= n,
            out@.map_values(|p: usize| p as int) == head + unrequested_items(iv, dv, i as int),
        decreases n - i,
    {
        assert(iv[i as int] == item_ids@[i as int]@);
        let is_requested = requested(ids, item_ids[i].as_str()) && to_chars(item_ids[i].as_str()).len() > 0;
        if !is_requested {
            let ghost before = out@.map_values(|p: usize| p as int);
            out.push(i);
            assert(out@.map_values(|p: usize| p as int) =~= before.push(i as int));
        }
        i += 1;
    }
    out
}

proof fn lemma_last_with_id(item_ids: Seq<Seq<char>>, id: Seq<char>)
    ensures
        match last_with_id(item_ids, id) {
            Some(j) => 0 <= j < item_ids.len() && item_ids[j] == id,
            None => !item_ids.contains(id),
        },
        item_ids.no_duplicates() ==> forall|j: int|
            0 <= j < item_ids.len() && #[trigger] item_ids[j] == id ==> last_with_id(item_ids, id) == Some(j),
    decreases item_ids.len(),
{
    if item_ids.len() > 0 {
        let rest = item_ids.drop_last();
        lemma_last_with_id(rest, id);
        assert forall|j: int| 0 <= j < rest.len() implies rest[j] == item_ids[j] by {}
        if !rest.contains(id) && item_ids.last() != id {
            assert forall|j: int| 0 <= j < item_ids.len() implies item_ids[j] != id by {
                if j < rest.len() {
                    assert(rest[j] == item_ids[j]);
                }
            }
        }
    }
}

proof fn lemma_requested_items(item_ids: Seq<Seq<char>>, ids: Seq<Seq<char>>, k: int)
    requires
        0 <= k <= ids.len(),
        item_ids.no_duplicates(),
        ids.no_duplicates(),
    ensures
        requested_items(item_ids, ids, k).no_duplicates(),
        forall|i: int| 0 <= i < requested_items(item_ids, ids, k).len() ==> {
            let p = #[trigger] requested_items(item_ids, ids, k)[i];
            &&& 0 <= p < item_ids.len()
            &&& item_ids[p].len() > 0
            &&& ids.take(k).contains(item_ids[p])
        },
        forall|j: int|
            0 <= j < item_ids.len() && item_ids[j].len() > 0 && ids.take(k).contains(#[trigger] item_ids[j])
                ==> requested_items(item_ids, ids, k).contains(j),
    decreases k,
{
    if k > 0 {
        lemma_requested_items(item_ids, ids, k - 1);
        let prev = requested_items(item_ids, ids, k - 1);
        let id = ids[k - 1];
        lemma_last_with_id(item_ids, id);
        assert(ids.take(k) =~= ids.take(k - 1).push(id));
        assert forall|i: int| 0 <= i < prev.len() implies item_ids[#[trigger] prev[i]] != id by {
            let p = prev[i];
            if item_ids[p] == id {
                let m = choose|m: int| 0 <= m < k - 1 && #[trigger] ids.take(k - 1)[m] == item_ids[p];
                assert(ids[m] == ids[k - 1]);
            }
        }
        let cur = requested_items(item_ids, ids, k);
        assert forall|i: int| 0 <= i < cur.len() implies {
            let p = #[trigger] cur[i];
            &&& 0 <= p < item_ids.len()
            &&& item_ids[p].len() > 0
            &&& ids.take(k).contains(item_ids[p])
        } by {
            if i < prev.len() {
                assert(cur[i] == prev[i]);
                let m = choose|m: int| 0 <= m < k - 1 && #[trigger] ids.take(k - 1)[m] == item_ids[prev[i]];
                assert(ids.take(k)[m] == ids.take(k - 1)[m]);
            } else {
                assert(ids.take(k)[k - 1] == id);
            }
        }
        assert forall|j: int|
            0 <= j < item_ids.len() && item_ids[j].len() > 0 && ids.take(k).contains(#[trigger] item_ids[j])
                implies requested_items(item_ids, ids, k).contains(j) by {
            if ids.take(k - 1).contains(item_ids[j]) {
                let i = choose|i: int| 0 <= i < prev.len() && prev[i] == j;
                assert(requested_items(item_ids, ids, k)[i] == j);
            } else {
                assert(item_ids[j] == id);
                assert(requested_items(item_ids, ids, k) == prev.push(j));
                assert(requested_items(item_ids, ids, k)[prev.len() as int] == j);
            }
        }
    }
}

proof fn lemma_unrequested_items(item_ids: Seq<Seq<char>>, ids: Seq<Seq<char>>, k: int)
    requires
        0 <= k <= item_ids.len(),
    ensures
        forall|a: int, b: int|
            0 <= a < b < unrequested_items(item_ids, ids, k).len() ==> #[trigger] unrequested_items(
                item_ids,
                ids,
                k,
            )[a] < #[trigger] unrequested_items(item_ids, ids, k)[b],
        forall|i: int| 0 <= i < unrequested_items(item_ids, ids, k).len() ==> {
            let p = #[trigger] unrequested_items(item_ids, ids, k)[i];
            &&& 0 <= p < k
            &&& !(ids.contains(item_ids[p]) && item_ids[p].len() > 0)
        },
        forall|j: int|
            0 <= j < k && !(ids.contains(#[trigger] item_ids[j]) && item_ids[j].len() > 0)
                ==> unrequested_items(item_ids, ids, k).contains(j),
    decreases k,
{
    if k > 0 {
        lemma_unrequested_items(item_ids, ids, k - 1);
        let prev = unrequested_items(item_ids, ids, k - 1);
        assert forall|j: int|
            0 <= j < k && !(ids.contains(#[trigger] item_ids[j]) && item_ids[j].len() > 0)
                implies unrequested_items(item_ids, ids, k).contains(j) by {
            if j < k - 1 {
                let i = choose|i: int| 0 <= i < prev.len() && prev[i] == j;
                assert(unrequested_items(item_ids, ids, k)[i] == j);
            } else {
                assert(unrequested_items(item_ids, ids, k)[prev.len() as int] == j);
            }
        }
    }
}

/// Reordering neither loses nor repeats an item: where no two items share an
/// id and no id is requested twice, every position of the old list appears
/// exactly once in the new order.
pub proof fn lemma_reorder_is_permutation(item_ids: Seq<Seq<char>>, ids: Seq<Seq<char>>)
    requires
        item_ids.no_duplicates(),
        ids.no_duplicates(),
    ensures
        reordered(item_ids, ids).no_duplicates(),
        forall|i: int| 0 <= i < reordered(item_ids, ids).len() ==> 0 <= #[trigger] reordered(item_ids, ids)[i]
            < item_ids.len(),
        forall|j: int| 0 <= j < item_ids.len() ==> #[trigger] reordered(item_ids, ids).contains(j),
{
    let head = requested_items(item_ids, ids, ids.len() as int);
    let tail = unrequested_items(item_ids, ids, item_ids.len() as int);
    lemma_requested_items(item_ids, ids, ids.len() as int);
    lemma_unrequested_items(item_ids, ids, item_ids.len() as int);
    assert(ids.take(ids.len() as int) =~= ids);
    let r = head + tail;
    assert forall|a: int, b: int| 0 <= a < r.len() && 0 <= b < r.len() && a != b implies r[a] != r[b] by {
        if a < head.len() && b < head.len() {
        } else if a >= head.len() && b >= head.len() {
            if a < b {
                assert(tail[a - head.len()] < tail[b - head.len()]);
            } else {
                assert(tail[b - head.len()] < tail[a - head.len()]);
            }
        } else if a < head.len() {
            assert(ids.contains(item_ids[head[a]]) && item_ids[head[a]].len() > 0);
            assert(tail[b - head.len()] == r[b]);
        } else {
            assert(ids.contains(item_ids[head[b]]) && item_ids[head[b]].len() > 0);
            assert(tail[a - head.len()] == r[a]);
        }
    }
    assert forall|i: int| 0 <= i < r.len() implies 0 <= #[trigger] r[i] < item_ids.len() by {
        if i < head.len() {
            assert(r[i] == head[i]);
        } else {
            assert(r[i] == tail[i - head.len()]);
        }
    }
    assert forall|j: int| 0 <= j < item_ids.len() implies #[trigger] r.contains(j) by {
        if ids.contains(item_ids[j]) && item_ids[j].len() > 0 {
            let i = choose|i: int| 0 <= i < head.len() && head[i] == j;
            assert(r[i] == j);
        } else {
            let i = choose|i: int| 0 <= i < tail.len() && tail[i] == j;
            assert(r[head.len() + i] == j);
        }
    }
}

// ---------------------------------------------------------------------------
// Conversation threads
// ---------------------------------------------------------------------------

/// The thread of questions asked about the current page rather than a hub.
pub const CURRENT_PAGE_THREAD_KEY: &'static str = "current-page";

pub open spec fn thread_key(collection_id: Option<Seq<char>>) -> Seq<char> {
    match collection_id {
        Some(id) => if id.len() > 0 {
            id
        } else {
            CURRENT_PAGE_THREAD_KEY@
        },
        None => CURRENT_PAGE_THREAD_KEY@,
    }
}

/// A hub's own thread, or the page thread (an empty id is a page ask too).
pub fn conversation_thread_key(collection_id: Option<&str>) -> (r: String)
    ensures
        r@ == thread_key(
            match collection_id {
                Some(id) => Some(id@),
                None => None,
            },
        ),
{
    match collection_id {
        Some(id) => if !id.is_empty() {
            String::from_str(id)
        } else {
            String::from_str(CURRENT_PAGE_THREAD_KEY)
        },
        None => String::from_str(CURRENT_PAGE_THREAD_KEY),
    }
}

/// Turns kept per thread; older ones are dropped.
pub const MAX_THREAD_TURNS: usize = 40;

/// One thread of turns per key (a hub id or the page thread).
pub struct ConversationThread<T> {
    pub key: String,
    pub turns: Vec<T>,
}

/// All conversation threads, at most one per key.
pub struct ConversationData<T> {
    pub version: u8,
    pub threads: Vec<ConversationThread<T>>,
}

/// Position of the thread for `key`.
pub open spec fn thread_at<T>(threads: Seq<ConversationThread<T>>, key: Seq<char>) -> Option<int>
    decreases threads.len(),
{
    if threads.len() == 0 {
        None
    } else {
        match thread_at(threads.drop_last(), key) {
            Some(i) => Some(i),
            None => if threads.last().key@ == key {
                Some(threads.len() - 1)
            } else {
                None
            },
        }
    }
}

/// The turns of the thread for `key`; none when there is no such thread.
pub open spec fn turns_of<T>(threads: Seq<ConversationThread<T>>, key: Seq<char>) -> Seq<T> {
    match thread_at(threads, key) {
        Some(i) => threads[i].turns@,
        None => Seq::empty(),
    }
}

/// The newest `MAX_THREAD_TURNS` turns.
pub open spec fn bounded_turns<T>(turns: Seq<T>) -> Seq<T> {
    if turns.len() > MAX_THREAD_TURNS {
        turns.skip(turns.len() - MAX_THREAD_TURNS)
    } else {
        turns
    }
}

pub open spec fn opt_id(collection_id: Option<&str>) -> Option<Seq<char>> {
    match collection_id {
        Some(id) => Some(id@),
        None => None,
    }
}

proof fn lemma_thread_at<T>(threads: Seq<ConversationThread<T>>, key: Seq<char>)
    ensures
        match thread_at(threads, key) {
            Some(i) => 0 <= i < threads.len() && threads[i].key@ == key && forall|j: int|
                0 <= j < i ==> threads[j].key@ != key,
            None => forall|j: int| 0 <= j < threads.len() ==> threads[j].key@ != key,
        },
    decreases threads.len(),
{
    if threads.len() > 0 {
        lemma_thread_at(threads.drop_last(), key);
        assert forall|j: int| 0 <= j < threads.len() - 1 implies threads[j] == threads.drop_last()[j] by {}
    }
}

proof fn lemma_thread_at_first<T>(threads: Seq<ConversationThread<T>>, key: Seq<char>, i: int)
    requires
        0 <= i < threads.len(),
        threads[i].key@ == key,
        forall|j: int| 0 <= j < i ==> threads[j].key@ != key,
    ensures
        thread_at(threads, key) == Some(i),
{
    lemma_thread_at(threads, key);
}

fn find_thread<T>(threads: &Vec<ConversationThread<T>>, key: &str) -> (r: Option<usize>)
    ensures
        match r {
            Some(i) => thread_at(threads@, key@) == Some(i as int),
            None => thread_at(threads@, key@) is None,
        },
{
    proof {
        lemma_thread_at(threads@, key@);
    }
    let n = threads.len();
    let mut i: usize = 0;
    while i < n
        invariant
            n == threads@.len(),
            i <= n,
            forall|j: int| 0 <= j < i ==> threads@[j].key@ != key@,
        decreases n - i,
    {
        if str_eq(threads[i].key.as_str(), key) {
            proof {
                lemma_thread_at_first(threads@, key@, i as int);
            }
            return Some(i);
        }
        i += 1;
    }
    None
}

/// After a turn is added a thread holds at most `MAX_THREAD_TURNS` turns,
/// the newest last, the ones before it in their order.
pub proof fn lemma_appended_thread_is_bounded<T>(turns: Seq<T>, turn: T)
    ensures
        bounded_turns(turns.push(turn)).len() <= MAX_THREAD_TURNS,
        bounded_turns(turns.push(turn)).last() == turn,
        bounded_turns(turns.push(turn)).len() == if turns.len() + 1 > MAX_THREAD_TURNS {
            MAX_THREAD_TURNS as int
        } else {
            turns.len() + 1int
        },
        forall|i: int|
            0 <= i < bounded_turns(turns.push(turn)).len() - 1 ==> #[trigger] bounded_turns(turns.push(turn))[i]
                == turns[turns.len() + 1 - bounded_turns(turns.push(turn)).len() + i],
{
}

impl<T> ConversationData<T> {
    pub fn empty() -> (r: Self)
        ensures
            r.version == 1,
            r.threads@.len() == 0,
    {
        ConversationData { version: 1, threads: Vec::new() }
    }

    /// Adds a turn to the thread of `collection_id` (see
    /// [`conversation_thread_key`]), keeping only its newest turns; every other
    /// thread is left as it was.
    pub fn append_conversation_turn(&mut self, collection_id: Option<&str>, turn: T)
        ensures
            final(self).version == old(self).version,
            turns_of(final(self).threads@, thread_key(opt_id(collection_id))) == bounded_turns(
                turns_of(old(self).threads@, thread_key(opt_id(collection_id))).push(turn),
            ),
            forall|k: Seq<char>|
                k != thread_key(opt_id(collection_id)) ==> #[trigger] turns_of(final(self).threads@, k)
                    == turns_of(old(self).threads@, k),
    {
        let key = conversation_thread_key(collection_id);
        let ghost before = self.threads@;
        proof {
            lemma_thread_at(before, key@);
        }
        match find_thread(&self.threads, key.as_str()) {
            Some(i) => {
                let mut thread = self.threads.remove(i);
                let ghost old_turns = thread.turns@;
                thread.turns.push(turn);
                let ghost pushed = thread.turns@;
                if thread.turns.len() > MAX_THREAD_TURNS {
                    let overflow = thread.turns.len() - MAX_THREAD_TURNS;
                    let mut k: usize = 0;
                    while k < overflow
                        invariant
                            overflow == pushed.len() - MAX_THREAD_TURNS,
                            k <= overflow,
                            thread.turns@ == pushed.skip(k as int),
                            thread.key@ == key@,
                        decreases overflow - k,
                    {
                        thread.turns.remove(0);
                        assert(thread.turns@ =~= pushed.skip(k + 1));
                        k += 1;
                    }
                }
                self.threads.insert(i, thread);
                proof {
                    assert forall|j: int| 0 <= j < before.len() && j != i implies #[trigger] self.threads@[j] == before[j] by {}
                    lemma_thread_at(self.threads@, key@);
                    lemma_thread_at_first(self.threads@, key@, i as int);
                    assert forall|k: Seq<char>| k != key@ implies #[trigger] turns_of(self.threads@, k) == turns_of(before, k) by {
                        lemma_thread_at(before, k);
                        lemma_thread_at(self.threads@, k);
                        match thread_at(before, k) {
                            Some(p) => {
                                assert(p != i);
                                lemma_thread_at_first(self.threads@, k, p);
                            },
                            None => {
                                assert forall|j: int| 0 <= j < self.threads@.len() implies self.threads@[j].key@ != k by {
                                    if j != i {
                                        assert(self.threads@[j] == before[j]);
                                    }
                                }
                            },
                        }
                    }
                }
            },
            None => {
                let mut turns: Vec<T> = Vec::new();
                turns.push(turn);
                let ghost key_view = key@;
                self.threads.push(ConversationThread { key, turns });
                proof {
                    assert(self.threads@.drop_last() =~= before);
                    assert forall|k: Seq<char>| k != key_view implies #[trigger] turns_of(self.threads@, k) == turns_of(before, k) by {
                        lemma_thread_at(before, k);
                        match thread_at(before, k) {
                            Some(p) => {
                                lemma_thread_at_first(self.threads@, k, p);
                                assert(self.threads@[p] == before[p]);
                            },
                            None => {},
                        }
                    }
                    assert(turns_of(before, key_view) =~= Seq::<T>::empty());
                    assert(self.threads@.last().turns@ =~= seq![turn]);
                }
            },
        }
    }

    /// The turns of the thread of `collection_id`; none when it has no thread.
    pub fn conversation_thread(&self, collection_id: Option<&str>) -> (r: &[T])
        ensures
            r@ == turns_of(self.threads@, thread_key(opt_id(collection_id))),
    {
        let key = conversation_thread_key(collection_id);
        proof {
            lemma_thread_at(self.threads@, key@);
        }
        match find_thread(&self.threads, key.as_str()) {
            Some(i) => self.threads[i].turns.as_slice(),
            None => &[],
        }
    }
}

// ---------------------------------------------------------------------------
// Slugs
// ---------------------------------------------------------------------------

/// ASCII letters, digits and `_` are kept; every other run becomes one `-`.
/// `last_dash` says whether the slug so far ends in a dash run.
pub open spec fn slug_from(s: Seq<char>, last_dash: bool) -> Seq<char>
    decreases s.len(),
{
    if s.len() == 0 {
        Seq::empty()
    } else if is_ascii_alnum(s[0]) || s[0] == '_' {
        seq![s[0]] + slug_from(s.drop_first(), false)
    } else if !last_dash {
        seq!['-'] + slug_from(s.drop_first(), true)
    } else {
        slug_from(s.drop_first(), true)
    }
}

/// A URL-safe identifier for a name; `collection` when nothing is left.
pub open spec fn slug_of(value: Seq<char>) -> Seq<char> {
    let s = trim_in(slug_from(unicode_lowercase(trim_ws(value)), false), seq!['-']);
    if s.len() == 0 {
        "collection"@
    } else {
        s
    }
}

pub fn slugify(value: &str) -> (r: String)
    ensures
        r@ == slug_of(value@),
{
    let trimmed = trim_str(value);
    let lower = to_lowercase(trimmed.as_str());
    let v = to_chars(lower.as_str());
    let n = v.len();
    let mut slug: Vec<char> = Vec::new();
    let mut last_dash = false;
    let mut i: usize = 0;
    assert(v@.skip(0) =~= v@);
    while i < n
        invariant
            n == v@.len(),
            i <= n,
            slug_from(v@, false) == slug@ + slug_from(v@.skip(i as int), last_dash),
        decreases n - i,
    {
        let c = v[i];
        assert(v@.skip(i as int)[0] == c);
        assert(v@.skip(i as int).drop_first() =~= v@.skip(i + 1));
        let ghost before = slug@;
        if char_is_ascii_alnum(c) || c == '_' {
            slug.push(c);
            last_dash = false;
            assert(before + (seq![c] + slug_from(v@.skip(i + 1), false)) =~= slug@ + slug_from(
                v@.skip(i + 1),
                false,
            ));
        } else if !last_dash {
            slug.push('-');
            last_dash = true;
            assert(before + (seq!['-'] + slug_from(v@.skip(i + 1), true)) =~= slug@ + slug_from(
                v@.skip(i + 1),
                true,
            ));
        }
        i += 1;
    }
    assert(v@.skip(n as int) =~= Seq::<char>::empty());
    assert(slug@ + Seq::<char>::empty() =~= slug@);
    let mut dash: Vec<char> = Vec::new();
    dash.push('-');
    assert(dash@ =~= seq!['-']);
    let t = trim_set(slug.as_slice(), dash.as_slice());
    if t.len() == 0 {
        String::from_str("collection")
    } else {
        from_chars(t.as_slice())
    }
}

/// `base` with a numeric suffix: `base-k`.
pub open spec fn suffixed(base: Seq<char>, k: nat) -> Seq<char> {
    base + "-"@ + decimal_chars(k)
}

/// The first suffix from `k` on whose suffixed name is not taken (searching no
/// further than the names taken could reach).
pub open spec fn free_suffix(base: Seq<char>, taken: Seq<Seq<char>>, k: nat) -> nat
    decreases taken.len() + 2 - k,
{
    if k >= taken.len() + 2 || !taken.contains(suffixed(base, k)) {
        k
    } else {
        free_suffix(base, taken, k + 1)
    }
}

/// The slug of `name`, made distinct from `taken` by the first free numeric
/// suffix from 2 on.
pub open spec fn unique_slug_of(name: Seq<char>, taken: Seq<Seq<char>>) -> Seq<char> {
    let base = slug_of(name);
    if !taken.contains(base) {
        base
    } else {
        suffixed(base, free_suffix(base, taken, 2))
    }
}

proof fn lemma_suffixed_distinct(base: Seq<char>, a: nat, b: nat)
    ensures
        suffixed(base, a) != base,
        a != b ==> suffixed(base, a) != suffixed(base, b),
{
    reveal_strlit("-");
    lemma_decimal_round_trip(a);
    lemma_decimal_round_trip(b);
    assert(suffixed(base, a).len() > base.len());
    if a != b && suffixed(base, a) == suffixed(base, b) {
        assert(suffixed(base, a).skip(base.len() + 1int) =~= decimal_chars(a));
        assert(suffixed(base, b).skip(base.len() + 1int) =~= decimal_chars(b));
        lemma_decimal_injective(a, b);
    }
}

/// The names `base`, `base-2`, ..., `base-k`.
spec fn slug_candidates(base: Seq<char>, k: nat) -> Set<Seq<char>>
    decreases k,
{
    if k < 2 {
        set![base]
    } else {
        slug_candidates(base, (k - 1) as nat).insert(suffixed(base, k))
    }
}

proof fn lemma_slug_candidates(base: Seq<char>, k: nat)
    requires
        k >= 1,
    ensures
        slug_candidates(base, k).finite(),
        slug_candidates(base, k).len() == k,
        forall|x: Seq<char>| #[trigger] slug_candidates(base, k).contains(x) ==> (x == base || exists|j: nat|
            2 <= j <= k && x == suffixed(base, j)),
    decreases k,
{
    if k >= 2 {
        lemma_slug_candidates(base, (k - 1) as nat);
        lemma_suffixed_distinct(base, k, k);
        assert forall|j: nat| 2 <= j <= k - 1 implies suffixed(base, j) != suffixed(base, k) by {
            lemma_suffixed_distinct(base, j, k);
        }
        assert(!slug_candidates(base, (k - 1) as nat).contains(suffixed(base, k)));
    }
}

/// When `base` and `base-2` ... `base-k` are all taken, there are at least `k`
/// taken names.
proof fn lemma_taken_bound(base: Seq<char>, taken: Seq<Seq<char>>, k: nat)
    requires
        k >= 1,
        taken.contains(base),
        forall|j: nat| 2 <= j <= k ==> taken.contains(#[trigger] suffixed(base, j)),
    ensures
        k <= taken.len(),
{
    lemma_slug_candidates(base, k);
    let cs = slug_candidates(base, k);
    assert(cs.subset_of(taken.to_set()));
    vstd::seq_lib::seq_to_set_is_finite(taken);
    vstd::set_lib::lemma_len_subset(cs, taken.to_set());
    taken.lemma_cardinality_of_set();
}

proof fn lemma_free_suffix(base: Seq<char>, taken: Seq<Seq<char>>, k: nat)
    requires
        k >= 2,
        taken.contains(base),
        forall|j: nat| 2 <= j < k ==> taken.contains(#[trigger] suffixed(base, j)),
    ensures
        !taken.contains(suffixed(base, free_suffix(base, taken, k))),
    decreases taken.len() + 2 - k,
{
    if k >= taken.len() + 2 {
        lemma_taken_bound(base, taken, (k - 1) as nat);
    } else if taken.contains(suffixed(base, k)) {
        lemma_free_suffix(base, taken, k + 1);
    }
}

/// A unique slug is never one of the slugs it was made unique against.
pub proof fn lemma_unique_slug_is_fresh(name: Seq<char>, taken: Seq<Seq<char>>)
    ensures
        !taken.contains(unique_slug_of(name, taken)),
{
    let base = slug_of(name);
    if taken.contains(base) {
        lemma_free_suffix(base, taken, 2);
    }
}

fn strings_contain(v: &[String], s: &[char]) -> (r: bool)
    ensures
        r == string_views(v@).contains(s@),
{
    let n = v.len();
    let mut i: usize = 0;
    while i < n
        invariant
            n == v@.len(),
            i <= n,
            forall|k: int| 0 <= k < i ==> v@[k]@ != s@,
        decreases n - i,
    {
        let c = to_chars(v[i].as_str());
        if crate::text::chars_eq(c.as_slice(), s) {
            assert(string_views(v@)[i as int] == s@);
            return true;
        }
        i += 1;
    }
    assert forall|k: int| 0 <= k < string_views(v@).len() implies string_views(v@)[k] != s@ by {
        assert(string_views(v@)[k] == v@[k]@);
    }
    false
}

/// The slug of `name`, suffixed `-2`, `-3`, ... until it is not among `existing`.
pub fn unique_slug(name: &str, existing: &[String]) -> (r: String)
    requires
        existing.len() < usize::MAX,
    ensures
        r@ == unique_slug_of(name@, string_views(existing@)),
        !string_views(existing@).contains(r@),
{
    let ghost taken = string_views(existing@);
    let base = slugify(name);
    let b = to_chars(base.as_str());
    if !strings_contain(existing, b.as_slice()) {
        return base;
    }
    let n = existing.len();
    let mut suffix: usize = 2;
    loop
        invariant
            taken == string_views(existing@),
            n == existing@.len(),
            n < usize::MAX,
            b@ == slug_of(name@),
            taken.contains(b@),
            2 <= suffix <= n + 1,
            forall|j: nat| 2 <= j < suffix ==> taken.contains(#[trigger] suffixed(b@, j)),
            free_suffix(b@, taken, 2) == free_suffix(b@, taken, suffix as nat),
        decreases n + 1 - suffix,
    {
        let mut candidate = b.clone();
        proof {
            reveal_strlit("-");
        }
        push_str_chars(&mut candidate, "-");
        let digits = crate::numbers::decimal_digits(suffix);
        push_all(&mut candidate, digits.as_slice());
        assert(candidate@ =~= suffixed(b@, suffix as nat));
        if !strings_contain(existing, candidate.as_slice()) {
            return from_chars(candidate.as_slice());
        }
        proof {
            lemma_taken_bound(b@, taken, suffix as nat);
        }
        suffix += 1;
    }
}

// ---------------------------------------------------------------------------
// Icons and colours
// ---------------------------------------------------------------------------

/// The icon names the renderer can draw.
pub open spec fn allowed_icons() -> Seq<Seq<char>> {
    seq![
        "atom"@,
        "book"@,
        "brain"@,
        "briefcase"@,
        "code"@,
        "cpu"@,
        "dna"@,
        "film"@,
        "flask"@,
        "gamepad"@,
        "globe"@,
        "heart"@,
        "landmark"@,
        "microscope"@,
        "music"@,
        "palette"@,
        "shield"@,
        "snowflake"@,
        "sprout"@,
        "telescope"@,
    ]
}

fn allowed_icon_list() -> (r: Vec<Vec<char>>)
    ensures
        views(r@) == allowed_icons(),
{
    let mut v: Vec<Vec<char>> = Vec::new();
    v.push(to_chars("atom"));
    v.push(to_chars("book"));
    v.push(to_chars("brain"));
    v.push(to_chars("briefcase"));
    v.push(to_chars("code"));
    v.push(to_chars("cpu"));
    v.push(to_chars("dna"));
    v.push(to_chars("film"));
    v.push(to_chars("flask"));
    v.push(to_chars("gamepad"));
    v.push(to_chars("globe"));
    v.push(to_chars("heart"));
    v.push(to_chars("landmark"));
    v.push(to_chars("microscope"));
    v.push(to_chars("music"));
    v.push(to_chars("palette"));
    v.push(to_chars("shield"));
    v.push(to_chars("snowflake"));
    v.push(to_chars("sprout"));
    v.push(to_chars("telescope"));
    assert(views(v@) =~= allowed_icons());
    v
}

/// An icon trimmed and lower-cased, kept only if the renderer knows it.
pub open spec fn iceberg_icon(value: Option<Seq<char>>) -> Option<Seq<char>> {
    match value {
        Some(icon) => {
            let n = unicode_lowercase(trim_ws(icon));
            if allowed_icons().contains(n) {
                Some(n)
            } else {
                None
            }
        },
        None => None,
    }
}

pub fn normalize_iceberg_icon(value: Option<String>) -> (r: Option<String>)
    ensures
        r.deep_view() == iceberg_icon(value.deep_view()),
{
    match value {
        Some(icon) => {
            let t = trim_str(icon.as_str());
            let n = to_lowercase(t.as_str());
            let nv = to_chars(n.as_str());
            let list = allowed_icon_list();
            let mut k: usize = 0;
            while k < list.len()
                invariant
                    k <= list@.len(),
                    views(list@) == allowed_icons(),
                    value.deep_view() == Some(icon@),
                    nv@ == n@,
                    n@ == unicode_lowercase(trim_ws(icon@)),
                    forall|j: int| 0 <= j < k ==> allowed_icons()[j] != nv@,
                decreases list.len() - k,
            {
                assert(views(list@)[k as int] == list@[k as int]@);
                if crate::text::chars_eq(list[k].as_slice(), nv.as_slice()) {
                    assert(allowed_icons()[k as int] == nv@);
                    return Some(n);
                }
                k += 1;
            }
            None
        },
        None => None,
    }
}

/// A theme colour a page declared, accepted when it is `#` and 3 to 8 hex
/// digits, or an `rgb`/`rgba`/`hsl`/`hsla` function; at most 64 characters
/// of it are read.
pub open spec fn theme_color(color: Seq<char>) -> Option<Seq<char>> {
    let value = first_n(trim_ws(color), 64);
    let hex = value.drop_first();
    let lower = lower_ascii(value);
    if value.len() == 0 {
        None
    } else if value[0] == '#' && 3 <= hex.len() <= 8 && forall|i: int|
        0 <= i < hex.len() ==> is_hex_digit(#[trigger] hex[i]) {
        Some(value)
    } else if (starts_with(lower, "rgb("@) || starts_with(lower, "rgba("@) || starts_with(
        lower,
        "hsl("@,
    ) || starts_with(lower, "hsla("@)) && ends_with(value, ")"@) {
        Some(value)
    } else {
        None
    }
}

pub fn normalize_theme_color(color: &str) -> (r: Option<String>)
    ensures
        r.deep_view() == theme_color(color@),
{
    let v = to_chars(color);
    let t = trim_chars(v.as_slice());
    let value = take_chars(t.as_slice(), 64);
    assert(value@ == first_n(trim_ws(color@), 64));
    if value.len() == 0 {
        return None;
    }
    if value[0] == '#' {
        let hex = subvec(value.as_slice(), 1, value.len());
        assert(hex@ =~= value@.drop_first());
        if 3 <= hex.len() && hex.len() <= 8 {
            let mut all_hex = true;
            let mut k: usize = 0;
            while k < hex.len()
                invariant
                    k <= hex@.len(),
                    all_hex == forall|i: int| 0 <= i < k ==> is_hex_digit(#[trigger] hex@[i]),
                decreases hex.len() - k,
            {
                if !char_is_hex_digit(hex[k]) {
                    all_hex = false;
                }
                k += 1;
            }
            if all_hex {
                return Some(from_chars(value.as_slice()));
            }
        }
    }
    let lower = lower_ascii_chars(value.as_slice());
    let supported = starts_with_chars(lower.as_slice(), to_chars("rgb(").as_slice())
        || starts_with_chars(lower.as_slice(), to_chars("rgba(").as_slice()) || starts_with_chars(
        lower.as_slice(),
        to_chars("hsl(").as_slice(),
    ) || starts_with_chars(lower.as_slice(), to_chars("hsla(").as_slice());
    if supported && ends_with_chars(value.as_slice(), to_chars(")").as_slice()) {
        return Some(from_chars(value.as_slice()));
    }
    None
}

// ---------------------------------------------------------------------------
// Stored defaults
// ---------------------------------------------------------------------------

/// Settings files start at format version 1.
pub fn default_settings_version() -> (r: u8)
    ensures
        r == 1,
{
    1
}

/// Update checks are on unless turned off.
pub fn default_update_auto_check() -> (r: bool)
    ensures
        r,
{
    true
}

/// Used to leave a `false` flag out of a stored record.
pub fn is_false(value: &bool) -> (r: bool)
    ensures
        r == !*value,
{
    !*value
}

// ---------------------------------------------------------------------------
// Chunking
// ---------------------------------------------------------------------------

pub const DEFAULT_CAPTURE_CHUNK_SIZE: usize = 2200;
pub const DEFAULT_CAPTURE_CHUNK_OVERLAP: usize = 240;

/// Chunk size and overlap for captures, in characters.
pub fn capture_chunk_settings() -> (r: (usize, usize))
    ensures
        r == (DEFAULT_CAPTURE_CHUNK_SIZE, DEFAULT_CAPTURE_CHUNK_OVERLAP),
{
    (DEFAULT_CAPTURE_CHUNK_SIZE, DEFAULT_CAPTURE_CHUNK_OVERLAP)
}

/// Windows of `size` characters from `start` on, each starting `overlap`
/// characters before the previous one ended; each trimmed, empty ones dropped.
/// The windows end with the one that reaches the end of the text (a window
/// no longer than the overlap would never advance, so none follows it).
pub open spec fn chunks_from(t: Seq<char>, start: int, size: nat, overlap: nat) -> Seq<Seq<char>>
    decreases t.len() - start,
{
    if start < 0 || start >= t.len() {
        Seq::empty()
    } else {
        let end = if start + size < t.len() {
            start + size
        } else {
            t.len() as int
        };
        let c = trim_ws(t.subrange(start, end));
        let rest = if end == t.len() || size <= overlap {
            Seq::<Seq<char>>::empty()
        } else {
            chunks_from(t, end - overlap, size, overlap)
        };
        if c.len() > 0 {
            seq![c] + rest
        } else {
            rest
        }
    }
}

proof fn lemma_trim_start_keeps(x: Seq<char>, k: int)
    requires
        0 <= k < x.len(),
        !is_ws(x[k]),
    ensures
        exists|m: int| 0 <= m < trim_start_ws(x).len() && !is_ws(#[trigger] trim_start_ws(x)[m]),
    decreases x.len(),
{
    if x.len() > 0 && is_ws(x[0]) {
        assert(k > 0);
        assert(x.drop_first()[k - 1] == x[k]);
        lemma_trim_start_keeps(x.drop_first(), k - 1);
        assert(trim_start_ws(x) == trim_start_ws(x.drop_first()));
        let m = choose|m: int|
            0 <= m < trim_start_ws(x.drop_first()).len() && !is_ws(
                #[trigger] trim_start_ws(x.drop_first())[m],
            );
        assert(!is_ws(trim_start_ws(x)[m]));
    } else {
        assert(trim_start_ws(x) == x);
        assert(!is_ws(trim_start_ws(x)[k]));
    }
}

proof fn lemma_trim_end_keeps(x: Seq<char>, k: int)
    requires
        0 <= k < x.len(),
        !is_ws(x[k]),
    ensures
        trim_end_ws(x).len() > 0,
    decreases x.len(),
{
    if x.len() > 0 && is_ws(x.last()) {
        assert(k < x.len() - 1);
        assert(x.drop_last()[k] == x[k]);
        lemma_trim_end_keeps(x.drop_last(), k);
    }
}

/// Text with a character other than whitespace does not trim to nothing.
proof fn lemma_trim_keeps(x: Seq<char>, k: int)
    requires
        0 <= k < x.len(),
        !is_ws(x[k]),
    ensures
        trim_ws(x).len() > 0,
{
    lemma_trim_start_keeps(x, k);
    let m = choose|m: int| 0 <= m < trim_start_ws(x).len() && !is_ws(#[trigger] trim_start_ws(x)[m]);
    lemma_trim_end_keeps(trim_start_ws(x), m);
}

proof fn lemma_chunks_cover_from(t: Seq<char>, start: int, size: nat, overlap: nat, j: int)
    requires
        0 <= start <= j < t.len(),
        size > overlap || t.len() <= size,
        !is_ws(t[j]),
    ensures
        exists|s: int, e: int|
            0 <= s <= j < e <= t.len() && e - s <= size && chunks_from(t, start, size, overlap).contains(
                #[trigger] trim_ws(t.subrange(s, e)),
            ),
    decreases t.len() - start,
{
    let end = if start + size < t.len() {
        start + size
    } else {
        t.len() as int
    };
    let c = trim_ws(t.subrange(start, end));
    let rest = if end == t.len() || size <= overlap {
        Seq::<Seq<char>>::empty()
    } else {
        chunks_from(t, end - overlap, size, overlap)
    };
    let all = chunks_from(t, start, size, overlap);
    if j < end {
        assert(t.subrange(start, end)[j - start] == t[j]);
        lemma_trim_keeps(t.subrange(start, end), j - start);
        assert(all == seq![c] + rest);
        assert(all[0] == c);
        assert(all.contains(trim_ws(t.subrange(start, end))));
    } else {
        assert(end < t.len());
        assert(size > overlap);
        lemma_chunks_cover_from(t, end - overlap, size, overlap, j);
        let (s, e) = choose|s: int, e: int|
            0 <= s <= j < e <= t.len() && e - s <= size && rest.contains(
                #[trigger] trim_ws(t.subrange(s, e)),
            );
        let w = trim_ws(t.subrange(s, e));
        let q = choose|q: int| 0 <= q < rest.len() && rest[q] == w;
        if c.len() > 0 {
            assert(all == seq![c] + rest);
            assert(all[q + 1] == w);
        } else {
            assert(all == rest);
        }
        assert(all.contains(w));
    }
}

proof fn lemma_chunks_sound_from(t: Seq<char>, start: int, size: nat, overlap: nat)
    requires
        0 <= start,
    ensures
        forall|m: int|
            0 <= m < chunks_from(t, start, size, overlap).len() ==> exists|s: int, e: int|
                start <= s < e <= t.len() && e - s <= size && trim_ws(t.subrange(s, e))
                    == #[trigger] chunks_from(t, start, size, overlap)[m] && trim_ws(t.subrange(s, e)).len()
                    > 0,
    decreases t.len() - start,
{
    if start < t.len() {
        let end = if start + size < t.len() {
            start + size
        } else {
            t.len() as int
        };
        let c = trim_ws(t.subrange(start, end));
        let all = chunks_from(t, start, size, overlap);
        if end == t.len() || size <= overlap {
            assert forall|m: int| 0 <= m < all.len() implies exists|s: int, e: int|
                start <= s < e <= t.len() && e - s <= size && trim_ws(t.subrange(s, e)) == #[trigger] all[m]
                    && trim_ws(t.subrange(s, e)).len() > 0 by {
                assert(all[m] == c);
                assert(c.len() > 0);
                if end == start {
                    assert(t.subrange(start, end).len() == 0);
                    assert(trim_ws(t.subrange(start, end)) =~= Seq::<char>::empty());
                }
            }
        } else {
            let rest = chunks_from(t, end - overlap, size, overlap);
            lemma_chunks_sound_from(t, end - overlap, size, overlap);
            assert forall|m: int| 0 <= m < all.len() implies exists|s: int, e: int|
                start <= s < e <= t.len() && e - s <= size && trim_ws(t.subrange(s, e)) == #[trigger] all[m]
                    && trim_ws(t.subrange(s, e)).len() > 0 by {
                if c.len() > 0 && m == 0 {
                    assert(all[0] == c);
                    if end == start {
                        assert(trim_ws(t.subrange(start, end)) =~= Seq::<char>::empty());
                    }
                } else {
                    let q = if c.len() > 0 { m - 1 } else { m };
                    assert(all[m] == rest[q]);
                    let (s, e) = choose|s: int, e: int|
                        end - overlap <= s < e <= t.len() && e - s <= size && trim_ws(t.subrange(s, e))
                            == #[trigger] rest[q] && trim_ws(t.subrange(s, e)).len() > 0;
                    assert(start <= s);
                }
            }
        }
    }
}

/// Chunks cover their text: every character other than whitespace lies in a
/// window of at most `chunk_size` characters whose trimmed text is one of
/// the chunks; and every chunk is such a window's trimmed, non-empty text.
pub proof fn lemma_chunks_cover_text(t: Seq<char>, size: nat, overlap: nat)
    requires
        size > overlap || t.len() <= size,
    ensures
        forall|j: int|
            0 <= j < t.len() && !is_ws(#[trigger] t[j]) ==> exists|s: int, e: int|
                0 <= s <= j < e <= t.len() && e - s <= size && chunks_from(t, 0, size, overlap).contains(
                    #[trigger] trim_ws(t.subrange(s, e)),
                ),
        forall|m: int|
            0 <= m < chunks_from(t, 0, size, overlap).len() ==> exists|s: int, e: int|
                0 <= s < e <= t.len() && e - s <= size && trim_ws(t.subrange(s, e))
                    == #[trigger] chunks_from(t, 0, size, overlap)[m] && trim_ws(t.subrange(s, e)).len()
                    > 0,
{
    assert forall|j: int| 0 <= j < t.len() && !is_ws(#[trigger] t[j]) implies exists|s: int, e: int|
        0 <= s <= j < e <= t.len() && e - s <= size && chunks_from(t, 0, size, overlap).contains(
            #[trigger] trim_ws(t.subrange(s, e)),
        ) by {
        lemma_chunks_cover_from(t, 0, size, overlap, j);
    }
    lemma_chunks_sound_from(t, 0, size, overlap);
    assert forall|m: int| 0 <= m < chunks_from(t, 0, size, overlap).len() implies exists|s: int, e: int|
        0 <= s < e <= t.len() && e - s <= size && trim_ws(t.subrange(s, e))
            == #[trigger] chunks_from(t, 0, size, overlap)[m] && trim_ws(t.subrange(s, e)).len() > 0 by {
        let (s, e) = choose|s: int, e: int|
            0 <= s < e <= t.len() && e - s <= size && trim_ws(t.subrange(s, e))
                == #[trigger] chunks_from(t, 0, size, overlap)[m] && trim_ws(t.subrange(s, e)).len() > 0;
    }
}

/// Splits text into overlapping chunks of whole characters; unless the whole
/// text fits in one window, the window must be longer than the overlap for
/// the split to advance.
pub fn split_text(text: &str, chunk_size: usize, overlap: usize) -> (r: Vec<String>)
    requires
        chunk_size > overlap || text@.len() <= chunk_size,
    ensures
        string_views(r@) == chunks_from(text@, 0, chunk_size as nat, overlap as nat),
{
    let chars = to_chars(text);
    let n = chars.len();
    let mut chunks: Vec<String> = Vec::new();
    let mut start: usize = 0;
    assert(string_views(chunks@) =~= Seq::<Seq<char>>::empty());
    while start < n
        invariant
            n == chars@.len(),
            chars@ == text@,
            chunk_size > overlap || n <= chunk_size,
            chunks_from(text@, 0, chunk_size as nat, overlap as nat) == string_views(chunks@)
                + chunks_from(text@, start as int, chunk_size as nat, overlap as nat),
        decreases n - start,
    {
        let end = if chunk_size < n - start {
            start + chunk_size
        } else {
            n
        };
        let piece = subvec(chars.as_slice(), start, end);
        let c = trim_chars(piece.as_slice());
        let ghost before = string_views(chunks@);
        let ghost rest = if end == n || chunk_size <= overlap {
            Seq::<Seq<char>>::empty()
        } else {
            chunks_from(text@, end - overlap, chunk_size as nat, overlap as nat)
        };
        if c.len() > 0 {
            chunks.push(from_chars(c.as_slice()));
            assert(string_views(chunks@) =~= before.push(c@));
            assert(before + (seq![c@] + rest) =~= string_views(chunks@) + rest);
        }
        if end == n {
            assert(string_views(chunks@) + Seq::<Seq<char>>::empty() =~= string_views(chunks@));
            start = n;
        } else {
            start = end - overlap;
        }
    }
    assert(chunks_from(text@, start as int, chunk_size as nat, overlap as nat) =~= Seq::<
        Seq<char>,
    >::empty());
    assert(string_views(chunks@) + Seq::<Seq<char>>::empty() =~= string_views(chunks@));
    chunks
}

// ---------------------------------------------------------------------------
// Query terms
// ---------------------------------------------------------------------------

/// Words that carry no meaning for matching.
pub open spec fn stopwords() -> Seq<Seq<char>> {
    seq![
        "a"@, "an"@, "and"@, "are"@, "as"@, "at"@, "be"@, "by"@, "can"@, "do"@, "does"@,
        "for"@, "from"@, "how"@, "i"@, "in"@, "is"@, "it"@, "me"@, "most"@, "of"@, "on"@,
        "or"@, "should"@, "the"@, "this"@, "to"@, "was"@, "were"@, "what"@, "when"@,
        "where"@, "which"@, "who"@, "why"@, "with"@,
    ]
}

fn stopword_list() -> (r: Vec<Vec<char>>)
    ensures
        views(r@) == stopwords(),
{
    let mut v: Vec<Vec<char>> = Vec::new();
    v.push(to_chars("a"));
    v.push(to_chars("an"));
    v.push(to_chars("and"));
    v.push(to_chars("are"));
    v.push(to_chars("as"));
    v.push(to_chars("at"));
    v.push(to_chars("be"));
    v.push(to_chars("by"));
    v.push(to_chars("can"));
    v.push(to_chars("do"));
    v.push(to_chars("does"));
    v.push(to_chars("for"));
    v.push(to_chars("from"));
    v.push(to_chars("how"));
    v.push(to_chars("i"));
    v.push(to_chars("in"));
    v.push(to_chars("is"));
    v.push(to_chars("it"));
    v.push(to_chars("me"));
    v.push(to_chars("most"));
    v.push(to_chars("of"));
    v.push(to_chars("on"));
    v.push(to_chars("or"));
    v.push(to_chars("should"));
    v.push(to_chars("the"));
    v.push(to_chars("this"));
    v.push(to_chars("to"));
    v.push(to_chars("was"));
    v.push(to_chars("were"));
    v.push(to_chars("what"));
    v.push(to_chars("when"));
    v.push(to_chars("where"));
    v.push(to_chars("which"));
    v.push(to_chars("who"));
    v.push(to_chars("why"));
    v.push(to_chars("with"));
    assert(views(v@) =~= stopwords());
    v
}

fn seq_list_contains(list: &Vec<Vec<char>>, x: &Vec<char>) -> (r: bool)
    ensures
        r == views(list@).contains(x@),
{
    let n = list.len();
    let mut k: usize = 0;
    while k < n
        invariant
            n == list@.len(),
            k <= n,
            forall|j: int| 0 <= j < k ==> list@[j]@ != x@,
        decreases n - k,
    {
        if crate::text::chars_eq(list[k].as_slice(), x.as_slice()) {
            assert(views(list@)[k as int] == x@);
            return true;
        }
        k += 1;
    }
    assert forall|j: int| 0 <= j < views(list@).len() implies views(list@)[j] != x@ by {
        assert(views(list@)[j] == list@[j]@);
    }
    false
}

/// Distinct lower-cased words of more than two bytes (as `str::len` counts
/// them) that are not stopwords, in order of first appearance.
pub open spec fn terms_of(parts: Seq<Seq<char>>) -> Seq<Seq<char>>
    decreases parts.len(),
{
    if parts.len() == 0 {
        Seq::empty()
    } else {
        let r = terms_of(parts.drop_last());
        let t = unicode_lowercase(trim_ws(parts.last()));
        if (vstd::utf8::encode_utf8(t).len() as usize) > 2 && !stopwords().contains(t) && !r.contains(
            t,
        ) {
            r.push(t)
        } else {
            r
        }
    }
}

pub open spec fn query_term_list(query: Seq<char>) -> Seq<Seq<char>> {
    terms_of(crate::air::split_non_alnum(query))
}

pub fn query_terms(query: &str) -> (r: Vec<String>)
    ensures
        string_views(r@) == query_term_list(query@),
{
    let q = to_chars(query);
    let parts = crate::air::split_non_alnum_chars(q.as_slice());
    let ghost ps = views(parts@);
    let stop = stopword_list();
    let n = parts.len();
    let mut terms: Vec<Vec<char>> = Vec::new();
    let mut i: usize = 0;
    assert(ps.take(0) =~= Seq::<Seq<char>>::empty());
    while i < n
        invariant
            n == parts@.len(),
            ps == views(parts@),
            views(stop@) == stopwords(),
            i <= n,
            views(terms@) == terms_of(ps.take(i as int)),
        decreases n - i,
    {
        assert(ps.take(i + 1).drop_last() =~= ps.take(i as int));
        assert(ps.take(i + 1).last() == parts@[i as int]@);
        let t = trim_chars(parts[i].as_slice());
        let ts = from_chars(t.as_slice());
        let lower = to_lowercase(ts.as_str());
        let lv = to_chars(lower.as_str());
        if lower.as_str().len() > 2 && !seq_list_contains(&stop, &lv) && !seq_list_contains(&terms, &lv) {
            let ghost before = views(terms@);
            terms.push(lv);
            assert(views(terms@) =~= before.push(lower@));
        }
        i += 1;
    }
    assert(ps.take(n as int) =~= ps);
    to_strings(&terms)
}

} // verus!
