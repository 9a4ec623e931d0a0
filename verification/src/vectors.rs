//! Slot accounting for the vector sidecar: every embedded chunk owns one
//! fixed-stride slot of the sidecar file, parked chunks own none, deleted
//! chunks leave dead slots that compaction reclaims.
//!
//! The vector elements are a type parameter: the library only ever reads a
//! vector's length, so the numbers themselves stay with the caller.

use vstd::prelude::*;
use crate::order::{count_where, sort_by, lemma_insert_pos_by, lemma_sort_by_len, lemma_sort_by_sorted, lemma_sort_by_count};

verus! {

pub const VECTOR_STORE_VERSION: u8 = 2;
/// Compaction is not worth a rewrite below this many slots.
pub const VECTOR_COMPACTION_MIN_SLOTS: u64 = 512;

/// A stored passage and where its vector lives in the sidecar.
pub struct ChunkRecord<V> {
    pub id: String,
    pub vector: Vec<V>,
    pub vector_slot: u64,
    pub needs_reembed: bool,
    pub text: String,
    pub collection_id: String,
    pub capture_id: String,
    pub title: String,
    pub url: String,
    pub app_id: String,
    pub captured_at: String,
    pub chunk_index: usize,
}

/// The chunk metadata plus the sidecar's width and slot allocator.
pub struct VectorStoreData<V> {
    pub version: u8,
    /// Embedding width; fixes the sidecar stride.
    pub dim: usize,
    /// Every slot ever handed out, dead ones included.
    pub next_slot: u64,
    pub chunks: Vec<ChunkRecord<V>>,
}

/// A passage as the first store format kept it, vector inline.
pub struct LegacyChunkRecord<V> {
    pub id: String,
    pub vector: Vec<V>,
    pub text: String,
    pub collection_id: String,
    pub capture_id: String,
    pub title: String,
    pub url: String,
    pub app_id: String,
    pub captured_at: String,
    pub chunk_index: usize,
}

/// Two records hold the same passage: everything but the vector and its slot
/// agrees.
pub open spec fn same_passage<V>(a: ChunkRecord<V>, b: ChunkRecord<V>) -> bool {
    &&& a.id@ == b.id@
    &&& a.text@ == b.text@
    &&& a.collection_id@ == b.collection_id@
    &&& a.capture_id@ == b.capture_id@
    &&& a.title@ == b.title@
    &&& a.url@ == b.url@
    &&& a.app_id@ == b.app_id@
    &&& a.captured_at@ == b.captured_at@
    &&& a.chunk_index == b.chunk_index
}

/// Embedded chunks hold distinct slots below the allocator.
pub open spec fn slots_well_formed<V>(chunks: Seq<ChunkRecord<V>>, next_slot: u64) -> bool {
    &&& forall|i: int| 0 <= i < chunks.len() && !(#[trigger] chunks[i]).needs_reembed ==> chunks[i].vector_slot < next_slot
    &&& forall|i: int, j: int|
        0 <= i < j < chunks.len() && !(#[trigger] chunks[i]).needs_reembed && !(#[trigger] chunks[j]).needs_reembed
            ==> chunks[i].vector_slot != chunks[j].vector_slot
}

/// The store's width after the first `k` records are offered: a store
/// without a width takes the first non-empty vector's.
pub open spec fn width_after<V>(dim: usize, records: Seq<ChunkRecord<V>>, k: int) -> usize
    decreases k,
{
    if k <= 0 {
        dim
    } else {
        let d = width_after(dim, records, k - 1);
        if d == 0 && records[k - 1].vector.len() > 0 {
            records[k - 1].vector.len()
        } else {
            d
        }
    }
}

/// Record `k` keeps its vector: it has one, of the store's width.
pub open spec fn fits<V>(dim: usize, records: Seq<ChunkRecord<V>>, k: int) -> bool {
    records[k].vector.len() > 0 && records[k].vector.len() == width_after(dim, records, k + 1)
}

/// How many of the first `k` records keep their vectors.
pub open spec fn fitting<V>(dim: usize, records: Seq<ChunkRecord<V>>, k: int) -> nat
    decreases k,
{
    if k <= 0 {
        0
    } else {
        fitting(dim, records, k - 1) + if fits(dim, records, k - 1) {
            1nat
        } else {
            0nat
        }
    }
}

/// What record `k` becomes in the store: with its vector and the next free
/// slot where it fits, else parked, with no vector and no slot, its text
/// kept for re-embedding.
pub open spec fn stored_as<V>(
    dim: usize,
    next_slot: u64,
    records: Seq<ChunkRecord<V>>,
    k: int,
    c: ChunkRecord<V>,
) -> bool {
    &&& same_passage(c, records[k])
    &&& if fits(dim, records, k) {
        &&& !c.needs_reembed
        &&& c.vector@ == records[k].vector@
        &&& c.vector_slot == next_slot + fitting(dim, records, k)
    } else {
        &&& c.needs_reembed
        &&& c.vector@.len() == 0
        &&& c.vector_slot == 0
    }
}

pub open spec fn is_embedded<V>() -> spec_fn(ChunkRecord<V>) -> bool {
    |c: ChunkRecord<V>| !c.needs_reembed
}

pub open spec fn is_parked<V>() -> spec_fn(ChunkRecord<V>) -> bool {
    |c: ChunkRecord<V>| c.needs_reembed
}

/// How many chunks are embedded.
pub open spec fn embedded<V>(chunks: Seq<ChunkRecord<V>>) -> nat {
    count_where(chunks, is_embedded())
}

/// How many chunks are parked.
pub open spec fn parked<V>(chunks: Seq<ChunkRecord<V>>) -> nat {
    count_where(chunks, is_parked())
}

/// Compaction order: embedded chunks first, each group by slot.
pub open spec fn compaction_le<V>() -> spec_fn(ChunkRecord<V>, ChunkRecord<V>) -> bool {
    |a: ChunkRecord<V>, b: ChunkRecord<V>|
        (!a.needs_reembed && b.needs_reembed) || (a.needs_reembed == b.needs_reembed && a.vector_slot
            <= b.vector_slot)
}

/// The chunks in compaction order (a stable sort).
pub open spec fn compaction_sorted<V>(chunks: Seq<ChunkRecord<V>>) -> Seq<ChunkRecord<V>> {
    sort_by(chunks, compaction_le())
}

/// `c` is the `k`-th chunk of `sorted` after renumbering: an embedded chunk
/// takes the next slot in order; a parked one is unchanged.
pub open spec fn renumbered<V>(sorted: Seq<ChunkRecord<V>>, k: int, c: ChunkRecord<V>) -> bool {
    &&& same_passage(c, sorted[k])
    &&& c.vector@ == sorted[k].vector@
    &&& c.needs_reembed == sorted[k].needs_reembed
    &&& c.vector_slot == if sorted[k].needs_reembed {
        sorted[k].vector_slot as int
    } else {
        embedded(sorted.take(k)) as int
    }
}

/// Deletes leave dead slots; once there are at least 512 slots and at least
/// half of them are dead, the sidecar is rewritten.
pub open spec fn compaction_due(next_slot: u64, live: nat) -> bool {
    next_slot >= VECTOR_COMPACTION_MIN_SLOTS && 2 * (if next_slot >= live {
        next_slot - live
    } else {
        0
    }) >= next_slot
}

impl<V> VectorStoreData<V> {
    /// An empty store of the current format.
    pub fn empty() -> (r: Self)
        ensures
            r.version == VECTOR_STORE_VERSION,
            r.dim == 0,
            r.next_slot == 0,
            r.chunks@.len() == 0,
    {
        VectorStoreData { version: VECTOR_STORE_VERSION, dim: 0, next_slot: 0, chunks: Vec::new() }
    }

    /// Adds records in order, handing each vector of the store's width the next
    /// slot and parking the rest (see [`stored_as`]). The only place slots are
    /// handed out.
    pub fn push_chunks(&mut self, records: Vec<ChunkRecord<V>>)
        requires
            old(self).next_slot + records@.len() <= u64::MAX,
        ensures
            final(self).version == old(self).version,
            final(self).dim == width_after(old(self).dim, records@, records@.len() as int),
            final(self).next_slot == old(self).next_slot + fitting(old(self).dim, records@, records@.len() as int),
            final(self).chunks@.len() == old(self).chunks@.len() + records@.len(),
            final(self).chunks@.take(old(self).chunks@.len() as int) == old(self).chunks@,
            forall|k: int|
                0 <= k < records@.len() ==> stored_as(
                    old(self).dim,
                    old(self).next_slot,
                    records@,
                    k,
                    #[trigger] final(self).chunks@[old(self).chunks@.len() + k],
                ),
    {
        let ghost start = self.chunks@;
        let ghost dim0 = self.dim;
        let ghost slot0 = self.next_slot;
        let ghost recs = records@;
        let n = records.len();
        let mut rest = records;
        let mut k: usize = 0;
        while k < n
            invariant
                n == recs.len(),
                k <= n,
                rest@ == recs.skip(k as int),
                slot0 + n <= u64::MAX,
                self.version == old(self).version,
                self.dim == width_after(dim0, recs, k as int),
                self.next_slot == slot0 + fitting(dim0, recs, k as int),
                fitting(dim0, recs, k as int) <= k,
                self.chunks@.len() == start.len() + k,
                self.chunks@.take(start.len() as int) == start,
                forall|j: int|
                    0 <= j < k ==> stored_as(dim0, slot0, recs, j, #[trigger] self.chunks@[start.len() + j]),
            decreases n - k,
        {
            let mut record = rest.remove(0);
            assert(record == recs[k as int]);
            assert(rest@ =~= recs.skip(k + 1));
            if self.dim == 0 && record.vector.len() > 0 {
                self.dim = record.vector.len();
            }
            let ghost before = self.chunks@;
            if record.vector.len() == 0 || record.vector.len() != self.dim {
                record.vector.clear();
                record.vector_slot = 0;
                record.needs_reembed = true;
                self.chunks.push(record);
            } else {
                record.needs_reembed = false;
                record.vector_slot = self.next_slot;
                self.next_slot = self.next_slot + 1;
                self.chunks.push(record);
            }
            assert(self.chunks@.take(start.len() as int) =~= before.take(start.len() as int));
            assert forall|j: int| 0 <= j < k + 1 implies stored_as(
                dim0,
                slot0,
                recs,
                j,
                #[trigger] self.chunks@[start.len() + j],
            ) by {
                if j < k {
                    assert(self.chunks@[start.len() + j] == before[start.len() + j]);
                }
            }
            k += 1;
        }
    }

    /// Whether compaction pays for itself now (see [`compaction_due`]).
    pub fn needs_compaction(&self) -> (r: bool)
        requires
            self.chunks@.len() <= u64::MAX,
        ensures
            r == compaction_due(self.next_slot, embedded(self.chunks@)),
    {
        let live = self.embedded_count();
        if self.next_slot < VECTOR_COMPACTION_MIN_SLOTS {
            return false;
        }
        let dead = self.next_slot.saturating_sub(live);
        !((2 * (dead as u128)) < (self.next_slot as u128))
    }

    /// Sorts the chunks into compaction order and renumbers the embedded ones
    /// from slot 0, so the sidecar can be rewritten without dead slots.
    pub fn compact(&mut self)
        requires
            old(self).chunks@.len() <= u64::MAX,
        ensures
            final(self).version == old(self).version,
            final(self).dim == old(self).dim,
            final(self).next_slot == embedded(old(self).chunks@),
            final(self).chunks@.len() == old(self).chunks@.len(),
            forall|k: int|
                0 <= k < old(self).chunks@.len() ==> renumbered(
                    compaction_sorted(old(self).chunks@),
                    k,
                    #[trigger] final(self).chunks@[k],
                ),
    {
        let live = self.embedded_count();
        let ghost all = self.chunks@;
        let n = self.chunks.len();
        let mut i: usize = 0;
        assert(all.take(0) =~= Seq::<ChunkRecord<V>>::empty());
        assert(all.skip(0) =~= all);
        while i < n
            invariant
                n == all.len(),
                n <= u64::MAX,
                i <= n,
                self.chunks@.len() == n,
                self.chunks@.take(i as int) == sort_by(all.take(i as int), compaction_le()),
                self.chunks@.skip(i as int) == all.skip(i as int),
                self.version == old(self).version,
                self.dim == old(self).dim,
                live == embedded(all),
            decreases n - i,
        {
            let ghost sorted = sort_by(all.take(i as int), compaction_le());
            let ghost before = self.chunks@;
            let x = self.chunks.remove(i);
            assert(x == all[i as int]) by {
                assert(before.skip(i as int)[0] == before[i as int]);
            }
            assert(self.chunks@.take(i as int) =~= sorted);
            let mut j: usize = 0;
            while j < i && ((!self.chunks[j].needs_reembed && x.needs_reembed) || (self.chunks[j].needs_reembed
                == x.needs_reembed && self.chunks[j].vector_slot <= x.vector_slot))
                invariant
                    i < n,
                    self.chunks@.len() == n - 1,
                    self.chunks@.take(i as int) == sorted,
                    j <= i,
                    forall|t: int| 0 <= t < j ==> (compaction_le())(#[trigger] sorted[t], x),
                decreases i - j,
            {
                assert(self.chunks@[j as int] == sorted[j as int]);
                j += 1;
            }
            proof {
                lemma_sort_by_len(all.take(i as int), compaction_le());
                if j < i {
                    assert(self.chunks@[j as int] == sorted[j as int]);
                }
                lemma_insert_pos_by(sorted, x, compaction_le(), j as int);
                assert(all.take(i + 1).drop_last() =~= all.take(i as int));
                assert(all.take(i + 1).last() == x);
            }
            let ghost removed = self.chunks@;
            self.chunks.insert(j, x);
            assert(self.chunks@.take(i + 1) =~= sorted.insert(j as int, x)) by {
                assert(removed.take(i as int) == sorted);
            }
            assert(self.chunks@.skip(i + 1) =~= all.skip(i + 1)) by {
                assert(removed =~= before.remove(i as int));
                assert forall|t: int| 0 <= t < n - (i + 1) implies #[trigger] all.skip(i + 1)[t] == before.skip(
                    i as int,
                )[t + 1] by {}
                assert(removed.skip(i as int) =~= all.skip(i + 1));
                assert(self.chunks@ =~= removed.insert(j as int, x));
            }
            i += 1;
        }
        assert(all.take(n as int) =~= all);
        assert(self.chunks@.take(n as int) =~= self.chunks@);
        let ghost sorted = self.chunks@;
        assert(sorted == compaction_sorted(all));
        let mut next: u64 = 0;
        let mut k: usize = 0;
        assert(sorted.take(0) =~= Seq::<ChunkRecord<V>>::empty());
        while k < n
            invariant
                n == sorted.len(),
                n <= u64::MAX,
                k <= n,
                self.chunks@.len() == n,
                next == embedded(sorted.take(k as int)),
                next <= k,
                forall|t: int| k <= t < n ==> #[trigger] self.chunks@[t] == sorted[t],
                forall|t: int| 0 <= t < k ==> renumbered(sorted, t, #[trigger] self.chunks@[t]),
                self.version == old(self).version,
                self.dim == old(self).dim,
                live == embedded(all),
            decreases n - k,
        {
            assert(sorted.take(k + 1).drop_last() =~= sorted.take(k as int));
            assert(self.chunks@[k as int] == sorted[k as int]);
            if !self.chunks[k].needs_reembed {
                let ghost before = self.chunks@;
                let mut c = self.chunks.remove(k);
                c.vector_slot = next;
                self.chunks.insert(k, c);
                assert forall|t: int| 0 <= t < n && t != k implies #[trigger] self.chunks@[t] == before[t] by {}
                next = next + 1;
            }
            k += 1;
        }
        self.next_slot = live;
    }

    /// Chunks holding a sidecar slot.
    pub fn embedded_count(&self) -> (r: u64)
        requires
            self.chunks@.len() <= u64::MAX,
        ensures
            r == embedded(self.chunks@),
    {
        let n = self.chunks.len();
        let mut count: u64 = 0;
        let mut i: usize = 0;
        while i < n
            invariant
                n == self.chunks@.len(),
                n <= u64::MAX,
                i <= n,
                count == embedded(self.chunks@.take(i as int)),
                count <= i,
            decreases n - i,
        {
            assert(self.chunks@.take(i + 1).drop_last() =~= self.chunks@.take(i as int));
            if !self.chunks[i].needs_reembed {
                count += 1;
            }
            i += 1;
        }
        assert(self.chunks@.take(n as int) =~= self.chunks@);
        count
    }

    /// Chunks waiting to be re-embedded.
    pub fn pending_reembed_count(&self) -> (r: usize)
        ensures
            r == parked(self.chunks@),
    {
        let n = self.chunks.len();
        let mut count: usize = 0;
        let mut i: usize = 0;
        while i < n
            invariant
                n == self.chunks@.len(),
                i <= n,
                count == parked(self.chunks@.take(i as int)),
                count <= i,
            decreases n - i,
        {
            assert(self.chunks@.take(i + 1).drop_last() =~= self.chunks@.take(i as int));
            if self.chunks[i].needs_reembed {
                count += 1;
            }
            i += 1;
        }
        assert(self.chunks@.take(n as int) =~= self.chunks@);
        count
    }
}

proof fn lemma_fitting_grows<V>(dim: usize, records: Seq<ChunkRecord<V>>, k: int, m: int)
    requires
        0 <= k < m,
        fits(dim, records, k),
    ensures
        fitting(dim, records, k) + 1 <= fitting(dim, records, m),
    decreases m,
{
    if m > k + 1 {
        lemma_fitting_grows(dim, records, k, m - 1);
    }
}

/// Every chunk is either embedded or parked.
pub proof fn lemma_embedded_and_parked_partition<V>(chunks: Seq<ChunkRecord<V>>)
    ensures
        embedded(chunks) + parked(chunks) == chunks.len(),
    decreases chunks.len(),
{
    if chunks.len() > 0 {
        lemma_embedded_and_parked_partition(chunks.drop_last());
    }
}

/// Adding records never makes two embedded chunks share a slot, nor hands out
/// a slot the allocator has not counted: whatever `push_chunks` produces from
/// a well-formed store is well-formed.
pub proof fn lemma_push_keeps_slots_well_formed<V>(
    before: Seq<ChunkRecord<V>>,
    next_slot: u64,
    dim: usize,
    records: Seq<ChunkRecord<V>>,
    after: Seq<ChunkRecord<V>>,
)
    requires
        slots_well_formed(before, next_slot),
        next_slot + fitting(dim, records, records.len() as int) <= u64::MAX,
        after.len() == before.len() + records.len(),
        after.take(before.len() as int) == before,
        forall|k: int| 0 <= k < records.len() ==> stored_as(dim, next_slot, records, k, #[trigger] after[before.len() + k]),
    ensures
        slots_well_formed(after, (next_slot + fitting(dim, records, records.len() as int)) as u64),
{
    let n = records.len() as int;
    let b = before.len() as int;
    let top = next_slot + fitting(dim, records, n);
    assert forall|i: int| 0 <= i < after.len() && !(#[trigger] after[i]).needs_reembed implies after[i].vector_slot < top by {
        if i < b {
            assert(after[i] == after.take(b)[i]);
        } else {
            assert(stored_as(dim, next_slot, records, i - b, after[b + (i - b)]));
            lemma_fitting_grows(dim, records, i - b, n);
        }
    }
    assert forall|i: int, j: int|
        0 <= i < j < after.len() && !(#[trigger] after[i]).needs_reembed && !(#[trigger] after[j]).needs_reembed
            implies after[i].vector_slot != after[j].vector_slot by {
        if j < b {
            assert(after[i] == after.take(b)[i]);
            assert(after[j] == after.take(b)[j]);
        } else if i < b {
            assert(after[i] == after.take(b)[i]);
            assert(stored_as(dim, next_slot, records, j - b, after[b + (j - b)]));
        } else {
            assert(stored_as(dim, next_slot, records, i - b, after[b + (i - b)]));
            assert(stored_as(dim, next_slot, records, j - b, after[b + (j - b)]));
            lemma_fitting_grows(dim, records, i - b, j - b);
        }
    }
}

/// No parked chunk comes before an embedded one.
pub open spec fn embedded_first<V>(s: Seq<ChunkRecord<V>>) -> bool {
    forall|i: int, j: int| 0 <= i < j < s.len() ==> !((#[trigger] s[i]).needs_reembed && !(#[trigger] s[j]).needs_reembed)
}

proof fn lemma_embedded_prefix<V>(s: Seq<ChunkRecord<V>>)
    requires
        embedded_first(s),
    ensures
        forall|k: int| 0 <= k < s.len() ==> (!(#[trigger] s[k]).needs_reembed <==> k < embedded(s)),
        forall|k: int| 0 <= k < s.len() && !(#[trigger] s[k]).needs_reembed ==> embedded(s.take(k)) == k,
        embedded(s) <= s.len(),
    decreases s.len(),
{
    if s.len() > 0 {
        let d = s.drop_last();
        assert forall|i: int, j: int| 0 <= i < j < d.len() implies !((#[trigger] d[i]).needs_reembed && !(
        #[trigger] d[j]).needs_reembed) by {
            assert(d[i] == s[i] && d[j] == s[j]);
        }
        lemma_embedded_prefix(d);
        let last = s.len() - 1;
        assert(s.take(last) =~= d);
        if !s[last].needs_reembed {
            assert forall|k: int| 0 <= k < d.len() implies !(#[trigger] d[k]).needs_reembed by {
                assert(d[k] == s[k]);
            }
            if d.len() > 0 {
                assert(!d[d.len() - 1].needs_reembed);
            }
        }
        assert forall|k: int| 0 <= k < s.len() implies (!(#[trigger] s[k]).needs_reembed <==> k < embedded(s)) by {
            if k < last {
                assert(s[k] == d[k]);
            }
        }
        assert forall|k: int| 0 <= k < s.len() && !(#[trigger] s[k]).needs_reembed implies embedded(s.take(k))
            == k by {
            if k < last {
                assert(s[k] == d[k]);
                assert(s.take(k) =~= d.take(k));
            }
        }
    }
}

/// Compaction numbers the sidecar densely and loses nothing: the first
/// `live` chunks are the embedded ones, at slots `0 .. live` in order, the
/// rest are parked, and every chunk of the store is still there.
pub proof fn lemma_compaction_numbers_slots_densely<V>(before: Seq<ChunkRecord<V>>, after: Seq<ChunkRecord<V>>)
    requires
        after.len() == before.len(),
        forall|k: int| 0 <= k < before.len() ==> renumbered(compaction_sorted(before), k, #[trigger] after[k]),
    ensures
        forall|k: int| 0 <= k < after.len() ==> (!(#[trigger] after[k]).needs_reembed <==> k < embedded(before)),
        forall|k: int| 0 <= k < after.len() && !(#[trigger] after[k]).needs_reembed ==> after[k].vector_slot == k,
        forall|i: int|
            0 <= i < before.len() ==> exists|k: int|
                0 <= k < after.len() && same_passage(#[trigger] after[k], #[trigger] before[i]) && after[k].vector@
                    == before[i].vector@,
{
    let le = compaction_le::<V>();
    let sorted = compaction_sorted(before);
    assert forall|a: ChunkRecord<V>, b: ChunkRecord<V>| #[trigger] le(a, b) || le(b, a) by {}
    assert forall|a: ChunkRecord<V>, b: ChunkRecord<V>, c: ChunkRecord<V>| #[trigger] le(a, b) && #[trigger] le(b, c) implies le(a, c) by {}
    lemma_sort_by_sorted(before, le);
    lemma_sort_by_len(before, le);
    lemma_sort_by_count(before, le, is_embedded());
    crate::order::lemma_sort_by_keeps(before, le);
    assert forall|i: int, j: int| 0 <= i < j < sorted.len() implies !((#[trigger] sorted[i]).needs_reembed && !(
    #[trigger] sorted[j]).needs_reembed) by {
        assert(le(sorted[i], sorted[j]));
    }
    lemma_embedded_prefix(sorted);
    assert forall|k: int| 0 <= k < after.len() implies (!(#[trigger] after[k]).needs_reembed <==> k < embedded(before)) by {
        assert(renumbered(sorted, k, after[k]));
    }
    assert forall|k: int| 0 <= k < after.len() && !(#[trigger] after[k]).needs_reembed implies after[k].vector_slot == k by {
        assert(renumbered(sorted, k, after[k]));
    }
    assert forall|i: int| 0 <= i < before.len() implies exists|k: int|
        0 <= k < after.len() && same_passage(#[trigger] after[k], #[trigger] before[i]) && after[k].vector@
            == before[i].vector@ by {
        assert(sorted.contains(before[i]));
        let k = choose|k: int| 0 <= k < sorted.len() && sorted[k] == before[i];
        assert(renumbered(sorted, k, after[k]));
    }
}

/// How many legacy chunks have a vector of width `w`.
pub open spec fn width_count<V>(chunks: Seq<LegacyChunkRecord<V>>, w: int) -> nat
    decreases chunks.len(),
{
    if chunks.len() == 0 {
        0
    } else {
        width_count(chunks.drop_last(), w) + if chunks.last().vector.len() == w {
            1nat
        } else {
            0nat
        }
    }
}

/// `w` is the width the most non-empty vectors share, the wider one on a
/// tie; 0 when no chunk has a vector.
pub open spec fn is_majority_width<V>(chunks: Seq<LegacyChunkRecord<V>>, w: int) -> bool {
    if forall|i: int| 0 <= i < chunks.len() ==> (#[trigger] chunks[i]).vector.len() == 0 {
        w == 0
    } else {
        &&& w > 0
        &&& width_count(chunks, w) > 0
        &&& forall|v: int|
            v > 0 ==> #[trigger] width_count(chunks, v) < width_count(chunks, w) || (width_count(chunks, v)
                == width_count(chunks, w) && v <= w)
    }
}

proof fn lemma_width_count_present<V>(chunks: Seq<LegacyChunkRecord<V>>, w: int)
    requires
        width_count(chunks, w) > 0,
    ensures
        exists|i: int| 0 <= i < chunks.len() && (#[trigger] chunks[i]).vector.len() == w,
    decreases chunks.len(),
{
    if chunks.last().vector.len() == w {
        assert(chunks[chunks.len() - 1].vector.len() == w);
    } else {
        lemma_width_count_present(chunks.drop_last(), w);
        let i = choose|i: int| 0 <= i < chunks.drop_last().len() && (#[trigger] chunks.drop_last()[i]).vector.len() == w;
        assert(chunks[i] == chunks.drop_last()[i]);
    }
}

fn count_width<V>(chunks: &[LegacyChunkRecord<V>], w: usize) -> (r: usize)
    ensures
        r == width_count(chunks@, w as int),
{
    let n = chunks.len();
    let mut count: usize = 0;
    let mut i: usize = 0;
    while i < n
        invariant
            n == chunks@.len(),
            i <= n,
            count == width_count(chunks@.take(i as int), w as int),
            count <= i,
        decreases n - i,
    {
        assert(chunks@.take(i + 1).drop_last() =~= chunks@.take(i as int));
        if chunks[i].vector.len() == w {
            count += 1;
        }
        i += 1;
    }
    assert(chunks@.take(n as int) =~= chunks@);
    count
}

/// The width the most chunks' vectors share (see [`is_majority_width`]).
pub open spec fn majority_width<V>(chunks: Seq<LegacyChunkRecord<V>>) -> int {
    choose|w: int| is_majority_width(chunks, w)
}

proof fn lemma_majority_unique<V>(chunks: Seq<LegacyChunkRecord<V>>, a: int, b: int)
    requires
        is_majority_width(chunks, a),
        is_majority_width(chunks, b),
    ensures
        a == b,
{
    if !(forall|i: int| 0 <= i < chunks.len() ==> (#[trigger] chunks[i]).vector.len() == 0) {
        assert(width_count(chunks, a) < width_count(chunks, b) || (width_count(chunks, a) == width_count(chunks, b) && a <= b));
        assert(width_count(chunks, b) < width_count(chunks, a) || (width_count(chunks, b) == width_count(chunks, a) && b <= a));
    }
}

/// The width the most chunks' vectors share, ties going to the wider (see
/// [`is_majority_width`]).
pub fn majority_vector_dim<V>(chunks: &[LegacyChunkRecord<V>]) -> (r: usize)
    ensures
        is_majority_width(chunks@, r as int),
        r as int == majority_width(chunks@),
{
    let n = chunks.len();
    let mut best: usize = 0;
    let mut best_count: usize = 0;
    let mut i: usize = 0;
    while i < n
        invariant
            n == chunks@.len(),
            i <= n,
            best > 0 ==> best_count == width_count(chunks@, best as int),
            best == 0 ==> best_count == 0,
            best == 0 <==> (forall|j: int| 0 <= j < i ==> (#[trigger] chunks@[j]).vector.len() == 0),
            best > 0 ==> best_count > 0,
            forall|j: int|
                0 <= j < i && (#[trigger] chunks@[j]).vector.len() > 0 ==> width_count(chunks@, chunks@[j].vector.len() as int)
                    < best_count || (width_count(chunks@, chunks@[j].vector.len() as int) == best_count
                    && chunks@[j].vector.len() <= best),
        decreases n - i,
    {
        let w = chunks[i].vector.len();
        if w > 0 {
            let c = count_width(chunks, w);
            proof {
                assert(chunks@[i as int].vector.len() == w);
                lemma_count_nonzero_at(chunks@, i as int);
            }
            if c > best_count || (c == best_count && w > best) {
                best = w;
                best_count = c;
            }
        }
        i += 1;
    }
    proof {
        if best > 0 {
            assert forall|v: int| v > 0 implies #[trigger] width_count(chunks@, v) < width_count(chunks@, best as int) || (
            width_count(chunks@, v) == width_count(chunks@, best as int) && v <= best) by {
                if width_count(chunks@, v) > 0 {
                    lemma_width_count_present(chunks@, v);
                    let j = choose|j: int| 0 <= j < chunks@.len() && (#[trigger] chunks@[j]).vector.len() == v;
                }
            }
        }
        assert(is_majority_width(chunks@, best as int));
        lemma_majority_unique(chunks@, best as int, majority_width(chunks@));
    }
    best
}

proof fn lemma_count_nonzero_at<V>(chunks: Seq<LegacyChunkRecord<V>>, i: int)
    requires
        0 <= i < chunks.len(),
    ensures
        width_count(chunks, chunks[i].vector.len() as int) > 0,
    decreases chunks.len(),
{
    if i < chunks.len() - 1 {
        lemma_count_nonzero_at(chunks.drop_last(), i);
        assert(chunks.drop_last()[i] == chunks[i]);
    }
}

/// A legacy chunk in the current shape, its vector still to be placed.
pub open spec fn upgraded<V>(c: LegacyChunkRecord<V>) -> ChunkRecord<V> {
    ChunkRecord {
        id: c.id,
        vector: c.vector,
        vector_slot: 0,
        needs_reembed: false,
        text: c.text,
        collection_id: c.collection_id,
        capture_id: c.capture_id,
        title: c.title,
        url: c.url,
        app_id: c.app_id,
        captured_at: c.captured_at,
        chunk_index: c.chunk_index,
    }
}

pub open spec fn upgraded_all<V>(legacy: Seq<LegacyChunkRecord<V>>) -> Seq<ChunkRecord<V>> {
    legacy.map_values(|c: LegacyChunkRecord<V>| upgraded(c))
}

/// A store in the current format made from a legacy one: the width the most
/// vectors share becomes the store's, vectors of that width get slots in
/// order, the others are parked.
pub fn migrated_vector_store<V>(legacy: Vec<LegacyChunkRecord<V>>) -> (r: VectorStoreData<V>)
    requires
        legacy@.len() <= u64::MAX,
    ensures
        ({
            let ups = upgraded_all(legacy@);
            let d = majority_width(legacy@) as usize;
            &&& r.version == VECTOR_STORE_VERSION
            &&& r.dim == width_after(d, ups, ups.len() as int)
            &&& r.next_slot == fitting(d, ups, ups.len() as int)
            &&& r.chunks@.len() == legacy@.len()
            &&& forall|k: int| 0 <= k < legacy@.len() ==> stored_as(d, 0, ups, k, #[trigger] r.chunks@[k])
        }),
{
    let dim = majority_vector_dim(legacy.as_slice());
    let ghost all = legacy@;
    let n = legacy.len();
    let mut rest = legacy;
    let mut records: Vec<ChunkRecord<V>> = Vec::new();
    let mut k: usize = 0;
    while k < n
        invariant
            n == all.len(),
            k <= n,
            rest@ == all.skip(k as int),
            records@ == upgraded_all(all).take(k as int),
        decreases n - k,
    {
        let c = rest.remove(0);
        assert(c == all[k as int]);
        assert(rest@ =~= all.skip(k + 1));
        let ghost before = records@;
        records.push(
            ChunkRecord {
                id: c.id,
                vector: c.vector,
                vector_slot: 0,
                needs_reembed: false,
                text: c.text,
                collection_id: c.collection_id,
                capture_id: c.capture_id,
                title: c.title,
                url: c.url,
                app_id: c.app_id,
                captured_at: c.captured_at,
                chunk_index: c.chunk_index,
            },
        );
        assert(records@ =~= upgraded_all(all).take(k + 1));
        k += 1;
    }
    assert(upgraded_all(all).take(n as int) =~= upgraded_all(all));
    let mut store = VectorStoreData { version: VECTOR_STORE_VERSION, dim, next_slot: 0, chunks: Vec::new() };
    store.push_chunks(records);
    proof {
        assert(store.chunks@.len() == all.len());
        assert forall|k: int| 0 <= k < all.len() implies #[trigger] store.chunks@[k] == store.chunks@[0 + k] by {}
    }
    store
}

/// Keeps the chunks the sidecar can back: all parked ones, and embedded ones
/// whose slot is below `available`.
pub open spec fn backed<V>(available: u64) -> spec_fn(ChunkRecord<V>) -> bool {
    |c: ChunkRecord<V>| c.needs_reembed || c.vector_slot < available
}

/// Which chunks survive loading the sidecar: with no chunks nothing changes;
/// without a width, or without a readable sidecar (`available` is `None`),
/// none; otherwise those the sidecar's `available` slots back.
pub open spec fn hydrated<V>(chunks: Seq<ChunkRecord<V>>, dim: usize, available: Option<u64>) -> Seq<ChunkRecord<V>> {
    if chunks.len() == 0 {
        chunks
    } else if dim == 0 {
        Seq::empty()
    } else {
        match available {
            None => Seq::empty(),
            Some(a) => chunks.filter(backed(a)),
        }
    }
}

impl<V> VectorStoreData<V> {
    /// Drops the chunks the sidecar cannot back before their vectors are read
    /// (see [`hydrated`]).
    pub fn keep_backed_chunks(&mut self, available: Option<u64>)
        ensures
            final(self).version == old(self).version,
            final(self).dim == old(self).dim,
            final(self).next_slot == old(self).next_slot,
            final(self).chunks@ == hydrated(old(self).chunks@, old(self).dim, available),
    {
        if self.chunks.len() == 0 {
            return;
        }
        let a = match available {
            Some(a) if self.dim != 0 => a,
            _ => {
                self.chunks = Vec::new();
                return;
            },
        };
        let ghost all = self.chunks@;
        let n = self.chunks.len();
        let mut rest: Vec<ChunkRecord<V>> = Vec::new();
        std::mem::swap(&mut rest, &mut self.chunks);
        let mut kept: Vec<ChunkRecord<V>> = Vec::new();
        let mut k: usize = 0;
        proof {
            crate::gather::lemma_filter_empty(backed::<V>(a));
            assert(all.take(0) =~= Seq::<ChunkRecord<V>>::empty());
        }
        while k < n
            invariant
                n == all.len(),
                k <= n,
                rest@ == all.skip(k as int),
                kept@ == all.take(k as int).filter(backed(a)),
            decreases n - k,
        {
            let c = rest.remove(0);
            assert(c == all[k as int]);
            assert(rest@ =~= all.skip(k + 1));
            proof {
                assert(all.take(k + 1) =~= all.take(k as int).push(c));
                crate::gather::lemma_filter_push(all.take(k as int), backed::<V>(a), c);
            }
            if c.needs_reembed || c.vector_slot < a {
                kept.push(c);
            }
            k += 1;
        }
        assert(all.take(n as int) =~= all);
        self.chunks = kept;
    }
}

/// Positions among the first `k` chunks of the embedded ones whose slot is
/// at or past `from`, in order.
pub open spec fn unwritten<V>(chunks: Seq<ChunkRecord<V>>, from: u64, k: int) -> Seq<int>
    decreases k,
{
    if k <= 0 {
        Seq::empty()
    } else {
        let prev = unwritten(chunks, from, k - 1);
        if !chunks[k - 1].needs_reembed && chunks[k - 1].vector_slot >= from {
            prev.push(k - 1)
        } else {
            prev
        }
    }
}

pub open spec fn by_slot<V>(chunks: Seq<ChunkRecord<V>>) -> spec_fn(int, int) -> bool {
    |a: int, b: int| chunks[a].vector_slot <= chunks[b].vector_slot
}

/// The chunks whose vectors go to the sidecar when it already holds `from`
/// slots, as positions in slot order: file order is slot order.
pub open spec fn sidecar_plan<V>(chunks: Seq<ChunkRecord<V>>, from: u64) -> Seq<int> {
    sort_by(unwritten(chunks, from, chunks.len() as int), by_slot(chunks))
}

impl<V> VectorStoreData<V> {
    /// The chunks whose vectors to append to a sidecar holding
    /// `slots_present` slots (see [`sidecar_plan`]).
    pub fn sidecar_writes(&self, slots_present: u64) -> (r: Vec<usize>)
        ensures
            r@.map_values(|p: usize| p as int) == sidecar_plan(self.chunks@, slots_present),
    {
        let ghost cs = self.chunks@;
        let n = self.chunks.len();
        let mut pending: Vec<usize> = Vec::new();
        let mut i: usize = 0;
        while i < n
            invariant
                n == cs.len(),
                cs == self.chunks@,
                i <= n,
                pending@.map_values(|p: usize| p as int) == unwritten(cs, slots_present, i as int),
                forall|t: int| 0 <= t < pending@.len() ==> #[trigger] pending@[t] < i,
            decreases n - i,
        {
            if !self.chunks[i].needs_reembed && self.chunks[i].vector_slot >= slots_present {
                let ghost before = pending@.map_values(|p: usize| p as int);
                pending.push(i);
                assert(pending@.map_values(|p: usize| p as int) =~= before.push(i as int));
            }
            i += 1;
        }
        let ghost ps = pending@.map_values(|p: usize| p as int);
        let m = pending.len();
        let mut out: Vec<usize> = Vec::new();
        let mut k: usize = 0;
        assert(ps.take(0) =~= Seq::<int>::empty());
        while k < m
            invariant
                m == pending@.len(),
                ps == pending@.map_values(|p: usize| p as int),
                n == cs.len(),
                cs == self.chunks@,
                forall|t: int| 0 <= t < m ==> #[trigger] pending@[t] < n,
                k <= m,
                out@.map_values(|p: usize| p as int) == sort_by(ps.take(k as int), by_slot(cs)),
                forall|t: int| 0 <= t < out@.len() ==> #[trigger] out@[t] < n,
            decreases m - k,
        {
            let ghost sorted = sort_by(ps.take(k as int), by_slot(cs));
            let x = pending[k];
            assert(ps[k as int] == x as int);
            let mut j: usize = 0;
            while j < out.len() && self.chunks[out[j]].vector_slot <= self.chunks[x].vector_slot
                invariant
                    out@.map_values(|p: usize| p as int) == sorted,
                    forall|t: int| 0 <= t < out@.len() ==> #[trigger] out@[t] < n,
                    n == cs.len(),
                    cs == self.chunks@,
                    x < n,
                    j <= out@.len(),
                    forall|t: int| 0 <= t < j ==> (by_slot(cs))(#[trigger] sorted[t], x as int),
                decreases out@.len() - j,
            {
                assert(sorted[j as int] == out@[j as int] as int);
                j += 1;
            }
            proof {
                if j < out@.len() {
                    assert(sorted[j as int] == out@[j as int] as int);
                }
                lemma_insert_pos_by(sorted, x as int, by_slot(cs), j as int);
                assert(ps.take(k + 1).drop_last() =~= ps.take(k as int));
                assert(ps.take(k + 1).last() == x as int);
            }
            out.insert(j, x);
            assert(out@.map_values(|p: usize| p as int) =~= sorted.insert(j as int, x as int));
            k += 1;
        }
        assert(ps.take(m as int) =~= ps);
        out
    }
}

} // verus!
