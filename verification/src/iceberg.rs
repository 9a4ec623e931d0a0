//! Laying out an iceberg chart from a model's proposed topics: which topics are
//! kept, the depth level each lands on, which make it onto the chart, in what
//! order, and the id and lane each gets.
//!
//! Scores are held in tenths of a point (`0 ..= 1000` for `0.0 ..= 100.0`), the
//! precision to which every score is rounded before it is used.

use vstd::prelude::*;
use crate::text::{
    trim_ws, first_n, to_chars, from_chars, trim_chars, take_chars, push_all, push_str_chars, views,
    strip_trailing_repeats, strip_trailing_repeats_chars,
    subvec,
};
use crate::library::{slug_of, slugify, unique_slug, unique_slug_of, lemma_unique_slug_is_fresh};
use crate::numbers::{decimal_chars, decimal_digits};
use crate::order::{seq_lt, chars_lt, sort_by, insert_pos_by, lemma_insert_pos_by, lemma_sort_by_len, lemma_insert_pos_by_bounds, lemma_sort_by_keeps};
use crate::tabs::copy_string;
use crate::urls::{strip_leading_repeats, strip_leading_repeats_chars};

verus! {

/// Depth levels run from 1 (surface) to this.
pub const ICEBERG_LEVEL_COUNT: u8 = 5;
pub const ICEBERG_MIN_ITEMS: usize = 12;
pub const ICEBERG_MAX_ITEMS: usize = 45;
pub const ICEBERG_MAX_ITEMS_PER_LEVEL: usize = 10;
/// A topic's reason is cut to this many characters.
pub const ICEBERG_REASON_LIMIT: usize = 220;
/// The highest score, in tenths.
pub const ICEBERG_SCORE_MAX: u32 = 1000;

/// One topic as the model proposed it.
pub struct IcebergCandidate {
    /// The `name` field, when it is a string.
    pub name: Option<String>,
    /// The `description` field, when it is a string.
    pub description: Option<String>,
    /// The topic's depth score in tenths.
    pub score: u32,
    /// The stated reason for its depth, when there is one.
    pub reason: Option<String>,
}

/// A topic placed on the chart.
pub struct IcebergPlacement {
    pub id: String,
    /// The index of the candidate it came from.
    pub source: usize,
    pub name: String,
    pub description: String,
    /// Its depth level, 1 ..= 5.
    pub level: u8,
    /// Its position among the topics of its level, from 0.
    pub lane: usize,
    /// Its depth score in tenths.
    pub score: u32,
    pub reason: Option<String>,
}

pub open spec fn opt_text(o: Option<String>) -> Seq<char> {
    match o {
        Some(s) => s@,
        None => Seq::empty(),
    }
}

pub open spec fn cand_name(c: IcebergCandidate) -> Seq<char> {
    trim_ws(opt_text(c.name))
}

pub open spec fn cand_desc(c: IcebergCandidate) -> Seq<char> {
    trim_ws(opt_text(c.description))
}

pub open spec fn cand_score(c: IcebergCandidate) -> int {
    if c.score > ICEBERG_SCORE_MAX {
        ICEBERG_SCORE_MAX as int
    } else {
        c.score as int
    }
}

pub open spec fn cand_reason(c: IcebergCandidate) -> Option<Seq<char>> {
    match c.reason {
        Some(r) => Some(first_n(r@, ICEBERG_REASON_LIMIT as nat)),
        None => None,
    }
}

/// The level a score falls in: 1 below 20.0, 2 below 40.0, ..., 5 from 80.0.
pub open spec fn level_of(score: int) -> int {
    if score < 200 {
        1
    } else if score < 400 {
        2
    } else if score < 600 {
        3
    } else if score < 800 {
        4
    } else {
        5
    }
}

/// A topic on its way to the chart: level, score, name, candidate index.
pub type Entry = (int, int, Seq<char>, int);

pub open spec fn entry_slug(e: Entry) -> Seq<char> {
    slug_of(e.2)
}

/// The topics kept, in proposal order: those with a name and a description
/// that do not repeat (by slug) the name of an earlier kept topic.
pub open spec fn accepted(cs: Seq<IcebergCandidate>) -> Seq<Entry>
    decreases cs.len(),
{
    if cs.len() == 0 {
        Seq::empty()
    } else {
        let prev = accepted(cs.drop_last());
        let c = cs.last();
        let name = cand_name(c);
        if name.len() > 0 && cand_desc(c).len() > 0 && slug_of(name).len() > 0
            && !prev.map_values(|e: Entry| entry_slug(e)).contains(slug_of(name)) {
            prev.push((level_of(cand_score(c)), cand_score(c), name, cs.len() - 1))
        } else {
            prev
        }
    }
}

/// The chart's working list, held as parallel vectors.
struct Working {
    levels: Vec<u8>,
    scores: Vec<u32>,
    names: Vec<Vec<char>>,
    sources: Vec<usize>,
}

impl Working {
    spec fn wf(&self) -> bool {
        &&& self.scores@.len() == self.levels@.len()
        &&& self.names@.len() == self.levels@.len()
        &&& self.sources@.len() == self.levels@.len()
        &&& forall|i: int| 0 <= i < self.levels@.len() ==> 1 <= #[trigger] self.levels@[i] <= 5
        &&& forall|i: int| 0 <= i < self.scores@.len() ==> #[trigger] self.scores@[i] <= ICEBERG_SCORE_MAX
    }

    spec fn entries(&self) -> Seq<Entry> {
        Seq::new(
            self.levels@.len(),
            |i: int| (self.levels@[i] as int, self.scores@[i] as int, self.names@[i]@, self.sources@[i] as int),
        )
    }
}

fn opt_chars(o: &Option<String>) -> (r: Vec<char>)
    ensures
        r@ == opt_text(*o),
{
    match o {
        Some(s) => to_chars(s.as_str()),
        None => Vec::new(),
    }
}

fn level_for(score: u32) -> (r: u8)
    ensures
        r as int == level_of(score as int),
{
    if score < 200 {
        1
    } else if score < 400 {
        2
    } else if score < 600 {
        3
    } else if score < 800 {
        4
    } else {
        5
    }
}

fn slugs_contain(v: &Vec<Vec<char>>, s: &[char]) -> (r: bool)
    ensures
        r == views(v@).contains(s@),
{
    let n = v.len();
    let mut i: usize = 0;
    while i < n
        invariant
            n == v@.len(),
            i <= n,
            forall|k: int| 0 <= k < i ==> v@[k]@ != s@,
        decreases n - i,
    {
        if crate::text::chars_eq(v[i].as_slice(), s) {
            assert(views(v@)[i as int] == s@);
            return true;
        }
        i += 1;
    }
    assert forall|k: int| 0 <= k < views(v@).len() implies views(v@)[k] != s@ by {
        assert(views(v@)[k] == v@[k]@);
    }
    false
}

/// The kept topics, with the level their score gives them.
fn accept(cs: &[IcebergCandidate]) -> (w: Working)
    ensures
        w.wf(),
        w.entries() == accepted(cs@),
        w.levels@.len() <= cs@.len(),
        forall|i: int| 0 <= i < w.sources@.len() ==> #[trigger] w.sources@[i] < cs@.len(),
        forall|i: int| 0 <= i < w.names@.len() ==> (#[trigger] w.names@[i])@ == cand_name(cs@[w.sources@[i] as int]),
{
    let n = cs.len();
    let mut w = Working { levels: Vec::new(), scores: Vec::new(), names: Vec::new(), sources: Vec::new() };
    let mut seen: Vec<Vec<char>> = Vec::new();
    let mut i: usize = 0;
    while i < n
        invariant
            n == cs@.len(),
            i <= n,
            w.wf(),
            w.entries() == accepted(cs@.take(i as int)),
            views(seen@) == accepted(cs@.take(i as int)).map_values(|e: Entry| entry_slug(e)),
            w.levels@.len() <= i,
            forall|k: int| 0 <= k < w.sources@.len() ==> #[trigger] w.sources@[k] < i,
            forall|k: int| 0 <= k < w.names@.len() ==> (#[trigger] w.names@[k])@ == cand_name(cs@[w.sources@[k] as int]),
        decreases n - i,
    {
        let c = &cs[i];
        let ghost prefix = cs@.take(i + 1);
        assert(prefix.drop_last() =~= cs@.take(i as int));
        assert(prefix.last() == cs@[i as int]);
        let ghost prev = accepted(cs@.take(i as int));
        let raw_name = opt_chars(&c.name);
        let name = trim_chars(raw_name.as_slice());
        let raw_desc = opt_chars(&c.description);
        let desc = trim_chars(raw_desc.as_slice());
        let slug_text = slugify(from_chars(name.as_slice()).as_str());
        let slug = to_chars(slug_text.as_str());
        if name.len() > 0 && desc.len() > 0 && slug.len() > 0 && !slugs_contain(&seen, slug.as_slice()) {
            let score = if c.score > ICEBERG_SCORE_MAX {
                ICEBERG_SCORE_MAX
            } else {
                c.score
            };
            let ghost old_entries = w.entries();
            let ghost old_seen = seen@;
            let ghost slug_view = slug@;
            w.levels.push(level_for(score));
            w.scores.push(score);
            w.names.push(name);
            w.sources.push(i);
            seen.push(slug);
            let ghost e: Entry = (level_of(score as int), score as int, cand_name(cs@[i as int]), i as int);
            assert(w.entries() =~= old_entries.push(e));
            assert(accepted(prefix) == prev.push(e));
            assert(slug_view == entry_slug(e));
            assert(views(seen@) =~= views(old_seen).push(slug_view));
            assert(views(seen@) =~= prev.push(e).map_values(|e: Entry| entry_slug(e)));
        } else {
            assert(accepted(prefix) == prev);
        }
        i += 1;
    }
    assert(cs@.take(n as int) =~= cs@);
    w
}

// ---------------------------------------------------------------------------
// Spreading compressed scores across the levels
// ---------------------------------------------------------------------------

/// How many entries are on level `l`.
pub open spec fn count_level(es: Seq<Entry>, l: int) -> nat
    decreases es.len(),
{
    if es.len() == 0 {
        0
    } else {
        count_level(es.drop_last(), l) + if es.last().0 == l {
            1nat
        } else {
            0nat
        }
    }
}

/// Some level has no entry.
pub open spec fn missing_level(es: Seq<Entry>) -> bool {
    count_level(es, 1) == 0 || count_level(es, 2) == 0 || count_level(es, 3) == 0 || count_level(es, 4)
        == 0 || count_level(es, 5) == 0
}

/// An entry's place in the ranking by score: score, name, position.
pub type RankKey = (int, Seq<char>, int);

/// Ranked by score, then by name.
pub open spec fn rank_le(a: RankKey, b: RankKey) -> bool {
    !(b.0 < a.0 || (b.0 == a.0 && seq_lt(b.1, a.1)))
}

pub open spec fn rank_order() -> spec_fn(RankKey, RankKey) -> bool {
    |a: RankKey, b: RankKey| rank_le(a, b)
}

pub open spec fn rank_keys(es: Seq<Entry>) -> Seq<RankKey> {
    Seq::new(es.len(), |p: int| (es[p].1, es[p].2, p))
}

/// The level the entry ranked `rank` of `n` is moved to: the ranking cut into
/// five equal bands.
pub open spec fn stretch_level(rank: int, n: int) -> int {
    let l = rank * 5 / n + 1;
    if l > 5 {
        5
    } else {
        l
    }
}

/// A score pulled into the band of `level`: 0.0 ..= 19.0, 20.0 ..= 39.0, ...,
/// 80.0 ..= 100.0.
pub open spec fn band_score(score: int, level: int) -> int {
    let lower = (level - 1) * 200;
    let upper = if level == 5 {
        1000
    } else {
        level * 200 - 10
    };
    if score < lower {
        lower
    } else if score > upper {
        upper
    } else {
        score
    }
}

/// The entries after the first `r` of the ranking have been moved to the
/// levels their rank gives them.
pub open spec fn apply_ranks(es: Seq<Entry>, order: Seq<RankKey>, r: nat) -> Seq<Entry>
    decreases r,
{
    if r == 0 || r > order.len() {
        es
    } else {
        let prev = apply_ranks(es, order, (r - 1) as nat);
        let p = order[r - 1].2;
        let level = stretch_level(r - 1, es.len() as int);
        prev.update(p, (level, band_score(es[p].1, level), es[p].2, es[p].3))
    }
}

/// With at least five entries and a level left empty, every entry is moved to
/// the level of its rank by score, so that all five levels are used.
pub open spec fn stretched(es: Seq<Entry>) -> Seq<Entry> {
    if es.len() >= 5 && missing_level(es) {
        apply_ranks(es, sort_by(rank_keys(es), rank_order()), es.len())
    } else {
        es
    }
}

fn count_levels(w: &Working) -> (c: Vec<usize>)
    requires
        w.wf(),
    ensures
        c@.len() == 5,
        forall|l: int| 0 <= l < 5 ==> #[trigger] c@[l] == count_level(w.entries(), l + 1),
{
    let n = w.levels.len();
    let mut c: Vec<usize> = vec![0, 0, 0, 0, 0];
    let mut i: usize = 0;
    let ghost es = w.entries();
    while i < n
        invariant
            w.wf(),
            n == w.levels@.len(),
            es == w.entries(),
            i <= n,
            c@.len() == 5,
            forall|l: int| 0 <= l < 5 ==> #[trigger] c@[l] == count_level(es.take(i as int), l + 1),
            forall|l: int| 0 <= l < 5 ==> #[trigger] c@[l] <= i,
        decreases n - i,
    {
        let l = w.levels[i];
        assert(es.take(i + 1).drop_last() =~= es.take(i as int));
        assert(es.take(i + 1).last() == es[i as int]);
        let k = (l - 1) as usize;
        let v = c[k] + 1;
        c.set(k, v);
        assert forall|m: int| 0 <= m < 5 implies #[trigger] c@[m] == count_level(es.take(i + 1), m + 1) by {
            assert(count_level(es.take(i + 1), m + 1) == count_level(es.take(i as int), m + 1) + if es[i as int].0
                == m + 1 {
                1nat
            } else {
                0nat
            });
        }
        i += 1;
    }
    assert(es.take(n as int) =~= es);
    c
}

fn rank_le_at(w: &Working, a: usize, b: usize) -> (r: bool)
    requires
        w.wf(),
        a < w.levels@.len(),
        b < w.levels@.len(),
    ensures
        r == rank_le(rank_keys(w.entries())[a as int], rank_keys(w.entries())[b as int]),
{
    let sa = w.scores[a];
    let sb = w.scores[b];
    !(sb < sa || (sb == sa && chars_lt(w.names[b].as_slice(), w.names[a].as_slice())))
}

/// Positions in the order of their rank by score, then name; equal ranks keep
/// their order.
fn rank_order_of(w: &Working) -> (perm: Vec<usize>)
    requires
        w.wf(),
    ensures
        perm@.len() == w.levels@.len(),
        forall|k: int| 0 <= k < perm@.len() ==> #[trigger] perm@[k] < w.levels@.len(),
        perm@.map_values(|p: usize| rank_keys(w.entries())[p as int]) == sort_by(
            rank_keys(w.entries()),
            rank_order(),
        ),
{
    let n = w.levels.len();
    let ghost keys = rank_keys(w.entries());
    let mut perm: Vec<usize> = Vec::new();
    let mut i: usize = 0;
    while i < n
        invariant
            w.wf(),
            n == w.levels@.len(),
            keys == rank_keys(w.entries()),
            i <= n,
            perm@.len() == i,
            forall|k: int| 0 <= k < perm@.len() ==> #[trigger] perm@[k] < i,
            perm@.map_values(|p: usize| keys[p as int]) == sort_by(keys.take(i as int), rank_order()),
        decreases n - i,
    {
        let ghost sorted = sort_by(keys.take(i as int), rank_order());
        let mut j: usize = 0;
        while j < perm.len() && rank_le_at(w, perm[j], i)
            invariant
                w.wf(),
                n == w.levels@.len(),
                keys == rank_keys(w.entries()),
                i < n,
                perm@.len() == i,
                forall|k: int| 0 <= k < perm@.len() ==> #[trigger] perm@[k] < i,
                sorted == perm@.map_values(|p: usize| keys[p as int]),
                j <= perm@.len(),
                forall|k: int| 0 <= k < j ==> rank_le(#[trigger] sorted[k], keys[i as int]),
            decreases perm@.len() - j,
        {
            j += 1;
        }
        proof {
            assert forall|k: int| 0 <= k < j implies (rank_order())(#[trigger] sorted[k], keys[i as int]) by {}
            if j < perm@.len() {
                assert(!(rank_order())(sorted[j as int], keys[i as int]));
            }
            lemma_insert_pos_by(sorted, keys[i as int], rank_order(), j as int);
            assert(keys.take(i + 1).drop_last() =~= keys.take(i as int));
            assert(keys.take(i + 1).last() == keys[i as int]);
        }
        perm.insert(j, i);
        assert(perm@.map_values(|p: usize| keys[p as int]) =~= sorted.insert(j as int, keys[i as int]));
        i += 1;
    }
    assert(keys.take(n as int) =~= keys);
    perm
}

fn band_for(score: u32, level: u8) -> (r: u32)
    requires
        1 <= level <= 5,
    ensures
        r as int == band_score(score as int, level as int),
        r <= ICEBERG_SCORE_MAX,
{
    let lower: u32 = (level as u32 - 1) * 200;
    let upper: u32 = if level == 5 {
        1000
    } else {
        level as u32 * 200 - 10
    };
    if score < lower {
        lower
    } else if score > upper {
        upper
    } else {
        score
    }
}

fn stretch_level_for(rank: usize, n: usize) -> (r: u8)
    requires
        rank < n,
    ensures
        r as int == stretch_level(rank as int, n as int),
        1 <= r <= 5,
{
    let l: u128 = (rank as u128) * 5 / (n as u128) + 1;
    if l > 5 {
        5
    } else {
        l as u8
    }
}

/// Spreads the entries across all five levels when their scores leave one
/// empty.
fn stretch(w: &mut Working)
    requires
        old(w).wf(),
    ensures
        final(w).wf(),
        final(w).entries() == stretched(old(w).entries()),
        final(w).sources@ == old(w).sources@,
        final(w).names@ == old(w).names@,
{
    let n = w.levels.len();
    if n < 5 {
        return;
    }
    let counts = count_levels(w);
    if !(counts[0] == 0 || counts[1] == 0 || counts[2] == 0 || counts[3] == 0 || counts[4] == 0) {
        assert(!missing_level(w.entries())) by {
            assert(counts@[0] == count_level(w.entries(), 0int + 1));
            assert(counts@[1] == count_level(w.entries(), 1int + 1));
            assert(counts@[2] == count_level(w.entries(), 2int + 1));
            assert(counts@[3] == count_level(w.entries(), 3int + 1));
            assert(counts@[4] == count_level(w.entries(), 4int + 1));
        }
        return;
    }
    assert(missing_level(w.entries())) by {
        assert(counts@[0] == count_level(w.entries(), 0int + 1));
        assert(counts@[1] == count_level(w.entries(), 1int + 1));
        assert(counts@[2] == count_level(w.entries(), 2int + 1));
        assert(counts@[3] == count_level(w.entries(), 3int + 1));
        assert(counts@[4] == count_level(w.entries(), 4int + 1));
    }
    let ghost es = w.entries();
    let ghost order = sort_by(rank_keys(es), rank_order());
    let perm = rank_order_of(w);
    proof {
        lemma_sort_by_len(rank_keys(es), rank_order());
    }
    let original: Vec<u32> = w.scores.clone();
    let mut r: usize = 0;
    while r < n
        invariant
            n == w.levels@.len(),
            n >= 5,
            w.wf(),
            original@ == es.map_values(|e: Entry| e.1 as u32),
            forall|i: int| 0 <= i < n ==> (#[trigger] original@[i]) as int == es[i].1,
            es.len() == n,
            order.len() == n,
            perm@.len() == n,
            forall|k: int| 0 <= k < n ==> #[trigger] perm@[k] < n,
            perm@.map_values(|p: usize| rank_keys(es)[p as int]) == order,
            w.sources@ == es.map_values(|e: Entry| e.3 as usize),
            w.entries() == apply_ranks(es, order, r as nat),
            w.names@ == old(w).names@,
            w.sources@ == old(w).sources@,
            r <= n,
        decreases n - r,
    {
        let p = perm[r];
        assert(order[r as int] == rank_keys(es)[p as int]);
        assert(order[r as int].2 == p as int);
        let level = stretch_level_for(r, n);
        let score = band_for(original[p], level);
        let ghost prev = w.entries();
        w.levels.set(p, level);
        w.scores.set(p, score);
        proof {
            assert forall|k: int| 0 <= k < order.len() implies 0 <= (#[trigger] order[k]).2 < es.len() by {
                assert(order[k] == rank_keys(es)[perm@[k] as int]);
            }
            lemma_apply_ranks_keeps(es, order, r as nat, p as int);
            assert(w.entries() =~= prev.update(
                p as int,
                (level as int, band_score(es[p as int].1, level as int), es[p as int].2, es[p as int].3),
            ));
        }
        r += 1;
    }
    proof {
        assert(w.sources@ =~= old(w).sources@);
    }
}

proof fn lemma_apply_ranks_keeps(es: Seq<Entry>, order: Seq<RankKey>, r: nat, p: int)
    requires
        0 <= p < es.len(),
        forall|k: int| 0 <= k < order.len() ==> 0 <= (#[trigger] order[k]).2 < es.len(),
    ensures
        apply_ranks(es, order, r).len() == es.len(),
        apply_ranks(es, order, r)[p].2 == es[p].2,
        apply_ranks(es, order, r)[p].3 == es[p].3,
    decreases r,
{
    if r > 0 && r <= order.len() {
        lemma_apply_ranks_keeps(es, order, (r - 1) as nat, p);
        let q = order[r - 1].2;
        assert(0 <= q < es.len());
    }
}

// ---------------------------------------------------------------------------
// Chart order, picking per level, and placement
// ---------------------------------------------------------------------------

/// Chart order: by level, then score, then name.
pub open spec fn entry_lt(a: Entry, b: Entry) -> bool {
    a.0 < b.0 || (a.0 == b.0 && (a.1 < b.1 || (a.1 == b.1 && seq_lt(a.2, b.2))))
}

pub open spec fn chart_order() -> spec_fn(Entry, Entry) -> bool {
    |a: Entry, b: Entry| !entry_lt(b, a)
}

/// The entries of level `l`, in order.
pub open spec fn of_level(es: Seq<Entry>, l: int) -> Seq<Entry>
    decreases es.len(),
{
    if es.len() == 0 {
        Seq::empty()
    } else {
        let prev = of_level(es.drop_last(), l);
        if es.last().0 == l {
            prev.push(es.last())
        } else {
            prev
        }
    }
}

pub open spec fn level_sizes(es: Seq<Entry>) -> Seq<int> {
    seq![
        of_level(es, 1).len() as int,
        of_level(es, 2).len() as int,
        of_level(es, 3).len() as int,
        of_level(es, 4).len() as int,
        of_level(es, 5).len() as int,
    ]
}

pub open spec fn total(c: Seq<int>) -> int {
    c[0] + c[1] + c[2] + c[3] + c[4]
}

/// One round of picking from level index `l` on: while the chart is short of
/// `target`, each level takes its next topic if it has one left and has
/// fewer than the per-level cap.
pub open spec fn pick_round(c: Seq<int>, sizes: Seq<int>, target: int, l: int) -> Seq<int>
    decreases 5 - l,
{
    if l >= 5 || l < 0 {
        c
    } else if total(c) < target && c[l] < ICEBERG_MAX_ITEMS_PER_LEVEL && c[l] < sizes[l] {
        pick_round(c.update(l, c[l] + 1), sizes, target, l + 1)
    } else {
        pick_round(c, sizes, target, l + 1)
    }
}

pub open spec fn pick_rounds(c: Seq<int>, sizes: Seq<int>, target: int, k: nat) -> Seq<int>
    decreases k,
{
    if k == 0 {
        c
    } else {
        pick_rounds(pick_round(c, sizes, target, 0), sizes, target, (k - 1) as nat)
    }
}

/// How many topics each level contributes: picked round by round, one per
/// level per round. After as many rounds as the per-level cap, no level can
/// take more.
pub open spec fn picked_counts(es: Seq<Entry>, target: int) -> Seq<int> {
    pick_rounds(seq![0int, 0, 0, 0, 0], level_sizes(es), target, ICEBERG_MAX_ITEMS_PER_LEVEL as nat)
}

/// How many topics the chart aims for: the number asked for, else the number
/// proposed, kept within 12 ..= 45.
pub open spec fn chart_target(requested: Option<usize>, proposed: int) -> int {
    let t = match requested {
        Some(k) => k as int,
        None => proposed,
    };
    if t < ICEBERG_MIN_ITEMS {
        ICEBERG_MIN_ITEMS as int
    } else if t > ICEBERG_MAX_ITEMS {
        ICEBERG_MAX_ITEMS as int
    } else {
        t
    }
}

/// A placed topic: id, candidate index, level, lane, score.
pub type PlaceView = (Seq<char>, int, int, int, int);

/// The text a topic's id is made from: `{level}-{lane + 1}-{name}`.
pub open spec fn id_text(level: int, lane: int, name: Seq<char>) -> Seq<char> {
    decimal_chars(level as nat) + "-"@ + decimal_chars((lane + 1) as nat) + "-"@ + name
}

pub open spec fn place_ids(ps: Seq<PlaceView>) -> Seq<Seq<char>> {
    ps.map_values(|p: PlaceView| p.0)
}

/// The first `j` topics of one level's list placed after `acc`, lane by lane,
/// each id made unique among those before it.
pub open spec fn place_level(acc: Seq<PlaceView>, bucket: Seq<Entry>, j: nat) -> Seq<PlaceView>
    decreases j,
{
    if j == 0 {
        acc
    } else {
        let prev = place_level(acc, bucket, (j - 1) as nat);
        let e = bucket[j - 1];
        prev.push((unique_slug_of(id_text(e.0, j - 1, e.2), place_ids(prev)), e.3, e.0, j - 1, e.1))
    }
}

/// Levels 1 ..= `l` placed in turn, each with as many topics as it was picked.
pub open spec fn place_from(es: Seq<Entry>, counts: Seq<int>, l: int) -> Seq<PlaceView>
    decreases l,
{
    if l <= 0 {
        Seq::empty()
    } else {
        place_level(place_from(es, counts, l - 1), of_level(es, l), counts[l - 1] as nat)
    }
}

/// The chart laid out from the proposed topics.
pub open spec fn iceberg_layout(cs: Seq<IcebergCandidate>, requested: Option<usize>) -> Seq<PlaceView> {
    let ordered = sort_by(stretched(accepted(cs)), chart_order());
    place_from(ordered, picked_counts(ordered, chart_target(requested, cs.len() as int)), 5)
}

/// What a placement carries over from the candidate it came from.
pub open spec fn placed_from(p: IcebergPlacement, cs: Seq<IcebergCandidate>) -> bool {
    &&& p.source < cs.len()
    &&& p.name@ == cand_name(cs[p.source as int])
    &&& p.description@ == cand_desc(cs[p.source as int])
    &&& p.reason.deep_view() == cand_reason(cs[p.source as int])
}

pub open spec fn placement_view(p: IcebergPlacement) -> PlaceView {
    (p.id@, p.source as int, p.level as int, p.lane as int, p.score as int)
}

fn chart_le_at(w: &Working, a: usize, b: usize) -> (r: bool)
    requires
        w.wf(),
        a < w.levels@.len(),
        b < w.levels@.len(),
    ensures
        r == (chart_order())(w.entries()[a as int], w.entries()[b as int]),
{
    let la = w.levels[a];
    let lb = w.levels[b];
    let sa = w.scores[a];
    let sb = w.scores[b];
    !(lb < la || (lb == la && (sb < sa || (sb == sa && chars_lt(w.names[b].as_slice(), w.names[a].as_slice())))))
}

/// Positions in chart order; equal entries keep their order.
fn chart_order_of(w: &Working) -> (perm: Vec<usize>)
    requires
        w.wf(),
    ensures
        perm@.len() == w.levels@.len(),
        forall|k: int| 0 <= k < perm@.len() ==> #[trigger] perm@[k] < w.levels@.len(),
        perm@.map_values(|p: usize| w.entries()[p as int]) == sort_by(w.entries(), chart_order()),
{
    let n = w.levels.len();
    let ghost es = w.entries();
    let mut perm: Vec<usize> = Vec::new();
    let mut i: usize = 0;
    while i < n
        invariant
            w.wf(),
            n == w.levels@.len(),
            es == w.entries(),
            i <= n,
            perm@.len() == i,
            forall|k: int| 0 <= k < perm@.len() ==> #[trigger] perm@[k] < i,
            perm@.map_values(|p: usize| es[p as int]) == sort_by(es.take(i as int), chart_order()),
        decreases n - i,
    {
        let ghost sorted = sort_by(es.take(i as int), chart_order());
        let mut j: usize = 0;
        while j < perm.len() && chart_le_at(w, perm[j], i)
            invariant
                w.wf(),
                n == w.levels@.len(),
                es == w.entries(),
                i < n,
                perm@.len() == i,
                forall|k: int| 0 <= k < perm@.len() ==> #[trigger] perm@[k] < i,
                sorted == perm@.map_values(|p: usize| es[p as int]),
                j <= perm@.len(),
                forall|k: int| 0 <= k < j ==> (chart_order())(#[trigger] sorted[k], es[i as int]),
            decreases perm@.len() - j,
        {
            j += 1;
        }
        proof {
            lemma_insert_pos_by(sorted, es[i as int], chart_order(), j as int);
            assert(es.take(i + 1).drop_last() =~= es.take(i as int));
            assert(es.take(i + 1).last() == es[i as int]);
        }
        perm.insert(j, i);
        assert(perm@.map_values(|p: usize| es[p as int]) =~= sorted.insert(j as int, es[i as int]));
        i += 1;
    }
    assert(es.take(n as int) =~= es);
    perm
}

/// The positions, in chart order, of the entries of level `l`.
fn level_bucket(w: &Working, perm: &Vec<usize>, l: u8) -> (b: Vec<usize>)
    requires
        w.wf(),
        forall|k: int| 0 <= k < perm@.len() ==> #[trigger] perm@[k] < w.levels@.len(),
    ensures
        b@.map_values(|p: usize| w.entries()[p as int]) == of_level(
            perm@.map_values(|p: usize| w.entries()[p as int]),
            l as int,
        ),
        forall|k: int| 0 <= k < b@.len() ==> #[trigger] b@[k] < w.levels@.len(),
        b@.len() <= perm@.len(),
{
    let ghost es = w.entries();
    let ghost ordered = perm@.map_values(|p: usize| es[p as int]);
    let n = perm.len();
    let mut b: Vec<usize> = Vec::new();
    let mut k: usize = 0;
    while k < n
        invariant
            w.wf(),
            es == w.entries(),
            n == perm@.len(),
            ordered == perm@.map_values(|p: usize| es[p as int]),
            forall|q: int| 0 <= q < perm@.len() ==> #[trigger] perm@[q] < w.levels@.len(),
            k <= n,
            b@.map_values(|p: usize| es[p as int]) == of_level(ordered.take(k as int), l as int),
            forall|q: int| 0 <= q < b@.len() ==> #[trigger] b@[q] < w.levels@.len(),
            b@.len() <= k,
        decreases n - k,
    {
        let p = perm[k];
        assert(ordered.take(k + 1).drop_last() =~= ordered.take(k as int));
        assert(ordered.take(k + 1).last() == es[p as int]);
        if w.levels[p] == l {
            let ghost before = b@;
            b.push(p);
            assert(b@.map_values(|q: usize| es[q as int]) =~= before.map_values(|q: usize| es[q as int]).push(
                es[p as int],
            ));
        }
        k += 1;
    }
    assert(ordered.take(n as int) =~= ordered);
    b
}

pub open spec fn ints(c: Seq<usize>) -> Seq<int> {
    c.map_values(|x: usize| x as int)
}

/// One round of picking.
fn pick_round_exec(c: &mut Vec<usize>, sizes: &Vec<usize>, target: usize)
    requires
        old(c)@.len() == 5,
        sizes@.len() == 5,
        forall|l: int| 0 <= l < 5 ==> #[trigger] old(c)@[l] <= ICEBERG_MAX_ITEMS_PER_LEVEL,
        forall|l: int| 0 <= l < 5 ==> #[trigger] old(c)@[l] <= sizes@[l],
    ensures
        final(c)@.len() == 5,
        ints(final(c)@) == pick_round(ints(old(c)@), ints(sizes@), target as int, 0),
        forall|l: int| 0 <= l < 5 ==> #[trigger] final(c)@[l] <= ICEBERG_MAX_ITEMS_PER_LEVEL,
        forall|l: int| 0 <= l < 5 ==> #[trigger] final(c)@[l] <= sizes@[l],
{
    let ghost start = ints(c@);
    let mut l: usize = 0;
    while l < 5
        invariant
            c@.len() == 5,
            sizes@.len() == 5,
            l <= 5,
            forall|m: int| 0 <= m < 5 ==> #[trigger] c@[m] <= ICEBERG_MAX_ITEMS_PER_LEVEL,
            forall|m: int| 0 <= m < 5 ==> #[trigger] c@[m] <= sizes@[m],
            pick_round(ints(c@), ints(sizes@), target as int, l as int) == pick_round(
                start,
                ints(sizes@),
                target as int,
                0,
            ),
        decreases 5 - l,
    {
        let sum = c[0] + c[1] + c[2] + c[3] + c[4];
        assert(sum == total(ints(c@)));
        let cl = c[l];
        if sum < target && cl < ICEBERG_MAX_ITEMS_PER_LEVEL && cl < sizes[l] {
            let ghost before = ints(c@);
            c.set(l, cl + 1);
            assert(ints(c@) =~= before.update(l as int, before[l as int] + 1));
        }
        l += 1;
    }
}

fn placed_text(level: u8, lane: usize, name: &Vec<char>) -> (r: String)
    requires
        lane < usize::MAX,
    ensures
        r@ == id_text(level as int, lane as int, name@),
{
    proof {
        reveal_strlit("-");
    }
    let mut t = decimal_digits(level as usize);
    push_str_chars(&mut t, "-");
    let d = decimal_digits(lane + 1);
    push_all(&mut t, d.as_slice());
    push_str_chars(&mut t, "-");
    push_all(&mut t, name.as_slice());
    from_chars(t.as_slice())
}

fn reason_of(c: &IcebergCandidate) -> (r: Option<String>)
    ensures
        r.deep_view() == cand_reason(*c),
{
    match &c.reason {
        Some(text) => {
            let v = to_chars(text.as_str());
            let t = take_chars(v.as_slice(), ICEBERG_REASON_LIMIT);
            Some(from_chars(t.as_slice()))
        },
        None => None,
    }
}

/// Places the first `count` topics of one level's list after those already
/// placed.
fn place_bucket(
    out: &mut Vec<IcebergPlacement>,
    ids: &mut Vec<String>,
    cs: &[IcebergCandidate],
    w: &Working,
    bucket: &Vec<usize>,
    count: usize,
    Ghost(level_entries): Ghost<Seq<Entry>>,
)
    requires
        w.wf(),
        count <= bucket@.len(),
        count <= ICEBERG_MAX_ITEMS_PER_LEVEL,
        old(out)@.len() <= 4 * ICEBERG_MAX_ITEMS_PER_LEVEL,
        crate::text::string_views(old(ids)@) == place_ids(old(out)@.map_values(|p: IcebergPlacement| placement_view(p))),
        bucket@.map_values(|p: usize| w.entries()[p as int]) == level_entries,
        forall|k: int| 0 <= k < bucket@.len() ==> #[trigger] bucket@[k] < w.levels@.len(),
        forall|i: int| 0 <= i < w.sources@.len() ==> #[trigger] w.sources@[i] < cs@.len(),
        forall|i: int| 0 <= i < w.names@.len() ==> (#[trigger] w.names@[i])@ == cand_name(cs@[w.sources@[i] as int]),
        forall|i: int| 0 <= i < old(out)@.len() ==> placed_from(#[trigger] old(out)@[i], cs@),
    ensures
        final(out)@.map_values(|p: IcebergPlacement| placement_view(p)) == place_level(
            old(out)@.map_values(|p: IcebergPlacement| placement_view(p)),
            level_entries,
            count as nat,
        ),
        crate::text::string_views(final(ids)@) == place_ids(final(out)@.map_values(|p: IcebergPlacement| placement_view(p))),
        final(out)@.len() == old(out)@.len() + count,
        forall|i: int| 0 <= i < final(out)@.len() ==> placed_from(#[trigger] final(out)@[i], cs@),
{
    let ghost acc = old(out)@.map_values(|p: IcebergPlacement| placement_view(p));
    let mut j: usize = 0;
    while j < count
        invariant
            w.wf(),
            count <= bucket@.len(),
            count <= ICEBERG_MAX_ITEMS_PER_LEVEL,
            j <= count,
            out@.len() == old(out)@.len() + j,
            old(out)@.len() <= 4 * ICEBERG_MAX_ITEMS_PER_LEVEL,
            bucket@.map_values(|p: usize| w.entries()[p as int]) == level_entries,
            forall|k: int| 0 <= k < bucket@.len() ==> #[trigger] bucket@[k] < w.levels@.len(),
            forall|i: int| 0 <= i < w.sources@.len() ==> #[trigger] w.sources@[i] < cs@.len(),
            forall|i: int| 0 <= i < w.names@.len() ==> (#[trigger] w.names@[i])@ == cand_name(cs@[w.sources@[i] as int]),
            out@.map_values(|p: IcebergPlacement| placement_view(p)) == place_level(acc, level_entries, j as nat),
            crate::text::string_views(ids@) == place_ids(out@.map_values(|p: IcebergPlacement| placement_view(p))),
            forall|i: int| 0 <= i < out@.len() ==> placed_from(#[trigger] out@[i], cs@),
        decreases count - j,
    {
        let p = bucket[j];
        assert(level_entries[j as int] == w.entries()[p as int]);
        let level = w.levels[p];
        let text = placed_text(level, j, &w.names[p]);
        assert(crate::text::string_views(ids@).len() == ids@.len());
        assert(place_ids(out@.map_values(|q: IcebergPlacement| placement_view(q))).len() == out@.len());
        let id = unique_slug(text.as_str(), ids.as_slice());
        let src = w.sources[p];
        let c = &cs[src];
        let name = from_chars(w.names[p].as_slice());
        let raw_desc = opt_chars(&c.description);
        let desc = trim_chars(raw_desc.as_slice());
        let placement = IcebergPlacement {
            id: copy_string(&id),
            source: src,
            name,
            description: from_chars(desc.as_slice()),
            level,
            lane: j,
            score: w.scores[p],
            reason: reason_of(c),
        };
        let ghost before = out@.map_values(|q: IcebergPlacement| placement_view(q));
        let ghost before_ids = ids@;
        out.push(placement);
        ids.push(id);
        assert(out@.map_values(|q: IcebergPlacement| placement_view(q)) =~= before.push(placement_view(placement)));
        assert(crate::text::string_views(ids@) =~= crate::text::string_views(before_ids).push(id@));
        assert(place_ids(before.push(placement_view(placement))) =~= place_ids(before).push(id@));
        j += 1;
    }
}


/// Lays out an iceberg chart from the topics a model proposed: keeps the
/// usable, distinct ones, spreads them across all five levels when their
/// scores leave a level empty, picks up to the target count round-robin across
/// levels (at most ten per level), and places them in chart order with unique
/// ids. `requested_count` is the count the model recommended, when it gave one.
pub fn normalize_iceberg_items(candidates: &[IcebergCandidate], requested_count: Option<usize>) -> (r: Result<
    Vec<IcebergPlacement>,
    String,
>)
    ensures
        iceberg_layout(candidates@, requested_count).len() == 0 ==> r is Err && r->Err_0@
            == "Local model did not return any usable iceberg items."@,
        iceberg_layout(candidates@, requested_count).len() > 0 ==> (r matches Ok(v) && v@.map_values(
            |p: IcebergPlacement| placement_view(p),
        ) == iceberg_layout(candidates@, requested_count) && forall|i: int|
            0 <= i < v@.len() ==> placed_from(#[trigger] v@[i], candidates@)),
{
    let mut w = accept(candidates);
    stretch(&mut w);
    let ghost es = w.entries();
    let perm = chart_order_of(&w);
    let ghost ordered = perm@.map_values(|p: usize| es[p as int]);
    let proposed = candidates.len();
    let wanted = match requested_count {
        Some(k) => k,
        None => proposed,
    };
    let target = if wanted < ICEBERG_MIN_ITEMS {
        ICEBERG_MIN_ITEMS
    } else if wanted > ICEBERG_MAX_ITEMS {
        ICEBERG_MAX_ITEMS
    } else {
        wanted
    };
    let b1 = level_bucket(&w, &perm, 1);
    let b2 = level_bucket(&w, &perm, 2);
    let b3 = level_bucket(&w, &perm, 3);
    let b4 = level_bucket(&w, &perm, 4);
    let b5 = level_bucket(&w, &perm, 5);
    let sizes: Vec<usize> = vec![b1.len(), b2.len(), b3.len(), b4.len(), b5.len()];
    assert(ints(sizes@) =~= level_sizes(ordered));
    let mut counts: Vec<usize> = vec![0, 0, 0, 0, 0];
    assert(ints(counts@) =~= seq![0int, 0, 0, 0, 0]);
    let mut round: usize = 0;
    while round < ICEBERG_MAX_ITEMS_PER_LEVEL
        invariant
            counts@.len() == 5,
            sizes@.len() == 5,
            ints(sizes@) == level_sizes(ordered),
            round <= ICEBERG_MAX_ITEMS_PER_LEVEL,
            forall|l: int| 0 <= l < 5 ==> #[trigger] counts@[l] <= ICEBERG_MAX_ITEMS_PER_LEVEL,
            forall|l: int| 0 <= l < 5 ==> #[trigger] counts@[l] <= sizes@[l],
            pick_rounds(ints(counts@), ints(sizes@), target as int, (ICEBERG_MAX_ITEMS_PER_LEVEL - round) as nat)
                == picked_counts(ordered, target as int),
        decreases ICEBERG_MAX_ITEMS_PER_LEVEL - round,
    {
        pick_round_exec(&mut counts, &sizes, target);
        round += 1;
    }
    let ghost ic = ints(counts@);
    assert(ic == picked_counts(ordered, target as int));
    let mut out: Vec<IcebergPlacement> = Vec::new();
    let mut ids: Vec<String> = Vec::new();
    assert(out@.map_values(|p: IcebergPlacement| placement_view(p)) =~= Seq::<PlaceView>::empty());
    assert(crate::text::string_views(ids@) =~= Seq::<Seq<char>>::empty());
    assert(place_ids(out@.map_values(|p: IcebergPlacement| placement_view(p))) =~= Seq::<Seq<char>>::empty());
    assert(place_from(ordered, ic, 0) == Seq::<PlaceView>::empty());
    place_bucket(&mut out, &mut ids, candidates, &w, &b1, counts[0], Ghost(of_level(ordered, 1)));
    assert(out@.map_values(|p: IcebergPlacement| placement_view(p)) == place_from(ordered, ic, 1));
    place_bucket(&mut out, &mut ids, candidates, &w, &b2, counts[1], Ghost(of_level(ordered, 2)));
    assert(out@.map_values(|p: IcebergPlacement| placement_view(p)) == place_from(ordered, ic, 2));
    place_bucket(&mut out, &mut ids, candidates, &w, &b3, counts[2], Ghost(of_level(ordered, 3)));
    assert(out@.map_values(|p: IcebergPlacement| placement_view(p)) == place_from(ordered, ic, 3));
    place_bucket(&mut out, &mut ids, candidates, &w, &b4, counts[3], Ghost(of_level(ordered, 4)));
    assert(out@.map_values(|p: IcebergPlacement| placement_view(p)) == place_from(ordered, ic, 4));
    place_bucket(&mut out, &mut ids, candidates, &w, &b5, counts[4], Ghost(of_level(ordered, 5)));
    assert(out@.map_values(|p: IcebergPlacement| placement_view(p)) == place_from(ordered, ic, 5));
    assert(target as int == chart_target(requested_count, candidates@.len() as int));
    if out.len() == 0 {
        proof {
            reveal_strlit("Local model did not return any usable iceberg items.");
        }
        Err(String::from_str("Local model did not return any usable iceberg items."))
    } else {
        Ok(out)
    }
}

// ---------------------------------------------------------------------------
// Finding the JSON in a model's reply
// ---------------------------------------------------------------------------

/// The reply without surrounding whitespace or Markdown code fences.
pub open spec fn unfenced(response: Seq<char>) -> Seq<char> {
    trim_ws(
        strip_trailing_repeats(
            strip_leading_repeats(strip_leading_repeats(trim_ws(response), "```json"@), "```"@),
            "```"@,
        ),
    )
}

pub fn strip_code_fence(response: &str) -> (r: String)
    ensures
        r@ == unfenced(response@),
{
    let v = to_chars(response);
    let t = trim_chars(v.as_slice());
    let json_fence = to_chars("```json");
    let fence = to_chars("```");
    let a = strip_leading_repeats_chars(t.as_slice(), json_fence.as_slice());
    let b = strip_leading_repeats_chars(a.as_slice(), fence.as_slice());
    let c = strip_trailing_repeats_chars(b.as_slice(), fence.as_slice());
    let d = trim_chars(c.as_slice());
    from_chars(d.as_slice())
}

/// Where `c` first occurs in `s`.
pub open spec fn first_index(s: Seq<char>, c: char) -> Option<int>
    decreases s.len(),
{
    if s.len() == 0 {
        None
    } else {
        match first_index(s.drop_last(), c) {
            Some(i) => Some(i),
            None => if s.last() == c {
                Some(s.len() - 1)
            } else {
                None
            },
        }
    }
}

/// Where `c` last occurs in `s`.
pub open spec fn last_index(s: Seq<char>, c: char) -> Option<int>
    decreases s.len(),
{
    if s.len() == 0 {
        None
    } else if s.last() == c {
        Some(s.len() - 1)
    } else {
        last_index(s.drop_last(), c)
    }
}

pub(crate) fn first_index_of(s: &[char], c: char) -> (r: Option<usize>)
    ensures
        r matches Some(i) ==> first_index(s@, c) == Some(i as int) && i < s@.len(),
        r is None ==> first_index(s@, c) is None,
{
    let n = s.len();
    let mut i: usize = 0;
    while i < n
        invariant
            n == s@.len(),
            i <= n,
            first_index(s@.take(i as int), c) is None,
        decreases n - i,
    {
        assert(s@.take(i + 1).drop_last() =~= s@.take(i as int));
        if s[i] == c {
            proof {
                let t = s@.take(i + 1);
                assert(t.last() == c);
                lemma_first_index_extends(s@, c, (i + 1) as int);
            }
            return Some(i);
        }
        i += 1;
    }
    assert(s@.take(n as int) =~= s@);
    None
}

proof fn lemma_first_index_extends(s: Seq<char>, c: char, k: int)
    requires
        0 < k <= s.len(),
        first_index(s.take(k - 1), c) is None,
        s[k - 1] == c,
    ensures
        first_index(s, c) == Some(k - 1),
    decreases s.len(),
{
    assert(s.take(k).drop_last() =~= s.take(k - 1));
    if k < s.len() {
        assert(s.drop_last().take(k) =~= s.take(k));
        assert(s.drop_last().take(k - 1) =~= s.take(k - 1));
        lemma_first_index_extends(s.drop_last(), c, k);
    } else {
        assert(s.take(k) =~= s);
    }
}

fn last_index_of(s: &[char], c: char) -> (r: Option<usize>)
    ensures
        r matches Some(i) ==> last_index(s@, c) == Some(i as int) && i < s@.len(),
        r is None ==> last_index(s@, c) is None,
{
    let n = s.len();
    let mut i: usize = n;
    assert(s@.take(n as int) =~= s@);
    while i > 0
        invariant
            n == s@.len(),
            i <= n,
            last_index(s@, c) == last_index(s@.take(i as int), c),
        decreases i,
    {
        let ghost t = s@.take(i as int);
        assert(t.drop_last() =~= s@.take(i - 1));
        assert(t.last() == s@[i - 1]);
        if s[i - 1] == c {
            return Some(i - 1);
        }
        i -= 1;
    }
    None
}

/// Slicing from the first `[` to the last `]` when the last `]` comes before
/// the first `[` by more than one character, which `str` slicing refuses.
pub open spec fn array_slice_refused(s: Seq<char>) -> bool {
    match (first_index(s, '['), last_index(s, ']')) {
        (Some(a), Some(b)) => b + 1 < a,
        _ => false,
    }
}

/// The text from the first `[` through the last `]`.
pub open spec fn array_text(s: Seq<char>) -> Option<Seq<char>> {
    match (first_index(s, '['), last_index(s, ']')) {
        (Some(a), Some(b)) => Some(s.subrange(a, b + 1)),
        _ => None,
    }
}

pub fn bracketed_array(text: &str) -> (r: Option<String>)
    requires
        !array_slice_refused(text@),
    ensures
        r.deep_view() == array_text(text@),
{
    let v = to_chars(text);
    let first = first_index_of(v.as_slice(), '[');
    let last = last_index_of(v.as_slice(), ']');
    match first {
        Some(a) => match last {
            Some(b) => {
                let n = v.len();
                assert(b < n);
                Some(from_chars(subvec(v.as_slice(), a, b + 1).as_slice()))
            },
            None => None,
        },
        None => None,
    }
}

/// Scans an array's items from `i` on, collecting each `{...}` object that
/// closes at nesting depth zero; strings are skipped with their escapes, and a
/// `]` outside any object ends the array.
pub open spec fn scan_objects(
    s: Seq<char>,
    i: int,
    depth: int,
    in_string: bool,
    escaped: bool,
    start: int,
    found: Seq<Seq<char>>,
) -> Seq<Seq<char>>
    decreases s.len() - i,
{
    if i >= s.len() || i < 0 {
        found
    } else {
        let c = s[i];
        if in_string {
            if escaped {
                scan_objects(s, i + 1, depth, true, false, start, found)
            } else if c == '\\' {
                scan_objects(s, i + 1, depth, true, true, start, found)
            } else if c == '"' {
                scan_objects(s, i + 1, depth, false, false, start, found)
            } else {
                scan_objects(s, i + 1, depth, true, false, start, found)
            }
        } else if c == '"' && depth > 0 {
            scan_objects(s, i + 1, depth, true, false, start, found)
        } else if c == '{' {
            scan_objects(s, i + 1, depth + 1, false, false, if depth == 0 { i } else { start }, found)
        } else if c == '}' && depth > 0 {
            if depth == 1 {
                scan_objects(s, i + 1, 0, false, false, start, found.push(s.subrange(start, i + 1)))
            } else {
                scan_objects(s, i + 1, depth - 1, false, false, start, found)
            }
        } else if c == ']' && depth == 0 {
            found
        } else {
            scan_objects(s, i + 1, depth, false, false, start, found)
        }
    }
}

/// The complete objects of a possibly cut-off array: the texts of the objects
/// that close after the first `[`, or `None` when there is no `[`.
pub open spec fn complete_object_texts(s: Seq<char>) -> Option<Seq<Seq<char>>> {
    match first_index(s, '[') {
        Some(a) => Some(scan_objects(s, a + 1, 0, false, false, 0, Seq::empty())),
        None => None,
    }
}

pub fn complete_objects(text: &str) -> (r: Option<Vec<String>>)
    ensures
        r.deep_view() == complete_object_texts(text@),
{
    let v = to_chars(text);
    let n = v.len();
    let a = match first_index_of(v.as_slice(), '[') {
        Some(a) => a,
        None => return None,
    };
    let ghost s = v@;
    let mut found: Vec<Vec<char>> = Vec::new();
    let mut i: usize = a + 1;
    let mut depth: usize = 0;
    let mut in_string = false;
    let mut escaped = false;
    let mut start: usize = 0;
    assert(views(found@) =~= Seq::<Seq<char>>::empty());
    while i < n
        invariant
            s == v@,
            n == s.len(),
            a < n,
            a + 1 <= i <= n,
            depth <= i,
            depth > 0 ==> start < i,
            !in_string ==> !escaped,
            scan_objects(s, i as int, depth as int, in_string, escaped, start as int, views(found@))
                == scan_objects(s, a + 1, 0, false, false, 0, Seq::empty()),
        ensures
            views(found@) == scan_objects(s, a + 1, 0, false, false, 0, Seq::empty()),
        decreases n - i,
    {
        let c = v[i];
        let ghost d0 = depth as int;
        let ghost st0 = start as int;
        let ghost f0 = views(found@);
        let ghost in0 = in_string;
        let ghost esc0 = escaped;
        assert(s[i as int] == c);
        if in_string {
            if escaped {
                escaped = false;
            } else if c == '\\' {
                escaped = true;
            } else if c == '"' {
                in_string = false;
            }
        } else if c == '"' && depth > 0 {
            in_string = true;
        } else if c == '{' {
            if depth == 0 {
                start = i;
            }
            depth += 1;
        } else if c == '}' && depth > 0 {
            depth -= 1;
            if depth == 0 {
                let ghost before = views(found@);
                found.push(subvec(v.as_slice(), start, i + 1));
                assert(views(found@) =~= before.push(s.subrange(start as int, i + 1)));
            }
        } else if c == ']' && depth == 0 {
            assert(scan_objects(s, i as int, d0, in0, esc0, st0, f0) == f0);
            break;
        }
        assert(scan_objects(s, i as int, d0, in0, esc0, st0, f0) == scan_objects(
            s,
            i + 1,
            depth as int,
            in_string,
            escaped,
            start as int,
            views(found@),
        ));
        i += 1;
    }
    let out = crate::text::to_strings(&found);
    Some(out)
}

// ---------------------------------------------------------------------------
// What every chart satisfies
// ---------------------------------------------------------------------------

/// How many placed topics are on level `l`.
pub open spec fn placed_on_level(ps: Seq<PlaceView>, l: int) -> nat
    decreases ps.len(),
{
    if ps.len() == 0 {
        0
    } else {
        placed_on_level(ps.drop_last(), l) + if ps.last().2 == l {
            1nat
        } else {
            0nat
        }
    }
}

pub open spec fn ids_distinct(ps: Seq<PlaceView>) -> bool {
    forall|i: int, j: int| 0 <= i < j < ps.len() ==> (#[trigger] ps[i]).0 != (#[trigger] ps[j]).0
}

proof fn lemma_of_level(es: Seq<Entry>, l: int)
    ensures
        forall|k: int| 0 <= k < of_level(es, l).len() ==> (#[trigger] of_level(es, l)[k]).0 == l,
    decreases es.len(),
{
    if es.len() > 0 {
        lemma_of_level(es.drop_last(), l);
        let prev = of_level(es.drop_last(), l);
        assert forall|k: int| 0 <= k < of_level(es, l).len() implies (#[trigger] of_level(es, l)[k]).0 == l by {
            if k < prev.len() {
                assert(of_level(es, l)[k] == prev[k]);
            }
        }
    }
}

proof fn lemma_pick_round_bounds(c: Seq<int>, sizes: Seq<int>, target: int, l: int)
    requires
        c.len() == 5,
        forall|i: int| 0 <= i < 5 ==> 0 <= #[trigger] c[i] <= ICEBERG_MAX_ITEMS_PER_LEVEL,
        total(c) <= target,
    ensures
        pick_round(c, sizes, target, l).len() == 5,
        forall|i: int| 0 <= i < 5 ==> 0 <= #[trigger] pick_round(c, sizes, target, l)[i] <= ICEBERG_MAX_ITEMS_PER_LEVEL,
        total(pick_round(c, sizes, target, l)) <= target,
    decreases 5 - l,
{
    if 0 <= l < 5 {
        if total(c) < target && c[l] < ICEBERG_MAX_ITEMS_PER_LEVEL && c[l] < sizes[l] {
            let d = c.update(l, c[l] + 1);
            assert(total(d) == total(c) + 1);
            lemma_pick_round_bounds(d, sizes, target, l + 1);
        } else {
            lemma_pick_round_bounds(c, sizes, target, l + 1);
        }
    }
}

proof fn lemma_pick_rounds_bounds(c: Seq<int>, sizes: Seq<int>, target: int, k: nat)
    requires
        c.len() == 5,
        forall|i: int| 0 <= i < 5 ==> 0 <= #[trigger] c[i] <= ICEBERG_MAX_ITEMS_PER_LEVEL,
        total(c) <= target,
    ensures
        pick_rounds(c, sizes, target, k).len() == 5,
        forall|i: int| 0 <= i < 5 ==> 0 <= #[trigger] pick_rounds(c, sizes, target, k)[i] <= ICEBERG_MAX_ITEMS_PER_LEVEL,
        total(pick_rounds(c, sizes, target, k)) <= target,
    decreases k,
{
    if k > 0 {
        lemma_pick_round_bounds(c, sizes, target, 0);
        lemma_pick_rounds_bounds(pick_round(c, sizes, target, 0), sizes, target, (k - 1) as nat);
    }
}

proof fn lemma_place_level(acc: Seq<PlaceView>, bucket: Seq<Entry>, j: nat, l: int)
    requires
        j <= bucket.len(),
        forall|k: int| 0 <= k < bucket.len() ==> (#[trigger] bucket[k]).0 == l,
        ids_distinct(acc),
    ensures
        place_level(acc, bucket, j).len() == acc.len() + j,
        ids_distinct(place_level(acc, bucket, j)),
        forall|m: int| #[trigger] placed_on_level(place_level(acc, bucket, j), m) == placed_on_level(acc, m) + if m == l {
            j
        } else {
            0
        },
    decreases j,
{
    if j > 0 {
        lemma_place_level(acc, bucket, (j - 1) as nat, l);
        let prev = place_level(acc, bucket, (j - 1) as nat);
        let e = bucket[j - 1];
        let id = unique_slug_of(id_text(e.0, j - 1, e.2), place_ids(prev));
        lemma_unique_slug_is_fresh(id_text(e.0, j - 1, e.2), place_ids(prev));
        let next = place_level(acc, bucket, j);
        assert(next == prev.push((id, e.3, e.0, j - 1, e.1)));
        assert forall|a: int, b: int| 0 <= a < b < next.len() implies (#[trigger] next[a]).0 != (
        #[trigger] next[b]).0 by {
            if b == next.len() - 1 {
                assert(place_ids(prev)[a] == prev[a].0);
            } else {
                assert(next[a] == prev[a]);
                assert(next[b] == prev[b]);
            }
        }
        assert(next.drop_last() =~= prev);
        assert(next.last().2 == l);
        assert forall|m: int| #[trigger] placed_on_level(next, m) == placed_on_level(acc, m) + if m == l {
            j
        } else {
            0
        } by {
            assert(placed_on_level(next, m) == placed_on_level(prev, m) + if next.last().2 == m {
                1nat
            } else {
                0nat
            });
        }
    }
}

proof fn lemma_place_from(es: Seq<Entry>, counts: Seq<int>, l: int)
    requires
        counts.len() == 5,
        forall|i: int| 0 <= i < 5 ==> 0 <= #[trigger] counts[i] <= of_level(es, i + 1).len(),
        0 <= l <= 5,
    ensures
        place_from(es, counts, l).len() == if l == 0 {
            0
        } else if l == 1 {
            counts[0]
        } else if l == 2 {
            counts[0] + counts[1]
        } else if l == 3 {
            counts[0] + counts[1] + counts[2]
        } else if l == 4 {
            counts[0] + counts[1] + counts[2] + counts[3]
        } else {
            total(counts)
        },
        ids_distinct(place_from(es, counts, l)),
        forall|m: int| #[trigger] placed_on_level(place_from(es, counts, l), m) == if 1 <= m <= l {
            counts[m - 1]
        } else {
            0
        },
    decreases l,
{
    if l > 0 {
        lemma_place_from(es, counts, l - 1);
        lemma_of_level(es, l);
        assert(counts[l - 1] <= of_level(es, l - 1 + 1).len());
        lemma_place_level(place_from(es, counts, l - 1), of_level(es, l), counts[l - 1] as nat, l);
    } else {
        assert forall|m: int| #[trigger] placed_on_level(place_from(es, counts, l), m) == 0 by {}
    }
}

proof fn lemma_pick_round_within(c: Seq<int>, sizes: Seq<int>, target: int, l: int)
    requires
        c.len() == 5,
        sizes.len() == 5,
        forall|i: int| 0 <= i < 5 ==> #[trigger] c[i] <= sizes[i],
    ensures
        pick_round(c, sizes, target, l).len() == 5,
        forall|i: int| 0 <= i < 5 ==> #[trigger] pick_round(c, sizes, target, l)[i] <= sizes[i],
    decreases 5 - l,
{
    if 0 <= l < 5 {
        if total(c) < target && c[l] < ICEBERG_MAX_ITEMS_PER_LEVEL && c[l] < sizes[l] {
            lemma_pick_round_within(c.update(l, c[l] + 1), sizes, target, l + 1);
        } else {
            lemma_pick_round_within(c, sizes, target, l + 1);
        }
    }
}

proof fn lemma_pick_rounds_within(c: Seq<int>, sizes: Seq<int>, target: int, k: nat)
    requires
        c.len() == 5,
        sizes.len() == 5,
        forall|i: int| 0 <= i < 5 ==> #[trigger] c[i] <= sizes[i],
    ensures
        forall|i: int| 0 <= i < 5 ==> #[trigger] pick_rounds(c, sizes, target, k)[i] <= sizes[i],
    decreases k,
{
    if k > 0 {
        lemma_pick_round_within(c, sizes, target, 0);
        lemma_pick_rounds_within(pick_round(c, sizes, target, 0), sizes, target, (k - 1) as nat);
        assert(pick_rounds(c, sizes, target, k) == pick_rounds(
            pick_round(c, sizes, target, 0),
            sizes,
            target,
            (k - 1) as nat,
        ));
    }
}

proof fn lemma_picked_within_sizes(es: Seq<Entry>, target: int)
    ensures
        forall|i: int| 0 <= i < 5 ==> #[trigger] picked_counts(es, target)[i] <= of_level(es, i + 1).len(),
{
    let sizes = level_sizes(es);
    let zero = seq![0int, 0, 0, 0, 0];
    lemma_pick_rounds_within(zero, sizes, target, ICEBERG_MAX_ITEMS_PER_LEVEL as nat);
    assert forall|i: int| 0 <= i < 5 implies #[trigger] picked_counts(es, target)[i] <= of_level(es, i + 1).len() by {
        assert(sizes[i] == of_level(es, i + 1).len());
    }
}

/// A chart holds at most its target number of topics, at most ten on any
/// level, and each on one of the five levels.
pub proof fn lemma_iceberg_layout_bounded(cs: Seq<IcebergCandidate>, requested: Option<usize>)
    ensures
        iceberg_layout(cs, requested).len() <= chart_target(requested, cs.len() as int),
        forall|l: int| #[trigger] placed_on_level(iceberg_layout(cs, requested), l)
            <= ICEBERG_MAX_ITEMS_PER_LEVEL,
        forall|l: int| (l < 1 || l > 5) ==> #[trigger] placed_on_level(iceberg_layout(cs, requested), l) == 0,
{
    let ordered = sort_by(stretched(accepted(cs)), chart_order());
    let target = chart_target(requested, cs.len() as int);
    let counts = picked_counts(ordered, target);
    let zero = seq![0int, 0, 0, 0, 0];
    assert(total(zero) == 0);
    lemma_pick_rounds_bounds(zero, level_sizes(ordered), target, ICEBERG_MAX_ITEMS_PER_LEVEL as nat);
    lemma_picked_within_sizes(ordered, target);
    lemma_place_from(ordered, counts, 5);
}

/// No two topics on a chart share an id.
pub proof fn lemma_iceberg_ids_distinct(cs: Seq<IcebergCandidate>, requested: Option<usize>)
    ensures
        ids_distinct(iceberg_layout(cs, requested)),
{
    let ordered = sort_by(stretched(accepted(cs)), chart_order());
    let target = chart_target(requested, cs.len() as int);
    let zero = seq![0int, 0, 0, 0, 0];
    assert(total(zero) == 0);
    lemma_pick_rounds_bounds(zero, level_sizes(ordered), target, ICEBERG_MAX_ITEMS_PER_LEVEL as nat);
    lemma_picked_within_sizes(ordered, target);
    lemma_place_from(ordered, picked_counts(ordered, target), 5);
}

proof fn lemma_count_level_has(es: Seq<Entry>, l: int)
    requires
        count_level(es, l) > 0,
    ensures
        exists|p: int| 0 <= p < es.len() && (#[trigger] es[p]).0 == l,
    decreases es.len(),
{
    if es.last().0 == l {
        assert(es[es.len() - 1].0 == l);
    } else {
        lemma_count_level_has(es.drop_last(), l);
        let p = choose|p: int| 0 <= p < es.drop_last().len() && (#[trigger] es.drop_last()[p]).0 == l;
        assert(es[p] == es.drop_last()[p]);
    }
}

proof fn lemma_of_level_has(es: Seq<Entry>, l: int, p: int)
    requires
        0 <= p < es.len(),
        es[p].0 == l,
    ensures
        of_level(es, l).len() >= 1,
    decreases es.len(),
{
    if es.last().0 != l {
        assert(p < es.len() - 1);
        assert(es.drop_last()[p] == es[p]);
        lemma_of_level_has(es.drop_last(), l, p);
    }
}

/// After the first `big_r` ranks are applied, the entry ranked `r` sits on the
/// level of its rank.
proof fn lemma_apply_ranks_level(es: Seq<Entry>, order: Seq<RankKey>, big_r: nat, r: int)
    requires
        order.len() == es.len(),
        forall|k: int| 0 <= k < order.len() ==> 0 <= (#[trigger] order[k]).2 < es.len(),
        forall|i: int, j: int| 0 <= i < j < order.len() ==> (#[trigger] order[i]).2 != (#[trigger] order[j]).2,
        0 <= r < big_r <= order.len(),
    ensures
        apply_ranks(es, order, big_r)[order[r].2].0 == stretch_level(r, es.len() as int),
    decreases big_r,
{
    let q = order[r].2;
    if r == big_r - 1 {
        lemma_apply_ranks_keeps(es, order, (big_r - 1) as nat, q);
    } else {
        lemma_apply_ranks_level(es, order, (big_r - 1) as nat, r);
        lemma_apply_ranks_keeps(es, order, (big_r - 1) as nat, q);
        assert(order[big_r - 1].2 != q);
    }
}

/// Some rank of `n >= 5` lands on level `l`.
proof fn lemma_rank_for_level(n: int, l: int) -> (r: int)
    requires
        n >= 5,
        1 <= l <= 5,
    ensures
        0 <= r < n,
        stretch_level(r, n) == l,
{
    let x = (l - 1) * n + 4;
    assert(0 <= (l - 1) * n <= 4 * n) by (nonlinear_arith)
        requires
            1 <= l <= 5,
            n >= 5,
    ;
    vstd::arithmetic::div_mod::lemma_fundamental_div_mod(x, 5);
    let r = x / 5;
    assert(x - 4 <= 5 * r <= x);
    vstd::arithmetic::div_mod::lemma_fundamental_div_mod_converse(r * 5, n, l - 1, r * 5 - (l - 1) * n);
    r
}

/// With at least five entries, every level has one once the levels are
/// stretched.
proof fn lemma_stretched_covers(es: Seq<Entry>, l: int)
    requires
        es.len() >= 5,
        1 <= l <= 5,
    ensures
        exists|p: int| 0 <= p < stretched(es).len() && (#[trigger] stretched(es)[p]).0 == l,
{
    if missing_level(es) {
        let keys = rank_keys(es);
        let order = sort_by(keys, rank_order());
        let key = |k: RankKey| k.2;
        assert forall|i: int, j: int| 0 <= i < j < keys.len() implies key(#[trigger] keys[i]) != key(
        #[trigger] keys[j]) by {}
        crate::order::lemma_sort_by_keeps_keys_distinct(keys, rank_order(), key);
        assert forall|k: int| 0 <= k < order.len() implies 0 <= (#[trigger] order[k]).2 < es.len() by {
            assert(keys.contains(order[k]));
            let j = choose|j: int| 0 <= j < keys.len() && keys[j] == order[k];
        }
        assert forall|i: int, j: int| 0 <= i < j < order.len() implies (#[trigger] order[i]).2 != (
        #[trigger] order[j]).2 by {
            assert(key(order[i]) != key(order[j]));
        }
        let r = lemma_rank_for_level(es.len() as int, l);
        lemma_apply_ranks_level(es, order, es.len(), r);
        lemma_apply_ranks_keeps(es, order, es.len(), order[r].2);
        let p = order[r].2;
        assert(stretched(es)[p].0 == l);
    } else {
        assert(count_level(es, l) > 0) by {
            if l == 1 {
            } else if l == 2 {
            } else if l == 3 {
            } else if l == 4 {
            } else {
            }
        }
        lemma_count_level_has(es, l);
        assert(stretched(es) == es);
    }
}

proof fn lemma_pick_round_grows(c: Seq<int>, sizes: Seq<int>, target: int, l: int)
    requires
        c.len() == 5,
    ensures
        pick_round(c, sizes, target, l).len() == 5,
        forall|i: int| 0 <= i < 5 ==> #[trigger] pick_round(c, sizes, target, l)[i] >= c[i],
    decreases 5 - l,
{
    if 0 <= l < 5 {
        if total(c) < target && c[l] < ICEBERG_MAX_ITEMS_PER_LEVEL && c[l] < sizes[l] {
            lemma_pick_round_grows(c.update(l, c[l] + 1), sizes, target, l + 1);
        } else {
            lemma_pick_round_grows(c, sizes, target, l + 1);
        }
    }
}

proof fn lemma_pick_rounds_grows(c: Seq<int>, sizes: Seq<int>, target: int, k: nat)
    requires
        c.len() == 5,
    ensures
        pick_rounds(c, sizes, target, k).len() == 5,
        forall|i: int| 0 <= i < 5 ==> #[trigger] pick_rounds(c, sizes, target, k)[i] >= c[i],
    decreases k,
{
    if k > 0 {
        let next = pick_round(c, sizes, target, 0);
        lemma_pick_round_grows(c, sizes, target, 0);
        lemma_pick_rounds_grows(next, sizes, target, (k - 1) as nat);
        assert(pick_rounds(c, sizes, target, k) == pick_rounds(next, sizes, target, (k - 1) as nat));
        assert forall|i: int| 0 <= i < 5 implies #[trigger] pick_rounds(c, sizes, target, k)[i] >= c[i] by {
            assert(next[i] >= c[i]);
        }
    }
}

/// The first round takes one topic from every level that has one.
proof fn lemma_first_round_takes_every_level(sizes: Seq<int>, target: int)
    requires
        sizes.len() == 5,
        forall|i: int| 0 <= i < 5 ==> #[trigger] sizes[i] >= 1,
        target >= 5,
    ensures
        pick_round(seq![0int, 0, 0, 0, 0], sizes, target, 0) == seq![1int, 1, 1, 1, 1],
{
    let c0 = seq![0int, 0, 0, 0, 0];
    let c1 = c0.update(0, 1);
    let c2 = c1.update(1, 1);
    let c3 = c2.update(2, 1);
    let c4 = c3.update(3, 1);
    let c5 = c4.update(4, 1);
    assert(sizes[0] >= 1 && sizes[1] >= 1 && sizes[2] >= 1 && sizes[3] >= 1 && sizes[4] >= 1);
    assert(pick_round(c5, sizes, target, 5) == c5);
    assert(pick_round(c4, sizes, target, 4) == c5);
    assert(pick_round(c3, sizes, target, 3) == c5);
    assert(pick_round(c2, sizes, target, 2) == c5);
    assert(pick_round(c1, sizes, target, 1) == c5);
    assert(pick_round(c0, sizes, target, 0) == c5);
    assert(c5 =~= seq![1int, 1, 1, 1, 1]);
}

/// A chart made from at least five usable topics has a topic on every one of
/// the five levels: compressed scores are spread over all levels rather than
/// leaving deep levels empty.
pub proof fn lemma_iceberg_covers_every_level(cs: Seq<IcebergCandidate>, requested: Option<usize>)
    requires
        accepted(cs).len() >= 5,
    ensures
        forall|l: int| 1 <= l <= 5 ==> #[trigger] placed_on_level(iceberg_layout(cs, requested), l) >= 1,
{
    let es = stretched(accepted(cs));
    let ordered = sort_by(es, chart_order());
    let target = chart_target(requested, cs.len() as int);
    let sizes = level_sizes(ordered);
    lemma_sort_by_keeps(es, chart_order());
    assert forall|i: int| 0 <= i < 5 implies #[trigger] sizes[i] >= 1 by {
        lemma_stretched_covers(accepted(cs), i + 1);
        let p = choose|p: int| 0 <= p < es.len() && (#[trigger] es[p]).0 == i + 1;
        assert(ordered.contains(es[p]));
        let q = choose|q: int| 0 <= q < ordered.len() && ordered[q] == es[p];
        lemma_of_level_has(ordered, i + 1, q);
    }
    let zero = seq![0int, 0, 0, 0, 0];
    lemma_first_round_takes_every_level(sizes, target);
    let first = pick_round(zero, sizes, target, 0);
    lemma_pick_round_grows(zero, sizes, target, 0);
    lemma_pick_rounds_grows(first, sizes, target, (ICEBERG_MAX_ITEMS_PER_LEVEL - 1) as nat);
    let counts = picked_counts(ordered, target);
    assert(counts == pick_rounds(first, sizes, target, (ICEBERG_MAX_ITEMS_PER_LEVEL - 1) as nat));
    assert(total(zero) == 0);
    lemma_pick_rounds_bounds(zero, sizes, target, ICEBERG_MAX_ITEMS_PER_LEVEL as nat);
    lemma_picked_within_sizes(ordered, target);
    lemma_place_from(ordered, counts, 5);
    assert forall|l: int| 1 <= l <= 5 implies #[trigger] placed_on_level(iceberg_layout(cs, requested), l) >= 1 by {
        assert(counts[l - 1] >= first[l - 1]);
    }
}

} // verus!
