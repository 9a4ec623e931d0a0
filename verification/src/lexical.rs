//! Lexical relevance of a passage to a question, used to pick passages of the
//! current page when no embedding model is available.
//!
//! Scores are in sixtieths of a point, which holds every score exactly: a
//! term found `k` times scores `2 + len/10 + (k - 1)/2` points, a term whose
//! first five or six bytes are found `1.25 + stem/12`, and a plural whose
//! singular is found `1.5 + len/12`, lengths counted in UTF-8 bytes.

use vstd::prelude::*;
use vstd::utf8::{encode_utf8, decode_utf8, is_char_boundary};
use crate::text::{matches_at, contains_seq, match_at, to_chars, str_contains, to_lowercase, unicode_lowercase, first_n};
use crate::library::{query_terms, query_term_list};
use crate::text::string_views;
use crate::order::{sort_by, lemma_insert_pos_by, lemma_sort_by_len};

verus! {

/// Sixtieths of a point per point.
pub const LEXICAL_SCALE: u128 = 60;

/// Bytes in the UTF-8 encoding of `s`, as `str::len` reports them.
pub open spec fn utf8_len(s: Seq<char>) -> int {
    (encode_utf8(s).len() as usize) as int
}

/// Non-overlapping occurrences of `t` in `h`, scanned left to right
/// (`str::matches(..).count()`); an empty `t` matches at every boundary.
pub open spec fn match_count(h: Seq<char>, t: Seq<char>) -> nat
    decreases h.len(),
{
    if t.len() == 0 {
        h.len() + 1
    } else if h.len() < t.len() {
        0
    } else if matches_at(h, t, 0) {
        1 + match_count(h.subrange(t.len() as int, h.len() as int), t)
    } else {
        match_count(h.drop_first(), t)
    }
}

/// How many leading bytes of a term stand for its stem: at most six.
pub open spec fn stem_bytes(t: Seq<char>) -> int {
    if utf8_len(t) < 6 {
        utf8_len(t)
    } else {
        6
    }
}

/// The stem is cut from the term by bytes, which only works where the cut
/// falls between two characters.
pub open spec fn stem_cut_ok(t: Seq<char>) -> bool {
    stem_bytes(t) < 5 || is_char_boundary(encode_utf8(t), stem_bytes(t))
}

/// The characters in the first `k` bytes of `t`.
pub open spec fn byte_prefix(t: Seq<char>, k: int) -> Seq<char> {
    decode_utf8(encode_utf8(t).subrange(0, k))
}

/// How well `term` is matched by the (lower-cased) `haystack`.
pub open spec fn term_score(haystack: Seq<char>, term: Seq<char>) -> int {
    let found = match_count(haystack, term);
    let stem = stem_bytes(term);
    if found > 0 {
        120 + 6 * utf8_len(term) + 30 * (found - 1)
    } else if stem >= 5 && contains_seq(haystack, byte_prefix(term, stem)) {
        75 + 5 * stem
    } else if term.len() > 0 && term.last() == 's' && utf8_len(term.drop_last()) >= 5 && contains_seq(
        haystack,
        term.drop_last(),
    ) {
        90 + 5 * utf8_len(term.drop_last())
    } else {
        0
    }
}

/// The sum of the scores of the first `k` terms.
pub open spec fn terms_score(haystack: Seq<char>, terms: Seq<Seq<char>>, k: int) -> int
    decreases k,
{
    if k <= 0 {
        0
    } else {
        terms_score(haystack, terms, k - 1) + term_score(haystack, terms[k - 1])
    }
}

/// How well `text` answers `query`: the scores of the query's terms against
/// the lower-cased text, summed.
pub open spec fn relevance(text: Seq<char>, query: Seq<char>) -> int {
    let terms = query_term_list(query);
    terms_score(unicode_lowercase(text), terms, terms.len() as int)
}

/// Sums past the largest `u128` stay at the largest `u128`.
pub open spec fn capped(x: int) -> int {
    if x > u128::MAX {
        u128::MAX as int
    } else {
        x
    }
}

/// Scoring `term` against `haystack` needs the stem cut only where the
/// whole term is not found.
pub open spec fn scorable(haystack: Seq<char>, term: Seq<char>) -> bool {
    match_count(haystack, term) > 0 || stem_cut_ok(term)
}

/// Every term of the query can be scored against the lower-cased text.
pub open spec fn relevance_defined(text: Seq<char>, query: Seq<char>) -> bool {
    forall|i: int|
        0 <= i < query_term_list(query).len() ==> scorable(
            unicode_lowercase(text),
            #[trigger] query_term_list(query)[i],
        )
}

proof fn lemma_match_count_bound(h: Seq<char>, t: Seq<char>)
    ensures
        match_count(h, t) <= h.len() + 1,
        t.len() > 0 ==> match_count(h, t) <= h.len(),
    decreases h.len(),
{
    if t.len() > 0 && h.len() >= t.len() {
        if matches_at(h, t, 0) {
            lemma_match_count_bound(h.subrange(t.len() as int, h.len() as int), t);
        } else {
            lemma_match_count_bound(h.drop_first(), t);
        }
    }
}

/// `str::matches(..).count()`.
fn count_matches(h: &[char], t: &[char]) -> (r: usize)
    requires
        t@.len() > 0 || h@.len() < usize::MAX,
    ensures
        r == match_count(h@, t@),
{
    let n = h.len();
    let m = t.len();
    if m == 0 {
        return n + 1;
    }
    let mut count: usize = 0;
    let mut i: usize = 0;
    assert(h@.subrange(0, n as int) =~= h@);
    proof {
        lemma_match_count_bound(h@, t@);
    }
    while i < n && m <= n - i
        invariant
            n == h@.len(),
            m == t@.len(),
            m > 0,
            i <= n,
            count + match_count(h@.subrange(i as int, n as int), t@) == match_count(h@, t@),
            match_count(h@, t@) <= n,
        decreases n - i,
    {
        let ghost rest = h@.subrange(i as int, n as int);
        proof {
            lemma_match_count_bound(h@, t@);
            lemma_match_count_bound(rest, t@);
        }
        if match_at(h, t, i) {
            assert(matches_at(rest, t@, 0)) by {
                assert(rest.subrange(0, m as int) =~= h@.subrange(i as int, i + m));
            }
            assert(rest.subrange(m as int, rest.len() as int) =~= h@.subrange(i + m, n as int));
            count += 1;
            i += m;
        } else {
            assert(!matches_at(rest, t@, 0)) by {
                assert(rest.subrange(0, m as int) =~= h@.subrange(i as int, i + m));
            }
            assert(rest.drop_first() =~= h@.subrange(i + 1, n as int));
            i += 1;
        }
    }
    proof {
        assert(match_count(h@.subrange(i as int, n as int), t@) == 0);
    }
    count
}

fn ends_with_s(t: &[char]) -> (r: bool)
    ensures
        r == (t@.len() > 0 && t@.last() == 's'),
{
    t.len() > 0 && t[t.len() - 1] == 's'
}

/// How well `term` is matched in `haystack` (see [`term_score`]), in
/// sixtieths of a point.
pub fn lexical_term_score(haystack: &str, term: &str) -> (r: u128)
    requires
        term@.len() > 0 || haystack@.len() < usize::MAX,
        scorable(haystack@, term@),
    ensures
        r == term_score(haystack@, term@),
{
    let h = to_chars(haystack);
    let t = to_chars(term);
    proof {
        lemma_match_count_bound(h@, t@);
    }
    let found = count_matches(h.as_slice(), t.as_slice());
    let len = term.len();
    if found > 0 {
        return 120 + 6 * (len as u128) + 30 * ((found - 1) as u128);
    }
    let stem = if len < 6 {
        len
    } else {
        6
    };
    if stem >= 5 {
        let (head, _) = term.split_at(stem);
        proof {
            vstd::utf8::encode_utf8_decode_utf8(head@);
            assert(head@ == byte_prefix(term@, stem as int));
        }
        if str_contains(haystack, head) {
            return 75 + 5 * (stem as u128);
        }
    }
    if ends_with_s(t.as_slice()) {
        let singular = crate::text::from_chars(crate::text::take_chars(t.as_slice(), t.len() - 1).as_slice());
        assert(singular@ =~= term@.drop_last());
        let singular_len = singular.as_str().len();
        if singular_len >= 5 && str_contains(haystack, singular.as_str()) {
            return 90 + 5 * (singular_len as u128);
        }
    }
    0
}

proof fn lemma_terms_nonempty(parts: Seq<Seq<char>>)
    ensures
        forall|i: int| 0 <= i < crate::library::terms_of(parts).len() ==> (#[trigger] crate::library::terms_of(parts)[i]).len() > 0,
    decreases parts.len(),
{
    if parts.len() > 0 {
        lemma_terms_nonempty(parts.drop_last());
        let prev = crate::library::terms_of(parts.drop_last());
        let cur = crate::library::terms_of(parts);
        assert forall|i: int| 0 <= i < cur.len() implies (#[trigger] cur[i]).len() > 0 by {
            if i < prev.len() {
                assert(cur[i] == prev[i]);
            } else {
                let t = cur[i];
                if t.len() == 0 {
                    assert(encode_utf8(t) =~= Seq::<u8>::empty());
                }
            }
        }
    }
}

proof fn lemma_capped_step(total: int, x: int, y: int)
    requires
        0 <= x,
        0 <= y,
        total == capped(x),
        y <= u128::MAX,
    ensures
        capped(x + y) == if total + y > u128::MAX {
            u128::MAX as int
        } else {
            total + y
        },
{
}

/// How well `text` answers `query` (see [`relevance`]), in sixtieths of a
/// point, or `None` where a term's stem would have to be cut inside a
/// character.
fn try_relevance(text: &str, terms: &Vec<String>) -> (r: Option<u128>)
    requires
        forall|i: int| 0 <= i < terms@.len() ==> (#[trigger] terms@[i])@.len() > 0,
    ensures
        match r {
            Some(v) => (forall|i: int|
                0 <= i < terms@.len() ==> scorable(unicode_lowercase(text@), #[trigger] terms@[i]@)) && v
                == capped(terms_score(unicode_lowercase(text@), string_views(terms@), terms@.len() as int)),
            None => exists|i: int|
                0 <= i < terms@.len() && !scorable(unicode_lowercase(text@), #[trigger] terms@[i]@),
        },
{
    if terms.len() == 0 {
        return Some(0);
    }
    let haystack = to_lowercase(text);
    let ghost h = haystack@;
    let ghost ts = string_views(terms@);
    let mut total: u128 = 0;
    let n = terms.len();
    let mut i: usize = 0;
    while i < n
        invariant
            n == terms@.len(),
            h == haystack@,
            h == unicode_lowercase(text@),
            ts == string_views(terms@),
            i <= n,
            forall|k: int| 0 <= k < terms@.len() ==> (#[trigger] terms@[k])@.len() > 0,
            forall|k: int| 0 <= k < i ==> scorable(h, #[trigger] terms@[k]@),
            total == capped(terms_score(h, ts, i as int)),
        decreases n - i,
    {
        let term = terms[i].as_str();
        assert(ts[i as int] == term@);
        let h_chars = to_chars(haystack.as_str());
        let t_chars = to_chars(term);
        proof {
            lemma_match_count_bound(h, term@);
        }
        let found = count_matches(h_chars.as_slice(), t_chars.as_slice());
        if found == 0 {
            let len = term.len();
            let stem = if len < 6 {
                len
            } else {
                6
            };
            if stem >= 5 && !term.is_char_boundary(stem) {
                return None;
            }
        }
        let score = lexical_term_score(haystack.as_str(), term);
        proof {
            lemma_terms_score_nonneg(h, ts, i as int);
            lemma_capped_step(total as int, terms_score(h, ts, i as int), score as int);
        }
        total = total.saturating_add(score);
        i += 1;
    }
    Some(total)
}

proof fn lemma_terms_score_nonneg(h: Seq<char>, ts: Seq<Seq<char>>, k: int)
    ensures
        terms_score(h, ts, k) >= 0,
    decreases k,
{
    if k > 0 {
        lemma_terms_score_nonneg(h, ts, k - 1);
    }
}

/// How well `text` answers `query` (see [`relevance`]), in sixtieths of a
/// point; a total beyond the largest `u128` stays there.
pub fn lexical_relevance_score(text: &str, query: &str) -> (r: u128)
    requires
        relevance_defined(text@, query@),
    ensures
        r == capped(relevance(text@, query@)),
{
    let terms = query_terms(query);
    proof {
        lemma_terms_nonempty(crate::air::split_non_alnum(query@));
        assert forall|i: int| 0 <= i < terms@.len() implies (#[trigger] terms@[i])@.len() > 0 by {
            assert(string_views(terms@)[i] == terms@[i]@);
        }
    }
    match try_relevance(text, &terms) {
        Some(v) => v,
        None => {
            proof {
                let i = choose|i: int| 0 <= i < terms@.len() && !scorable(unicode_lowercase(text@), #[trigger] terms@[i]@);
                assert(string_views(terms@)[i] == terms@[i]@);
            }
            0
        },
    }
}

/// How well `text` answers `query` (see [`relevance`]) where every term can
/// be scored; `None` where a term's stem would have to be cut inside a
/// character.
pub fn try_lexical_relevance_score(text: &str, query: &str) -> (r: Option<u128>)
    ensures
        r is None <==> !relevance_defined(text@, query@),
        r matches Some(v) ==> v == capped(relevance(text@, query@)),
{
    let terms = query_terms(query);
    proof {
        lemma_terms_nonempty(crate::air::split_non_alnum(query@));
        assert forall|i: int| 0 <= i < terms@.len() implies (#[trigger] terms@[i])@.len() > 0 by {
            assert(string_views(terms@)[i] == terms@[i]@);
        }
    }
    let r = try_relevance(text, &terms);
    proof {
        match r {
            Some(_) => {
                assert forall|i: int| 0 <= i < query_term_list(query@).len() implies scorable(
                    unicode_lowercase(text@),
                    #[trigger] query_term_list(query@)[i],
                ) by {
                    assert(string_views(terms@)[i] == terms@[i]@);
                }
            },
            None => {
                let i = choose|i: int| 0 <= i < terms@.len() && !scorable(unicode_lowercase(text@), #[trigger] terms@[i]@);
                assert(string_views(terms@)[i] == terms@[i]@);
                assert(!scorable(unicode_lowercase(text@), query_term_list(query@)[i]));
            },
        }
    }
    r
}

/// `(chunk index, score)` for each of the first `k` chunks that scores above
/// zero, in page order.
pub open spec fn scored_chunks(chunks: Seq<Seq<char>>, query: Seq<char>, k: int) -> Seq<(int, int)>
    decreases k,
{
    if k <= 0 {
        Seq::empty()
    } else {
        let prev = scored_chunks(chunks, query, k - 1);
        let v = capped(relevance(chunks[k - 1], query));
        if v > 0 {
            prev.push((k - 1, v))
        } else {
            prev
        }
    }
}

/// Higher scores first; equal scores keep page order.
pub open spec fn higher_first() -> spec_fn((int, int), (int, int)) -> bool {
    |a: (int, int), b: (int, int)| a.1 >= b.1
}

/// The passages to cite for `query`: none for a `limit` of 0 or an empty
/// page; else the scoring passages, best first, at most `limit` of them; and
/// where none scores, the first passage, with score 0.
pub open spec fn lexical_ranking(chunks: Seq<Seq<char>>, query: Seq<char>, limit: int) -> Seq<(int, int)> {
    if limit <= 0 || chunks.len() == 0 {
        Seq::empty()
    } else {
        let ranked = sort_by(scored_chunks(chunks, query, chunks.len() as int), higher_first());
        if ranked.len() == 0 {
            seq![(0int, 0int)]
        } else {
            first_n(ranked, limit as nat)
        }
    }
}

/// Every passage can be scored against the query.
pub open spec fn ranking_defined(chunks: Seq<Seq<char>>, query: Seq<char>) -> bool {
    forall|i: int| 0 <= i < chunks.len() ==> relevance_defined(#[trigger] chunks[i], query)
}

pub open spec fn entry_ints(v: Seq<(usize, u128)>) -> Seq<(int, int)> {
    v.map_values(|e: (usize, u128)| (e.0 as int, e.1 as int))
}

/// The passages of a page to cite for `query` when no embedding model is
/// available (see [`lexical_ranking`]), as `(chunk index, score)`. `None`
/// where some passage cannot be scored because a term's stem would be cut
/// inside a character.
pub fn rank_chunks_lexically(chunks: &[String], query: &str, limit: usize) -> (r: Option<Vec<(usize, u128)>>)
    ensures
        r is None <==> (limit > 0 && !ranking_defined(string_views(chunks@), query@)),
        r matches Some(v) ==> entry_ints(v@) == lexical_ranking(string_views(chunks@), query@, limit as int),
{
    let ghost cv = string_views(chunks@);
    if limit == 0 || chunks.len() == 0 {
        let none: Vec<(usize, u128)> = Vec::new();
        assert(entry_ints(none@) =~= Seq::<(int, int)>::empty());
        return Some(none);
    }
    let terms = query_terms(query);
    proof {
        lemma_terms_nonempty(crate::air::split_non_alnum(query@));
        assert forall|i: int| 0 <= i < terms@.len() implies (#[trigger] terms@[i])@.len() > 0 by {
            assert(string_views(terms@)[i] == terms@[i]@);
        }
    }
    let n = chunks.len();
    let mut scored: Vec<(usize, u128)> = Vec::new();
    let mut i: usize = 0;
    while i < n
        invariant
            n == chunks@.len(),
            limit > 0,
            cv == string_views(chunks@),
            string_views(terms@) == query_term_list(query@),
            forall|k: int| 0 <= k < terms@.len() ==> (#[trigger] terms@[k])@.len() > 0,
            i <= n,
            forall|k: int| 0 <= k < i ==> relevance_defined(#[trigger] cv[k], query@),
            entry_ints(scored@) == scored_chunks(cv, query@, i as int),
            forall|k: int| 0 <= k < scored@.len() ==> (#[trigger] scored@[k]).0 < i,
        decreases n - i,
    {
        assert(cv[i as int] == chunks@[i as int]@);
        match try_relevance(chunks[i].as_str(), &terms) {
            Some(v) => {
                assert forall|k: int| 0 <= k < query_term_list(query@).len() implies scorable(
                    unicode_lowercase(cv[i as int]),
                    #[trigger] query_term_list(query@)[k],
                ) by {
                    assert(string_views(terms@)[k] == terms@[k]@);
                }
                if v > 0 {
                    let ghost before = entry_ints(scored@);
                    scored.push((i, v));
                    assert(entry_ints(scored@) =~= before.push((i as int, v as int)));
                }
            },
            None => {
                proof {
                    let k = choose|k: int| 0 <= k < terms@.len() && !scorable(unicode_lowercase(chunks@[i as int]@), #[trigger] terms@[k]@);
                    assert(string_views(terms@)[k] == terms@[k]@);
                    assert(!scorable(unicode_lowercase(cv[i as int]), query_term_list(query@)[k]));
                    assert(!relevance_defined(cv[i as int], query@));
                    assert(!ranking_defined(cv, query@));
                }
                return None;
            },
        }
        i += 1;
    }
    let ghost entries = entry_ints(scored@);
    let m = scored.len();
    let mut out: Vec<(usize, u128)> = Vec::new();
    let mut k: usize = 0;
    assert(entries.take(0) =~= Seq::<(int, int)>::empty());
    while k < m
        invariant
            m == scored@.len(),
            entries == entry_ints(scored@),
            k <= m,
            entry_ints(out@) == sort_by(entries.take(k as int), higher_first()),
        decreases m - k,
    {
        let ghost sorted = sort_by(entries.take(k as int), higher_first());
        let x = scored[k];
        assert(entries[k as int] == (x.0 as int, x.1 as int));
        let mut j: usize = 0;
        while j < out.len() && out[j].1 >= x.1
            invariant
                k < entries.len(),
                entry_ints(out@) == sorted,
                j <= out@.len(),
                entries[k as int] == (x.0 as int, x.1 as int),
                forall|t: int| 0 <= t < j ==> (higher_first())(#[trigger] sorted[t], entries[k as int]),
            decreases out@.len() - j,
        {
            assert(sorted[j as int] == (out@[j as int].0 as int, out@[j as int].1 as int));
            j += 1;
        }
        proof {
            if j < out@.len() {
                assert(sorted[j as int] == (out@[j as int].0 as int, out@[j as int].1 as int));
            }
            lemma_insert_pos_by(sorted, entries[k as int], higher_first(), j as int);
            assert(entries.take(k + 1).drop_last() =~= entries.take(k as int));
            assert(entries.take(k + 1).last() == entries[k as int]);
        }
        out.insert(j, x);
        assert(entry_ints(out@) =~= sorted.insert(j as int, entries[k as int]));
        k += 1;
    }
    assert(entries.take(m as int) =~= entries);
    proof {
        lemma_sort_by_len(entries, higher_first());
    }
    if out.len() == 0 {
        let mut first: Vec<(usize, u128)> = Vec::new();
        first.push((0, 0));
        assert(entry_ints(first@) =~= seq![(0int, 0int)]);
        return Some(first);
    }
    if out.len() > limit {
        out.truncate(limit);
    }
    assert(entry_ints(out@) =~= first_n(sort_by(entries, higher_first()), limit as nat));
    Some(out)
}

} // verus!
