//! The order of strings (`Ord for String`: lexicographic by code point, which
//! is also the byte order of their UTF-8 encodings), and sorted, duplicate-free
//! lists kept in that order.

use vstd::prelude::*;
use crate::text::views;

verus! {

/// `a < b` in the order `String` sorts by.
pub open spec fn seq_lt(a: Seq<char>, b: Seq<char>) -> bool
    decreases a.len(),
{
    if a.len() == 0 {
        b.len() > 0
    } else if b.len() == 0 {
        false
    } else if a[0] < b[0] {
        true
    } else if a[0] > b[0] {
        false
    } else {
        seq_lt(a.drop_first(), b.drop_first())
    }
}

/// Every element is smaller than every later one: sorted, with no duplicates.
pub open spec fn strictly_sorted(s: Seq<Seq<char>>) -> bool {
    forall|i: int, j: int| 0 <= i < j < s.len() ==> seq_lt(#[trigger] s[i], #[trigger] s[j])
}

pub proof fn lemma_lt_irreflexive(a: Seq<char>)
    ensures
        !seq_lt(a, a),
    decreases a.len(),
{
    if a.len() > 0 {
        lemma_lt_irreflexive(a.drop_first());
    }
}

pub proof fn lemma_lt_asymmetric(a: Seq<char>, b: Seq<char>)
    ensures
        !(seq_lt(a, b) && seq_lt(b, a)),
    decreases a.len(),
{
    if a.len() > 0 && b.len() > 0 && a[0] == b[0] {
        lemma_lt_asymmetric(a.drop_first(), b.drop_first());
    }
}

pub proof fn lemma_lt_total(a: Seq<char>, b: Seq<char>)
    ensures
        a == b || seq_lt(a, b) || seq_lt(b, a),
    decreases a.len(),
{
    if a.len() > 0 && b.len() > 0 && a[0] == b[0] {
        lemma_lt_total(a.drop_first(), b.drop_first());
        if a.drop_first() == b.drop_first() {
            assert(a =~= seq![a[0]] + a.drop_first());
            assert(b =~= seq![b[0]] + b.drop_first());
        }
    } else if a.len() == 0 && b.len() == 0 {
        assert(a =~= b);
    }
}

pub proof fn lemma_lt_transitive(a: Seq<char>, b: Seq<char>, c: Seq<char>)
    requires
        seq_lt(a, b),
        seq_lt(b, c),
    ensures
        seq_lt(a, c),
    decreases a.len(),
{
    if a.len() > 0 && b.len() > 0 && c.len() > 0 && a[0] == b[0] && b[0] == c[0] {
        lemma_lt_transitive(a.drop_first(), b.drop_first(), c.drop_first());
    }
}


/// Where `x` goes in a sorted list: after every element smaller than it.
pub open spec fn insert_pos(s: Seq<Seq<char>>, x: Seq<char>) -> int
    decreases s.len(),
{
    if s.len() == 0 {
        0
    } else if seq_lt(s[0], x) {
        1 + insert_pos(s.drop_first(), x)
    } else {
        0
    }
}

/// A sorted list with `x` added in its place, unless it is already there.
pub open spec fn sorted_insert(s: Seq<Seq<char>>, x: Seq<char>) -> Seq<Seq<char>> {
    let i = insert_pos(s, x);
    if i < s.len() && s[i] == x {
        s
    } else {
        s.insert(i, x)
    }
}

/// Each of `xs` inserted in turn into an empty list.
pub open spec fn sorted_set(xs: Seq<Seq<char>>) -> Seq<Seq<char>>
    decreases xs.len(),
{
    if xs.len() == 0 {
        Seq::empty()
    } else {
        sorted_insert(sorted_set(xs.drop_last()), xs.last())
    }
}

proof fn lemma_insert_pos(s: Seq<Seq<char>>, x: Seq<char>, i: int)
    requires
        0 <= i <= s.len(),
        forall|k: int| 0 <= k < i ==> seq_lt(#[trigger] s[k], x),
        i == s.len() || !seq_lt(s[i], x),
    ensures
        insert_pos(s, x) == i,
    decreases s.len(),
{
    if s.len() > 0 && i > 0 {
        assert forall|k: int| 0 <= k < i - 1 implies seq_lt(#[trigger] s.drop_first()[k], x) by {
            assert(s.drop_first()[k] == s[k + 1]);
        }
        if i < s.len() {
            assert(s.drop_first()[i - 1] == s[i]);
        }
        lemma_insert_pos(s.drop_first(), x, i - 1);
    }
}

/// Where `x` goes when inserted after every leading element that `le` puts at
/// or before it.
pub open spec fn insert_pos_by<T>(s: Seq<T>, x: T, le: spec_fn(T, T) -> bool) -> int
    decreases s.len(),
{
    if s.len() == 0 {
        0
    } else if le(s[0], x) {
        1 + insert_pos_by(s.drop_first(), x, le)
    } else {
        0
    }
}

/// Insertion sort by `le`: each element in turn goes after the elements
/// already placed that `le` puts at or before it, so equal elements keep their
/// order (a stable sort when `le` is a total preorder).
pub open spec fn sort_by<T>(s: Seq<T>, le: spec_fn(T, T) -> bool) -> Seq<T>
    decreases s.len(),
{
    if s.len() == 0 {
        Seq::empty()
    } else {
        let sorted = sort_by(s.drop_last(), le);
        sorted.insert(insert_pos_by(sorted, s.last(), le), s.last())
    }
}

pub proof fn lemma_insert_pos_by<T>(s: Seq<T>, x: T, le: spec_fn(T, T) -> bool, i: int)
    requires
        0 <= i <= s.len(),
        forall|k: int| 0 <= k < i ==> le(#[trigger] s[k], x),
        i == s.len() || !le(s[i], x),
    ensures
        insert_pos_by(s, x, le) == i,
    decreases s.len(),
{
    if s.len() > 0 && i > 0 {
        assert forall|k: int| 0 <= k < i - 1 implies le(#[trigger] s.drop_first()[k], x) by {
            assert(s.drop_first()[k] == s[k + 1]);
        }
        if i < s.len() {
            assert(s.drop_first()[i - 1] == s[i]);
        }
        lemma_insert_pos_by(s.drop_first(), x, le, i - 1);
    }
}

pub proof fn lemma_sort_by_len<T>(s: Seq<T>, le: spec_fn(T, T) -> bool)
    ensures
        sort_by(s, le).len() == s.len(),
    decreases s.len(),
{
    if s.len() > 0 {
        lemma_sort_by_len(s.drop_last(), le);
        lemma_insert_pos_by_bounds(sort_by(s.drop_last(), le), s.last(), le);
    }
}

pub proof fn lemma_insert_pos_by_bounds<T>(s: Seq<T>, x: T, le: spec_fn(T, T) -> bool)
    ensures
        0 <= insert_pos_by(s, x, le) <= s.len(),
    decreases s.len(),
{
    if s.len() > 0 {
        lemma_insert_pos_by_bounds(s.drop_first(), x, le);
    }
}

/// Sorting only reorders: every sorted element is an input element, and keys
/// that were distinct stay distinct.
pub proof fn lemma_sort_by_keeps_keys_distinct<T, K>(s: Seq<T>, le: spec_fn(T, T) -> bool, key: spec_fn(T) -> K)
    requires
        forall|i: int, j: int| 0 <= i < j < s.len() ==> key(#[trigger] s[i]) != key(#[trigger] s[j]),
    ensures
        sort_by(s, le).len() == s.len(),
        forall|k: int| 0 <= k < s.len() ==> s.contains(#[trigger] sort_by(s, le)[k]),
        forall|i: int, j: int|
            0 <= i < j < s.len() ==> key(#[trigger] sort_by(s, le)[i]) != key(#[trigger] sort_by(s, le)[j]),
    decreases s.len(),
{
    if s.len() > 0 {
        let d = s.drop_last();
        let x = s.last();
        assert forall|i: int, j: int| 0 <= i < j < d.len() implies key(#[trigger] d[i]) != key(#[trigger] d[j]) by {
            assert(d[i] == s[i]);
            assert(d[j] == s[j]);
        }
        lemma_sort_by_keeps_keys_distinct(d, le, key);
        let p = sort_by(d, le);
        lemma_insert_pos_by_bounds(p, x, le);
        let pos = insert_pos_by(p, x, le);
        let r = sort_by(s, le);
        assert(r == p.insert(pos, x));
        assert forall|k: int| 0 <= k < p.len() implies key(#[trigger] p[k]) != key(x) && s.contains(p[k]) by {
            assert(d.contains(p[k]));
            let j = choose|j: int| 0 <= j < d.len() && d[j] == p[k];
            assert(s[j] == p[k]);
            assert(s[s.len() - 1] == x);
        }
        assert forall|k: int| 0 <= k < s.len() implies s.contains(#[trigger] r[k]) by {
            if k < pos {
                assert(r[k] == p[k]);
            } else if k == pos {
                assert(r[k] == x);
                assert(s[s.len() - 1] == x);
            } else {
                assert(r[k] == p[k - 1]);
            }
        }
        assert forall|i: int, j: int| 0 <= i < j < s.len() implies key(#[trigger] r[i]) != key(#[trigger] r[j]) by {
            if j < pos {
                assert(r[i] == p[i] && r[j] == p[j]);
            } else if j == pos {
                assert(r[i] == p[i] && r[j] == x);
            } else if i < pos {
                assert(r[i] == p[i] && r[j] == p[j - 1]);
            } else if i == pos {
                assert(r[i] == x && r[j] == p[j - 1]);
            } else {
                assert(r[i] == p[i - 1] && r[j] == p[j - 1]);
            }
        }
    }
}

/// Every sorted element is an input element.
pub proof fn lemma_sort_by_contains<T>(s: Seq<T>, le: spec_fn(T, T) -> bool)
    ensures
        sort_by(s, le).len() == s.len(),
        forall|k: int| 0 <= k < s.len() ==> s.contains(#[trigger] sort_by(s, le)[k]),
    decreases s.len(),
{
    if s.len() > 0 {
        let d = s.drop_last();
        let x = s.last();
        lemma_sort_by_contains(d, le);
        let p = sort_by(d, le);
        lemma_insert_pos_by_bounds(p, x, le);
        let pos = insert_pos_by(p, x, le);
        let r = sort_by(s, le);
        assert(r == p.insert(pos, x));
        assert forall|k: int| 0 <= k < s.len() implies s.contains(#[trigger] r[k]) by {
            if k == pos {
                assert(s[s.len() - 1] == x);
            } else {
                let q = if k < pos { k } else { k - 1 };
                assert(r[k] == p[q]);
                assert(d.contains(p[q]));
                let j = choose|j: int| 0 <= j < d.len() && d[j] == p[q];
                assert(s[j] == p[q]);
            }
        }
    }
}

/// Every input element is kept by sorting.
pub proof fn lemma_sort_by_keeps<T>(s: Seq<T>, le: spec_fn(T, T) -> bool)
    ensures
        forall|k: int| 0 <= k < s.len() ==> sort_by(s, le).contains(#[trigger] s[k]),
    decreases s.len(),
{
    if s.len() > 0 {
        let d = s.drop_last();
        let x = s.last();
        lemma_sort_by_keeps(d, le);
        let p = sort_by(d, le);
        lemma_insert_pos_by_bounds(p, x, le);
        let pos = insert_pos_by(p, x, le);
        let r = sort_by(s, le);
        assert(r == p.insert(pos, x));
        assert forall|k: int| 0 <= k < s.len() implies r.contains(#[trigger] s[k]) by {
            if k == s.len() - 1 {
                assert(r[pos] == x);
            } else {
                assert(s[k] == d[k]);
                let q = choose|q: int| 0 <= q < p.len() && p[q] == d[k];
                if q < pos {
                    assert(r[q] == p[q]);
                } else {
                    assert(r[q + 1] == p[q]);
                }
            }
        }
    }
}

/// A total, transitive `le` sorts: `sort_by` puts no element after one it
/// should precede.
pub proof fn lemma_sort_by_sorted<T>(s: Seq<T>, le: spec_fn(T, T) -> bool)
    requires
        forall|a: T, b: T| #[trigger] le(a, b) || le(b, a),
        forall|a: T, b: T, c: T| #[trigger] le(a, b) && #[trigger] le(b, c) ==> le(a, c),
    ensures
        forall|i: int, j: int| 0 <= i < j < s.len() ==> le(#[trigger] sort_by(s, le)[i], #[trigger] sort_by(s, le)[j]),
    decreases s.len(),
{
    lemma_sort_by_len(s, le);
    if s.len() > 0 {
        let d = s.drop_last();
        let x = s.last();
        lemma_sort_by_sorted(d, le);
        lemma_sort_by_len(d, le);
        let p = sort_by(d, le);
        lemma_insert_pos_by_bounds(p, x, le);
        lemma_insert_pos_by_prefix(p, x, le);
        let pos = insert_pos_by(p, x, le);
        let r = sort_by(s, le);
        assert(r == p.insert(pos, x));
        if pos < p.len() {
            assert(!le(p[pos], x));
            assert(le(x, p[pos]));
        }
        assert forall|i: int, j: int| 0 <= i < j < s.len() implies le(#[trigger] r[i], #[trigger] r[j]) by {
            if j < pos {
                assert(r[i] == p[i] && r[j] == p[j]);
            } else if j == pos {
                assert(r[i] == p[i] && r[j] == x);
            } else if i < pos {
                assert(r[i] == p[i] && r[j] == p[j - 1]);
            } else if i == pos {
                assert(r[i] == x && r[j] == p[j - 1]);
                if j - 1 > pos {
                    assert(le(p[pos], p[j - 1]));
                }
            } else {
                assert(r[i] == p[i - 1] && r[j] == p[j - 1]);
            }
        }
    }
}

proof fn lemma_insert_pos_by_prefix<T>(s: Seq<T>, x: T, le: spec_fn(T, T) -> bool)
    ensures
        forall|k: int| 0 <= k < insert_pos_by(s, x, le) ==> le(#[trigger] s[k], x),
        insert_pos_by(s, x, le) < s.len() ==> !le(s[insert_pos_by(s, x, le)], x),
    decreases s.len(),
{
    lemma_insert_pos_by_bounds(s, x, le);
    if s.len() > 0 && le(s[0], x) {
        lemma_insert_pos_by_prefix(s.drop_first(), x, le);
        lemma_insert_pos_by_bounds(s.drop_first(), x, le);
        assert forall|k: int| 0 <= k < insert_pos_by(s, x, le) implies le(#[trigger] s[k], x) by {
            if k > 0 {
                assert(s[k] == s.drop_first()[k - 1]);
            }
        }
    }
}

/// How many elements satisfy `p`.
pub open spec fn count_where<T>(s: Seq<T>, p: spec_fn(T) -> bool) -> nat
    decreases s.len(),
{
    if s.len() == 0 {
        0
    } else {
        count_where(s.drop_last(), p) + if p(s.last()) {
            1nat
        } else {
            0nat
        }
    }
}

pub proof fn lemma_count_where_append<T>(a: Seq<T>, b: Seq<T>, p: spec_fn(T) -> bool)
    ensures
        count_where(a + b, p) == count_where(a, p) + count_where(b, p),
    decreases b.len(),
{
    if b.len() == 0 {
        assert(a + b =~= a);
    } else {
        lemma_count_where_append(a, b.drop_last(), p);
        assert((a + b).drop_last() =~= a + b.drop_last());
    }
}

/// Sorting keeps how many elements satisfy any property.
pub proof fn lemma_sort_by_count<T>(s: Seq<T>, le: spec_fn(T, T) -> bool, p: spec_fn(T) -> bool)
    ensures
        count_where(sort_by(s, le), p) == count_where(s, p),
    decreases s.len(),
{
    if s.len() > 0 {
        let d = s.drop_last();
        let x = s.last();
        lemma_sort_by_count(d, le, p);
        let q = sort_by(d, le);
        lemma_insert_pos_by_bounds(q, x, le);
        let pos = insert_pos_by(q, x, le);
        assert(sort_by(s, le) == q.insert(pos, x));
        let one = seq![x];
        assert(one.len() == 1);
        assert(one.drop_last() =~= Seq::<T>::empty());
        assert(one.last() == x);
        assert(count_where(one.drop_last(), p) == 0);
        assert(count_where(one, p) == if p(x) {
            1nat
        } else {
            0nat
        });
        assert(q.insert(pos, x) =~= q.take(pos) + (one + q.skip(pos)));
        assert(q =~= q.take(pos) + q.skip(pos));
        lemma_count_where_append(q.take(pos), one + q.skip(pos), p);
        lemma_count_where_append(one, q.skip(pos), p);
        lemma_count_where_append(q.take(pos), q.skip(pos), p);
    }
}

/// `a < b` on character slices, as `String`'s `<` compares.
pub fn chars_lt(a: &[char], b: &[char]) -> (r: bool)
    ensures
        r == seq_lt(a@, b@),
{
    let n = a.len();
    let m = b.len();
    let mut i: usize = 0;
    assert(a@.subrange(0, n as int) =~= a@);
    assert(b@.subrange(0, m as int) =~= b@);
    while i < n && i < m && a[i] == b[i]
        invariant
            n == a@.len(),
            m == b@.len(),
            i <= n,
            i <= m,
            seq_lt(a@, b@) == seq_lt(a@.subrange(i as int, n as int), b@.subrange(i as int, m as int)),
        decreases n - i,
    {
        assert(a@.subrange(i as int, n as int).drop_first() =~= a@.subrange(i + 1, n as int));
        assert(b@.subrange(i as int, m as int).drop_first() =~= b@.subrange(i + 1, m as int));
        i += 1;
    }
    if i == n {
        i < m
    } else if i == m {
        false
    } else {
        assert(a@.subrange(i as int, n as int)[0] == a@[i as int]);
        assert(b@.subrange(i as int, m as int)[0] == b@[i as int]);
        a[i] < b[i]
    }
}

/// Inserts `x` into a strictly sorted list unless it is already there.
pub fn insert_sorted(v: &mut Vec<Vec<char>>, x: Vec<char>)
    requires
        strictly_sorted(views(old(v)@)),
    ensures
        views(final(v)@) == sorted_insert(views(old(v)@), x@),
        strictly_sorted(views(final(v)@)),
        forall|y: Seq<char>|
            views(final(v)@).contains(y) <==> (views(old(v)@).contains(y) || y == x@),
{
    let n = v.len();
    let mut i: usize = 0;
    while i < n && chars_lt(v[i].as_slice(), x.as_slice())
        invariant
            n == v@.len(),
            i <= n,
            forall|k: int| 0 <= k < i ==> seq_lt(#[trigger] views(v@)[k], x@),
        decreases n - i,
    {
        i += 1;
    }
    let ghost old_v = views(v@);
    proof {
        if i < n {
            assert(!seq_lt(old_v[i as int], x@));
        }
        lemma_insert_pos(old_v, x@, i as int);
    }
    if i < n && crate::text::chars_eq(v[i].as_slice(), x.as_slice()) {
        assert(old_v[i as int] == x@);
        assert forall|y: Seq<char>| old_v.contains(y) <==> (old_v.contains(y) || y == x@) by {
            if y == x@ {
                assert(old_v[i as int] == y);
            }
        }
        return;
    }
    let ghost xv = x@;
    proof {
        if i < n {
            lemma_lt_total(old_v[i as int], xv);
            lemma_lt_asymmetric(old_v[i as int], xv);
        }
    }
    v.insert(i, x);
    let ghost new_v = views(v@);
    assert(new_v =~= old_v.insert(i as int, xv));
    assert forall|p: int, q: int| 0 <= p < q < new_v.len() implies seq_lt(
        #[trigger] new_v[p],
        #[trigger] new_v[q],
    ) by {
        if q < i {
        } else if q == i {
        } else if p < i {
            // new_v[q] == old_v[q - 1], with old_v[i] <= old_v[q - 1]
            if q - 1 > i {
                lemma_lt_transitive(xv, old_v[i as int], old_v[q - 1]);
            }
            lemma_lt_transitive(old_v[p], xv, old_v[q - 1]);
        } else if p == i {
            if q - 1 > i {
                lemma_lt_transitive(xv, old_v[i as int], old_v[q - 1]);
            }
        } else {
        }
    }
    assert forall|y: Seq<char>| new_v.contains(y) <==> (old_v.contains(y) || y == xv) by {
        if new_v.contains(y) {
            let k = choose|k: int| 0 <= k < new_v.len() && new_v[k] == y;
            if k < i {
                assert(old_v[k] == y);
            } else if k > i {
                assert(old_v[k - 1] == y);
            }
        }
        if old_v.contains(y) {
            let k = choose|k: int| 0 <= k < old_v.len() && old_v[k] == y;
            if k < i {
                assert(new_v[k] == y);
            } else {
                assert(new_v[k + 1] == y);
            }
        }
        if y == xv {
            assert(new_v[i as int] == y);
        }
    }
}

} // verus!
