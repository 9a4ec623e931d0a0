//! Character-level string primitives shared by the rest of the library.
//!
//! Every string is reasoned about through its view, the sequence of Unicode
//! scalar values it holds (`s@`).

use vstd::prelude::*;

verus! {

/// `String::push` appends one character.
pub assume_specification[ String::push ](s: &mut String, ch: char)
    ensures
        final(s)@ == old(s)@.push(ch),
;

// ---------------------------------------------------------------------------
// Character classes
// ---------------------------------------------------------------------------

/// Unicode `White_Space`, the set `char::is_whitespace` and `str::trim` use.
pub open spec fn is_ws(c: char) -> bool {
    let u = c as u32;
    ||| 0x09 <= u <= 0x0D
    ||| u == 0x20
    ||| u == 0x85
    ||| u == 0xA0
    ||| u == 0x1680
    ||| 0x2000 <= u <= 0x200A
    ||| u == 0x2028
    ||| u == 0x2029
    ||| u == 0x202F
    ||| u == 0x205F
    ||| u == 0x3000
}

/// General category `Cc`: the C0 and C1 control codes.
pub open spec fn is_control(c: char) -> bool {
    let u = c as u32;
    u <= 0x1F || 0x7F <= u <= 0x9F
}

pub open spec fn is_digit(c: char) -> bool {
    '0' <= c <= '9'
}

pub open spec fn is_ascii_alpha(c: char) -> bool {
    ('a' <= c <= 'z') || ('A' <= c <= 'Z')
}

pub open spec fn is_ascii_alnum(c: char) -> bool {
    is_digit(c) || is_ascii_alpha(c)
}

pub open spec fn is_hex_digit(c: char) -> bool {
    is_digit(c) || ('a' <= c <= 'f') || ('A' <= c <= 'F')
}

/// ASCII upper-case letters map to lower case; everything else is unchanged.
pub open spec fn ascii_lower(c: char) -> char {
    if 'A' <= c <= 'Z' {
        ((c as u32) + 32) as char
    } else {
        c
    }
}

pub open spec fn lower_ascii(s: Seq<char>) -> Seq<char> {
    s.map_values(|c: char| ascii_lower(c))
}

pub fn char_is_whitespace(c: char) -> (r: bool)
    ensures
        r == is_ws(c),
{
    let u = c as u32;
    (0x09 <= u && u <= 0x0D) || u == 0x20 || u == 0x85 || u == 0xA0 || u == 0x1680 || (0x2000
        <= u && u <= 0x200A) || u == 0x2028 || u == 0x2029 || u == 0x202F || u == 0x205F || u
        == 0x3000
}

pub fn char_is_control(c: char) -> (r: bool)
    ensures
        r == is_control(c),
{
    let u = c as u32;
    u <= 0x1F || (0x7F <= u && u <= 0x9F)
}

pub fn char_is_digit(c: char) -> (r: bool)
    ensures
        r == is_digit(c),
{
    '0' <= c && c <= '9'
}

pub fn char_is_ascii_alnum(c: char) -> (r: bool)
    ensures
        r == is_ascii_alnum(c),
{
    ('0' <= c && c <= '9') || ('a' <= c && c <= 'z') || ('A' <= c && c <= 'Z')
}

pub fn char_is_hex_digit(c: char) -> (r: bool)
    ensures
        r == is_hex_digit(c),
{
    ('0' <= c && c <= '9') || ('a' <= c && c <= 'f') || ('A' <= c && c <= 'F')
}

pub fn char_ascii_lower(c: char) -> (r: char)
    ensures
        r == ascii_lower(c),
{
    if 'A' <= c && c <= 'Z' {
        let u = (c as u32) + 32;
        assert(u < 0x80);
        let b = u as u8;
        b as char
    } else {
        c
    }
}

// ---------------------------------------------------------------------------
// Conversions between `str`, `String` and character vectors
// ---------------------------------------------------------------------------

/// The characters of `s`, in order.
pub fn to_chars(s: &str) -> (r: Vec<char>)
    ensures
        r@ == s@,
{
    let mut out: Vec<char> = Vec::new();
    for c in it: s.chars()
        invariant
            out@ == it.seq().take(it.index() as int),
            it.seq() == s@,
    {
        out.push(c);
    }
    out
}

/// A `String` holding exactly the given characters.
pub fn from_chars(s: &[char]) -> (r: String)
    ensures
        r@ == s@,
{
    let mut out = String::new();
    let n = s.len();
    let mut i: usize = 0;
    while i < n
        invariant
            n == s@.len(),
            i <= n,
            out@ == s@.take(i as int),
        decreases n - i,
    {
        out.push(s[i]);
        assert(s@.take(i + 1) =~= s@.take(i as int).push(s@[i as int]));
        i += 1;
    }
    assert(s@.take(n as int) =~= s@);
    out
}

/// Appends every character of `t` to `out`.
pub fn push_all(out: &mut Vec<char>, t: &[char])
    ensures
        final(out)@ == old(out)@ + t@,
{
    let n = t.len();
    let mut i: usize = 0;
    while i < n
        invariant
            n == t@.len(),
            i <= n,
            out@ == old(out)@ + t@.take(i as int),
        decreases n - i,
    {
        out.push(t[i]);
        assert(t@.take(i + 1) =~= t@.take(i as int).push(t@[i as int]));
        i += 1;
    }
    assert(t@.take(n as int) =~= t@);
}

/// Appends the characters of a string slice to `out`.
pub fn push_str_chars(out: &mut Vec<char>, t: &str)
    ensures
        final(out)@ == old(out)@ + t@,
{
    let v = to_chars(t);
    push_all(out, v.as_slice());
}

/// The characters `s[i..j]` as a new vector.
pub fn subvec(s: &[char], i: usize, j: usize) -> (r: Vec<char>)
    requires
        i <= j <= s@.len(),
    ensures
        r@ == s@.subrange(i as int, j as int),
{
    let mut out: Vec<char> = Vec::new();
    let mut k = i;
    while k < j
        invariant
            i <= k <= j,
            j <= s@.len(),
            out@ == s@.subrange(i as int, k as int),
        decreases j - k,
    {
        out.push(s[k]);
        assert(s@.subrange(i as int, k + 1) =~= s@.subrange(i as int, k as int).push(
            s@[k as int],
        ));
        k += 1;
    }
    out
}

/// Character-wise equality.
pub fn chars_eq(a: &[char], b: &[char]) -> (r: bool)
    ensures
        r == (a@ == b@),
{
    if a.len() != b.len() {
        return false;
    }
    let n = a.len();
    let mut i: usize = 0;
    while i < n
        invariant
            n == a@.len(),
            n == b@.len(),
            i <= n,
            forall|k: int| 0 <= k < i ==> a@[k] == b@[k],
        decreases n - i,
    {
        if a[i] != b[i] {
            return false;
        }
        i += 1;
    }
    assert(a@ =~= b@);
    true
}

/// String equality by content.
pub fn str_eq(a: &str, b: &str) -> (r: bool)
    ensures
        r == (a@ == b@),
{
    let x = to_chars(a);
    let y = to_chars(b);
    chars_eq(x.as_slice(), y.as_slice())
}

// ---------------------------------------------------------------------------
// Case
// ---------------------------------------------------------------------------

pub fn lower_ascii_chars(s: &[char]) -> (r: Vec<char>)
    ensures
        r@ == lower_ascii(s@),
{
    let mut out: Vec<char> = Vec::new();
    let n = s.len();
    let mut i: usize = 0;
    while i < n
        invariant
            n == s@.len(),
            i <= n,
            out@ =~= lower_ascii(s@.take(i as int)),
        decreases n - i,
    {
        let c = char_ascii_lower(s[i]);
        out.push(c);
        assert(lower_ascii(s@.take(i + 1)) =~= lower_ascii(s@.take(i as int)).push(c));
        i += 1;
    }
    assert(s@.take(n as int) =~= s@);
    out
}

// ---------------------------------------------------------------------------
// Trimming
// ---------------------------------------------------------------------------

/// `s` without its leading whitespace.
pub open spec fn trim_start_ws(s: Seq<char>) -> Seq<char>
    decreases s.len(),
{
    if s.len() > 0 && is_ws(s[0]) {
        trim_start_ws(s.drop_first())
    } else {
        s
    }
}

/// `s` without its trailing whitespace.
pub open spec fn trim_end_ws(s: Seq<char>) -> Seq<char>
    decreases s.len(),
{
    if s.len() > 0 && is_ws(s.last()) {
        trim_end_ws(s.drop_last())
    } else {
        s
    }
}

/// `str::trim`: both ends stripped of whitespace.
pub open spec fn trim_ws(s: Seq<char>) -> Seq<char> {
    trim_end_ws(trim_start_ws(s))
}

/// `s` without leading characters drawn from `set`.
pub open spec fn trim_start_in(s: Seq<char>, set: Seq<char>) -> Seq<char>
    decreases s.len(),
{
    if s.len() > 0 && set.contains(s[0]) {
        trim_start_in(s.drop_first(), set)
    } else {
        s
    }
}

/// `s` without trailing characters drawn from `set`.
pub open spec fn trim_end_in(s: Seq<char>, set: Seq<char>) -> Seq<char>
    decreases s.len(),
{
    if s.len() > 0 && set.contains(s.last()) {
        trim_end_in(s.drop_last(), set)
    } else {
        s
    }
}

/// Both ends stripped of characters drawn from `set` (`trim_matches`).
pub open spec fn trim_in(s: Seq<char>, set: Seq<char>) -> Seq<char> {
    trim_end_in(trim_start_in(s, set), set)
}

proof fn lemma_trim_start_step(s: Seq<char>, i: int)
    requires
        0 <= i < s.len(),
        is_ws(s[i]),
    ensures
        trim_start_ws(s.subrange(i, s.len() as int)) == trim_start_ws(
            s.subrange(i + 1, s.len() as int),
        ),
{
    assert(s.subrange(i, s.len() as int).drop_first() =~= s.subrange(i + 1, s.len() as int));
}

proof fn lemma_trim_end_step(s: Seq<char>, i: int, j: int)
    requires
        0 <= i < j <= s.len(),
        is_ws(s[j - 1]),
    ensures
        trim_end_ws(s.subrange(i, j)) == trim_end_ws(s.subrange(i, j - 1)),
{
    assert(s.subrange(i, j).drop_last() =~= s.subrange(i, j - 1));
}

/// Index of the first non-whitespace character at or after `from`, or `s.len()`.
pub fn skip_ws(s: &[char], from: usize) -> (r: usize)
    requires
        from <= s@.len(),
    ensures
        from <= r <= s@.len(),
        forall|k: int| from <= k < r ==> is_ws(#[trigger] s@[k]),
        r < s@.len() ==> !is_ws(s@[r as int]),
        trim_start_ws(s@.subrange(from as int, s@.len() as int)) == s@.subrange(
            r as int,
            s@.len() as int,
        ),
{
    let n = s.len();
    let mut i = from;
    while i < n && char_is_whitespace(s[i])
        invariant
            from <= i <= n,
            n == s@.len(),
            forall|k: int| from <= k < i ==> is_ws(#[trigger] s@[k]),
            trim_start_ws(s@.subrange(from as int, n as int)) == trim_start_ws(
                s@.subrange(i as int, n as int),
            ),
        decreases n - i,
    {
        proof {
            lemma_trim_start_step(s@, i as int);
        }
        i += 1;
    }
    proof {
        if i < n {
            assert(s@.subrange(i as int, n as int)[0] == s@[i as int]);
        }
    }
    i
}

/// The end of `s[from..to]` once trailing whitespace is dropped.
pub fn back_skip_ws(s: &[char], from: usize, to: usize) -> (r: usize)
    requires
        from <= to <= s@.len(),
    ensures
        from <= r <= to,
        forall|k: int| r <= k < to ==> is_ws(#[trigger] s@[k]),
        r > from ==> !is_ws(s@[r - 1]),
        trim_end_ws(s@.subrange(from as int, to as int)) == s@.subrange(from as int, r as int),
{
    let mut j = to;
    while j > from && char_is_whitespace(s[j - 1])
        invariant
            from <= j <= to,
            to <= s@.len(),
            forall|k: int| j <= k < to ==> is_ws(#[trigger] s@[k]),
            trim_end_ws(s@.subrange(from as int, to as int)) == trim_end_ws(
                s@.subrange(from as int, j as int),
            ),
        decreases j,
    {
        proof {
            lemma_trim_end_step(s@, from as int, j as int);
        }
        j -= 1;
    }
    proof {
        if j > from {
            assert(s@.subrange(from as int, j as int).last() == s@[j - 1]);
        }
    }
    j
}

/// `str::trim` on a character slice.
pub fn trim_chars(s: &[char]) -> (r: Vec<char>)
    ensures
        r@ == trim_ws(s@),
{
    let n = s.len();
    let i = skip_ws(s, 0);
    assert(s@.subrange(0, n as int) =~= s@);
    let j = back_skip_ws(s, i, n);
    subvec(s, i, j)
}

/// `str::trim`.
pub fn trim_str(s: &str) -> (r: String)
    ensures
        r@ == trim_ws(s@),
{
    let v = to_chars(s);
    let t = trim_chars(v.as_slice());
    from_chars(t.as_slice())
}

/// Whether `c` is one of the characters in `set`.
pub fn char_in(c: char, set: &[char]) -> (r: bool)
    ensures
        r == set@.contains(c),
{
    let n = set.len();
    let mut i: usize = 0;
    while i < n
        invariant
            n == set@.len(),
            i <= n,
            forall|k: int| 0 <= k < i ==> set@[k] != c,
        decreases n - i,
    {
        if set[i] == c {
            assert(set@[i as int] == c);
            return true;
        }
        i += 1;
    }
    false
}

/// `trim_start_matches` with a set of characters.
pub fn trim_start_set(s: &[char], set: &[char]) -> (r: Vec<char>)
    ensures
        r@ == trim_start_in(s@, set@),
{
    let n = s.len();
    let mut i: usize = 0;
    assert(s@.subrange(0, n as int) =~= s@);
    while i < n && char_in(s[i], set)
        invariant
            i <= n,
            n == s@.len(),
            trim_start_in(s@, set@) == trim_start_in(s@.subrange(i as int, n as int), set@),
        decreases n - i,
    {
        assert(s@.subrange(i as int, n as int).drop_first() =~= s@.subrange(i + 1, n as int));
        i += 1;
    }
    proof {
        if i < n {
            assert(s@.subrange(i as int, n as int)[0] == s@[i as int]);
        }
    }
    subvec(s, i, n)
}

/// `trim_end_matches` with a set of characters.
pub fn trim_end_set(s: &[char], set: &[char]) -> (r: Vec<char>)
    ensures
        r@ == trim_end_in(s@, set@),
{
    let n = s.len();
    let mut j: usize = n;
    assert(s@.subrange(0, n as int) =~= s@);
    while j > 0 && char_in(s[j - 1], set)
        invariant
            j <= n,
            n == s@.len(),
            trim_end_in(s@, set@) == trim_end_in(s@.subrange(0, j as int), set@),
        decreases j,
    {
        assert(s@.subrange(0, j as int).drop_last() =~= s@.subrange(0, j - 1));
        j -= 1;
    }
    proof {
        if j > 0 {
            assert(s@.subrange(0, j as int).last() == s@[j - 1]);
        }
    }
    subvec(s, 0, j)
}

/// `trim_matches` with a set of characters.
pub fn trim_set(s: &[char], set: &[char]) -> (r: Vec<char>)
    ensures
        r@ == trim_in(s@, set@),
{
    let a = trim_start_set(s, set);
    trim_end_set(a.as_slice(), set)
}

// ---------------------------------------------------------------------------
// Searching
// ---------------------------------------------------------------------------

/// `p` occurs in `s` starting at `i`.
pub open spec fn matches_at(s: Seq<char>, p: Seq<char>, i: int) -> bool {
    0 <= i && i + p.len() <= s.len() && s.subrange(i, i + p.len()) == p
}

/// `p` occurs somewhere in `s` (`str::contains`).
pub open spec fn contains_seq(s: Seq<char>, p: Seq<char>) -> bool {
    exists|i: int| matches_at(s, p, i)
}

pub open spec fn starts_with(s: Seq<char>, p: Seq<char>) -> bool {
    matches_at(s, p, 0)
}

pub open spec fn ends_with(s: Seq<char>, p: Seq<char>) -> bool {
    p.len() <= s.len() && matches_at(s, p, s.len() - p.len())
}

/// Whether `p` occurs in `s` at index `i`.
pub fn match_at(s: &[char], p: &[char], i: usize) -> (r: bool)
    ensures
        r == matches_at(s@, p@, i as int),
{
    let n = s.len();
    let m = p.len();
    if i > n || m > n - i {
        return false;
    }
    let mut k: usize = 0;
    while k < m
        invariant
            n == s@.len(),
            m == p@.len(),
            i + m <= n,
            k <= m,
            forall|t: int| 0 <= t < k ==> s@[i + t] == p@[t],
        decreases m - k,
    {
        if s[i + k] != p[k] {
            assert(s@.subrange(i as int, i + m)[k as int] != p@[k as int]);
            return false;
        }
        k += 1;
    }
    assert(s@.subrange(i as int, i + m) =~= p@);
    true
}

/// First occurrence of `p` in `s` at or after `from`.
pub fn find_from(s: &[char], p: &[char], from: usize) -> (r: Option<usize>)
    ensures
        match r {
            Some(i) => from <= i && matches_at(s@, p@, i as int) && forall|j: int|
                from <= j < i ==> !matches_at(s@, p@, j),
            None => forall|j: int| from <= j ==> !matches_at(s@, p@, j),
        },
{
    let n = s.len();
    let mut i = from;
    while i < n
        invariant
            n == s@.len(),
            from <= i,
            i <= n || i == from,
            forall|j: int| from <= j < i ==> !matches_at(s@, p@, j),
        decreases n - i,
    {
        if match_at(s, p, i) {
            return Some(i);
        }
        i += 1;
    }
    if match_at(s, p, i) {
        return Some(i);
    }
    None
}

/// `str::contains` on character slices.
pub fn contains_chars(s: &[char], p: &[char]) -> (r: bool)
    ensures
        r == contains_seq(s@, p@),
{
    match find_from(s, p, 0) {
        Some(i) => true,
        None => false,
    }
}

/// `str::contains`.
pub fn str_contains(s: &str, p: &str) -> (r: bool)
    ensures
        r == contains_seq(s@, p@),
{
    let a = to_chars(s);
    let b = to_chars(p);
    contains_chars(a.as_slice(), b.as_slice())
}

/// `str::starts_with`.
pub fn starts_with_chars(s: &[char], p: &[char]) -> (r: bool)
    ensures
        r == starts_with(s@, p@),
{
    match_at(s, p, 0)
}

/// `str::ends_with`.
pub fn ends_with_chars(s: &[char], p: &[char]) -> (r: bool)
    ensures
        r == ends_with(s@, p@),
{
    if p.len() > s.len() {
        return false;
    }
    match_at(s, p, s.len() - p.len())
}

// ---------------------------------------------------------------------------
// Replacing
// ---------------------------------------------------------------------------

/// `str::replace`: every non-overlapping occurrence of `from`, scanned left to
/// right, becomes `to`.
pub open spec fn replace_seq(s: Seq<char>, from: Seq<char>, to: Seq<char>) -> Seq<char>
    decreases s.len(),
{
    if from.len() == 0 || s.len() == 0 {
        s
    } else if matches_at(s, from, 0) {
        to + replace_seq(s.subrange(from.len() as int, s.len() as int), from, to)
    } else {
        seq![s[0]] + replace_seq(s.drop_first(), from, to)
    }
}

/// `str::replace` on character slices.
pub fn replace_chars(s: &[char], from: &[char], to: &[char]) -> (r: Vec<char>)
    requires
        from@.len() > 0,
    ensures
        r@ == replace_seq(s@, from@, to@),
{
    let n = s.len();
    let m = from.len();
    let mut out: Vec<char> = Vec::new();
    let mut i: usize = 0;
    assert(s@.subrange(0, n as int) =~= s@);
    while i < n
        invariant
            n == s@.len(),
            m == from@.len(),
            m > 0,
            i <= n,
            replace_seq(s@, from@, to@) == out@ + replace_seq(
                s@.subrange(i as int, n as int),
                from@,
                to@,
            ),
        decreases n - i,
    {
        let ghost rest = s@.subrange(i as int, n as int);
        if match_at(s, from, i) {
            proof {
                assert(rest.subrange(0, m as int) =~= s@.subrange(i as int, i + m));
                assert(rest.subrange(m as int, rest.len() as int) =~= s@.subrange(
                    i + m,
                    n as int,
                ));
            }
            push_all(&mut out, to);
            i += m;
        } else {
            proof {
                if m <= rest.len() {
                    assert(rest.subrange(0, m as int) =~= s@.subrange(i as int, i + m));
                }
                assert(rest.drop_first() =~= s@.subrange(i + 1, n as int));
                assert(rest[0] == s@[i as int]);
            }
            out.push(s[i]);
            i += 1;
        }
    }
    assert(s@.subrange(n as int, n as int) =~= Seq::<char>::empty());
    assert(out@ + Seq::<char>::empty() =~= out@);
    out
}

// ---------------------------------------------------------------------------
// Whitespace collapsing and words
// ---------------------------------------------------------------------------

/// Whitespace runs collapsed: the words of `s` (maximal runs of non-whitespace
/// characters) in order, separated by single spaces, with nothing before the
/// first or after the last. `pending` records a whitespace run seen since the
/// last word; `started` whether a word has been emitted yet.
pub open spec fn collapse_from(s: Seq<char>, started: bool, pending: bool) -> Seq<char>
    decreases s.len(),
{
    if s.len() == 0 {
        Seq::empty()
    } else if is_ws(s[0]) {
        collapse_from(s.drop_first(), started, started)
    } else if pending {
        seq![' ', s[0]] + collapse_from(s.drop_first(), true, false)
    } else {
        seq![s[0]] + collapse_from(s.drop_first(), true, false)
    }
}

/// `s.split_whitespace().collect::<Vec<_>>().join(" ")`.
pub open spec fn collapse_ws(s: Seq<char>) -> Seq<char> {
    collapse_from(s, false, false)
}

/// Number of words (maximal non-whitespace runs) in `s`.
pub open spec fn word_count(s: Seq<char>) -> nat
    decreases s.len(),
{
    if s.len() == 0 {
        0
    } else {
        word_count(s.drop_last()) + if !is_ws(s.last()) && (s.len() == 1 || is_ws(
            s[s.len() - 2],
        )) {
            1nat
        } else {
            0nat
        }
    }
}

/// Collapses whitespace runs on a character slice.
pub fn collapse_ws_chars(s: &[char]) -> (r: Vec<char>)
    ensures
        r@ == collapse_ws(s@),
{
    let n = s.len();
    let mut out: Vec<char> = Vec::new();
    let mut started = false;
    let mut pending = false;
    let mut i: usize = 0;
    assert(s@.subrange(0, n as int) =~= s@);
    while i < n
        invariant
            n == s@.len(),
            i <= n,
            collapse_ws(s@) == out@ + collapse_from(
                s@.subrange(i as int, n as int),
                started,
                pending,
            ),
        decreases n - i,
    {
        let ghost rest = s@.subrange(i as int, n as int);
        assert(rest.drop_first() =~= s@.subrange(i + 1, n as int));
        assert(rest[0] == s@[i as int]);
        let c = s[i];
        let ghost before = out@;
        let ghost st = started;
        let ghost pd = pending;
        let ghost tail = collapse_from(s@.subrange(i + 1, n as int), true, false);
        if char_is_whitespace(c) {
            pending = started;
        } else {
            if pending {
                out.push(' ');
                assert(out@ + seq![c] + tail =~= before + (seq![' ', c] + tail));
            } else {
                assert(out@ + seq![c] + tail =~= before + (seq![c] + tail));
            }
            out.push(c);
            started = true;
            pending = false;
        }
        i += 1;
    }
    assert(s@.subrange(n as int, n as int) =~= Seq::<char>::empty());
    assert(out@ + Seq::<char>::empty() =~= out@);
    out
}

// ---------------------------------------------------------------------------
// Joining
// ---------------------------------------------------------------------------

/// `parts.join(sep)`.
pub open spec fn join_with(parts: Seq<Seq<char>>, sep: Seq<char>) -> Seq<char>
    decreases parts.len(),
{
    if parts.len() == 0 {
        Seq::empty()
    } else if parts.len() == 1 {
        parts[0]
    } else {
        join_with(parts.drop_last(), sep) + sep + parts.last()
    }
}

/// The views of a sequence of character vectors.
pub open spec fn views(v: Seq<Vec<char>>) -> Seq<Seq<char>> {
    v.map_values(|x: Vec<char>| x@)
}

/// `str::split(sep)`: the pieces between separators, empty pieces included.
pub open spec fn split_on(s: Seq<char>, sep: char) -> Seq<Seq<char>>
    decreases s.len(),
{
    if s.len() == 0 {
        seq![Seq::empty()]
    } else {
        let r = split_on(s.drop_last(), sep);
        if s.last() == sep {
            r.push(Seq::empty())
        } else {
            r.update(r.len() - 1, r.last().push(s.last()))
        }
    }
}

/// No piece of a split holds the separator.
pub proof fn lemma_split_on_pieces_plain(s: Seq<char>, sep: char)
    ensures
        forall|i: int| 0 <= i < split_on(s, sep).len() ==> !(#[trigger] split_on(s, sep)[i]).contains(sep),
    decreases s.len(),
{
    if s.len() > 0 {
        let r = split_on(s.drop_last(), sep);
        lemma_split_on_pieces_plain(s.drop_last(), sep);
        lemma_split_on_nonempty(s.drop_last(), sep);
        if s.last() != sep {
            let t = r.last().push(s.last());
            assert(!r.last().contains(sep));
            assert forall|k: int| 0 <= k < t.len() implies t[k] != sep by {
                if k < t.len() - 1 {
                    assert(t[k] == r.last()[k]);
                }
            }
        } else {
            assert(!Seq::<char>::empty().contains(sep));
        }
    }
}

pub proof fn lemma_split_on_nonempty(s: Seq<char>, sep: char)
    ensures
        split_on(s, sep).len() >= 1,
    decreases s.len(),
{
    if s.len() > 0 {
        lemma_split_on_nonempty(s.drop_last(), sep);
    }
}

proof fn lemma_split_on_plain(a: Seq<char>, sep: char)
    requires
        !a.contains(sep),
    ensures
        split_on(a, sep) == seq![a],
    decreases a.len(),
{
    if a.len() > 0 {
        assert(!a.drop_last().contains(sep)) by {
            if a.drop_last().contains(sep) {
                let i = choose|i: int| 0 <= i < a.drop_last().len() && a.drop_last()[i] == sep;
                assert(a[i] == sep);
            }
        }
        lemma_split_on_plain(a.drop_last(), sep);
        assert(a.last() != sep) by {
            assert(a[a.len() - 1] == a.last());
        }
        assert(a.drop_last().push(a.last()) =~= a);
        assert(seq![a.drop_last()].update(0, a.drop_last().push(a.last())) =~= seq![a]);
    } else {
        assert(a =~= Seq::<char>::empty());
        assert(split_on(a, sep) =~= seq![Seq::<char>::empty()]);
    }
}

/// A first piece without the separator splits off on its own.
pub proof fn lemma_split_on_first_piece(a: Seq<char>, b: Seq<char>, sep: char)
    requires
        !a.contains(sep),
    ensures
        split_on(a + seq![sep] + b, sep) == seq![a] + split_on(b, sep),
    decreases b.len(),
{
    let x = a + seq![sep] + b;
    if b.len() == 0 {
        assert(x =~= a.push(sep));
        assert(x.drop_last() =~= a);
        lemma_split_on_plain(a, sep);
        assert(split_on(x, sep) =~= seq![a, Seq::<char>::empty()]);
        assert(split_on(b, sep) =~= seq![Seq::<char>::empty()]);
        assert(seq![a] + split_on(b, sep) =~= seq![a, Seq::<char>::empty()]);
    } else {
        lemma_split_on_first_piece(a, b.drop_last(), sep);
        assert(x.drop_last() =~= a + seq![sep] + b.drop_last());
        assert(x.last() == b.last());
        lemma_split_on_nonempty(b.drop_last(), sep);
        let r2 = split_on(b.drop_last(), sep);
        if b.last() == sep {
            assert((seq![a] + r2).push(Seq::<char>::empty()) =~= seq![a] + r2.push(Seq::<char>::empty()));
        } else {
            let r = seq![a] + r2;
            assert(r.update(r.len() - 1, r.last().push(b.last())) =~= seq![a] + r2.update(
                r2.len() - 1,
                r2.last().push(b.last()),
            ));
        }
    }
}

/// `str::split(sep)` on a character slice.
pub fn split_chars(s: &[char], sep: char) -> (r: Vec<Vec<char>>)
    ensures
        views(r@) == split_on(s@, sep),
{
    let n = s.len();
    let mut parts: Vec<Vec<char>> = Vec::new();
    let mut cur: Vec<char> = Vec::new();
    let mut j: usize = 0;
    assert(s@.take(0) =~= Seq::<char>::empty());
    assert(views(parts@) =~= Seq::<Seq<char>>::empty());
    while j < n
        invariant
            n == s@.len(),
            j <= n,
            split_on(s@.take(j as int), sep) == views(parts@).push(cur@),
        decreases n - j,
    {
        let c = s[j];
        assert(s@.take(j + 1).drop_last() =~= s@.take(j as int));
        assert(s@.take(j + 1).last() == c);
        let ghost before = views(parts@);
        if c == sep {
            let done = cur;
            parts.push(done);
            cur = Vec::new();
            assert(views(parts@) =~= before.push(done@));
            assert(split_on(s@.take(j + 1), sep) =~= views(parts@).push(cur@));
        } else {
            cur.push(c);
            assert(split_on(s@.take(j + 1), sep) =~= views(parts@).push(cur@));
        }
        j += 1;
    }
    assert(s@.take(n as int) =~= s@);
    let ghost before = views(parts@);
    let last = cur;
    parts.push(last);
    assert(views(parts@) =~= before.push(last@));
    parts
}

/// Joins character vectors with a separator.
pub fn join_chars(parts: &Vec<Vec<char>>, sep: &[char]) -> (r: Vec<char>)
    ensures
        r@ == join_with(views(parts@), sep@),
{
    let n = parts.len();
    let mut out: Vec<char> = Vec::new();
    let mut i: usize = 0;
    assert(views(parts@).take(0) =~= Seq::<Seq<char>>::empty());
    while i < n
        invariant
            n == parts@.len(),
            i <= n,
            out@ == join_with(views(parts@).take(i as int), sep@),
        decreases n - i,
    {
        let ghost before = out@;
        let ghost dv = views(parts@);
        assert(dv.take(i + 1).drop_last() =~= dv.take(i as int));
        assert(dv.take(i + 1).last() == parts@[i as int]@);
        if i > 0 {
            push_all(&mut out, sep);
        }
        push_all(&mut out, parts[i].as_slice());
        proof {
            if i == 0 {
                assert(dv.take(1)[0] == parts@[0]@);
                assert(out@ =~= dv.take(1)[0]);
            } else {
                assert(out@ =~= before + sep@ + parts@[i as int]@);
            }
        }
        i += 1;
    }
    assert(views(parts@).take(n as int) =~= views(parts@));
    out
}

/// The first `n` characters (`chars().take(n)`).
pub fn take_chars(s: &[char], n: usize) -> (r: Vec<char>)
    ensures
        r@ == if n <= s@.len() {
            s@.take(n as int)
        } else {
            s@
        },
{
    if n <= s.len() {
        subvec(s, 0, n)
    } else {
        assert(s@.subrange(0, s@.len() as int) =~= s@);
        subvec(s, 0, s.len())
    }
}


/// A line without the `\r` of a `\r\n` ending.
pub open spec fn strip_cr(line: Seq<char>) -> Seq<char> {
    if line.len() > 0 && line.last() == '\r' {
        line.drop_last()
    } else {
        line
    }
}

/// `str::lines`: pieces between `\n`s, each line that a `\n` ends losing one
/// trailing `\r`, and no empty last line after a final `\n`.
pub open spec fn lines_of(s: Seq<char>) -> Seq<Seq<char>> {
    let parts = split_on(s, '\n');
    let body = parts.drop_last().map_values(|p: Seq<char>| strip_cr(p));
    if parts.last().len() == 0 {
        body
    } else {
        body.push(parts.last())
    }
}

/// `str::lines` on a character slice.
pub fn lines_chars(s: &[char]) -> (r: Vec<Vec<char>>)
    ensures
        views(r@) == lines_of(s@),
{
    let parts = split_chars(s, '\n');
    proof {
        lemma_split_on_nonempty(s@, '\n');
    }
    let ghost ps = split_on(s@, '\n');
    let n = parts.len();
    let mut out: Vec<Vec<char>> = Vec::new();
    let mut k: usize = 0;
    while k + 1 < n
        invariant
            n == parts@.len(),
            n >= 1,
            views(parts@) == ps,
            k + 1 <= n,
            views(out@) == ps.take(k as int).map_values(|p: Seq<char>| strip_cr(p)),
        decreases n - k,
    {
        let part = &parts[k];
        let m = part.len();
        let line = if m > 0 && part[m - 1] == '\r' {
            subvec(part.as_slice(), 0, m - 1)
        } else {
            subvec(part.as_slice(), 0, m)
        };
        proof {
            assert(ps[k as int] == part@);
            assert(part@.subrange(0, m as int) =~= part@);
            if m > 0 {
                assert(part@.drop_last() =~= part@.subrange(0, m - 1));
            }
        }
        let ghost before = views(out@);
        out.push(line);
        assert(views(out@) =~= before.push(line@));
        assert(ps.take(k + 1).map_values(|p: Seq<char>| strip_cr(p)) =~= ps.take(
            k as int,
        ).map_values(|p: Seq<char>| strip_cr(p)).push(strip_cr(ps[k as int])));
        k += 1;
    }
    assert(ps.take(k as int) =~= ps.drop_last());
    let last = &parts[n - 1];
    assert(ps.last() == last@);
    if last.len() > 0 {
        let ghost before = views(out@);
        let l = subvec(last.as_slice(), 0, last.len());
        assert(last@.subrange(0, last@.len() as int) =~= last@);
        out.push(l);
        assert(views(out@) =~= before.push(l@));
    }
    out
}

/// `s` with every trailing repetition of `p` removed (`trim_end_matches`).
pub open spec fn strip_trailing_repeats(s: Seq<char>, p: Seq<char>) -> Seq<char>
    decreases s.len(),
{
    if p.len() > 0 && ends_with(s, p) {
        strip_trailing_repeats(s.subrange(0, s.len() - p.len()), p)
    } else {
        s
    }
}

/// `trim_end_matches` with a string pattern, on character slices.
pub fn strip_trailing_repeats_chars(s: &[char], p: &[char]) -> (r: Vec<char>)
    ensures
        r@ == strip_trailing_repeats(s@, p@),
{
    let m = p.len();
    let mut end = s.len();
    let cur0 = subvec(s, 0, end);
    assert(s@.subrange(0, end as int) =~= s@);
    if m == 0 {
        return cur0;
    }
    while end >= m && match_at(s, p, end - m)
        invariant
            m == p@.len(),
            m > 0,
            end <= s@.len(),
            strip_trailing_repeats(s@, p@) == strip_trailing_repeats(s@.subrange(0, end as int), p@),
        decreases end,
    {
        let ghost cur = s@.subrange(0, end as int);
        assert(cur.subrange(end - m, end as int) =~= s@.subrange(end - m, end as int));
        assert(cur.subrange(0, end - m) =~= s@.subrange(0, end - m));
        end -= m;
    }
    proof {
        let cur = s@.subrange(0, end as int);
        if end >= m {
            assert(cur.subrange(end - m, end as int) =~= s@.subrange(end - m, end as int));
        }
    }
    subvec(s, 0, end)
}


/// The views of a sequence of strings.
pub open spec fn string_views(v: Seq<String>) -> Seq<Seq<char>> {
    v.map_values(|x: String| x@)
}

/// Each character vector as a `String`.
pub fn to_strings(v: &Vec<Vec<char>>) -> (r: Vec<String>)
    ensures
        string_views(r@) == views(v@),
{
    let n = v.len();
    let mut out: Vec<String> = Vec::new();
    let mut i: usize = 0;
    while i < n
        invariant
            n == v@.len(),
            i <= n,
            string_views(out@) =~= views(v@).take(i as int),
        decreases n - i,
    {
        let s = from_chars(v[i].as_slice());
        out.push(s);
        assert(views(v@).take(i + 1) =~= views(v@).take(i as int).push(v@[i as int]@));
        i += 1;
    }
    assert(views(v@).take(n as int) =~= views(v@));
    out
}

/// Each `String` as a character vector.
pub fn to_char_vecs(v: &Vec<String>) -> (r: Vec<Vec<char>>)
    ensures
        views(r@) == string_views(v@),
{
    let n = v.len();
    let mut out: Vec<Vec<char>> = Vec::new();
    let mut i: usize = 0;
    while i < n
        invariant
            n == v@.len(),
            i <= n,
            views(out@) =~= string_views(v@).take(i as int),
        decreases n - i,
    {
        let s = to_chars(v[i].as_str());
        out.push(s);
        assert(string_views(v@).take(i + 1) =~= string_views(v@).take(i as int).push(v@[i as int]@));
        i += 1;
    }
    assert(string_views(v@).take(n as int) =~= string_views(v@));
    out
}

/// The first `n` elements, or all of them when there are fewer (`take(n)`).
pub open spec fn first_n<A>(s: Seq<A>, n: nat) -> Seq<A> {
    if s.len() <= n {
        s
    } else {
        s.take(n as int)
    }
}

// ---------------------------------------------------------------------------
// Unicode case mappings from std
// ---------------------------------------------------------------------------

/// What `str::to_lowercase` yields: Unicode lower-case mapping, including the
/// context-sensitive final sigma rule.
pub uninterp spec fn unicode_lowercase(s: Seq<char>) -> Seq<char>;

/// Calls `str::to_lowercase`.
#[verifier::external_body]
pub(crate) fn to_lowercase(s: &str) -> (r: String)
    ensures
        r@ == unicode_lowercase(s@),
{
    s.to_lowercase()
}

/// What `char::to_uppercase` yields, collected into a string.
pub uninterp spec fn unicode_uppercase_char(c: char) -> Seq<char>;

/// Calls `char::to_uppercase`.
#[verifier::external_body]
pub(crate) fn char_to_uppercase(c: char) -> (r: String)
    ensures
        r@ == unicode_uppercase_char(c),
{
    c.to_uppercase().to_string()
}

/// What `char::is_alphanumeric` answers (Unicode `Alphabetic` or `Numeric`).
pub uninterp spec fn unicode_alphanumeric(c: char) -> bool;

/// Calls `char::is_alphanumeric`.
#[verifier::external_body]
pub(crate) fn char_is_alphanumeric(c: char) -> (r: bool)
    ensures
        r == unicode_alphanumeric(c),
{
    c.is_alphanumeric()
}

/// `s` with every `c` removed.
pub open spec fn remove_char(s: Seq<char>, c: char) -> Seq<char>
    decreases s.len(),
{
    if s.len() == 0 {
        s
    } else if s.last() == c {
        remove_char(s.drop_last(), c)
    } else {
        remove_char(s.drop_last(), c).push(s.last())
    }
}

pub fn remove_char_chars(s: &[char], c: char) -> (r: Vec<char>)
    ensures
        r@ == remove_char(s@, c),
{
    let n = s.len();
    let mut out: Vec<char> = Vec::new();
    let mut i: usize = 0;
    assert(s@.take(0) =~= Seq::<char>::empty());
    while i < n
        invariant
            n == s@.len(),
            i <= n,
            out@ == remove_char(s@.take(i as int), c),
        decreases n - i,
    {
        assert(s@.take(i + 1).drop_last() =~= s@.take(i as int));
        assert(s@.take(i + 1).last() == s@[i as int]);
        if s[i] != c {
            out.push(s[i]);
        }
        i += 1;
    }
    assert(s@.take(n as int) =~= s@);
    out
}

/// Captured page text normalised for indexing: carriage returns dropped, then
/// every whitespace run collapsed to one space and the ends trimmed.
pub open spec fn normalized_text(s: Seq<char>) -> Seq<char> {
    collapse_ws(remove_char(s, '\r'))
}

pub fn normalize_captured_text(text: &str) -> (r: String)
    ensures
        r@ == normalized_text(text@),
{
    let v = to_chars(text);
    let without_cr = remove_char_chars(v.as_slice(), '\r');
    let collapsed = collapse_ws_chars(without_cr.as_slice());
    from_chars(collapsed.as_slice())
}

/// Counts words: maximal runs of non-whitespace characters.
pub fn count_words(s: &[char]) -> (r: usize)
    ensures
        r as nat == word_count(s@),
{
    let n = s.len();
    let mut count: usize = 0;
    let mut i: usize = 0;
    assert(s@.take(0) =~= Seq::<char>::empty());
    while i < n
        invariant
            n == s@.len(),
            i <= n,
            count as nat == word_count(s@.take(i as int)),
            count <= i,
        decreases n - i,
    {
        assert(s@.take(i + 1).drop_last() =~= s@.take(i as int));
        assert(s@.take(i + 1).last() == s@[i as int]);
        if i > 0 {
            assert(s@.take(i + 1)[i - 1] == s@[i - 1]);
        }
        if !char_is_whitespace(s[i]) && (i == 0 || char_is_whitespace(s[i - 1])) {
            count += 1;
        }
        i += 1;
    }
    assert(s@.take(n as int) =~= s@);
    count
}

} // verus!
