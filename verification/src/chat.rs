//! Chat prompt assembly and model-output cleanup.
//!
//! A local model's raw output is not presentable as it stands: it leaks stop
//! markers, invents citation numbers past the source count, and spaces brackets
//! inconsistently. Page text fed to it carries its own numeric reference markers,
//! which must not be mistaken for the assistant's source numbers.

use vstd::prelude::*;
use vstd::string::StringSliceAdditionalSpecFns;
use vstd::utf8::{
    encode_utf8, encode_scalar, is_ascii_chars, is_ascii_chars_encode_utf8, is_scalar, char_is_scalar,
    char_u32_cast, leading_byte_width_1, leading_byte_width_2, leading_byte_width_3,
    leading_byte_width_4, last_continuation_byte, second_last_continuation_byte,
    third_last_continuation_byte,
};
use crate::text::{
    is_ws, is_digit, trim_ws, replace_seq, to_chars, from_chars, push_all, subvec, trim_chars,
    char_is_digit, char_is_whitespace, replace_chars, contains_seq, str_contains, push_str_chars,
    join_with, join_chars, take_chars, views, split_on, matches_at,
};
use crate::numbers::{decimal_usize, decimal_chars, parse_usize_digits, decimal_digits};

verus! {

// ---------------------------------------------------------------------------
// Finding characters
// ---------------------------------------------------------------------------

/// Index of the first `c` in `t`.
pub open spec fn find_char(t: Seq<char>, c: char) -> Option<int>
    decreases t.len(),
{
    if t.len() == 0 {
        None
    } else if t[0] == c {
        Some(0)
    } else {
        match find_char(t.drop_first(), c) {
            Some(i) => Some(i + 1),
            None => None,
        }
    }
}

pub proof fn lemma_find_char(t: Seq<char>, c: char)
    ensures
        match find_char(t, c) {
            Some(i) => 0 <= i < t.len() && t[i] == c && forall|j: int| 0 <= j < i ==> t[j] != c,
            None => forall|j: int| 0 <= j < t.len() ==> t[j] != c,
        },
    decreases t.len(),
{
    if t.len() > 0 && t[0] != c {
        lemma_find_char(t.drop_first(), c);
        match find_char(t.drop_first(), c) {
            Some(i) => {
                assert forall|j: int| 0 <= j < i + 1 implies t[j] != c by {
                    if j > 0 {
                        assert(t[j] == t.drop_first()[j - 1]);
                    }
                }
            },
            None => {
                assert forall|j: int| 0 <= j < t.len() implies t[j] != c by {
                    if j > 0 {
                        assert(t[j] == t.drop_first()[j - 1]);
                    }
                }
            },
        }
    }
}

/// First `c` in `s` at or after `from`, as a position in `s`.
pub fn find_char_from(s: &[char], c: char, from: usize) -> (r: Option<usize>)
    requires
        from <= s@.len(),
    ensures
        match r {
            Some(i) => find_char(s@.subrange(from as int, s@.len() as int), c) == Some(i - from)
                && from <= i < s@.len(),
            None => find_char(s@.subrange(from as int, s@.len() as int), c) is None,
        },
{
    let n = s.len();
    let mut i = from;
    let ghost t = s@.subrange(from as int, n as int);
    while i < n
        invariant
            from <= i <= n,
            n == s@.len(),
            t == s@.subrange(from as int, n as int),
            forall|j: int| from <= j < i ==> s@[j] != c,
        decreases n - i,
    {
        if s[i] == c {
            proof {
                lemma_find_char(t, c);
                match find_char(t, c) {
                    Some(k) => {
                        assert(t[i - from] == c);
                        if k < i - from {
                            assert(t[k] == s@[from + k]);
                        }
                        assert(k == i - from);
                    },
                    None => {
                        assert(t[i - from] == c);
                    },
                }
            }
            return Some(i);
        }
        i += 1;
    }
    proof {
        lemma_find_char(t, c);
        match find_char(t, c) {
            Some(k) => {
                assert(t[k] == s@[from + k]);
            },
            None => {},
        }
    }
    None
}

// ---------------------------------------------------------------------------
// Numeric citation markers
// ---------------------------------------------------------------------------

/// Only digits, commas and whitespace.
pub open spec fn marker_chars_ok(v: Seq<char>) -> bool {
    forall|i: int| 0 <= i < v.len() ==> (is_digit(#[trigger] v[i]) || v[i] == ',' || is_ws(v[i]))
}

/// Each trimmed piece read as a `usize`; `None` if any piece is not a number.
pub open spec fn parse_marker_parts(parts: Seq<Seq<char>>) -> Option<Seq<usize>>
    decreases parts.len(),
{
    if parts.len() == 0 {
        Some(Seq::empty())
    } else {
        match (parse_marker_parts(parts.drop_last()), decimal_usize(trim_ws(parts.last()))) {
            (Some(a), Some(b)) => Some(a.push(b)),
            _ => None,
        }
    }
}

/// The numbers inside a bracket such as `[1, 16]`, or `None` when the bracket is
/// not a numeric citation marker.
pub open spec fn citation_marker_numbers(v: Seq<char>) -> Option<Seq<usize>> {
    if trim_ws(v).len() == 0 || !marker_chars_ok(v) {
        None
    } else {
        parse_marker_parts(split_on(v, ','))
    }
}

fn marker_numbers(v: &[char]) -> (r: Option<Vec<usize>>)
    ensures
        match r {
            Some(nums) => citation_marker_numbers(v@) == Some(nums@),
            None => citation_marker_numbers(v@) is None,
        },
{
    let t = trim_chars(v);
    if t.len() == 0 {
        return None;
    }
    let n = v.len();
    let mut i: usize = 0;
    while i < n
        invariant
            n == v@.len(),
            i <= n,
            forall|k: int| 0 <= k < i ==> (is_digit(#[trigger] v@[k]) || v@[k] == ',' || is_ws(
                v@[k],
            )),
        decreases n - i,
    {
        let c = v[i];
        if !(char_is_digit(c) || c == ',' || char_is_whitespace(c)) {
            return None;
        }
        i += 1;
    }
    let mut nums: Vec<usize> = Vec::new();
    let mut cur: Vec<char> = Vec::new();
    let mut ok = true;
    let ghost mut done: Seq<Seq<char>> = Seq::empty();
    let mut j: usize = 0;
    assert(v@.take(0) =~= Seq::<char>::empty());
    while j < n
        invariant
            n == v@.len(),
            j <= n,
            split_on(v@.take(j as int), ',') == done.push(cur@),
            parse_marker_parts(done) == if ok {
                Some(nums@)
            } else {
                None::<Seq<usize>>
            },
        decreases n - j,
    {
        let c = v[j];
        assert(v@.take(j + 1).drop_last() =~= v@.take(j as int));
        assert(v@.take(j + 1).last() == c);
        if c == ',' {
            let piece = trim_chars(cur.as_slice());
            let parsed = parse_usize_digits(piece.as_slice());
            proof {
                assert(done.push(cur@).drop_last() =~= done);
            }
            match parsed {
                Some(x) => {
                    if ok {
                        nums.push(x);
                    }
                },
                None => {
                    ok = false;
                },
            }
            proof {
                done = done.push(cur@);
            }
            cur = Vec::new();
            assert(split_on(v@.take(j + 1), ',') =~= done.push(cur@));
        } else {
            cur.push(c);
            assert(split_on(v@.take(j + 1), ',') =~= done.push(cur@));
        }
        j += 1;
    }
    assert(v@.take(n as int) =~= v@);
    let piece = trim_chars(cur.as_slice());
    let parsed = parse_usize_digits(piece.as_slice());
    assert(done.push(cur@).drop_last() =~= done);
    match parsed {
        Some(x) => {
            if ok {
                nums.push(x);
                Some(nums)
            } else {
                None
            }
        },
        None => None,
    }
}

/// Reads the inside of a bracket as a list of citation numbers (`"1, 16"`).
pub fn parse_numeric_citation_marker(value: &str) -> (r: Option<Vec<usize>>)
    ensures
        match r {
            Some(nums) => citation_marker_numbers(value@) == Some(nums@),
            None => citation_marker_numbers(value@) is None,
        },
{
    let v = to_chars(value);
    marker_numbers(v.as_slice())
}

/// The numbers in `nums` that name one of the sources `1..=count`.
pub open spec fn in_range_numbers(nums: Seq<usize>, count: usize) -> Seq<usize>
    decreases nums.len(),
{
    if nums.len() == 0 {
        Seq::empty()
    } else {
        let r = in_range_numbers(nums.drop_last(), count);
        if 0 < nums.last() && nums.last() <= count {
            r.push(nums.last())
        } else {
            r
        }
    }
}

/// Decimal renderings of `nums`, separated by `", "`.
pub open spec fn join_decimals(nums: Seq<usize>) -> Seq<char>
    decreases nums.len(),
{
    if nums.len() == 0 {
        Seq::empty()
    } else if nums.len() == 1 {
        decimal_chars(nums[0] as nat)
    } else {
        join_decimals(nums.drop_last()) + seq![',', ' '] + decimal_chars(nums.last() as nat)
    }
}

/// What a numeric marker becomes: with `keep_valid`, the in-range numbers in
/// brackets (nothing when none are in range); otherwise nothing.
pub open spec fn rendered_marker(nums: Seq<usize>, count: usize, keep_valid: bool) -> Seq<char> {
    let valid = in_range_numbers(nums, count);
    if keep_valid && valid.len() > 0 {
        seq!['['] + join_decimals(valid) + seq![']']
    } else {
        Seq::empty()
    }
}

fn render_marker(nums: &[usize], count: usize, keep_valid: bool) -> (r: Vec<char>)
    ensures
        r@ == rendered_marker(nums@, count, keep_valid),
{
    let mut out: Vec<char> = Vec::new();
    if !keep_valid {
        return out;
    }
    let n = nums.len();
    let mut i: usize = 0;
    let mut any = false;
    assert(nums@.take(0) =~= Seq::<usize>::empty());
    while i < n
        invariant
            n == nums@.len(),
            i <= n,
            any == (in_range_numbers(nums@.take(i as int), count).len() > 0),
            out@ == join_decimals(in_range_numbers(nums@.take(i as int), count)),
        decreases n - i,
    {
        let x = nums[i];
        assert(nums@.take(i + 1).drop_last() =~= nums@.take(i as int));
        assert(nums@.take(i + 1).last() == x);
        if 0 < x && x <= count {
            let d = decimal_digits(x);
            let ghost prev = in_range_numbers(nums@.take(i as int), count);
            if any {
                out.push(',');
                out.push(' ');
                push_all(&mut out, d.as_slice());
                assert(prev.push(x).drop_last() =~= prev);
                assert(out@ =~= join_decimals(prev) + seq![',', ' '] + decimal_chars(x as nat));
            } else {
                push_all(&mut out, d.as_slice());
                assert(out@ =~= decimal_chars(x as nat));
            }
            any = true;
        }
        i += 1;
    }
    assert(nums@.take(n as int) =~= nums@);
    if !any {
        return Vec::new();
    }
    let mut r: Vec<char> = Vec::new();
    r.push('[');
    push_all(&mut r, out.as_slice());
    r.push(']');
    assert(r@ =~= seq!['['] + out@ + seq![']']);
    r
}

/// The text with every bracketed numeric marker (`[3]`, `[1, 16]`) rewritten by
/// `rendered_marker`, scanning left to right. A `[` with no `]` after it ends
/// the scan; a bracket that is not a numeric marker is kept as it stands.
pub open spec fn rewrite_markers(t: Seq<char>, count: usize, keep_valid: bool) -> Seq<char>
    decreases t.len(),
{
    match find_char(t, '[') {
        None => t,
        Some(s) => {
            proof {
                lemma_find_char(t, '[');
            }
            let after = t.subrange(s + 1, t.len() as int);
            match find_char(after, ']') {
                None => t,
                Some(e0) => {
                    proof {
                        lemma_find_char(after, ']');
                    }
                    let e = s + 1 + e0;
                    match citation_marker_numbers(t.subrange(s + 1, e)) {
                        None => t.subrange(0, s + 1) + rewrite_markers(after, count, keep_valid),
                        Some(nums) => t.subrange(0, s) + rendered_marker(nums, count, keep_valid)
                            + rewrite_markers(t.subrange(e + 1, t.len() as int), count, keep_valid),
                    }
                },
            }
        },
    }
}

/// One step of the marker scan from `cursor`: the text it emits and where the
/// scan resumes.
fn rewrite_step(s: &[char], cursor: usize, citation_count: usize, keep_valid: bool) -> (r: (
    Vec<char>,
    usize,
))
    requires
        cursor < s@.len(),
    ensures
        cursor < r.1 <= s@.len(),
        rewrite_markers(s@.subrange(cursor as int, s@.len() as int), citation_count, keep_valid)
            == r.0@ + rewrite_markers(
            s@.subrange(r.1 as int, s@.len() as int),
            citation_count,
            keep_valid,
        ),
{
    let n = s.len();
    let ghost t = s@.subrange(cursor as int, n as int);
    let tail_all = subvec(s, cursor, n);
    assert(s@.subrange(n as int, n as int) =~= Seq::<char>::empty());
    assert(tail_all@ + Seq::<char>::empty() =~= tail_all@);
    let start = match find_char_from(s, '[', cursor) {
        Some(x) => x,
        None => {
            return (tail_all, n);
        },
    };
    proof {
        lemma_find_char(t, '[');
        assert(t.subrange(start - cursor + 1, t.len() as int) =~= s@.subrange(
            start + 1,
            n as int,
        ));
    }
    if start + 1 >= n {
        proof {
            assert(find_char(s@.subrange(start + 1, n as int), ']') is None);
        }
        return (tail_all, n);
    }
    let end = match find_char_from(s, ']', start + 1) {
        Some(x) => x,
        None => {
            return (tail_all, n);
        },
    };
    proof {
        lemma_find_char(s@.subrange(start + 1, n as int), ']');
        assert(t.subrange(start - cursor + 1, end - cursor) =~= s@.subrange(
            start + 1,
            end as int,
        ));
        assert(t.subrange(0, start - cursor + 1) =~= s@.subrange(cursor as int, start + 1));
        assert(t.subrange(0, start - cursor) =~= s@.subrange(cursor as int, start as int));
        assert(t.subrange(end - cursor + 1, t.len() as int) =~= s@.subrange(end + 1, n as int));
    }
    let inner = subvec(s, start + 1, end);
    match marker_numbers(inner.as_slice()) {
        Some(nums) => {
            let mut out = subvec(s, cursor, start);
            let rendered = render_marker(nums.as_slice(), citation_count, keep_valid);
            push_all(&mut out, rendered.as_slice());
            (out, end + 1)
        },
        None => {
            let out = subvec(s, cursor, start + 1);
            (out, start + 1)
        },
    }
}

fn rewrite_marker_chars(s: &[char], citation_count: usize, keep_valid: bool) -> (r: Vec<char>)
    ensures
        r@ == rewrite_markers(s@, citation_count, keep_valid),
{
    let n = s.len();
    let mut out: Vec<char> = Vec::new();
    let mut cursor: usize = 0;
    assert(s@.subrange(0, n as int) =~= s@);
    while cursor < n
        invariant
            n == s@.len(),
            cursor <= n,
            rewrite_markers(s@, citation_count, keep_valid) == out@ + rewrite_markers(
                s@.subrange(cursor as int, n as int),
                citation_count,
                keep_valid,
            ),
        decreases n - cursor,
    {
        let (piece, next) = rewrite_step(s, cursor, citation_count, keep_valid);
        let ghost before = out@;
        push_all(&mut out, piece.as_slice());
        assert(before + (piece@ + rewrite_markers(
            s@.subrange(next as int, n as int),
            citation_count,
            keep_valid,
        )) =~= out@ + rewrite_markers(s@.subrange(next as int, n as int), citation_count, keep_valid));
        cursor = next;
    }
    assert(s@.subrange(n as int, n as int) =~= Seq::<char>::empty());
    assert(rewrite_markers(Seq::<char>::empty(), citation_count, keep_valid) =~= Seq::<char>::empty());
    assert(out@ + Seq::<char>::empty() =~= out@);
    out
}

/// Rewrites numeric bracket markers: with `keep_valid`, markers keep only the
/// numbers `1..=citation_count`; without it, every numeric marker is removed.
pub fn rewrite_numeric_bracket_markers(text: &str, citation_count: usize, keep_valid: bool) -> (r:
    String)
    ensures
        r@ == rewrite_markers(text@, citation_count, keep_valid),
{
    let v = to_chars(text);
    let w = rewrite_marker_chars(v.as_slice(), citation_count, keep_valid);
    from_chars(w.as_slice())
}

/// Removes page-native numeric reference markers such as `[1][2]`.
pub fn strip_numeric_bracket_markers(text: &str) -> (r: String)
    ensures
        r@ == rewrite_markers(text@, 0, false),
{
    rewrite_numeric_bracket_markers(text, 0, false)
}

// ---------------------------------------------------------------------------
// Spacing around citations
// ---------------------------------------------------------------------------

/// Each run of spaces shortened to one space.
pub open spec fn squeeze_spaces(s: Seq<char>) -> Seq<char>
    decreases s.len(),
{
    if s.len() == 0 {
        s
    } else if s.len() >= 2 && s.last() == ' ' && s[s.len() - 2] == ' ' {
        squeeze_spaces(s.drop_last())
    } else {
        squeeze_spaces(s.drop_last()).push(s.last())
    }
}

/// The punctuation rules `tidy_citation_spacing` applies, in order.
pub open spec fn spacing_rules() -> Seq<(Seq<char>, Seq<char>)> {
    seq![
        (" ."@, "."@),
        (" ,"@, ","@),
        (" ;"@, ";"@),
        (" :"@, ":"@),
        (" !"@, "!"@),
        (" ?"@, "?"@),
        (" )"@, ")"@),
        ("( "@, "("@),
    ]
}

/// `s` with each rule of `rules` applied as a `str::replace`, first rule first.
pub open spec fn apply_replacements(s: Seq<char>, rules: Seq<(Seq<char>, Seq<char>)>) -> Seq<
    char,
>
    decreases rules.len(),
{
    if rules.len() == 0 {
        s
    } else {
        let r = apply_replacements(s, rules.drop_last());
        replace_seq(r, rules.last().0, rules.last().1)
    }
}

/// Trimmed, no space before closing punctuation or after `(`, no double spaces.
pub open spec fn tidy_spacing(s: Seq<char>) -> Seq<char> {
    squeeze_spaces(apply_replacements(trim_ws(s), spacing_rules()))
}

fn squeeze_space_chars(s: &[char]) -> (r: Vec<char>)
    ensures
        r@ == squeeze_spaces(s@),
{
    let n = s.len();
    let mut out: Vec<char> = Vec::new();
    let mut i: usize = 0;
    assert(s@.take(0) =~= Seq::<char>::empty());
    while i < n
        invariant
            n == s@.len(),
            i <= n,
            out@ == squeeze_spaces(s@.take(i as int)),
        decreases n - i,
    {
        let c = s[i];
        assert(s@.take(i + 1).drop_last() =~= s@.take(i as int));
        assert(s@.take(i + 1).last() == c);
        if !(c == ' ' && i > 0 && s[i - 1] == ' ') {
            out.push(c);
        }
        proof {
            if i > 0 {
                assert(s@.take(i + 1)[i - 1] == s@[i - 1]);
            }
        }
        i += 1;
    }
    assert(s@.take(n as int) =~= s@);
    out
}

fn spacing_rule_list() -> (r: Vec<(Vec<char>, Vec<char>)>)
    ensures
        r@.len() == spacing_rules().len(),
        forall|k: int|
            0 <= k < r@.len() ==> (#[trigger] r@[k]).0@ == spacing_rules()[k].0 && r@[k].1@
                == spacing_rules()[k].1,
{
    let mut v: Vec<(Vec<char>, Vec<char>)> = Vec::new();
    v.push((to_chars(" ."), to_chars(".")));
    v.push((to_chars(" ,"), to_chars(",")));
    v.push((to_chars(" ;"), to_chars(";")));
    v.push((to_chars(" :"), to_chars(":")));
    v.push((to_chars(" !"), to_chars("!")));
    v.push((to_chars(" ?"), to_chars("?")));
    v.push((to_chars(" )"), to_chars(")")));
    v.push((to_chars("( "), to_chars("(")));
    v
}

/// Trims, removes the space before closing punctuation and after `(`, and
/// collapses double spaces.
pub fn tidy_citation_spacing(value: &str) -> (r: String)
    ensures
        r@ == tidy_spacing(value@),
{
    let v = to_chars(value);
    let mut cur = trim_chars(v.as_slice());
    let rules = spacing_rule_list();
    let n = rules.len();
    let mut i: usize = 0;
    assert(spacing_rules().take(0) =~= Seq::<(Seq<char>, Seq<char>)>::empty());
    while i < n
        invariant
            n == rules@.len(),
            n == spacing_rules().len(),
            i <= n,
            forall|k: int|
                0 <= k < rules@.len() ==> (#[trigger] rules@[k]).0@ == spacing_rules()[k].0
                    && rules@[k].1@ == spacing_rules()[k].1,
            cur@ == apply_replacements(trim_ws(value@), spacing_rules().take(i as int)),
        decreases n - i,
    {
        let ghost before = cur@;
        let from = &rules[i].0;
        let to = &rules[i].1;
        assert(spacing_rules().take(i + 1).drop_last() =~= spacing_rules().take(i as int));
        assert(spacing_rules().take(i + 1).last() == spacing_rules()[i as int]);
        if from.len() > 0 {
            cur = replace_chars(cur.as_slice(), from.as_slice(), to.as_slice());
        }
        i += 1;
    }
    assert(spacing_rules().take(n as int) =~= spacing_rules());
    let squeezed = squeeze_space_chars(cur.as_slice());
    from_chars(squeezed.as_slice())
}

/// Keeps only citation numbers that name one of the `citation_count` sources,
/// then tidies the spacing the removals leave behind.
pub fn normalize_answer_citations(answer: &str, citation_count: usize) -> (r: String)
    ensures
        r@ == tidy_spacing(rewrite_markers(answer@, citation_count, true)),
{
    let rewritten = rewrite_numeric_bracket_markers(answer, citation_count, true);
    tidy_citation_spacing(rewritten.as_str())
}

// ---------------------------------------------------------------------------
// History and streaming
// ---------------------------------------------------------------------------

/// Answers from earlier turns are summarised into the prompt, not replayed whole.
pub const PROMPT_HISTORY_ANSWER_CHARS: usize = 480;

/// A past answer as replayed into the prompt: citation markers removed,
/// trimmed, and clipped to `PROMPT_HISTORY_ANSWER_CHARS` characters plus `…`.
pub open spec fn condensed_answer(answer: Seq<char>) -> Seq<char> {
    let t = trim_ws(rewrite_markers(answer, 0, false));
    if t.len() <= PROMPT_HISTORY_ANSWER_CHARS {
        t
    } else {
        t.take(PROMPT_HISTORY_ANSWER_CHARS as int).push('…')
    }
}

/// Strips citation markers from a previous answer and clips its length.
pub fn condense_history_answer(answer: &str) -> (r: String)
    ensures
        r@ == condensed_answer(answer@),
{
    let v = to_chars(answer);
    let cleaned = rewrite_marker_chars(v.as_slice(), 0, false);
    let trimmed = trim_chars(cleaned.as_slice());
    if trimmed.len() <= PROMPT_HISTORY_ANSWER_CHARS {
        return from_chars(trimmed.as_slice());
    }
    let mut clipped = subvec(trimmed.as_slice(), 0, PROMPT_HISTORY_ANSWER_CHARS);
    clipped.push('…');
    from_chars(clipped.as_slice())
}

pub open spec fn is_continuation_byte(b: u8) -> bool {
    0x80 <= b < 0xC0
}

/// The first character boundary at or after byte `i`, if one exists before the end.
pub open spec fn first_boundary_from(b: Seq<u8>, i: int) -> Option<int>
    decreases b.len() - i,
{
    if i < 0 || i >= b.len() {
        None
    } else if !is_continuation_byte(b[i]) {
        Some(i)
    } else {
        first_boundary_from(b, i + 1)
    }
}

/// The last `<` byte in `b[lo..j]`.
pub open spec fn last_open_angle(b: Seq<u8>, lo: int, j: int) -> Option<int>
    decreases j - lo,
{
    if j <= lo {
        None
    } else if b[j - 1] == 0x3C {
        Some(j - 1)
    } else {
        last_open_angle(b, lo, j - 1)
    }
}

/// How many bytes of streamed output may be shown: everything, unless the last
/// 18 bytes (widened to a character boundary) hold a `<`, in which case the
/// text from the last such `<` is held back.
pub open spec fn stream_safe_prefix(b: Seq<u8>) -> int {
    let tail_start = if b.len() >= 18 {
        b.len() - 18
    } else {
        0
    };
    match first_boundary_from(b, tail_start) {
        None => b.len() as int,
        Some(k) => match last_open_angle(b, k, b.len() as int) {
            Some(p) => p,
            None => b.len() as int,
        },
    }
}

/// Streaming deltas hold back a short tail starting at the most recent `<` so a
/// stop marker arriving across several tokens is never shown to the user.
pub fn stream_safe_len(output: &str) -> (r: usize)
    ensures
        r as int == stream_safe_prefix(output.spec_bytes()),
{
    let bytes = output.as_bytes();
    let n = bytes.len();
    let ghost b = output.spec_bytes();
    let tail_start = n.saturating_sub(18);
    let mut k = tail_start;
    while k < n && 0x80 <= bytes[k] && bytes[k] < 0xC0
        invariant
            tail_start <= k <= n,
            n == b.len(),
            bytes@ == b,
            first_boundary_from(b, tail_start as int) == first_boundary_from(b, k as int),
        decreases n - k,
    {
        k += 1;
    }
    if k >= n {
        return n;
    }
    let mut j = n;
    while j > k && bytes[j - 1] != 0x3C
        invariant
            k < n,
            k <= j <= n,
            n == b.len(),
            bytes@ == b,
            last_open_angle(b, k as int, n as int) == last_open_angle(b, k as int, j as int),
        decreases j,
    {
        j -= 1;
    }
    if j > k {
        j - 1
    } else {
        n
    }
}

/// The stop markers of the chat templates in use.
pub open spec fn has_stop_marker(s: Seq<char>) -> bool {
    ||| contains_seq(s, "<end_of_turn>"@)
    ||| contains_seq(s, "<start_of_turn>"@)
    ||| contains_seq(s, "<turn|>"@)
    ||| contains_seq(s, "<|turn>"@)
    ||| contains_seq(s, "<|eot_id|>"@)
    ||| contains_seq(s, "<|end|>"@)
}

/// Whether generated output has reached a stop marker.
pub fn contains_stop_marker(output: &str) -> (r: bool)
    ensures
        r == has_stop_marker(output@),
{
    str_contains(output, "<end_of_turn>") || str_contains(output, "<start_of_turn>")
        || str_contains(output, "<turn|>") || str_contains(output, "<|turn>") || str_contains(
        output,
        "<|eot_id|>",
    ) || str_contains(output, "<|end|>")
}

/// The stop markers, each as the bytes a generated text would hold.
pub open spec fn stop_marker_bytes() -> Seq<Seq<u8>> {
    seq![
        encode_utf8("<end_of_turn>"@),
        encode_utf8("<start_of_turn>"@),
        encode_utf8("<turn|>"@),
        encode_utf8("<|turn>"@),
        encode_utf8("<|eot_id|>"@),
        encode_utf8("<|end|>"@),
    ]
}

/// A character encodes to its own byte when it is ASCII, and otherwise to
/// bytes that are none of them ASCII.
proof fn lemma_scalar_bytes(c: char)
    ensures
        encode_scalar(c as u32).len() >= 1,
        (c as u32) < 0x80 ==> encode_scalar(c as u32) == seq![(c as u32) as u8],
        (c as u32) >= 0x80 ==> forall|i: int|
            0 <= i < encode_scalar(c as u32).len() ==> #[trigger] encode_scalar(c as u32)[i] >= 0x80,
{
    let v = c as u32;
    assert(is_scalar(v)) by {
        char_is_scalar(c);
    }
    if v < 0x80 {
        assert(leading_byte_width_1(v) == v as u8) by (bit_vector)
            requires
                v < 0x80,
        ;
    } else {
        assert(0x80 <= last_continuation_byte(v)) by (bit_vector);
        assert(0x80 <= second_last_continuation_byte(v)) by (bit_vector);
        assert(0x80 <= third_last_continuation_byte(v)) by (bit_vector);
        assert(0x80 <= leading_byte_width_2(v)) by (bit_vector);
        assert(0x80 <= leading_byte_width_3(v)) by (bit_vector);
        assert(0x80 <= leading_byte_width_4(v)) by (bit_vector);
    }
}

proof fn lemma_encode_concat(a: Seq<char>, b: Seq<char>)
    ensures
        encode_utf8(a + b) == encode_utf8(a) + encode_utf8(b),
    decreases a.len(),
{
    if a.len() > 0 {
        assert((a + b).drop_first() =~= a.drop_first() + b);
        lemma_encode_concat(a.drop_first(), b);
        assert((a + b)[0] == a[0]);
        assert(encode_utf8(a + b) =~= encode_utf8(a) + encode_utf8(b));
    } else {
        assert(a + b =~= b);
        assert(encode_utf8(a) =~= Seq::<u8>::empty());
        assert(encode_utf8(a) + encode_utf8(b) =~= encode_utf8(b));
    }
}

/// Text whose bytes begin with those of an ASCII text begins with that text.
proof fn lemma_ascii_prefix(s: Seq<char>, m: Seq<char>)
    requires
        is_ascii_chars(m),
        encode_utf8(m).len() <= encode_utf8(s).len(),
        encode_utf8(s).subrange(0, encode_utf8(m).len() as int) == encode_utf8(m),
    ensures
        m.len() <= s.len(),
        s.subrange(0, m.len() as int) == m,
    decreases m.len(),
{
    if m.len() > 0 {
        let em = encode_utf8(m);
        let es = encode_utf8(s);
        lemma_scalar_bytes(m[0]);
        assert((m[0] as u32) < 0x80) by {
            assert('\0' <= m[0] <= '\u{7f}');
        }
        assert(em[0] == (m[0] as u32) as u8);
        assert(es.subrange(0, em.len() as int)[0] == es[0]);
        if s.len() == 0 {
            assert(es.len() == 0);
            assert(false);
        }
        lemma_scalar_bytes(s[0]);
        assert(es[0] == encode_scalar(s[0] as u32)[0]);
        assert((s[0] as u32) < 0x80);
        assert((s[0] as u32) == (m[0] as u32));
        assert(s[0] == m[0]) by {
            char_u32_cast(s[0], s[0] as u32);
            char_u32_cast(m[0], m[0] as u32);
        }
        let ms = m.drop_first();
        let ss = s.drop_first();
        assert(is_ascii_chars(ms)) by {
            assert forall|i: int| 0 <= i < ms.len() implies '\0' <= #[trigger] ms[i] <= '\u{7f}' by {
                assert(ms[i] == m[i + 1]);
            }
        }
        assert(em == seq![(m[0] as u32) as u8] + encode_utf8(ms));
        assert(es == seq![(s[0] as u32) as u8] + encode_utf8(ss));
        assert(encode_utf8(ss).subrange(0, encode_utf8(ms).len() as int) =~= encode_utf8(ms)) by {
            assert forall|i: int| 0 <= i < encode_utf8(ms).len() implies encode_utf8(ss)[i] == encode_utf8(ms)[i] by {
                assert(es.subrange(0, em.len() as int)[i + 1] == em[i + 1]);
            }
        }
        lemma_ascii_prefix(ss, ms);
        assert(s.subrange(0, m.len() as int) =~= m) by {
            assert forall|i: int| 0 <= i < m.len() implies s.subrange(0, m.len() as int)[i] == m[i] by {
                if i > 0 {
                    assert(ss.subrange(0, ms.len() as int)[i - 1] == ms[i - 1]);
                }
            }
        }
    }
}

/// An ASCII text found in the bytes of a text is found in the text.
proof fn lemma_bytes_find_chars(s: Seq<char>, m: Seq<char>, p: int)
    requires
        is_ascii_chars(m),
        m.len() > 0,
        bytes_at(encode_utf8(s), encode_utf8(m), p),
    ensures
        contains_seq(s, m),
    decreases s.len(),
{
    let es = encode_utf8(s);
    let em = encode_utf8(m);
    lemma_scalar_bytes(m[0]);
    assert((m[0] as u32) < 0x80) by {
        assert('\0' <= m[0] <= '\u{7f}');
    }
    if s.len() == 0 {
        assert(es.len() == 0);
        assert(false);
    }
    lemma_scalar_bytes(s[0]);
    let w = encode_scalar(s[0] as u32).len() as int;
    let rest = s.drop_first();
    assert(es == encode_scalar(s[0] as u32) + encode_utf8(rest));
    if p >= w {
        assert(encode_utf8(rest).subrange(p - w, p - w + em.len()) =~= es.subrange(p, p + em.len()));
        lemma_bytes_find_chars(rest, m, p - w);
        let i = choose|i: int| matches_at(rest, m, i);
        assert(s.subrange(i + 1, i + 1 + m.len()) =~= rest.subrange(i, i + m.len()));
        assert(matches_at(s, m, i + 1));
    } else {
        assert(em[0] == (m[0] as u32) as u8);
        assert(es.subrange(p, p + em.len())[0] == es[p]);
        assert(es[p] == encode_scalar(s[0] as u32)[p]);
        assert((s[0] as u32) < 0x80);
        assert(p == 0);
        lemma_ascii_prefix(s, m);
        assert(matches_at(s, m, 0));
    }
}

/// A text found in a text is found in its bytes.
proof fn lemma_chars_find_bytes(s: Seq<char>, m: Seq<char>, i: int)
    requires
        matches_at(s, m, i),
    ensures
        bytes_at(encode_utf8(s), encode_utf8(m), encode_utf8(s.subrange(0, i)).len() as int),
{
    let x = s.subrange(0, i);
    let y = s.subrange(i + m.len(), s.len() as int);
    assert(s =~= x + m + y);
    lemma_encode_concat(x + m, y);
    lemma_encode_concat(x, m);
    let ex = encode_utf8(x);
    let em = encode_utf8(m);
    assert(encode_utf8(s).subrange(ex.len() as int, (ex.len() + em.len()) as int) =~= em);
}

/// Whether the bytes `m` stand in `b` from position `p` on.
pub open spec fn bytes_at(b: Seq<u8>, m: Seq<u8>, p: int) -> bool {
    0 <= p && p + m.len() <= b.len() && b.subrange(p, p + m.len()) == m
}

/// Whether a stop marker starts at byte `p` of `b`.
pub open spec fn stop_marker_at(b: Seq<u8>, p: int) -> bool {
    exists|k: int| 0 <= k < 6 && bytes_at(b, #[trigger] stop_marker_bytes()[k], p)
}

/// Whether `b` holds a stop marker anywhere.
pub open spec fn holds_stop_marker(b: Seq<u8>) -> bool {
    exists|p: int| stop_marker_at(b, p)
}

proof fn lemma_marker_shape(k: int)
    requires
        0 <= k < 6,
    ensures
        1 <= stop_marker_bytes()[k].len() <= 18,
        stop_marker_bytes()[k][0] == 0x3C,
        forall|i: int| 1 <= i < stop_marker_bytes()[k].len() ==> stop_marker_bytes()[k][i] != 0x3C,
{
    reveal_strlit("<end_of_turn>");
    reveal_strlit("<start_of_turn>");
    reveal_strlit("<turn|>");
    reveal_strlit("<|turn>");
    reveal_strlit("<|eot_id|>");
    reveal_strlit("<|end|>");
    let m = if k == 0 {
        "<end_of_turn>"@
    } else if k == 1 {
        "<start_of_turn>"@
    } else if k == 2 {
        "<turn|>"@
    } else if k == 3 {
        "<|turn>"@
    } else if k == 4 {
        "<|eot_id|>"@
    } else {
        "<|end|>"@
    };
    assert(stop_marker_bytes()[k] == encode_utf8(m));
    assert(is_ascii_chars(m));
    is_ascii_chars_encode_utf8(m);
    assert forall|i: int| 1 <= i < m.len() implies m[i] != '<' by {}
    assert forall|i: int| 1 <= i < m.len() implies encode_utf8(m)[i] != 0x3C by {
        assert(m[i] as u8 == encode_utf8(m)[i]);
    }
    assert(m[0] as u8 == encode_utf8(m)[0]);
}

proof fn lemma_boundary_by(b: Seq<u8>, i: int, p: int)
    requires
        0 <= i <= p < b.len(),
        !is_continuation_byte(b[p]),
    ensures
        first_boundary_from(b, i) matches Some(k) && i <= k <= p,
    decreases p - i,
{
    if is_continuation_byte(b[i]) {
        lemma_boundary_by(b, i + 1, p);
    }
}

proof fn lemma_last_open_angle_below(b: Seq<u8>, lo: int, j: int)
    ensures
        last_open_angle(b, lo, j) matches Some(q) ==> q < j,
    decreases j - lo,
{
    if j > lo && b[j - 1] != 0x3C {
        lemma_last_open_angle_below(b, lo, j - 1);
    }
}

proof fn lemma_last_open_angle_is(b: Seq<u8>, lo: int, j: int, p: int)
    requires
        lo <= p < j <= b.len(),
        0 <= lo,
        b[p] == 0x3C,
        forall|q: int| p < q < j ==> b[q] != 0x3C,
    ensures
        last_open_angle(b, lo, j) == Some(p),
    decreases j - p,
{
    if j - 1 != p {
        lemma_last_open_angle_is(b, lo, j - 1, p);
    }
}

proof fn lemma_released_bytes_final(b: Seq<u8>, more: Seq<u8>, p: int)
    requires
        !holds_stop_marker(b),
        stop_marker_at(b + more, p),
    ensures
        stream_safe_prefix(b) <= p,
{
    let t = b + more;
    let k = choose|k: int| 0 <= k < 6 && bytes_at(t, #[trigger] stop_marker_bytes()[k], p);
    let m = stop_marker_bytes()[k];
    lemma_marker_shape(k);
    let n = b.len() as int;
    if p + m.len() <= n {
        assert(b.subrange(p, p + m.len()) =~= t.subrange(p, p + m.len()));
        assert(bytes_at(b, stop_marker_bytes()[k], p));
        assert(stop_marker_at(b, p));
        assert(holds_stop_marker(b));
    } else if p < n {
        assert(t.subrange(p, p + m.len())[0] == m[0]);
        assert(b[p] == 0x3C);
        assert forall|q: int| p < q < n implies b[q] != 0x3C by {
            assert(t.subrange(p, p + m.len())[q - p] == m[q - p]);
        }
        let tail_start = if n >= 18 { n - 18 } else { 0 };
        lemma_boundary_by(b, tail_start, p);
        let k0 = first_boundary_from(b, tail_start)->0;
        lemma_last_open_angle_is(b, k0, n, p);
        assert(stream_safe_prefix(b) == p);
    } else {
        let tail_start = if n >= 18 { n - 18 } else { 0 };
        match first_boundary_from(b, tail_start) {
            Some(k0) => lemma_last_open_angle_below(b, k0, n),
            None => {},
        }
        assert(stream_safe_prefix(b) <= n);
    }
}

/// What one generated token leads to while streaming.
pub struct StreamStep {
    /// The byte range of the output to hand to the token sink now, if any.
    pub release: Option<(usize, usize)>,
    /// Whether generation ends after this token.
    pub stop: bool,
}

/// The step after a token is appended to the output, with `streamed_len`
/// bytes already handed out and `tokens` generated of at most `max_tokens`:
/// a stop marker ends generation with nothing more released; otherwise the
/// output up to [`stream_safe_len`] is released where it reaches past what
/// was, and generation ends once the budget is spent.
pub fn stream_step(output: &str, streamed_len: usize, max_tokens: usize, tokens: usize) -> (r:
    StreamStep)
    ensures
        r.stop == (has_stop_marker(output@) || tokens >= max_tokens),
        has_stop_marker(output@) ==> r.release is None,
        !has_stop_marker(output@) ==> r.release == (if stream_safe_prefix(output.spec_bytes())
            > streamed_len {
            Some((streamed_len, stream_safe_prefix(output.spec_bytes()) as usize))
        } else {
            None
        }),
{
    if contains_stop_marker(output) {
        return StreamStep { release: None, stop: true };
    }
    let safe = stream_safe_len(output);
    let release = if safe > streamed_len {
        Some((streamed_len, safe))
    } else {
        None
    };
    StreamStep { release, stop: tokens >= max_tokens }
}

/// The stop markers as text.
pub open spec fn stop_marker_texts() -> Seq<Seq<char>> {
    seq![
        "<end_of_turn>"@,
        "<start_of_turn>"@,
        "<turn|>"@,
        "<|turn>"@,
        "<|eot_id|>"@,
        "<|end|>"@,
    ]
}

proof fn lemma_marker_text(k: int)
    requires
        0 <= k < 6,
    ensures
        stop_marker_bytes()[k] == encode_utf8(stop_marker_texts()[k]),
        is_ascii_chars(stop_marker_texts()[k]),
        stop_marker_texts()[k].len() > 0,
{
    reveal_strlit("<end_of_turn>");
    reveal_strlit("<start_of_turn>");
    reveal_strlit("<turn|>");
    reveal_strlit("<|turn>");
    reveal_strlit("<|eot_id|>");
    reveal_strlit("<|end|>");
}

/// Text holds a stop marker exactly when its bytes do.
proof fn lemma_stop_marker_in_bytes(s: Seq<char>)
    ensures
        has_stop_marker(s) <==> holds_stop_marker(encode_utf8(s)),
{
    let t = stop_marker_texts();
    assert(has_stop_marker(s) <==> exists|k: int| 0 <= k < 6 && contains_seq(s, #[trigger] t[k])) by {
        if has_stop_marker(s) {
            if contains_seq(s, "<end_of_turn>"@) {
                assert(contains_seq(s, t[0]));
            } else if contains_seq(s, "<start_of_turn>"@) {
                assert(contains_seq(s, t[1]));
            } else if contains_seq(s, "<turn|>"@) {
                assert(contains_seq(s, t[2]));
            } else if contains_seq(s, "<|turn>"@) {
                assert(contains_seq(s, t[3]));
            } else if contains_seq(s, "<|eot_id|>"@) {
                assert(contains_seq(s, t[4]));
            } else {
                assert(contains_seq(s, t[5]));
            }
        }
    }
    if has_stop_marker(s) {
        let k = choose|k: int| 0 <= k < 6 && contains_seq(s, #[trigger] t[k]);
        let i = choose|i: int| matches_at(s, t[k], i);
        lemma_marker_text(k);
        lemma_chars_find_bytes(s, t[k], i);
        let p = encode_utf8(s.subrange(0, i)).len() as int;
        assert(bytes_at(encode_utf8(s), stop_marker_bytes()[k], p));
        assert(stop_marker_at(encode_utf8(s), p));
    }
    if holds_stop_marker(encode_utf8(s)) {
        let p = choose|p: int| stop_marker_at(encode_utf8(s), p);
        let k = choose|k: int| 0 <= k < 6 && bytes_at(encode_utf8(s), #[trigger] stop_marker_bytes()[k], p);
        lemma_marker_text(k);
        lemma_bytes_find_chars(s, t[k], p);
        assert(contains_seq(s, t[k]));
    }
}

/// Text released while streaming is final: once the output holds no stop
/// marker, a marker that appears later, in the output and whatever follows
/// it, starts at or after the byte [`stream_safe_len`] released up to, so no
/// released text lies inside a stop marker.
pub proof fn lemma_released_text_is_marker_free(output: Seq<char>, more: Seq<char>, k: int, i: int)
    requires
        !has_stop_marker(output),
        0 <= k < 6,
        matches_at(output + more, stop_marker_texts()[k], i),
    ensures
        stream_safe_prefix(encode_utf8(output)) <= encode_utf8((output + more).subrange(0, i)).len(),
{
    let t = stop_marker_texts();
    lemma_stop_marker_in_bytes(output);
    lemma_marker_text(k);
    lemma_chars_find_bytes(output + more, t[k], i);
    lemma_encode_concat(output, more);
    let p = encode_utf8((output + more).subrange(0, i)).len() as int;
    assert(bytes_at(encode_utf8(output) + encode_utf8(more), stop_marker_bytes()[k], p));
    assert(stop_marker_at(encode_utf8(output) + encode_utf8(more), p));
    lemma_released_bytes_final(encode_utf8(output), encode_utf8(more), p);
}

/// Template markers removed from model output, in this order.
pub open spec fn template_markers() -> Seq<Seq<char>> {
    seq![
        "<end_of_turn>"@,
        "<start_of_turn>model"@,
        "<start_of_turn>assistant"@,
        "<start_of_turn>"@,
        "<turn|>"@,
        "<|turn>model"@,
        "<|turn>assistant"@,
        "<|turn>user"@,
        "<|turn>system"@,
        "<|turn>"@,
        "<|eot_id|>"@,
        "<|end|>"@,
    ]
}

/// Every occurrence of each marker removed, first marker first.
pub open spec fn remove_markers(s: Seq<char>, markers: Seq<Seq<char>>) -> Seq<char>
    decreases markers.len(),
{
    if markers.len() == 0 {
        s
    } else {
        replace_seq(remove_markers(s, markers.drop_last()), markers.last(), Seq::empty())
    }
}

/// Model output with template markers removed and surrounding whitespace trimmed.
pub open spec fn cleaned_output(s: Seq<char>) -> Seq<char> {
    trim_ws(remove_markers(s, template_markers()))
}

fn template_marker_list() -> (r: Vec<Vec<char>>)
    ensures
        views(r@) == template_markers(),
{
    let mut v: Vec<Vec<char>> = Vec::new();
    v.push(to_chars("<end_of_turn>"));
    v.push(to_chars("<start_of_turn>model"));
    v.push(to_chars("<start_of_turn>assistant"));
    v.push(to_chars("<start_of_turn>"));
    v.push(to_chars("<turn|>"));
    v.push(to_chars("<|turn>model"));
    v.push(to_chars("<|turn>assistant"));
    v.push(to_chars("<|turn>user"));
    v.push(to_chars("<|turn>system"));
    v.push(to_chars("<|turn>"));
    v.push(to_chars("<|eot_id|>"));
    v.push(to_chars("<|end|>"));
    assert(views(v@) =~= template_markers());
    v
}

/// Strips chat-template markers from raw model output and trims it.
pub fn clean_model_output(output: &str) -> (r: String)
    ensures
        r@ == cleaned_output(output@),
{
    let markers = template_marker_list();
    let mut cur = to_chars(output);
    let n = markers.len();
    let mut i: usize = 0;
    let ghost ms = views(markers@);
    assert(ms.take(0) =~= Seq::<Seq<char>>::empty());
    while i < n
        invariant
            n == markers@.len(),
            ms == views(markers@),
            ms == template_markers(),
            i <= n,
            cur@ == remove_markers(output@, ms.take(i as int)),
        decreases n - i,
    {
        assert(ms.take(i + 1).drop_last() =~= ms.take(i as int));
        assert(ms.take(i + 1).last() == markers@[i as int]@);
        let m = &markers[i];
        if m.len() > 0 {
            let empty: Vec<char> = Vec::new();
            cur = replace_chars(cur.as_slice(), m.as_slice(), empty.as_slice());
            assert(empty@ =~= Seq::<char>::empty());
        }
        i += 1;
    }
    assert(ms.take(n as int) =~= ms);
    let t = trim_chars(cur.as_slice());
    from_chars(t.as_slice())
}

/// Sources cited per answer: fewer on phones, where prompt length is latency.
pub fn chat_citation_limit(mobile: bool) -> (r: usize)
    ensures
        r == if mobile {
            5usize
        } else {
            8usize
        },
{
    if mobile {
        5
    } else {
        8
    }
}

/// Longest source snippet, in characters, placed in a prompt.
pub fn chat_snippet_char_limit(mobile: bool) -> (r: usize)
    ensures
        r == if mobile {
            1100usize
        } else {
            usize::MAX
        },
{
    if mobile {
        1100
    } else {
        usize::MAX
    }
}

// ---------------------------------------------------------------------------
// Prompt assembly
// ---------------------------------------------------------------------------

/// One message of a chat prompt.
pub struct ChatPromptMessage {
    pub role: &'static str,
    pub content: String,
}

pub open spec fn message_view(m: ChatPromptMessage) -> (Seq<char>, Seq<char>) {
    (m.role@, m.content@)
}

pub open spec fn messages_view(ms: Seq<ChatPromptMessage>) -> Seq<(Seq<char>, Seq<char>)> {
    ms.map_values(|m: ChatPromptMessage| message_view(m))
}

/// Pending system messages flushed into the prompt as one system turn.
pub open spec fn flush_system(prompt: Seq<char>, system: Seq<Seq<char>>) -> Seq<char> {
    if system.len() == 0 {
        prompt
    } else {
        prompt + "<|turn>system\n"@ + join_with(system, "\n\n"@) + "<turn|>\n"@
    }
}

/// The Gemma turn format, message by message. System and developer messages are
/// held back and emitted as one system turn right before the next user turn (or
/// at the end); other roles become turns of their own with trimmed content.
pub open spec fn prompt_from(
    msgs: Seq<(Seq<char>, Seq<char>)>,
    prompt: Seq<char>,
    system: Seq<Seq<char>>,
) -> Seq<char>
    decreases msgs.len(),
{
    if msgs.len() == 0 {
        flush_system(prompt, system) + "<|turn>model\n"@
    } else {
        let role = msgs[0].0;
        let content = trim_ws(msgs[0].1);
        let rest = msgs.drop_first();
        if role == "system"@ || role == "developer"@ {
            prompt_from(rest, prompt, system.push(content))
        } else if role == "assistant"@ {
            prompt_from(rest, prompt + "<|turn>model\n"@ + content + "<turn|>\n"@, system)
        } else if role == "user"@ {
            prompt_from(
                rest,
                flush_system(prompt, system) + "<|turn>user\n"@ + content + "<turn|>\n"@,
                Seq::empty(),
            )
        } else {
            prompt_from(rest, prompt + "<|turn>"@ + role + "\n"@ + content + "<turn|>\n"@, system)
        }
    }
}

/// The prompt text used when a model ships no usable chat template.
pub open spec fn fallback_prompt(msgs: Seq<(Seq<char>, Seq<char>)>) -> Seq<char> {
    prompt_from(msgs, "<bos>"@, Seq::empty())
}

fn flush_system_chars(prompt: &mut Vec<char>, system: &mut Vec<Vec<char>>)
    ensures
        final(prompt)@ == flush_system(old(prompt)@, views(old(system)@)),
        final(system)@.len() == 0,
{
    if system.len() > 0 {
        push_str_chars(prompt, "<|turn>system\n");
        let sep = to_chars("\n\n");
        let joined = join_chars(system, sep.as_slice());
        push_all(prompt, joined.as_slice());
        push_str_chars(prompt, "<turn|>\n");
        system.clear();
    }
    assert(views(system@) =~= Seq::<Seq<char>>::empty());
}

/// Renders chat messages in the Gemma turn format.
pub fn fallback_chat_prompt(messages: &[ChatPromptMessage]) -> (r: String)
    ensures
        r@ == fallback_prompt(messages_view(messages@)),
{
    let mut prompt = to_chars("<bos>");
    let mut system: Vec<Vec<char>> = Vec::new();
    let n = messages.len();
    let mut i: usize = 0;
    let ghost msgs = messages_view(messages@);
    assert(msgs.subrange(0, n as int) =~= msgs);
    assert(views(system@) =~= Seq::<Seq<char>>::empty());
    while i < n
        invariant
            n == messages@.len(),
            msgs == messages_view(messages@),
            i <= n,
            fallback_prompt(msgs) == prompt_from(
                msgs.subrange(i as int, n as int),
                prompt@,
                views(system@),
            ),
        decreases n - i,
    {
        let ghost rest = msgs.subrange(i as int, n as int);
        assert(rest.drop_first() =~= msgs.subrange(i + 1, n as int));
        assert(rest[0] == message_view(messages@[i as int]));
        let m = &messages[i];
        let role = m.role;
        let content_chars = to_chars(m.content.as_str());
        let content = trim_chars(content_chars.as_slice());
        if str_eq_lit(role, "system") || str_eq_lit(role, "developer") {
            let ghost before = views(system@);
            system.push(content);
            assert(views(system@) =~= before.push(content@));
        } else if str_eq_lit(role, "assistant") {
            push_str_chars(&mut prompt, "<|turn>model\n");
            push_all(&mut prompt, content.as_slice());
            push_str_chars(&mut prompt, "<turn|>\n");
        } else if str_eq_lit(role, "user") {
            flush_system_chars(&mut prompt, &mut system);
            assert(views(system@) =~= Seq::<Seq<char>>::empty());
            push_str_chars(&mut prompt, "<|turn>user\n");
            push_all(&mut prompt, content.as_slice());
            push_str_chars(&mut prompt, "<turn|>\n");
        } else {
            push_str_chars(&mut prompt, "<|turn>");
            push_str_chars(&mut prompt, role);
            push_str_chars(&mut prompt, "\n");
            push_all(&mut prompt, content.as_slice());
            push_str_chars(&mut prompt, "<turn|>\n");
        }
        i += 1;
    }
    assert(msgs.subrange(n as int, n as int) =~= Seq::<(Seq<char>, Seq<char>)>::empty());
    flush_system_chars(&mut prompt, &mut system);
    push_str_chars(&mut prompt, "<|turn>model\n");
    from_chars(prompt.as_slice())
}

fn str_eq_lit(a: &str, b: &str) -> (r: bool)
    ensures
        r == (a@ == b@),
{
    crate::text::str_eq(a, b)
}



// ---------------------------------------------------------------------------
// Chat messages
// ---------------------------------------------------------------------------

/// What a retrieved source contributes to the prompt.
pub struct ChatCitation {
    pub title: String,
    pub url: String,
    pub collection_id: String,
    pub text: String,
}

/// An earlier question and its answer in the same thread.
pub struct HistoryTurn {
    pub prompt: String,
    pub answer: String,
}

/// `s` clipped to `limit` characters.
pub open spec fn clipped(s: Seq<char>, limit: usize) -> Seq<char> {
    if s.len() > limit {
        s.take(limit as int)
    } else {
        s
    }
}

/// One numbered source as the model sees it: page citation markers removed
/// from its text, which is clipped to the snippet limit.
pub open spec fn source_block(i: nat, c: ChatCitation, limit: usize) -> Seq<char> {
    "["@ + decimal_chars(i + 1) + "] "@ + c.title@ + "\nURL: "@ + c.url@ + "\nCollection: "@
        + c.collection_id@ + "\n"@ + clipped(rewrite_markers(c.text@, 0, false), limit)
}

pub open spec fn source_blocks(cs: Seq<ChatCitation>, limit: usize) -> Seq<Seq<char>> {
    Seq::new(cs.len(), |i: int| source_block(i as nat, cs[i], limit))
}

/// The retrieved context, or a note that there was none.
pub open spec fn context_text(cs: Seq<ChatCitation>, limit: usize) -> Seq<char> {
    let block = join_with(source_blocks(cs, limit), "\n\n"@);
    if block.len() == 0 {
        "No stored context was retrieved."@
    } else {
        block
    }
}

pub open spec fn system_text(count: nat, mobile: bool) -> Seq<char> {
    "You are Æther, a private local research assistant. Answer only from the supplied local collection context. If the context is insufficient, say what is missing. Cite sources only with Æther source numbers [1] through ["@
        + decimal_chars(if count == 0 {
        1
    } else {
        count
    }) + "]. Do not copy bracketed reference numbers from webpage text."@ + if mobile {
        " Keep answers concise: a few sentences or a short list unless the question needs more."@
    } else {
        Seq::empty()
    }
}

/// Earlier turns, each as the user's question and the condensed answer.
pub open spec fn history_messages(history: Seq<HistoryTurn>) -> Seq<(Seq<char>, Seq<char>)>
    decreases history.len(),
{
    if history.len() == 0 {
        Seq::empty()
    } else {
        history_messages(history.drop_last()).push(("user"@, history.last().prompt@)).push(
            ("assistant"@, condensed_answer(history.last().answer@)),
        )
    }
}

/// The system instructions, the thread so far, then the question with its
/// context.
pub open spec fn chat_messages(
    prompt: Seq<char>,
    citations: Seq<ChatCitation>,
    history: Seq<HistoryTurn>,
    mobile: bool,
) -> Seq<(Seq<char>, Seq<char>)> {
    let limit: usize = if mobile {
        1100usize
    } else {
        usize::MAX
    };
    seq![("system"@, system_text(citations.len(), mobile))] + history_messages(history).push(
        (
            "user"@,
            "Local collection context:\n"@ + context_text(citations, limit) + "\n\nQuestion: "@
                + prompt,
        ),
    )
}

fn source_block_chars(i: usize, c: &ChatCitation, limit: usize) -> (r: Vec<char>)
    requires
        i < usize::MAX,
    ensures
        r@ == source_block(i as nat, *c, limit),
{
    let mut v = to_chars("[");
    let digits = decimal_digits(i + 1);
    push_all(&mut v, digits.as_slice());
    push_str_chars(&mut v, "] ");
    push_str_chars(&mut v, c.title.as_str());
    push_str_chars(&mut v, "\nURL: ");
    push_str_chars(&mut v, c.url.as_str());
    push_str_chars(&mut v, "\nCollection: ");
    push_str_chars(&mut v, c.collection_id.as_str());
    push_str_chars(&mut v, "\n");
    let t = to_chars(c.text.as_str());
    let stripped = rewrite_marker_chars(t.as_slice(), 0, false);
    let clip = take_chars(stripped.as_slice(), limit);
    assert(clip@ == clipped(rewrite_markers(c.text@, 0, false), limit));
    push_all(&mut v, clip.as_slice());
    v
}

/// The messages for one question: instructions naming the valid source
/// numbers, the thread's earlier turns (answers condensed), and the question
/// with the retrieved sources.
pub fn build_chat_messages(
    prompt: &str,
    citations: &[ChatCitation],
    history: &[HistoryTurn],
    mobile: bool,
) -> (r: Vec<ChatPromptMessage>)
    ensures
        messages_view(r@) == chat_messages(prompt@, citations@, history@, mobile),
{
    let limit = chat_snippet_char_limit(mobile);
    let n = citations.len();
    let mut blocks: Vec<Vec<char>> = Vec::new();
    let mut i: usize = 0;
    while i < n
        invariant
            n == citations@.len(),
            i <= n,
            views(blocks@) =~= source_blocks(citations@, limit).take(i as int),
        decreases n - i,
    {
        let b = source_block_chars(i, &citations[i], limit);
        let ghost before = views(blocks@);
        let ghost all = source_blocks(citations@, limit);
        blocks.push(b);
        assert(views(blocks@) =~= before.push(b@));
        assert(all[i as int] == source_block(i as nat, citations@[i as int], limit));
        assert(all.take(i + 1) =~= all.take(i as int).push(all[i as int]));
        i += 1;
    }
    assert(source_blocks(citations@, limit).take(n as int) =~= source_blocks(citations@, limit));
    let block = join_chars(&blocks, to_chars("\n\n").as_slice());
    let context = if block.len() == 0 {
        to_chars("No stored context was retrieved.")
    } else {
        block
    };
    let count: usize = if n == 0 {
        1
    } else {
        n
    };
    let mut system = to_chars(
        "You are Æther, a private local research assistant. Answer only from the supplied local collection context. If the context is insufficient, say what is missing. Cite sources only with Æther source numbers [1] through [",
    );
    let digits = decimal_digits(count);
    push_all(&mut system, digits.as_slice());
    push_str_chars(&mut system, "]. Do not copy bracketed reference numbers from webpage text.");
    if mobile {
        push_str_chars(
            &mut system,
            " Keep answers concise: a few sentences or a short list unless the question needs more.",
        );
    } else {
        proof {
            reveal_strlit("");
        }
        assert(system@ =~= system@ + ""@);
    }
    let mut messages: Vec<ChatPromptMessage> = Vec::new();
    messages.push(ChatPromptMessage { role: "system", content: from_chars(system.as_slice()) });
    assert(messages_view(messages@) =~= seq![("system"@, system_text(citations@.len(), mobile))]);
    let h = history.len();
    let mut k: usize = 0;
    while k < h
        invariant
            h == history@.len(),
            k <= h,
            messages_view(messages@) =~= seq![("system"@, system_text(citations@.len(), mobile))]
                + history_messages(history@.take(k as int)),
        decreases h - k,
    {
        let turn = &history[k];
        assert(history@.take(k + 1).drop_last() =~= history@.take(k as int));
        assert(history@.take(k + 1).last() == history@[k as int]);
        let ghost before = messages_view(messages@);
        messages.push(ChatPromptMessage { role: "user", content: from_chars(to_chars(turn.prompt.as_str()).as_slice()) });
        messages.push(ChatPromptMessage { role: "assistant", content: condense_history_answer(turn.answer.as_str()) });
        assert(messages_view(messages@) =~= before.push(("user"@, turn.prompt@)).push(
            ("assistant"@, condensed_answer(turn.answer@)),
        ));
        k += 1;
    }
    assert(history@.take(h as int) =~= history@);
    let mut question = to_chars("Local collection context:\n");
    push_all(&mut question, context.as_slice());
    push_str_chars(&mut question, "\n\nQuestion: ");
    push_str_chars(&mut question, prompt);
    let ghost before = messages_view(messages@);
    messages.push(ChatPromptMessage { role: "user", content: from_chars(question.as_slice()) });
    assert(messages_view(messages@) =~= before.push(("user"@, question@)));
    messages
}

// ---------------------------------------------------------------------------
// Answers without a chat model
// ---------------------------------------------------------------------------

/// The model named on an answer made of retrieved passages only.
pub const EXTRACTIVE_MODEL_LABEL: &'static str = "AiON MiST (passages only)";

pub open spec fn extractive_intro() -> Seq<char> {
    "No chat model is installed, so ÆTHER cannot write an answer. These are the passages from your library that best match the question:\n\n"@
}

pub open spec fn extractive_outro() -> Seq<char> {
    "_Install a chat model in Settings to get written answers grounded in these sources._"@
}

/// One quoted passage: its number, title and citation marker, then the
/// passage on one line.
pub open spec fn quoted_passage(i: nat, c: ChatCitation) -> Seq<char> {
    "**"@ + decimal_chars(i + 1) + ". "@ + trim_ws(c.title@) + "** ["@ + decimal_chars(i + 1) + "]\n\n> "@
        + replace_seq(crate::trail::trail_excerpt(trim_ws(c.text@), 480), "\n"@, " "@) + "\n\n"@
}

pub open spec fn quoted_passages(cs: Seq<ChatCitation>, k: nat) -> Seq<char>
    decreases k,
{
    if k == 0 {
        Seq::empty()
    } else {
        quoted_passages(cs, (k - 1) as nat) + quoted_passage((k - 1) as nat, cs[k - 1])
    }
}

/// The answer given when no chat model is installed: the passages themselves,
/// numbered and marked so their citations line up, and never dressed up as
/// written prose.
pub open spec fn extractive_answer_of(cs: Seq<ChatCitation>) -> Seq<char> {
    extractive_intro() + quoted_passages(cs, cs.len()) + extractive_outro()
}

pub fn extractive_answer_text(citations: &[ChatCitation]) -> (r: String)
    ensures
        r@ == extractive_answer_of(citations@),
{
    proof {
        reveal_strlit("No chat model is installed, so ÆTHER cannot write an answer. These are the passages from your library that best match the question:\n\n");
        reveal_strlit("_Install a chat model in Settings to get written answers grounded in these sources._");
        reveal_strlit("**");
        reveal_strlit(". ");
        reveal_strlit("** [");
        reveal_strlit("]\n\n> ");
        reveal_strlit("\n");
        reveal_strlit(" ");
        reveal_strlit("\n\n");
    }
    let mut out = to_chars(
        "No chat model is installed, so ÆTHER cannot write an answer. These are the passages from your library that best match the question:\n\n",
    );
    let n = citations.len();
    let mut i: usize = 0;
    while i < n
        invariant
            n == citations@.len(),
            i <= n,
            out@ == extractive_intro() + quoted_passages(citations@, i as nat),
        decreases n - i,
    {
        let c = &citations[i];
        let ghost before = out@;
        proof {
            reveal_strlit("\n");
            reveal_strlit(" ");
        }
        push_str_chars(&mut out, "**");
        let number = decimal_digits(i + 1);
        push_all(&mut out, number.as_slice());
        push_str_chars(&mut out, ". ");
        push_all(&mut out, trim_chars(to_chars(c.title.as_str()).as_slice()).as_slice());
        push_str_chars(&mut out, "** [");
        push_all(&mut out, number.as_slice());
        push_str_chars(&mut out, "]\n\n> ");
        let body = trim_chars(to_chars(c.text.as_str()).as_slice());
        let excerpt = crate::trail::semantic_trail_excerpt(from_chars(body.as_slice()).as_str(), 480);
        let flat = replace_chars(to_chars(excerpt.as_str()).as_slice(), to_chars("\n").as_slice(), to_chars(" ").as_slice());
        push_all(&mut out, flat.as_slice());
        push_str_chars(&mut out, "\n\n");
        assert(out@ =~= before + quoted_passage(i as nat, citations@[i as int]));
        i += 1;
    }
    push_str_chars(
        &mut out,
        "_Install a chat model in Settings to get written answers grounded in these sources._",
    );
    from_chars(out.as_slice())
}

} // verus!
