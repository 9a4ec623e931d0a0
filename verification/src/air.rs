//! AiR dossiers: the Markdown files rendered from a lens over captured
//! knowledge, their YAML front matter, file names and tags.

use vstd::prelude::*;
use crate::text::{
    is_control, trim_ws, trim_in, replace_seq, remove_char, collapse_ws, starts_with, split_on,
    join_with, views, lines_of, strip_trailing_repeats, unicode_uppercase_char, unicode_lowercase,
    unicode_alphanumeric, first_n, string_views, to_chars, from_chars, push_all, push_str_chars,
    subvec, trim_chars, trim_set, replace_chars, remove_char_chars, collapse_ws_chars, match_at,
    split_chars, join_chars, lines_chars, strip_trailing_repeats_chars, char_is_control,
    char_to_uppercase, to_lowercase, char_is_alphanumeric, to_strings, chars_eq, matches_at,
    trim_start_ws, trim_end_ws, trim_start_in, trim_end_in,
};
use crate::numbers::{all_digits, all_digit_chars, decimal_chars};
use crate::order::{strictly_sorted, insert_sorted, sorted_set, sorted_insert};
use crate::chat::{rewrite_markers, cleaned_output, tidy_spacing, strip_numeric_bracket_markers,
    clean_model_output, normalize_answer_citations};

verus! {

// ---------------------------------------------------------------------------
// Escaping
// ---------------------------------------------------------------------------

/// Line breaks become spaces.
pub open spec fn newlines_to_spaces(s: Seq<char>) -> Seq<char> {
    s.map_values(|c: char| if c == '\n' || c == '\r' { ' ' } else { c })
}

/// A double-quoted YAML scalar: backslashes and quotes escaped, line breaks
/// turned into spaces.
pub open spec fn yaml_quoted(value: Seq<char>) -> Seq<char> {
    seq!['"'] + newlines_to_spaces(
        replace_seq(replace_seq(value, "\\"@, "\\\\"@), "\""@, "\\\""@),
    ) + seq!['"']
}

pub fn yaml_string(value: &str) -> (r: String)
    ensures
        r@ == yaml_quoted(value@),
{
    proof {
        reveal_strlit("\\");
        reveal_strlit("\"");
    }
    let v = to_chars(value);
    let a = replace_chars(v.as_slice(), to_chars("\\").as_slice(), to_chars("\\\\").as_slice());
    let b = replace_chars(a.as_slice(), to_chars("\"").as_slice(), to_chars("\\\"").as_slice());
    let mut out: Vec<char> = Vec::new();
    out.push('"');
    let n = b.len();
    let mut i: usize = 0;
    while i < n
        invariant
            n == b@.len(),
            i <= n,
            out@ =~= seq!['"'] + newlines_to_spaces(b@.take(i as int)),
        decreases n - i,
    {
        let c = b[i];
        out.push(if c == '\n' || c == '\r' { ' ' } else { c });
        assert(b@.take(i + 1) =~= b@.take(i as int).push(c));
        i += 1;
    }
    assert(b@.take(n as int) =~= b@);
    out.push('"');
    from_chars(out.as_slice())
}

/// Text made safe to drop into Markdown: page citation markers removed,
/// carriage returns dropped, ends trimmed.
pub open spec fn markdown_escaped(value: Seq<char>) -> Seq<char> {
    trim_ws(remove_char(rewrite_markers(value, 0, false), '\r'))
}

pub fn markdown_escape(value: &str) -> (r: String)
    ensures
        r@ == markdown_escaped(value@),
{
    let stripped = strip_numeric_bracket_markers(value);
    let v = to_chars(stripped.as_str());
    let w = remove_char_chars(v.as_slice(), '\r');
    let t = trim_chars(w.as_slice());
    from_chars(t.as_slice())
}

proof fn lemma_replace_absent(t: Seq<char>, from: Seq<char>, to: Seq<char>)
    requires
        from.len() >= 1,
        !t.contains(from[0]),
    ensures
        replace_seq(t, from, to) == t,
    decreases t.len(),
{
    if t.len() > 0 {
        assert(!matches_at(t, from, 0)) by {
            if from.len() <= t.len() {
                assert(t.subrange(0, from.len() as int)[0] == t[0]);
            }
            assert(t[0] != from[0]);
        }
        assert(!t.drop_first().contains(from[0])) by {
            if t.drop_first().contains(from[0]) {
                let i = choose|i: int| 0 <= i < t.drop_first().len() && t.drop_first()[i] == from[0];
                assert(t[i + 1] == from[0]);
            }
        }
        lemma_replace_absent(t.drop_first(), from, to);
        assert(seq![t[0]] + t.drop_first() =~= t);
    }
}

/// What escaping quotes makes of `t`: each `"` becomes `\"`.
proof fn lemma_quote_escape(t: Seq<char>)
    requires
        !t.contains('\\'),
    ensures
        ({
            let e = replace_seq(t, "\""@, "\\\""@);
            &&& replace_seq(e, "\\\""@, "\""@) == t
            &&& (e.len() == 0) == (t.len() == 0)
            &&& e.len() > 0 ==> e[0] != '"'
            &&& e.len() > 0 ==> (e.last() == '"' <==> t.last() == '"')
            &&& (!t.contains('\n') && !t.contains('\r')) ==> !e.contains('\n') && !e.contains('\r')
        }),
    decreases t.len(),
{
    reveal_strlit("\"");
    reveal_strlit("\\\"");
    assert("\""@ =~= seq!['"']);
    assert("\\\""@ =~= seq!['\\', '"']);
    let e = replace_seq(t, "\""@, "\\\""@);
    if t.len() > 0 {
        let rest = t.drop_first();
        assert(!rest.contains('\\')) by {
            if rest.contains('\\') {
                let i = choose|i: int| 0 <= i < rest.len() && rest[i] == '\\';
                assert(t[i + 1] == '\\');
            }
        }
        lemma_quote_escape(rest);
        let er = replace_seq(rest, "\""@, "\\\""@);
        assert(t.subrange(0, 1) =~= seq![t[0]]);
        assert(t.subrange(1, t.len() as int) =~= rest);
        if t[0] == '"' {
            assert(matches_at(t, "\""@, 0));
            assert(e == "\\\""@ + er);
            assert(matches_at(e, "\\\""@, 0)) by {
                assert(e.subrange(0, 2) =~= "\\\""@);
            }
            assert(e.subrange(2, e.len() as int) =~= er);
            assert(replace_seq(e, "\\\""@, "\""@) == "\""@ + replace_seq(er, "\\\""@, "\""@));
            assert(seq!['"'] + rest =~= t);
            if rest.len() == 0 {
                assert(er =~= Seq::<char>::empty());
            } else {
                assert(e.last() == er.last());
                assert(t.last() == rest.last());
            }
        } else {
            assert(!matches_at(t, "\""@, 0)) by {
                assert(t.subrange(0, 1)[0] == t[0]);
            }
            assert(e == seq![t[0]] + er);
            assert(!matches_at(e, "\\\""@, 0)) by {
                if e.len() >= 2 {
                    assert(e.subrange(0, 2)[0] == t[0]);
                    assert(t[0] != '\\') by {
                        assert(t[0] == t[0]);
                        if t[0] == '\\' {
                            assert(t.contains('\\'));
                        }
                    }
                }
            }
            assert(e.drop_first() =~= er);
            assert(replace_seq(e, "\\\""@, "\""@) == seq![t[0]] + replace_seq(er, "\\\""@, "\""@));
            assert(seq![t[0]] + rest =~= t);
            if rest.len() > 0 {
                assert(e.last() == er.last());
                assert(t.last() == rest.last());
            } else {
                assert(er =~= Seq::<char>::empty());
            }
        }
        if !t.contains('\n') && !t.contains('\r') {
            assert(!rest.contains('\n') && !rest.contains('\r')) by {
                if rest.contains('\n') {
                    let i = choose|i: int| 0 <= i < rest.len() && rest[i] == '\n';
                    assert(t[i + 1] == '\n');
                }
                if rest.contains('\r') {
                    let i = choose|i: int| 0 <= i < rest.len() && rest[i] == '\r';
                    assert(t[i + 1] == '\r');
                }
            }
            assert forall|i: int| 0 <= i < e.len() implies e[i] != '\n' && e[i] != '\r' by {
                if t[0] == '"' {
                    if i >= 2 {
                        assert(e[i] == er[i - 2]);
                    }
                } else {
                    if i >= 1 {
                        assert(e[i] == er[i - 1]);
                    } else {
                        assert(t.contains(t[0]));
                    }
                }
            }
        }
    } else {
        assert(e =~= Seq::<char>::empty());
        assert(replace_seq(e, "\\\""@, "\""@) =~= Seq::<char>::empty());
        assert(t =~= Seq::<char>::empty());
    }
}

/// A YAML-quoted value stays on one line and ends in its closing quote.
pub proof fn lemma_yaml_quoted_single_line(x: Seq<char>)
    ensures
        !yaml_quoted(x).contains('\n'),
        yaml_quoted(x).len() > 0 && yaml_quoted(x).last() == '"',
{
    let inner = replace_seq(replace_seq(x, "\\"@, "\\\\"@), "\""@, "\\\""@);
    let e = newlines_to_spaces(inner);
    let q = yaml_quoted(x);
    assert(q =~= seq!['"'] + e + seq!['"']);
    if q.contains('\n') {
        let i = choose|i: int| 0 <= i < q.len() && q[i] == '\n';
        assert(0 < i < q.len() - 1);
        assert(q[i] == e[i - 1]);
    }
}

/// A number written after `key: ` reads back as written.
pub proof fn lemma_number_reads_back(n: nat)
    ensures
        frontmatter_text(seq![' '] + decimal_chars(n)) == decimal_chars(n),
        !decimal_chars(n).contains('\n'),
        decimal_chars(n).len() > 0 && decimal_chars(n).last() != '\r',
{
    reveal_strlit("\\\"");
    reveal_strlit("\"");
    assert("\\\""@ =~= seq!['\\', '"']);
    let d = decimal_chars(n);
    crate::numbers::lemma_decimal_digits(n);
    crate::numbers::lemma_decimal_round_trip(n);
    assert(d.last() == d[d.len() - 1]);
    assert(!d.contains('\n')) by {
        if d.contains('\n') {
            let i = choose|i: int| 0 <= i < d.len() && d[i] == '\n';
            assert(crate::text::is_digit(d[i]));
        }
    }
    assert(!d.contains('\\')) by {
        if d.contains('\\') {
            let i = choose|i: int| 0 <= i < d.len() && d[i] == '\\';
            assert(crate::text::is_digit(d[i]));
        }
    }
    let line = seq![' '] + d;
    assert(line.drop_first() =~= d);
    assert(crate::text::is_digit(d[0]));
    assert(crate::text::is_digit(d.last()));
    assert(trim_start_ws(line) == trim_start_ws(d));
    assert(trim_start_ws(d) == d);
    assert(trim_end_ws(d) == d);
    let set = seq!['"'];
    assert(!set.contains(d[0])) by {
        if set.contains(d[0]) {
            let i = choose|i: int| 0 <= i < set.len() && set[i] == d[0];
        }
    }
    assert(!set.contains(d.last())) by {
        if set.contains(d.last()) {
            let i = choose|i: int| 0 <= i < set.len() && set[i] == d.last();
        }
    }
    assert(trim_start_in(d, set) == d);
    assert(trim_end_in(d, set) == d);
    lemma_replace_absent(d, "\\\""@, "\""@);
}

/// How a YAML-quoted value that holds no backslash or line break and does
/// not end in a quote reads back.
pub proof fn lemma_yaml_quoted_reads_back(t: Seq<char>)
    requires
        !t.contains('\\'),
        !t.contains('\n'),
        !t.contains('\r'),
        t.len() == 0 || t.last() != '"',
    ensures
        frontmatter_text(seq![' '] + yaml_quoted(t)) == t,
        !yaml_quoted(t).contains('\n'),
        yaml_quoted(t).len() > 0 && yaml_quoted(t).last() == '"',
{
    reveal_strlit("\\");
    reveal_strlit("\\\\");
    reveal_strlit("\"");
    reveal_strlit("\\\"");
    lemma_replace_absent(t, "\\"@, "\\\\"@);
    lemma_quote_escape(t);
    let e = replace_seq(t, "\""@, "\\\""@);
    assert(newlines_to_spaces(e) =~= e) by {
        assert forall|i: int| 0 <= i < e.len() implies newlines_to_spaces(e)[i] == e[i] by {
            assert(e[i] != '\n' && e[i] != '\r') by {
                if e[i] == '\n' {
                    assert(e.contains('\n'));
                }
                if e[i] == '\r' {
                    assert(e.contains('\r'));
                }
            }
        }
    }
    let q = yaml_quoted(t);
    assert(q =~= seq!['"'] + e + seq!['"']);
    assert(!q.contains('\n')) by {
        if q.contains('\n') {
            let i = choose|i: int| 0 <= i < q.len() && q[i] == '\n';
            assert(0 < i < q.len() - 1);
            assert(q[i] == e[i - 1]);
            assert(e.contains('\n'));
        }
    }
    let line = seq![' '] + q;
    assert(line.drop_first() =~= q);
    assert(trim_start_ws(line) == trim_start_ws(q));
    assert(trim_start_ws(q) == q);
    assert(trim_end_ws(q) == q);
    let set = seq!['"'];
    assert(set.contains('"'));
    assert(q.drop_first() =~= e + seq!['"']);
    let inner = e + seq!['"'];
    if e.len() == 0 {
        assert(inner =~= seq!['"']);
        assert(inner.drop_first() =~= Seq::<char>::empty());
        assert(trim_start_in(inner, set) == trim_start_in(Seq::<char>::empty(), set));
        assert(trim_in(q, set) =~= Seq::<char>::empty());
        assert(replace_seq(Seq::<char>::empty(), "\\\""@, "\""@) =~= Seq::<char>::empty());
        assert(t =~= Seq::<char>::empty());
    } else {
        assert(inner[0] == e[0]);
        assert(!set.contains(e[0])) by {
            if set.contains(e[0]) {
                let i = choose|i: int| 0 <= i < set.len() && set[i] == e[0];
                assert(set[i] == '"');
            }
        }
        assert(trim_start_in(q, set) == trim_start_in(inner, set));
        assert(trim_start_in(inner, set) == inner);
        assert(inner.drop_last() =~= e);
        assert(trim_end_in(inner, set) == trim_end_in(e, set));
        assert(!set.contains(e.last())) by {
            if set.contains(e.last()) {
                let i = choose|i: int| 0 <= i < set.len() && set[i] == e.last();
                assert(set[i] == '"');
            }
        }
        assert(trim_end_in(e, set) == e);
    }
}

// ---------------------------------------------------------------------------
// Front matter
// ---------------------------------------------------------------------------

/// A front-matter value as written: trimmed, unquoted, `\"` unescaped.
pub open spec fn frontmatter_text(rest: Seq<char>) -> Seq<char> {
    replace_seq(trim_in(trim_ws(rest), seq!['"']), "\\\""@, "\""@)
}

/// The value of the first line from `i` on that starts with `prefix`, unless
/// the closing `---` comes first.
pub open spec fn frontmatter_scan(lines: Seq<Seq<char>>, i: int, prefix: Seq<char>) -> Option<
    Seq<char>,
>
    decreases lines.len() - i,
{
    if i < 0 || i >= lines.len() {
        None
    } else if lines[i] == "---"@ {
        None
    } else if starts_with(lines[i], prefix) {
        Some(frontmatter_text(lines[i].skip(prefix.len() as int)))
    } else {
        frontmatter_scan(lines, i + 1, prefix)
    }
}

/// `key: value` from a front-matter block opened by a first line `---`.
pub open spec fn frontmatter_value(markdown: Seq<char>, key: Seq<char>) -> Option<Seq<char>> {
    let lines = lines_of(markdown);
    if lines.len() == 0 || lines[0] != "---"@ {
        None
    } else {
        frontmatter_scan(lines, 1, key.push(':'))
    }
}

pub fn air_frontmatter_value(markdown: &str, key: &str) -> (r: Option<String>)
    ensures
        match r {
            Some(v) => frontmatter_value(markdown@, key@) == Some(v@),
            None => frontmatter_value(markdown@, key@) is None,
        },
{
    let text = to_chars(markdown);
    let lines = lines_chars(text.as_slice());
    let ghost ls = views(lines@);
    let fence = to_chars("---");
    if lines.len() == 0 {
        return None;
    }
    assert(ls[0] == lines@[0]@);
    if !chars_eq(lines[0].as_slice(), fence.as_slice()) {
        return None;
    }
    let mut prefix = to_chars(key);
    prefix.push(':');
    let n = lines.len();
    let mut i: usize = 1;
    while i < n
        invariant
            n == lines@.len(),
            ls == views(lines@),
            1 <= i <= n,
            fence@ == "---"@,
            prefix@ == key@.push(':'),
            ls == lines_of(markdown@),
            ls.len() > 0,
            ls[0] == "---"@,
            frontmatter_scan(ls, 1, prefix@) == frontmatter_scan(ls, i as int, prefix@),
        decreases n - i,
    {
        let line = &lines[i];
        assert(ls[i as int] == line@);
        if chars_eq(line.as_slice(), fence.as_slice()) {
            return None;
        }
        if match_at(line.as_slice(), prefix.as_slice(), 0) {
            let rest = subvec(line.as_slice(), prefix.len(), line.len());
            assert(rest@ =~= line@.skip(prefix@.len() as int));
            let t = trim_chars(rest.as_slice());
            let mut quote: Vec<char> = Vec::new();
            quote.push('"');
            assert(quote@ =~= seq!['"']);
            let u = trim_set(t.as_slice(), quote.as_slice());
            proof {
                reveal_strlit("\\\"");
            }
            let w = replace_chars(u.as_slice(), to_chars("\\\"").as_slice(), to_chars("\"").as_slice());
            return Some(from_chars(w.as_slice()));
        }
        i += 1;
    }
    None
}

// ---------------------------------------------------------------------------
// File names and titles
// ---------------------------------------------------------------------------

/// Path separators and NUL become `-`, other control characters spaces.
pub open spec fn filename_char(c: char) -> char {
    if c == '/' || c == '\\' || c == '\0' {
        '-'
    } else if is_control(c) {
        ' '
    } else {
        c
    }
}

/// The dossier title made safe as a file name stem.
pub open spec fn dossier_stem(title: Seq<char>) -> Seq<char> {
    trim_in(
        collapse_ws(trim_ws(title).map_values(|c: char| filename_char(c))),
        seq!['.', ' '],
    )
}

/// The dossier's file name: its title, made safe, with `.md`.
pub open spec fn dossier_filename(title: Seq<char>) -> Seq<char> {
    let stem = dossier_stem(title);
    if stem.len() == 0 {
        "AiR Dossier.md"@
    } else {
        stem + ".md"@
    }
}

/// The file name ignores the render time: a re-render replaces the file.
pub fn air_dossier_filename(title: &str, generated_at: &str) -> (r: String)
    ensures
        r@ == dossier_filename(title@),
{
    let v = to_chars(title);
    let t = trim_chars(v.as_slice());
    let mut mapped: Vec<char> = Vec::new();
    let n = t.len();
    let mut i: usize = 0;
    while i < n
        invariant
            n == t@.len(),
            i <= n,
            mapped@ =~= t@.take(i as int).map_values(|c: char| filename_char(c)),
        decreases n - i,
    {
        let c = t[i];
        let m = if c == '/' || c == '\\' || c == '\0' {
            '-'
        } else if char_is_control(c) {
            ' '
        } else {
            c
        };
        mapped.push(m);
        assert(t@.take(i + 1) =~= t@.take(i as int).push(c));
        i += 1;
    }
    assert(t@.take(n as int) =~= t@);
    let collapsed = collapse_ws_chars(mapped.as_slice());
    let mut set: Vec<char> = Vec::new();
    set.push('.');
    set.push(' ');
    assert(set@ =~= seq!['.', ' ']);
    let mut stem = trim_set(collapsed.as_slice(), set.as_slice());
    if stem.len() == 0 {
        String::from_str("AiR Dossier.md")
    } else {
        push_str_chars(&mut stem, ".md");
        from_chars(stem.as_slice())
    }
}

/// Name parts made only of digits (dates, counters) are dropped.
pub open spec fn non_numeric_parts(parts: Seq<Seq<char>>) -> Seq<Seq<char>>
    decreases parts.len(),
{
    if parts.len() == 0 {
        parts
    } else {
        let r = non_numeric_parts(parts.drop_last());
        if all_digits(parts.last()) {
            r
        } else {
            r.push(parts.last())
        }
    }
}

/// The first character upper-cased, the rest as it is.
pub open spec fn capitalized(p: Seq<char>) -> Seq<char> {
    if p.len() == 0 {
        p
    } else {
        unicode_uppercase_char(p[0]) + p.drop_first()
    }
}

/// A readable title from a hyphenated file name: `.md` dropped, numeric parts
/// skipped, at most eight words, each capitalised.
pub open spec fn filename_title(filename: Seq<char>) -> Seq<char> {
    let parts = non_numeric_parts(split_on(strip_trailing_repeats(filename, ".md"@), '-'));
    join_with(first_n(parts, 8).map_values(|p: Seq<char>| capitalized(p)), " "@)
}

pub fn air_title_from_filename(filename: &str) -> (r: String)
    ensures
        r@ == filename_title(filename@),
{
    let v = to_chars(filename);
    let stem = strip_trailing_repeats_chars(v.as_slice(), to_chars(".md").as_slice());
    let parts = split_chars(stem.as_slice(), '-');
    let ghost ps = views(parts@);
    let n = parts.len();
    let mut kept: Vec<Vec<char>> = Vec::new();
    let mut i: usize = 0;
    assert(ps.take(0) =~= Seq::<Seq<char>>::empty());
    while i < n
        invariant
            n == parts@.len(),
            ps == views(parts@),
            i <= n,
            views(kept@) == non_numeric_parts(ps.take(i as int)),
        decreases n - i,
    {
        assert(ps.take(i + 1).drop_last() =~= ps.take(i as int));
        assert(ps.take(i + 1).last() == parts@[i as int]@);
        if !all_digit_chars(parts[i].as_slice()) {
            let ghost before = views(kept@);
            let p = subvec(parts[i].as_slice(), 0, parts[i].len());
            assert(parts@[i as int]@.subrange(0, parts@[i as int]@.len() as int) =~= parts@[i as int]@);
            kept.push(p);
            assert(views(kept@) =~= before.push(p@));
        }
        i += 1;
    }
    assert(ps.take(n as int) =~= ps);
    let ghost ks = views(kept@);
    let limit: usize = if kept.len() <= 8 { kept.len() } else { 8 };
    let ghost chosen = first_n(ks, 8);
    assert(chosen =~= ks.take(limit as int));
    let mut words: Vec<Vec<char>> = Vec::new();
    let mut j: usize = 0;
    while j < limit
        invariant
            limit <= kept@.len(),
            ks == views(kept@),
            chosen == ks.take(limit as int),
            j <= limit,
            views(words@) =~= chosen.take(j as int).map_values(|p: Seq<char>| capitalized(p)),
        decreases limit - j,
    {
        let part = &kept[j];
        assert(chosen[j as int] == part@);
        let mut word: Vec<char> = Vec::new();
        if part.len() > 0 {
            let up = char_to_uppercase(part[0]);
            word = to_chars(up.as_str());
            let rest = subvec(part.as_slice(), 1, part.len());
            assert(rest@ =~= part@.drop_first());
            push_all(&mut word, rest.as_slice());
        } else {
            assert(part@ =~= Seq::<char>::empty());
        }
        assert(word@ == capitalized(part@));
        let ghost before = views(words@);
        words.push(word);
        assert(views(words@) =~= before.push(word@));
        assert(chosen.take(j + 1) =~= chosen.take(j as int).push(chosen[j as int]));
        j += 1;
    }
    assert(chosen.take(limit as int) =~= chosen);
    let joined = join_chars(&words, to_chars(" ").as_slice());
    from_chars(joined.as_slice())
}

// ---------------------------------------------------------------------------
// Tags
// ---------------------------------------------------------------------------

/// `str::split` at every character that is not alphanumeric.
pub open spec fn split_non_alnum(s: Seq<char>) -> Seq<Seq<char>>
    decreases s.len(),
{
    if s.len() == 0 {
        seq![Seq::empty()]
    } else {
        let r = split_non_alnum(s.drop_last());
        if !unicode_alphanumeric(s.last()) {
            r.push(Seq::empty())
        } else {
            r.update(r.len() - 1, r.last().push(s.last()))
        }
    }
}

proof fn lemma_split_non_alnum_nonempty(s: Seq<char>)
    ensures
        split_non_alnum(s).len() >= 1,
    decreases s.len(),
{
    if s.len() > 0 {
        lemma_split_non_alnum_nonempty(s.drop_last());
    }
}

/// Words of at least three characters.
pub open spec fn long_words(parts: Seq<Seq<char>>) -> Seq<Seq<char>>
    decreases parts.len(),
{
    if parts.len() == 0 {
        parts
    } else {
        let r = long_words(parts.drop_last());
        if parts.last().len() >= 3 {
            r.push(parts.last())
        } else {
            r
        }
    }
}

/// The lens's first four words of three or more characters, lower-cased.
pub open spec fn lens_tag_words(lens: Seq<char>) -> Seq<Seq<char>> {
    first_n(long_words(split_non_alnum(lens)), 4).map_values(|w: Seq<char>| unicode_lowercase(w))
}

/// Every dossier's fixed tags, then the lens's words.
pub open spec fn tag_candidates(lens: Seq<char>) -> Seq<Seq<char>> {
    seq!["aether"@, "air"@, "dossier"@] + lens_tag_words(lens)
}

pub fn split_non_alnum_chars(s: &[char]) -> (r: Vec<Vec<char>>)
    ensures
        views(r@) == split_non_alnum(s@),
{
    let n = s.len();
    let mut parts: Vec<Vec<char>> = Vec::new();
    let mut cur: Vec<char> = Vec::new();
    let mut j: usize = 0;
    assert(s@.take(0) =~= Seq::<char>::empty());
    assert(views(parts@) =~= Seq::<Seq<char>>::empty());
    while j < n
        invariant
            n == s@.len(),
            j <= n,
            split_non_alnum(s@.take(j as int)) == views(parts@).push(cur@),
        decreases n - j,
    {
        let c = s[j];
        assert(s@.take(j + 1).drop_last() =~= s@.take(j as int));
        assert(s@.take(j + 1).last() == c);
        let ghost before = views(parts@);
        if !char_is_alphanumeric(c) {
            let done = cur;
            parts.push(done);
            cur = Vec::new();
            assert(views(parts@) =~= before.push(done@));
            assert(split_non_alnum(s@.take(j + 1)) =~= views(parts@).push(cur@));
        } else {
            cur.push(c);
            assert(split_non_alnum(s@.take(j + 1)) =~= views(parts@).push(cur@));
        }
        j += 1;
    }
    assert(s@.take(n as int) =~= s@);
    let ghost before = views(parts@);
    let last = cur;
    parts.push(last);
    assert(views(parts@) =~= before.push(last@));
    parts
}

/// Sorted, de-duplicated tags: `aether`, `air`, `dossier` and the lens's
/// first four words of three or more characters, lower-cased.
pub fn air_tags(lens: &str) -> (r: Vec<String>)
    ensures
        string_views(r@) == sorted_set(tag_candidates(lens@)),
        strictly_sorted(string_views(r@)),
        forall|t: Seq<char>|
            string_views(r@).contains(t) <==> tag_candidates(lens@).contains(t),
{
    let mut tags: Vec<Vec<char>> = Vec::new();
    assert(views(tags@) =~= Seq::<Seq<char>>::empty());
    let ghost v0 = views(tags@);
    insert_sorted(&mut tags, to_chars("aether"));
    let ghost v1 = views(tags@);
    insert_sorted(&mut tags, to_chars("air"));
    let ghost v2 = views(tags@);
    insert_sorted(&mut tags, to_chars("dossier"));
    let ghost base = seq!["aether"@, "air"@, "dossier"@];
    proof {
        let b1 = seq!["aether"@];
        let b2 = seq!["aether"@, "air"@];
        assert(b1.drop_last() =~= Seq::<Seq<char>>::empty());
        assert(b2.drop_last() =~= b1);
        assert(base.drop_last() =~= b2);
        assert(sorted_set(b1) == sorted_insert(sorted_set(Seq::<Seq<char>>::empty()), "aether"@));
        assert(v1 == sorted_set(b1));
        assert(sorted_set(b2) == sorted_insert(sorted_set(b1), "air"@));
        assert(v2 == sorted_set(b2));
        assert(sorted_set(base) == sorted_insert(sorted_set(b2), "dossier"@));
        assert(views(tags@) == sorted_set(base));
    }
    let v = to_chars(lens);
    let parts = split_non_alnum_chars(v.as_slice());
    let ghost ps = views(parts@);
    let n = parts.len();
    let mut long: Vec<Vec<char>> = Vec::new();
    let mut i: usize = 0;
    assert(ps.take(0) =~= Seq::<Seq<char>>::empty());
    while i < n
        invariant
            n == parts@.len(),
            ps == views(parts@),
            i <= n,
            views(long@) == long_words(ps.take(i as int)),
        decreases n - i,
    {
        assert(ps.take(i + 1).drop_last() =~= ps.take(i as int));
        assert(ps.take(i + 1).last() == parts@[i as int]@);
        if parts[i].len() >= 3 {
            let ghost before = views(long@);
            let p = subvec(parts[i].as_slice(), 0, parts[i].len());
            assert(parts@[i as int]@.subrange(0, parts@[i as int]@.len() as int) =~= parts@[i as int]@);
            long.push(p);
            assert(views(long@) =~= before.push(p@));
        }
        i += 1;
    }
    assert(ps.take(n as int) =~= ps);
    let ghost ls = views(long@);
    let limit: usize = if long.len() <= 4 { long.len() } else { 4 };
    let ghost words = lens_tag_words(lens@);
    assert(words =~= ls.take(limit as int).map_values(|w: Seq<char>| unicode_lowercase(w)));
    let mut j: usize = 0;
    while j < limit
        invariant
            limit <= long@.len(),
            ls == views(long@),
            words =~= ls.take(limit as int).map_values(|w: Seq<char>| unicode_lowercase(w)),
            j <= limit,
            strictly_sorted(views(tags@)),
            views(tags@) == sorted_set(base + words.take(j as int)),
            forall|t: Seq<char>|
                views(tags@).contains(t) <==> (base.contains(t) || words.take(j as int).contains(t)),
        decreases limit - j,
    {
        let word = from_chars(long[j].as_slice());
        let lower = to_lowercase(word.as_str());
        assert(words[j as int] == lower@);
        let ghost before = views(tags@);
        assert(forall|t: Seq<char>|
            before.contains(t) <==> (base.contains(t) || words.take(j as int).contains(t)));
        let lower_chars = to_chars(lower.as_str());
        insert_sorted(&mut tags, lower_chars);
        assert((base + words.take(j + 1)).drop_last() =~= base + words.take(j as int));
        assert((base + words.take(j + 1)).last() == words[j as int]);
        assert forall|t: Seq<char>|
            views(tags@).contains(t) <==> (base.contains(t) || words.take(j + 1).contains(t)) by {
            assert(views(tags@).contains(t) <==> (before.contains(t) || t == lower@));
            let wj = words.take(j as int);
            let wj1 = words.take(j + 1);
            assert(wj1 =~= wj.push(words[j as int]));
            if wj.contains(t) {
                let k = choose|k: int| 0 <= k < wj.len() && wj[k] == t;
                assert(wj1[k] == t);
            }
            if wj1.contains(t) {
                let k = choose|k: int| 0 <= k < wj1.len() && wj1[k] == t;
                if k < j {
                    assert(wj[k] == t);
                }
            }
            if t == lower@ {
                assert(wj1[j as int] == t);
            }
        }
        j += 1;
    }
    assert(words.take(limit as int) =~= words);
    assert(tag_candidates(lens@) =~= base + words);
    assert forall|t: Seq<char>|
        views(tags@).contains(t) <==> tag_candidates(lens@).contains(t) by {
        let c = tag_candidates(lens@);
        assert(c =~= base + words);
        if base.contains(t) {
            let k = choose|k: int| 0 <= k < base.len() && base[k] == t;
            assert(c[k] == t);
        }
        if words.contains(t) {
            let k = choose|k: int| 0 <= k < words.len() && words[k] == t;
            assert(c[base.len() + k] == t);
        }
        if c.contains(t) {
            let k = choose|k: int| 0 <= k < c.len() && c[k] == t;
            if k < 3 {
                assert(base[k] == t);
            } else {
                assert(words[k - 3] == t);
            }
        }
    }
    to_strings(&tags)
}

// ---------------------------------------------------------------------------
// Lenses
// ---------------------------------------------------------------------------

/// What a dossier was rendered from.
#[derive(Clone, Copy, Debug, PartialEq, Eq)]
pub enum AirLensKind {
    Topic,
    Flow,
    Hub,
    Answer,
    Iceberg,
}

pub open spec fn lens_label(kind: AirLensKind) -> Seq<char> {
    match kind {
        AirLensKind::Topic => "topic"@,
        AirLensKind::Flow => "Flow"@,
        AirLensKind::Hub => "hub"@,
        AirLensKind::Answer => "AiON answer"@,
        AirLensKind::Iceberg => "iCE"@,
    }
}

pub fn air_lens_label(kind: AirLensKind) -> (r: &'static str)
    ensures
        r@ == lens_label(kind),
{
    match kind {
        AirLensKind::Topic => "topic",
        AirLensKind::Flow => "Flow",
        AirLensKind::Hub => "hub",
        AirLensKind::Answer => "AiON answer",
        AirLensKind::Iceberg => "iCE",
    }
}

/// A model's Markdown: template markers stripped, then citation numbers kept
/// only where they name one of the sources, with spacing tidied.
pub fn normalize_model_markdown_citations(markdown: &str, source_count: usize) -> (r: String)
    ensures
        r@ == tidy_spacing(rewrite_markers(cleaned_output(markdown@), source_count, true)),
{
    let cleaned = clean_model_output(markdown);
    normalize_answer_citations(cleaned.as_str(), source_count)
}

} // verus!
