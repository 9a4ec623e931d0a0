//! Rendering an AiR dossier: YAML front matter, the synthesized or scaffolded
//! sections, and a footnote index of every source.

use vstd::prelude::*;
use crate::text::{
    trim_ws, join_with, views, replace_seq, to_chars, from_chars, push_all, push_str_chars,
    trim_str, join_chars, replace_chars, string_views, to_char_vecs, split_on, lines_of, starts_with,
};
use crate::numbers::{decimal_chars, decimal_digits};
use crate::order::sorted_set;
use crate::air::{
    yaml_quoted, markdown_escaped, lens_label, tag_candidates, AirLensKind, yaml_string,
    markdown_escape, air_tags, air_lens_label, frontmatter_value, frontmatter_scan, frontmatter_text,
    lemma_yaml_quoted_reads_back, lemma_yaml_quoted_single_line, lemma_number_reads_back,
};
use crate::trail::{trail_excerpt, semantic_trail_excerpt};

verus! {

/// A source as a dossier cites it. The match score arrives already written
/// out (one decimal place).
pub struct AirDossierSource {
    pub id: String,
    pub title: String,
    pub excerpt: String,
    pub collection_name: Option<String>,
    pub url: Option<String>,
    pub host: Option<String>,
    pub captured_at: Option<String>,
    pub score_text: Option<String>,
}

pub struct AirMarkdownInput<'a> {
    pub title: &'a str,
    pub lens: &'a str,
    pub lens_kind: AirLensKind,
    pub generated_at: &'a str,
    pub model: &'a str,
    pub sources: &'a [AirDossierSource],
    pub synthesized_sections: Option<&'a str>,
    pub seed_answer: Option<&'a str>,
    pub ice_map: Option<&'a str>,
}

/// The pieces, one after another.
pub open spec fn concat_all(parts: Seq<Seq<char>>) -> Seq<char>
    decreases parts.len(),
{
    if parts.len() == 0 {
        Seq::empty()
    } else {
        concat_all(parts.drop_last()) + parts.last()
    }
}

pub open spec fn md(s: Seq<char>) -> Seq<char> {
    markdown_escaped(s)
}

pub open spec fn opt_str(o: Option<&str>) -> Option<Seq<char>> {
    match o {
        Some(s) => Some(s@),
        None => None,
    }
}

/// Trimmed, and only when something is left.
pub open spec fn nonblank(o: Option<Seq<char>>) -> Option<Seq<char>> {
    match o {
        Some(s) => if trim_ws(s).len() > 0 {
            Some(trim_ws(s))
        } else {
            None
        },
        None => None,
    }
}

pub open spec fn front_matter(input: AirMarkdownInput) -> Seq<char> {
    "---\ntitle: "@ + yaml_quoted(input.title@) + "\ncreated: "@ + yaml_quoted(input.generated_at@)
        + "\naether_lens: "@ + yaml_quoted(input.lens@) + "\nsource_count: "@ + decimal_chars(
        input.sources@.len(),
    ) + "\ntags: ["@ + join_with(
        sorted_set(tag_candidates(input.lens@)).map_values(|t: Seq<char>| yaml_quoted(t)),
        ", "@,
    ) + "]\nmodel: "@ + yaml_quoted(input.model@) + "\ntype: aether-dossier\n---\n\n# "@ + md(
        input.title@,
    ) + "\n\n_Rendered by AiR from the "@ + lens_label(input.lens_kind) + " lens on "@ + md(
        input.generated_at@,
    ) + "._\n\n"@
}

pub open spec fn summary_part(input: AirMarkdownInput) -> Seq<char> {
    let n = input.sources@.len();
    "## Summary\n\n"@ + if n == 0 {
        "No local sources matched [["@ + md(input.lens@)
            + "]] yet. This dossier preserves the requested lens and can be regenerated after more captures are available.\n\n"@
    } else {
        "This dossier gathers "@ + decimal_chars(n) + " local source"@ + (if n == 1 {
            Seq::<char>::empty()
        } else {
            "s"@
        }) + " around [["@ + md(input.lens@)
            + "]]. It is generated as a deterministic citation scaffold from Æther's captured knowledge.\n\n"@
    }
}

pub open spec fn finding_line(i: nat, s: AirDossierSource) -> Seq<char> {
    "- **"@ + md(s.title@) + "** anchors this lens with: "@ + md(trail_excerpt(s.excerpt@, 180))
        + " [^"@ + decimal_chars(i + 1) + "]\n"@
}

pub open spec fn findings_part(sources: Seq<AirDossierSource>) -> Seq<char> {
    let k = if sources.len() < 6 {
        sources.len()
    } else {
        6
    };
    "## Key Findings\n\n"@ + if sources.len() == 0 {
        "- Coverage is sparse; capture or connect more relevant material before treating this lens as complete.\n\n"@
    } else {
        concat_all(Seq::new(k, |i: int| finding_line(i as nat, sources[i]))) + "\n"@
    }
}

/// `Hub`, `Host`, `Captured` and `Match` lines a source has.
pub open spec fn meta_items(s: AirDossierSource) -> Seq<Seq<char>> {
    (match s.collection_name {
        Some(c) => seq!["Hub: "@ + md(c@)],
        None => Seq::empty(),
    }) + (match s.host {
        Some(h) => seq!["Host: "@ + md(h@)],
        None => Seq::empty(),
    }) + (match s.captured_at {
        Some(c) => seq!["Captured: "@ + md(c@)],
        None => Seq::empty(),
    }) + (match s.score_text {
        Some(t) => seq!["Match: "@ + t@],
        None => Seq::empty(),
    })
}

pub open spec fn note_block(i: nat, s: AirDossierSource) -> Seq<char> {
    "### "@ + decimal_chars(i + 1) + ". "@ + md(s.title@) + "\n\n"@ + md(s.excerpt@) + "\n\n"@
        + if meta_items(s).len() == 0 {
        Seq::<char>::empty()
    } else {
        join_with(meta_items(s), " · "@) + "\n\n"@
    }
}

pub open spec fn notes_part(sources: Seq<AirDossierSource>) -> Seq<char> {
    "## Source-Backed Notes\n\n"@ + concat_all(
        Seq::new(sources.len(), |i: int| note_block(i as nat, sources[i])),
    )
}

pub open spec fn optional_section(heading: Seq<char>, text: Option<Seq<char>>) -> Seq<char> {
    match nonblank(text) {
        Some(t) => heading + md(t) + "\n\n"@,
        None => Seq::empty(),
    }
}

pub open spec fn scaffold(input: AirMarkdownInput) -> Seq<char> {
    summary_part(input) + findings_part(input.sources@) + notes_part(input.sources@)
        + optional_section("## AiON Seed\n\n"@, opt_str(input.seed_answer)) + optional_section(
        "## iCE Map\n\n"@,
        opt_str(input.ice_map),
    )
        + "## Unresolved Questions\n\n- Which claims need fresher or primary-source confirmation?\n- Which adjacent hubs should be captured next to improve coverage?\n\n"@
}

pub open spec fn index_line(i: nat, s: AirDossierSource) -> Seq<char> {
    let title = md(s.title@);
    let collection = match s.collection_name {
        Some(c) => md(c@),
        None => "Knowledge Hub"@,
    };
    let captured = match s.captured_at {
        Some(c) => md(c@),
        None => "unknown capture date"@,
    };
    match s.url {
        Some(u) => "[^"@ + decimal_chars(i + 1) + "]: ["@ + title + "]("@ + replace_seq(
            u@,
            ")"@,
            "%29"@,
        ) + ") — "@ + collection + " · "@ + captured + "\n"@,
        None => "[^"@ + decimal_chars(i + 1) + "]: "@ + title + " — "@ + collection + " · "@
            + captured + "\n"@,
    }
}

pub open spec fn index_part(sources: Seq<AirDossierSource>) -> Seq<char> {
    "## Source Index\n\n"@ + if sources.len() == 0 {
        "No source index entries were available for this render.\n"@
    } else {
        concat_all(Seq::new(sources.len(), |i: int| index_line(i as nat, sources[i])))
    }
}

/// The whole dossier: front matter, then the model's sections when it wrote
/// any (else a scaffold built from the sources), then the source index.
pub open spec fn air_markdown(input: AirMarkdownInput) -> Seq<char> {
    front_matter(input) + match nonblank(opt_str(input.synthesized_sections)) {
        Some(sections) => sections + "\n\n"@,
        None => scaffold(input),
    } + index_part(input.sources@)
}

fn push_md(out: &mut Vec<char>, s: &str)
    ensures
        final(out)@ == old(out)@ + md(s@),
{
    let e = markdown_escape(s);
    push_str_chars(out, e.as_str());
}

fn push_number(out: &mut Vec<char>, n: usize)
    ensures
        final(out)@ == old(out)@ + decimal_chars(n as nat),
{
    let d = decimal_digits(n);
    push_all(out, d.as_slice());
}

fn nonblank_str(o: Option<&str>) -> (r: Option<String>)
    ensures
        r.deep_view() == nonblank(opt_str(o)),
{
    match o {
        Some(s) => {
            let t = trim_str(s);
            if t.as_str().is_empty() {
                None
            } else {
                Some(t)
            }
        },
        None => None,
    }
}

fn findings_chars(sources: &[AirDossierSource]) -> (r: Vec<char>)
    requires
        sources@.len() > 0,
    ensures
        r@ == concat_all(
            Seq::new(
                if sources@.len() < 6 {
                    sources@.len()
                } else {
                    6
                },
                |i: int| finding_line(i as nat, sources@[i]),
            ),
        ),
{
    let k: usize = if sources.len() < 6 {
        sources.len()
    } else {
        6
    };
    let ghost parts = Seq::new(k as nat, |i: int| finding_line(i as nat, sources@[i]));
    let mut out: Vec<char> = Vec::new();
    let mut i: usize = 0;
    assert(parts.take(0) =~= Seq::<Seq<char>>::empty());
    while i < k
        invariant
            k <= sources@.len(),
            k <= 6,
            i <= k,
            parts == Seq::new(k as nat, |i: int| finding_line(i as nat, sources@[i])),
            out@ == concat_all(parts.take(i as int)),
        decreases k - i,
    {
        let s = &sources[i];
        let ghost before = out@;
        push_str_chars(&mut out, "- **");
        push_md(&mut out, s.title.as_str());
        push_str_chars(&mut out, "** anchors this lens with: ");
        let ex = semantic_trail_excerpt(s.excerpt.as_str(), 180);
        push_md(&mut out, ex.as_str());
        push_str_chars(&mut out, " [^");
        push_number(&mut out, i + 1);
        push_str_chars(&mut out, "]\n");
        assert(out@ =~= before + finding_line(i as nat, sources@[i as int]));
        assert(parts.take(i + 1).drop_last() =~= parts.take(i as int));
        assert(parts.take(i + 1).last() == parts[i as int]);
        i += 1;
    }
    assert(parts.take(k as int) =~= parts);
    out
}

fn meta_line_chars(s: &AirDossierSource) -> (r: Vec<char>)
    ensures
        r@ == (if meta_items(*s).len() == 0 {
            Seq::<char>::empty()
        } else {
            join_with(meta_items(*s), " · "@) + "\n\n"@
        }),
{
    let mut items: Vec<Vec<char>> = Vec::new();
    let ghost m = meta_items(*s);
    match &s.collection_name {
        Some(c) => {
            let mut v = to_chars("Hub: ");
            push_md(&mut v, c.as_str());
            items.push(v);
        },
        None => {},
    }
    match &s.host {
        Some(h) => {
            let mut v = to_chars("Host: ");
            push_md(&mut v, h.as_str());
            items.push(v);
        },
        None => {},
    }
    match &s.captured_at {
        Some(c) => {
            let mut v = to_chars("Captured: ");
            push_md(&mut v, c.as_str());
            items.push(v);
        },
        None => {},
    }
    match &s.score_text {
        Some(t) => {
            let mut v = to_chars("Match: ");
            push_str_chars(&mut v, t.as_str());
            items.push(v);
        },
        None => {},
    }
    assert(views(items@) =~= m);
    if items.len() == 0 {
        return Vec::new();
    }
    let mut out = join_chars(&items, to_chars(" · ").as_slice());
    push_str_chars(&mut out, "\n\n");
    out
}

fn notes_chars(sources: &[AirDossierSource]) -> (r: Vec<char>)
    ensures
        r@ == concat_all(Seq::new(sources@.len(), |i: int| note_block(i as nat, sources@[i]))),
{
    let n = sources.len();
    let ghost parts = Seq::new(n as nat, |i: int| note_block(i as nat, sources@[i]));
    let mut out: Vec<char> = Vec::new();
    let mut i: usize = 0;
    assert(parts.take(0) =~= Seq::<Seq<char>>::empty());
    while i < n
        invariant
            n == sources@.len(),
            i <= n,
            parts == Seq::new(n as nat, |i: int| note_block(i as nat, sources@[i])),
            out@ == concat_all(parts.take(i as int)),
        decreases n - i,
    {
        let s = &sources[i];
        let ghost before = out@;
        push_str_chars(&mut out, "### ");
        push_number(&mut out, i + 1);
        push_str_chars(&mut out, ". ");
        push_md(&mut out, s.title.as_str());
        push_str_chars(&mut out, "\n\n");
        push_md(&mut out, s.excerpt.as_str());
        push_str_chars(&mut out, "\n\n");
        let meta = meta_line_chars(s);
        push_all(&mut out, meta.as_slice());
        assert(out@ =~= before + note_block(i as nat, sources@[i as int]));
        assert(parts.take(i + 1).drop_last() =~= parts.take(i as int));
        assert(parts.take(i + 1).last() == parts[i as int]);
        i += 1;
    }
    assert(parts.take(n as int) =~= parts);
    out
}

fn index_line_chars(i: usize, s: &AirDossierSource) -> (r: Vec<char>)
    requires
        i < usize::MAX,
    ensures
        r@ == index_line(i as nat, *s),
{
    proof {
        reveal_strlit(")");
    }
    let title = markdown_escape(s.title.as_str());
    let collection = match &s.collection_name {
        Some(c) => markdown_escape(c.as_str()),
        None => String::from_str("Knowledge Hub"),
    };
    let captured = match &s.captured_at {
        Some(c) => markdown_escape(c.as_str()),
        None => String::from_str("unknown capture date"),
    };
    let mut out = to_chars("[^");
    push_number(&mut out, i + 1);
    match &s.url {
        Some(u) => {
            push_str_chars(&mut out, "]: [");
            push_str_chars(&mut out, title.as_str());
            push_str_chars(&mut out, "](");
            let uv = to_chars(u.as_str());
            let replaced = replace_chars(
                uv.as_slice(),
                to_chars(")").as_slice(),
                to_chars("%29").as_slice(),
            );
            push_all(&mut out, replaced.as_slice());
            push_str_chars(&mut out, ") — ");
        },
        None => {
            push_str_chars(&mut out, "]: ");
            push_str_chars(&mut out, title.as_str());
            push_str_chars(&mut out, " — ");
        },
    }
    push_str_chars(&mut out, collection.as_str());
    push_str_chars(&mut out, " · ");
    push_str_chars(&mut out, captured.as_str());
    push_str_chars(&mut out, "\n");
    out
}

fn index_chars(sources: &[AirDossierSource]) -> (r: Vec<char>)
    ensures
        r@ == concat_all(Seq::new(sources@.len(), |i: int| index_line(i as nat, sources@[i]))),
{
    let n = sources.len();
    let ghost parts = Seq::new(n as nat, |i: int| index_line(i as nat, sources@[i]));
    let mut out: Vec<char> = Vec::new();
    let mut i: usize = 0;
    assert(parts.take(0) =~= Seq::<Seq<char>>::empty());
    while i < n
        invariant
            n == sources@.len(),
            i <= n,
            parts == Seq::new(n as nat, |i: int| index_line(i as nat, sources@[i])),
            out@ == concat_all(parts.take(i as int)),
        decreases n - i,
    {
        let line = index_line_chars(i, &sources[i]);
        let ghost before = out@;
        push_all(&mut out, line.as_slice());
        assert(parts.take(i + 1).drop_last() =~= parts.take(i as int));
        assert(parts.take(i + 1).last() == parts[i as int]);
        i += 1;
    }
    assert(parts.take(n as int) =~= parts);
    out
}

fn push_optional_section(out: &mut Vec<char>, heading: &str, text: Option<&str>)
    ensures
        final(out)@ == old(out)@ + optional_section(heading@, opt_str(text)),
{
    match nonblank_str(text) {
        Some(t) => {
            push_str_chars(out, heading);
            push_md(out, t.as_str());
            push_str_chars(out, "\n\n");
        },
        None => {
            assert(old(out)@ + Seq::<char>::empty() =~= old(out)@);
        },
    }
}

fn front_matter_chars(input: &AirMarkdownInput<'_>) -> (r: Vec<char>)
    ensures
        r@ == front_matter(*input),
{
    let tags = air_tags(input.lens);
    let mut quoted: Vec<Vec<char>> = Vec::new();
    let mut t: usize = 0;
    let ghost tv = string_views(tags@);
    while t < tags.len()
        invariant
            t <= tags@.len(),
            tv == string_views(tags@),
            views(quoted@) =~= tv.take(t as int).map_values(|x: Seq<char>| yaml_quoted(x)),
        decreases tags.len() - t,
    {
        let q = yaml_string(tags[t].as_str());
        let qv = to_chars(q.as_str());
        let ghost before = views(quoted@);
        quoted.push(qv);
        assert(views(quoted@) =~= before.push(qv@));
        assert(tv[t as int] == tags@[t as int]@);
        assert(tv.take(t + 1) =~= tv.take(t as int).push(tv[t as int]));
        t += 1;
    }
    assert(tv.take(tags@.len() as int) =~= tv);
    let joined_tags = join_chars(&quoted, to_chars(", ").as_slice());
    let n = input.sources.len();
    let mut out = to_chars("---\ntitle: ");
    push_str_chars(&mut out, yaml_string(input.title).as_str());
    push_str_chars(&mut out, "\ncreated: ");
    push_str_chars(&mut out, yaml_string(input.generated_at).as_str());
    push_str_chars(&mut out, "\naether_lens: ");
    push_str_chars(&mut out, yaml_string(input.lens).as_str());
    push_str_chars(&mut out, "\nsource_count: ");
    push_number(&mut out, n);
    push_str_chars(&mut out, "\ntags: [");
    push_all(&mut out, joined_tags.as_slice());
    push_str_chars(&mut out, "]\nmodel: ");
    push_str_chars(&mut out, yaml_string(input.model).as_str());
    push_str_chars(&mut out, "\ntype: aether-dossier\n---\n\n# ");
    push_md(&mut out, input.title);
    push_str_chars(&mut out, "\n\n_Rendered by AiR from the ");
    push_str_chars(&mut out, air_lens_label(input.lens_kind));
    push_str_chars(&mut out, " lens on ");
    push_md(&mut out, input.generated_at);
    push_str_chars(&mut out, "._\n\n");
    assert(out@ =~= front_matter(*input));
    out
}

fn summary_chars(input: &AirMarkdownInput<'_>) -> (r: Vec<char>)
    ensures
        r@ == summary_part(*input),
{
    let n = input.sources.len();
    let mut out = to_chars("## Summary\n\n");
    if n == 0 {
        push_str_chars(&mut out, "No local sources matched [[");
        push_md(&mut out, input.lens);
        push_str_chars(
            &mut out,
            "]] yet. This dossier preserves the requested lens and can be regenerated after more captures are available.\n\n",
        );
    } else {
        push_str_chars(&mut out, "This dossier gathers ");
        push_number(&mut out, n);
        push_str_chars(&mut out, " local source");
        if n != 1 {
            push_str_chars(&mut out, "s");
        } else {
            proof {
                reveal_strlit("");
            }
        }
        push_str_chars(&mut out, " around [[");
        push_md(&mut out, input.lens);
        push_str_chars(
            &mut out,
            "]]. It is generated as a deterministic citation scaffold from Æther's captured knowledge.\n\n",
        );
    }
    assert(out@ =~= summary_part(*input));
    out
}

fn scaffold_chars(input: &AirMarkdownInput<'_>) -> (r: Vec<char>)
    ensures
        r@ == scaffold(*input),
{
    let n = input.sources.len();
    let mut out = summary_chars(input);
    let ghost s1 = out@;
    push_str_chars(&mut out, "## Key Findings\n\n");
    if n == 0 {
        push_str_chars(
            &mut out,
            "- Coverage is sparse; capture or connect more relevant material before treating this lens as complete.\n\n",
        );
    } else {
        let f = findings_chars(input.sources);
        push_all(&mut out, f.as_slice());
        push_str_chars(&mut out, "\n");
    }
    assert(out@ =~= s1 + findings_part(input.sources@));
    let ghost s2 = out@;
    push_str_chars(&mut out, "## Source-Backed Notes\n\n");
    let notes = notes_chars(input.sources);
    push_all(&mut out, notes.as_slice());
    assert(out@ =~= s2 + notes_part(input.sources@));
    push_optional_section(&mut out, "## AiON Seed\n\n", input.seed_answer);
    push_optional_section(&mut out, "## iCE Map\n\n", input.ice_map);
    push_str_chars(
        &mut out,
        "## Unresolved Questions\n\n- Which claims need fresher or primary-source confirmation?\n- Which adjacent hubs should be captured next to improve coverage?\n\n",
    );
    assert(out@ =~= scaffold(*input));
    out
}

/// Renders the dossier (see [`air_markdown`]).
pub fn build_air_markdown(input: AirMarkdownInput<'_>) -> (r: String)
    ensures
        r@ == air_markdown(input),
{
    let mut out = front_matter_chars(&input);
    let ghost front = out@;
    match nonblank_str(input.synthesized_sections) {
        Some(sections) => {
            push_str_chars(&mut out, sections.as_str());
            push_str_chars(&mut out, "\n\n");
        },
        None => {
            let body = scaffold_chars(&input);
            push_all(&mut out, body.as_slice());
        },
    }
    let ghost before_index = out@;
    push_str_chars(&mut out, "## Source Index\n\n");
    if input.sources.len() == 0 {
        push_str_chars(&mut out, "No source index entries were available for this render.\n");
    } else {
        let idx = index_chars(input.sources);
        push_all(&mut out, idx.as_slice());
    }
    assert(out@ =~= before_index + index_part(input.sources@));
    from_chars(out.as_slice())
}

proof fn lemma_no_char_concat(x: Seq<char>, y: Seq<char>, c: char)
    requires
        !x.contains(c),
        !y.contains(c),
    ensures
        !(x + y).contains(c),
{
    if (x + y).contains(c) {
        let i = choose|i: int| 0 <= i < (x + y).len() && (x + y)[i] == c;
        if i < x.len() {
            assert(x[i] == c);
        } else {
            assert(y[i - x.len()] == c);
        }
    }
}

/// The first five lines of text made of five one-line pieces.
proof fn lemma_five_lines(
    l0: Seq<char>,
    l1: Seq<char>,
    l2: Seq<char>,
    l3: Seq<char>,
    l4: Seq<char>,
    r: Seq<char>,
)
    requires
        !l0.contains('\n') && !l1.contains('\n') && !l2.contains('\n') && !l3.contains('\n') && !l4.contains('\n'),
        l0.len() > 0 && l0.last() != '\r',
        l1.len() > 0 && l1.last() != '\r',
        l2.len() > 0 && l2.last() != '\r',
        l3.len() > 0 && l3.last() != '\r',
        l4.len() > 0 && l4.last() != '\r',
    ensures
        ({
            let lines = lines_of(
                l0 + seq!['\n'] + (l1 + seq!['\n'] + (l2 + seq!['\n'] + (l3 + seq!['\n'] + (l4 + seq!['\n'] + r)))),
            );
            &&& lines.len() >= 5
            &&& lines[0] == l0
            &&& lines[1] == l1
            &&& lines[2] == l2
            &&& lines[3] == l3
            &&& lines[4] == l4
        }),
{
    let nl = '\n';
    let a4 = l4 + seq![nl] + r;
    let a3 = l3 + seq![nl] + a4;
    let a2 = l2 + seq![nl] + a3;
    let a1 = l1 + seq![nl] + a2;
    let md = l0 + seq![nl] + a1;
    crate::text::lemma_split_on_first_piece(l4, r, nl);
    crate::text::lemma_split_on_first_piece(l3, a4, nl);
    crate::text::lemma_split_on_first_piece(l2, a3, nl);
    crate::text::lemma_split_on_first_piece(l1, a2, nl);
    crate::text::lemma_split_on_first_piece(l0, a1, nl);
    crate::text::lemma_split_on_nonempty(r, nl);
    let parts = split_on(md, nl);
    let rs = split_on(r, nl);
    assert(parts =~= seq![l0, l1, l2, l3, l4] + rs);
    let body = parts.drop_last().map_values(|p: Seq<char>| crate::text::strip_cr(p));
    assert(body[0] == l0 && body[1] == l1 && body[2] == l2 && body[3] == l3 && body[4] == l4) by {
        assert(parts.drop_last()[0] == l0);
        assert(parts.drop_last()[1] == l1);
        assert(parts.drop_last()[2] == l2);
        assert(parts.drop_last()[3] == l3);
        assert(parts.drop_last()[4] == l4);
    }
}

/// The pieces a dossier's front matter starts with, one per line.
proof fn lemma_front_matter_pieces(input: AirMarkdownInput)
    ensures
        ({
            let nl = seq!['\n'];
            let fm = front_matter(input);
            let l0 = "---"@;
            let l1 = seq!['t', 'i', 't', 'l', 'e', ':', ' '] + yaml_quoted(input.title@);
            let l2 = seq!['c', 'r', 'e', 'a', 't', 'e', 'd', ':', ' '] + yaml_quoted(input.generated_at@);
            let l3 = seq!['a', 'e', 't', 'h', 'e', 'r', '_', 'l', 'e', 'n', 's', ':', ' '] + yaml_quoted(input.lens@);
            let l4 = seq!['s', 'o', 'u', 'r', 'c', 'e', '_', 'c', 'o', 'u', 'n', 't', ':', ' '] + decimal_chars(input.sources@.len());
            let k = (l0.len() + l1.len() + l2.len() + l3.len() + l4.len() + 5) as int;
            fm == l0 + nl + (l1 + nl + (l2 + nl + (l3 + nl + (l4 + nl + fm.skip(k)))))
        }),
{
    reveal_strlit("---\ntitle: ");
    reveal_strlit("\ncreated: ");
    reveal_strlit("\naether_lens: ");
    reveal_strlit("\nsource_count: ");
    reveal_strlit("---");
    let nl = seq!['\n'];
    let fm = front_matter(input);
    let l0 = "---"@;
    let l1 = seq!['t', 'i', 't', 'l', 'e', ':', ' '] + yaml_quoted(input.title@);
    let l2 = seq!['c', 'r', 'e', 'a', 't', 'e', 'd', ':', ' '] + yaml_quoted(input.generated_at@);
    let l3 = seq!['a', 'e', 't', 'h', 'e', 'r', '_', 'l', 'e', 'n', 's', ':', ' '] + yaml_quoted(input.lens@);
    let l4 = seq!['s', 'o', 'u', 'r', 'c', 'e', '_', 'c', 'o', 'u', 'n', 't', ':', ' '] + decimal_chars(input.sources@.len());
    let k = (l0.len() + l1.len() + l2.len() + l3.len() + l4.len() + 5) as int;
    let head = l0 + nl + (l1 + nl + (l2 + nl + (l3 + nl + (l4 + nl))));
    assert("---\ntitle: "@ =~= l0 + nl + seq!['t', 'i', 't', 'l', 'e', ':', ' ']);
    assert("\ncreated: "@ =~= nl + seq!['c', 'r', 'e', 'a', 't', 'e', 'd', ':', ' ']);
    assert("\naether_lens: "@ =~= nl + seq!['a', 'e', 't', 'h', 'e', 'r', '_', 'l', 'e', 'n', 's', ':', ' ']);
    assert("\nsource_count: "@ =~= nl + seq!['s', 'o', 'u', 'r', 'c', 'e', '_', 'c', 'o', 'u', 'n', 't', ':', ' ']);
    let prefix = "---\ntitle: "@ + yaml_quoted(input.title@) + "\ncreated: "@ + yaml_quoted(input.generated_at@)
        + "\naether_lens: "@ + yaml_quoted(input.lens@) + "\nsource_count: "@ + decimal_chars(input.sources@.len());
    reveal_strlit("\ntags: [");
    assert("\ntags: ["@[0] == '\n');
    assert(prefix + seq!['\n'] =~= head);
    assert(head.len() == k);
    assert(fm.take(k) =~= head);
    assert(fm =~= fm.take(k) + fm.skip(k));
    assert(l0 + nl + (l1 + nl + (l2 + nl + (l3 + nl + (l4 + nl + fm.skip(k))))) =~= head + fm.skip(k));
}

/// A dossier opens with its front matter's first five lines; returns the
/// text after them.
#[verifier::rlimit(30)]
proof fn lemma_markdown_pieces(input: AirMarkdownInput) -> (r: Seq<char>)
    ensures
        air_markdown(input) == "---"@ + seq!['\n'] + (seq!['t', 'i', 't', 'l', 'e', ':', ' '] + yaml_quoted(input.title@) + seq!['\n'] + (seq!['c', 'r', 'e', 'a', 't', 'e', 'd', ':', ' '] + yaml_quoted(input.generated_at@) + seq!['\n'] + (seq!['a', 'e', 't', 'h', 'e', 'r', '_', 'l', 'e', 'n', 's', ':', ' '] + yaml_quoted(input.lens@) + seq!['\n'] + (seq!['s', 'o', 'u', 'r', 'c', 'e', '_', 'c', 'o', 'u', 'n', 't', ':', ' '] + decimal_chars(input.sources@.len()) + seq!['\n'] + r)))),
{
    let nl = seq!['\n'];
    lemma_front_matter_pieces(input);
    let fm = front_matter(input);
    let md = air_markdown(input);
    let l0 = "---"@;
    let l1 = seq!['t', 'i', 't', 'l', 'e', ':', ' '] + yaml_quoted(input.title@);
    let l2 = seq!['c', 'r', 'e', 'a', 't', 'e', 'd', ':', ' '] + yaml_quoted(input.generated_at@);
    let l3 = seq!['a', 'e', 't', 'h', 'e', 'r', '_', 'l', 'e', 'n', 's', ':', ' '] + yaml_quoted(input.lens@);
    let l4 = seq!['s', 'o', 'u', 'r', 'c', 'e', '_', 'c', 'o', 'u', 'n', 't', ':', ' '] + decimal_chars(input.sources@.len());
    let k = (l0.len() + l1.len() + l2.len() + l3.len() + l4.len() + 5) as int;
    let rest = md.skip(fm.len() as int);
    assert(md =~= fm + rest);
    let r = fm.skip(k) + rest;
    assert(md =~= l0 + nl + (l1 + nl + (l2 + nl + (l3 + nl + (l4 + nl + r)))));
    r
}

/// The title and source count read back from text whose first five lines
/// are `---`, the title line, two more lines and the count line.
proof fn lemma_front_lines_read_back(
    md: Seq<char>,
    yt: Seq<char>,
    yc: Seq<char>,
    yl: Seq<char>,
    dec: Seq<char>,
    r: Seq<char>,
    title: Seq<char>,
)
    requires
        ({
            let nl = seq!['\n'];
            md == "---"@ + nl + (seq!['t', 'i', 't', 'l', 'e', ':', ' '] + yt + nl + (seq!['c', 'r', 'e', 'a', 't', 'e', 'd', ':', ' '] + yc + nl + (seq!['a', 'e', 't', 'h', 'e', 'r', '_', 'l', 'e', 'n', 's', ':', ' '] + yl + nl + (seq!['s', 'o', 'u', 'r', 'c', 'e', '_', 'c', 'o', 'u', 'n', 't', ':', ' '] + dec + nl + r))))
        }),
        !yt.contains('\n') && yt.len() > 0 && yt.last() != '\r',
        !yc.contains('\n') && yc.len() > 0 && yc.last() != '\r',
        !yl.contains('\n') && yl.len() > 0 && yl.last() != '\r',
        !dec.contains('\n') && dec.len() > 0 && dec.last() != '\r',
        frontmatter_text(seq![' '] + yt) == title,
        frontmatter_text(seq![' '] + dec) == dec,
    ensures
        frontmatter_value(md, "title"@) == Some(title),
        frontmatter_value(md, "source_count"@) == Some(dec),
{
    reveal_strlit("---");
    reveal_strlit("title");
    reveal_strlit("source_count");
    let nl = '\n';
    let p1 = seq!['t', 'i', 't', 'l', 'e', ':', ' '];
    let p2 = seq!['c', 'r', 'e', 'a', 't', 'e', 'd', ':', ' '];
    let p3 = seq!['a', 'e', 't', 'h', 'e', 'r', '_', 'l', 'e', 'n', 's', ':', ' '];
    let p4 = seq!['s', 'o', 'u', 'r', 'c', 'e', '_', 'c', 'o', 'u', 'n', 't', ':', ' '];
    let l0 = "---"@;
    let l1 = p1 + yt;
    let l2 = p2 + yc;
    let l3 = p3 + yl;
    let l4 = p4 + dec;
    assert(!l0.contains(nl)) by { if l0.contains(nl) { let i = choose|i: int| 0 <= i < l0.len() && l0[i] == nl; } }
    assert(!p1.contains(nl)) by { if p1.contains(nl) { let i = choose|i: int| 0 <= i < p1.len() && p1[i] == nl; } }
    assert(!p2.contains(nl)) by { if p2.contains(nl) { let i = choose|i: int| 0 <= i < p2.len() && p2[i] == nl; } }
    assert(!p3.contains(nl)) by { if p3.contains(nl) { let i = choose|i: int| 0 <= i < p3.len() && p3[i] == nl; } }
    assert(!p4.contains(nl)) by { if p4.contains(nl) { let i = choose|i: int| 0 <= i < p4.len() && p4[i] == nl; } }
    lemma_no_char_concat(p1, yt, nl);
    lemma_no_char_concat(p2, yc, nl);
    lemma_no_char_concat(p3, yl, nl);
    lemma_no_char_concat(p4, dec, nl);
    assert(l1.last() == yt.last());
    assert(l2.last() == yc.last());
    assert(l3.last() == yl.last());
    assert(l4.last() == dec.last());
    lemma_five_lines(l0, l1, l2, l3, l4, r);
    let lines = lines_of(md);
    let tk = "title"@.push(':');
    let sc = "source_count"@.push(':');
    assert(tk =~= seq!['t', 'i', 't', 'l', 'e', ':']);
    assert(sc =~= seq!['s', 'o', 'u', 'r', 'c', 'e', '_', 'c', 'o', 'u', 'n', 't', ':']);
    assert(l1.skip(6) =~= seq![' '] + yt);
    assert(l4.skip(13) =~= seq![' '] + dec);
    assert(l1 != l0) by { assert(l1[0] != l0[0]); }
    assert(l2 != l0) by { assert(l2[0] != l0[0]); }
    assert(l3 != l0) by { assert(l3[0] != l0[0]); }
    assert(l4 != l0) by { assert(l4[0] != l0[0]); }
    assert(starts_with(l1, tk)) by {
        assert(l1.subrange(0, 6) =~= tk);
    }
    assert(!starts_with(l1, sc)) by { if l1.len() >= 13 { assert(l1.subrange(0, 13)[0] != sc[0]); } }
    assert(!starts_with(l2, sc)) by { if l2.len() >= 13 { assert(l2.subrange(0, 13)[0] != sc[0]); } }
    assert(!starts_with(l3, sc)) by { if l3.len() >= 13 { assert(l3.subrange(0, 13)[0] != sc[0]); } }
    assert(starts_with(l4, sc)) by {
        assert(l4.subrange(0, 13) =~= sc);
    }
    assert(frontmatter_scan(lines, 3, sc) == frontmatter_scan(lines, 4, sc));
    assert(frontmatter_scan(lines, 2, sc) == frontmatter_scan(lines, 3, sc));
}

/// A dossier's front matter reads back: the title it was written with, where
/// the title holds no backslash or line break and does not end in a quote,
/// and the number of sources.
pub proof fn lemma_frontmatter_round_trip(input: AirMarkdownInput)
    requires
        !input.title@.contains('\\'),
        !input.title@.contains('\n'),
        !input.title@.contains('\r'),
        input.title@.len() == 0 || input.title@.last() != '"',
    ensures
        frontmatter_value(air_markdown(input), "title"@) == Some(input.title@),
        frontmatter_value(air_markdown(input), "source_count"@) == Some(decimal_chars(input.sources@.len())),
{
    let yt = yaml_quoted(input.title@);
    let yc = yaml_quoted(input.generated_at@);
    let yl = yaml_quoted(input.lens@);
    let dec = decimal_chars(input.sources@.len());
    lemma_yaml_quoted_reads_back(input.title@);
    lemma_yaml_quoted_single_line(input.generated_at@);
    lemma_yaml_quoted_single_line(input.lens@);
    lemma_number_reads_back(input.sources@.len());
    let r = lemma_markdown_pieces(input);
    let md = air_markdown(input);
    lemma_front_lines_read_back(md, yt, yc, yl, dec, r, input.title@);
}

} // verus!
