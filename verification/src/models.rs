//! Local models: recognising GGUF files by name, labelling them, choosing one
//! by hints, runtime flags, and the managed downloads the app offers.

use vstd::prelude::*;
use crate::text::{
    contains_seq, ends_with, lower_ascii, trim_ws, unicode_lowercase, to_chars, from_chars,
    push_str_chars, subvec, ends_with_chars, str_contains, to_lowercase, lower_ascii_chars,
    chars_eq, str_eq, trim_str, string_views,
};
use crate::numbers::{decimal_chars, decimal_value, all_digits};
use crate::search::Platform;
use crate::gather::{first_where, lemma_first_where_found};
use crate::order::{seq_lt, sort_by, lemma_insert_pos_by, lemma_sort_by_len};

verus! {

// ---------------------------------------------------------------------------
// Files
// ---------------------------------------------------------------------------

/// A model file as the catalog sees it.
pub struct ModelFile {
    /// The path as displayed.
    pub path: String,
    /// The final path component, when there is one and it is valid UTF-8.
    pub file_name: Option<String>,
    /// Whether the path names a regular file.
    pub is_file: bool,
}

pub open spec fn strip_gguf(value: Seq<char>) -> Seq<char> {
    if ends_with(value, ".gguf"@) {
        value.take(value.len() - 5)
    } else if ends_with(value, ".GGUF"@) {
        value.take(value.len() - 5)
    } else {
        value
    }
}

pub fn strip_gguf_extension(value: &str) -> (r: String)
    ensures
        r@ == strip_gguf(value@),
{
    proof {
        reveal_strlit(".gguf");
        reveal_strlit(".GGUF");
    }
    let v = to_chars(value);
    if ends_with_chars(v.as_slice(), to_chars(".gguf").as_slice()) || ends_with_chars(
        v.as_slice(),
        to_chars(".GGUF").as_slice(),
    ) {
        let t = subvec(v.as_slice(), 0, v.len() - 5);
        return from_chars(t.as_slice());
    }
    String::from_str(value)
}

/// The file name without `.gguf`, or the whole path when there is no name.
pub open spec fn label_of(f: ModelFile) -> Seq<char> {
    match f.file_name {
        Some(n) => strip_gguf(n@),
        None => f.path@,
    }
}

pub fn model_label(file: &ModelFile) -> (r: String)
    ensures
        r@ == label_of(*file),
{
    match &file.file_name {
        Some(n) => strip_gguf_extension(n.as_str()),
        None => String::from_str(file.path.as_str()),
    }
}

/// The label lower-cased, which the name tests below read.
pub open spec fn lower_label(f: ModelFile) -> Seq<char> {
    unicode_lowercase(label_of(f))
}

fn lower_label_string(file: &ModelFile) -> (r: String)
    ensures
        r@ == lower_label(*file),
{
    let label = model_label(file);
    to_lowercase(label.as_str())
}

/// The product names of the managed models; anything else keeps its label.
pub open spec fn friendly_label(f: ModelFile) -> Seq<char> {
    match f.file_name {
        Some(n) => if n@ == "gemma-4-E2B_q4_0-it.gguf"@ {
            "AiON LiTE"@
        } else if n@ == "gemma-4-E4B_q4_0-it.gguf"@ {
            "AiON WiSE"@
        } else if n@ == "Qwen3-Embedding-0.6B-Q8_0.gguf"@ {
            "AiON MiST"@
        } else {
            label_of(f)
        },
        None => label_of(f),
    }
}

pub fn friendly_model_label(file: &ModelFile) -> (r: String)
    ensures
        r@ == friendly_label(*file),
{
    match &file.file_name {
        Some(n) => {
            if str_eq(n.as_str(), "gemma-4-E2B_q4_0-it.gguf") {
                return String::from_str("AiON LiTE");
            }
            if str_eq(n.as_str(), "gemma-4-E4B_q4_0-it.gguf") {
                return String::from_str("AiON WiSE");
            }
            if str_eq(n.as_str(), "Qwen3-Embedding-0.6B-Q8_0.gguf") {
                return String::from_str("AiON MiST");
            }
            model_label(file)
        },
        None => model_label(file),
    }
}

pub open spec fn is_mmproj(f: ModelFile) -> bool {
    contains_seq(lower_label(f), "mmproj"@)
}

pub fn is_mmproj_model(file: &ModelFile) -> (r: bool)
    ensures
        r == is_mmproj(*file),
{
    let l = lower_label_string(file);
    str_contains(l.as_str(), "mmproj")
}

pub open spec fn embedding_name(f: ModelFile) -> bool {
    contains_seq(lower_label(f), "embed"@) || contains_seq(lower_label(f), "embedding"@)
}

pub fn is_embedding_model_name(file: &ModelFile) -> (r: bool)
    ensures
        r == embedding_name(*file),
{
    let l = lower_label_string(file);
    str_contains(l.as_str(), "embed") || str_contains(l.as_str(), "embedding")
}

/// The position of the last `.` in `s`.
pub open spec fn last_dot(s: Seq<char>) -> Option<int>
    decreases s.len(),
{
    if s.len() == 0 {
        None
    } else if s.last() == '.' {
        Some(s.len() - 1)
    } else {
        last_dot(s.drop_last())
    }
}

proof fn lemma_last_dot(s: Seq<char>)
    ensures
        match last_dot(s) {
            Some(i) => 0 <= i < s.len() && s[i] == '.' && forall|j: int| i < j < s.len() ==> s[j] != '.',
            None => forall|j: int| 0 <= j < s.len() ==> s[j] != '.',
        },
    decreases s.len(),
{
    if s.len() > 0 && s.last() != '.' {
        lemma_last_dot(s.drop_last());
        assert forall|j: int| 0 <= j < s.len() - 1 implies s.drop_last()[j] == s[j] by {}
    }
}

/// `Path::extension` of a file name: what follows its last `.`, unless that
/// dot is the first character (a hidden file) or the name is `..`.
pub open spec fn extension_of(name: Seq<char>) -> Option<Seq<char>> {
    if name == ".."@ {
        None
    } else {
        match last_dot(name) {
            Some(i) => if i > 0 {
                Some(name.skip(i + 1))
            } else {
                None
            },
            None => None,
        }
    }
}

fn extension_chars(name: &str) -> (r: Option<Vec<char>>)
    ensures
        match r {
            Some(v) => extension_of(name@) == Some(v@),
            None => extension_of(name@) is None,
        },
{
    if str_eq(name, "..") {
        return None;
    }
    let v = to_chars(name);
    let mut k: usize = v.len();
    proof {
        lemma_last_dot(name@);
    }
    while k > 0 && v[k - 1] != '.'
        invariant
            k <= v@.len(),
            v@ == name@,
            forall|j: int| k <= j < v@.len() ==> v@[j] != '.',
        decreases k,
    {
        k -= 1;
    }
    if k == 0 {
        return None;
    }
    proof {
        lemma_last_dot(name@);
        match last_dot(name@) {
            Some(i) => {
                assert(i == k - 1);
            },
            None => {
                assert(v@[k - 1] == '.');
            },
        }
    }
    if k - 1 == 0 {
        return None;
    }
    let ext = subvec(v.as_slice(), k, v.len());
    assert(ext@ =~= name@.skip(k as int));
    Some(ext)
}

/// A regular `.gguf` file (extension compared without case) that is not a
/// multimodal projector.
pub open spec fn gguf(f: ModelFile) -> bool {
    f.is_file && !is_mmproj(f) && match f.file_name {
        Some(n) => match extension_of(n@) {
            Some(e) => lower_ascii(e) == "gguf"@,
            None => false,
        },
        None => false,
    }
}

pub fn is_gguf_model(file: &ModelFile) -> (r: bool)
    ensures
        r == gguf(*file),
{
    if !file.is_file || is_mmproj_model(file) {
        return false;
    }
    match &file.file_name {
        Some(n) => match extension_chars(n.as_str()) {
            Some(e) => {
                let l = lower_ascii_chars(e.as_slice());
                chars_eq(l.as_slice(), to_chars("gguf").as_slice())
            },
            None => false,
        },
        None => false,
    }
}

pub open spec fn chat_model(f: ModelFile) -> bool {
    gguf(f) && !embedding_name(f)
}

pub open spec fn embedding_model(f: ModelFile) -> bool {
    gguf(f) && embedding_name(f)
}

pub fn is_chat_model(file: &ModelFile) -> (r: bool)
    ensures
        r == chat_model(*file),
{
    is_gguf_model(file) && !is_embedding_model_name(file)
}

pub fn is_embedding_model(file: &ModelFile) -> (r: bool)
    ensures
        r == embedding_model(*file),
{
    is_gguf_model(file) && is_embedding_model_name(file)
}

pub open spec fn matches_kind(f: ModelFile, embedding: bool) -> bool {
    if embedding {
        embedding_model(f)
    } else {
        chat_model(f)
    }
}

pub fn selected_model_matches_kind(file: &ModelFile, embedding: bool) -> (r: bool)
    ensures
        r == matches_kind(*file, embedding),
{
    if embedding {
        is_embedding_model(file)
    } else {
        is_chat_model(file)
    }
}

pub open spec fn qwen3_embedding(f: ModelFile) -> bool {
    contains_seq(lower_label(f), "qwen3-embedding"@)
}

pub fn is_qwen3_embedding_model(file: &ModelFile) -> (r: bool)
    ensures
        r == qwen3_embedding(*file),
{
    let l = lower_label_string(file);
    str_contains(l.as_str(), "qwen3-embedding")
}

/// Qwen3 embeddings are decoded causally and pooled on the last token.
pub fn qwen3_embedding_decode(file: &ModelFile) -> (r: bool)
    ensures
        r == qwen3_embedding(*file),
{
    is_qwen3_embedding_model(file)
}

/// How token embeddings are pooled into one vector.
#[derive(Clone, Copy, Debug, PartialEq, Eq, Structural)]
pub enum PoolingKind {
    Last,
    Mean,
}

/// Which attention an embedding model runs with.
#[derive(Clone, Copy, Debug, PartialEq, Eq, Structural)]
pub enum AttentionKind {
    Causal,
    Unspecified,
}

pub fn embedding_pooling_type(file: &ModelFile) -> (r: PoolingKind)
    ensures
        r == (if qwen3_embedding(*file) {
            PoolingKind::Last
        } else {
            PoolingKind::Mean
        }),
{
    if is_qwen3_embedding_model(file) {
        PoolingKind::Last
    } else {
        PoolingKind::Mean
    }
}

pub fn embedding_attention_type(file: &ModelFile) -> (r: AttentionKind)
    ensures
        r == (if qwen3_embedding(*file) {
            AttentionKind::Causal
        } else {
            AttentionKind::Unspecified
        }),
{
    if is_qwen3_embedding_model(file) {
        AttentionKind::Causal
    } else {
        AttentionKind::Unspecified
    }
}

/// Preference among embedding models: GGUF first, then Qwen3 embeddings, then
/// precision (bf16 over f16 over q8).
pub open spec fn embedding_score(f: ModelFile) -> int {
    let l = lower_label(f);
    (if gguf(f) {
        1000int
    } else {
        0int
    }) + (if contains_seq(l, "qwen3-embedding"@) {
        650int
    } else {
        0int
    }) + (if contains_seq(l, "bf16"@) {
        400int
    } else if contains_seq(l, "f16"@) {
        300int
    } else if contains_seq(l, "q8"@) {
        150int
    } else {
        0int
    })
}

pub fn embedding_model_score(file: &ModelFile) -> (r: i32)
    ensures
        r as int == embedding_score(*file),
{
    let l = lower_label_string(file);
    let mut score: i32 = 0;
    if is_gguf_model(file) {
        score += 1000;
    }
    if str_contains(l.as_str(), "qwen3-embedding") {
        score += 650;
    }
    if str_contains(l.as_str(), "bf16") {
        score += 400;
    } else if str_contains(l.as_str(), "f16") {
        score += 300;
    } else if str_contains(l.as_str(), "q8") {
        score += 150;
    }
    score
}

/// The first model whose lower-cased label contains `hint` and is of the
/// wanted kind.
pub open spec fn first_hinted(models: Seq<ModelFile>, hint: Seq<char>, embedding: bool) -> Option<
    int,
>
    decreases models.len(),
{
    if models.len() == 0 {
        None
    } else {
        match first_hinted(models.drop_last(), hint, embedding) {
            Some(k) => Some(k),
            None => if contains_seq(lower_label(models.last()), hint) && matches_kind(
                models.last(),
                embedding,
            ) {
                Some(models.len() - 1)
            } else {
                None
            },
        }
    }
}

/// The text of each hint.
pub open spec fn hint_views(hints: Seq<&str>) -> Seq<Seq<char>> {
    hints.map_values(|h: &str| h@)
}

/// Hints are tried in order; the first that finds a model decides.
pub open spec fn hinted_model(models: Seq<ModelFile>, hints: Seq<Seq<char>>, embedding: bool) -> Option<
    int,
>
    decreases hints.len(),
{
    if hints.len() == 0 {
        None
    } else {
        match first_hinted(models, unicode_lowercase(hints[0]), embedding) {
            Some(k) => Some(k),
            None => hinted_model(models, hints.drop_first(), embedding),
        }
    }
}

proof fn lemma_first_hinted(models: Seq<ModelFile>, hint: Seq<char>, embedding: bool)
    ensures
        match first_hinted(models, hint, embedding) {
            Some(k) => 0 <= k < models.len() && contains_seq(lower_label(models[k]), hint)
                && matches_kind(models[k], embedding) && forall|j: int|
                0 <= j < k ==> !(contains_seq(lower_label(#[trigger] models[j]), hint)
                    && matches_kind(models[j], embedding)),
            None => forall|j: int|
                0 <= j < models.len() ==> !(contains_seq(lower_label(#[trigger] models[j]), hint)
                    && matches_kind(models[j], embedding)),
        },
    decreases models.len(),
{
    if models.len() > 0 {
        lemma_first_hinted(models.drop_last(), hint, embedding);
        assert forall|j: int| 0 <= j < models.len() - 1 implies models.drop_last()[j] == models[j] by {}
    }
}

/// The position of the model the hints pick.
fn hinted_index_of_kind(models: &[ModelFile], hints: &[&str], embedding: bool) -> (r: Option<usize>)
    ensures
        match hinted_model(models@, hint_views(hints@), embedding) {
            Some(k) => 0 <= k < models@.len() && r is Some && r->0 as int == k,
            None => r is None,
        },
{
    let ghost hs = hint_views(hints@);
    let mut i: usize = 0;
    assert(hs.skip(0) =~= hs);
    while i < hints.len()
        invariant
            i <= hints@.len(),
            hs == hint_views(hints@),
            hinted_model(models@, hs, embedding) == hinted_model(models@, hs.skip(i as int), embedding),
        decreases hints.len() - i,
    {
        let hint = to_lowercase(hints[i]);
        assert(hs.skip(i as int)[0] == hints@[i as int]@);
        assert(hs.skip(i as int).drop_first() =~= hs.skip(i + 1));
        let mut k: usize = 0;
        while k < models.len()
            invariant
                k <= models@.len(),
                i < hints@.len(),
                hs == hint_views(hints@),
                hinted_model(models@, hs, embedding) == hinted_model(
                    models@,
                    hs.skip(i as int),
                    embedding,
                ),
                hs.skip(i as int)[0] == hints@[i as int]@,
                hint@ == unicode_lowercase(hints@[i as int]@),
                forall|j: int|
                    0 <= j < k ==> !(contains_seq(lower_label(#[trigger] models@[j]), hint@)
                        && matches_kind(models@[j], embedding)),
            decreases models.len() - k,
        {
            let label = lower_label_string(&models[k]);
            if str_contains(label.as_str(), hint.as_str()) && selected_model_matches_kind(
                &models[k],
                embedding,
            ) {
                proof {
                    lemma_first_hinted(models@, hint@, embedding);
                }
                assert(first_hinted(models@, hint@, embedding) == Some(k as int));
                return Some(k);
            }
            k += 1;
        }
        proof {
            lemma_first_hinted(models@, hint@, embedding);
        }
        assert(first_hinted(models@, hint@, embedding) is None);
        i += 1;
    }
    assert(hs.skip(i as int) =~= Seq::<Seq<char>>::empty());
    None
}

/// The path of the model the hints pick.
pub fn pick_model_by_hints(models: &[ModelFile], hints: &[&str], embedding: bool) -> (r: Option<
    String,
>)
    ensures
        match hinted_model(models@, hint_views(hints@), embedding) {
            Some(k) => r is Some && r->0@ == models@[k].path@,
            None => r is None,
        },
{
    match hinted_index_of_kind(models, hints, embedding) {
        Some(k) => Some(String::from_str(models[k].path.as_str())),
        None => None,
    }
}

// ---------------------------------------------------------------------------
// Choosing the models to run
// ---------------------------------------------------------------------------

/// The chat model hints, most preferred first.
pub open spec fn preferred_chat_hints() -> Seq<Seq<char>> {
    seq!["gemma4"@, "gemma-4"@, "gemma3"@, "gemma-3"@, "gemma-2b"@, "2b"@, "gemma"@, "qwen"@]
}

/// Where a model setting led: the setting names a usable file itself, or a
/// model of the catalog.
#[derive(Clone, Copy, Debug, PartialEq, Eq, Structural)]
pub enum ModelChoice {
    Given,
    Listed(usize),
}

pub open spec fn choice_view(c: Option<ModelChoice>) -> Option<Option<int>> {
    match c {
        Some(ModelChoice::Given) => Some(None),
        Some(ModelChoice::Listed(k)) => Some(Some(k as int)),
        None => None,
    }
}

/// A catalog model a setting names: by its path, its label with or without
/// `.gguf`, or a case-blind part of its label.
pub open spec fn named_by(value: Seq<char>) -> spec_fn(ModelFile) -> bool {
    |m: ModelFile|
        m.path@ == value || label_of(m) == value || strip_gguf(label_of(m)) == value || contains_seq(
            unicode_lowercase(label_of(m)),
            unicode_lowercase(value),
        )
}

/// The model a setting selects: nothing for a blank setting; the named file
/// itself when it is a model of the wanted kind; else the first catalog model
/// it names, if that is of the wanted kind. `given` is the file at the
/// setting's (trimmed) path.
pub open spec fn selected_choice(models: Seq<ModelFile>, value: Seq<char>, given: ModelFile, embedding: bool) -> Option<
    Option<int>,
> {
    let v = trim_ws(value);
    if v.len() == 0 {
        None
    } else if matches_kind(given, embedding) {
        Some(None)
    } else {
        match first_where(models, named_by(v)) {
            Some(k) => if matches_kind(models[k], embedding) {
                Some(Some(k))
            } else {
                None
            },
            None => None,
        }
    }
}

fn named_by_exec(m: &ModelFile, value: &str, lowered: &str) -> (r: bool)
    requires
        lowered@ == unicode_lowercase(value@),
    ensures
        r == (named_by(value@))(*m),
{
    let label = model_label(m);
    str_eq(m.path.as_str(), value) || str_eq(label.as_str(), value) || str_eq(
        strip_gguf_extension(label.as_str()).as_str(),
        value,
    ) || str_contains(to_lowercase(label.as_str()).as_str(), lowered)
}

/// The model a setting selects (see [`selected_choice`]).
pub fn pick_selected_model(models: &[ModelFile], value: &str, given: &ModelFile, embedding: bool) -> (r: Option<
    ModelChoice,
>)
    ensures
        choice_view(r) == selected_choice(models@, value@, *given, embedding),
{
    let v = trim_str(value);
    if to_chars(v.as_str()).len() == 0 {
        return None;
    }
    if selected_model_matches_kind(given, embedding) {
        return Some(ModelChoice::Given);
    }
    let lowered = to_lowercase(v.as_str());
    let n = models.len();
    let ghost pred = named_by(v@);
    let mut k: usize = 0;
    while k < n
        invariant
            n == models@.len(),
            k <= n,
            pred == named_by(v@),
            lowered@ == unicode_lowercase(v@),
            v@ == trim_ws(value@),
            v@.len() > 0,
            !matches_kind(*given, embedding),
            first_where(models@.take(k as int), pred) is None,
        decreases n - k,
    {
        assert(models@.take(k + 1).drop_last() =~= models@.take(k as int));
        if named_by_exec(&models[k], v.as_str(), lowered.as_str()) {
            proof {
                lemma_first_where_found(models@, pred, k as int);
            }
            if selected_model_matches_kind(&models[k], embedding) {
                return Some(ModelChoice::Listed(k));
            }
            return None;
        }
        k += 1;
    }
    assert(models@.take(n as int) =~= models@);
    None
}

/// The best-scoring embedding model (the last of equally good ones).
pub open spec fn best_embedding(models: Seq<ModelFile>) -> Option<int>
    decreases models.len(),
{
    if models.len() == 0 {
        None
    } else {
        let prev = best_embedding(models.drop_last());
        let m = models.last();
        if !embedding_model(m) {
            prev
        } else {
            match prev {
                Some(b) => if embedding_score(m) >= embedding_score(models[b]) {
                    Some(models.len() - 1)
                } else {
                    prev
                },
                None => Some(models.len() - 1),
            }
        }
    }
}

proof fn lemma_best_embedding(models: Seq<ModelFile>)
    ensures
        match best_embedding(models) {
            Some(b) => 0 <= b < models.len(),
            None => true,
        },
    decreases models.len(),
{
    if models.len() > 0 {
        lemma_best_embedding(models.drop_last());
    }
}


/// The embedding model to run when no environment variable names one: the one
/// the setting selects, else the best-scoring embedding model.
pub open spec fn embedding_choice(models: Seq<ModelFile>, setting: Option<(Seq<char>, ModelFile)>) -> Option<
    Option<int>,
> {
    let selected = match setting {
        Some((v, given)) => selected_choice(models, v, given, true),
        None => None,
    };
    if selected is Some {
        selected
    } else {
        match best_embedding(models) {
            Some(k) => Some(Some(k)),
            None => None,
        }
    }
}

/// The chat model to run when no environment variable names one: the one the
/// setting selects, else the first model a preferred hint finds, else the first
/// model not named like an embedding model.
pub open spec fn chat_choice(models: Seq<ModelFile>, setting: Option<(Seq<char>, ModelFile)>) -> Option<
    Option<int>,
> {
    let selected = match setting {
        Some((v, given)) => selected_choice(models, v, given, false),
        None => None,
    };
    if selected is Some {
        selected
    } else {
        match hinted_model(models, preferred_chat_hints(), false) {
            Some(k) => Some(Some(k)),
            None => match first_where(models, not_embedding_named()) {
                Some(k) => Some(Some(k)),
                None => None,
            },
        }
    }
}

pub open spec fn not_embedding_named() -> spec_fn(ModelFile) -> bool {
    |m: ModelFile| !embedding_name(m)
}

pub open spec fn setting_view(value: Option<&str>, given: &ModelFile) -> Option<(Seq<char>, ModelFile)> {
    match value {
        Some(v) => Some((v@, *given)),
        None => None,
    }
}

/// The embedding model to run (see [`embedding_choice`]); `given` is the file
/// at the setting's path.
pub fn pick_embedding_model(models: &[ModelFile], setting: Option<&str>, given: &ModelFile) -> (r: Option<
    ModelChoice,
>)
    ensures
        choice_view(r) == embedding_choice(models@, setting_view(setting, given)),
{
    if let Some(v) = setting {
        if let Some(choice) = pick_selected_model(models, v, given, true) {
            return Some(choice);
        }
    }
    let n = models.len();
    let mut best: Option<usize> = None;
    let mut best_score: i32 = 0;
    let mut k: usize = 0;
    while k < n
        invariant
            n == models@.len(),
            k <= n,
            match best {
                Some(b) => best_embedding(models@.take(k as int)) == Some(b as int) && b < k
                    && best_score as int == embedding_score(models@[b as int]),
                None => best_embedding(models@.take(k as int)) is None,
            },
        decreases n - k,
    {
        let ghost t = models@.take(k + 1);
        assert(t.drop_last() =~= models@.take(k as int));
        assert(t.last() == models@[k as int]);
        if is_embedding_model(&models[k]) {
            let score = embedding_model_score(&models[k]);
            let replace = match best {
                Some(b) => {
                    assert(t[b as int] == models@[b as int]);
                    score >= best_score
                },
                None => true,
            };
            if replace {
                best = Some(k);
                best_score = score;
            }
        }
        k += 1;
    }
    assert(models@.take(n as int) =~= models@);
    match best {
        Some(b) => Some(ModelChoice::Listed(b)),
        None => None,
    }
}

/// The chat model to run (see [`chat_choice`]); `given` is the file at the
/// setting's path.
pub fn pick_chat_model(models: &[ModelFile], setting: Option<&str>, given: &ModelFile) -> (r: Option<ModelChoice>)
    ensures
        choice_view(r) == chat_choice(models@, setting_view(setting, given)),
{
    if let Some(v) = setting {
        if let Some(choice) = pick_selected_model(models, v, given, false) {
            return Some(choice);
        }
    }
    let hints: Vec<&str> = vec!["gemma4", "gemma-4", "gemma3", "gemma-3", "gemma-2b", "2b", "gemma", "qwen"];
    proof {
        reveal_strlit("gemma4");
        reveal_strlit("gemma-4");
        reveal_strlit("gemma3");
        reveal_strlit("gemma-3");
        reveal_strlit("gemma-2b");
        reveal_strlit("2b");
        reveal_strlit("gemma");
        reveal_strlit("qwen");
        assert(hint_views(hints@) =~= preferred_chat_hints());
    }
    let ghost selected = match setting_view(setting, given) {
        Some((v, g)) => selected_choice(models@, v, g, false),
        None => None,
    };
    assert(selected is None);
    let hs = hints.as_slice();
    assert(hint_views(hs@) == preferred_chat_hints());
    if let Some(k) = hinted_index_of_kind(models, hs, false) {
        assert(hinted_model(models@, preferred_chat_hints(), false) == Some(k as int));
        return Some(ModelChoice::Listed(k));
    }
    assert(hinted_model(models@, preferred_chat_hints(), false) is None);
    let n = models.len();
    let mut k: usize = 0;
    while k < n
        invariant
            n == models@.len(),
            k <= n,
            selected == match setting_view(setting, given) {
                Some((v, g)) => selected_choice(models@, v, g, false),
                None => None,
            },
            selected is None,
            hinted_model(models@, preferred_chat_hints(), false) is None,
            first_where(models@.take(k as int), not_embedding_named()) is None,
        decreases n - k,
    {
        assert(models@.take(k + 1).drop_last() =~= models@.take(k as int));
        if !is_embedding_model_name(&models[k]) {
            proof {
                lemma_first_where_found(models@, not_embedding_named(), k as int);
            }
            return Some(ModelChoice::Listed(k));
        }
        k += 1;
    }
    assert(models@.take(n as int) =~= models@);
    None
}

/// The models with repeated paths left out (the first of each kept).
pub open spec fn unique_models(ms: Seq<ModelFile>) -> Seq<ModelFile>
    decreases ms.len(),
{
    if ms.len() == 0 {
        Seq::empty()
    } else {
        let prev = unique_models(ms.drop_last());
        if prev.map_values(|m: ModelFile| m.path@).contains(ms.last().path@) {
            prev
        } else {
            prev.push(ms.last())
        }
    }
}

/// A model's place in the catalog listing: lower-cased label, position.
pub type LabelKey = (Seq<char>, int);

pub open spec fn by_label() -> spec_fn(LabelKey, LabelKey) -> bool {
    |a: LabelKey, b: LabelKey| !seq_lt(b.0, a.0)
}

pub open spec fn label_keys(ms: Seq<ModelFile>) -> Seq<LabelKey> {
    Seq::new(ms.len(), |p: int| (unicode_lowercase(label_of(ms[p])), p))
}

/// The catalog: each path once, ordered by label ignoring case (equal labels
/// keep their order).
pub open spec fn catalog(ms: Seq<ModelFile>) -> Seq<ModelFile> {
    let u = unique_models(ms);
    sort_by(label_keys(u), by_label()).map_values(|k: LabelKey| u[k.1])
}

pub open spec fn model_view(m: ModelFile) -> (Seq<char>, Option<Seq<char>>, bool) {
    (m.path@, m.file_name.deep_view(), m.is_file)
}

pub open spec fn model_views(ms: Seq<ModelFile>) -> Seq<(Seq<char>, Option<Seq<char>>, bool)> {
    ms.map_values(|m: ModelFile| model_view(m))
}

fn copy_model(m: &ModelFile) -> (r: ModelFile)
    ensures
        model_view(r) == model_view(*m),
{
    ModelFile {
        path: String::from_str(m.path.as_str()),
        file_name: crate::tabs::clone_opt_string(&m.file_name),
        is_file: m.is_file,
    }
}

/// The catalog of found model files (see [`catalog`]); the paths are
/// expected in canonical form.
pub fn dedupe_model_paths(models: Vec<ModelFile>) -> (r: Vec<ModelFile>)
    ensures
        model_views(r@) == model_views(catalog(models@)),
{
    let ghost all = models@;
    let n = models.len();
    let mut rest = models;
    let mut unique: Vec<ModelFile> = Vec::new();
    let mut paths: Vec<String> = Vec::new();
    assert(all.take(0) =~= Seq::<ModelFile>::empty());
    assert(all.skip(0) =~= all);
    while rest.len() > 0
        invariant
            n == all.len(),
            rest.len() <= n,
            rest@ == all.skip(n - rest.len()),
            unique@ == unique_models(all.take(n - rest.len())),
            string_views(paths@) == unique@.map_values(|m: ModelFile| m.path@),
        decreases rest.len(),
    {
        let ghost i = n - rest.len();
        let m = rest.remove(0);
        assert(m == all[i]);
        assert(rest@ =~= all.skip(i + 1));
        let ghost t = all.take(i + 1);
        assert(t.drop_last() =~= all.take(i));
        assert(t.last() == all[i]);
        let mut seen = false;
        let mut k: usize = 0;
        while k < paths.len()
            invariant
                k <= paths@.len(),
                seen == string_views(paths@).take(k as int).contains(m.path@),
            decreases paths@.len() - k,
        {
            let ghost s0 = string_views(paths@).take(k as int);
            let ghost s1 = string_views(paths@).take(k + 1);
            assert(s1 =~= s0.push(paths@[k as int]@));
            let hit = str_eq(paths[k].as_str(), m.path.as_str());
            proof {
                if s0.contains(m.path@) {
                    let j = choose|j: int| 0 <= j < s0.len() && s0[j] == m.path@;
                    assert(s1[j] == m.path@);
                }
                if hit {
                    assert(s1[k as int] == m.path@);
                }
                if s1.contains(m.path@) && !hit {
                    let j = choose|j: int| 0 <= j < s1.len() && s1[j] == m.path@;
                    assert(j < k);
                    assert(s0[j] == m.path@);
                }
            }
            if hit {
                seen = true;
            }
            k += 1;
        }
        assert(string_views(paths@).take(paths@.len() as int) =~= string_views(paths@));
        if !seen {
            let ghost before_paths = string_views(paths@);
            let ghost before = unique@;
            paths.push(String::from_str(m.path.as_str()));
            unique.push(m);
            assert(string_views(paths@) =~= before_paths.push(all[i].path@));
            assert(unique@.map_values(|m: ModelFile| m.path@) =~= before.map_values(|m: ModelFile| m.path@).push(
                all[i].path@,
            ));
        }
    }
    assert(all.take(n as int) =~= all);
    let ghost u = unique@;
    let ghost keys = label_keys(u);
    let m = unique.len();
    let mut lowered: Vec<Vec<char>> = Vec::new();
    let mut q: usize = 0;
    while q < m
        invariant
            m == unique@.len(),
            q <= m,
            lowered@.len() == q,
            forall|k: int| 0 <= k < q ==> (#[trigger] lowered@[k])@ == unicode_lowercase(label_of(unique@[k])),
        decreases m - q,
    {
        let label = model_label(&unique[q]);
        lowered.push(to_chars(to_lowercase(label.as_str()).as_str()));
        q += 1;
    }
    let mut perm: Vec<usize> = Vec::new();
    let mut a: usize = 0;
    while a < m
        invariant
            m == unique@.len(),
            u == unique@,
            keys == label_keys(u),
            lowered@.len() == m,
            forall|k: int| 0 <= k < m ==> (#[trigger] lowered@[k])@ == unicode_lowercase(label_of(unique@[k])),
            a <= m,
            perm@.len() == a,
            forall|k: int| 0 <= k < perm@.len() ==> #[trigger] perm@[k] < a,
            perm@.map_values(|p: usize| keys[p as int]) == sort_by(keys.take(a as int), by_label()),
        decreases m - a,
    {
        let ghost sorted = sort_by(keys.take(a as int), by_label());
        let mut j: usize = 0;
        while j < perm.len() && !crate::order::chars_lt(lowered[a].as_slice(), lowered[perm[j]].as_slice())
            invariant
                m == unique@.len(),
                keys == label_keys(u),
                u == unique@,
                lowered@.len() == m,
                forall|k: int| 0 <= k < m ==> (#[trigger] lowered@[k])@ == unicode_lowercase(label_of(unique@[k])),
                a < m,
                perm@.len() == a,
                forall|k: int| 0 <= k < perm@.len() ==> #[trigger] perm@[k] < a,
                sorted == perm@.map_values(|p: usize| keys[p as int]),
                j <= perm@.len(),
                forall|k: int| 0 <= k < j ==> (by_label())(#[trigger] sorted[k], keys[a as int]),
            decreases perm@.len() - j,
        {
            j += 1;
        }
        proof {
            lemma_insert_pos_by(sorted, keys[a as int], by_label(), j as int);
            assert(keys.take(a + 1).drop_last() =~= keys.take(a as int));
            assert(keys.take(a + 1).last() == keys[a as int]);
        }
        perm.insert(j, a);
        assert(perm@.map_values(|p: usize| keys[p as int]) =~= sorted.insert(j as int, keys[a as int]));
        a += 1;
    }
    assert(keys.take(m as int) =~= keys);
    let ghost ordered = sort_by(keys, by_label());
    proof {
        lemma_sort_by_len(keys, by_label());
    }
    let mut out: Vec<ModelFile> = Vec::new();
    let mut b: usize = 0;
    while b < m
        invariant
            m == unique@.len(),
            u == unique@,
            keys == label_keys(u),
            perm@.len() == m,
            forall|k: int| 0 <= k < m ==> #[trigger] perm@[k] < m,
            perm@.map_values(|p: usize| keys[p as int]) == ordered,
            ordered.len() == m,
            b <= m,
            model_views(out@) == model_views(ordered.take(b as int).map_values(|k: LabelKey| u[k.1])),
        decreases m - b,
    {
        let p = perm[b];
        assert(ordered[b as int] == keys[p as int]);
        let copy = copy_model(&unique[p]);
        let ghost before = model_views(out@);
        out.push(copy);
        assert(model_views(out@) =~= before.push(model_view(copy)));
        assert(model_views(ordered.take(b + 1).map_values(|k: LabelKey| u[k.1])) =~= model_views(
            ordered.take(b as int).map_values(|k: LabelKey| u[k.1]),
        ).push(model_view(u[p as int])));
        b += 1;
    }
    assert(ordered.take(m as int) =~= ordered);
    out
}

// ---------------------------------------------------------------------------
// Runtime flags
// ---------------------------------------------------------------------------

/// An environment flag: `1`, `true`, `yes` or `on` in any case switch it on;
/// any other value off; unset keeps the default.
pub open spec fn flag_enabled(value: Option<Seq<char>>, default: bool) -> bool {
    match value {
        Some(v) => {
            let l = unicode_lowercase(v);
            l == "1"@ || l == "true"@ || l == "yes"@ || l == "on"@
        },
        None => default,
    }
}

pub fn env_flag_enabled(value: Option<&str>, default: bool) -> (r: bool)
    ensures
        r == flag_enabled(
            match value {
                Some(v) => Some(v@),
                None => None,
            },
            default,
        ),
{
    match value {
        Some(v) => {
            let l = to_lowercase(v);
            str_eq(l.as_str(), "1") || str_eq(l.as_str(), "true") || str_eq(l.as_str(), "yes")
                || str_eq(l.as_str(), "on")
        },
        None => default,
    }
}

/// Chat models run on the GPU by default only on macOS (Metal).
pub fn local_gpu_enabled(value: Option<&str>, platform: &Platform) -> (r: bool)
    ensures
        r == flag_enabled(
            match value {
                Some(v) => Some(v@),
                None => None,
            },
            *platform is MacOs,
        ),
{
    let on_mac = match platform {
        Platform::MacOs { .. } => true,
        _ => false,
    };
    env_flag_enabled(value, on_mac)
}

/// Embeddings run on the CPU unless asked otherwise.
pub fn embedding_gpu_enabled(value: Option<&str>) -> (r: bool)
    ensures
        r == flag_enabled(
            match value {
                Some(v) => Some(v@),
                None => None,
            },
            false,
        ),
{
    env_flag_enabled(value, false)
}

pub const DEFAULT_EMBEDDING_CONTEXT_TOKENS: u32 = 2048;

/// The embedding context: room for the input plus a margin, at least the
/// default and at most 8192 tokens.
pub open spec fn embedding_context(input_tokens: usize) -> int {
    let needed = if input_tokens + 16 > u32::MAX {
        u32::MAX as int
    } else {
        input_tokens + 16
    };
    let at_least = if needed > DEFAULT_EMBEDDING_CONTEXT_TOKENS {
        needed
    } else {
        DEFAULT_EMBEDDING_CONTEXT_TOKENS as int
    };
    if at_least > 8192 {
        8192
    } else {
        at_least
    }
}

pub fn embedding_context_tokens(input_tokens: usize) -> (r: u32)
    ensures
        r as int == embedding_context(input_tokens),
{
    let sum = input_tokens.saturating_add(16);
    let needed: u32 = if sum > 4294967295usize {
        4294967295u32
    } else {
        sum as u32
    };
    let at_least = if needed > DEFAULT_EMBEDDING_CONTEXT_TOKENS {
        needed
    } else {
        DEFAULT_EMBEDDING_CONTEXT_TOKENS
    };
    if at_least > 8192 {
        8192
    } else {
        at_least
    }
}

// ---------------------------------------------------------------------------
// Tuning settings
// ---------------------------------------------------------------------------

pub const DEFAULT_CHAT_CONTEXT_TOKENS: u32 = 8192;
pub const MOBILE_CHAT_CONTEXT_TOKENS: u32 = 3072;
pub const DEFAULT_CHAT_BATCH_TOKENS: usize = 2048;
pub const DEFAULT_EMBEDDING_BATCH_SIZE: usize = 8;
pub const DEFAULT_EMBEDDING_BATCH_TOKENS: usize = 2048;

/// The digits of a number as `str::parse` reads an unsigned integer: an
/// optional leading `+` is dropped.
pub open spec fn unsigned_digits(s: Seq<char>) -> Seq<char> {
    if s.len() > 0 && s[0] == '+' {
        s.drop_first()
    } else {
        s
    }
}

/// `str::parse::<u64>`, limited to values up to `max`: `None` for text that
/// is not a number or whose value exceeds `max`.
pub open spec fn parsed_up_to(s: Seq<char>, max: int) -> Option<int> {
    let d = unsigned_digits(s);
    if d.len() > 0 && all_digits(d) && decimal_value(d) <= max {
        Some(decimal_value(d) as int)
    } else {
        None
    }
}

/// A setting read from text: the parsed value, else the default, kept
/// within `lo ..= hi`.
pub open spec fn setting(raw: Option<Seq<char>>, max: int, default: int, lo: int, hi: int) -> int {
    let v = match raw {
        Some(s) => match parsed_up_to(s, max) {
            Some(n) => n,
            None => default,
        },
        None => default,
    };
    if v < lo {
        lo
    } else if v > hi {
        hi
    } else {
        v
    }
}

pub open spec fn opt_view(raw: Option<&str>) -> Option<Seq<char>> {
    match raw {
        Some(s) => Some(s@),
        None => None,
    }
}

/// `str::parse` of an unsigned integer of at most `max`.
fn parse_up_to(s: &str, max: u64) -> (r: Option<u64>)
    ensures
        match parsed_up_to(s@, max as int) {
            Some(n) => r == Some(n as u64),
            None => r is None,
        },
{
    let chars = to_chars(s);
    let digits = if chars.len() > 0 && chars[0] == '+' {
        crate::text::subvec(&chars, 1, chars.len())
    } else {
        chars
    };
    assert(digits@ =~= unsigned_digits(s@));
    match crate::numbers::parse_u64_digits(digits.as_slice()) {
        Some(n) => {
            if n <= max {
                Some(n)
            } else {
                None
            }
        },
        None => None,
    }
}

fn clamp_u64(v: u64, lo: u64, hi: u64) -> (r: u64)
    requires
        lo <= hi,
    ensures
        r == (if v < lo {
            lo
        } else if v > hi {
            hi
        } else {
            v
        }),
{
    if v < lo {
        lo
    } else if v > hi {
        hi
    } else {
        v
    }
}

/// The chat context window in tokens: the setting if it reads as a `u32`,
/// else 3072 on phones and 8192 elsewhere, kept within 1024 ..= 65536.
pub fn chat_context_tokens(raw: Option<&str>, mobile: bool) -> (r: u32)
    ensures
        r as int == setting(
            opt_view(raw),
            u32::MAX as int,
            if mobile {
                MOBILE_CHAT_CONTEXT_TOKENS as int
            } else {
                DEFAULT_CHAT_CONTEXT_TOKENS as int
            },
            1024,
            65536,
        ),
{
    let default: u32 = if mobile {
        MOBILE_CHAT_CONTEXT_TOKENS
    } else {
        DEFAULT_CHAT_CONTEXT_TOKENS
    };
    let v: u64 = match raw {
        Some(s) => match parse_up_to(s, 4294967295u64) {
            Some(n) => n,
            None => default as u64,
        },
        None => default as u64,
    };
    clamp_u64(v, 1024, 65536) as u32
}

/// A `usize` setting: the parsed value, else `default`, within `lo ..= hi`.
fn usize_setting(raw: Option<&str>, default: usize, lo: usize, hi: usize) -> (r: usize)
    requires
        lo <= hi,
    ensures
        r as int == setting(opt_view(raw), usize::MAX as int, default as int, lo as int, hi as int),
{
    let v: u64 = match raw {
        Some(s) => match parse_up_to(s, usize::MAX as u64) {
            Some(n) => n,
            None => default as u64,
        },
        None => default as u64,
    };
    clamp_u64(v, lo as u64, hi as u64) as usize
}

/// Tokens per chat decoding batch: the setting, else 2048, within
/// 512 ..= 8192.
pub fn chat_batch_token_limit(raw: Option<&str>) -> (r: usize)
    ensures
        r as int == setting(opt_view(raw), usize::MAX as int, DEFAULT_CHAT_BATCH_TOKENS as int, 512, 8192),
{
    usize_setting(raw, DEFAULT_CHAT_BATCH_TOKENS, 512, 8192)
}

/// Texts per embedding batch: the setting, else 8, within 1 ..= 24.
pub fn embedding_batch_size(raw: Option<&str>) -> (r: usize)
    ensures
        r as int == setting(opt_view(raw), usize::MAX as int, DEFAULT_EMBEDDING_BATCH_SIZE as int, 1, 24),
{
    usize_setting(raw, DEFAULT_EMBEDDING_BATCH_SIZE, 1, 24)
}

/// Tokens per embedding batch: the setting, else 2048, within 512 ..= 8192.
pub fn embedding_batch_token_limit(raw: Option<&str>) -> (r: usize)
    ensures
        r as int == setting(
            opt_view(raw),
            usize::MAX as int,
            DEFAULT_EMBEDDING_BATCH_TOKENS as int,
            512,
            8192,
        ),
{
    usize_setting(raw, DEFAULT_EMBEDDING_BATCH_TOKENS, 512, 8192)
}

/// Inference threads: the cores left after keeping one (phones) or two free,
/// within 2 ..= 12; six when the core count is unknown.
pub fn auto_thread_count(available: Option<usize>, mobile: bool) -> (r: i32)
    ensures
        r == match available {
            Some(n) => {
                let reserve: int = if mobile {
                    1
                } else {
                    2
                };
                let left = if n >= reserve {
                    n - reserve
                } else {
                    0
                };
                if left < 2 {
                    2
                } else if left > 12 {
                    12
                } else {
                    left
                }
            },
            None => 6,
        },
{
    match available {
        Some(n) => {
            let reserve: usize = if mobile {
                1
            } else {
                2
            };
            let left = n.saturating_sub(reserve);
            let kept = if left < 2 {
                2
            } else if left > 12 {
                12
            } else {
                left
            };
            kept as i32
        },
        None => 6,
    }
}

// ---------------------------------------------------------------------------
// Managed downloads
// ---------------------------------------------------------------------------

/// A model the app can download from its official Hugging Face repository.
pub struct ModelDownloadSpec {
    pub id: &'static str,
    pub label: &'static str,
    pub repository: &'static str,
    pub revision: &'static str,
    pub filename: &'static str,
    /// Where it goes, relative to the models directory: a category folder
    /// and the repository's folder, then `filename`.
    pub category_dir: &'static str,
    pub repository_dir: &'static str,
    pub expected_bytes: u64,
}

impl ModelDownloadSpec {
    /// The pinned-revision download URL.
    pub fn source_url(&self) -> (r: String)
        ensures
            r@ == "https://huggingface.co/"@ + self.repository@ + "/resolve/"@ + self.revision@
                + "/"@ + self.filename@ + "?download=true"@,
    {
        let mut v = to_chars("https://huggingface.co/");
        push_str_chars(&mut v, self.repository);
        push_str_chars(&mut v, "/resolve/");
        push_str_chars(&mut v, self.revision);
        push_str_chars(&mut v, "/");
        push_str_chars(&mut v, self.filename);
        push_str_chars(&mut v, "?download=true");
        from_chars(v.as_slice())
    }
}

/// The managed models: MiST (embeddings), LiTE and WiSE (chat).
pub open spec fn known_model_id(id: Seq<char>) -> bool {
    id == "mist"@ || id == "lite"@ || id == "wise"@
}

pub open spec fn unknown_model_message(id: Seq<char>) -> Seq<char> {
    "Unknown AiON model selection: "@ + id
}

pub fn managed_model_spec(id: &str) -> (r: Result<ModelDownloadSpec, String>)
    ensures
        match r {
            Ok(s) => known_model_id(id@) && s.id@ == id@,
            Err(e) => !known_model_id(id@) && e@ == unknown_model_message(id@),
        },
{
    if str_eq(id, "mist") {
        Ok(
            ModelDownloadSpec {
                id: "mist",
                label: "AiON MiST",
                repository: "Qwen/Qwen3-Embedding-0.6B-GGUF",
                revision: "370f27d7550e0def9b39c1f16d3fbaa13aa67728",
                filename: "Qwen3-Embedding-0.6B-Q8_0.gguf",
                category_dir: "embeddings",
                repository_dir: "Qwen3-Embedding-0.6B-GGUF",
                expected_bytes: 639150592,
            },
        )
    } else if str_eq(id, "lite") {
        Ok(
            ModelDownloadSpec {
                id: "lite",
                label: "AiON LiTE",
                repository: "google/gemma-4-E2B-it-qat-q4_0-gguf",
                revision: "1894d1fc0a19d86697abd40483f5983c867df03f",
                filename: "gemma-4-E2B_q4_0-it.gguf",
                category_dir: "chat",
                repository_dir: "gemma-4-E2B-it-qat-q4_0-gguf",
                expected_bytes: 3349514112,
            },
        )
    } else if str_eq(id, "wise") {
        Ok(
            ModelDownloadSpec {
                id: "wise",
                label: "AiON WiSE",
                repository: "google/gemma-4-E4B-it-qat-q4_0-gguf",
                revision: "bb3b92e6f031fa438b409f898dd9f14f499a0cb0",
                filename: "gemma-4-E4B_q4_0-it.gguf",
                category_dir: "chat",
                repository_dir: "gemma-4-E4B-it-qat-q4_0-gguf",
                expected_bytes: 5154939136,
            },
        )
    } else {
        let mut v = to_chars("Unknown AiON model selection: ");
        push_str_chars(&mut v, id);
        Err(from_chars(v.as_slice()))
    }
}

/// The managed ids picked, in order: MiST always, then each chat selection
/// (trimmed and lower-cased, blanks and repeats skipped); the first unknown
/// selection makes the whole request an error.
pub open spec fn download_selection(models: Seq<Seq<char>>) -> Result<Seq<Seq<char>>, Seq<char>>
    decreases models.len(),
{
    if models.len() == 0 {
        Ok(seq!["mist"@])
    } else {
        match download_selection(models.drop_last()) {
            Err(e) => Err(e),
            Ok(picked) => {
                let n = unicode_lowercase(trim_ws(models.last()));
                if n.len() == 0 || picked.drop_first().contains(n) {
                    Ok(picked)
                } else if known_model_id(n) {
                    Ok(picked.push(n))
                } else {
                    Err(unknown_model_message(n))
                }
            },
        }
    }
}

pub open spec fn spec_ids(specs: Seq<ModelDownloadSpec>) -> Seq<Seq<char>> {
    specs.map_values(|s: ModelDownloadSpec| s.id@)
}

fn contains_string(v: &Vec<String>, s: &str) -> (r: bool)
    ensures
        r == string_views(v@).contains(s@),
{
    let n = v.len();
    let mut k: usize = 0;
    while k < n
        invariant
            n == v@.len(),
            k <= n,
            forall|j: int| 0 <= j < k ==> v@[j]@ != s@,
        decreases n - k,
    {
        if str_eq(v[k].as_str(), s) {
            assert(string_views(v@)[k as int] == s@);
            return true;
        }
        k += 1;
    }
    assert forall|j: int| 0 <= j < string_views(v@).len() implies string_views(v@)[j] != s@ by {
        assert(string_views(v@)[j] == v@[j]@);
    }
    false
}

proof fn lemma_selection_error_sticks(ms: Seq<Seq<char>>, k: int, j: int)
    requires
        0 <= k <= j <= ms.len(),
        download_selection(ms.take(k)) is Err,
    ensures
        download_selection(ms.take(j)) == download_selection(ms.take(k)),
    decreases j - k,
{
    if j > k {
        lemma_selection_error_sticks(ms, k, j - 1);
        assert(ms.take(j).drop_last() =~= ms.take(j - 1));
    }
}

pub fn selected_model_downloads(chat_models: &[String]) -> (r: Result<Vec<ModelDownloadSpec>, String>)
    ensures
        match r {
            Ok(specs) => download_selection(string_views(chat_models@)) == Ok::<
                Seq<Seq<char>>,
                Seq<char>,
            >(spec_ids(specs@)),
            Err(e) => download_selection(string_views(chat_models@)) == Err::<
                Seq<Seq<char>>,
                Seq<char>,
            >(e@),
        },
{
    let ghost ms = string_views(chat_models@);
    let first = match managed_model_spec("mist") {
        Ok(s) => s,
        Err(e) => {
            proof {
                reveal_strlit("mist");
            }
            return Err(e);
        },
    };
    let mut specs: Vec<ModelDownloadSpec> = Vec::new();
    specs.push(first);
    let mut selected: Vec<String> = Vec::new();
    assert(ms.take(0) =~= Seq::<Seq<char>>::empty());
    assert(spec_ids(specs@) =~= seq!["mist"@]);
    assert(string_views(selected@) =~= spec_ids(specs@).drop_first());
    let n = chat_models.len();
    let mut i: usize = 0;
    while i < n
        invariant
            n == chat_models@.len(),
            ms == string_views(chat_models@),
            i <= n,
            download_selection(ms.take(i as int)) == Ok::<Seq<Seq<char>>, Seq<char>>(
                spec_ids(specs@),
            ),
            spec_ids(specs@).len() >= 1,
            string_views(selected@) == spec_ids(specs@).drop_first(),
        decreases n - i,
    {
        assert(ms.take(i + 1).drop_last() =~= ms.take(i as int));
        assert(ms.take(i + 1).last() == chat_models@[i as int]@);
        let trimmed = trim_str(chat_models[i].as_str());
        let normalized = to_lowercase(trimmed.as_str());
        if normalized.as_str().is_empty() {
            i += 1;
            continue;
        }
        let seen = contains_string(&selected, normalized.as_str());
        if seen {
            i += 1;
            continue;
        }
        match managed_model_spec(normalized.as_str()) {
            Ok(s) => {
                let ghost before = spec_ids(specs@);
                let ghost sel_before = string_views(selected@);
                specs.push(s);
                assert(spec_ids(specs@) =~= before.push(normalized@));
                selected.push(normalized);
                assert(string_views(selected@) =~= sel_before.push(normalized@));
                assert(spec_ids(specs@).drop_first() =~= before.drop_first().push(normalized@));
            },
            Err(e) => {
                proof {
                    lemma_selection_error_sticks(ms, i + 1, n as int);
                    assert(ms.take(n as int) =~= ms);
                }
                return Err(e);
            },
        }
        i += 1;
    }
    assert(ms.take(n as int) =~= ms);
    Ok(specs)
}

/// Why a download failed, with a hint about access tokens when the
/// repository refused access.
pub open spec fn download_error_message(label: Seq<char>, repository: Seq<char>, filename: Seq<
    char,
>, status: u16) -> Seq<char> {
    "Could not download "@ + label + " from official Hugging Face source "@ + repository + "/"@
        + filename + " ("@ + decimal_chars(status as nat) + ")."@ + if status == 401 || status
        == 403 {
        " Accept the model terms on Hugging Face, then paste a Hugging Face read token in setup. Advanced users can also launch ÆTHER with HF_TOKEN or HUGGINGFACE_HUB_TOKEN set."@
    } else {
        Seq::empty()
    }
}

pub fn huggingface_download_error(spec: &ModelDownloadSpec, status: u16) -> (r: String)
    ensures
        r@ == download_error_message(spec.label@, spec.repository@, spec.filename@, status),
{
    let mut v = to_chars("Could not download ");
    push_str_chars(&mut v, spec.label);
    push_str_chars(&mut v, " from official Hugging Face source ");
    push_str_chars(&mut v, spec.repository);
    push_str_chars(&mut v, "/");
    push_str_chars(&mut v, spec.filename);
    push_str_chars(&mut v, " (");
    let digits = crate::numbers::decimal_digits(status as usize);
    crate::text::push_all(&mut v, digits.as_slice());
    push_str_chars(&mut v, ").");
    if status == 401 || status == 403 {
        push_str_chars(
            &mut v,
            " Accept the model terms on Hugging Face, then paste a Hugging Face read token in setup. Advanced users can also launch ÆTHER with HF_TOKEN or HUGGINGFACE_HUB_TOKEN set.",
        );
    } else {
        proof {
            reveal_strlit("");
        }
    }
    proof {
        reveal_strlit("");
    }
    from_chars(v.as_slice())
}

// ---------------------------------------------------------------------------
// Embedding batches
// ---------------------------------------------------------------------------

/// The tokens of inputs `a..b`.
pub open spec fn token_sum(tc: Seq<usize>, a: int, b: int) -> int
    decreases b - a,
{
    if b <= a {
        0
    } else {
        token_sum(tc, a, b - 1) + tc[b - 1]
    }
}

/// One batch `(start, end, tokens)` as the embedding pass fills it from
/// `start`: it takes inputs while it holds fewer than `max_sequences` and the
/// next input's tokens still fit under `max_batch_tokens` (the first input,
/// or one after inputs without tokens, always goes in), and `tokens` is
/// their sum.
pub open spec fn is_filled_batch(
    tc: Seq<usize>,
    max_sequences: usize,
    max_batch_tokens: usize,
    batch: (usize, usize, usize),
) -> bool {
    let (a, e, t) = batch;
    &&& a < e <= tc.len()
    &&& e - a <= max_sequences
    &&& t == token_sum(tc, a as int, e as int)
    &&& (token_sum(tc, a as int, e - 1) == 0 || t <= max_batch_tokens)
    &&& (e < tc.len() ==> (e - a == max_sequences || (t != 0 && t + tc[e as int]
        > max_batch_tokens)))
}

/// Consecutive filled batches that cover the inputs `0..n` in order.
pub open spec fn is_batch_plan(
    tc: Seq<usize>,
    max_sequences: usize,
    max_batch_tokens: usize,
    batches: Seq<(usize, usize, usize)>,
) -> bool {
    &&& (tc.len() == 0 <==> batches.len() == 0)
    &&& batches.len() > 0 ==> batches[0].0 == 0 && batches.last().1 == tc.len()
    &&& forall|i: int| 0 <= i < batches.len() - 1 ==> #[trigger] batches[i].1 == batches[i + 1].0
    &&& forall|i: int|
        0 <= i < batches.len() ==> is_filled_batch(
            tc,
            max_sequences,
            max_batch_tokens,
            #[trigger] batches[i],
        )
}

/// Splits inputs with the given token counts into the batches an embedding
/// pass runs, in order (see [`is_batch_plan`]).
pub fn plan_embedding_batches(token_counts: &[usize], max_sequences: usize, max_batch_tokens: usize) -> (r:
    Vec<(usize, usize, usize)>)
    requires
        max_sequences >= 1,
    ensures
        is_batch_plan(token_counts@, max_sequences, max_batch_tokens, r@),
{
    let ghost tc = token_counts@;
    let n = token_counts.len();
    let mut out: Vec<(usize, usize, usize)> = Vec::new();
    let mut start: usize = 0;
    while start < n
        invariant
            n == tc.len(),
            tc == token_counts@,
            max_sequences >= 1,
            start <= n,
            out@.len() == 0 <==> start == 0,
            out@.len() > 0 ==> out@[0].0 == 0 && out@.last().1 == start,
            forall|i: int| 0 <= i < out@.len() - 1 ==> #[trigger] out@[i].1 == out@[i + 1].0,
            forall|i: int|
                0 <= i < out@.len() ==> is_filled_batch(
                    tc,
                    max_sequences,
                    max_batch_tokens,
                    #[trigger] out@[i],
                ),
        decreases n - start,
    {
        let mut count: usize = 0;
        let mut end: usize = start;
        while end < n && end - start < max_sequences && (count == 0 || (count <= max_batch_tokens
            && token_counts[end] <= max_batch_tokens - count))
            invariant
                n == tc.len(),
                tc == token_counts@,
                start < n,
                start <= end <= n,
                end - start <= max_sequences,
                count == token_sum(tc, start as int, end as int),
                end > start ==> (token_sum(tc, start as int, end - 1) == 0 || count
                    <= max_batch_tokens),
            decreases n - end,
        {
            let c = token_counts[end];
            assert(token_sum(tc, start as int, end + 1) == token_sum(tc, start as int, end as int)
                + tc[end as int]);
            count = count + c;
            end = end + 1;
        }
        assert(end > start);
        let ghost before = out@;
        out.push((start, end, count));
        assert(out@[out@.len() - 1] == (start, end, count));
        assert forall|i: int| 0 <= i < out@.len() implies is_filled_batch(
            tc,
            max_sequences,
            max_batch_tokens,
            #[trigger] out@[i],
        ) by {
            if i < before.len() {
                assert(out@[i] == before[i]);
            }
        }
        assert forall|i: int| 0 <= i < out@.len() - 1 implies #[trigger] out@[i].1 == out@[i + 1].0 by {
            assert(out@[i] == before[i]);
            if i + 1 < before.len() {
                assert(out@[i + 1] == before[i + 1]);
            }
        }
        start = end;
    }
    out
}

} // verus!
