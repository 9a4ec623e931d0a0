use aether::lexical::{lexical_relevance_score, lexical_term_score, rank_chunks_lexically, LEXICAL_SCALE};

fn strings(values: &[&str]) -> Vec<String> {
    values.iter().map(|value| value.to_string()).collect()
}

#[test]
fn repeated_terms_score_more_than_a_single_mention() {
    // 2 + 0.5 + 0.5 points for a five-byte term found twice.
    assert_eq!(lexical_term_score("the cache and the cache", "cache"), 3 * LEXICAL_SCALE);
    // 2 + 0.5 points for one mention.
    assert_eq!(lexical_term_score("a cache", "cache"), 150);
}

#[test]
fn stems_and_singulars_score_partially() {
    // The first six bytes of "cachets" are found: 1.25 + 6/12 points.
    assert_eq!(lexical_term_score("a cachet of value", "cachets"), 105);
    // "layer" is found for "layers": 1.5 + 5/12 points.
    assert_eq!(lexical_term_score("one layer only", "layers"), 115);
    assert_eq!(lexical_term_score("nothing related", "layers"), 0);
}

#[test]
fn relevance_sums_terms_of_the_lower_cased_text() {
    // "how", "does" and "the" are stopwords; "work" is not found.
    assert_eq!(lexical_relevance_score("Rust CACHES data", "how does the cache work"), 150);
    assert_eq!(lexical_relevance_score("anything", "of the"), 0);
}

#[test]
fn lexical_ranking_puts_best_passages_first() {
    let chunks = strings(&["intro text", "cache cache here", "a cache"]);
    assert_eq!(rank_chunks_lexically(&chunks, "cache", 5), Some(vec![(1, 180), (2, 150)]));
    assert_eq!(rank_chunks_lexically(&chunks, "cache", 1), Some(vec![(1, 180)]));
}

#[test]
fn lexical_ranking_keeps_page_order_on_ties() {
    let chunks = strings(&["cache a", "cache b"]);
    assert_eq!(rank_chunks_lexically(&chunks, "cache", 5), Some(vec![(0, 150), (1, 150)]));
}

#[test]
fn lexical_ranking_falls_back_to_the_first_passage() {
    let chunks = strings(&["alpha", "beta"]);
    assert_eq!(rank_chunks_lexically(&chunks, "gamma", 3), Some(vec![(0, 0)]));
    assert_eq!(rank_chunks_lexically(&chunks, "gamma", 0), Some(vec![]));
    assert_eq!(rank_chunks_lexically(&[], "gamma", 3), Some(vec![]));
}

#[test]
fn lexical_ranking_refuses_a_stem_cut_inside_a_character() {
    // "caféé" is seven bytes; its six-byte stem would end inside the last "é".
    let chunks = strings(&["no match here"]);
    assert_eq!(rank_chunks_lexically(&chunks, "caféé", 3), None);
    let found = strings(&["un caféé"]);
    assert_eq!(rank_chunks_lexically(&found, "caféé", 3), Some(vec![(0, 120 + 6 * 7)]));
}
