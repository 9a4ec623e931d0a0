use aether::chat::{
    clean_model_output, condense_history_answer, contains_stop_marker, fallback_chat_prompt,
    normalize_answer_citations, parse_numeric_citation_marker, rewrite_numeric_bracket_markers,
    stream_safe_len, strip_numeric_bracket_markers, tidy_citation_spacing, ChatPromptMessage,
    PROMPT_HISTORY_ANSWER_CHARS, stream_step,
};

#[test]
fn history_answers_are_stripped_of_stale_citation_markers_and_clipped() {
    let condensed = condense_history_answer("Augustus won [1] and later reformed Rome [2].");
    assert!(!condensed.contains("[1]"));
    assert!(!condensed.contains("[2]"));
    assert!(condensed.contains("Augustus won"));

    let long = "x".repeat(PROMPT_HISTORY_ANSWER_CHARS + 200);
    let clipped = condense_history_answer(&long);
    assert_eq!(clipped.chars().count(), PROMPT_HISTORY_ANSWER_CHARS + 1);
    assert!(clipped.ends_with('…'));
}

#[test]
fn answer_citation_normalizer_removes_out_of_range_markers() {
    let answer = r#"The pelt was called "fitchet" [15]. It has another name [1, 16]."#;

    assert_eq!(
        normalize_answer_citations(answer, 2),
        r#"The pelt was called "fitchet". It has another name [1]."#
    );
}

#[test]
fn source_context_sanitizer_removes_page_native_numeric_markers() {
    assert_eq!(
        strip_numeric_bracket_markers("Rodents are mostly herbivorous.[1][2] Some vary [note]."),
        "Rodents are mostly herbivorous. Some vary [note]."
    );
}

#[test]
fn stream_safe_len_holds_back_potential_stop_marker() {
    assert_eq!(stream_safe_len("Plain prose with no markers"), 27);
    assert_eq!(stream_safe_len("Answer text <end_of"), 12);
    assert_eq!(stream_safe_len("Tail <"), 5);
    assert_eq!(stream_safe_len(""), 0);
}

#[test]
fn stream_safe_len_releases_old_angle_brackets() {
    let text = "a < b is true, and much more prose follows here";
    assert_eq!(stream_safe_len(text), text.len());
}

#[test]
fn stream_safe_len_respects_multibyte_boundaries() {
    let text = "çalışması — özet <eö";
    let safe = stream_safe_len(text);
    assert!(text.is_char_boundary(safe));
    assert_eq!(&text[safe..], "<eö");
}

#[test]
fn citation_marker_parser_reads_lists_and_rejects_prose() {
    assert_eq!(parse_numeric_citation_marker("1, 16"), Some(vec![1, 16]));
    assert_eq!(parse_numeric_citation_marker(" 7 "), Some(vec![7]));
    assert_eq!(parse_numeric_citation_marker("note"), None);
    assert_eq!(parse_numeric_citation_marker("1,,2"), None);
    assert_eq!(parse_numeric_citation_marker("1 2"), None);
    assert_eq!(parse_numeric_citation_marker("   "), None);
    assert_eq!(parse_numeric_citation_marker("99999999999999999999999"), None);
}

#[test]
fn marker_rewrite_keeps_only_valid_sources() {
    assert_eq!(rewrite_numeric_bracket_markers("a [0, 2, 3] b", 2, true), "a [2] b");
    assert_eq!(rewrite_numeric_bracket_markers("a [x[1]] b", 3, true), "a [x[1]] b");
    assert_eq!(rewrite_numeric_bracket_markers("open [1 never closes", 3, true), "open [1 never closes");
    assert_eq!(rewrite_numeric_bracket_markers("[4][5]", 3, true), "");
}

#[test]
fn spacing_tidier_fixes_punctuation_and_double_spaces() {
    assert_eq!(tidy_citation_spacing("  a ( b ) , c  .  "), "a (b), c .");
    assert_eq!(tidy_citation_spacing("a ( b ) , c ."), "a (b), c.");
    assert_eq!(tidy_citation_spacing("x    y"), "x y");
}

#[test]
fn stop_markers_are_detected_and_cleaned() {
    assert!(contains_stop_marker("done<end_of_turn>"));
    assert!(!contains_stop_marker("plain text <b>"));
    assert_eq!(clean_model_output("  Answer<end_of_turn><|turn>model\n"), "Answer");
}

#[test]
fn fallback_prompt_groups_system_messages_before_the_user_turn() {
    let messages = vec![
        ChatPromptMessage { role: "system", content: " Be brief. ".to_string() },
        ChatPromptMessage { role: "developer", content: "Cite.".to_string() },
        ChatPromptMessage { role: "user", content: "Hi?".to_string() },
        ChatPromptMessage { role: "assistant", content: "Hello.".to_string() },
    ];
    assert_eq!(
        fallback_chat_prompt(&messages),
        "<bos><|turn>system\nBe brief.\n\nCite.<turn|>\n<|turn>user\nHi?<turn|>\n<|turn>model\nHello.<turn|>\n<|turn>model\n"
    );
}

use aether::chat::{build_chat_messages, ChatCitation, HistoryTurn};

fn turn(prompt: &str, answer: &str) -> HistoryTurn {
    HistoryTurn { prompt: prompt.to_string(), answer: answer.to_string() }
}

fn search_result(url: &str, text: &str) -> ChatCitation {
    ChatCitation {
        title: "Example".to_string(),
        url: url.to_string(),
        collection_id: "hub".to_string(),
        text: text.to_string(),
    }
}

#[test]
fn chat_messages_replay_history_before_the_current_question() {
    let history = vec![turn("Who was Augustus?", "The first Roman emperor.")];
    let citations = vec![search_result("https://example.com/a", "context text")];

    let messages = build_chat_messages("What about Tiberius?", &citations, &history, false);

    let roles = messages.iter().map(|m| m.role).collect::<Vec<_>>();
    assert_eq!(roles, vec!["system", "user", "assistant", "user"]);
    assert_eq!(messages[1].content, "Who was Augustus?");
    assert_eq!(messages[2].content, "The first Roman emperor.");
    assert!(messages[3].content.contains("What about Tiberius?"));
    assert!(messages[3].content.contains("context text"));
}

#[test]
fn chat_messages_without_history_match_the_single_shot_shape() {
    let messages = build_chat_messages("Question?", &[], &[], false);

    assert_eq!(
        messages.iter().map(|m| m.role).collect::<Vec<_>>(),
        vec!["system", "user"]
    );
    assert!(messages[1].content.contains("No stored context was retrieved."));
}

#[test]
fn sources_are_numbered_and_clipped_on_mobile() {
    let citations = vec![
        search_result("https://a.example", "Alpha [3] text"),
        search_result("https://b.example", &"b".repeat(2000)),
    ];
    let messages = build_chat_messages("Q", &citations, &[], true);
    assert!(messages[0].content.contains("[1] through [2]."));
    assert!(messages[0].content.ends_with("unless the question needs more."));
    assert!(messages[1].content.starts_with(
        "Local collection context:\n[1] Example\nURL: https://a.example\nCollection: hub\nAlpha  text\n\n[2] Example"
    ));
    assert!(messages[1].content.contains(&format!("{}\n\nQuestion: Q", "b".repeat(1100))));
    assert!(!messages[1].content.contains(&"b".repeat(1101)));
    let desktop = build_chat_messages("Q", &[], &[], false);
    assert!(desktop[0].content.ends_with("[1] through [1]. Do not copy bracketed reference numbers from webpage text."));
}

#[test]
fn extractive_answers_quote_numbered_passages() {
    let citations = vec![
        aether::chat::ChatCitation {
            title: " Quantum ".to_string(),
            url: "https://example.com/a".to_string(),
            collection_id: "hub".to_string(),
            text: "Quantum mechanics\narose gradually.".to_string(),
        },
        aether::chat::ChatCitation {
            title: "Equation".to_string(),
            url: "https://example.com/b".to_string(),
            collection_id: "hub".to_string(),
            text: "The Schrodinger equation governs.".to_string(),
        },
    ];
    let answer = aether::chat::extractive_answer_text(&citations);
    assert!(answer.starts_with("No chat model is installed, so ÆTHER cannot write an answer."));
    assert!(answer.contains("**1. Quantum** [1]\n\n> Quantum mechanics arose gradually.\n\n"));
    assert!(answer.contains("**2. Equation** [2]\n\n> The Schrodinger equation governs.\n\n"));
    assert_eq!(answer.matches("\n> ").count(), 2);
    assert!(answer.ends_with("grounded in these sources._"));
    assert_eq!(aether::chat::EXTRACTIVE_MODEL_LABEL, "AiON MiST (passages only)");
}

#[test]
fn streaming_releases_only_text_no_marker_can_reach_into() {
    let step = stream_step("Answer text <end_of", 0, 10, 3);
    assert_eq!(step.release, Some((0, 12)));
    assert!(!step.stop);
    let step = stream_step("Answer text <end_of", 12, 10, 4);
    assert_eq!(step.release, None);
    assert!(!step.stop);
    let step = stream_step("Answer text <end_of_turn>", 12, 10, 5);
    assert_eq!(step.release, None);
    assert!(step.stop);
}

#[test]
fn streaming_stops_when_the_token_budget_is_spent() {
    let step = stream_step("Plain prose", 5, 4, 4);
    assert_eq!(step.release, Some((5, 11)));
    assert!(step.stop);
}

#[test]
fn streaming_stops_at_a_marker_after_multibyte_text() {
    let step = stream_step("çok iyi <|end|>", 0, 100, 7);
    assert_eq!(step.release, None);
    assert!(step.stop);
    let step = stream_step("çok iyi", 0, 100, 7);
    assert_eq!(step.release, Some((0, "çok iyi".len())));
    assert!(!step.stop);
}
