use aether::dossier::{build_air_markdown, AirDossierSource, AirMarkdownInput};
use aether::air::{
    air_dossier_filename, air_frontmatter_value, air_lens_label, air_tags,
    air_title_from_filename, markdown_escape, normalize_model_markdown_citations, yaml_string,
    AirLensKind,
};

#[test]
fn air_filename_matches_dossier_title_with_safe_separators() {
    assert_eq!(
        air_dossier_filename(
            "AiR Dossier: Local/Fluid Research",
            "2026-06-17T10:11:12.123Z"
        ),
        "AiR Dossier: Local-Fluid Research.md"
    );
}

#[test]
fn air_yaml_string_escapes_quotes_and_newlines() {
    assert_eq!(
        yaml_string("A \"quoted\"\nLens"),
        "\"A \\\"quoted\\\" Lens\""
    );
}

#[test]
fn dossier_filenames_fall_back_when_nothing_is_left() {
    assert_eq!(air_dossier_filename(" ..  ", "x"), "AiR Dossier.md");
    assert_eq!(air_dossier_filename("a\\b\tc", "x"), "a-b c.md");
}

#[test]
fn titles_come_back_from_filenames() {
    assert_eq!(air_title_from_filename("roman-empire-2026-06-17.md"), "Roman Empire");
    assert_eq!(air_title_from_filename("x.md.md"), "X");
    assert_eq!(air_title_from_filename("a-b-c-d-e-f-g-h-i-j"), "A B C D E F G H");
}

#[test]
fn front_matter_values_are_unquoted() {
    let markdown = "---\ntitle: \"A \\\"B\\\" C\"\nmodel: local\n---\n\n# Body\nmodel: no";
    assert_eq!(air_frontmatter_value(markdown, "title"), Some("A \"B\" C".to_string()));
    assert_eq!(air_frontmatter_value(markdown, "model"), Some("local".to_string()));
    assert_eq!(air_frontmatter_value(markdown, "missing"), None);
    assert_eq!(air_frontmatter_value("# no front matter", "title"), None);
}

#[test]
fn tags_are_sorted_and_unique() {
    assert_eq!(
        air_tags("Air quality & the Air"),
        vec!["aether", "air", "dossier", "quality", "the"]
    );
    assert_eq!(air_tags("Go"), vec!["aether", "air", "dossier"]);
}

#[test]
fn markdown_escape_drops_markers_and_carriage_returns() {
    assert_eq!(markdown_escape("  Finding [12].\r\n "), "Finding .");
}

#[test]
fn lens_labels() {
    assert_eq!(air_lens_label(AirLensKind::Topic), "topic");
    assert_eq!(air_lens_label(AirLensKind::Answer), "AiON answer");
    assert_eq!(air_lens_label(AirLensKind::Iceberg), "iCE");
}

#[test]
fn model_markdown_keeps_only_real_citations() {
    assert_eq!(
        normalize_model_markdown_citations("<|end|>Claim [1] and [7].", 2),
        "Claim [1] and."
    );
}

fn dossier_source(id: &str, title: &str) -> AirDossierSource {
    AirDossierSource {
        id: id.to_string(),
        title: title.to_string(),
        excerpt: format!("What {title} says."),
        collection_name: None,
        url: Some(format!("https://example.com/{id}")),
        host: Some("example.com".to_string()),
        captured_at: None,
        score_text: None,
    }
}

#[test]
fn dossier_front_matter_reads_back_title_and_source_count() {
    let sources = vec![dossier_source("a", "Alpha"), dossier_source("b", "Beta")];
    let markdown = build_air_markdown(AirMarkdownInput {
        title: "AiR Dossier: \"Rust\" async",
        lens: "Rust async",
        lens_kind: AirLensKind::Topic,
        generated_at: "2026-06-17T10:11:12Z",
        model: "deterministic-scaffold",
        sources: &sources,
        synthesized_sections: None,
        seed_answer: None,
        ice_map: None,
    });
    assert!(markdown.starts_with("---\ntitle: \"AiR Dossier: \\\"Rust\\\" async\"\n"));
    assert_eq!(
        air_frontmatter_value(&markdown, "title").as_deref(),
        Some("AiR Dossier: \"Rust\" async")
    );
    assert_eq!(air_frontmatter_value(&markdown, "source_count").as_deref(), Some("2"));
    assert_eq!(air_frontmatter_value(&markdown, "type").as_deref(), Some("aether-dossier"));
    assert!(markdown.contains("This dossier gathers 2 local sources around [[Rust async]]."));
}
