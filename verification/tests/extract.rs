use aether::extract::{
    clean_metadata_value, count_extracted_words, hash_extracted_content, select_document_language,
    select_element_attribute, select_first_text, select_link_href, select_meta_content,
    select_meta_itemprop, select_meta_property, snapshot_to_captured_page,
    snapshot_to_selected_page, BrowserPageSnapshot, CaptureScope, ExtractionMethod,
    ReadableContent,
};

const PAGE: &str = r#"<!doctype html><html lang="en"><head><title> A   Title </title>
<meta name="description" content=" Page description ">
<meta name="author" content="Ada">
<meta property="og:site_name" content="Site">
<meta itemprop="datePublished" content="2026-01-02">
<link rel="canonical" href="/canonical#frag">
</head><body><p>Hello</p></body></html>"#;

fn snapshot() -> BrowserPageSnapshot {
    BrowserPageSnapshot {
        html: None,
        url: Some("https://example.com/a?utm_source=x&q=1".to_string()),
        title: Some("Page".to_string()),
        description: Some("About".to_string()),
        body_text: Some("body ".repeat(40)),
        canonical_url: None,
        author: None,
        published_at: None,
        site_name: None,
        language: None,
        selected_text: None,
        selection_selector: None,
        selection_context_before: None,
        selection_context_after: None,
    }
}

#[test]
fn document_metadata_is_read_through_selectors() {
    assert_eq!(select_first_text(PAGE, "title"), Some("A   Title".to_string()));
    assert_eq!(select_meta_content(PAGE, "description"), Some("Page description".to_string()));
    assert_eq!(select_meta_content(PAGE, "author"), Some("Ada".to_string()));
    assert_eq!(select_meta_property(PAGE, "og:site_name"), Some("Site".to_string()));
    assert_eq!(select_meta_itemprop(PAGE, "datePublished"), Some("2026-01-02".to_string()));
    assert_eq!(select_link_href(PAGE, "canonical"), Some("/canonical#frag".to_string()));
    assert_eq!(select_document_language(PAGE), Some("en".to_string()));
    assert_eq!(select_element_attribute(PAGE, "meta[name=\"missing\"]", "content"), None);
    assert_eq!(select_first_text(PAGE, "::not a selector"), None);
}

#[test]
fn metadata_values_are_trimmed_and_capped() {
    assert_eq!(clean_metadata_value(Some("  x  ".to_string())), Some("x".to_string()));
    assert_eq!(clean_metadata_value(Some("   ".to_string())), None);
    assert_eq!(clean_metadata_value(None), None);
    let long = clean_metadata_value(Some("y".repeat(3000))).unwrap();
    assert_eq!(long.chars().count(), 2048);
}

#[test]
fn content_hash_is_lowercase_sha256_hex() {
    assert_eq!(
        hash_extracted_content("abc"),
        "ba7816bf8f01cfea414140de5dae2223b00361a396177a9cb410ff61f20015ad"
    );
    assert_eq!(count_extracted_words("  one two\nthree "), 3);
}

#[test]
fn page_captures_use_body_text_without_a_document() {
    let page = snapshot_to_captured_page(snapshot(), "Fallback", None).expect("capture");
    assert_eq!(page.title, "Page");
    assert_eq!(page.url, "https://example.com/a?q=1");
    assert!(page.text.starts_with("Page About body body"));
    assert_eq!(page.provenance.content_selector, "body.innerText");
    assert_eq!(page.provenance.extraction_method, ExtractionMethod::LiveDom);
    assert_eq!(page.provenance.content_scope, CaptureScope::Page);
    assert_eq!(page.provenance.requested_url.as_deref(), Some("https://example.com/a?q=1"));
    assert_eq!(page.provenance.word_count, 42);
    assert_eq!(page.provenance.content_hash, hash_extracted_content(&page.text));
}

#[test]
fn the_cleaned_document_wins_over_inner_text() {
    let mut s = snapshot();
    s.html = Some(PAGE.to_string());
    s.title = Some("  ".to_string());
    s.description = None;
    let readable = ReadableContent {
        text: "Article text that is long enough to count as content.".repeat(3),
        selector: "article".to_string(),
        fallback_reason: None,
    };
    let page = snapshot_to_captured_page(s, "Fallback", Some(readable)).expect("capture");
    assert_eq!(page.title, "A   Title");
    assert_eq!(page.provenance.content_selector, "article");
    assert_eq!(page.provenance.fallback_reason, None);
    assert_eq!(page.provenance.author.as_deref(), Some("Ada"));
    assert_eq!(page.provenance.site_name.as_deref(), Some("Site"));
    assert_eq!(page.provenance.published_at.as_deref(), Some("2026-01-02"));
    assert_eq!(page.provenance.language.as_deref(), Some("en"));
    assert_eq!(
        page.provenance.canonical_url.as_deref(),
        Some("https://example.com/canonical")
    );
    assert!(page.text.starts_with("A Title Page description Article text"));
}

#[test]
fn thin_pages_and_missing_urls_are_refused() {
    let mut s = snapshot();
    s.body_text = Some("short".to_string());
    assert_eq!(
        snapshot_to_captured_page(s, "T", None).err(),
        Some("This page does not contain enough readable text to capture.".to_string())
    );
    let mut s = snapshot();
    s.url = Some("   ".to_string());
    assert_eq!(
        snapshot_to_captured_page(s, "T", None).err(),
        Some("Unable to read the active page.".to_string())
    );
}

#[test]
fn selections_need_a_real_passage() {
    let mut s = snapshot();
    assert_eq!(
        snapshot_to_selected_page(s, "T").err(),
        Some("Select a passage on the page before capturing the selection.".to_string())
    );
    s = snapshot();
    s.selected_text = Some("  too short  ".to_string());
    assert_eq!(
        snapshot_to_selected_page(s, "T").err(),
        Some("Select a passage of at least 20 characters.".to_string())
    );
    s = snapshot();
    s.selected_text = Some(" A passage long enough to keep. ".to_string());
    s.selection_context_before = Some(" before ".to_string());
    let page = snapshot_to_selected_page(s, "T").expect("selection");
    assert_eq!(page.text, "Page Selected passage A passage long enough to keep.");
    assert_eq!(page.provenance.content_scope, CaptureScope::Selection);
    assert_eq!(page.provenance.content_selector, "user-selection");
    assert_eq!(page.provenance.word_count, 6);
    assert_eq!(page.provenance.selection_context_before.as_deref(), Some("before"));
    assert_eq!(page.provenance.selection_context_after, None);
}
