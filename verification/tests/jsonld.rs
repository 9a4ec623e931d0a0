use aether::extract::{json_ld_script_texts, check_fetch_url, fetched_page_to_captured_page, ExtractionMethod, ReadableContent};
use aether::jsonld::{
    find_article_schema, json_ld_is_article_type, json_ld_name, json_ld_url, select_json_ld_metadata,
    JsonLd, JsonLdField, StructuredPageMetadata,
};

fn text(value: &str) -> JsonLd {
    JsonLd::Text(value.to_string())
}

fn object(fields: Vec<(&str, JsonLd)>) -> JsonLd {
    JsonLd::Object(
        fields
            .into_iter()
            .map(|(key, value)| JsonLdField { key: key.to_string(), value })
            .collect(),
    )
}

#[test]
fn article_types_are_read_from_the_last_path_segment() {
    assert!(json_ld_is_article_type(&text("NewsArticle")));
    assert!(json_ld_is_article_type(&text("https://schema.org/BlogPosting")));
    assert!(json_ld_is_article_type(&text("schema#Report")));
    assert!(!json_ld_is_article_type(&text("Person")));
    assert!(!json_ld_is_article_type(&text("ArticleX")));
    assert!(json_ld_is_article_type(&JsonLd::List(vec![text("Thing"), text("TechArticle")])));
    assert!(!json_ld_is_article_type(&JsonLd::Other));
}

#[test]
fn the_first_article_is_found_depth_first() {
    let graph = object(vec![(
        "@graph",
        JsonLd::List(vec![
            object(vec![("@type", text("WebSite")), ("name", text("Site"))]),
            object(vec![("@type", text("Article")), ("headline", text("First"))]),
            object(vec![("@type", text("Article")), ("headline", text("Second"))]),
        ]),
    )]);
    let found = find_article_schema(&graph).expect("an article");
    assert_eq!(found.len(), 2);
    assert_eq!(found[1].key, "headline");
    assert!(matches!(&found[1].value, JsonLd::Text(headline) if headline == "First"));
    assert!(find_article_schema(&object(vec![("@type", text("Person"))])).is_none());
}

#[test]
fn names_and_addresses_follow_json_ld_shapes() {
    assert_eq!(json_ld_name(&object(vec![("name", text("  Ada  "))])), Some("Ada".to_string()));
    assert_eq!(
        json_ld_name(&JsonLd::List(vec![text("Ada"), object(vec![("name", text("Grace"))]), JsonLd::Other])),
        Some("Ada, Grace".to_string())
    );
    assert_eq!(json_ld_name(&JsonLd::List(vec![JsonLd::Other, text("   ")])), None);
    assert_eq!(
        json_ld_url(&object(vec![("url", text("https://x.test/b")), ("@id", text("https://x.test/a"))])),
        Some("https://x.test/a".to_string())
    );
    assert_eq!(json_ld_url(&object(vec![("url", text("https://x.test/b"))])), Some("https://x.test/b".to_string()));
    assert_eq!(json_ld_url(&JsonLd::List(vec![text("https://x.test/c")])), None);
}

#[test]
fn page_metadata_comes_from_the_first_article() {
    let documents = vec![
        object(vec![("@type", text("Person")), ("name", text("Nobody"))]),
        object(vec![
            ("@type", text("NewsArticle")),
            ("mainEntityOfPage", object(vec![("@id", text("https://example.com/story"))])),
            ("author", JsonLd::List(vec![object(vec![("name", text("Ada"))]), object(vec![("name", text("Grace"))])])),
            ("datePublished", text("2024-01-02")),
            ("isPartOf", object(vec![("name", text("Example Weekly"))])),
            ("inLanguage", text("en")),
        ]),
    ];
    let meta = select_json_ld_metadata(&documents);
    assert_eq!(meta.canonical_url.as_deref(), Some("https://example.com/story"));
    assert_eq!(meta.author.as_deref(), Some("Ada, Grace"));
    assert_eq!(meta.published_at.as_deref(), Some("2024-01-02"));
    assert_eq!(meta.site_name.as_deref(), Some("Example Weekly"));
    assert_eq!(meta.language.as_deref(), Some("en"));
}

#[test]
fn a_present_but_unusable_publication_date_is_not_replaced() {
    let documents = vec![object(vec![
        ("@type", text("Article")),
        ("datePublished", JsonLd::Other),
        ("dateCreated", text("2020-05-05")),
    ])];
    let meta = select_json_ld_metadata(&documents);
    assert_eq!(meta.published_at, None);
    assert_eq!(meta.canonical_url, None);
    let none = select_json_ld_metadata(&vec![]);
    assert!(none.author.is_none() && none.site_name.is_none() && none.language.is_none());
}

#[test]
fn only_web_addresses_are_fetched() {
    assert!(check_fetch_url("https://example.com/a").is_ok());
    assert_eq!(
        check_fetch_url("ftp://example.com/a"),
        Err("Only http and https pages can be captured in the Tauri build.".to_string())
    );
    assert_eq!(check_fetch_url("not a url"), Err("Unable to read the active page URL.".to_string()));
}

fn structured(author: Option<&str>) -> StructuredPageMetadata {
    StructuredPageMetadata {
        canonical_url: None,
        author: author.map(str::to_string),
        published_at: None,
        site_name: Some("From JSON-LD".to_string()),
        language: None,
    }
}

#[test]
fn fetched_pages_prefer_document_tags_over_json_ld() {
    let html = "<html lang=\"en\"><head><title>Story</title>\
        <meta name=\"description\" content=\"About things\">\
        <meta property=\"og:site_name\" content=\"Example\">\
        <link rel=\"canonical\" href=\"/story#top\"></head><body></body></html>";
    let body = "A long body of readable text that easily clears the minimum length a capture needs \
        to be kept in the library for later questions.";
    let readable = ReadableContent {
        text: body.to_string(),
        selector: "article".to_string(),
        fallback_reason: None,
    };
    let page = fetched_page_to_captured_page(
        "https://example.com/story?utm_source=feed",
        "https://example.com/story",
        html,
        readable,
        structured(Some("Ada")),
    )
    .expect("capturable page");
    assert_eq!(page.title, "Story");
    assert_eq!(page.url, "https://example.com/story");
    assert!(page.text.starts_with("Story About things A long body"));
    assert_eq!(page.provenance.requested_url.as_deref(), Some("https://example.com/story"));
    assert_eq!(page.provenance.canonical_url.as_deref(), Some("https://example.com/story"));
    assert_eq!(page.provenance.author.as_deref(), Some("Ada"));
    assert_eq!(page.provenance.site_name.as_deref(), Some("Example"));
    assert_eq!(page.provenance.language.as_deref(), Some("en"));
    assert_eq!(page.provenance.extraction_method, ExtractionMethod::HttpFetch);
    assert_eq!(page.provenance.content_selector, "article");
}

#[test]
fn fetched_pages_without_enough_text_are_refused() {
    let readable = ReadableContent { text: "Too short.".to_string(), selector: "body".to_string(), fallback_reason: None };
    let result = fetched_page_to_captured_page(
        "https://example.com/",
        "https://example.com/",
        "<html><head></head><body></body></html>",
        readable,
        structured(None),
    );
    assert_eq!(
        result.err(),
        Some("This page does not contain enough readable text to capture.".to_string())
    );
}

#[test]
fn json_ld_scripts_are_read_in_document_order() {
    let html = "<html><head><script type=\"application/ld+json\">{\"@type\":\"Article\"}</script>\
        <script>var x = 1;</script></head><body>\
        <script type=\"application/ld+json\">[1, 2]</script></body></html>";
    assert_eq!(
        json_ld_script_texts(html),
        vec!["{\"@type\":\"Article\"}".to_string(), "[1, 2]".to_string()]
    );
    assert!(json_ld_script_texts("<p>none</p>").is_empty());
}
