use aether::dom::{collect_content_text, DomToken};

fn open(name: &str) -> DomToken {
    DomToken::Open(name.to_string())
}

fn text(t: &str) -> DomToken {
    DomToken::Text(t.to_string())
}

#[test]
fn body_text_skips_non_content_subtrees() {
    let tokens = vec![
        open("header"),
        text("Site name"),
        DomToken::Close,
        open("p"),
        text("  First paragraph.  "),
        open("script"),
        open("span"),
        text("var x = 1;"),
        DomToken::Close,
        DomToken::Close,
        text("\n  "),
        DomToken::Close,
        open("div"),
        text("Second"),
        open("b"),
        text("bold"),
        DomToken::Close,
        DomToken::Close,
        open("nav"),
        text("Menu"),
        DomToken::Close,
        text("Tail"),
    ];
    assert_eq!(collect_content_text(&tokens), "First paragraph. Second bold Tail");
}

#[test]
fn empty_documents_have_no_text() {
    assert_eq!(collect_content_text(&[]), "");
    assert_eq!(collect_content_text(&[open("style"), text("body {}"), DomToken::Close]), "");
}
