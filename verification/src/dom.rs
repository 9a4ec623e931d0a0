//! The text content of a document, read from its element tree written out
//! in document order: an element opens, its children follow, and it closes.
//! Text inside scripts, styles, navigation, forms and the like is never page
//! content, so those subtrees are left out whole.

use vstd::prelude::*;
use crate::text::{trim_ws, trim_str, to_chars, join_chars, join_with, views, str_eq, from_chars};

verus! {

/// One step of a document's element tree in document order.
pub enum DomToken {
    /// An element starts; its tag name.
    Open(String),
    /// The element opened last ends.
    Close,
    /// A text node.
    Text(String),
}

/// Tags whose whole subtree is left out of the text.
pub open spec fn is_non_content(name: Seq<char>) -> bool {
    ||| name == "script"@
    ||| name == "style"@
    ||| name == "noscript"@
    ||| name == "iframe"@
    ||| name == "form"@
    ||| name == "nav"@
    ||| name == "footer"@
    ||| name == "header"@
    ||| name == "aside"@
    ||| name == "svg"@
}

/// After the tokens so far: how many left-out elements are open around the
/// next token (0 outside them), and the trimmed, non-blank texts kept.
pub open spec fn text_walk(tokens: Seq<DomToken>) -> (nat, Seq<Seq<char>>)
    decreases tokens.len(),
{
    if tokens.len() == 0 {
        (0, Seq::empty())
    } else {
        let (depth, kept) = text_walk(tokens.drop_last());
        match tokens.last() {
            DomToken::Open(name) => if depth > 0 || is_non_content(name@) {
                (depth + 1, kept)
            } else {
                (0, kept)
            },
            DomToken::Close => if depth > 0 {
                ((depth - 1) as nat, kept)
            } else {
                (0, kept)
            },
            DomToken::Text(t) => if depth == 0 && trim_ws(t@).len() > 0 {
                (depth, kept.push(trim_ws(t@)))
            } else {
                (depth, kept)
            },
        }
    }
}

/// The kept texts joined by single spaces.
pub open spec fn content_text(tokens: Seq<DomToken>) -> Seq<char> {
    join_with(text_walk(tokens).1, " "@)
}

fn non_content_tag(name: &str) -> (r: bool)
    ensures
        r == is_non_content(name@),
{
    str_eq(name, "script") || str_eq(name, "style") || str_eq(name, "noscript") || str_eq(
        name,
        "iframe",
    ) || str_eq(name, "form") || str_eq(name, "nav") || str_eq(name, "footer") || str_eq(
        name,
        "header",
    ) || str_eq(name, "aside") || str_eq(name, "svg")
}

/// The text of the children of one or more elements, written out one after
/// another: every text node outside a left-out subtree, trimmed, blank ones
/// dropped, joined by single spaces.
pub fn collect_content_text(tokens: &[DomToken]) -> (r: String)
    ensures
        r@ == content_text(tokens@),
{
    let n = tokens.len();
    let mut depth: usize = 0;
    let mut kept: Vec<Vec<char>> = Vec::new();
    let mut i: usize = 0;
    while i < n
        invariant
            n == tokens@.len(),
            i <= n,
            depth <= i,
            text_walk(tokens@.take(i as int)) == (depth as nat, views(kept@)),
        decreases n - i,
    {
        proof {
            assert(tokens@.take(i + 1).drop_last() =~= tokens@.take(i as int));
            assert(tokens@.take(i + 1).last() == tokens@[i as int]);
        }
        match &tokens[i] {
            DomToken::Open(name) => {
                if depth > 0 || non_content_tag(name.as_str()) {
                    depth += 1;
                }
            },
            DomToken::Close => {
                if depth > 0 {
                    depth -= 1;
                }
            },
            DomToken::Text(t) => {
                if depth == 0 {
                    let trimmed = to_chars(trim_str(t.as_str()).as_str());
                    if trimmed.len() > 0 {
                        let ghost before = kept@;
                        kept.push(trimmed);
                        assert(views(kept@) =~= views(before).push(trim_ws(t@)));
                    }
                }
            },
        }
        i += 1;
    }
    assert(tokens@.take(n as int) =~= tokens@);
    let sep = to_chars(" ");
    let joined = join_chars(&kept, sep.as_slice());
    from_chars(joined.as_slice())
}

} // verus!
