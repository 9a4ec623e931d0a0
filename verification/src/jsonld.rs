//! Article metadata from a page's JSON-LD: the first schema.org article found
//! in the page's `application/ld+json` documents gives a canonical address,
//! author, publication date, site name and language.

use vstd::prelude::*;
use crate::text::{to_chars, str_eq, from_chars, join_with, join_chars, views};
use crate::extract::{clean_meta, clean_metadata_value, or_else};
use crate::tabs::copy_string;

verus! {

/// A JSON value as far as JSON-LD metadata reads it: numbers, booleans and
/// null carry nothing that is read.
pub enum JsonLd {
    Text(String),
    List(Vec<JsonLd>),
    Object(Vec<JsonLdField>),
    Other,
}

/// One member of a JSON object.
pub struct JsonLdField {
    pub key: String,
    pub value: JsonLd,
}

/// The index of the first member named `key` among `fields[k..]`.
pub open spec fn member_from(fields: Seq<JsonLdField>, key: Seq<char>, k: int) -> Option<int>
    decreases fields.len() - k,
{
    if k < 0 || k >= fields.len() {
        None
    } else if fields[k].key@ == key {
        Some(k)
    } else {
        member_from(fields, key, k + 1)
    }
}

pub open spec fn member_at(fields: Seq<JsonLdField>, key: Seq<char>) -> Option<int> {
    member_from(fields, key, 0)
}

/// The value of the first member named `key`.
pub open spec fn member(fields: Seq<JsonLdField>, key: Seq<char>) -> Option<JsonLd> {
    match member_at(fields, key) {
        Some(i) => Some(fields[i].value),
        None => None,
    }
}

/// The part of a type name after its last `/` or `#`.
pub open spec fn type_tail(s: Seq<char>) -> Seq<char>
    decreases s.len(),
{
    if s.len() == 0 {
        s
    } else if s.last() == '/' || s.last() == '#' {
        Seq::empty()
    } else {
        type_tail(s.drop_last()).push(s.last())
    }
}

/// The schema.org types read as articles.
pub open spec fn article_type_name(s: Seq<char>) -> bool {
    let t = type_tail(s);
    t == "Article"@ || t == "NewsArticle"@ || t == "BlogPosting"@ || t == "TechArticle"@ || t
        == "Report"@
}

/// A `@type` that names an article, alone or among others.
pub open spec fn is_article_type(v: JsonLd) -> bool
    decreases v, 0int,
{
    match v {
        JsonLd::Text(s) => article_type_name(s@),
        JsonLd::List(items) => any_article_type(items@, 0),
        _ => false,
    }
}

/// Some of `items[k..]` names an article.
pub open spec fn any_article_type(items: Seq<JsonLd>, k: int) -> bool
    decreases items, items.len() - k,
{
    if k < 0 || k >= items.len() {
        false
    } else {
        is_article_type(items[k]) || any_article_type(items, k + 1)
    }
}

/// The first article object in `v`, searched depth first: an object whose
/// `@type` names an article, else the first found among its members' values
/// in order; in a list, the first found among its items.
pub open spec fn find_article(v: JsonLd) -> Option<Seq<JsonLdField>>
    decreases v, 0int,
{
    match v {
        JsonLd::List(items) => find_in_items(items@, 0),
        JsonLd::Object(fields) => match member(fields@, "@type"@) {
            Some(t) if is_article_type(t) => Some(fields@),
            _ => find_in_members(fields@, 0),
        },
        _ => None,
    }
}

/// The first article found among `items[k..]`.
pub open spec fn find_in_items(items: Seq<JsonLd>, k: int) -> Option<Seq<JsonLdField>>
    decreases items, items.len() - k,
{
    if k < 0 || k >= items.len() {
        None
    } else {
        match find_article(items[k]) {
            Some(f) => Some(f),
            None => find_in_items(items, k + 1),
        }
    }
}

/// The first article found among the values of `fields[k..]`.
pub open spec fn find_in_members(fields: Seq<JsonLdField>, k: int) -> Option<Seq<JsonLdField>>
    decreases fields, fields.len() - k,
{
    if k < 0 || k >= fields.len() {
        None
    } else {
        match find_article(fields[k].value) {
            Some(f) => Some(f),
            None => find_in_members(fields, k + 1),
        }
    }
}

/// A name: a string itself, an object's `name`, or the names in a list
/// joined by `, ` (none when no item has one); each name trimmed and cut as
/// page metadata is.
pub open spec fn json_ld_name_of(v: JsonLd) -> Option<Seq<char>>
    decreases v, 0int,
{
    match v {
        JsonLd::Text(s) => clean_meta(Some(s@)),
        JsonLd::Object(fields) => match member_at(fields@, "name"@) {
            Some(i) => if 0 <= i < fields@.len() {
                json_ld_name_of(fields@[i].value)
            } else {
                None
            },
            None => None,
        },
        JsonLd::List(items) => {
            let names = names_in(items@, items@.len() as int);
            if names.len() == 0 {
                None
            } else {
                Some(join_with(names, ", "@))
            }
        },
        JsonLd::Other => None,
    }
}

/// The names of the first `k` items that have one, in order.
pub open spec fn names_in(items: Seq<JsonLd>, k: int) -> Seq<Seq<char>>
    decreases items, k,
{
    if k <= 0 || k > items.len() {
        Seq::empty()
    } else {
        let prev = names_in(items, k - 1);
        match json_ld_name_of(items[k - 1]) {
            Some(n) => prev.push(n),
            None => prev,
        }
    }
}

/// An address: a string itself, or an object's `@id`, else its `url`.
pub open spec fn json_ld_url_of(v: JsonLd) -> Option<Seq<char>>
    decreases v,
{
    match v {
        JsonLd::Text(s) => clean_meta(Some(s@)),
        JsonLd::Object(fields) => {
            let at = match member_at(fields@, "@id"@) {
                Some(i) => Some(i),
                None => member_at(fields@, "url"@),
            };
            match at {
                Some(i) => if 0 <= i < fields@.len() {
                    json_ld_url_of(fields@[i].value)
                } else {
                    None
                },
                None => None,
            }
        },
        _ => None,
    }
}

fn member_index(fields: &Vec<JsonLdField>, key: &str) -> (r: Option<usize>)
    ensures
        match r {
            Some(k) => member_at(fields@, key@) == Some(k as int) && k < fields@.len() && fields@[k as int].key@
                == key@,
            None => member_at(fields@, key@) is None,
        },
{
    let n = fields.len();
    let mut k: usize = 0;
    while k < n
        invariant
            n == fields@.len(),
            k <= n,
            member_from(fields@, key@, 0) == member_from(fields@, key@, k as int),
        decreases n - k,
    {
        if str_eq(fields[k].key.as_str(), key) {
            return Some(k);
        }
        k += 1;
    }
    None
}

/// The part of `s` after its last `/` or `#`.
fn type_tail_chars(s: &str) -> (r: Vec<char>)
    ensures
        r@ == type_tail(s@),
{
    let c = to_chars(s);
    let n = c.len();
    let mut i: usize = n;
    assert(c@.take(n as int) =~= c@);
    assert(c@.subrange(n as int, n as int) =~= Seq::<char>::empty());
    while i > 0 && c[i - 1] != '/' && c[i - 1] != '#'
        invariant
            n == c@.len(),
            c@ == s@,
            i <= n,
            type_tail(s@) == type_tail(c@.take(i as int)) + c@.subrange(i as int, n as int),
        decreases i,
    {
        let ghost t = c@.take(i as int);
        assert(t.drop_last() =~= c@.take(i - 1));
        assert(c@.subrange(i - 1, n as int) =~= seq![c@[i - 1]] + c@.subrange(i as int, n as int));
        assert(type_tail(t) == type_tail(c@.take(i - 1)).push(c@[i - 1]));
        i -= 1;
    }
    proof {
        if i == 0 {
            assert(c@.take(0) =~= Seq::<char>::empty());
        }
    }
    crate::text::subvec(c.as_slice(), i, n)
}

fn is_article_type_name(s: &str) -> (r: bool)
    ensures
        r == article_type_name(s@),
{
    let t = from_chars(type_tail_chars(s).as_slice());
    str_eq(t.as_str(), "Article") || str_eq(t.as_str(), "NewsArticle") || str_eq(t.as_str(), "BlogPosting")
        || str_eq(t.as_str(), "TechArticle") || str_eq(t.as_str(), "Report")
}

/// Whether a `@type` value names an article (see [`is_article_type`]).
pub fn json_ld_is_article_type(value: &JsonLd) -> (r: bool)
    ensures
        r == is_article_type(*value),
    decreases value,
{
    match value {
        JsonLd::Text(s) => is_article_type_name(s.as_str()),
        JsonLd::List(items) => {
            let n = items.len();
            let mut i: usize = 0;
            while i < n
                invariant
                    *value == JsonLd::List(*items),
                    n == items@.len(),
                    i <= n,
                    any_article_type(items@, 0) == any_article_type(items@, i as int),
                decreases n - i,
            {
                proof {
                    let ghost whole = *value;
                    assert(decreases_to!(whole => whole->List_0));
                    assert(whole->List_0 == *items);
                    assert(decreases_to!(*items => items@));
                    assert(decreases_to!(items@ => items@[i as int]));
                    assert(decreases_to!(*value => items@[i as int]));
                }
                let found = json_ld_is_article_type(&items[i]);
                assert(found == is_article_type(items@[i as int]));
                if found {
                    return true;
                }
                i += 1;
            }
            false
        },
        _ => false,
    }
}

pub open spec fn fields_view(r: Option<&Vec<JsonLdField>>) -> Option<Seq<JsonLdField>> {
    match r {
        Some(f) => Some(f@),
        None => None,
    }
}

/// The first article object in `value` (see [`find_article`]).
pub fn find_article_schema(value: &JsonLd) -> (r: Option<&Vec<JsonLdField>>)
    ensures
        fields_view(r) == find_article(*value),
    decreases value,
{
    match value {
        JsonLd::List(items) => {
            let n = items.len();
            let mut i: usize = 0;
            while i < n
                invariant
                    *value == JsonLd::List(*items),
                    n == items@.len(),
                    i <= n,
                    find_in_items(items@, 0) == find_in_items(items@, i as int),
                decreases n - i,
            {
                proof {
                    let ghost whole = *value;
                    assert(decreases_to!(whole => whole->List_0));
                    assert(whole->List_0 == *items);
                    assert(decreases_to!(*items => items@));
                    assert(decreases_to!(items@ => items@[i as int]));
                }
                let found = find_article_schema(&items[i]);
                if found.is_some() {
                    return found;
                }
                i += 1;
            }
            None
        },
        JsonLd::Object(fields) => {
            match member_index(fields, "@type") {
                Some(t) => {
                    if json_ld_is_article_type(&fields[t].value) {
                        assert(member(fields@, "@type"@) == Some(fields@[t as int].value));
                        return Some(fields);
                    }
                },
                None => {},
            }
            let n = fields.len();
            let mut k: usize = 0;
            while k < n
                invariant
                    *value == JsonLd::Object(*fields),
                    n == fields@.len(),
                    k <= n,
                    find_article(*value) == find_in_members(fields@, k as int),
                decreases n - k,
            {
                proof {
                    let ghost whole = *value;
                    assert(decreases_to!(whole => whole->Object_0));
                    assert(whole->Object_0 == *fields);
                    assert(decreases_to!(*fields => fields@));
                    assert(decreases_to!(fields@ => fields@[k as int]));
                    assert(decreases_to!(fields@[k as int] => fields@[k as int].value));
                }
                let found = find_article_schema(&fields[k].value);
                if found.is_some() {
                    return found;
                }
                k += 1;
            }
            None
        },
        _ => None,
    }
}

/// A name in JSON-LD (see [`json_ld_name_of`]).
pub fn json_ld_name(value: &JsonLd) -> (r: Option<String>)
    ensures
        r.deep_view() == json_ld_name_of(*value),
    decreases value,
{
    match value {
        JsonLd::Text(s) => clean_metadata_value(Some(copy_string(s))),
        JsonLd::Object(fields) => match member_index(fields, "name") {
            Some(i) => {
                proof {
                    let ghost whole = *value;
                    assert(decreases_to!(whole => whole->Object_0));
                    assert(whole->Object_0 == *fields);
                    assert(decreases_to!(*fields => fields@));
                    assert(decreases_to!(fields@ => fields@[i as int]));
                    assert(decreases_to!(fields@[i as int] => fields@[i as int].value));
                }
                json_ld_name(&fields[i].value)
            },
            None => None,
        },
        JsonLd::List(items) => {
            let n = items.len();
            let mut names: Vec<Vec<char>> = Vec::new();
            let mut i: usize = 0;
            while i < n
                invariant
                    *value == JsonLd::List(*items),
                    n == items@.len(),
                    i <= n,
                    views(names@) == names_in(items@, i as int),
                decreases n - i,
            {
                proof {
                    let ghost whole = *value;
                    assert(decreases_to!(whole => whole->List_0));
                    assert(whole->List_0 == *items);
                    assert(decreases_to!(*items => items@));
                    assert(decreases_to!(items@ => items@[i as int]));
                }
                match json_ld_name(&items[i]) {
                    Some(name) => {
                        let ghost before = views(names@);
                        names.push(to_chars(name.as_str()));
                        assert(views(names@) =~= before.push(name@));
                    },
                    None => {},
                }
                i += 1;
            }
            if names.len() == 0 {
                None
            } else {
                proof {
                    reveal_strlit(", ");
                }
                let sep = to_chars(", ");
                Some(from_chars(join_chars(&names, sep.as_slice()).as_slice()))
            }
        },
        JsonLd::Other => None,
    }
}

/// An address in JSON-LD (see [`json_ld_url_of`]).
pub fn json_ld_url(value: &JsonLd) -> (r: Option<String>)
    ensures
        r.deep_view() == json_ld_url_of(*value),
    decreases value,
{
    match value {
        JsonLd::Text(s) => clean_metadata_value(Some(copy_string(s))),
        JsonLd::Object(fields) => {
            let at = match member_index(fields, "@id") {
                Some(i) => Some(i),
                None => member_index(fields, "url"),
            };
            match at {
                Some(i) => {
                    proof {
                        let ghost whole = *value;
                        assert(decreases_to!(whole => whole->Object_0));
                        assert(whole->Object_0 == *fields);
                        assert(decreases_to!(*fields => fields@));
                        assert(decreases_to!(fields@ => fields@[i as int]));
                        assert(decreases_to!(fields@[i as int] => fields@[i as int].value));
                    }
                    json_ld_url(&fields[i].value)
                },
                None => None,
            }
        },
        _ => None,
    }
}

/// What a page's JSON-LD says of it.
pub struct StructuredPageMetadata {
    pub canonical_url: Option<String>,
    pub author: Option<String>,
    pub published_at: Option<String>,
    pub site_name: Option<String>,
    pub language: Option<String>,
}

/// Canonical address, author, publication date, site name, language.
pub type MetadataView = (
    Option<Seq<char>>,
    Option<Seq<char>>,
    Option<Seq<char>>,
    Option<Seq<char>>,
    Option<Seq<char>>,
);

pub open spec fn metadata_view(m: StructuredPageMetadata) -> MetadataView {
    (
        m.canonical_url.deep_view(),
        m.author.deep_view(),
        m.published_at.deep_view(),
        m.site_name.deep_view(),
        m.language.deep_view(),
    )
}

/// A string member's text, trimmed and cut as page metadata is.
pub open spec fn text_of(v: Option<JsonLd>) -> Option<Seq<char>> {
    match v {
        Some(JsonLd::Text(s)) => clean_meta(Some(s@)),
        _ => None,
    }
}

pub open spec fn named(fields: Seq<JsonLdField>, key: Seq<char>) -> Option<Seq<char>> {
    match member(fields, key) {
        Some(v) => json_ld_name_of(v),
        None => None,
    }
}

pub open spec fn addressed(fields: Seq<JsonLdField>, key: Seq<char>) -> Option<Seq<char>> {
    match member(fields, key) {
        Some(v) => json_ld_url_of(v),
        None => None,
    }
}

/// What an article object says: its address from `mainEntityOfPage`, else
/// `url`; its `author`'s name; `datePublished` (or, where absent,
/// `dateCreated`) when it is a string; its `publisher`'s name, else the name
/// of what it `isPartOf`; and `inLanguage` when it is a string.
pub open spec fn article_metadata_of(f: Seq<JsonLdField>) -> MetadataView {
    (
        or_else(addressed(f, "mainEntityOfPage"@), addressed(f, "url"@)),
        named(f, "author"@),
        text_of(
            match member(f, "datePublished"@) {
                Some(v) => Some(v),
                None => member(f, "dateCreated"@),
            },
        ),
        or_else(named(f, "publisher"@), named(f, "isPartOf"@)),
        text_of(member(f, "inLanguage"@)),
    )
}

/// The metadata of the first of a page's JSON-LD documents that holds an
/// article; none where no document does.
pub open spec fn page_metadata_of(documents: Seq<JsonLd>) -> MetadataView {
    match find_in_items(documents, 0) {
        Some(f) => article_metadata_of(f),
        None => (None, None, None, None, None),
    }
}

fn member_value<'a>(fields: &'a Vec<JsonLdField>, key: &str) -> (r: Option<&'a JsonLd>)
    ensures
        match r {
            Some(v) => member(fields@, key@) == Some(*v),
            None => member(fields@, key@) is None,
        },
{
    match member_index(fields, key) {
        Some(i) => Some(&fields[i].value),
        None => None,
    }
}

fn named_member(fields: &Vec<JsonLdField>, key: &str) -> (r: Option<String>)
    ensures
        r.deep_view() == named(fields@, key@),
{
    match member_value(fields, key) {
        Some(v) => json_ld_name(v),
        None => None,
    }
}

fn addressed_member(fields: &Vec<JsonLdField>, key: &str) -> (r: Option<String>)
    ensures
        r.deep_view() == addressed(fields@, key@),
{
    match member_value(fields, key) {
        Some(v) => json_ld_url(v),
        None => None,
    }
}

fn text_value(v: Option<&JsonLd>) -> (r: Option<String>)
    ensures
        r.deep_view() == text_of(
            match v {
                Some(x) => Some(*x),
                None => None,
            },
        ),
{
    match v {
        Some(JsonLd::Text(s)) => clean_metadata_value(Some(copy_string(s))),
        _ => None,
    }
}

fn first_of(a: Option<String>, b: Option<String>) -> (r: Option<String>)
    ensures
        r.deep_view() == or_else(a.deep_view(), b.deep_view()),
{
    match a {
        Some(x) => Some(x),
        None => b,
    }
}

/// What an article object says of its page (see [`article_metadata_of`]).
pub fn article_metadata(fields: &Vec<JsonLdField>) -> (r: StructuredPageMetadata)
    ensures
        metadata_view(r) == article_metadata_of(fields@),
{
    let date = match member_value(fields, "datePublished") {
        Some(v) => Some(v),
        None => member_value(fields, "dateCreated"),
    };
    StructuredPageMetadata {
        canonical_url: first_of(
            addressed_member(fields, "mainEntityOfPage"),
            addressed_member(fields, "url"),
        ),
        author: named_member(fields, "author"),
        published_at: text_value(date),
        site_name: first_of(named_member(fields, "publisher"), named_member(fields, "isPartOf")),
        language: text_value(member_value(fields, "inLanguage")),
    }
}

/// The metadata of the first of a page's parsed JSON-LD documents that holds
/// an article (see [`page_metadata_of`]).
pub fn select_json_ld_metadata(documents: &Vec<JsonLd>) -> (r: StructuredPageMetadata)
    ensures
        metadata_view(r) == page_metadata_of(documents@),
{
    let n = documents.len();
    let mut i: usize = 0;
    while i < n
        invariant
            n == documents@.len(),
            i <= n,
            find_in_items(documents@, 0) == find_in_items(documents@, i as int),
        decreases n - i,
    {
        match find_article_schema(&documents[i]) {
            Some(fields) => {
                return article_metadata(fields);
            },
            None => {},
        }
        i += 1;
    }
    StructuredPageMetadata { canonical_url: None, author: None, published_at: None, site_name: None, language: None }
}

} // verus!
