//! Tracker blocking: which hosts the rule file blocks, how a request's host is
//! matched against them, when a request counts as third-party, and what each
//! platform's engine actually does.

use vstd::prelude::*;
use crate::text::{
    split_on, starts_with, replace_seq, contains_seq, trim_end_in, views, to_chars, from_chars,
    push_all, push_str_chars, split_chars, chars_eq, str_eq, match_at, subvec, replace_chars,
    contains_chars, trim_end_set,
};
use crate::urls::{url_parse, host_of};
use crate::text::lower_ascii;
use crate::search::Platform;
use vstd::utf8::encode_utf8;
use vstd::string::StringSliceAdditionalSpecFns;

verus! {

// ---------------------------------------------------------------------------
// Sites
// ---------------------------------------------------------------------------

/// The last two labels of a host, last first: a registrable-domain guess
/// without a public suffix list (it over-reports third-partyness on
/// `co.uk`-style suffixes, the safe direction).
pub open spec fn registrable(host: Seq<char>) -> Seq<char> {
    let p = split_on(host, '.');
    if p.len() >= 2 {
        p.last() + "."@ + p[p.len() - 2]
    } else {
        p.last()
    }
}

fn registrable_chars(host: &str) -> (r: Vec<char>)
    ensures
        r@ == registrable(host@),
{
    let v = to_chars(host);
    let parts = split_chars(v.as_slice(), '.');
    proof {
        crate::text::lemma_split_on_nonempty(host@, '.');
    }
    let n = parts.len();
    assert(views(parts@)[n - 1] == parts@[n - 1]@);
    let mut out: Vec<char> = Vec::new();
    push_all(&mut out, parts[n - 1].as_slice());
    if n >= 2 {
        assert(views(parts@)[n - 2] == parts@[n - 2]@);
        push_str_chars(&mut out, ".");
        push_all(&mut out, parts[n - 2].as_slice());
    }
    assert(out@ =~= registrable(host@));
    out
}

pub open spec fn same_site_hosts(a: Seq<char>, b: Seq<char>) -> bool {
    a.len() > 0 && b.len() > 0 && registrable(a) == registrable(b)
}

proof fn lemma_dotted_parts(x: Seq<char>, y: Seq<char>, u: Seq<char>, v: Seq<char>)
    requires
        !x.contains('.'),
        !u.contains('.'),
        x + seq!['.'] + y == u + seq!['.'] + v,
    ensures
        x == u,
        y == v,
{
    let l = x + seq!['.'] + y;
    let r = u + seq!['.'] + v;
    if x.len() < u.len() {
        assert(l[x.len() as int] == '.');
        assert(r[x.len() as int] == u[x.len() as int]);
        assert(u.contains(u[x.len() as int]));
    } else if u.len() < x.len() {
        assert(r[u.len() as int] == '.');
        assert(l[u.len() as int] == x[u.len() as int]);
        assert(x.contains(x[u.len() as int]));
    }
    assert(x =~= l.subrange(0, x.len() as int));
    assert(u =~= r.subrange(0, u.len() as int));
    assert(y =~= l.subrange(x.len() as int + 1, l.len() as int));
    assert(v =~= r.subrange(u.len() as int + 1, r.len() as int));
}

/// Two hosts are the same site exactly when both are named and they agree
/// on their last two dot-separated labels (or, for single-label hosts, on
/// that label): `x.com` and `y.com` are different sites, `a.x.com` and
/// `b.x.com` the same.
pub proof fn lemma_same_site_is_last_two_labels(a: Seq<char>, b: Seq<char>)
    ensures
        ({
            let pa = split_on(a, '.');
            let pb = split_on(b, '.');
            same_site_hosts(a, b) <==> {
                &&& a.len() > 0
                &&& b.len() > 0
                &&& pa.last() == pb.last()
                &&& (pa.len() >= 2 <==> pb.len() >= 2)
                &&& pa.len() >= 2 ==> pa[pa.len() - 2] == pb[pb.len() - 2]
            }
        }),
{
    let pa = split_on(a, '.');
    let pb = split_on(b, '.');
    reveal_strlit(".");
    crate::text::lemma_split_on_nonempty(a, '.');
    crate::text::lemma_split_on_nonempty(b, '.');
    crate::text::lemma_split_on_pieces_plain(a, '.');
    crate::text::lemma_split_on_pieces_plain(b, '.');
    assert(!pa.last().contains('.'));
    assert(!pb.last().contains('.'));
    assert("."@ == seq!['.']);
    if pa.len() >= 2 && pb.len() >= 2 {
        if registrable(a) == registrable(b) {
            lemma_dotted_parts(pa.last(), pa[pa.len() - 2], pb.last(), pb[pb.len() - 2]);
        }
    } else if pa.len() >= 2 {
        let ra = pa.last() + seq!['.'] + pa[pa.len() - 2];
        assert(ra[pa.last().len() as int] == '.');
        assert(ra.contains('.'));
        assert(registrable(a) != registrable(b));
    } else if pb.len() >= 2 {
        let rb = pb.last() + seq!['.'] + pb[pb.len() - 2];
        assert(rb[pb.last().len() as int] == '.');
        assert(rb.contains('.'));
        assert(registrable(a) != registrable(b));
    }
}

pub fn same_site(a: &str, b: &str) -> (r: bool)
    ensures
        r == same_site_hosts(a@, b@),
{
    if a.is_empty() || b.is_empty() {
        return false;
    }
    let x = registrable_chars(a);
    let y = registrable_chars(b);
    chars_eq(x.as_slice(), y.as_slice())
}

// ---------------------------------------------------------------------------
// Matching
// ---------------------------------------------------------------------------

/// `host` is the blocked domain or a subdomain of it: it ends with the
/// blocked name, right after a `.` (compared as UTF-8 bytes).
pub open spec fn blocks_host(host: Seq<char>, blocked: Seq<char>) -> bool {
    let h = encode_utf8(host);
    let b = encode_utf8(blocked);
    host == blocked || (h.len() > b.len() && h.skip(h.len() - b.len()) == b && h[h.len()
        - b.len() - 1] == 46u8)
}

pub open spec fn host_blocked(host: Seq<char>, blocklist: Seq<String>) -> bool {
    exists|k: int| 0 <= k < blocklist.len() && blocks_host(host, #[trigger] blocklist[k]@)
}

fn blocks_one(host: &str, blocked: &str) -> (r: bool)
    ensures
        r == blocks_host(host@, blocked@),
{
    if str_eq(host, blocked) {
        return true;
    }
    let h = host.as_bytes();
    let b = blocked.as_bytes();
    let ghost hs = host.spec_bytes();
    let ghost bs = blocked.spec_bytes();
    let hn = h.len();
    let bn = b.len();
    if hn <= bn {
        return false;
    }
    let off = hn - bn;
    let mut k: usize = 0;
    while k < bn
        invariant
            host@ != blocked@,
            hs == host.spec_bytes(),
            bs == blocked.spec_bytes(),
            h@ == hs,
            b@ == bs,
            hn == hs.len(),
            bn == bs.len(),
            off == hn - bn,
            hn > bn,
            k <= bn,
            forall|t: int| 0 <= t < k ==> hs[off + t] == bs[t],
        decreases bn - k,
    {
        if h[off + k] != b[k] {
            assert(hs.skip(off as int)[k as int] != bs[k as int]);
            return false;
        }
        k += 1;
    }
    assert(hs.skip(off as int) =~= bs);
    h[off - 1] == 46u8
}

/// Whether `host` is on the blocklist, itself or as a subdomain.
pub fn is_blocked_host(host: &str, blocklist: &[String]) -> (r: bool)
    ensures
        r == host_blocked(host@, blocklist@),
{
    let n = blocklist.len();
    let mut k: usize = 0;
    while k < n
        invariant
            n == blocklist@.len(),
            k <= n,
            forall|j: int| 0 <= j < k ==> !blocks_host(host@, #[trigger] blocklist@[j]@),
        decreases n - k,
    {
        if blocks_one(host, blocklist[k].as_str()) {
            assert(blocks_host(host@, blocklist@[k as int]@));
            return true;
        }
        k += 1;
    }
    false
}

/// The lower-cased host of a URL, if it parses and has one.
pub open spec fn url_host(url: Seq<char>) -> Option<Seq<char>> {
    match url_parse(url) {
        Some(u) => match u.host {
            Some(h) => Some(lower_ascii(h)),
            None => None,
        },
        None => None,
    }
}

/// A request is refused when its host is blocklisted and it is not part of
/// the site the user is on (the top-level document's host, empty when that
/// cannot be read).
pub open spec fn request_blocked(
    request_host: Option<Seq<char>>,
    host_is_listed: bool,
    top_level_host: Seq<char>,
) -> bool {
    match request_host {
        Some(h) => host_is_listed && !same_site_hosts(h, top_level_host),
        None => false,
    }
}

pub fn should_block_request(request_url: &str, top_level_url: Option<&str>, blocklist: &[String]) -> (r:
    bool)
    ensures
        r == match url_host(request_url@) {
            Some(h) => host_blocked(h, blocklist@) && !same_site_hosts(
                h,
                match top_level_url {
                    Some(t) => match url_host(t@) {
                        Some(th) => th,
                        None => Seq::empty(),
                    },
                    None => Seq::empty(),
                },
            ),
            None => false,
        },
{
    let host = match host_of(request_url) {
        Some(h) => h,
        None => return false,
    };
    if !is_blocked_host(host.as_str(), blocklist) {
        return false;
    }
    let top = match top_level_url {
        Some(t) => match host_of(t) {
            Some(th) => th,
            None => String::new(),
        },
        None => String::new(),
    };
    proof {
        reveal_strlit("");
    }
    !same_site(host.as_str(), top.as_str())
}

// ---------------------------------------------------------------------------
// The rule file
// ---------------------------------------------------------------------------

/// A rule of the shared rule file, as far as host extraction reads it.
pub struct BlockRule {
    /// The rule's action is `block`.
    pub is_block: bool,
    /// Its trigger's `url-filter`, when that is a string.
    pub url_filter: Option<String>,
}

/// The filters are anchored regexes of one shape; a filter of any other shape
/// yields no host.
pub open spec fn filter_host(filter: Seq<char>) -> Option<Seq<char>> {
    let with_sub = "^https?://([^/]+\\.)?"@;
    let bare_prefix = "^https?://"@;
    let bare = if starts_with(filter, with_sub) {
        Some(filter.skip(with_sub.len() as int))
    } else if starts_with(filter, bare_prefix) {
        Some(filter.skip(bare_prefix.len() as int))
    } else {
        None
    };
    match bare {
        Some(b) => {
            let host = replace_seq(b, "\\."@, "."@);
            if host.len() > 0 && !host.contains('(') && !host.contains(')') && !host.contains('[')
                && !host.contains(']') && !host.contains('|') && !host.contains('?')
                && !host.contains('*') {
                Some(trim_end_in(host, seq!['.']))
            } else {
                None
            }
        },
        None => None,
    }
}

/// The host of each blocking rule whose filter has the known shape, in order.
pub open spec fn rule_hosts(rules: Seq<BlockRule>) -> Seq<Seq<char>>
    decreases rules.len(),
{
    if rules.len() == 0 {
        Seq::empty()
    } else {
        let r = rule_hosts(rules.drop_last());
        let rule = rules.last();
        if rule.is_block {
            match rule.url_filter {
                Some(f) => match filter_host(f@) {
                    Some(h) => r.push(h),
                    None => r,
                },
                None => r,
            }
        } else {
            r
        }
    }
}

fn char_list_contains(v: &Vec<char>, c: char) -> (r: bool)
    ensures
        r == v@.contains(c),
{
    crate::text::char_in(c, v.as_slice())
}

/// The host a single filter names, if it has the known shape.
pub fn blocked_host_of_filter(filter: &str) -> (r: Option<String>)
    ensures
        r.deep_view() == filter_host(filter@),
{
    proof {
        reveal_strlit("\\.");
        reveal_strlit(".");
    }
    let f = to_chars(filter);
    let with_sub = to_chars("^https?://([^/]+\\.)?");
    let bare_prefix = to_chars("^https?://");
    let bare = if match_at(f.as_slice(), with_sub.as_slice(), 0) {
        subvec(f.as_slice(), with_sub.len(), f.len())
    } else if match_at(f.as_slice(), bare_prefix.as_slice(), 0) {
        subvec(f.as_slice(), bare_prefix.len(), f.len())
    } else {
        return None;
    };
    assert(bare@ =~= f@.skip(with_sub@.len() as int) || bare@ =~= f@.skip(bare_prefix@.len() as int));
    let host = replace_chars(bare.as_slice(), to_chars("\\.").as_slice(), to_chars(".").as_slice());
    if host.len() == 0 || char_list_contains(&host, '(') || char_list_contains(&host, ')')
        || char_list_contains(&host, '[') || char_list_contains(&host, ']') || char_list_contains(
        &host,
        '|',
    ) || char_list_contains(&host, '?') || char_list_contains(&host, '*') {
        return None;
    }
    let mut dot: Vec<char> = Vec::new();
    dot.push('.');
    assert(dot@ =~= seq!['.']);
    let trimmed = trim_end_set(host.as_slice(), dot.as_slice());
    Some(from_chars(trimmed.as_slice()))
}

/// Every host the blocking rules name, in rule order.
pub fn blocked_hosts(rules: &[BlockRule]) -> (r: Vec<String>)
    ensures
        crate::text::string_views(r@) == rule_hosts(rules@),
{
    let n = rules.len();
    let mut out: Vec<String> = Vec::new();
    let mut k: usize = 0;
    assert(rules@.take(0) =~= Seq::<BlockRule>::empty());
    while k < n
        invariant
            n == rules@.len(),
            k <= n,
            crate::text::string_views(out@) == rule_hosts(rules@.take(k as int)),
        decreases n - k,
    {
        assert(rules@.take(k + 1).drop_last() =~= rules@.take(k as int));
        assert(rules@.take(k + 1).last() == rules@[k as int]);
        let rule = &rules[k];
        if rule.is_block {
            match &rule.url_filter {
                Some(f) => match blocked_host_of_filter(f.as_str()) {
                    Some(h) => {
                        let ghost before = crate::text::string_views(out@);
                        out.push(h);
                        assert(crate::text::string_views(out@) =~= before.push(h@));
                    },
                    None => {},
                },
                None => {},
            }
        }
        k += 1;
    }
    assert(rules@.take(n as int) =~= rules@);
    out
}

/// Blocking rules in the file, which is the number of domains they name.
pub open spec fn blocking_rule_count(rules: Seq<BlockRule>) -> nat
    decreases rules.len(),
{
    if rules.len() == 0 {
        0
    } else {
        blocking_rule_count(rules.drop_last()) + if rules.last().is_block {
            1nat
        } else {
            0nat
        }
    }
}

pub fn rule_domain_count(rules: &[BlockRule]) -> (r: usize)
    ensures
        r == blocking_rule_count(rules@),
{
    let n = rules.len();
    let mut count: usize = 0;
    let mut k: usize = 0;
    assert(rules@.take(0) =~= Seq::<BlockRule>::empty());
    while k < n
        invariant
            n == rules@.len(),
            k <= n,
            count <= k,
            count == blocking_rule_count(rules@.take(k as int)),
        decreases n - k,
    {
        assert(rules@.take(k + 1).drop_last() =~= rules@.take(k as int));
        if rules[k].is_block {
            count += 1;
        }
        k += 1;
    }
    assert(rules@.take(n as int) =~= rules@);
    count
}

// ---------------------------------------------------------------------------
// What the build does
// ---------------------------------------------------------------------------

/// What this build blocks, as the Settings screen states it.
pub struct ContentBlockingStatus {
    pub engine: String,
    pub blocked_host_count: usize,
    pub blocks_third_party_cookies: bool,
    pub available: bool,
}

/// WebKit content rules on macOS and, through WebKitGTK, on the other Unix
/// desktops; per-request filtering on Windows, which cannot block cookies;
/// nothing on Android.
pub open spec fn blocking_engine(platform: Platform) -> (Seq<char>, bool) {
    match platform {
        Platform::MacOs { .. } => ("WebKit content rules"@, true),
        Platform::Windows => ("WebView2 request filtering"@, false),
        Platform::Android => (Seq::empty(), false),
        _ => ("WebKitGTK content filters"@, true),
    }
}

pub fn content_blocking_status(platform: &Platform, blocked_host_count: usize) -> (r:
    ContentBlockingStatus)
    ensures
        r.engine@ == blocking_engine(*platform).0,
        r.blocks_third_party_cookies == blocking_engine(*platform).1,
        r.blocked_host_count == blocked_host_count,
        r.available == (r.engine@.len() > 0),
{
    proof {
        reveal_strlit("");
    }
    let (engine, cookies) = match platform {
        Platform::MacOs { .. } => ("WebKit content rules", true),
        Platform::Windows => ("WebView2 request filtering", false),
        Platform::Android => ("", false),
        _ => ("WebKitGTK content filters", true),
    };
    proof {
        reveal_strlit("WebKit content rules");
        reveal_strlit("WebView2 request filtering");
        reveal_strlit("WebKitGTK content filters");
    }
    ContentBlockingStatus {
        engine: String::from_str(engine),
        blocked_host_count,
        blocks_third_party_cookies: cookies,
        available: !engine.is_empty(),
    }
}

} // verus!
