//! File names for downloads: derived from an untrusted URL, so they are
//! decoded, stripped of anything that could leave the downloads directory, and
//! capped in length.

use vstd::prelude::*;
use vstd::utf8::{encode_utf8, decode_utf8, valid_utf8, is_char_boundary, is_ascii_chars};
use vstd::string::StringSliceAdditionalSpecFns;
use crate::text::{
    is_control, trim_ws, trim_start_in, split_on, views, first_n, to_chars, from_chars, subvec,
    trim_chars, trim_start_set, split_chars, char_is_control, take_chars,
};
use crate::urls::ParsedUrl;

verus! {

// ---------------------------------------------------------------------------
// Percent-decoding
// ---------------------------------------------------------------------------

pub open spec fn hex_val(b: u8) -> Option<u8> {
    if 48 <= b <= 57 {
        Some((b - 48) as u8)
    } else if 97 <= b <= 102 {
        Some((b - 87) as u8)
    } else if 65 <= b <= 70 {
        Some((b - 55) as u8)
    } else {
        None
    }
}

/// What `u8::from_str_radix(_, 16)` reads from the two bytes after a `%`: two
/// hex digits, or a `+` sign and one.
pub open spec fn escape_value(b1: u8, b2: u8) -> Option<u8> {
    if b1 == 43 {
        hex_val(b2)
    } else {
        match (hex_val(b1), hex_val(b2)) {
            (Some(h), Some(l)) => Some((h * 16 + l) as u8),
            _ => None,
        }
    }
}

/// The bytes from `i` on, each `%XX` that reads as a byte replaced by it.
pub open spec fn decode_from(b: Seq<u8>, i: int) -> Seq<u8>
    decreases b.len() - i,
{
    if i < 0 || i >= b.len() {
        Seq::empty()
    } else if b[i] == 37 && i + 2 < b.len() && escape_value(b[i + 1], b[i + 2]) is Some {
        seq![escape_value(b[i + 1], b[i + 2])->0] + decode_from(b, i + 3)
    } else {
        seq![b[i]] + decode_from(b, i + 1)
    }
}

/// The two characters after each `%` can be cut out of the string: the byte
/// after them starts a character (or ends the string).
pub open spec fn escapes_on_boundaries(b: Seq<u8>) -> bool {
    forall|i: int| 0 <= i && i + 2 < b.len() && b[i] == 37 ==> is_char_boundary(b, i + 3)
}

/// What `String::from_utf8_lossy` makes of a byte string: invalid sequences
/// become U+FFFD.
pub uninterp spec fn utf8_lossy(bytes: Seq<u8>) -> Seq<char>;

/// Calls `String::from_utf8_lossy`.
#[verifier::external_body]
pub(crate) fn from_utf8_lossy(bytes: &[u8]) -> (r: String)
    ensures
        r@ == utf8_lossy(bytes@),
        valid_utf8(bytes@) ==> r@ == decode_utf8(bytes@),
{
    String::from_utf8_lossy(bytes).to_string()
}

pub open spec fn percent_decoded(raw: Seq<char>) -> Seq<char> {
    utf8_lossy(decode_from(encode_utf8(raw), 0))
}

pub(crate) fn hex_digit_value(b: u8) -> (r: Option<u8>)
    ensures
        r == hex_val(b),
{
    if 48 <= b && b <= 57 {
        Some(b - 48)
    } else if 97 <= b && b <= 102 {
        Some(b - 87)
    } else if 65 <= b && b <= 70 {
        Some(b - 55)
    } else {
        None
    }
}

fn escape_byte(b1: u8, b2: u8) -> (r: Option<u8>)
    ensures
        r == escape_value(b1, b2),
{
    if b1 == 43 {
        return hex_digit_value(b2);
    }
    match (hex_digit_value(b1), hex_digit_value(b2)) {
        (Some(h), Some(l)) => Some(h * 16 + l),
        _ => None,
    }
}

/// Decodes `%XX` escapes in a download name; what is not valid UTF-8 after
/// decoding becomes U+FFFD.
pub fn percent_decode_download_name(raw: &str) -> (r: String)
    requires
        escapes_on_boundaries(raw.spec_bytes()),
    ensures
        r@ == percent_decoded(raw@),
{
    let bytes = raw.as_bytes();
    let ghost b = raw.spec_bytes();
    let n = bytes.len();
    let mut out: Vec<u8> = Vec::new();
    let mut index: usize = 0;
    while index < n
        invariant
            bytes@ == b,
            n == b.len(),
            index <= n,
            decode_from(b, 0) == out@ + decode_from(b, index as int),
        decreases n - index,
    {
        if bytes[index] == 37 && n >= 2 && index < n - 2 {
            match escape_byte(bytes[index + 1], bytes[index + 2]) {
                Some(byte) => {
                    out.push(byte);
                    assert(out@ + decode_from(b, index + 3) =~= (out@.drop_last() + (seq![byte]
                        + decode_from(b, index + 3))));
                    index += 3;
                    continue;
                },
                None => {},
            }
        }
        let ghost before = out@;
        out.push(bytes[index]);
        assert(out@ + decode_from(b, index + 1) =~= before + (seq![b[index as int]] + decode_from(
            b,
            index + 1,
        )));
        index += 1;
    }
    assert(out@ + decode_from(b, n as int) =~= out@);
    from_utf8_lossy(out.as_slice())
}

// ---------------------------------------------------------------------------
// Names
// ---------------------------------------------------------------------------

/// The last non-empty piece.
pub open spec fn last_nonempty(parts: Seq<Seq<char>>) -> Option<Seq<char>>
    decreases parts.len(),
{
    if parts.len() == 0 {
        None
    } else if parts.last().len() > 0 {
        Some(parts.last())
    } else {
        last_nonempty(parts.drop_last())
    }
}

/// The last non-empty path segment, or `download` where there is none (or
/// the URL has no path segments at all).
pub open spec fn raw_download_segment(path: Seq<char>) -> Seq<char> {
    if path.len() > 0 && path[0] == '/' {
        match last_nonempty(split_on(path.drop_first(), '/')) {
            Some(s) => s,
            None => "download"@,
        }
    } else {
        "download"@
    }
}

/// Characters a file name may keep: no control characters, separators,
/// drive colons or NULs.
pub open spec fn name_char_ok(c: char) -> bool {
    !is_control(c) && c != '/' && c != '\\' && c != ':' && c != '\0'
}

pub open spec fn keep_name_chars(s: Seq<char>) -> Seq<char>
    decreases s.len(),
{
    if s.len() == 0 {
        s
    } else {
        let r = keep_name_chars(s.drop_last());
        if name_char_ok(s.last()) {
            r.push(s.last())
        } else {
            r
        }
    }
}

/// The file name a download is saved under.
pub open spec fn download_file_name(path: Seq<char>) -> Seq<char> {
    let cleaned = keep_name_chars(percent_decoded(raw_download_segment(path)));
    let t = trim_start_in(trim_ws(cleaned), seq!['.']);
    if t.len() == 0 {
        "download"@
    } else {
        first_n(t, 180)
    }
}

/// A name that cannot leave the directory it is saved in.
pub open spec fn safe_file_name(name: Seq<char>) -> bool {
    &&& 0 < name.len() <= 180
    &&& name[0] != '.'
    &&& forall|i: int| 0 <= i < name.len() ==> name_char_ok(#[trigger] name[i])
}

proof fn lemma_keep_name_chars(s: Seq<char>)
    ensures
        forall|i: int|
            0 <= i < keep_name_chars(s).len() ==> name_char_ok(#[trigger] keep_name_chars(s)[i]),
    decreases s.len(),
{
    if s.len() > 0 {
        lemma_keep_name_chars(s.drop_last());
        let r = keep_name_chars(s.drop_last());
        assert forall|i: int|
            0 <= i < keep_name_chars(s).len() implies name_char_ok(#[trigger] keep_name_chars(s)[i]) by {
            if i < r.len() {
                assert(keep_name_chars(s)[i] == r[i]);
            }
        }
    }
}

proof fn lemma_trim_ws_sub(s: Seq<char>)
    ensures
        forall|i: int|
            0 <= i < trim_ws(s).len() ==> exists|j: int|
                0 <= j < s.len() && s[j] == #[trigger] trim_ws(s)[i],
    decreases s.len(),
{
    lemma_trim_start_sub(s);
    lemma_trim_end_sub(crate::text::trim_start_ws(s));
    assert forall|i: int| 0 <= i < trim_ws(s).len() implies exists|j: int|
        0 <= j < s.len() && s[j] == #[trigger] trim_ws(s)[i] by {
        let t = crate::text::trim_start_ws(s);
        let k = choose|k: int| 0 <= k < t.len() && t[k] == trim_ws(s)[i];
        let j = choose|j: int| 0 <= j < s.len() && s[j] == t[k];
    }
}

proof fn lemma_trim_start_sub(s: Seq<char>)
    ensures
        forall|i: int|
            0 <= i < crate::text::trim_start_ws(s).len() ==> exists|j: int|
                0 <= j < s.len() && s[j] == #[trigger] crate::text::trim_start_ws(s)[i],
    decreases s.len(),
{
    if s.len() > 0 && crate::text::is_ws(s[0]) {
        lemma_trim_start_sub(s.drop_first());
        assert forall|i: int| 0 <= i < crate::text::trim_start_ws(s).len() implies exists|j: int|
            0 <= j < s.len() && s[j] == #[trigger] crate::text::trim_start_ws(s)[i] by {
            let j = choose|j: int|
                0 <= j < s.drop_first().len() && s.drop_first()[j] == crate::text::trim_start_ws(
                    s.drop_first(),
                )[i];
            assert(s[j + 1] == s.drop_first()[j]);
        }
    } else {
        assert forall|i: int| 0 <= i < crate::text::trim_start_ws(s).len() implies exists|j: int|
            0 <= j < s.len() && s[j] == #[trigger] crate::text::trim_start_ws(s)[i] by {
            assert(s[i] == crate::text::trim_start_ws(s)[i]);
        }
    }
}

proof fn lemma_trim_end_sub(s: Seq<char>)
    ensures
        crate::text::trim_end_ws(s).len() <= s.len(),
        crate::text::trim_end_ws(s) == s.subrange(0, crate::text::trim_end_ws(s).len() as int),
        forall|i: int|
            0 <= i < crate::text::trim_end_ws(s).len() ==> 0 <= i < s.len() && s[i]
                == #[trigger] crate::text::trim_end_ws(s)[i],
    decreases s.len(),
{
    if s.len() > 0 && crate::text::is_ws(s.last()) {
        lemma_trim_end_sub(s.drop_last());
        let t = crate::text::trim_end_ws(s.drop_last());
        assert(t =~= s.subrange(0, t.len() as int));
    } else {
        assert(s =~= s.subrange(0, s.len() as int));
    }
}

proof fn lemma_trim_start_dots(s: Seq<char>)
    ensures
        trim_start_in(s, seq!['.']).len() > 0 ==> trim_start_in(s, seq!['.'])[0] != '.',
        forall|i: int|
            0 <= i < trim_start_in(s, seq!['.']).len() ==> exists|j: int|
                0 <= j < s.len() && s[j] == #[trigger] trim_start_in(s, seq!['.'])[i],
    decreases s.len(),
{
    if s.len() > 0 && seq!['.'].contains(s[0]) {
        lemma_trim_start_dots(s.drop_first());
        assert forall|i: int| 0 <= i < trim_start_in(s, seq!['.']).len() implies exists|j: int|
            0 <= j < s.len() && s[j] == #[trigger] trim_start_in(s, seq!['.'])[i] by {
            let j = choose|j: int|
                0 <= j < s.drop_first().len() && s.drop_first()[j] == trim_start_in(
                    s.drop_first(),
                    seq!['.'],
                )[i];
            assert(s[j + 1] == s.drop_first()[j]);
        }
    } else {
        if s.len() > 0 {
            assert(seq!['.'][0] == '.');
            if s[0] == '.' {
                assert(seq!['.'].contains(s[0]));
            }
        }
        assert forall|i: int| 0 <= i < trim_start_in(s, seq!['.']).len() implies exists|j: int|
            0 <= j < s.len() && s[j] == #[trigger] trim_start_in(s, seq!['.'])[i] by {
            assert(s[i] == trim_start_in(s, seq!['.'])[i]);
        }
    }
}

/// Whatever the URL, the derived name is non-empty, at most 180 characters,
/// does not start with a dot (so it is neither `.` nor `..` nor hidden), and
/// holds no separator, colon, NUL or control character.
pub proof fn lemma_download_name_is_safe(path: Seq<char>)
    ensures
        safe_file_name(download_file_name(path)),
{
    let cleaned = keep_name_chars(percent_decoded(raw_download_segment(path)));
    let w = trim_ws(cleaned);
    let t = trim_start_in(w, seq!['.']);
    lemma_keep_name_chars(percent_decoded(raw_download_segment(path)));
    lemma_trim_ws_sub(cleaned);
    lemma_trim_start_dots(w);
    if t.len() == 0 {
        reveal_strlit("download");
    } else {
        let f = first_n(t, 180);
        assert forall|i: int| 0 <= i < f.len() implies name_char_ok(#[trigger] f[i]) by {
            assert(f[i] == t[i]);
            let j = choose|j: int| 0 <= j < w.len() && w[j] == t[i];
            let k = choose|k: int| 0 <= k < cleaned.len() && cleaned[k] == w[j];
        }
        assert(f[0] == t[0]);
    }
}


proof fn lemma_ascii_escapes_on_boundaries(s: Seq<char>)
    requires
        is_ascii_chars(s),
    ensures
        escapes_on_boundaries(encode_utf8(s)),
{
    let b = encode_utf8(s);
    vstd::utf8::is_ascii_chars_encode_utf8(s);
    vstd::utf8::encode_utf8_valid_utf8(s);
    vstd::utf8::is_char_boundary_start_end_of_seq(b);
    assert forall|i: int| 0 <= i && i + 2 < b.len() && b[i] == 37 implies is_char_boundary(
        b,
        i + 3,
    ) by {
        if i + 3 < b.len() {
            vstd::utf8::is_char_boundary_iff_not_is_continuation_byte(b, i + 3);
            let c = s[i + 3];
            vstd::utf8::is_ascii_chars_nat_bound(s);
            assert((c as nat) < 128);
            assert(c as u8 == b[i + 3]);
            assert(b[i + 3] < 128);
        }
    }
}

proof fn lemma_split_ascii(s: Seq<char>, sep: char)
    requires
        is_ascii_chars(s),
    ensures
        forall|k: int|
            0 <= k < split_on(s, sep).len() ==> is_ascii_chars(#[trigger] split_on(s, sep)[k]),
    decreases s.len(),
{
    if s.len() > 0 {
        assert(is_ascii_chars(s.drop_last())) by {
            assert forall|i: int| 0 <= i < s.drop_last().len() implies '\0' <= #[trigger] s.drop_last()[i]
                <= '\u{7f}' by {
                assert(s.drop_last()[i] == s[i]);
            }
        }
        lemma_split_ascii(s.drop_last(), sep);
        crate::text::lemma_split_on_nonempty(s.drop_last(), sep);
        let r = split_on(s.drop_last(), sep);
        assert(is_ascii_chars(r.last().push(s.last()))) by {
            assert(is_ascii_chars(r[r.len() - 1]));
            assert(s.last() == s[s.len() - 1]);
        }
    }
}

proof fn lemma_last_nonempty_member(parts: Seq<Seq<char>>)
    ensures
        last_nonempty(parts) matches Some(p) ==> exists|k: int| 0 <= k < parts.len() && parts[k] == p,
    decreases parts.len(),
{
    if parts.len() > 0 && parts.last().len() == 0 {
        lemma_last_nonempty_member(parts.drop_last());
        if let Some(p) = last_nonempty(parts.drop_last()) {
            let k = choose|k: int| 0 <= k < parts.drop_last().len() && parts.drop_last()[k] == p;
            assert(parts[k] == p);
        }
    } else if parts.len() > 0 {
        assert(parts[parts.len() - 1] == parts.last());
    }
}

proof fn lemma_raw_segment_ascii(path: Seq<char>)
    requires
        is_ascii_chars(path),
    ensures
        is_ascii_chars(raw_download_segment(path)),
{
    reveal_strlit("download");
    if path.len() > 0 && path[0] == '/' {
        let rest = path.drop_first();
        assert(is_ascii_chars(rest)) by {
            assert forall|i: int| 0 <= i < rest.len() implies '\0' <= #[trigger] rest[i] <= '\u{7f}' by {
                assert(rest[i] == path[i + 1]);
            }
        }
        lemma_split_ascii(rest, '/');
        lemma_last_nonempty_member(split_on(rest, '/'));
    }
}

/// The last non-empty path segment, as `url::Url::path_segments` splits it.
fn raw_segment_chars(path: &str) -> (r: Vec<char>)
    ensures
        r@ == raw_download_segment(path@),
{
    let p = to_chars(path);
    proof {
        reveal_strlit("download");
    }
    if p.len() == 0 || p[0] != '/' {
        return to_chars("download");
    }
    let rest = subvec(p.as_slice(), 1, p.len());
    assert(rest@ =~= path@.drop_first());
    let parts = split_chars(rest.as_slice(), '/');
    let ghost ps = views(parts@);
    let mut k: usize = parts.len();
    assert(ps.take(k as int) =~= ps);
    while k > 0
        invariant
            k <= parts@.len(),
            ps == views(parts@),
            ps == split_on(path@.drop_first(), '/'),
            path@.len() > 0 && path@[0] == '/',
            last_nonempty(ps) == last_nonempty(ps.take(k as int)),
        decreases k,
    {
        assert(ps.take(k as int).last() == parts@[k - 1]@);
        assert(ps.take(k as int).drop_last() =~= ps.take(k - 1));
        if parts[k - 1].len() > 0 {
            let s = subvec(parts[k - 1].as_slice(), 0, parts[k - 1].len());
            assert(s@ =~= parts@[k - 1]@);
            return s;
        }
        k -= 1;
    }
    assert(ps.take(0) =~= Seq::<Seq<char>>::empty());
    to_chars("download")
}

/// The name a download from `url` is saved under (see [`download_file_name`]).
pub fn file_name_from_url(url: &ParsedUrl) -> (r: String)
    requires
        is_ascii_chars(url.path@),
    ensures
        r@ == download_file_name(url.path@),
        safe_file_name(r@),
{
    proof {
        lemma_download_name_is_safe(url.path@);
        reveal_strlit("download");
    }
    let raw = raw_segment_chars(url.path.as_str());
    let raw_s = from_chars(raw.as_slice());
    proof {
        lemma_raw_segment_ascii(url.path@);
        lemma_ascii_escapes_on_boundaries(raw_s@);
    }
    let decoded = percent_decode_download_name(raw_s.as_str());
    let d = to_chars(decoded.as_str());
    let mut cleaned: Vec<char> = Vec::new();
    let n = d.len();
    let mut i: usize = 0;
    assert(d@.take(0) =~= Seq::<char>::empty());
    while i < n
        invariant
            n == d@.len(),
            i <= n,
            cleaned@ == keep_name_chars(d@.take(i as int)),
        decreases n - i,
    {
        let c = d[i];
        assert(d@.take(i + 1).drop_last() =~= d@.take(i as int));
        assert(d@.take(i + 1).last() == c);
        if !char_is_control(c) && c != '/' && c != '\\' && c != ':' && c != '\0' {
            cleaned.push(c);
        }
        i += 1;
    }
    assert(d@.take(n as int) =~= d@);
    let t = trim_chars(cleaned.as_slice());
    let mut dot: Vec<char> = Vec::new();
    dot.push('.');
    assert(dot@ =~= seq!['.']);
    let trimmed = trim_start_set(t.as_slice(), dot.as_slice());
    if trimmed.len() == 0 {
        return String::from_str("download");
    }
    let capped = take_chars(trimmed.as_slice(), 180);
    from_chars(capped.as_slice())
}

} // verus!
