//! Site icons for tabs: which image type a fetched favicon is, and the `data:`
//! URI the renderer gets for it.

use vstd::prelude::*;
use crate::text::{
    trim_ws, trim_start_ws, lower_ascii, starts_with, contains_seq, to_chars, from_chars, push_str_chars,
    trim_chars, lower_ascii_chars, skip_ws, subvec, starts_with_chars, contains_chars,
};
use crate::downloads::{utf8_lossy, from_utf8_lossy};

verus! {

/// Larger responses are not favicons.
pub const MAX_FAVICON_BYTES: usize = 262144;

pub open spec fn starts_with_bytes(b: Seq<u8>, p: Seq<u8>) -> bool {
    p.len() <= b.len() && b.take(p.len() as int) == p
}

pub open spec fn png_magic() -> Seq<u8> {
    seq![0x89u8, 0x50, 0x4e, 0x47, 0x0d, 0x0a, 0x1a, 0x0a]
}

pub open spec fn jpeg_magic() -> Seq<u8> {
    seq![0xffu8, 0xd8, 0xff]
}

pub open spec fn gif87_magic() -> Seq<u8> {
    seq![0x47u8, 0x49, 0x46, 0x38, 0x37, 0x61]
}

pub open spec fn gif89_magic() -> Seq<u8> {
    seq![0x47u8, 0x49, 0x46, 0x38, 0x39, 0x61]
}

pub open spec fn ico_magic() -> Seq<u8> {
    seq![0x00u8, 0x00, 0x01, 0x00]
}

pub open spec fn riff_magic() -> Seq<u8> {
    seq![0x52u8, 0x49, 0x46, 0x46]
}

pub open spec fn webp_tag() -> Seq<u8> {
    seq![0x57u8, 0x45, 0x42, 0x50]
}

/// The opening of the bytes as text, leading whitespace dropped.
pub open spec fn text_head(b: Seq<u8>) -> Seq<char> {
    trim_start_ws(utf8_lossy(if b.len() < 512 {
        b
    } else {
        b.take(512)
    }))
}

/// The image type a declared content type names, if any.
pub open spec fn declared_mime(declared: Option<Seq<char>>) -> Option<Seq<char>> {
    match declared {
        Some(d) => {
            let v = lower_ascii(trim_ws(d));
            if starts_with(v, "image/svg"@) {
                Some("image/svg+xml"@)
            } else if starts_with(v, "image/png"@) {
                Some("image/png"@)
            } else if starts_with(v, "image/jpeg"@) {
                Some("image/jpeg"@)
            } else if starts_with(v, "image/gif"@) {
                Some("image/gif"@)
            } else if starts_with(v, "image/webp"@) {
                Some("image/webp"@)
            } else if starts_with(v, "image/x-icon"@) || starts_with(v, "image/vnd.microsoft.icon"@) {
                Some("image/x-icon"@)
            } else {
                None
            }
        },
        None => None,
    }
}

/// The image type of a fetched favicon: from its magic bytes (or an SVG root
/// element in its opening text), else from the declared content type.
pub open spec fn sniffed_mime(b: Seq<u8>, declared: Option<Seq<char>>) -> Option<Seq<char>> {
    if starts_with_bytes(b, png_magic()) {
        Some("image/png"@)
    } else if starts_with_bytes(b, jpeg_magic()) {
        Some("image/jpeg"@)
    } else if starts_with_bytes(b, gif87_magic()) || starts_with_bytes(b, gif89_magic()) {
        Some("image/gif"@)
    } else if starts_with_bytes(b, ico_magic()) {
        Some("image/x-icon"@)
    } else if b.len() > 12 && starts_with_bytes(b, riff_magic()) && b.subrange(8, 12) == webp_tag() {
        Some("image/webp"@)
    } else if starts_with(text_head(b), "<svg"@) || (starts_with(text_head(b), "<?xml"@) && contains_seq(
        text_head(b),
        "<svg"@,
    )) {
        Some("image/svg+xml"@)
    } else {
        declared_mime(declared)
    }
}

fn bytes_start_with(b: &[u8], p: &[u8]) -> (r: bool)
    ensures
        r == starts_with_bytes(b@, p@),
{
    if p.len() > b.len() {
        return false;
    }
    let mut i: usize = 0;
    while i < p.len()
        invariant
            p@.len() <= b@.len(),
            i <= p@.len(),
            forall|k: int| 0 <= k < i ==> b@[k] == p@[k],
        decreases p@.len() - i,
    {
        if b[i] != p[i] {
            assert(b@.take(p@.len() as int)[i as int] != p@[i as int]);
            return false;
        }
        i += 1;
    }
    assert(b@.take(p@.len() as int) =~= p@);
    true
}

fn begins_with(s: &[char], lit: &str) -> (r: bool)
    ensures
        r == starts_with(s@, lit@),
{
    crate::text::starts_with_chars(s, to_chars(lit).as_slice())
}

fn declared_mime_of(declared: Option<&str>) -> (r: Option<&'static str>)
    ensures
        match r {
            Some(m) => declared_mime(
                match declared {
                    Some(d) => Some(d@),
                    None => None,
                },
            ) == Some(m@),
            None => declared_mime(
                match declared {
                    Some(d) => Some(d@),
                    None => None,
                },
            ) is None,
        },
{
    match declared {
        Some(d) => {
            let v = lower_ascii_chars(trim_chars(to_chars(d).as_slice()).as_slice());
            if begins_with(v.as_slice(), "image/svg") {
                Some("image/svg+xml")
            } else if begins_with(v.as_slice(), "image/png") {
                Some("image/png")
            } else if begins_with(v.as_slice(), "image/jpeg") {
                Some("image/jpeg")
            } else if begins_with(v.as_slice(), "image/gif") {
                Some("image/gif")
            } else if begins_with(v.as_slice(), "image/webp") {
                Some("image/webp")
            } else if begins_with(v.as_slice(), "image/x-icon") || begins_with(v.as_slice(), "image/vnd.microsoft.icon") {
                Some("image/x-icon")
            } else {
                None
            }
        },
        None => None,
    }
}

/// The image type of a fetched favicon (see [`sniffed_mime`]); `None` for
/// anything that is not recognisably an image.
pub fn image_mime(bytes: &[u8], declared: Option<&str>) -> (r: Option<&'static str>)
    ensures
        match r {
            Some(m) => sniffed_mime(
                bytes@,
                match declared {
                    Some(d) => Some(d@),
                    None => None,
                },
            ) == Some(m@),
            None => sniffed_mime(
                bytes@,
                match declared {
                    Some(d) => Some(d@),
                    None => None,
                },
            ) is None,
        },
{
    let png: [u8; 8] = [0x89, 0x50, 0x4e, 0x47, 0x0d, 0x0a, 0x1a, 0x0a];
    let jpeg: [u8; 3] = [0xff, 0xd8, 0xff];
    let gif87: [u8; 6] = [0x47, 0x49, 0x46, 0x38, 0x37, 0x61];
    let gif89: [u8; 6] = [0x47, 0x49, 0x46, 0x38, 0x39, 0x61];
    let ico: [u8; 4] = [0x00, 0x00, 0x01, 0x00];
    let riff: [u8; 4] = [0x52, 0x49, 0x46, 0x46];
    let webp: [u8; 4] = [0x57, 0x45, 0x42, 0x50];
    assert(png@ =~= png_magic());
    assert(jpeg@ =~= jpeg_magic());
    assert(gif87@ =~= gif87_magic());
    assert(gif89@ =~= gif89_magic());
    assert(ico@ =~= ico_magic());
    assert(riff@ =~= riff_magic());
    assert(webp@ =~= webp_tag());
    if bytes_start_with(bytes, png.as_slice()) {
        return Some("image/png");
    }
    if bytes_start_with(bytes, jpeg.as_slice()) {
        return Some("image/jpeg");
    }
    if bytes_start_with(bytes, gif87.as_slice()) || bytes_start_with(bytes, gif89.as_slice()) {
        return Some("image/gif");
    }
    if bytes_start_with(bytes, ico.as_slice()) {
        return Some("image/x-icon");
    }
    if bytes.len() > 12 && bytes_start_with(bytes, riff.as_slice()) && bytes[8] == 0x57 && bytes[9] == 0x45
        && bytes[10] == 0x42 && bytes[11] == 0x50 {
        assert(bytes@.subrange(8, 12) =~= webp_tag());
        return Some("image/webp");
    }
    proof {
        if bytes@.len() > 12 && starts_with_bytes(bytes@, riff_magic()) {
            if bytes@.subrange(8, 12) == webp_tag() {
                assert(bytes@.subrange(8, 12)[0] == bytes@[8]);
                assert(bytes@.subrange(8, 12)[1] == bytes@[9]);
                assert(bytes@.subrange(8, 12)[2] == bytes@[10]);
                assert(bytes@.subrange(8, 12)[3] == bytes@[11]);
            }
        }
    }
    let head_len = if bytes.len() < 512 {
        bytes.len()
    } else {
        512
    };
    let head_bytes = prefix(bytes, head_len);
    assert(head_bytes@ =~= if bytes@.len() < 512 {
        bytes@
    } else {
        bytes@.take(512)
    });
    let text = from_utf8_lossy(head_bytes.as_slice());
    let chars = to_chars(text.as_str());
    let start = skip_ws(chars.as_slice(), 0);
    let head = subvec(chars.as_slice(), start, chars.len());
    proof {
        lemma_skip_is_trim_start(chars@, start as int);
    }
    if begins_with(head.as_slice(), "<svg") || (begins_with(head.as_slice(), "<?xml") && contains_chars(
        head.as_slice(),
        to_chars("<svg").as_slice(),
    )) {
        return Some("image/svg+xml");
    }
    declared_mime_of(declared)
}

fn prefix(b: &[u8], n: usize) -> (r: Vec<u8>)
    requires
        n <= b@.len(),
    ensures
        r@ == b@.take(n as int),
{
    let mut out: Vec<u8> = Vec::new();
    let mut i: usize = 0;
    while i < n
        invariant
            n <= b@.len(),
            i <= n,
            out@ == b@.take(i as int),
        decreases n - i,
    {
        out.push(b[i]);
        assert(b@.take(i + 1) =~= b@.take(i as int).push(b@[i as int]));
        i += 1;
    }
    out
}

proof fn lemma_skip_is_trim_start(s: Seq<char>, start: int)
    requires
        0 <= start <= s.len(),
        forall|k: int| 0 <= k < start ==> crate::text::is_ws(#[trigger] s[k]),
        start < s.len() ==> !crate::text::is_ws(s[start]),
    ensures
        trim_start_ws(s) == s.subrange(start, s.len() as int),
    decreases start,
{
    if start > 0 {
        assert(s.drop_first().subrange(start - 1, s.len() - 1) =~= s.subrange(start, s.len() as int));
        lemma_skip_is_trim_start(s.drop_first(), start - 1);
    } else {
        assert(s.subrange(0, s.len() as int) =~= s);
    }
}

// ---------------------------------------------------------------------------
// The data URI
// ---------------------------------------------------------------------------

/// The base64 digit for a six-bit value (standard alphabet).
pub open spec fn b64_digit(v: int) -> char {
    if v < 26 {
        (65 + v) as char
    } else if v < 52 {
        (97 + v - 26) as char
    } else if v < 62 {
        (48 + v - 52) as char
    } else if v == 62 {
        '+'
    } else {
        '/'
    }
}

/// Standard base64 with `=` padding: each three bytes become four digits.
pub open spec fn base64_standard(b: Seq<u8>) -> Seq<char>
    decreases b.len(),
{
    if b.len() == 0 {
        Seq::empty()
    } else {
        let x: int = b[0] as int;
        let y: int = if b.len() > 1 {
            b[1] as int
        } else {
            0
        };
        let z: int = if b.len() > 2 {
            b[2] as int
        } else {
            0
        };
        let first = b64_digit(x / 4);
        let second = b64_digit((x % 4) * 16 + y / 16);
        if b.len() == 1 {
            seq![first, second, '=', '=']
        } else if b.len() == 2 {
            seq![first, second, b64_digit((y % 16) * 4), '=']
        } else {
            seq![first, second, b64_digit((y % 16) * 4 + z / 64), b64_digit(z % 64)] + base64_standard(
                b.skip(3),
            )
        }
    }
}

/// Calls `Engine::encode` of base64's `STANDARD` engine, which writes the
/// standard alphabet with `=` padding. It panics only when the encoded length
/// overflows, which the size bound rules out.
#[verifier::external_body]
fn base64_encode(bytes: &[u8]) -> (r: String)
    requires
        bytes@.len() <= MAX_FAVICON_BYTES,
    ensures
        r@ == base64_standard(bytes@),
{
    base64::Engine::encode(&base64::engine::general_purpose::STANDARD, bytes)
}

/// The `data:` URI for a fetched favicon: nothing for an empty or oversized
/// body or one that is not recognisably an image.
pub open spec fn favicon_uri(b: Seq<u8>, declared: Option<Seq<char>>) -> Option<Seq<char>> {
    if b.len() == 0 || b.len() > MAX_FAVICON_BYTES {
        None
    } else {
        match sniffed_mime(b, declared) {
            Some(m) => Some("data:"@ + m + ";base64,"@ + base64_standard(b)),
            None => None,
        }
    }
}

pub fn favicon_data_uri(bytes: &[u8], declared: Option<&str>) -> (r: Option<String>)
    ensures
        r.deep_view() == favicon_uri(
            bytes@,
            match declared {
                Some(d) => Some(d@),
                None => None,
            },
        ),
{
    if bytes.len() == 0 || bytes.len() > MAX_FAVICON_BYTES {
        return None;
    }
    let mime = match image_mime(bytes, declared) {
        Some(m) => m,
        None => return None,
    };
    let mut uri = to_chars("data:");
    push_str_chars(&mut uri, mime);
    push_str_chars(&mut uri, ";base64,");
    let encoded = base64_encode(bytes);
    push_str_chars(&mut uri, encoded.as_str());
    Some(from_chars(uri.as_slice()))
}

} // verus!
