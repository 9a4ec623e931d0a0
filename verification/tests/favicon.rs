use aether::favicon::{favicon_data_uri, image_mime};

#[test]
fn mime_sniffing_beats_a_wrong_content_type() {
    let png = b"\x89PNG\r\n\x1a\n\x00\x00\x00\x0dIHDR";
    assert_eq!(image_mime(png, Some("text/plain")), Some("image/png"));
}

#[test]
fn mime_falls_back_to_the_header_when_bytes_are_unrecognised() {
    assert_eq!(image_mime(b"\x01\x02\x03\x04", None), None);
    assert_eq!(image_mime(b"\x01\x02\x03\x04", Some("image/png")), Some("image/png"));
}

#[test]
fn mime_detects_an_ico_and_an_svg() {
    assert_eq!(image_mime(b"\x00\x00\x01\x00\x01\x00", None), Some("image/x-icon"));
    assert_eq!(
        image_mime(b"<svg xmlns=\"http://www.w3.org/2000/svg\"/>", None),
        Some("image/svg+xml")
    );
}

#[test]
fn html_error_pages_are_not_treated_as_icons() {
    assert_eq!(image_mime(b"<!doctype html><html>404", Some("text/html")), None);
}

#[test]
fn mime_covers_the_other_formats_and_header_spellings() {
    assert_eq!(image_mime(b"\xff\xd8\xff\xe0", None), Some("image/jpeg"));
    assert_eq!(image_mime(b"GIF89a....", None), Some("image/gif"));
    assert_eq!(image_mime(b"RIFF\x00\x00\x00\x00WEBPVP8 ", None), Some("image/webp"));
    assert_eq!(image_mime(b"  \n<?xml version=\"1.0\"?><svg/>", None), Some("image/svg+xml"));
    assert_eq!(image_mime(b"<?xml version=\"1.0\"?><html/>", None), None);
    assert_eq!(image_mime(b"\x01", Some("  IMAGE/VND.MICROSOFT.ICON ")), Some("image/x-icon"));
    assert_eq!(image_mime(b"\x01", Some("image/svg+xml; charset=utf-8")), Some("image/svg+xml"));
}

#[test]
fn favicons_become_base64_data_uris() {
    assert_eq!(
        favicon_data_uri(b"\x00\x00\x01\x00\x01", None).as_deref(),
        Some("data:image/x-icon;base64,AAABAAE=")
    );
    assert_eq!(
        favicon_data_uri(b"<svg/>", None).as_deref(),
        Some("data:image/svg+xml;base64,PHN2Zy8+")
    );
    assert_eq!(favicon_data_uri(b"", Some("image/png")), None);
    assert_eq!(favicon_data_uri(&vec![0u8; 262_145], Some("image/png")), None);
    assert_eq!(favicon_data_uri(b"plain text", Some("text/plain")), None);
}
