use aether::downloads::{file_name_from_url, percent_decode_download_name};
use aether::urls::ParsedUrl;

#[test]
fn download_filenames_cannot_escape_the_downloads_directory() {
    let cases = [
        ("https://example.com/a/../../etc/passwd", "passwd"),
        ("https://example.com/%2e%2e%2fetc%2fpasswd", "etcpasswd"),
        ("https://example.com/dir/", "dir"),
        ("https://example.com/", "download"),
        ("https://example.com/..", "download"),
    ];
    for (raw, expected) in cases {
        let name = file_name_from_url(&ParsedUrl::parse(raw).expect("url"));
        assert_eq!(name, expected, "for {raw}");
        assert!(!name.contains('/'), "{name} must not contain a separator");
        assert!(!name.contains('\\'), "{name} must not contain a separator");
        assert_ne!(name, "..");
    }
}

#[test]
fn download_filenames_decode_and_keep_extensions() {
    let name = file_name_from_url(
        &ParsedUrl::parse("https://example.com/docs/My%20Report%202026.pdf").unwrap(),
    );
    assert_eq!(name, "My Report 2026.pdf");

    let stripped = file_name_from_url(
        &ParsedUrl::parse("https://example.com/a/b/paper.tar.gz?token=1").unwrap(),
    );
    assert_eq!(stripped, "paper.tar.gz");
}

#[test]
fn download_filenames_are_length_capped() {
    let long = "x".repeat(400);
    let name =
        file_name_from_url(&ParsedUrl::parse(&format!("https://example.com/{long}.bin")).unwrap());
    assert!(
        name.chars().count() <= 180,
        "got {} chars",
        name.chars().count()
    );
}

#[test]
fn percent_escapes_decode_to_bytes() {
    assert_eq!(percent_decode_download_name("a%20b"), "a b");
    assert_eq!(percent_decode_download_name("%+5"), "\u{5}");
    assert_eq!(percent_decode_download_name("100%"), "100%");
    assert_eq!(percent_decode_download_name("%zz1"), "%zz1");
    assert_eq!(percent_decode_download_name("%C3%A9"), "é");
    assert_eq!(percent_decode_download_name("%FF"), "\u{FFFD}");
}
