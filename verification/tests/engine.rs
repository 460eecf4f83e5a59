use premiere_hunter::decode::ErrorKind;
use premiere_hunter::engine::{
    content_assets, content_contains, content_snippet, name_is_excluded, scan, size_exceeds,
    ScanMode, ScanOutcome, DEFAULT_MAX_FILE_BYTES,
};

use std::io::Write;

fn gzip(data: &[u8]) -> Vec<u8> {
    let mut enc = flate2::write::GzEncoder::new(Vec::new(), flate2::Compression::default());
    enc.write_all(data).unwrap();
    enc.finish().unwrap()
}

#[test]
fn size_threshold_boundary() {
    assert!(size_exceeds(101, Some(100)));
    assert!(!size_exceeds(100, Some(100)));
    assert!(!size_exceeds(u64::MAX, None));
}

#[test]
fn over_threshold_is_no_result_in_all_modes() {
    let size = DEFAULT_MAX_FILE_BYTES + 1;
    let contains = ScanMode::Contains { needle: "x".to_string() };
    let snippet = ScanMode::Snippet { needle: "x".to_string(), budget: 120 };
    let assets = ScanMode::ListAssets { filter: None };
    assert!(matches!(
        scan(size, Some(DEFAULT_MAX_FILE_BYTES), None, &contains),
        ScanOutcome::NotFound
    ));
    assert!(matches!(
        scan(size, Some(DEFAULT_MAX_FILE_BYTES), None, &snippet),
        ScanOutcome::NotFound
    ));
    match scan(size, Some(DEFAULT_MAX_FILE_BYTES), None, &assets) {
        ScanOutcome::Assets(a) => assert!(a.is_empty()),
        other => panic!("expected empty asset list, got {:?}", other),
    }
}

#[test]
fn gzip_content_match_across_line_break() {
    let raw = gzip(b"foo BA\nR baz");
    let r = content_contains(&raw, "bar");
    assert_eq!(r.unwrap(), true);
}

#[test]
fn gzip_scan_mode_reports_found() {
    let raw = gzip(b"foo BA\nR baz");
    let mode = ScanMode::Contains { needle: "bar".to_string() };
    assert!(matches!(scan(12, Some(100), Some(&raw), &mode), ScanOutcome::Found));
}

#[test]
fn plain_content_no_match() {
    let raw = b"nothing here".to_vec();
    assert_eq!(content_contains(&raw, "bar").unwrap(), false);
}

#[test]
fn corrupt_gzip_is_decode_error() {
    let raw = vec![0x1f, 0x8b, 0x00, 0x01, 0x02];
    assert_eq!(content_contains(&raw, "x").unwrap_err(), ErrorKind::Decode);
}

#[test]
fn invalid_utf8_is_decode_error() {
    let raw = vec![0xff, 0xfe, 0x80];
    assert_eq!(content_contains(&raw, "x").unwrap_err(), ErrorKind::Decode);
    assert_eq!(content_snippet(&raw, "x", 0).unwrap_err(), ErrorKind::Decode);
    assert_eq!(content_assets(&raw, None).unwrap_err(), ErrorKind::Decode);
}

#[test]
fn snippet_over_gzip_content() {
    let raw = gzip(b"leading text then THE NEEDLE appears here");
    let s = content_snippet(&raw, "the needle", 20).unwrap().unwrap();
    assert!(s.to_ascii_lowercase().contains("the needle"));
}

#[test]
fn assets_from_gzip_document() {
    let raw = gzip(b"<Clip><FilePath>C:/Media/clip1.mp4</FilePath></Clip>");
    let a = content_assets(&raw, None).unwrap();
    assert_eq!(a, vec!["C:\\Media\\clip1.mp4".to_string()]);
}

#[test]
fn assets_filter_is_case_insensitive_substring() {
    let raw = b"<a path=\"x/Movie.mp4\"/><a path=\"y/sound.wav\"/>".to_vec();
    let all = content_assets(&raw, None).unwrap();
    assert_eq!(all.len(), 2);
    let filtered = content_assets(&raw, Some("MOVIE")).unwrap();
    assert_eq!(filtered, vec!["x\\Movie.mp4".to_string()]);
    let empty_term = content_assets(&raw, Some("")).unwrap();
    assert_eq!(empty_term.len(), 2);
}

#[test]
fn assets_scan_mode_returns_sorted_list() {
    let raw = b"<a path=\"b/2.mp4\"/><a path=\"a/1.mp4\"/>".to_vec();
    let mode = ScanMode::ListAssets { filter: None };
    match scan(raw.len() as u64, Some(DEFAULT_MAX_FILE_BYTES), Some(&raw), &mode) {
        ScanOutcome::Assets(a) => {
            assert_eq!(a, vec!["a\\1.mp4".to_string(), "b\\2.mp4".to_string()]);
        },
        other => panic!("expected assets, got {:?}", other),
    }
}

#[test]
fn snippet_scan_mode_returns_snippet() {
    let raw = b"alpha beta gamma".to_vec();
    let mode = ScanMode::Snippet { needle: "beta".to_string(), budget: 0 };
    match scan(raw.len() as u64, None, Some(&raw), &mode) {
        ScanOutcome::FoundWithSnippet(s) => assert_eq!(s, "alpha beta gamma"),
        other => panic!("expected snippet, got {:?}", other),
    }
}

#[test]
fn excluded_directory_names_compare_case_insensitively() {
    let excludes = vec!["Windows".to_string(), "Temp".to_string()];
    assert!(name_is_excluded("temp", &excludes));
    assert!(name_is_excluded("WINDOWS", &excludes));
    assert!(!name_is_excluded("tmp", &excludes));
    assert!(!name_is_excluded("Temporary", &excludes));
}
