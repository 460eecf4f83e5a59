use premiere_hunter::search::{contains_lines, snippet_lines, split_lines};

fn lines(v: &[&str]) -> Vec<String> {
    v.iter().map(|s| s.to_string()).collect()
}

#[test]
fn contains_simple_match() {
    let ls = lines(&["hello world"]);
    assert!(contains_lines(&ls, "WORLD"));
    assert!(contains_lines(&ls, "o w"));
    assert!(!contains_lines(&ls, "worlds"));
}

#[test]
fn contains_match_spans_line_break() {
    let ls = lines(&["foo BA", "R baz"]);
    assert!(contains_lines(&ls, "bar"));
}

#[test]
fn contains_every_split_point() {
    let text = "The Quick Brown Fox";
    let needle = "quick brown";
    for cut in 0..=text.len() {
        if !text.is_char_boundary(cut) {
            continue;
        }
        let ls = lines(&[&text[..cut], &text[cut..]]);
        assert!(contains_lines(&ls, needle), "split at {} missed", cut);
    }
}

#[test]
fn contains_no_match_reports_false() {
    let ls = lines(&["alpha", "beta", "gamma"]);
    assert!(!contains_lines(&ls, "delta"));
}

#[test]
fn contains_needle_longer_than_content() {
    let ls = lines(&["ab"]);
    assert!(!contains_lines(&ls, "abcdef"));
}

#[test]
fn contains_empty_line_list() {
    let ls: Vec<String> = Vec::new();
    assert!(!contains_lines(&ls, "x"));
}

#[test]
fn snippet_none_without_match() {
    let ls = lines(&["nothing to see"]);
    assert!(snippet_lines(&ls, "treasure", 120).is_none());
}

#[test]
fn snippet_exact_window_and_markers() {
    let ls = lines(&["abcdefghij"]);
    let s = snippet_lines(&ls, "def", 4).unwrap();
    assert_eq!(s, "...defg...");
}

#[test]
fn snippet_default_budget_covers_short_line() {
    let ls = lines(&["abcdefghij"]);
    let s = snippet_lines(&ls, "def", 0).unwrap();
    assert_eq!(s, "abcdefghij");
}

#[test]
fn snippet_replaces_tabs() {
    let ls = lines(&["a\tbcdef"]);
    let s = snippet_lines(&ls, "bcd", 0).unwrap();
    assert_eq!(s, "a bcdef");
}

#[test]
fn snippet_budget_bounds_window() {
    let long = "x".repeat(300) + "needle" + &"y".repeat(300);
    let ls = lines(&[long.as_str()]);
    let s = snippet_lines(&ls, "NEEDLE", 50).unwrap();
    let core: &str = s.trim_matches('.');
    assert!(core.chars().count() <= 50);
    assert!(s.starts_with("..."));
    assert!(s.ends_with("..."));
    assert!(core.contains("needle"));
}

#[test]
fn snippet_never_splits_multibyte_chars() {
    let text = "ééééééééé needle ééééééééé";
    let ls = lines(&[text]);
    let s = snippet_lines(&ls, "needle", 10).unwrap();
    // the snippet is built character-wise: every byte sequence is a
    // whole character of the original text
    assert!(s.contains("needle"));
    for c in s.chars() {
        assert!(c == '.' || c == 'é' || c == ' ' || "needle".contains(c));
    }
}

#[test]
fn snippet_match_spanning_lines() {
    let ls = lines(&["start of secr", "et end"]);
    let s = snippet_lines(&ls, "secret", 0).unwrap();
    assert!(s.contains("secret"));
}

#[test]
fn split_lines_basic() {
    assert_eq!(split_lines("a\nb\r\nc"), lines(&["a", "b", "c"]));
    assert_eq!(split_lines("a\n"), lines(&["a"]));
    assert_eq!(split_lines(""), Vec::<String>::new());
    assert_eq!(split_lines("\n"), lines(&[""]));
    assert_eq!(split_lines("no newline"), lines(&["no newline"]));
}

#[test]
fn snippet_needle_longer_than_budget_truncates_match() {
    let ls: Vec<String> = vec!["xxabcdefyy".to_string()];
    let s = snippet_lines(&ls, "abcdef", 3).unwrap();
    assert_eq!(s, "...abc...");
}

#[test]
fn contains_match_spanning_three_lines() {
    let ls: Vec<String> = vec!["ab".to_string(), "c".to_string(), "de".to_string()];
    assert!(contains_lines(&ls, "bcd"));
    assert!(!contains_lines(&ls, "bce"));
}
