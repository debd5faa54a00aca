use redundant_sentences::scanner::{scan_document, scan_line, split_line, PageScanner};

fn strings(xs: &[&str]) -> Vec<String> {
    xs.iter().map(|s| s.to_string()).collect()
}

#[test]
fn header_lines_before_page_are_ignored() {
    let lines = strings(&[
        "Title",
        "Author",
        "Page",
        "This is a moderately long example sentence for testing.Short.",
    ]);
    let frags = scan_document(&lines);
    assert_eq!(frags.len(), 1);
    assert_eq!(
        frags[0],
        "This is a moderately long example sentence for testing"
    );
}

#[test]
fn document_without_page_marker_yields_nothing() {
    let lines = strings(&[
        "Title",
        "This is a moderately long example sentence for testing.",
        "Another moderately long example sentence would be kept here.",
    ]);
    let frags = scan_document(&lines);
    assert_eq!(frags.len(), 0);
}

#[test]
fn page_marker_match_is_exact() {
    let long = "This is a moderately long example sentence for testing";
    for marker in ["page", " Page", "Page ", "Pages"] {
        let frags = scan_document(&strings(&[marker, long]));
        assert_eq!(frags.len(), 0, "{marker:?} must not open the body");
    }
}

#[test]
fn page_marker_line_itself_is_consumed() {
    let lines = strings(&["Page", "Page"]);
    let frags = scan_document(&lines);
    assert_eq!(frags.len(), 0);
}

#[test]
fn split_line_splits_on_dots() {
    let parts = split_line("a.b..c");
    assert_eq!(parts, vec!["a", "b", "", "c"]);
    let parts = split_line("");
    assert_eq!(parts, vec![""]);
    let parts = split_line("no dot here");
    assert_eq!(parts, vec!["no dot here"]);
}

#[test]
fn length_cut_is_strictly_greater_than_forty() {
    let forty = "a".repeat(40);
    let forty_one = "b".repeat(41);
    let line = format!("{}.{}", forty, forty_one);
    let frags = scan_line(&line);
    assert_eq!(frags.len(), 1);
    assert_eq!(frags[0], forty_one);
}

#[test]
fn length_is_counted_in_characters() {
    // 41 two-byte characters: kept when counting characters.
    let line = "\u{00e9}".repeat(41);
    let frags = scan_line(&line);
    assert_eq!(frags.len(), 1);
}

#[test]
fn feed_line_switches_state_on_marker_only() {
    let mut sc = PageScanner::new();
    let long = "This is a moderately long example sentence for testing";
    assert_eq!(sc.feed_line(long).len(), 0);
    assert_eq!(sc.feed_line("Page").len(), 0);
    let out = sc.feed_line(long);
    assert_eq!(out.len(), 1);
    assert_eq!(out[0], long);
}
