use redundant_sentences::aggregate::{AggregationTable, Sentence};

fn strings(xs: &[&str]) -> Vec<String> {
    xs.iter().map(|s| s.to_string()).collect()
}

const LONG: &str = "This is a moderately long example sentence for testing";

#[test]
fn push_counts_and_collapses_consecutive_sources() {
    let mut s = Sentence { text: LONG.to_string(), count: 0, provenance: Vec::new() };
    s.push("DocA");
    s.push("DocA");
    assert_eq!(s.count, 2);
    assert_eq!(s.provenance, vec!["DocA"]);
    s.push("DocB");
    s.push("DocA");
    assert_eq!(s.count, 4);
    assert_eq!(s.provenance, vec!["DocA", "DocB", "DocA"]);
}

#[test]
fn casing_and_punctuation_variants_share_one_record() {
    let mut t = AggregationTable::new();
    t.ingest("Doc1", "This is a moderately long example sentence for testing.", true);
    t.ingest("Doc2", "THIS IS A MODERATELY LONG EXAMPLE SENTENCE FOR TESTING", true);
    assert_eq!(t.len(), 1);
    let records = t.into_records();
    assert_eq!(records[0].count, 2);
    assert_eq!(records[0].provenance, vec!["Doc1", "Doc2"]);
    assert_eq!(
        records[0].text,
        "This is a moderately long example sentence for testing."
    );
}

#[test]
fn duplicate_within_one_document_counts_twice_with_one_provenance_entry() {
    let mut t = AggregationTable::new();
    t.ingest("DocA", LONG, true);
    t.ingest("DocA", LONG, true);
    assert_eq!(t.len(), 1);
    assert_eq!(t.ingests(), 2);
    let records = t.into_records();
    assert_eq!(records[0].count, 2);
    assert_eq!(records[0].provenance, vec!["DocA"]);
}

#[test]
fn record_text_is_first_seen_and_trimmed() {
    let mut t = AggregationTable::new();
    t.ingest("DocA", "   spaced out sentence with leading and trailing blanks   ", true);
    t.ingest("DocB", "spaced OUT sentence, with leading and trailing blanks", true);
    let records = t.into_records();
    assert_eq!(records.len(), 1);
    assert_eq!(
        records[0].text,
        "spaced out sentence with leading and trailing blanks"
    );
}

#[test]
fn without_case_folding_casing_variants_stay_apart() {
    let mut t = AggregationTable::new();
    t.ingest("DocA", LONG, false);
    t.ingest("DocA", &LONG.to_uppercase(), false);
    assert_eq!(t.len(), 2);
}

#[test]
fn records_come_out_in_first_seen_order() {
    let mut t = AggregationTable::new();
    t.ingest("DocA", "first moderately long example sentence for testing", true);
    t.ingest("DocA", "second moderately long example sentence for testing", true);
    t.ingest("DocA", "first moderately long example sentence for testing", true);
    let records = t.into_records();
    assert_eq!(records.len(), 2);
    assert!(records[0].text.starts_with("first"));
    assert!(records[1].text.starts_with("second"));
    assert_eq!(records[0].count, 2);
    assert_eq!(records[1].count, 1);
}

#[test]
fn empty_canonical_key_is_a_valid_key() {
    let mut t = AggregationTable::new();
    t.ingest("DocA", "!!! ???", true);
    t.ingest("DocB", "...", true);
    assert_eq!(t.len(), 1);
    let records = t.into_records();
    assert_eq!(records[0].count, 2);
    assert_eq!(records[0].text, "!!! ???");
}

#[test]
fn process_document_runs_scanner_and_aggregator() {
    let mut t = AggregationTable::new();
    t.process_document(
        "Doc1",
        &strings(&["Title", "Author", "Page", &format!("{}.Short.", LONG)]),
        true,
    );
    t.process_document(
        "Doc2",
        &strings(&["Page", &format!("{}!!!", LONG.to_uppercase())]),
        true,
    );
    assert_eq!(t.len(), 1);
    let records = t.into_records();
    assert_eq!(records[0].count, 2);
    assert_eq!(records[0].provenance, vec!["Doc1", "Doc2"]);
    assert_eq!(records[0].text, LONG);
}

#[test]
fn document_without_page_marker_contributes_no_records() {
    let mut t = AggregationTable::new();
    let ok = t.try_process_document("Doc1", &strings(&["Title", LONG, LONG]), true);
    assert!(ok);
    assert_eq!(t.len(), 0);
    assert_eq!(t.ingests(), 0);
}
