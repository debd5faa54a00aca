use redundant_sentences::aggregate::{AggregationTable, Sentence};
use redundant_sentences::report::{render, render_lines, sort_by_count_desc};
use redundant_sentences::Config;

const CFG: Config = Config { fold_case: true, track_provenance: true, only_show_repeated: false };

const LONG_A: &str = "first moderately long example sentence for testing";
const LONG_B: &str = "second moderately long example sentence for testing";
const LONG_C: &str = "third moderately long example sentence for testing";

fn ingest_times(t: &mut AggregationTable, src: &str, frag: &str, n: u64) {
    for _ in 0..n {
        t.ingest(src, frag, true);
    }
}

#[test]
fn render_line_has_count_provenance_tab_text() {
    let s = Sentence {
        text: "Hello".to_string(),
        count: 2,
        provenance: vec!["Doc1".to_string(), "Doc2".to_string()],
    };
    assert_eq!(s.render_line(true), "2 Doc1 Doc2\tHello");
    assert_eq!(s.render_line(false), "2\tHello");
}

#[test]
fn report_sorts_by_descending_count() {
    let mut t = AggregationTable::new();
    ingest_times(&mut t, "DocA", LONG_A, 1);
    ingest_times(&mut t, "DocA", LONG_B, 3);
    ingest_times(&mut t, "DocA", LONG_C, 2);
    let lines = render(t, &CFG);
    assert_eq!(lines.len(), 4);
    assert_eq!(lines[0], "Total sentences: 3");
    assert_eq!(lines[1], format!("3 DocA\t{}", LONG_B));
    assert_eq!(lines[2], format!("2 DocA\t{}", LONG_C));
    assert_eq!(lines[3], format!("1 DocA\t{}", LONG_A));
}

#[test]
fn sort_is_descending_on_counts() {
    let mk = |text: &str, count: u64| Sentence {
        text: text.to_string(),
        count,
        provenance: vec!["D".to_string()],
    };
    let mut records = vec![mk("a", 1), mk("b", 5), mk("c", 3), mk("d", 5)];
    sort_by_count_desc(&mut records);
    let counts: Vec<u64> = records.iter().map(|r| r.count).collect();
    assert_eq!(counts, vec![5, 5, 3, 1]);
}

#[test]
fn boilerplate_record_is_excluded_even_with_highest_count() {
    let mut t = AggregationTable::new();
    ingest_times(&mut t, "DocA", "Collapse Subdiscussion and move on", 9);
    ingest_times(&mut t, "DocB", LONG_A, 1);
    let lines = render(t, &CFG);
    // The header still counts the excluded record.
    assert_eq!(lines.len(), 2);
    assert_eq!(lines[0], "Total sentences: 2");
    assert_eq!(lines[1], format!("1 DocB\t{}", LONG_A));
}

#[test]
fn only_show_repeated_restricts_to_repeats_when_any_exist() {
    let cfg = Config { fold_case: true, track_provenance: true, only_show_repeated: true };
    let mut t = AggregationTable::new();
    ingest_times(&mut t, "DocA", LONG_A, 1);
    ingest_times(&mut t, "DocA", LONG_B, 2);
    let lines = render(t, &cfg);
    assert_eq!(lines.len(), 2);
    assert_eq!(lines[0], "Total sentences: 2");
    assert_eq!(lines[1], format!("2 DocA\t{}", LONG_B));
}

#[test]
fn only_show_repeated_falls_back_to_all_nontrivial() {
    let cfg = Config { fold_case: true, track_provenance: true, only_show_repeated: true };
    let mut t = AggregationTable::new();
    ingest_times(&mut t, "DocA", LONG_A, 1);
    ingest_times(&mut t, "DocB", LONG_B, 1);
    let lines = render(t, &cfg);
    assert_eq!(lines.len(), 3);
}

#[test]
fn untracked_provenance_is_omitted_from_lines() {
    let cfg = Config { fold_case: true, track_provenance: false, only_show_repeated: false };
    let mut t = AggregationTable::new();
    ingest_times(&mut t, "DocA", LONG_A, 2);
    let lines = render(t, &cfg);
    assert_eq!(lines[1], format!("2\t{}", LONG_A));
}

#[test]
fn render_lines_keeps_the_given_order() {
    let mk = |text: &str, count: u64| Sentence {
        text: text.to_string(),
        count,
        provenance: vec!["D".to_string()],
    };
    let records = vec![mk("a", 1), mk("b", 2)];
    let lines = render_lines(&records, &CFG);
    assert_eq!(lines, vec!["Total sentences: 2", "1 D\ta", "2 D\tb"]);
}

#[test]
fn empty_table_renders_header_only() {
    let t = AggregationTable::new();
    let lines = render(t, &CFG);
    assert_eq!(lines, vec!["Total sentences: 0"]);
}
