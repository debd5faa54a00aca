use redundant_sentences::{run_report, Config};

const CFG: Config = Config { fold_case: true, track_provenance: true, only_show_repeated: false };

fn doc(name: &str, lines: &[&str]) -> (String, Vec<String>) {
    (name.to_string(), lines.iter().map(|s| s.to_string()).collect())
}

#[test]
fn run_report_counts_across_documents() {
    let docs = vec![
        doc(
            "Doc1",
            &[
                "Title",
                "Author",
                "Page",
                "This is a moderately long example sentence for testing.Short.",
            ],
        ),
        doc(
            "Doc2",
            &["Page", "THIS IS A MODERATELY LONG EXAMPLE SENTENCE FOR TESTING!"],
        ),
        doc("Doc3", &["no page marker, so nothing is contributed here"]),
    ];
    let lines = run_report(&docs, &CFG).unwrap();
    assert_eq!(
        lines,
        vec![
            "Total sentences: 1",
            "2 Doc1 Doc2\tThis is a moderately long example sentence for testing",
        ]
    );
}

#[test]
fn run_report_of_no_documents_is_header_only() {
    let docs: Vec<(String, Vec<String>)> = Vec::new();
    let lines = run_report(&docs, &CFG).unwrap();
    assert_eq!(lines, vec!["Total sentences: 0"]);
}

#[test]
fn run_report_sorts_and_filters() {
    let repeated = "a repeated moderately long example sentence for testing";
    let single = "a one-off moderately long example sentence for testing";
    let boiler = "Collapse Subdiscussion plus enough padding to pass the length cut";
    let body = format!("{r}.{s}.{r}.{b}.{b}.{b}", r = repeated, s = single, b = boiler);
    let docs = vec![doc("DocA", &["Page", &body])];
    let lines = run_report(&docs, &CFG).unwrap();
    assert_eq!(lines.len(), 3);
    assert_eq!(lines[0], "Total sentences: 3");
    assert_eq!(lines[1], format!("2 DocA\t{}", repeated));
    assert_eq!(lines[2], format!("1 DocA\t{}", single));
}
