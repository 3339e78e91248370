use xerj_autoindex::status::{summarize_lines, JournalSummary};

#[test]
fn a_journal_summary_counts_done_files_and_their_records() {
    let mut s = JournalSummary::new();
    s.take(Some("run"), Some("/corpus"), None);
    s.take(Some("file_done"), None, Some(10));
    s.take(Some("file_done"), None, None);
    s.take(Some("plan"), Some("/elsewhere"), Some(99));
    s.take(None, Some("/ignored"), Some(5));
    assert_eq!(s.root, "/corpus");
    assert_eq!((s.done, s.records, s.finished), (2, 10, false));
    assert_eq!(s.line("/state/journal.ndjson"), "journal /state/journal.ndjson — root /corpus — 2 files done, 10 records, in progress");
    s.take(Some("finish"), None, None);
    assert!(s.line("j").ends_with("10 records, FINISHED"));
    s.take(Some("run"), None, None);
    assert_eq!(s.root, "");
}

#[test]
fn a_journal_read_line_by_line_skips_what_is_not_json_and_stops_before_overflow() {
    let lines: Vec<String> = vec![
        r#"{"kind":"run","root":"/corpus"}"#.to_string(),
        "not json".to_string(),
        r#"{"kind":"file_done","records":7}"#.to_string(),
        r#"{"kind":"file_done","records":"many"}"#.to_string(),
        r#"{"kind":"finish"}"#.to_string(),
    ];
    let s = summarize_lines(&lines);
    assert_eq!(s.root, "/corpus");
    assert_eq!((s.done, s.records, s.finished), (2, 7, true));

    let huge = vec![
        format!(r#"{{"kind":"file_done","records":{}}}"#, u64::MAX),
        r#"{"kind":"file_done","records":1}"#.to_string(),
        r#"{"kind":"finish"}"#.to_string(),
    ];
    let s = summarize_lines(&huge);
    assert_eq!((s.done, s.records, s.finished), (1, u64::MAX, false));
    assert_eq!(summarize_lines(&Vec::new()), JournalSummary::new());
}
