use xerj_autoindex::datamap::{latest_correlations, missing_catalog, runs_newest_first, EXIT_NO_CATALOG};

fn s(v: &str) -> Option<String> {
    Some(v.to_string())
}

#[test]
fn runs_are_listed_newest_first_and_ties_keep_catalog_order() {
    let started = vec![s("2024-01-02"), None, s("2024-03-01"), s("2024-01-02")];
    assert_eq!(runs_newest_first(&started), vec![2, 0, 3, 1]);
    assert!(runs_newest_first(&[]).is_empty());
}

#[test]
fn only_the_latest_run_of_each_correlation_kind_is_shown() {
    let items = vec![
        (s("key_overlap"), s("run-1")),
        (s("key_overlap"), s("run-2")),
        (s("time_alignment"), s("run-1")),
        (s("key_overlap"), None),
        (s("other"), s("run-0")),
        (None, s("run-0")),
    ];
    assert_eq!(latest_correlations(&items), vec![false, true, true, false, true, true]);
    // A kind none of whose correlations names a run keeps them all.
    let unnamed = vec![(s("time_alignment"), None)];
    assert_eq!(latest_correlations(&unnamed), vec![true]);
}

#[test]
fn a_map_without_catalog_stops_with_advice() {
    let (code, advice) = missing_catalog(0, "http://localhost:9200", "xerj-autoindex-catalog").unwrap();
    assert_eq!(code, EXIT_NO_CATALOG);
    assert_eq!(code, 1);
    assert_eq!(
        advice,
        "no autoindex catalog found at http://localhost:9200 (index xerj-autoindex-catalog) — run `xerj autoindex <folder>` first"
    );
    assert!(missing_catalog(3, "u", "i").is_none());
}
