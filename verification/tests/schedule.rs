use xerj_autoindex::schedule::{
    cleanup_keys, dataset_bytes, flush_batch, generation_for, phase_b_files, publication_intents,
    replacement_starts, reports_progress, run_exit_code, EXIT_JUNK, MAX_BATCH_DOCS,
};

fn strings(v: &[&str]) -> Vec<String> {
    v.iter().map(|s| s.to_string()).collect()
}

#[test]
fn phase_b_takes_planned_files_smallest_first_and_reports_new_ones() {
    let keys = strings(&["k0", "", "k2", "k3", "k4", "k5", "k6"]);
    let sizes = vec![50u64, 1, 10, 10, 99, 5, 7];
    let done = strings(&["k3", "k4"]);
    let changed = strings(&["k4"]);
    let planned = strings(&["k0", "k2", "k3", "k4"]);
    let junk = strings(&["k6"]);
    let (todo, unplanned) = phase_b_files(&keys, &sizes, &done, &changed, &planned, &junk);
    // k3 is done and unchanged; k1 has no key; k4 is done but changed.
    assert_eq!(todo, vec![2, 0, 4]);
    // k5 appeared after the plan; k6 was already recorded as junk.
    assert_eq!(unplanned, vec![5]);
}

#[test]
fn equal_sizes_keep_walk_order() {
    let keys = strings(&["a", "b", "c"]);
    let sizes = vec![3u64, 3, 1];
    let planned = strings(&["a", "b", "c"]);
    let (todo, unplanned) = phase_b_files(&keys, &sizes, &[], &[], &planned, &[]);
    assert_eq!(todo, vec![2, 0, 1]);
    assert!(unplanned.is_empty());
}

#[test]
fn batches_flush_at_the_byte_cut_or_the_document_cap() {
    assert!(!flush_batch(10, 1, 100));
    assert!(flush_batch(100, 1, 100));
    assert!(flush_batch(0, MAX_BATCH_DOCS, 100));
    assert_eq!(MAX_BATCH_DOCS, 5000);
}

#[test]
fn junk_makes_the_run_exit_three() {
    assert_eq!(run_exit_code(0, 0), 0);
    assert_eq!(run_exit_code(1, 0), EXIT_JUNK);
    assert_eq!(run_exit_code(0, 2), 3);
}

#[test]
fn a_file_shares_its_bytes_among_its_datasets() {
    assert_eq!(dataset_bytes(10, 0), 10);
    assert_eq!(dataset_bytes(10, 3), 3);
    assert!(reports_progress(400, 1));
    assert!(reports_progress(3, 6 << 20));
    assert!(!reports_progress(3, 5 << 20));
}

fn pairs(v: &[(&str, &str)]) -> Vec<(String, String)> {
    v.iter().map(|(a, b)| (a.to_string(), b.to_string())).collect()
}

#[test]
fn changed_keys_with_live_or_stale_records_get_a_replace_start_in_order() {
    let changed = strings(&["k3", "k1", "k2", "k4", "k5"]);
    let done = strings(&["k3", "k9"]);
    let pending = pairs(&[("k1", "g-old"), ("k2", "g2"), ("k5", "g5")]);
    let generations = pairs(&[("k1", "g1"), ("k2", "g2"), ("k3", "g3")]);
    // k3 was done; k1's pending generation is not the wanted one; k5 is
    // pending with no wanted generation; k2's pending one is wanted; k4 is new.
    assert_eq!(replacement_starts(&changed, &done, &pending, &generations), strings(&["k1", "k3", "k5"]));
    assert_eq!(generation_for(&generations, "k1"), "g1");
    assert_eq!(generation_for(&generations, "k5"), "unknown");
}

#[test]
fn every_publication_gets_an_intent_unless_the_same_one_is_pending() {
    let todo = strings(&["b", "a", "c", "a"]);
    let pending = pairs(&[("a", "ga"), ("c", "old")]);
    let generations = pairs(&[("a", "ga"), ("b", "gb"), ("c", "gc")]);
    assert_eq!(publication_intents(&todo, &pending, &generations), strings(&["b", "c"]));
}

#[test]
fn keys_that_may_have_live_records_are_cleaned_first() {
    let done = strings(&["d2", "d1"]);
    let pending = pairs(&[("p1", "g"), ("d1", "g")]);
    let todo = strings(&["t1", "d2"]);
    assert_eq!(cleanup_keys(&done, &pending, false, &todo), strings(&["d1", "d2", "p1"]));
    assert_eq!(cleanup_keys(&done, &pending, true, &todo), strings(&["d1", "d2", "p1", "t1"]));
}
