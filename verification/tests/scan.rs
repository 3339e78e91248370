use xerj_autoindex::scan::{
    keep_reading, no_records_reason, sample_limit, samples_record, scan_verdict, GB,
    SAMPLE_LIMIT_BYTES, SQLDUMP_SAMPLE_LIMIT,
};
use xerj_autoindex::sniff::{sniff_head, Family};

#[test]
fn binary_content_is_junk_with_its_kind() {
    let png = sniff_head(b"\x89PNG\r\n\x1a\n", false, false).unwrap();
    assert_eq!(
        scan_verdict(&png, 10, 2),
        Some(("junk".to_string(), "binary content (png)".to_string()))
    );
}

#[test]
fn only_whole_file_families_are_capped_in_size() {
    let pdf = sniff_head(b"%PDF-1.7", false, false).unwrap();
    assert_eq!(scan_verdict(&pdf, 2 * GB, 2), None, "exactly at the cap is fine");
    assert_eq!(
        scan_verdict(&pdf, 2 * GB + 1, 2),
        Some((
            "skipped".to_string(),
            "oversized for non-streaming family pdf (> 2 GB)".to_string()
        ))
    );
    let sqlite = sniff_head(b"SQLite format 3\x00", false, false).unwrap();
    assert_eq!(scan_verdict(&sqlite, 100 * GB, 2), None, "SQLite streams");
}

#[test]
fn sample_limits_follow_the_family() {
    assert_eq!(sample_limit(Family::SqlDump), Some(SQLDUMP_SAMPLE_LIMIT));
    assert_eq!(sample_limit(Family::Csv), Some(SAMPLE_LIMIT_BYTES));
    assert_eq!(sample_limit(Family::Sqlite), Some(1));
    assert_eq!(sample_limit(Family::Pdf), None);
}

#[test]
fn grouped_families_read_on_past_a_full_sample() {
    assert!(samples_record(4, 5) && !samples_record(5, 5));
    assert!(keep_reading(Family::Sqlite, 500, 5));
    assert!(!keep_reading(Family::Csv, 5, 5));
    assert!(keep_reading(Family::Csv, 4, 5));
}

#[test]
fn an_empty_extraction_says_why() {
    assert_eq!(
        no_records_reason(Family::Json, Ok(7)),
        "no records extracted (json candidate family, 7 junk lines)"
    );
    assert_eq!(no_records_reason(Family::Csv, Err("bad utf".to_string())), "extract failed: bad utf");
}

#[test]
fn an_unreadable_file_is_junk_and_nothing_is_sniffed() {
    assert_eq!(
        xerj_autoindex::scan::file_verdict(Err("Permission denied (os error 13)"), 10, 2),
        Some(("junk".to_string(), "unreadable: Permission denied (os error 13)".to_string()))
    );
    let png = sniff_head(b"\x89PNG\r\n\x1a\n", false, false).unwrap();
    assert_eq!(
        xerj_autoindex::scan::file_verdict(Ok(&png), 10, 2),
        Some(("junk".to_string(), "binary content (png)".to_string()))
    );
}
