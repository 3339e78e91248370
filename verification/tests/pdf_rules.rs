use xerj_autoindex::pdf::{
    configure_workers, normalize_legacy_symbol_glyphs, timeout_seconds, validate_text_quality,
    ExtractionSpoolBudget, QualityError, WorkerGate,
};

#[test]
fn quality_gate_accepts_financial_and_international_text() {
    validate_text_quality("Consolidated revenue — Q4 2025\n€1,234.5 million (增长率 12%; прибыль 8%).")
        .unwrap();
}

#[test]
fn quality_gate_rejects_binary_and_font_garbage() {
    let garbage = "abc\u{0000}\u{0001}\u{fffd}\u{e123}\u{0002}xyz";
    assert!(validate_text_quality(garbage).is_err());
}

#[test]
fn quality_gate_rejects_operator_noise() {
    assert!(validate_text_quality("//// <<>> [] () -- === +++").is_err());
}

#[test]
fn known_legacy_symbol_glyphs_are_normalized_but_unknown_pua_is_rejected() {
    let normalized =
        normalize_legacy_symbol_glyphs("Yes \u{f078} No \u{f0a8}\n\u{f0b7} Revenue\nrisk\u{f02d}adjusted");
    assert_eq!(normalized, "Yes □ No □\n• Revenue\nrisk-adjusted");
    validate_text_quality(&normalized).unwrap();
    assert!(validate_text_quality("Revenue \u{e123} remains unknown").is_err());
}

#[test]
fn each_refusal_names_its_reason() {
    assert_eq!(validate_text_quality("short"), Err(QualityError::TooLittleText));
    assert_eq!(
        validate_text_quality("abc\u{0000}\u{0001}\u{fffd}\u{e123}\u{0002}xyz"),
        Err(QualityError::BrokenGlyphs)
    );
    assert_eq!(
        validate_text_quality("//// <<>> [] () -- === +++"),
        Err(QualityError::TooFewLettersOrNumbers)
    );
    assert!(QualityError::BrokenGlyphs.message().contains("0.5%"));
}

#[test]
fn spool_budget_accepts_exact_limit_and_rejects_limit_plus_one() {
    let mut budget = ExtractionSpoolBudget::new(1024, 2);
    let exact = budget.try_reserve(1024).expect("exact limit must fit");
    assert!(budget.try_reserve(1).is_none());
    budget.release(exact);
    assert!(budget.try_reserve(1025).is_none());
    assert!(budget.try_reserve(1024).is_some());
}

#[test]
fn spool_budget_is_atomic_and_refunded_on_physical_drop() {
    let mut budget = ExtractionSpoolBudget::new(100, 2);
    let mut first = budget.try_reserve(80).unwrap();
    assert!(budget.try_reserve(21).is_none());
    budget.shrink_to(&mut first, 40);
    let second = budget.try_reserve(60).unwrap();
    assert!(budget.try_reserve(1).is_none());
    budget.release(second);
    assert!(budget.try_reserve(60).is_some());

    let mut count_budget = ExtractionSpoolBudget::new(1_000, 1);
    let only = count_budget.try_reserve(1).unwrap();
    assert!(count_budget.try_reserve(1).is_none());
    count_budget.release(only);
    assert!(count_budget.try_reserve(1).is_some());
}

#[test]
fn the_worker_gate_clamps_and_counts() {
    let mut gate = WorkerGate::new(64);
    for _ in 0..4 {
        assert!(gate.can_acquire());
        gate.acquire();
    }
    assert!(!gate.can_acquire());
    gate.release();
    assert!(gate.can_acquire());
    configure_workers(&mut gate, 0);
    assert!(!gate.can_acquire());
    assert_eq!(timeout_seconds(0), 1);
    assert_eq!(timeout_seconds(120), 120);
    assert_eq!(timeout_seconds(100_000), 3600);
}

// ---- document and page rules ----

use xerj_autoindex::pdf::{
    check_page_count, check_size, pdf_title, PdfError, PdfPages, MAX_PAGES, PDF_CAP,
};
use xerj_autoindex::pdf::{spool_digest_check, spool_generation_check, spool_length_check, validate_response_identity, worker_verdict, SpoolError};

#[test]
fn the_document_limits_are_inclusive() {
    assert_eq!(check_size(PDF_CAP), Ok(()));
    assert_eq!(check_size(PDF_CAP + 1), Err(PdfError::TooLarge(PDF_CAP + 1)));
    assert_eq!(check_page_count(0), Err(PdfError::NoPages));
    assert_eq!(check_page_count(MAX_PAGES), Ok(()));
    assert_eq!(check_page_count(MAX_PAGES + 1), Err(PdfError::TooManyPages(MAX_PAGES + 1)));
}

#[test]
fn pages_are_failed_omitted_or_accepted() {
    let mut pages = PdfPages::new();
    assert_eq!(pages.page(1, Err("bad xref".to_string())), Ok(None));
    assert_eq!(pages.failed, vec!["1 (bad xref)".to_string()]);
    assert_eq!(pages.page(2, Ok("   \n ".to_string())), Ok(None));
    assert_eq!(pages.page(3, Ok("  a b c  ".to_string())), Ok(None), "under 8 non-space characters");
    assert_eq!(pages.omitted, vec![2, 3]);
    let body = pages.page(4, Ok("  Revenue grew by 12% in the quarter.  ".to_string())).unwrap();
    assert_eq!(body.as_deref(), Some("Revenue grew by 12% in the quarter."));
    assert_eq!(pages.with_text, 1);
    assert_eq!(pages.extracted, "Revenue grew by 12% in the quarter.".len());
    assert_eq!(pages.verdict(4, true), Err(PdfError::SomePagesFailed(1, 4)));
}

#[test]
fn the_page_verdict_distinguishes_scans_from_failures() {
    let pages = PdfPages::new();
    assert_eq!(pages.verdict(3, false), Err(PdfError::NoText));
    assert_eq!(pages.verdict(3, true), Ok(()));
    let mut failed = PdfPages::new();
    failed.page(1, Err("x".to_string())).unwrap();
    assert_eq!(failed.verdict(1, false), Err(PdfError::EveryPageFailed));
}

#[test]
fn garbage_page_text_refuses_the_document() {
    let mut pages = PdfPages::new();
    let garbage = "\u{1}\u{2}\u{3}\u{4}\u{5}\u{6}\u{7}\u{8}abcdefgh".to_string();
    assert!(matches!(pages.page(5, Ok(garbage)), Err(PdfError::Untrusted(5, _))));
}

#[test]
fn legacy_bullets_are_normalized_before_the_page_is_judged() {
    let mut pages = PdfPages::new();
    let body = pages.page(1, Ok("\u{f0b7} first item of the list".to_string())).unwrap();
    assert_eq!(body.as_deref(), Some("• first item of the list"));
}

#[test]
fn the_ocr_warning_names_the_first_eight_omitted_pages() {
    let mut pages = PdfPages::new();
    assert_eq!(pages.ocr_warning(), None);
    for p in 1..=10 {
        pages.page(p, Ok(String::new())).unwrap();
    }
    assert_eq!(
        pages.ocr_warning().as_deref(),
        Some("10 page(s) had no usable text (first: 1, 2, 3, 4, 5, 6, 7, 8); intentional blanks or scanned pages may need OCR")
    );
}

#[test]
fn a_blank_stem_titles_the_pdf_untitled() {
    assert_eq!(pdf_title(Some("report")), "report");
    assert_eq!(pdf_title(Some("  ")), "untitled");
    assert_eq!(pdf_title(None), "untitled");
}

#[test]
fn worker_replies_from_another_build_are_refused() {
    let ok = validate_response_identity(1, "xerj-autoindex/1.0", "pdf_oxide/0.3", "xerj-autoindex/1.0", "pdf_oxide/0.3");
    assert!(ok.is_ok());
    let schema = validate_response_identity(2, "xerj-autoindex/1.0", "pdf_oxide/0.3", "xerj-autoindex/1.0", "pdf_oxide/0.3");
    assert_eq!(schema.unwrap_err(), "PDF parser returned unsupported extraction schema 2; update parent and worker together");
    let extractor = validate_response_identity(1, "xerj-autoindex/0.9", "pdf_oxide/0.3", "xerj-autoindex/1.0", "pdf_oxide/0.3");
    assert_eq!(
        extractor.unwrap_err(),
        "PDF extractor version mismatch: expected xerj-autoindex/1.0, worker reported xerj-autoindex/0.9; update parent and worker together"
    );
    let parser = validate_response_identity(1, "xerj-autoindex/1.0", "pdf_oxide/0.2", "xerj-autoindex/1.0", "pdf_oxide/0.3");
    assert!(parser.unwrap_err().starts_with("PDF parser version mismatch: expected pdf_oxide/0.3, worker reported pdf_oxide/0.2"));
}

#[test]
fn a_finished_worker_is_judged_by_its_limits_then_its_status() {
    assert!(worker_verdict(false, false, "", true, "a.pdf").is_ok());
    assert_eq!(
        worker_verdict(true, true, "noise", false, "a.pdf").unwrap_err(),
        "PDF parser output exceeded the 32 MiB parent-memory safety limit for a.pdf; split the document before indexing"
    );
    assert!(worker_verdict(false, true, "noise", true, "a.pdf")
        .unwrap_err()
        .ends_with("its truncated diagnostic is: noise"));
    assert_eq!(
        worker_verdict(false, false, "  bad xref \n", false, "a.pdf").unwrap_err(),
        "isolated PDF parser failed for a.pdf: bad xref; verify/decrypt the PDF, repair it, or run OCR for image-only input"
    );
    assert_eq!(
        worker_verdict(false, false, " \n", false, "a.pdf").unwrap_err(),
        "isolated PDF parser failed for a.pdf; verify/decrypt the PDF, repair it, or run OCR for image-only input"
    );
}

#[test]
fn a_retained_extraction_is_replayed_only_for_its_own_intact_generation() {
    assert_eq!(spool_generation_check(10, "d1", 10, "d1"), Ok(()));
    assert_eq!(spool_generation_check(10, "d1", 11, "d1"), Err(SpoolError::OtherGeneration));
    assert_eq!(spool_generation_check(10, "d1", 10, "d2"), Err(SpoolError::OtherGeneration));
    assert_eq!(spool_length_check(100, 100), Ok(()));
    let e = spool_length_check(100, 8).unwrap_err();
    assert_eq!(e.message(), "PDF extraction spool length changed (expected 100, found 8); retry extraction");
    assert_eq!(spool_digest_check(7, 7), Ok(()));
    assert_eq!(spool_digest_check(7, 8).unwrap_err().message(), "PDF extraction spool content changed; retry extraction");
    assert!(SpoolError::OtherGeneration.message().starts_with("PDF extraction spool belongs to a different source generation"));
}

#[test]
fn a_full_budget_says_which_limits_it_holds() {
    let budget = ExtractionSpoolBudget::new(512 << 20, 64);
    assert_eq!(budget.full_message(), "the run-local extraction budget is full (512 MiB or 64 artifacts)");
}
