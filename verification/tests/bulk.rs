use xerj_autoindex::bulk::{
    after_pass, bulk_operations, check_bulk_body, delete_pass, index_create_accepted,
    require_no_rejections, Attempt, BulkError, BulkOperation, BulkOutcome, PassAction, Retry,
    RetryAction, MAX_ATTEMPTS, MAX_PASSES,
};
use xerj_autoindex::bulk::{record_bulk_outcome, MAX_KEPT_BULK_ERRORS};
use xerj_autoindex::bulk::{parse_cat_indices, response_excerpt, RESPONSE_EXCERPT_LIMIT};

fn against(request: &[u8], response: &[u8]) -> Result<BulkOutcome, String> {
    let expected = bulk_operations(request).map_err(|e| format!("{e:?}"))?;
    check_bulk_body(response, &expected).map_err(|e| match e {
        BulkError::BodyNotJson => e.message(),
        e => format!("{e:?}"),
    })
}

#[test]
fn bulk_response_requires_exact_well_formed_item_accounting() {
    let request = b"{\"index\":{}}\n{}\n".to_vec();
    let cases: &[(&[u8], &str)] = &[
        (b"not-json", "parse bulk response"),
        (br#"{"items":[{"index":{"status":201}}]}"#, "MissingErrorsFlag"),
        (br#"{"errors":false}"#, "MissingItems"),
        (br#"{"errors":false,"items":[]}"#, "ItemCountMismatch(1, 0)"),
        (
            br#"{"errors":false,"items":[{"index":{"status":201}},{"index":{"status":201}}]}"#,
            "ItemCountMismatch(1, 2)",
        ),
        (br#"{"errors":false,"items":["malformed"]}"#, "ItemNotObject(1)"),
        (
            br#"{"errors":false,"items":[{"delete":{"status":200}}]}"#,
            "OperationMismatch(1, Index, \"delete\")",
        ),
        (
            br#"{"errors":false,"items":[{"index":{"result":"created"}}]}"#,
            "ItemMissingStatus(1)",
        ),
        (
            br#"{"errors":true,"items":[{"index":{"status":201}}]}"#,
            "ErrorsFlagMismatch(true, 0)",
        ),
        (
            br#"{"errors":false,"items":[{"index":{"status":400,"error":{"type":"bad"}}}]}"#,
            "ErrorsFlagMismatch(false, 1)",
        ),
    ];
    for (response, expected) in cases {
        let error = against(&request, response).unwrap_err();
        assert!(error.contains(expected), "{expected}: {error}");
    }
}

#[test]
fn bulk_response_matches_mixed_operations_and_accepts_absent_delete() {
    let request = b"{\"index\":{\"_id\":\"a\"}}\n{\"v\":1}\n{\"delete\":{\"_id\":\"b\"}}\n";
    let outcome = against(
        request,
        br#"{"errors":false,"items":[{"index":{"status":201}},{"delete":{"status":404}}]}"#,
    )
    .unwrap();
    assert_eq!(outcome.item_errors, 0);
}

// ---- further cases ----

#[test]
fn a_rejected_item_is_counted_and_reported() {
    let outcome = against(
        b"{\"index\":{}}\n{}\n",
        br#"{"errors":true,"items":[{"index":{"status":400,"error":{"type":"bad"}}}]}"#,
    )
    .unwrap();
    assert_eq!(outcome.item_errors, 1);
    assert_eq!(
        outcome.first_error.as_deref(),
        Some("item 1 index returned status 400: {\"type\":\"bad\"}")
    );
    let refused = require_no_rejections(outcome).unwrap_err();
    assert_eq!(refused.0, 1);
    assert!(refused.1.starts_with("item 1 index returned status 400"));
    let clean = BulkOutcome { item_errors: 0, first_error: None };
    assert_eq!(require_no_rejections(clean.clone()), Ok(clean));
}

#[test]
fn a_null_error_is_no_rejection_and_a_body_that_is_not_json_is_refused() {
    let outcome = against(
        b"{\"index\":{}}\n{}\n",
        br#"{"errors":false,"items":[{"index":{"status":201,"error":null}}]}"#,
    )
    .unwrap();
    assert_eq!(outcome, BulkOutcome { item_errors: 0, first_error: None });
    let expected = bulk_operations(b"{\"index\":{}}\n{}\n").unwrap();
    let refused = check_bulk_body(b"{\"errors\":", &expected).unwrap_err();
    assert_eq!(refused, BulkError::BodyNotJson);
    assert_eq!(refused.message(), "parse bulk response");
}

#[test]
fn a_generated_request_is_checked_before_it_is_sent() {
    assert_eq!(bulk_operations(b"{\"index\":{}}\n{}"), Err(BulkError::NotNewlineTerminated));
    assert_eq!(
        bulk_operations(b"{\"index\":{}}\n"),
        Err(BulkError::MissingSource(BulkOperation::Index, 1))
    );
    assert_eq!(
        bulk_operations(b"{\"upsert\":{}}\n{}\n"),
        Err(BulkError::UnsupportedOperation(1, "upsert".to_string()))
    );
    assert_eq!(bulk_operations(b"[1]\n"), Err(BulkError::ActionNotObject(1)));
    assert_eq!(bulk_operations(b"nope\n"), Err(BulkError::ActionNotJson(1)));
    assert_eq!(
        bulk_operations(b"{\"index\":{},\"create\":{}}\n{}\n"),
        Err(BulkError::NotOneOperation(1))
    );
    assert_eq!(
        bulk_operations(b"{\"delete\":{}}\n\n{\"update\":{}}\n{}\n"),
        Ok(vec![BulkOperation::Delete, BulkOperation::Update])
    );
}

#[test]
fn all_timeout_retries_are_bounded_with_no_final_sleep() {
    let mut r = Retry::new(250, 8000);
    let mut actions = Vec::new();
    for _ in 0..MAX_ATTEMPTS {
        actions.push(r.on_attempt(Attempt::Transport));
    }
    assert_eq!(
        actions,
        vec![
            RetryAction::Sleep(250),
            RetryAction::Sleep(500),
            RetryAction::Sleep(1000),
            RetryAction::Sleep(2000),
            RetryAction::Sleep(4000),
            RetryAction::GiveUp,
        ]
    );
}

#[test]
fn only_throttling_and_server_errors_are_retried() {
    let mut r = Retry::new(1, 2);
    assert_eq!(r.on_attempt(Attempt::Status(200)), RetryAction::Parse);
    assert_eq!(r.on_attempt(Attempt::Status(404)), RetryAction::Parse);
    assert_eq!(r.on_attempt(Attempt::Status(429)), RetryAction::Sleep(1));
    assert_eq!(r.on_attempt(Attempt::Status(503)), RetryAction::Sleep(2));
    assert_eq!(r.on_attempt(Attempt::Status(500)), RetryAction::Sleep(2), "capped");
}

#[test]
fn delete_by_query_repeats_until_a_pass_deletes_nothing() {
    assert_eq!(delete_pass(true, None, Some(7)), Some(7));
    assert_eq!(delete_pass(true, Some(0), None), Some(0));
    assert_eq!(delete_pass(true, Some(2), Some(7)), None);
    assert_eq!(delete_pass(false, None, Some(7)), None);
    assert_eq!(after_pass(1, 0), PassAction::Done);
    assert_eq!(after_pass(1, 10_000), PassAction::Again);
    assert_eq!(after_pass(MAX_PASSES, 5), PassAction::Refuse);
}

#[test]
fn an_existing_index_is_not_an_error() {
    assert!(index_create_accepted(200, ""));
    assert!(index_create_accepted(400, "{\"type\":\"resource_already_exists_exception\"}"));
    assert!(index_create_accepted(400, "index exists"));
    assert!(!index_create_accepted(500, "index exists"));
    assert!(!index_create_accepted(400, "bad mapping"));
}

#[test]
fn a_failed_send_stops_the_file_and_keeps_its_error() {
    let (mut junk, mut errors, mut send_err) = (3u64, vec![], None);
    let stop = record_bulk_outcome(Err("connection refused".to_string()), &mut junk, &mut errors, &mut send_err);
    assert!(stop);
    assert_eq!(send_err.as_deref(), Some("connection refused"));
    assert_eq!(junk, 3);
    assert!(errors.is_empty());
}

#[test]
fn rejected_items_count_as_junk_and_at_most_five_reports_are_kept() {
    let (mut junk, mut errors, mut send_err) = (0u64, vec![], None);
    for n in 0..7u64 {
        let outcome = BulkOutcome { item_errors: 2, first_error: Some(format!("reject {n}")) };
        assert!(!record_bulk_outcome(Ok(outcome), &mut junk, &mut errors, &mut send_err));
    }
    assert_eq!(junk, 14);
    assert_eq!(errors.len(), MAX_KEPT_BULK_ERRORS);
    assert_eq!(errors[0], "reject 0");
    assert!(send_err.is_none());
    // A clean send changes nothing.
    let clean = BulkOutcome { item_errors: 0, first_error: Some("ignored".to_string()) };
    assert!(!record_bulk_outcome(Ok(clean), &mut junk, &mut errors, &mut send_err));
    assert_eq!(junk, 14);
}

#[test]
fn cat_indices_lists_user_indices_with_their_counts() {
    let text = "green open logs-2024 abc123 1 1 1500 0 2mb\n\
                yellow open .xerj_meta u1 1 1 3 0 1kb\n\
                green open short\n\
                bad line\n\
                green  open\tweird u2 1 1 x y +42 z\r\n\
                green open huge u3 1 1 99999999999999999999 0 7\n";
    let rows = parse_cat_indices(text);
    assert_eq!(
        rows,
        vec![
            ("logs-2024".to_string(), 1500),
            ("short".to_string(), 0),
            ("weird".to_string(), 42),
            ("huge".to_string(), 0),
        ]
    );
    assert!(parse_cat_indices("").is_empty());
}

#[test]
fn bulk_refusals_read_as_sentences() {
    assert_eq!(BulkError::NotNewlineTerminated.message(), "generated bulk request is not newline terminated");
    assert_eq!(
        BulkError::UnsupportedOperation(3, "upsert".to_string()).message(),
        "generated bulk action line 3 uses unsupported operation upsert"
    );
    assert_eq!(
        BulkError::MissingSource(BulkOperation::Index, 2).message(),
        "generated bulk index action 2 is missing its source line"
    );
    assert_eq!(
        BulkError::ItemCountMismatch(2, 1).message(),
        "bulk response item count mismatch: sent 2 action(s), received 1 item(s)"
    );
    assert_eq!(
        BulkError::OperationMismatch(1, BulkOperation::Create, "index".to_string()).message(),
        "bulk response item 1 operation mismatch: sent create, received index"
    );
    assert_eq!(
        BulkError::ErrorsFlagMismatch(true, 0).message(),
        "bulk response `errors` flag (true) disagrees with 0 rejected item(s)"
    );
}

#[test]
fn a_refused_response_is_quoted_with_its_words_squeezed() {
    assert_eq!(response_excerpt(b"  {\"error\":\n\t\"too   many\"}\r\n "), "{\"error\": \"too many\"}");
    assert_eq!(response_excerpt(b"bad \xff byte"), "bad \u{fffd} byte");
    assert_eq!(response_excerpt(b" \n "), "");
    assert_eq!(response_excerpt("no\u{a0}break".as_bytes()), "no break");
    assert_eq!(RESPONSE_EXCERPT_LIMIT, 4096);
}
