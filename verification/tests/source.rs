use isometric_stanford::source::{
    account_chunk, after_failed_attempt, check_response, finish_copy, retryable_status,
    select_sources, validate_lock, Acquisition, RetryPolicy, RetryStep, SourceError, SourceLock,
    SourceRecord,
};
use std::time::Duration;

fn record(id: &str) -> SourceRecord {
    SourceRecord {
        id: id.into(),
        kind: "test".into(),
        role: "test".into(),
        release: "fixture-v1".into(),
        source_date: "2026-08-17".into(),
        acquired_at: "2026-08-17".into(),
        acquisition: Acquisition::Local {
            path: "fixture".into(),
            filename: "fixture".into(),
        },
        size_bytes: 1,
        sha256: "a".repeat(64),
        license: "CC0-1.0".into(),
        attribution: "fixture".into(),
        metadata_url: "https://example.invalid/fixture".into(),
        approved: true,
        raw_content_in_final_output: false,
    }
}

fn lock(sources: Vec<SourceRecord>) -> SourceLock {
    SourceLock {
        schema: "isometric-source-lock/v1".into(),
        region_id: "stanford-hero-v1".into(),
        sources,
        google_content_permitted: false,
    }
}

fn invalid_message(result: Result<(), SourceError>) -> String {
    match result {
        Err(SourceError::Invalid(message)) => message,
        other => panic!("expected an invalid lock, got {other:?}"),
    }
}

#[test]
fn rejects_google_and_unsorted_sources() {
    let mut lock = lock(vec![record("b"), record("a")]);
    assert!(validate_lock(&lock).is_err());
    lock.sources.sort_by(|left, right| left.id.cmp(&right.id));
    lock.sources[0].acquisition = Acquisition::Https {
        url: "https://maps.googleapis.com/content".into(),
        etag: None,
        filename: "fixture".into(),
    };
    assert!(validate_lock(&lock).is_err());
    lock.sources[0].acquisition = Acquisition::Local {
        path: "fixture".into(),
        filename: "fixture".into(),
    };
    lock.google_content_permitted = true;
    assert!(validate_lock(&lock).is_ok());
}

#[test]
fn production_receive_deadlines_share_one_large_artifact_window() {
    let policy = RetryPolicy::production();

    assert_eq!(Duration::from_millis(policy.connect_timeout_ms), Duration::from_secs(30));
    assert_eq!(Duration::from_millis(policy.response_timeout_ms), Duration::from_secs(300));
    assert_eq!(Duration::from_millis(policy.body_timeout_ms), Duration::from_secs(300));
}

#[test]
fn lock_errors_name_the_offending_source() {
    let mut unapproved = record("a");
    unapproved.approved = false;
    assert_eq!(
        invalid_message(validate_lock(&lock(vec![unapproved]))),
        "source a is not approved"
    );
    assert_eq!(
        invalid_message(validate_lock(&lock(vec![record("b"), record("a")]))),
        "source records must be uniquely sorted by id"
    );
    let mut bad_hash = record("a");
    bad_hash.sha256 = "A".repeat(64);
    assert_eq!(
        invalid_message(validate_lock(&lock(vec![bad_hash]))),
        "source a has an invalid SHA-256"
    );
    assert_eq!(
        invalid_message(validate_lock(&lock(Vec::new()))),
        "source lock must contain at least one approved artifact"
    );
    let mut wrong_schema = lock(vec![record("a")]);
    wrong_schema.schema = "other".into();
    assert_eq!(
        invalid_message(validate_lock(&wrong_schema)),
        "source lock schema must be isometric-source-lock/v1"
    );
}

#[test]
fn acquisition_paths_urls_tags_and_filenames_are_checked() {
    let mut source = record("a");
    source.acquisition = Acquisition::Local {
        path: "input/../secret".into(),
        filename: "fixture".into(),
    };
    assert_eq!(
        invalid_message(validate_lock(&lock(vec![source.clone()]))),
        "source a has an unsafe local path"
    );
    source.acquisition = Acquisition::Local {
        path: "/absolute".into(),
        filename: "fixture".into(),
    };
    assert!(validate_lock(&lock(vec![source.clone()])).is_err());
    source.acquisition = Acquisition::Local {
        path: "a..b/c".into(),
        filename: "fixture".into(),
    };
    assert!(validate_lock(&lock(vec![source.clone()])).is_ok());
    source.acquisition = Acquisition::Https {
        url: "http://example.invalid/x".into(),
        etag: None,
        filename: "fixture".into(),
    };
    assert_eq!(
        invalid_message(validate_lock(&lock(vec![source.clone()]))),
        "source a must use HTTPS"
    );
    source.acquisition = Acquisition::Https {
        url: "https://example.invalid/x".into(),
        etag: Some("unquoted".into()),
        filename: "fixture".into(),
    };
    assert_eq!(
        invalid_message(validate_lock(&lock(vec![source.clone()]))),
        "source a has an invalid HTTPS entity tag"
    );
    source.acquisition = Acquisition::Https {
        url: "https://example.invalid/x".into(),
        etag: Some("\"v1\"".into()),
        filename: "dir/file".into(),
    };
    assert_eq!(
        invalid_message(validate_lock(&lock(vec![source]))),
        "source a has an unsafe filename"
    );
}

#[test]
fn selection_keeps_lock_order_and_rejects_unknown_ids() {
    let lock = lock(vec![record("a"), record("b"), record("c")]);
    assert_eq!(select_sources(&lock, &Vec::new()).expect("all"), vec![0, 1, 2]);
    assert_eq!(
        select_sources(&lock, &vec!["c".to_owned(), "a".to_owned()]).expect("some"),
        vec![0, 2]
    );
    assert!(select_sources(&lock, &vec!["missing".to_owned()]).is_err());
    assert!(select_sources(&lock, &vec!["a".to_owned(), "a".to_owned()]).is_err());
}

#[test]
fn retry_decisions_follow_the_bounded_policy() {
    let policy = RetryPolicy::production();
    assert_eq!(
        after_failed_attempt(policy, 1, true, false, false),
        RetryStep::Retry { discard_partial: true, backoff_ms: 250 }
    );
    assert_eq!(
        after_failed_attempt(policy, 2, true, false, true),
        RetryStep::Retry { discard_partial: false, backoff_ms: 500 }
    );
    assert_eq!(after_failed_attempt(policy, 3, true, false, false), RetryStep::Fail);
    assert_eq!(after_failed_attempt(policy, 1, false, false, false), RetryStep::Fail);
    assert_eq!(after_failed_attempt(policy, 1, false, true, false), RetryStep::Complete);
    assert!(retryable_status(503));
    assert!(!retryable_status(404));
}

#[test]
fn response_checks_enforce_status_tag_and_range() {
    assert!(check_response(200, None, None, None, 0, 10).is_ok());
    let failure = check_response(404, None, None, None, 0, 10).expect_err("404");
    assert_eq!(failure.detail, "expected HTTP 200, received 404");
    assert!(!failure.retryable);
    assert!(check_response(200, Some("\"x\""), None, Some("\"y\""), 0, 10).is_err());
    assert!(check_response(206, None, Some("bytes 4-9/10"), None, 4, 10).is_ok());
    assert_eq!(
        check_response(206, None, Some("bytes 3-9/10"), None, 4, 10)
            .expect_err("bounds")
            .stage,
        "range response bounds"
    );
}

#[test]
fn copy_accounting_enforces_the_locked_length() {
    assert_eq!(account_chunk(3, 4, 10), Ok(7));
    assert_eq!(
        account_chunk(8, 4, 10),
        Err("source exceeded locked length of 10 bytes".to_owned())
    );
    assert_eq!(
        finish_copy(7, 10),
        Err("source length 7 does not match locked length 10".to_owned())
    );
    assert_eq!(finish_copy(10, 10), Ok(()));
}
