use latte::alternator_error::AlternatorErrorKind;
use latte::executor::extract_validation_args;
use latte::executor::next_page_limit;
use latte::executor::on_failure;
use latte::executor::on_success;
use latte::executor::validate_result;
use latte::executor::ArgValue;
use latte::executor::ExecutorConfig;
use latte::executor::ExecutorState;
use latte::executor::PageOutcome;
use latte::executor::ValidationArgs;

fn config(retry_number: u64, page_size: u64, limit: Option<u64>, paginate: bool) -> ExecutorConfig {
    ExecutorConfig {
        retry_number,
        page_size,
        declared_limit: limit,
        has_pagination: paginate,
    }
}

#[test]
fn executor_retries_transient_failure_then_commits_only_the_success() {
    // configured retry_number=2; the first attempt fails transiently, the
    // second succeeds: count and duration reflect only the successful attempt
    let cfg = config(2, 100, None, true);
    let mut state: ExecutorState<u32, u8> = ExecutorState::new();
    assert_eq!(state.continuation, None);

    assert!(on_failure(&cfg, &mut state).is_ok());
    assert_eq!(state.attempt, 1);
    assert_eq!(state.items.len(), 0);
    assert_eq!(state.total_duration_micros, 0);

    let outcome = on_success(&cfg, &mut state, vec![7, 8, 9], 250, Some(41));
    assert_eq!(outcome, PageOutcome::Continue);
    assert_eq!(state.items, vec![7, 8, 9]);
    assert_eq!(state.total_duration_micros, 250);
    assert_eq!(state.continuation, Some(41));
    // the attempt counter resets to zero upon advancing to a new page
    assert_eq!(state.attempt, 0);

    // a failed attempt keeps the token: the same page is retried
    assert!(on_failure(&cfg, &mut state).is_ok());
    assert_eq!(state.continuation, Some(41));
    assert_eq!(state.items, vec![7, 8, 9]);

    let outcome = on_success(&cfg, &mut state, vec![10], 50, None);
    assert_eq!(outcome, PageOutcome::Finished);
    assert_eq!(state.items, vec![7, 8, 9, 10]);
    assert_eq!(state.total_duration_micros, 300);
    assert_eq!(state.continuation, None);
}

#[test]
fn executor_gives_up_after_the_retry_budget() {
    let cfg = config(2, 100, None, false);
    let mut state: ExecutorState<u32, u8> = ExecutorState::new();
    assert!(on_failure(&cfg, &mut state).is_ok());
    assert!(on_failure(&cfg, &mut state).is_ok());
    let err = on_failure(&cfg, &mut state).unwrap_err();
    match err.0 {
        AlternatorErrorKind::QueryRetriesExceeded(msg) => {
            assert_eq!(msg, "Max retry attempts (2) reached");
        }
        other => panic!("unexpected error kind: {other:?}"),
    }
    // nothing was ever committed
    assert_eq!(state.items.len(), 0);
    assert_eq!(state.total_duration_micros, 0);
}

#[test]
fn executor_respects_a_caller_declared_limit_across_pages() {
    // caller-declared limit=5 with page_size=3 across two pages returns
    // exactly 5 items
    let cfg = config(1, 3, Some(5), true);
    let mut state: ExecutorState<u32, u8> = ExecutorState::new();

    assert_eq!(next_page_limit(&cfg, 0), 3);
    let outcome = on_success(&cfg, &mut state, vec![1, 2, 3], 10, Some(1));
    assert_eq!(outcome, PageOutcome::Continue);

    // the second page is narrowed to what is still missing
    assert_eq!(next_page_limit(&cfg, state.items.len() as u64), 2);
    let outcome = on_success(&cfg, &mut state, vec![4, 5], 10, Some(2));
    // a token came back, but the limit is reached: the operation finishes
    assert_eq!(outcome, PageOutcome::Finished);
    assert_eq!(state.items.len(), 5);
    assert_eq!(state.items, vec![1, 2, 3, 4, 5]);
}

#[test]
fn executor_finishes_without_token_or_without_pagination() {
    let cfg = config(1, 3, None, true);
    let mut state: ExecutorState<u32, u8> = ExecutorState::new();
    assert_eq!(
        on_success(&cfg, &mut state, vec![1], 1, None),
        PageOutcome::Finished
    );

    let cfg = config(1, 3, None, false);
    let mut state: ExecutorState<u32, u8> = ExecutorState::new();
    // even with a continuation token, a non-paginating operation finishes
    assert_eq!(
        on_success(&cfg, &mut state, vec![1], 1, Some(9)),
        PageOutcome::Finished
    );
}

#[test]
fn validation_reports_actual_count_and_bounds() {
    // expected range [10, 10], actual count 8
    let v = ValidationArgs {
        expected_min: 10,
        expected_max: 10,
        custom_err_msg: String::new(),
    };
    let err = validate_result(Some(&v), 8).unwrap_err();
    match err.0 {
        AlternatorErrorKind::ValidationError(msg) => {
            assert_eq!(msg, "expected from 10 to 10 rows, got 8 rows");
        }
        other => panic!("unexpected error kind: {other:?}"),
    }
}

#[test]
fn validation_appends_the_custom_message() {
    let v = ValidationArgs {
        expected_min: 2,
        expected_max: 4,
        custom_err_msg: "partition scan drifted".to_string(),
    };
    let err = validate_result(Some(&v), 7).unwrap_err();
    match err.0 {
        AlternatorErrorKind::ValidationError(msg) => {
            assert_eq!(
                msg,
                "expected from 2 to 4 rows, got 7 rows. partition scan drifted"
            );
        }
        other => panic!("unexpected error kind: {other:?}"),
    }
}

#[test]
fn validation_accepts_counts_inside_the_bounds() {
    let v = ValidationArgs {
        expected_min: 2,
        expected_max: 4,
        custom_err_msg: String::new(),
    };
    assert!(validate_result(Some(&v), 2).is_ok());
    assert!(validate_result(Some(&v), 3).is_ok());
    assert!(validate_result(Some(&v), 4).is_ok());
    assert!(validate_result(Some(&v), 1).is_err());
    assert!(validate_result(Some(&v), 5).is_err());
    assert!(validate_result(None, 12345).is_ok());
}

#[test]
fn extract_validation_args_accepts_the_four_shapes() {
    let v = extract_validation_args(vec![ArgValue::Integer(7)]).unwrap();
    assert_eq!((v.expected_min, v.expected_max), (7, 7));
    assert_eq!(v.custom_err_msg, "");

    let v = extract_validation_args(vec![ArgValue::Integer(1), ArgValue::Integer(5)]).unwrap();
    assert_eq!((v.expected_min, v.expected_max), (1, 5));
    assert_eq!(v.custom_err_msg, "");

    let v = extract_validation_args(vec![
        ArgValue::Integer(3),
        ArgValue::Str("custom".to_string()),
    ])
    .unwrap();
    assert_eq!((v.expected_min, v.expected_max), (3, 3));
    assert_eq!(v.custom_err_msg, "custom");

    let v = extract_validation_args(vec![
        ArgValue::Integer(1),
        ArgValue::Integer(2),
        ArgValue::Str("m".to_string()),
    ])
    .unwrap();
    assert_eq!((v.expected_min, v.expected_max), (1, 2));
    assert_eq!(v.custom_err_msg, "m");
}

#[test]
fn extract_validation_args_rejects_other_shapes() {
    assert_eq!(
        extract_validation_args(vec![]).unwrap_err(),
        "Invalid arguments for validation args"
    );
    assert!(extract_validation_args(vec![ArgValue::Str("x".to_string())]).is_err());
    assert!(extract_validation_args(vec![ArgValue::Other]).is_err());
    assert!(extract_validation_args(vec![
        ArgValue::Str("x".to_string()),
        ArgValue::Integer(1)
    ])
    .is_err());
    assert!(extract_validation_args(vec![
        ArgValue::Integer(1),
        ArgValue::Integer(2),
        ArgValue::Integer(3)
    ])
    .is_err());
    assert!(extract_validation_args(vec![
        ArgValue::Integer(1),
        ArgValue::Integer(2),
        ArgValue::Str("m".to_string()),
        ArgValue::Integer(4)
    ])
    .is_err());
}
