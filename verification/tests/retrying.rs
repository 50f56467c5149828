use deckt::retry::{run_with_script, RetryFetcher, RetryPhase};

#[test]
fn test_retry_success_after_failures() {
    // two failures, then a success, within a budget of five:
    // the success value comes back after exactly three attempts
    let script: Vec<Option<u32>> = vec![None, None, Some(7), Some(9), None];
    let (outcome, attempts) = run_with_script(5, vec![10, 20, 30], script, 0);
    assert_eq!(outcome, Some(7));
    assert_eq!(attempts, 3);
}

#[test]
fn test_retry_exhausted_budget() {
    // every attempt in the budget fails: no value, exactly max attempts
    let script: Vec<Option<u32>> = vec![None, None, None, None, None];
    let (outcome, attempts) = run_with_script(5, vec![10, 20], script, 0);
    assert_eq!(outcome, None);
    assert_eq!(attempts, 5);
}

#[test]
fn test_retry_stops_at_budget() {
    // a success sits beyond the budget: it is never consulted
    let script: Vec<Option<u32>> = vec![None, None, None, Some(99), Some(100)];
    let (outcome, attempts) = run_with_script(3, vec![1], script, 0);
    assert_eq!(outcome, None);
    assert_eq!(attempts, 3);
}

#[test]
fn test_retry_immediate_success() {
    let script: Vec<Option<u32>> = vec![Some(42), None, None];
    let (outcome, attempts) = run_with_script(3, vec![1], script, 0);
    assert_eq!(outcome, Some(42));
    assert_eq!(attempts, 1);
}

#[test]
fn test_fetcher_steps() {
    let mut f: RetryFetcher<u32> = RetryFetcher::start(3, vec![100, 200]);
    assert_eq!(f.attempts, 1);
    assert!(!f.is_done());

    // first failure at t=0: back off for the first schedule entry
    f.on_failure(0);
    assert!(!f.is_done());
    assert!(matches!(f.phase, RetryPhase::Backoff { resume_at: 100 }));
    f.begin_retry(100);
    assert_eq!(f.attempts, 2);

    // second failure at t=100: the second schedule entry applies
    f.on_failure(100);
    assert!(matches!(f.phase, RetryPhase::Backoff { resume_at: 300 }));
    f.begin_retry(300);
    assert_eq!(f.attempts, 3);

    // the third attempt succeeds: done, with the value, no extra attempt
    f.on_success(11);
    assert!(f.is_done());
    assert_eq!(f.attempts, 3);
    assert_eq!(f.into_outcome(), Some(11));
}

#[test]
fn test_fetcher_backoff_clamps_to_last_entry() {
    let mut f: RetryFetcher<u32> = RetryFetcher::start(4, vec![50]);
    f.on_failure(0);
    assert!(matches!(f.phase, RetryPhase::Backoff { resume_at: 50 }));
    f.begin_retry(50);
    f.on_failure(50);
    // past the schedule's end the last entry applies
    assert!(matches!(f.phase, RetryPhase::Backoff { resume_at: 100 }));
    f.begin_retry(100);
    f.on_failure(100);
    assert!(matches!(f.phase, RetryPhase::Backoff { resume_at: 150 }));
    f.begin_retry(150);
    f.on_failure(150);
    // the budget of four is spent
    assert!(f.is_done());
    assert_eq!(f.attempts, 4);
    assert_eq!(f.into_outcome(), None);
}
