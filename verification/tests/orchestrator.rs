use deckt::batch::{run_batch_with_scripts, BatchConfig, Orchestrator};

fn quick_config(max_concurrent: usize, min_spacing_ms: u64) -> BatchConfig {
    BatchConfig {
        max_attempts: 3,
        min_spacing_ms,
        max_concurrent,
        backoff_ms: vec![10, 20],
    }
}

#[test]
fn test_results_match_input_order() {
    // four descriptors, completions delivered in reverse order:
    // slot i still holds descriptor i's value
    let mut o: Orchestrator<u32> = Orchestrator::new(4, quick_config(4, 0));
    let mut now: u64 = 0;
    for expect in 0..4usize {
        assert!(o.can_admit(now));
        let idx = o.admit_next(now);
        assert_eq!(idx, expect);
        now += 1;
    }
    // completions arrive last-admitted first
    o.deliver_success(3, 103);
    o.deliver_success(2, 102);
    o.deliver_success(1, 101);
    o.deliver_success(0, 100);
    assert!(o.is_complete());
    let results = o.into_results();
    assert_eq!(results.len(), 4);
    assert_eq!(results, vec![Some(100), Some(101), Some(102), Some(103)]);
}

#[test]
fn test_admission_pacing() {
    // spacing of 100 ms and instant answers: successive admissions still
    // sit at least 100 ms apart
    let mut o: Orchestrator<u32> = Orchestrator::new(10, quick_config(10, 100));
    let mut now: u64 = 0;
    while !o.is_complete() {
        if o.can_admit(now) {
            let idx = o.admit_next(now);
            // the fake service answers instantly
            o.deliver_success(idx, idx as u32);
        } else {
            now += 1;
        }
    }
    let times = &o.admission_times;
    assert_eq!(times.len(), 10);
    for k in 0..times.len() - 1 {
        assert!(times[k + 1] - times[k] >= 100);
    }
    assert_eq!(o.admission_times, vec![0, 100, 200, 300, 400, 500, 600, 700, 800, 900]);
}

#[test]
fn test_concurrency_cap_blocks_admission() {
    // two slots: the third descriptor may not start while both are out,
    // even though the pacing interval has long passed
    let mut o: Orchestrator<u32> = Orchestrator::new(3, quick_config(2, 0));
    o.admit_next(0);
    o.admit_next(0);
    assert!(!o.can_admit(1_000_000));
    o.deliver_success(0, 1);
    assert!(o.can_admit(1_000_000));
    o.admit_next(1_000_000);
    o.deliver_success(1, 2);
    o.deliver_success(2, 3);
    assert!(o.is_complete());
}

#[test]
fn test_pacing_blocks_admission() {
    let mut o: Orchestrator<u32> = Orchestrator::new(2, quick_config(2, 100));
    o.admit_next(5);
    assert!(!o.can_admit(104));
    assert!(o.can_admit(105));
}

#[test]
fn test_failed_slot_stays_absent() {
    // a descriptor that fails its whole budget leaves an empty slot and
    // never blocks its siblings
    let mut o: Orchestrator<u32> = Orchestrator::new(2, quick_config(2, 0));
    o.admit_next(0);
    o.admit_next(0);
    let mut now: u64 = 0;
    // slot 0 fails all three attempts
    o.deliver_failure(0, now);
    now = 10;
    o.resume(0, now);
    o.deliver_failure(0, now);
    now = 30;
    o.resume(0, now);
    o.deliver_failure(0, now);
    // slot 1 succeeds
    o.deliver_success(1, 7);
    assert!(o.is_complete());
    let results = o.into_results();
    assert_eq!(results, vec![None, Some(7)]);
}

#[test]
fn test_default_config() {
    let c = BatchConfig::default();
    assert_eq!(c.max_attempts, 5);
    assert_eq!(c.min_spacing_ms, 1500);
    assert_eq!(c.max_concurrent, 5);
    assert_eq!(c.backoff_ms, vec![1200, 3000, 6000, 9000]);
}

#[test]
fn test_scripted_batch_run() {
    // each descriptor resolves as its own script dictates, in its own slot
    let config = BatchConfig {
        max_attempts: 3,
        min_spacing_ms: 5,
        max_concurrent: 2,
        backoff_ms: vec![1],
    };
    let scripts: Vec<Vec<Option<u32>>> = vec![
        vec![Some(10), None, None],
        vec![None, Some(20), None],
        vec![None, None, None],
        vec![None, None, Some(40)],
    ];
    let results = run_batch_with_scripts(config, scripts);
    assert_eq!(results, vec![Some(10), Some(20), None, Some(40)]);
}
