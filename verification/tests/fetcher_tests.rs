use seqfetch::{run_fetch, ConfigError, FetchOutcome, FetchRun, TerminationSignal};

fn found(payload: &str) -> FetchOutcome {
    FetchOutcome::Found(payload.as_bytes().to_vec())
}

#[test]
fn three_files_then_absent() {
    // Resources 1, 2, 3 present with payloads "a", "b", "c"; resource 4 absent.
    let source = vec![found("a"), found("b"), found("c"), FetchOutcome::NotFound];
    let out = run_fetch(source, 2).unwrap();
    assert_eq!(out.artifact, b"abc".to_vec());
    assert_eq!(out.boundary, 4);
    assert_eq!(out.cached, vec![1, 2, 3]);
    assert!(out.cached.iter().all(|&i| i < 4));
    assert!(out.transients.is_empty());
}

#[test]
fn empty_source_spawns_one_worker() {
    // The very first resource is absent: empty artifact, exactly one worker.
    let out = run_fetch(Vec::new(), 4).unwrap();
    assert!(out.artifact.is_empty());
    assert_eq!(out.boundary, 1);
    assert_eq!(out.spawned, 1);
    assert!(out.cached.is_empty());
    assert!(out.transients.is_empty());
}

#[test]
fn empty_source_ends_with_signal_set() {
    let mut run = FetchRun::new(Vec::new(), 1).unwrap();
    assert!(!run.observe_signal());
    run.spawn();
    run.complete(0);
    assert!(run.observe_signal());
    let out = run.finish();
    assert!(out.artifact.is_empty());
    assert_eq!(out.boundary, 1);
}

#[test]
fn transient_failure_is_reported_not_terminating() {
    // Resource 2 fails transiently; the run continues to 3 and stops at 4.
    let source = vec![
        found("a"),
        FetchOutcome::TransientFailure,
        found("c"),
        FetchOutcome::NotFound,
    ];
    let out = run_fetch(source, 2).unwrap();
    assert_eq!(out.artifact, b"ac".to_vec());
    assert_eq!(out.boundary, 4);
    assert_eq!(out.transients, vec![2]);
    assert_eq!(out.cached, vec![1, 3]);
}

#[test]
fn zero_concurrency_is_a_configuration_error() {
    let err = run_fetch(vec![found("a")], 0).unwrap_err();
    assert!(matches!(err, ConfigError::ZeroMaxConcurrency));
}

#[test]
fn out_of_order_completion_keeps_index_order() {
    // Three workers in flight at once; they complete in the order 3, 1, 2,
    // yet the artifact is ordered by index.
    let source = vec![found("x"), found("y"), FetchOutcome::NotFound];
    let mut run = FetchRun::new(source, 3).unwrap();
    run.spawn(); // worker 1
    run.spawn(); // worker 2
    run.spawn(); // worker 3
    assert_eq!(run.in_flight_count(), 3);
    run.complete(2); // 3 finishes first: absent, triggers the signal
    assert!(run.observe_signal());
    run.spawn(); // the driver races one more spawn; the worker skips
    assert_eq!(run.in_flight_count(), 2);
    run.complete(0); // 1 finishes
    run.complete(0); // 2 finishes last, after the boundary was recorded
    let out = run.finish();
    assert_eq!(out.artifact, b"xy".to_vec());
    assert_eq!(out.boundary, 3);
    assert_eq!(out.spawned, 4);
}

#[test]
fn late_found_beyond_boundary_is_excluded() {
    // Resource 2 is absent but resource 3 exists and its worker completes
    // before 2's: the payload of 3 is cached, yet kept out of the artifact.
    let source = vec![found("a"), FetchOutcome::NotFound, found("c")];
    let mut run = FetchRun::new(source, 3).unwrap();
    run.spawn();
    run.spawn();
    run.spawn();
    run.complete(0); // 1: present
    run.complete(1); // 3: present, completes before 2
    run.complete(0); // 2: absent, records the boundary
    let out = run.finish();
    assert_eq!(out.artifact, b"a".to_vec());
    assert_eq!(out.boundary, 2);
    assert!(out.cached.contains(&3));
}

#[test]
fn limiter_bounds_in_flight_workers() {
    let source = vec![found("a"), found("b"), FetchOutcome::NotFound];
    let mut run = FetchRun::new(source, 2).unwrap();
    run.spawn();
    run.spawn();
    assert!(!run.can_spawn());
    assert_eq!(run.in_flight_count(), 2);
    run.complete(0);
    assert!(run.can_spawn());
    run.spawn();
    assert_eq!(run.in_flight_count(), 2);
    run.complete(0);
    run.complete(0);
    assert!(run.observe_signal());
    let out = run.finish();
    assert_eq!(out.artifact, b"ab".to_vec());
}

#[test]
fn termination_signal_trigger_is_idempotent() {
    let mut signal = TerminationSignal::new();
    assert!(!signal.observe());
    signal.trigger();
    assert!(signal.observe());
    signal.trigger();
    signal.trigger();
    assert!(signal.observe());
}
