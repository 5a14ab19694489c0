use viralwatch::sync::SyncEvent;
use viralwatch::sync::SyncRun;
use viralwatch::sync::is_quota_indicative;

#[test]
fn quota_and_permission_errors_trip() {
    assert!(is_quota_indicative("quotaExceeded for key"));
    assert!(is_quota_indicative("HTTP 403 Forbidden"));
    assert!(!is_quota_indicative("connection reset"));
    assert!(!is_quota_indicative(""));
}

#[test]
fn breaker_trips_once_and_skips_the_rest() {
    let mut run = SyncRun::new(4);
    assert!(run.should_dispatch());
    run.record(SyncEvent::Success);
    assert!(run.should_dispatch());
    run.record(SyncEvent::Failure { quota_indicative: true });
    // From the first quota failure on, nothing new is dispatched.
    assert!(!run.should_dispatch());
    // Work already in flight still settles and is counted.
    run.record(SyncEvent::Failure { quota_indicative: false });
    assert!(!run.should_dispatch());
    run.record(SyncEvent::Skipped);
    assert!(!run.should_dispatch());
    assert!(run.is_finished());
}

#[test]
fn ordinary_failures_do_not_trip() {
    let mut run = SyncRun::new(2);
    run.record(SyncEvent::Failure { quota_indicative: false });
    assert!(run.should_dispatch());
    run.record(SyncEvent::Success);
    assert!(run.is_finished());
}

#[test]
fn completion_fires_only_when_all_settled() {
    let mut run = SyncRun::new(2);
    assert!(!run.is_finished());
    run.record(SyncEvent::Success);
    assert!(!run.is_finished());
    run.record(SyncEvent::Success);
    assert!(run.is_finished());
}
