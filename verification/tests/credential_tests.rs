use viralwatch::credential::AcquireError;
use viralwatch::credential::Credential;
use viralwatch::credential::CredentialPool;
use viralwatch::credential::day_index;
use viralwatch::credential::displayed_usage;

fn cred(id: i64, key: &str, active: bool, last_used: i64) -> Credential {
    Credential {
        id,
        key: key.to_string(),
        is_active: active,
        is_quota_exhausted: false,
        last_error: None,
        usage_today: 0,
        last_used,
    }
}

#[test]
fn acquire_picks_least_recently_used_active() {
    let mut pool = CredentialPool {
        creds: vec![
            cred(1, "alpha", true, 300),
            cred(2, "beta", false, 10),
            cred(3, "gamma", true, 100),
        ],
    };
    let picked = pool.acquire(&vec![], 1000).unwrap();
    assert_eq!(picked, 2);
    assert_eq!(pool.creds[2].last_used, 1000);
}

#[test]
fn acquire_never_returns_inactive_or_excluded() {
    let mut pool = CredentialPool {
        creds: vec![
            cred(1, "alpha", false, 0),
            cred(2, "beta", true, 50),
            cred(3, "gamma", true, 20),
        ],
    };
    let picked = pool.acquire(&vec!["gamma".to_string()], 1000).unwrap();
    assert!(pool.creds[picked].is_active);
    assert_eq!(pool.creds[picked].key, "beta");
}

#[test]
fn repeated_acquires_visit_all_before_repeating() {
    let mut pool = CredentialPool {
        creds: vec![
            cred(1, "alpha", true, 3),
            cred(2, "beta", true, 1),
            cred(3, "gamma", true, 2),
        ],
    };
    let a = pool.acquire(&vec![], 100).unwrap();
    let b = pool.acquire(&vec![], 101).unwrap();
    let c = pool.acquire(&vec![], 102).unwrap();
    // Ascending original last-used order: beta, gamma, alpha.
    assert_eq!((a, b, c), (1, 2, 0));
    // Only after all three does the rotation wrap around.
    let d = pool.acquire(&vec![], 103).unwrap();
    assert_eq!(d, 1);
}

#[test]
fn acquire_distinguishes_the_two_failures() {
    let mut empty = CredentialPool { creds: vec![cred(1, "alpha", false, 0)] };
    assert_eq!(empty.acquire(&vec![], 10), Err(AcquireError::NoneConfigured));

    let mut excluded = CredentialPool { creds: vec![cred(1, "alpha", true, 0)] };
    assert_eq!(
        excluded.acquire(&vec!["alpha".to_string()], 10),
        Err(AcquireError::AllExcluded)
    );
}

#[test]
fn new_day_resets_usage_to_exactly_the_increment() {
    let mut pool = CredentialPool { creds: vec![cred(1, "alpha", true, 0)] };
    pool.creds[0].usage_today = 500;
    pool.creds[0].is_quota_exhausted = true;
    pool.creds[0].last_error = Some("quota".to_string());
    // Two days later on the reference calendar.
    let two_days = 2 * 86400 + 30000;
    pool.record_usage(&"alpha".to_string(), 7, two_days);
    assert_eq!(pool.creds[0].usage_today, 7);
    assert!(!pool.creds[0].is_quota_exhausted);
    assert!(pool.creds[0].last_error.is_none());
    assert_eq!(pool.creds[0].last_used, two_days);
}

#[test]
fn same_day_accumulates_usage() {
    let mut pool = CredentialPool { creds: vec![cred(1, "alpha", true, 50000)] };
    pool.creds[0].usage_today = 100;
    pool.record_usage(&"alpha".to_string(), 7, 51000);
    assert_eq!(pool.creds[0].usage_today, 107);
}

#[test]
fn unknown_key_is_a_no_op() {
    let mut pool = CredentialPool { creds: vec![cred(1, "alpha", true, 50000)] };
    pool.record_usage(&"missing".to_string(), 7, 51000);
    assert_eq!(pool.creds[0].usage_today, 0);
    assert_eq!(pool.creds[0].last_used, 50000);
}

#[test]
fn mark_exhausted_sets_flag_and_reason_only() {
    let mut pool = CredentialPool {
        creds: vec![cred(1, "alpha", true, 11), cred(2, "beta", true, 22)],
    };
    pool.mark_exhausted(&"alpha".to_string(), "quota exceeded");
    assert!(pool.creds[0].is_quota_exhausted);
    assert_eq!(pool.creds[0].last_error.as_deref(), Some("quota exceeded"));
    assert_eq!(pool.creds[0].last_used, 11);
    assert!(!pool.creds[1].is_quota_exhausted);
}

#[test]
fn day_index_shifts_by_the_reference_offset() {
    // Just before and after the shifted midnight.
    assert_eq!(day_index(28799), -1);
    assert_eq!(day_index(28800), 0);
    assert_eq!(day_index(28800 + 86400 - 1), 0);
    assert_eq!(day_index(28800 + 86400), 1);
}

#[test]
fn displayed_usage_rolls_over_visually() {
    let mut c = cred(1, "alpha", true, 30000);
    c.usage_today = 123;
    c.is_quota_exhausted = true;
    assert_eq!(displayed_usage(&c, 31000), (123, true));
    assert_eq!(displayed_usage(&c, 30000 + 86400), (0, false));
}
