use viralwatch::duration::parse_duration_to_seconds;

#[test]
fn hours_minutes_seconds() {
    assert_eq!(parse_duration_to_seconds("PT1H2M3S"), 3723);
}

#[test]
fn seconds_only() {
    assert_eq!(parse_duration_to_seconds("PT45S"), 45);
}

#[test]
fn zero_duration() {
    assert_eq!(parse_duration_to_seconds("PT0S"), 0);
}

#[test]
fn unknown_units_are_ignored() {
    // Weeks and days carry no weight; the prefix letters are skipped too.
    assert_eq!(parse_duration_to_seconds("P1DT2H"), 7200);
    assert_eq!(parse_duration_to_seconds("P3W"), 0);
    assert_eq!(parse_duration_to_seconds("PT1M30SX9Q"), 90);
}

#[test]
fn empty_and_garbage() {
    assert_eq!(parse_duration_to_seconds(""), 0);
    assert_eq!(parse_duration_to_seconds("PT"), 0);
    assert_eq!(parse_duration_to_seconds("nonsense"), 0);
}

#[test]
fn trailing_digits_without_unit_are_dropped() {
    assert_eq!(parse_duration_to_seconds("PT5M42"), 300);
}

#[test]
fn minutes_and_hours() {
    assert_eq!(parse_duration_to_seconds("PT2M"), 120);
    assert_eq!(parse_duration_to_seconds("PT3H"), 10800);
}

#[test]
fn overlong_digit_run_counts_as_zero() {
    // A component that does not fit 64 bits parses to zero, as a failed
    // numeric parse does.
    assert_eq!(parse_duration_to_seconds("PT99999999999999999999H5S"), 5);
}

#[test]
fn saturates_instead_of_overflowing() {
    assert_eq!(parse_duration_to_seconds("PT9223372036854775807H"), i64::MAX);
}
