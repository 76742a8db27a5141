//! The answer to a question for the service's health.
use svm::health::{health_check, health_response, Timestamp, FIRST_SECOND, LAST_SECOND};

#[test]
fn never_trained() {
    let response = health_check(Some(2.5f64.to_bits()), None);
    assert_eq!(response.name, "svm");
    assert_eq!(f64::from_bits(response.uptime), 2.5);
    assert_eq!(response.last_training, "never");
}

#[test]
fn unknown_uptime_is_zero() {
    let response = health_response(None, Some("then".to_string()));
    assert_eq!(f64::from_bits(response.uptime), 0.0);
    assert_eq!(response.last_training, "then");
}

#[test]
fn last_training_is_written_in_rfc3339() {
    let text = |seconds, nanoseconds| {
        let moment = Timestamp::new(seconds, nanoseconds).unwrap();
        health_check(None, Some(moment)).last_training
    };
    assert_eq!(text(0, 0), "1970-01-01T00:00:00+00:00");
    assert_eq!(text(1431648000, 0), "2015-05-15T00:00:00+00:00");
    assert_eq!(text(1431648000, 250_000_000), "2015-05-15T00:00:00.250+00:00");
    assert_eq!(text(-1, 1), "1969-12-31T23:59:59.000000001+00:00");
    assert_eq!(text(1435708799, 1_000_000_000), "2015-06-30T23:59:60+00:00");
    assert_eq!(text(FIRST_SECOND, 0), "-262143-01-01T00:00:00+00:00");
    assert_eq!(text(LAST_SECOND, 1_999_999_999), "+262142-12-31T23:59:60.999999999+00:00");
}

#[test]
fn moments_are_those_of_the_calendar() {
    for (seconds, nanoseconds) in [
        (0, 999_999_999),
        (0, 1_000_000_000),
        (59, 1_000_000_000),
        (-1, 1_999_999_999),
        (59, 2_000_000_000),
        (FIRST_SECOND, 0),
        (FIRST_SECOND - 1, 0),
        (LAST_SECOND, 0),
        (LAST_SECOND + 1, 0),
        (i64::MIN, 0),
        (i64::MAX, 0),
    ] {
        assert_eq!(
            Timestamp::new(seconds, nanoseconds).is_some(),
            chrono::DateTime::from_timestamp(seconds, nanoseconds).is_some(),
            "{seconds} {nanoseconds}"
        );
    }
}
