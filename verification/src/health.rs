//! The state of the service, as it answers for its health.
use vstd::prelude::*;
use vstd::string::*;

use crate::doubles::ZERO;

verus! {

/// A moment: seconds since the beginning of 1970 in universal time, and
/// nanoseconds on top.
#[derive(Clone, Copy, Debug, PartialEq, Eq, Structural)]
pub struct Timestamp {
    pub seconds: i64,
    pub nanoseconds: u32,
}

/// The answer to a question for the service's health.
pub struct HealthCheckResponse {
    pub name: String,
    pub uptime: u64,
    pub last_training: String,
}

/// The first second of the year -262143.
pub const FIRST_SECOND: i64 = -8_334_601_228_800;

/// The last second of the year 262142.
pub const LAST_SECOND: i64 = 8_210_266_876_799;

impl Timestamp {
    /// Whether the moment is one of the calendar. More than a second of nanoseconds
    /// stands for a leap second, which only the last second of a minute has.
    pub open spec fn valid(self) -> bool {
        &&& FIRST_SECOND <= self.seconds <= LAST_SECOND
        &&& self.nanoseconds < 1_000_000_000 || (self.nanoseconds < 2_000_000_000 && self.seconds
            as int % 60 == 59)
    }

    /// The moment with the given seconds and nanoseconds, where it is one of the calendar.
    pub fn new(seconds: i64, nanoseconds: u32) -> (r: Option<Timestamp>)
        ensures
            r is Some <==> (Timestamp { seconds, nanoseconds }).valid(),
            r matches Some(t) ==> t == (Timestamp { seconds, nanoseconds }),
    {
        if seconds < FIRST_SECOND || seconds > LAST_SECOND {
            return None;
        }
        let since: u64 = (seconds - FIRST_SECOND) as u64;
        assert(since as int % 60 == seconds as int % 60);
        if nanoseconds < 1_000_000_000 || (nanoseconds < 2_000_000_000 && since % 60 == 59) {
            Some(Timestamp { seconds, nanoseconds })
        } else {
            None
        }
    }
}

/// A moment as a date and a time of day in the form of RFC 3339.
pub uninterp spec fn rfc3339_text(seconds: i64, nanoseconds: u32) -> Seq<char>;

/// `chrono::DateTime::to_rfc3339` of the moment that `chrono::DateTime::from_timestamp`
/// makes of the seconds and the nanoseconds: the text depends on these alone. There
/// is such a moment for every valid timestamp.
#[verifier::external_body]
fn to_rfc3339(moment: Timestamp) -> (text: String)
    requires
        moment.valid(),
    ensures
        text@ == rfc3339_text(moment.seconds, moment.nanoseconds),
{
    chrono::DateTime::from_timestamp(moment.seconds, moment.nanoseconds).unwrap().to_rfc3339()
}

/// The answer of a service that has been up for `uptime`, where this is known, and
/// whose last training ended at the time written as `last_training`.
pub fn health_response(uptime: Option<u64>, last_training: Option<String>) -> (response:
    HealthCheckResponse)
    ensures
        response.name@ == "svm"@,
        response.uptime == (match uptime {
            Some(seconds) => seconds,
            None => ZERO,
        }),
        response.last_training@ == (match last_training {
            Some(text) => text@,
            None => "never"@,
        }),
{
    let uptime: u64 = match uptime {
        Some(seconds) => seconds,
        None => ZERO,
    };
    let last_training = match last_training {
        Some(text) => text,
        None => String::from_str("never"),
    };
    HealthCheckResponse { name: String::from_str("svm"), uptime, last_training }
}

/// The answer of a service that has been up for `uptime`, where this is known, and
/// was last trained at the moment `last_training`.
pub fn health_check(uptime: Option<u64>, last_training: Option<Timestamp>) -> (response:
    HealthCheckResponse)
    requires
        last_training matches Some(moment) ==> moment.valid(),
    ensures
        response.name@ == "svm"@,
        response.uptime == (match uptime {
            Some(seconds) => seconds,
            None => ZERO,
        }),
        response.last_training@ == (match last_training {
            Some(moment) => rfc3339_text(moment.seconds, moment.nanoseconds),
            None => "never"@,
        }),
{
    let text = match last_training {
        Some(moment) => Some(to_rfc3339(moment)),
        None => None,
    };
    health_response(uptime, text)
}

/// The days from the first of the year 1 to the first of the year `year`. Every fourth
/// year is a day longer, every hundredth is not, and every four hundredth is.
pub open spec fn days_before(year: int) -> int {
    365 * (year - 1) + (year - 1) / 4 - (year - 1) / 100 + (year - 1) / 400
}

/// The moments of the calendar are the seconds of the years from -262143 to 262142, each
/// with less than a second of nanoseconds, or less than two in the last second of a
/// minute.
pub proof fn moments_are_of_the_calendar(seconds: i64, nanoseconds: u32, r: Option<Timestamp>)
    requires
        call_ensures(Timestamp::new, (seconds, nanoseconds), r),
    ensures
        r is Some <==> {
            &&& (days_before(-262143) - days_before(1970)) * 86400 <= seconds
            &&& seconds < (days_before(262143) - days_before(1970)) * 86400
            &&& nanoseconds < 1_000_000_000 || (nanoseconds < 2_000_000_000 && (seconds + 1)
                % 60 == 0)
        },
        r matches Some(moment) ==> moment.seconds == seconds && moment.nanoseconds == nanoseconds,
{
}

/// The answer is that of the service `svm`, with the time for which it has been up or
/// zero, and with the text of its last training or `never`.
pub proof fn health_is_answered(
    uptime: Option<u64>,
    last_training: Option<String>,
    response: HealthCheckResponse,
)
    requires
        call_ensures(health_response, (uptime, last_training), response),
    ensures
        response.name@ == "svm"@,
        uptime matches Some(seconds) ==> response.uptime == seconds,
        uptime is None ==> response.uptime == 0,
        last_training matches Some(text) ==> response.last_training@ == text@,
        last_training is None ==> response.last_training@ == "never"@,
{
}

/// The answer with a moment is the answer with the text of this moment, and without one it
/// is `never`.
pub proof fn trainings_are_dated(
    uptime: Option<u64>,
    last_training: Option<Timestamp>,
    response: HealthCheckResponse,
)
    requires
        call_ensures(health_check, (uptime, last_training), response),
    ensures
        response.name@ == "svm"@,
        uptime matches Some(seconds) ==> response.uptime == seconds,
        uptime is None ==> response.uptime == 0,
        last_training matches Some(moment) ==> response.last_training@ == rfc3339_text(
            moment.seconds,
            moment.nanoseconds,
        ),
        last_training is None ==> response.last_training@ == "never"@,
{
}

} // verus!
