//! Where the sessions of the VWAP indicator begin: the running sums of
//! price times volume and of volume restart at each new UTC day.

use vstd::prelude::*;
use chrono::Datelike;

verus! {

/// The UTC calendar day, counted from the first day of the common era, of a
/// time in milliseconds since the Unix epoch, as chrono computes it; none
/// when chrono cannot represent the time.
pub uninterp spec fn utc_day_number(ms: u64) -> Option<i32>;

/// Milliseconds in a day.
pub const DAY_MS: u64 = 86_400_000;

/// The day number chrono gives the Unix epoch, 1970-01-01.
pub const EPOCH_DAY_FROM_CE: u64 = 719_163;

/// Times below this (about 253,000 years after the epoch) lie well inside
/// the dates chrono represents, which end with the year 262,142.
pub const CHRONO_DAY_LIMIT_MS: u64 = 8_000_000_000_000_000;

/// The day number of a time below `CHRONO_DAY_LIMIT_MS`: whole days since
/// the epoch, plus the epoch's day number.
pub open spec fn day_from_ce(ms: u64) -> i32 {
    (ms / DAY_MS + EPOCH_DAY_FROM_CE) as i32
}

/// Calls `chrono::DateTime::from_timestamp_millis` on the time (as a signed
/// millisecond count) and, when it gives a date-time, its
/// `date_naive().num_days_from_ce()`. The result is claimed to be a
/// function of the time alone: chrono works in UTC here, without any time
/// zone of the machine. Below `CHRONO_DAY_LIMIT_MS` chrono's
/// `from_timestamp` always succeeds and counts the floored whole days since
/// the epoch from its `UNIX_EPOCH_DAY`, 719,163; above it the result is
/// only named.
#[verifier::external_body]
fn utc_day(ms: u64) -> (r: Option<i32>)
    ensures
        r == utc_day_number(ms),
        ms < CHRONO_DAY_LIMIT_MS ==> r == Some(day_from_ce(ms)),
{
    match chrono::DateTime::from_timestamp_millis(ms as i64) {
        Some(dt) => Some(dt.date_naive().num_days_from_ce()),
        None => None,
    }
}

/// A point starts a new session when the day of the point before it is
/// unknown or differs from its own day; the first point always does.
pub open spec fn spec_session_start(days: Seq<Option<i32>>, i: int) -> bool {
    i == 0 || days[i - 1] is None || days[i - 1] != days[i]
}

/// For each point, given the days of the points in order, whether it
/// starts a new session.
pub fn session_starts_from_days(days: &Vec<Option<i32>>) -> (r: Vec<bool>)
    ensures
        r@.len() == days@.len(),
        forall|i: int| 0 <= i < days@.len() ==> #[trigger] r@[i] == spec_session_start(days@, i),
{
    let mut out: Vec<bool> = Vec::new();
    let mut current: Option<i32> = None;
    let mut i: usize = 0;
    while i < days.len()
        invariant
            i <= days@.len(),
            out@.len() == i,
            i > 0 ==> current == days@[i - 1],
            i == 0 ==> current is None,
            forall|j: int| 0 <= j < i ==> #[trigger] out@[j] == spec_session_start(days@, j),
        decreases days@.len() - i,
    {
        let day = days[i];
        let starts = match current {
            None => true,
            Some(c) => match day {
                Some(d) => c != d,
                None => true,
            },
        };
        out.push(starts);
        current = day;
        i = i + 1;
    }
    out
}

/// For each point time, in order, whether it starts a new VWAP session:
/// the first point, and every point whose UTC day differs from the day of
/// the point before it, or follows a point whose day is unknown. For times
/// in chrono's range that is whether the whole days since the epoch differ.
pub fn vwap_session_starts(times: &Vec<u64>) -> (r: Vec<bool>)
    ensures
        r@.len() == times@.len(),
        forall|i: int|
            0 <= i < times@.len() ==> #[trigger] r@[i] == spec_session_start(
                Seq::new(times@.len(), |j: int| utc_day_number(times@[j])),
                i,
            ),
        r@.len() > 0 ==> r@[0],
        forall|i: int|
            0 < i < times@.len() && times@[i - 1] < CHRONO_DAY_LIMIT_MS && times@[i]
                < CHRONO_DAY_LIMIT_MS ==> #[trigger] r@[i] == (times@[i - 1] / DAY_MS != times@[i]
                / DAY_MS),
{
    let mut days: Vec<Option<i32>> = Vec::new();
    let mut i: usize = 0;
    while i < times.len()
        invariant
            i <= times@.len(),
            days@.len() == i,
            forall|j: int| 0 <= j < i ==> #[trigger] days@[j] == utc_day_number(times@[j]),
            forall|j: int|
                0 <= j < i && times@[j] < CHRONO_DAY_LIMIT_MS ==> #[trigger] days@[j] == Some(
                    day_from_ce(times@[j]),
                ),
        decreases times@.len() - i,
    {
        days.push(utc_day(times[i]));
        i = i + 1;
    }
    proof {
        assert(days@ =~= Seq::new(times@.len(), |j: int| utc_day_number(times@[j])));
    }
    let r = session_starts_from_days(&days);
    proof {
        assert forall|i: int|
            0 < i < times@.len() && times@[i - 1] < CHRONO_DAY_LIMIT_MS && times@[i]
                < CHRONO_DAY_LIMIT_MS implies #[trigger] r@[i] == (times@[i - 1] / DAY_MS
            != times@[i] / DAY_MS) by {
            assert(r@[i] == spec_session_start(days@, i));
            assert(days@[i - 1] == Some(day_from_ce(times@[i - 1])));
            assert(days@[i] == Some(day_from_ce(times@[i])));
            assert(times@[i - 1] / DAY_MS < 100_000_000);
            assert(times@[i] / DAY_MS < 100_000_000);
        }
        if r@.len() > 0 {
            assert(r@[0] == spec_session_start(days@, 0));
        }
    }
    r
}

} // verus!
