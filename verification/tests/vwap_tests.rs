use orderflow::vwap::{session_starts_from_days, vwap_session_starts, CHRONO_DAY_LIMIT_MS};

const DAY_MS: u64 = 86_400_000;

#[test]
fn sessions_start_each_utc_day() {
    let times = vec![0, 60_000, DAY_MS - 1, DAY_MS, DAY_MS + 5, 3 * DAY_MS];
    assert_eq!(
        vwap_session_starts(&times),
        vec![true, false, false, true, false, true]
    );
    assert!(vwap_session_starts(&vec![]).is_empty());
}

#[test]
fn unknown_days_start_sessions() {
    let days = vec![Some(5), Some(5), None, None, Some(5), Some(6), Some(6)];
    assert_eq!(
        session_starts_from_days(&days),
        vec![true, false, true, true, true, true, false]
    );
    // times that chrono cannot represent have no day
    let far = i64::MAX as u64;
    let times = vec![far, far, 0];
    assert_eq!(vwap_session_starts(&times), vec![true, true, true]);
}

#[test]
fn sessions_near_the_day_limit() {
    let last = CHRONO_DAY_LIMIT_MS - 1;
    let day_start = last - last % DAY_MS;
    let times = vec![day_start - 1, day_start, last];
    assert_eq!(vwap_session_starts(&times), vec![true, true, false]);
}
