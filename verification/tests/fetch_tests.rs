use orderflow::fetch::{
    fetch_requests, integrity_window, missing_range, prefetch_earliest, FetchRange,
};

#[test]
fn empty_chart_asks_for_recent_candles() {
    let r = fetch_requests(true, 100_000_000, 60_000, None, 0, None, &vec![], &None);
    assert_eq!(r, vec![FetchRange::Kline(100_000_000 - 450 * 60_000, 100_000_000)]);
    // too close to the epoch: the start saturates at zero
    let r = fetch_requests(true, 1_000_000, 60_000, None, 0, None, &vec![], &None);
    assert_eq!(r, vec![FetchRange::Kline(0, 1_000_000)]);
}

#[test]
fn requests_come_in_priority_order() {
    let r = fetch_requests(
        false,
        0,
        100,
        Some((1000, 2000)),
        1500,
        Some((1200, 1800)),
        &vec![FetchRange::Kline(5, 6)],
        &Some(vec![1300, 1100, 1700]),
    );
    assert_eq!(
        r,
        vec![
            FetchRange::Kline(0, 1500),
            FetchRange::Trades(1200, 1800),
            FetchRange::Kline(5, 6),
            FetchRange::Kline(1000, 1800),
        ]
    );
    // stored candles cover the view and nothing is missing: no request
    let r = fetch_requests(false, 0, 100, Some((5000, 6000)), 100, None, &vec![], &None);
    assert!(r.is_empty());
    // nothing visible: only an empty chart asks
    let r = fetch_requests(false, 0, 100, None, 100, Some((1, 2)), &vec![], &None);
    assert!(r.is_empty());
}

#[test]
fn missing_and_window_ranges() {
    assert_eq!(missing_range(&vec![], 1000, 2000, 100), FetchRange::Kline(900, 2100));
    assert_eq!(missing_range(&vec![50, 10], 1000, 2000, 100), FetchRange::Kline(0, 150));
    assert_eq!(missing_range(&vec![u64::MAX], 0, 0, 100), FetchRange::Kline(u64::MAX - 100, u64::MAX));
    assert_eq!(prefetch_earliest(5000, 6000), 4000);
    assert_eq!(prefetch_earliest(1000, 3000), 0);
    assert_eq!(integrity_window(5000, 6000, 100, 10), (4000, 6010));
    assert_eq!(integrity_window(5000, 6000, 4500, 10), (4500, 6010));
    assert_eq!(integrity_window(5000, u64::MAX, 0, 10), (0, u64::MAX));
}
