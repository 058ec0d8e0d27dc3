use orderflow::gwtrade_effort::{delta_direction, GWTradeEffortIndicator, EffortZone};
use orderflow::units::{Kline, Price, Qty, Volume};

fn k(time: u64, high: i64, low: i64, vol: i64) -> Kline {
    Kline {
        time,
        open: Price::from_units(low),
        high: Price::from_units(high),
        low: Price::from_units(low),
        close: Price::from_units(high),
        volume: Volume::TotalOnly(Qty { units: vol }),
    }
}

#[test]
fn streak_becomes_zone_when_broken() {
    let mut t = GWTradeEffortIndicator::new();
    assert_eq!(t.minimum_bars, 2);
    t.process_kline(&k(1, 110, 100, 5), true, true);
    assert_eq!(t.streak_count, 1);
    assert!(!t.streak_active && !t.dev_active);
    t.process_kline(&k(2, 120, 105, 5), true, true);
    assert_eq!(t.streak_count, 2);
    assert!(t.streak_active && t.dev_active);
    assert_eq!((t.dev_high, t.dev_low), (Price::from_units(120), Price::from_units(105)));
    assert_eq!(t.dev_start_time, 1);
    t.process_kline(&k(3, 130, 95, 5), true, true);
    assert_eq!((t.streak_high, t.streak_low), (Price::from_units(130), Price::from_units(95)));
    // a failing candle ends the streak and records its zone
    t.process_kline(&k(4, 125, 120, 5), false, true);
    assert!(!t.streak_active && !t.dev_active);
    assert_eq!(
        t.zones,
        vec![EffortZone {
            start_time: 1,
            end_time: 4,
            is_bullish: true,
            high: Price::from_units(130),
            low: Price::from_units(95),
            streak_length: 0,
        }]
    );
    assert_eq!(t.latest_kline_time, 4);
}

#[test]
fn direction_change_restarts_streak() {
    let mut t = GWTradeEffortIndicator::new();
    t.process_kline(&k(1, 110, 100, 5), true, true);
    t.process_kline(&k(2, 110, 100, 5), true, false);
    assert_eq!(t.streak_count, 1);
    assert!(!t.last_direction_bull);
    assert_eq!(t.streak_start_time, 2);
    t.process_kline(&k(3, 110, 100, 5), true, false);
    assert!(t.streak_active);
    assert!(!t.dev_bull);
    // a bullish candle breaks the bearish streak; the zone starts at its own time
    t.process_kline(&k(4, 111, 101, 5), true, true);
    assert_eq!(t.zones.len(), 1);
    assert_eq!(t.zones[0].start_time, 4);
    assert_eq!(t.zones[0].streak_length, 1);
    assert!(t.zones[0].is_bullish);
}

#[test]
fn zero_volume_only_moves_time() {
    let mut t = GWTradeEffortIndicator::new();
    t.process_kline(&k(1, 110, 100, 5), true, true);
    t.process_kline(&k(9, 110, 100, 0), false, false);
    assert_eq!(t.streak_count, 1);
    assert_eq!(t.latest_kline_time, 9);
}

#[test]
fn clearing_and_resetting() {
    let mut t = GWTradeEffortIndicator::new();
    for i in 1..4 {
        t.process_kline(&k(i, 110, 100, 5), true, true);
    }
    t.process_kline(&k(5, 110, 100, 5), false, true);
    assert_eq!(t.zones.len(), 1);
    t.process_kline(&k(6, 110, 100, 5), true, true);
    t.reset_streaks();
    assert!(t.zones.is_empty());
    assert_eq!(t.streak_count, 0);
    assert_eq!(t.latest_kline_time, 6);
    t.process_kline(&k(7, 110, 100, 5), true, true);
    t.clear_all_caches();
    assert_eq!(t.latest_kline_time, 0);
    assert_eq!(t.dev_start_time, 0);
    assert!(!t.streak_active && !t.dev_active);
    assert!(t.is_overlay());
    assert_eq!(t.zone_max_extensions, 10);
}

#[test]
fn delta_direction_follows_the_candle() {
    let candle = |open: i64, close: i64, volume: Volume| Kline {
        time: 0,
        open: Price::from_units(open),
        high: Price::from_units(open.max(close)),
        low: Price::from_units(open.min(close)),
        close: Price::from_units(close),
        volume,
    };
    let split = |b: i64, s: i64| Volume::BuySell(Qty { units: b }, Qty { units: s });
    assert_eq!(delta_direction(&candle(10, 12, split(5, 3))), (true, true));
    assert_eq!(delta_direction(&candle(10, 8, split(5, 3))), (false, true));
    assert_eq!(delta_direction(&candle(10, 8, split(3, 5))), (true, false));
    assert_eq!(delta_direction(&candle(10, 10, split(3, 5))), (false, false));
    // equal sides, or no sides: a zero delta goes with a flat or rising close
    assert_eq!(delta_direction(&candle(10, 10, split(4, 4))), (true, true));
    assert_eq!(delta_direction(&candle(10, 9, Volume::TotalOnly(Qty { units: 7 }))), (false, true));
}
