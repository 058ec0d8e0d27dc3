use orderflow::footprint::{
    GroupedTrades, KlineDataPoint, KlineTrades, PlotData, TickAggr, TimeSeries,
};
use orderflow::profile::{point_of_control, session_profile, value_area};
use orderflow::units::{Kline, Price, Qty, Volume};

fn lvl(p: i64, b: i64, s: i64) -> (Price, GroupedTrades) {
    (Price::from_units(p), GroupedTrades { buy_qty: Qty { units: b }, sell_qty: Qty { units: s } })
}

#[test]
fn value_area_grows_towards_larger_volume() {
    // volumes 1, 2, 10, 3, 1 (total 17, 70% = 11.9)
    let levels = vec![lvl(1, 1, 0), lvl(2, 1, 1), lvl(3, 5, 5), lvl(4, 3, 0), lvl(5, 0, 1)];
    assert_eq!(point_of_control(&levels), 2);
    // 10 -> take 3 above (13 >= 11.9)
    assert_eq!(value_area(&levels, 2), (2, 3));
    // ties go down
    let levels = vec![lvl(1, 3, 0), lvl(2, 10, 0), lvl(3, 3, 0)];
    assert_eq!(value_area(&levels, 1), (0, 1));
    // a single level is its own value area
    let levels = vec![lvl(1, 2, 3)];
    assert_eq!(value_area(&levels, 0), (0, 0));
    // it can span every level
    let levels = vec![lvl(1, 1, 0), lvl(2, 1, 0), lvl(3, 1, 0)];
    assert_eq!(value_area(&levels, 1), (0, 2));
    let levels = vec![lvl(1, 4, 0), lvl(2, 4, 0), lvl(3, 4, 0), lvl(4, 4, 0)];
    assert_eq!(value_area(&levels, 1), (0, 2));
}

#[test]
fn point_of_control_prefers_last_of_equals() {
    let levels = vec![lvl(1, 5, 0), lvl(2, 1, 0), lvl(3, 2, 3), lvl(4, 0, 1)];
    assert_eq!(point_of_control(&levels), 2);
}

fn dp(time: u64, levels: Vec<(Price, GroupedTrades)>) -> KlineDataPoint {
    KlineDataPoint {
        kline: Kline {
            time,
            open: Price::from_units(1),
            high: Price::from_units(2),
            low: Price::from_units(0),
            close: Price::from_units(1),
            volume: Volume::TotalOnly(Qty { units: 1 }),
        },
        footprint: KlineTrades { trades: levels },
    }
}

#[test]
fn session_profile_sums_levels() {
    let src = PlotData::TimeBased(TimeSeries {
        interval: 60,
        datapoints: vec![
            (60, dp(60, vec![lvl(100, 1, 0), lvl(102, 3, 1)])),
            (120, dp(120, vec![lvl(101, 2, 2), lvl(102, 4, 0)])),
            (180, dp(180, vec![])),
        ],
    });
    let prof = session_profile(&src).unwrap();
    assert_eq!(prof.levels, vec![lvl(100, 1, 0), lvl(101, 2, 2), lvl(102, 7, 1)]);
    assert_eq!(prof.total_vol, Qty { units: 13 });
    assert_eq!(prof.total_delta, Qty { units: 7 });
    assert_eq!(prof.poc, 2);
    // 8 of 13 < 9.1: take 101 below (12 of 13)
    assert_eq!((prof.val, prof.vah), (1, 2));
}

#[test]
fn session_profile_empty_is_none() {
    let src = PlotData::TickBased(TickAggr { tick_count: 1, last_bar_trades: 1, datapoints: vec![dp(1, vec![]), dp(2, vec![])] });
    assert!(session_profile(&src).is_none());
    let src = PlotData::TickBased(TickAggr { tick_count: 1, last_bar_trades: 1, datapoints: vec![dp(1, vec![lvl(5, 0, 2)])] });
    let prof = session_profile(&src).unwrap();
    assert_eq!(prof.levels, vec![lvl(5, 0, 2)]);
    assert_eq!(prof.total_delta, Qty { units: -2 });
    assert_eq!((prof.poc, prof.val, prof.vah), (0, 0, 0));
}
