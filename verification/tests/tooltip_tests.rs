use orderflow::footprint::{GroupedTrades, KlineDataPoint, KlineTrades, PlotData, TickAggr, TimeSeries};
use orderflow::kline::{cluster_max_qty, tooltip_kline, ClusterKind};
use orderflow::units::{Kline, Price, Qty, Volume};

fn k(time: u64) -> Kline {
    Kline {
        time,
        open: Price::from_units(1),
        high: Price::from_units(2),
        low: Price::from_units(0),
        close: Price::from_units(1),
        volume: Volume::TotalOnly(Qty { units: 1 }),
    }
}

fn dp(time: u64) -> KlineDataPoint {
    KlineDataPoint { kline: k(time), footprint: KlineTrades::new() }
}

fn series() -> PlotData {
    PlotData::TimeBased(TimeSeries {
        interval: 60,
        datapoints: vec![(60, dp(60)), (120, dp(120)), (240, dp(240))],
    })
}

#[test]
fn tooltip_on_time_series() {
    let s = series();
    let t = |at: Option<u64>, range: (u64, u64)| tooltip_kline(&s, true, 0, at, range).map(|k| k.time);
    // no cursor: the newest candle
    assert_eq!(t(None, (0, 100)), Some(240));
    // the candle under the cursor
    assert_eq!(t(Some(120), (0, 300)), Some(120));
    // a gap inside the visible range: the nearest candle before it
    assert_eq!(t(Some(180), (0, 300)), Some(120));
    // past the visible range: the newest visible candle
    assert_eq!(t(Some(500), (0, 200)), Some(120));
    // left of everything visible: nothing
    assert_eq!(t(Some(10), (50, 300)), None);
    // after the newest candle and before the visible range: the newest candle
    assert_eq!(t(Some(250), (300, 400)), Some(240));
    let empty = PlotData::TimeBased(TimeSeries { interval: 60, datapoints: vec![] });
    assert_eq!(tooltip_kline(&empty, true, 0, None, (0, 1)), None);
}

#[test]
fn tooltip_on_tick_bars() {
    let s = PlotData::TickBased(TickAggr { tick_count: 1, last_bar_trades: 1, datapoints: vec![dp(1), dp(2), dp(3)] });
    let t = |at: Option<u64>, range: (u64, u64)| tooltip_kline(&s, false, 10, at, range).map(|k| k.time);
    assert_eq!(t(None, (0, 30)), Some(3));
    // index counts back from the newest bar, ten trades per bar
    assert_eq!(t(Some(0), (0, 30)), Some(3));
    assert_eq!(t(Some(25), (0, 30)), Some(1));
    // beyond the oldest bar but visible: the bar at the visible start
    assert_eq!(t(Some(35), (10, 40)), Some(2));
    assert_eq!(t(Some(35), (5, 34)), None);
}

#[test]
fn cluster_scale_quantities() {
    let f = KlineTrades {
        trades: vec![
            (Price::from_units(1), GroupedTrades { buy_qty: Qty { units: 5 }, sell_qty: Qty { units: 1 } }),
            (Price::from_units(2), GroupedTrades { buy_qty: Qty { units: 2 }, sell_qty: Qty { units: 7 } }),
        ],
    };
    assert_eq!(cluster_max_qty(&f, ClusterKind::BidAsk), Qty { units: 7 });
    assert_eq!(cluster_max_qty(&f, ClusterKind::DeltaProfile), Qty { units: 5 });
    assert_eq!(cluster_max_qty(&f, ClusterKind::VolumeProfile), Qty { units: 9 });
    assert_eq!(cluster_max_qty(&f, ClusterKind::ProDeltaCandle), Qty { units: 9 });
    assert_eq!(cluster_max_qty(&KlineTrades::new(), ClusterKind::BidAsk), Qty { units: 0 });
}
