use orderflow::footprint::{GroupedTrades, KlineDataPoint, KlineTrades, TickAggr, TimeSeries};
use orderflow::units::{Kline, Price, PriceStep, Qty, Trade, Volume};

fn q(u: i64) -> Qty {
    Qty { units: u }
}

fn p(u: i64) -> Price {
    Price::from_units(u)
}

fn kline(time: u64, close: i64) -> Kline {
    Kline { time, open: p(100), high: p(120), low: p(90), close: p(close), volume: Volume::TotalOnly(q(5)) }
}

fn series(times: &[u64]) -> TimeSeries {
    TimeSeries {
        interval: 60,
        datapoints: times
            .iter()
            .map(|t| (*t, KlineDataPoint { kline: kline(*t, 100), footprint: KlineTrades::new() }))
            .collect(),
    }
}

fn trade(time: u64, price: i64, qty: i64, is_sell: bool) -> Trade {
    Trade { time, price: p(price), qty: q(qty), is_sell }
}

#[test]
fn add_trade_keeps_levels_ordered() {
    let mut f = KlineTrades::new();
    assert!(f.add_trade(p(105), q(3), false));
    assert!(f.add_trade(p(100), q(2), true));
    assert!(f.add_trade(p(110), q(1), false));
    assert!(f.add_trade(p(105), q(4), true));
    assert_eq!(
        f.trades,
        vec![
            (p(100), GroupedTrades { buy_qty: q(0), sell_qty: q(2) }),
            (p(105), GroupedTrades { buy_qty: q(3), sell_qty: q(4) }),
            (p(110), GroupedTrades { buy_qty: q(1), sell_qty: q(0) }),
        ]
    );
    assert_eq!(f.total_qty(), q(10));
    // a trade that would overflow the footprint's volume changes nothing
    let before = f.trades.clone();
    assert!(!f.add_trade(p(100), q(i64::MAX - 5), false));
    assert_eq!(f.trades, before);
}

#[test]
fn insert_klines_upserts_by_time() {
    let mut ts = series(&[60, 180]);
    ts.datapoints[0].1.footprint.add_trade(p(100), q(1), false);
    ts.insert_klines(&[kline(120, 101), kline(60, 102), kline(240, 103), kline(120, 104)]);
    let times: Vec<u64> = ts.datapoints.iter().map(|(t, _)| *t).collect();
    assert_eq!(times, vec![60, 120, 180, 240]);
    assert_eq!(ts.datapoints[0].1.kline.close, p(102));
    assert_eq!(ts.datapoints[0].1.footprint.trades.len(), 1);
    assert_eq!(ts.datapoints[1].1.kline.close, p(104));
    assert!(ts.datapoints[1].1.footprint.trades.is_empty());
    assert_eq!(ts.datapoints[2].1.kline.close, p(100));
}

#[test]
fn trades_go_to_their_candles() {
    let mut ts = series(&[60, 120]);
    let step = PriceStep { units: 5 };
    ts.insert_trades_existing_buckets(
        &[trade(61, 103, 2, false), trade(119, 101, 1, true), trade(150, 107, 4, false), trade(500, 100, 9, false)],
        step,
    );
    assert_eq!(
        ts.datapoints[0].1.footprint.trades,
        vec![(p(100), GroupedTrades { buy_qty: q(2), sell_qty: q(1) })]
    );
    assert_eq!(
        ts.datapoints[1].1.footprint.trades,
        vec![(p(105), GroupedTrades { buy_qty: q(4), sell_qty: q(0) })]
    );
    ts.clear_footprints();
    assert!(ts.datapoints.iter().all(|(_, dp)| dp.footprint.trades.is_empty()));
    assert_eq!(ts.datapoints.len(), 2);
}

#[test]
fn missing_candles_on_the_grid() {
    let ts = series(&[60, 180, 300]);
    assert_eq!(ts.missing_candle_times(30, 400), Some(vec![120, 240, 360]));
    assert_eq!(ts.missing_candle_times(60, 60), None);
    assert_eq!(ts.missing_candle_times(61, 119), None);
    assert_eq!(ts.missing_candle_times(0, 0), Some(vec![0]));
    assert_eq!(ts.missing_candle_times(u64::MAX - 10, u64::MAX), None);
}

#[test]
fn tick_bars_fill_then_open() {
    let mut ta = TickAggr::new(2);
    let step = PriceStep { units: 10 };
    ta.insert_trades(
        &[trade(1, 105, 3, false), trade(2, 112, 1, true), trade(3, 99, 4, false)],
        step,
    );
    assert_eq!(ta.datapoints.len(), 2);
    assert_eq!(ta.last_bar_trades, 1);
    let first = &ta.datapoints[0];
    assert_eq!(first.kline.time, 1);
    assert_eq!((first.kline.open, first.kline.high, first.kline.low, first.kline.close), (p(105), p(112), p(105), p(112)));
    assert_eq!(first.kline.volume, Volume::BuySell(q(3), q(1)));
    assert_eq!(
        first.footprint.trades,
        vec![
            (p(100), GroupedTrades { buy_qty: q(3), sell_qty: q(0) }),
            (p(110), GroupedTrades { buy_qty: q(0), sell_qty: q(1) }),
        ]
    );
    let second = &ta.datapoints[1];
    assert_eq!(second.kline.time, 3);
    assert_eq!(second.kline.volume, Volume::BuySell(q(4), q(0)));
    assert_eq!(second.footprint.trades, vec![(p(90), GroupedTrades { buy_qty: q(4), sell_qty: q(0) })]);
    // a trade that would overflow the newest bar's volume is left out
    ta.insert_trades(&[trade(4, 99, i64::MAX, true)], step);
    assert_eq!(ta.datapoints.len(), 2);
    assert_eq!(ta.last_bar_trades, 1);
}
