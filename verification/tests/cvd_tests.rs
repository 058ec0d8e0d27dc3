use orderflow::cvd_divergence::{
    check_divergence, has_directional_volume, is_directional_parts, AvailabilityCause,
    CVDDivergenceIndicator, DivergenceType, IndicatorAvailability,
};
use orderflow::footprint::{
    GroupedTrades, KlineDataPoint, KlineTrades, PlotData, TickAggr, TimeSeries,
};
use orderflow::units::{Kline, Price, Qty, Trade, Volume};

fn q(u: i64) -> Qty {
    Qty { units: u }
}

fn kline(time: u64, open: i64, close: i64, volume: Volume) -> Kline {
    Kline {
        time,
        open: Price::from_units(open),
        high: Price::from_units(open.max(close) + 1),
        low: Price::from_units(open.min(close) - 1),
        close: Price::from_units(close),
        volume,
    }
}

fn fp(levels: &[(i64, i64, i64)]) -> KlineTrades {
    KlineTrades {
        trades: levels
            .iter()
            .map(|&(p, b, s)| (Price::from_units(p), GroupedTrades { buy_qty: q(b), sell_qty: q(s) }))
            .collect(),
    }
}

fn dp(k: Kline, f: KlineTrades) -> KlineDataPoint {
    KlineDataPoint { kline: k, footprint: f }
}

fn trade(time: u64) -> Trade {
    Trade { time, price: Price::from_units(100), qty: q(1), is_sell: false }
}

#[test]
fn footprint_sums() {
    let f = fp(&[(100, 5, 2), (101, 1, 4)]);
    assert_eq!(f.delta_qty(), q(0));
    assert_eq!(f.total_qty(), q(12));
    let g = fp(&[(100, 7, 2), (102, 1, 0)]);
    assert_eq!(g.delta_qty(), q(6));
    assert_eq!(g.total_qty(), q(10));
    assert!(KlineTrades::new().is_empty());
}

#[test]
fn divergence_kinds() {
    let empty = KlineTrades::new();
    // falling candle, more buying: bullish mark
    let k = kline(0, 110, 100, Volume::BuySell(q(10), q(3)));
    assert_eq!(check_divergence(&k, &empty), Some(DivergenceType::Bullish));
    // rising candle, more selling: bearish mark
    let k = kline(0, 100, 110, Volume::BuySell(q(3), q(10)));
    assert_eq!(check_divergence(&k, &empty), Some(DivergenceType::Bearish));
    // direction and delta agree: nothing
    let k = kline(0, 100, 110, Volume::BuySell(q(10), q(3)));
    assert_eq!(check_divergence(&k, &empty), None);
    // doji: nothing
    let k = kline(0, 100, 100, Volume::BuySell(q(3), q(10)));
    assert_eq!(check_divergence(&k, &empty), None);
    // no split volume and no footprint: zero delta, nothing
    let k = kline(0, 110, 100, Volume::TotalOnly(q(10)));
    assert_eq!(check_divergence(&k, &empty), None);
    // the footprint wins over the candle's volume
    let k = kline(0, 110, 100, Volume::BuySell(q(1), q(30)));
    assert_eq!(check_divergence(&k, &fp(&[(100, 9, 1)])), Some(DivergenceType::Bullish));
    assert_eq!(check_divergence(&k, &fp(&[(100, 1, 1)])), None);
}

#[test]
fn directional_parts() {
    assert!(has_directional_volume(Volume::BuySell(q(0), q(0))));
    assert!(!has_directional_volume(Volume::TotalOnly(q(5))));
    assert!(is_directional_parts(&fp(&[(1, 1, 1)]), Volume::TotalOnly(q(5))));
    assert!(!is_directional_parts(&KlineTrades::new(), Volume::TotalOnly(q(5))));
}

fn time_source() -> PlotData {
    PlotData::TimeBased(TimeSeries {
        interval: 60,
        datapoints: vec![
            (60, dp(kline(60, 110, 100, Volume::BuySell(q(9), q(1))), KlineTrades::new())),
            (120, dp(kline(120, 100, 110, Volume::BuySell(q(9), q(1))), KlineTrades::new())),
            (180, dp(kline(180, 100, 110, Volume::TotalOnly(q(4))), fp(&[(105, 1, 5)]))),
        ],
    })
}

#[test]
fn rebuild_time_based() {
    let mut ind = CVDDivergenceIndicator::new();
    assert_eq!(ind.availability(), IndicatorAvailability::Unknown);
    assert!(ind.is_overlay());
    ind.rebuild_from_source(&time_source());
    assert_eq!(ind.len(), 2);
    assert_eq!(ind.point(60).unwrap().div_type, DivergenceType::Bullish);
    assert!(ind.point(120).is_none());
    assert_eq!(ind.point(180).unwrap().div_type, DivergenceType::Bearish);
    assert_eq!(ind.point(180).unwrap().kline.time, 180);
    assert_eq!(ind.availability(), IndicatorAvailability::Available);
}

#[test]
fn rebuild_availability_cases() {
    let mut ind = CVDDivergenceIndicator::new();
    ind.rebuild_from_source(&PlotData::TickBased(TickAggr { tick_count: 1, last_bar_trades: 1, datapoints: vec![] }));
    assert_eq!(ind.availability(), IndicatorAvailability::Unknown);
    assert_eq!(ind.len(), 0);
    let only_totals = PlotData::TickBased(TickAggr {
        tick_count: 1,
        last_bar_trades: 1,
        datapoints: vec![dp(kline(5, 100, 90, Volume::TotalOnly(q(3))), KlineTrades::new())],
    });
    ind.rebuild_from_source(&only_totals);
    assert_eq!(
        ind.availability(),
        IndicatorAvailability::Unavailable(AvailabilityCause::TradeData)
    );
    ind.on_basis_change(&time_source());
    assert_eq!(ind.len(), 2);
    ind.on_ticksize_change(&only_totals);
    assert_eq!(ind.len(), 0);
}

#[test]
fn rebuild_tick_based_keys_by_index() {
    let src = PlotData::TickBased(TickAggr {
        tick_count: 1,
        last_bar_trades: 1,
        datapoints: vec![
            dp(kline(5, 100, 110, Volume::BuySell(q(9), q(1))), KlineTrades::new()),
            dp(kline(9, 100, 110, Volume::BuySell(q(1), q(9))), KlineTrades::new()),
        ],
    });
    let mut ind = CVDDivergenceIndicator::new();
    ind.rebuild_from_source(&src);
    assert!(ind.point(0).is_none());
    assert_eq!(ind.point(1).unwrap().div_type, DivergenceType::Bearish);
    assert_eq!(ind.point(1).unwrap().kline.time, 9);
}

#[test]
fn insert_klines_updates_marks() {
    let src = time_source();
    let mut ind = CVDDivergenceIndicator::new();
    ind.rebuild_from_source(&src);
    // candle 60 turns bearish with its new prices, candle 240 has no stored footprint
    let k60 = kline(60, 100, 120, Volume::BuySell(q(1), q(8)));
    let k120 = kline(120, 100, 120, Volume::BuySell(q(8), q(1)));
    let k240 = kline(240, 130, 120, Volume::BuySell(q(8), q(1)));
    ind.on_insert_klines(&[k60, k120, k240], &src);
    assert_eq!(ind.point(60).unwrap().div_type, DivergenceType::Bearish);
    assert!(ind.point(120).is_none());
    assert_eq!(ind.point(240).unwrap().div_type, DivergenceType::Bullish);
    // a candle that no longer diverges loses its mark
    ind.on_insert_klines(&[kline(240, 130, 120, Volume::BuySell(q(1), q(8)))], &src);
    assert!(ind.point(240).is_none());
}

#[test]
fn insert_klines_availability() {
    let mut ind = CVDDivergenceIndicator::new();
    let empty_src = PlotData::TimeBased(TimeSeries { interval: 60, datapoints: vec![] });
    // totals only, but a mark: unavailable for want of trade data
    let k = kline(60, 110, 100, Volume::TotalOnly(q(5)));
    ind.on_insert_klines(&[k], &empty_src);
    assert_eq!(ind.availability(), IndicatorAvailability::Unknown);
    // a split-volume candle makes it available
    ind.on_insert_klines(&[kline(60, 110, 100, Volume::BuySell(q(5), q(1)))], &empty_src);
    assert_eq!(ind.availability(), IndicatorAvailability::Available);
    // tick-based sources are ignored
    let before = ind.len();
    ind.on_insert_klines(
        &[kline(120, 110, 100, Volume::BuySell(q(5), q(1)))],
        &PlotData::TickBased(TickAggr { tick_count: 1, last_bar_trades: 1, datapoints: vec![] }),
    );
    assert_eq!(ind.len(), before);

    let mut other = CVDDivergenceIndicator::new();
    let src = PlotData::TimeBased(TimeSeries {
        interval: 60,
        datapoints: vec![(60, dp(kline(60, 110, 100, Volume::TotalOnly(q(5))), KlineTrades::new()))],
    });
    // a candle with total volume only and no footprint gets no mark
    other.on_insert_klines(&[kline(60, 110, 100, Volume::TotalOnly(q(5)))], &src);
    assert_eq!(other.len(), 0);
    assert_eq!(other.availability(), IndicatorAvailability::Unknown);
}

#[test]
fn insert_trades_time_based() {
    let mut src = time_source();
    let mut ind = CVDDivergenceIndicator::new();
    ind.rebuild_from_source(&src);
    // the candle at 120 gains a footprint with more selling: it becomes a bearish mark
    if let PlotData::TimeBased(ts) = &mut src {
        ts.datapoints[1].1.footprint = fp(&[(105, 1, 6)]);
        ts.datapoints[0].1.footprint = fp(&[(105, 1, 6)]);
    }
    // trades at 130 and 179 fall in the candle opening at 120; none falls in 60
    ind.on_insert_trades(&[trade(130), trade(179)], 0, &src);
    assert_eq!(ind.point(120).unwrap().div_type, DivergenceType::Bearish);
    assert_eq!(ind.point(60).unwrap().div_type, DivergenceType::Bullish);
    // trades touching no stored candle change nothing
    let n = ind.len();
    ind.on_insert_trades(&[trade(1000)], 0, &src);
    assert_eq!(ind.len(), n);
    // now the candle at 60 is recomputed and loses its bullish mark
    ind.on_insert_trades(&[trade(61)], 0, &src);
    assert!(ind.point(60).is_none());
    assert_eq!(ind.availability(), IndicatorAvailability::Available);
}

#[test]
fn insert_trades_tick_based() {
    let mut datapoints = vec![
        dp(kline(1, 100, 110, Volume::BuySell(q(9), q(1))), KlineTrades::new()),
        dp(kline(2, 100, 110, Volume::BuySell(q(9), q(1))), KlineTrades::new()),
    ];
    let mut ind = CVDDivergenceIndicator::new();
    ind.rebuild_from_source(&PlotData::TickBased(TickAggr { tick_count: 1, last_bar_trades: 1, datapoints: datapoints.clone() }));
    assert_eq!(ind.len(), 0);
    datapoints[0] = dp(kline(1, 100, 110, Volume::BuySell(q(1), q(9))), KlineTrades::new());
    datapoints[1] = dp(kline(2, 100, 110, Volume::BuySell(q(1), q(9))), KlineTrades::new());
    datapoints.push(dp(kline(3, 100, 110, Volume::BuySell(q(1), q(9))), KlineTrades::new()));
    let src = PlotData::TickBased(TickAggr { tick_count: 1, last_bar_trades: 1, datapoints });
    // two bars existed before: bars from index 1 on are recomputed
    ind.on_insert_trades(&[], 2, &src);
    assert!(ind.point(0).is_none());
    assert_eq!(ind.point(1).unwrap().div_type, DivergenceType::Bearish);
    assert_eq!(ind.point(2).unwrap().div_type, DivergenceType::Bearish);
    assert_eq!(ind.availability(), IndicatorAvailability::Available);
}

#[test]
fn incremental_matches_rebuild() {
    let mut src = time_source();
    let mut ind = CVDDivergenceIndicator::new();
    ind.rebuild_from_source(&src);
    if let PlotData::TimeBased(ts) = &mut src {
        ts.datapoints[2].1.footprint = fp(&[(105, 9, 5)]);
    }
    ind.on_insert_trades(&[trade(200)], 0, &src);
    let mut full = CVDDivergenceIndicator::new();
    full.rebuild_from_source(&src);
    for t in [60u64, 120, 180] {
        assert_eq!(ind.point(t), full.point(t));
    }
    assert_eq!(ind.len(), full.len());
}

#[test]
fn time_series_find() {
    if let PlotData::TimeBased(ts) = time_source() {
        assert_eq!(ts.find(120), Some(1));
        assert_eq!(ts.find(180), Some(2));
        assert_eq!(ts.find(60), Some(0));
        assert_eq!(ts.find(61), None);
        assert_eq!(ts.find(0), None);
        assert_eq!(ts.find(500), None);
    } else {
        unreachable!();
    }
}
