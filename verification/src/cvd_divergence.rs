//! The CVD divergence indicator: marks candles whose direction disagrees
//! with the sign of their volume delta (buy minus sell quantity).

use vstd::prelude::*;
use std::collections::BTreeMap;
use crate::units::{Kline, Price, Trade, Volume, floor_to, spec_floor_to};
use crate::footprint::{
    GroupedTrades, KlineDataPoint, KlineTrades, PlotData, delta_sum, lemma_sums_bounded, lemma_time_map,
    tick_map, time_map,
};

verus! {

broadcast use vstd::std_specs::btree::group_btree_axioms;

/// The kind of a divergence.
#[derive(Clone, Copy, Debug, PartialEq, Eq, Structural)]
pub enum DivergenceType {
    /// Price down, delta up: selling pressure is being absorbed.
    Bullish,
    /// Price up, delta down: buying pressure is fading.
    Bearish,
}

/// A marked candle.
#[derive(Clone, Copy, Debug, PartialEq, Eq, Structural)]
pub struct DivPoint {
    pub kline: Kline,
    pub div_type: DivergenceType,
}

/// Why an indicator has nothing to show.
#[derive(Clone, Copy, Debug, PartialEq, Eq, Structural)]
pub enum AvailabilityCause {
    TradeData,
}

/// Whether an indicator can be computed from the data at hand.
#[derive(Clone, Copy, Debug, PartialEq, Eq, Structural)]
pub enum IndicatorAvailability {
    Unknown,
    Available,
    Unavailable(AvailabilityCause),
}

/// The delta of a candle: summed over its footprint when it has one, else
/// buy minus sell volume when the volume is split, else zero.
pub open spec fn spec_delta(k: Kline, fp: Seq<(Price, GroupedTrades)>) -> int {
    if fp.len() == 0 {
        match k.volume {
            Volume::BuySell(b, s) => b.units - s.units,
            Volume::TotalOnly(_) => 0,
        }
    } else {
        delta_sum(fp)
    }
}

/// A falling candle with positive delta is a bullish divergence; a rising
/// candle with negative delta is a bearish one; anything else is none.
pub open spec fn spec_divergence(k: Kline, fp: Seq<(Price, GroupedTrades)>) -> Option<
    DivergenceType,
> {
    let d = spec_delta(k, fp);
    if d == 0 {
        None
    } else if k.close.units < k.open.units && d > 0 {
        Some(DivergenceType::Bullish)
    } else if k.close.units > k.open.units && d < 0 {
        Some(DivergenceType::Bearish)
    } else {
        None
    }
}

/// The mark a data point gets, if any.
pub open spec fn div_entry(dp: KlineDataPoint) -> Option<DivPoint> {
    match spec_divergence(dp.kline, dp.footprint.trades@) {
        Some(t) => Some(DivPoint { kline: dp.kline, div_type: t }),
        None => None,
    }
}

/// Whether buy and sell can be told apart: the candle has a footprint or a
/// split volume.
pub open spec fn spec_directional(fp: Seq<(Price, GroupedTrades)>, v: Volume) -> bool {
    fp.len() > 0 || v is BuySell
}

/// `marks` with the keys chosen by `keys` that hold a data point in `src`
/// recomputed from it.
pub open spec fn refreshed(
    marks: Map<u64, DivPoint>,
    src: Map<u64, KlineDataPoint>,
    keys: spec_fn(u64) -> bool,
) -> Map<u64, DivPoint> {
    Map::new(
        |t: u64|
            if keys(t) && src.contains_key(t) {
                div_entry(src[t]) is Some
            } else {
                marks.contains_key(t)
            },
        |t: u64|
            if keys(t) && src.contains_key(t) {
                div_entry(src[t])->Some_0
            } else {
                marks[t]
            },
    )
}

/// The marks of a whole series.
pub open spec fn divergence_map(src: Map<u64, KlineDataPoint>) -> Map<u64, DivPoint> {
    refreshed(Map::empty(), src, |t: u64| true)
}

/// The footprint stored for `t`, or an empty one.
pub open spec fn footprint_at(src: Map<u64, KlineDataPoint>, t: u64) -> Seq<(Price, GroupedTrades)> {
    if src.contains_key(t) {
        src[t].footprint.trades@
    } else {
        Seq::empty()
    }
}

/// The marks after new candles arrive, one after the other.
pub open spec fn after_klines(
    marks: Map<u64, DivPoint>,
    klines: Seq<Kline>,
    src: Map<u64, KlineDataPoint>,
) -> Map<u64, DivPoint>
    decreases klines.len(),
{
    if klines.len() == 0 {
        marks
    } else {
        let m = after_klines(marks, klines.drop_last(), src);
        let k = klines.last();
        match spec_divergence(k, footprint_at(src, k.time)) {
            Some(t) => m.insert(k.time, DivPoint { kline: k, div_type: t }),
            None => m.remove(k.time),
        }
    }
}

/// Some trade falls in the bucket that opens at `t`.
pub open spec fn touches(trades: Seq<Trade>, interval: u64, t: u64) -> bool {
    exists|i: int| 0 <= i < trades.len() && spec_floor_to((#[trigger] trades[i]).time, interval) == t
}

/// What the marks say about availability after a rebuild.
pub open spec fn availability_of(has_points: bool, has_directional: bool) -> IndicatorAvailability {
    if !has_points {
        IndicatorAvailability::Unknown
    } else if has_directional {
        IndicatorAvailability::Available
    } else {
        IndicatorAvailability::Unavailable(AvailabilityCause::TradeData)
    }
}

/// The abstract state of the indicator.
pub struct CvdView {
    /// Marks are keyed by open time (true) or by tick bar index (false).
    pub time_based: bool,
    pub points: Map<u64, DivPoint>,
    pub availability: IndicatorAvailability,
}

/// The CVD divergence indicator.
pub struct CVDDivergenceIndicator {
    time_based: bool,
    points: BTreeMap<u64, DivPoint>,
    availability: IndicatorAvailability,
}

impl View for CVDDivergenceIndicator {
    type V = CvdView;

    closed spec fn view(&self) -> CvdView {
        CvdView { time_based: self.time_based, points: self.points@, availability: self.availability }
    }
}

/// Whether a footprint or a volume tells buy from sell.
pub fn is_directional_parts(footprint: &KlineTrades, volume: Volume) -> (r: bool)
    ensures
        r == spec_directional(footprint.trades@, volume),
{
    !footprint.is_empty() || has_directional_volume(volume)
}

/// Whether a volume is split into buy and sell.
pub fn has_directional_volume(volume: Volume) -> (r: bool)
    ensures
        r == (volume is BuySell),
{
    volume.buy_sell().is_some()
}

/// The divergence a candle shows, given its footprint.
pub fn check_divergence(kline: &Kline, footprint: &KlineTrades) -> (r: Option<DivergenceType>)
    requires
        kline.wf(),
        footprint.wf(),
    ensures
        r == spec_divergence(*kline, footprint.trades@),
{
    let delta: i64 = if footprint.is_empty() {
        match kline.volume.buy_sell() {
            Some((b, s)) => b.units - s.units,
            None => 0,
        }
    } else {
        footprint.delta_qty().units
    };
    if delta == 0 {
        return None;
    }
    let is_rising_candle = kline.close.units > kline.open.units;
    let is_falling_candle = kline.close.units < kline.open.units;
    if is_falling_candle && delta > 0 {
        Some(DivergenceType::Bullish)
    } else if is_rising_candle && delta < 0 {
        Some(DivergenceType::Bearish)
    } else {
        None
    }
}

impl CVDDivergenceIndicator {
    /// An indicator with no marks, keyed by time, availability unknown.
    pub fn new() -> (s: CVDDivergenceIndicator)
        ensures
            s@.time_based,
            s@.points == Map::<u64, DivPoint>::empty(),
            s@.availability == IndicatorAvailability::Unknown,
    {
        CVDDivergenceIndicator {
            time_based: true,
            points: BTreeMap::new(),
            availability: IndicatorAvailability::Unknown,
        }
    }

    /// Drawn over the candles, not in a panel of its own.
    pub fn is_overlay(&self) -> (r: bool)
        ensures
            r,
    {
        true
    }

    /// Whether the indicator can be computed.
    pub fn availability(&self) -> (r: IndicatorAvailability)
        ensures
            r == self@.availability,
    {
        self.availability
    }

    /// The mark at `key`, if any.
    pub fn point(&self, key: u64) -> (r: Option<DivPoint>)
        ensures
            r == (if self@.points.contains_key(key) {
                Some(self@.points[key])
            } else {
                None::<DivPoint>
            }),
    {
        match self.points.get(&key) {
            Some(p) => Some(*p),
            None => None,
        }
    }

    /// The number of marks.
    pub fn len(&self) -> (r: usize)
        ensures
            r == self@.points.len(),
    {
        self.points.len()
    }

    /// Recomputes every mark from the source.
    pub fn rebuild_from_source(&mut self, source: &PlotData)
        requires
            source.wf(),
        ensures
            final(self)@.time_based == (source is TimeBased),
            final(self)@.points == divergence_map(source.keyed()),
            final(self)@.availability == availability_of(
                source.len() > 0,
                exists|k: u64| #[trigger]
                    source.keyed().contains_key(k) && spec_directional(
                        source.keyed()[k].footprint.trades@,
                        source.keyed()[k].kline.volume,
                    ),
            ),
    {
        let mut map: BTreeMap<u64, DivPoint> = BTreeMap::new();
        let mut has_directional = false;
        let has_points;
        match source {
            PlotData::TimeBased(ts) => {
                let ghost s = ts.datapoints@;
                let n = ts.datapoints.len();
                let mut i: usize = 0;
                while i < n
                    invariant
                        source.wf(),
                        *source == PlotData::TimeBased(*ts),
                        s == ts.datapoints@,
                        n == s.len(),
                        i <= n,
                        map@ == divergence_map(time_map(s.take(i as int))),
                        has_directional == exists|j: int|
                            0 <= j < i && spec_directional(
                                (#[trigger] s[j]).1.footprint.trades@,
                                s[j].1.kline.volume,
                            ),
                    decreases n - i,
                {
                    let t = ts.datapoints[i].0;
                    let dp = &ts.datapoints[i].1;
                    proof {
                        assert(s[i as int].1.wf());
                        lemma_insert_fresh_key(s, i as int);
                    }
                    if is_directional_parts(&dp.footprint, dp.kline.volume) {
                        has_directional = true;
                    }
                    if let Some(div_type) = check_divergence(&dp.kline, &dp.footprint) {
                        map.insert(t, DivPoint { kline: dp.kline, div_type });
                    }
                    proof {
                        let m0 = time_map(s.take(i as int));
                        let m1 = time_map(s.take(i + 1));
                        assert(s.take(i + 1).drop_last() == s.take(i as int));
                        assert(m1 == m0.insert(t, *dp));
                        assert(!m0.contains_key(t));
                        assert(map@ =~= divergence_map(m1));
                    }
                    i = i + 1;
                }
                proof {
                    assert(s.take(n as int) == s);
                    lemma_time_map(s);
                    let m = time_map(s);
                    if has_directional {
                        let j = choose|j: int|
                            0 <= j < n && spec_directional(
                                (#[trigger] s[j]).1.footprint.trades@,
                                s[j].1.kline.volume,
                            );
                        assert(m.contains_key(s[j].0));
                    }
                    if exists|k: u64| #[trigger]
                        m.contains_key(k) && spec_directional(
                            m[k].footprint.trades@,
                            m[k].kline.volume,
                        ) {
                        let k = choose|k: u64| #[trigger]
                            m.contains_key(k) && spec_directional(
                                m[k].footprint.trades@,
                                m[k].kline.volume,
                            );
                        let j = choose|j: int| 0 <= j < s.len() && (#[trigger] s[j]).0 == k;
                        assert(spec_directional(s[j].1.footprint.trades@, s[j].1.kline.volume));
                    }
                }
                has_points = n > 0;
                self.time_based = true;
            },
            PlotData::TickBased(ta) => {
                let ghost s = ta.datapoints@;
                assert(forall|j: int| 0 <= j < s.len() ==> (#[trigger] s[j]).wf());
                let n = ta.datapoints.len();
                let mut i: usize = 0;
                while i < n
                    invariant
                        source.wf(),
                        *source == PlotData::TickBased(*ta),
                        s == ta.datapoints@,
                        n == s.len(),
                        forall|j: int| 0 <= j < s.len() ==> (#[trigger] s[j]).wf(),
                        i <= n,
                        map@ == refreshed(Map::empty(), tick_map(s), |k: u64| k < i),
                        has_directional == exists|j: int|
                            0 <= j < i && spec_directional(
                                (#[trigger] s[j]).footprint.trades@,
                                s[j].kline.volume,
                            ),
                    decreases n - i,
                {
                    let dp = &ta.datapoints[i];
                    proof {
                        assert(s[i as int].wf());
                    }
                    if is_directional_parts(&dp.footprint, dp.kline.volume) {
                        has_directional = true;
                    }
                    if let Some(div_type) = check_divergence(&dp.kline, &dp.footprint) {
                        map.insert(i as u64, DivPoint { kline: dp.kline, div_type });
                    }
                    proof {
                        assert(map@ =~= refreshed(Map::empty(), tick_map(s), |k: u64| k < i + 1));
                    }
                    i = i + 1;
                }
                proof {
                    assert(map@ =~= divergence_map(tick_map(s)));
                    let m = tick_map(s);
                    if has_directional {
                        let j = choose|j: int|
                            0 <= j < n && spec_directional(
                                (#[trigger] s[j]).footprint.trades@,
                                s[j].kline.volume,
                            );
                        assert(m.contains_key(j as u64));
                    }
                    if exists|k: u64| #[trigger]
                        m.contains_key(k) && spec_directional(
                            m[k].footprint.trades@,
                            m[k].kline.volume,
                        ) {
                        let k = choose|k: u64| #[trigger]
                            m.contains_key(k) && spec_directional(
                                m[k].footprint.trades@,
                                m[k].kline.volume,
                            );
                        assert(spec_directional(s[k as int].footprint.trades@, s[k as int].kline.volume));
                    }
                }
                has_points = n > 0;
                self.time_based = false;
            },
        }
        self.points = map;
        self.availability = if !has_points {
            IndicatorAvailability::Unknown
        } else if has_directional {
            IndicatorAvailability::Available
        } else {
            IndicatorAvailability::Unavailable(AvailabilityCause::TradeData)
        };
    }

    /// A tick size change rebuilds every mark.
    pub fn on_ticksize_change(&mut self, source: &PlotData)
        requires
            source.wf(),
        ensures
            final(self)@.time_based == (source is TimeBased),
            final(self)@.points == divergence_map(source.keyed()),
            final(self)@.availability == availability_of(
                source.len() > 0,
                exists|k: u64| #[trigger]
                    source.keyed().contains_key(k) && spec_directional(
                        source.keyed()[k].footprint.trades@,
                        source.keyed()[k].kline.volume,
                    ),
            ),
    {
        self.rebuild_from_source(source);
    }

    /// A basis change rebuilds every mark.
    pub fn on_basis_change(&mut self, source: &PlotData)
        requires
            source.wf(),
        ensures
            final(self)@.time_based == (source is TimeBased),
            final(self)@.points == divergence_map(source.keyed()),
            final(self)@.availability == availability_of(
                source.len() > 0,
                exists|k: u64| #[trigger]
                    source.keyed().contains_key(k) && spec_directional(
                        source.keyed()[k].footprint.trades@,
                        source.keyed()[k].kline.volume,
                    ),
            ),
    {
        self.rebuild_from_source(source);
    }
}

impl CVDDivergenceIndicator {
    /// New or updated candles of a time-based chart: each one's mark is
    /// recomputed from the candle itself and the footprint stored for its
    /// time. Candles that tell buy from sell make the indicator available;
    /// marks without any such candle make it unavailable for want of trade
    /// data. Tick-based sources and tick-keyed marks are left alone.
    pub fn on_insert_klines(&mut self, klines: &[Kline], source: &PlotData)
        requires
            source.wf(),
            forall|j: int| 0 <= j < klines@.len() ==> (#[trigger] klines@[j]).wf(),
        ensures
            match source {
                PlotData::TickBased(_) => final(self)@ == old(self)@,
                PlotData::TimeBased(ts) => if !old(self)@.time_based {
                    final(self)@ == old(self)@
                } else {
                    let pts = after_klines(old(self)@.points, klines@, ts.map());
                    let dir = exists|j: int|
                        0 <= j < klines@.len() && spec_directional(
                            footprint_at(ts.map(), (#[trigger] klines@[j]).time),
                            klines@[j].volume,
                        );
                    let av = if dir {
                        IndicatorAvailability::Available
                    } else {
                        old(self)@.availability
                    };
                    &&& final(self)@.time_based
                    &&& final(self)@.points == pts
                    &&& final(self)@.availability == (if av == IndicatorAvailability::Unknown
                        && !pts.is_empty() {
                        IndicatorAvailability::Unavailable(AvailabilityCause::TradeData)
                    } else {
                        av
                    })
                },
            },
    {
        let ts = match source {
            PlotData::TimeBased(ts) => ts,
            PlotData::TickBased(_) => {
                return ;
            },
        };
        if !self.time_based {
            return ;
        }
        let ghost s = ts.datapoints@;
        let ghost old_points = self.points@;
        proof {
            lemma_time_map(s);
        }
        let empty = KlineTrades::new();
        let mut directional = false;
        let n = klines.len();
        let mut i: usize = 0;
        while i < n
            invariant
                ts.wf(),
                s == ts.datapoints@,
                n == klines@.len(),
                forall|j: int| 0 <= j < klines@.len() ==> (#[trigger] klines@[j]).wf(),
                empty.trades@.len() == 0,
                i <= n,
                self.time_based,
                self.availability == old(self).availability,
                self.points@ == after_klines(old_points, klines@.take(i as int), ts.map()),
                directional == exists|j: int|
                    0 <= j < i && spec_directional(
                        footprint_at(ts.map(), (#[trigger] klines@[j]).time),
                        klines@[j].volume,
                    ),
                forall|t: u64| #[trigger]
                    time_map(s).contains_key(t) <==> exists|j: int| 0 <= j < s.len() && (#[trigger] s[j]).0
                        == t,
                forall|j: int| 0 <= j < s.len() ==> #[trigger] time_map(s)[s[j].0] == s[j].1,
            decreases n - i,
        {
            let k = klines[i];
            let found = ts.find(k.time);
            let fp: &KlineTrades = match found {
                Some(j) => &ts.datapoints[j].1.footprint,
                None => &empty,
            };
            proof {
                assert(k.wf());
                if let Some(j) = found {
                    assert(s[j as int].1.wf());
                    assert(time_map(s).contains_key(k.time));
                    assert(footprint_at(ts.map(), k.time) == fp.trades@);
                } else {
                    assert(!time_map(s).contains_key(k.time));
                    assert(footprint_at(ts.map(), k.time) =~= fp.trades@);
                }
                assert(klines@.take(i + 1).drop_last() == klines@.take(i as int));
            }
            if is_directional_parts(fp, k.volume) {
                directional = true;
            }
            match check_divergence(&k, fp) {
                Some(div_type) => {
                    self.points.insert(k.time, DivPoint { kline: k, div_type });
                },
                None => {
                    self.points.remove(&k.time);
                },
            }
            i = i + 1;
        }
        proof {
            assert(klines@.take(n as int) == klines@);
        }
        if directional {
            self.availability = IndicatorAvailability::Available;
        }
        let has_data = !self.points.is_empty();
        if self.availability == IndicatorAvailability::Unknown && has_data {
            self.availability = IndicatorAvailability::Unavailable(AvailabilityCause::TradeData);
        }
    }

    /// New trades: the marks of the candles they fall in are recomputed
    /// from the source. For a time-based chart a trade falls in the candle
    /// that opens at its time rounded down to the interval; for a tick-based
    /// chart every bar from the last one before the insertion onwards is
    /// recomputed. Any recomputed candle makes the indicator available.
    pub fn on_insert_trades(&mut self, trades: &[Trade], old_dp_len: usize, source: &PlotData)
        requires
            source.wf(),
        ensures
            match source {
                PlotData::TimeBased(ts) => if trades@.len() == 0 || !old(self)@.time_based {
                    final(self)@ == old(self)@
                } else {
                    let touched = exists|i: int|
                        0 <= i < trades@.len() && ts.map().contains_key(
                            spec_floor_to((#[trigger] trades@[i]).time, ts.interval),
                        );
                    &&& final(self)@.time_based
                    &&& final(self)@.points == refreshed(
                        old(self)@.points,
                        ts.map(),
                        |t: u64| touches(trades@, ts.interval, t),
                    )
                    &&& final(self)@.availability == (if touched {
                        IndicatorAvailability::Available
                    } else {
                        old(self)@.availability
                    })
                },
                PlotData::TickBased(ta) => if old(self)@.time_based {
                    final(self)@ == old(self)@
                } else {
                    let start: int = if old_dp_len > 0 {
                        old_dp_len - 1
                    } else {
                        0
                    };
                    &&& !final(self)@.time_based
                    &&& final(self)@.points == refreshed(
                        old(self)@.points,
                        tick_map(ta.datapoints@),
                        |k: u64| start <= k,
                    )
                    &&& final(self)@.availability == (if start < ta.datapoints@.len() {
                        IndicatorAvailability::Available
                    } else {
                        old(self)@.availability
                    })
                },
            },
    {
        let ghost old_points = self.points@;
        let mut touched = false;
        match source {
            PlotData::TimeBased(ts) => {
                if trades.len() == 0 {
                    return ;
                }
                if !self.time_based {
                    return ;
                }
                let ghost s = ts.datapoints@;
                proof {
                    lemma_time_map(s);
                }
                let n = trades.len();
                let mut i: usize = 0;
                while i < n
                    invariant
                        ts.wf(),
                        s == ts.datapoints@,
                        n == trades@.len(),
                        i <= n,
                        self.time_based,
                        self.availability == old(self).availability,
                        self.points@ == refreshed(
                            old_points,
                            ts.map(),
                            |t: u64| touches(trades@.take(i as int), ts.interval, t),
                        ),
                        touched == exists|j: int|
                            0 <= j < i && ts.map().contains_key(
                                spec_floor_to((#[trigger] trades@[j]).time, ts.interval),
                            ),
                        forall|t: u64| #[trigger]
                            time_map(s).contains_key(t) <==> exists|j: int|
                                0 <= j < s.len() && (#[trigger] s[j]).0 == t,
                        forall|j: int| 0 <= j < s.len() ==> #[trigger] time_map(s)[s[j].0] == s[j].1,
                    decreases n - i,
                {
                    let b = floor_to(trades[i].time, ts.interval);
                    let ghost prev = trades@.take(i as int);
                    let ghost next = trades@.take(i + 1);
                    proof {
                        assert forall|t: u64| #[trigger]
                            touches(next, ts.interval, t) == (touches(prev, ts.interval, t) || t
                                == b) by {
                            if touches(next, ts.interval, t) {
                                let j = choose|j: int|
                                    0 <= j < next.len() && spec_floor_to(
                                        (#[trigger] next[j]).time,
                                        ts.interval,
                                    ) == t;
                                if j < i {
                                    assert(prev[j] == next[j]);
                                }
                            }
                            if touches(prev, ts.interval, t) {
                                let j = choose|j: int|
                                    0 <= j < prev.len() && spec_floor_to(
                                        (#[trigger] prev[j]).time,
                                        ts.interval,
                                    ) == t;
                                assert(next[j] == prev[j]);
                            }
                            if t == b {
                                assert(next[i as int] == trades@[i as int]);
                            }
                        }
                    }
                    match ts.find(b) {
                        Some(j) => {
                            let dp = &ts.datapoints[j].1;
                            proof {
                                assert(s[j as int].1.wf());
                                assert(time_map(s).contains_key(b));
                                assert(time_map(s)[b] == *dp);
                            }
                            match check_divergence(&dp.kline, &dp.footprint) {
                                Some(div_type) => {
                                    self.points.insert(b, DivPoint { kline: dp.kline, div_type });
                                },
                                None => {
                                    self.points.remove(&b);
                                },
                            }
                            touched = true;
                        },
                        None => {
                            proof {
                                assert(!time_map(s).contains_key(b));
                            }
                        },
                    }
                    proof {
                        assert(self.points@ =~= refreshed(
                            old_points,
                            ts.map(),
                            |t: u64| touches(next, ts.interval, t),
                        ));
                    }
                    i = i + 1;
                }
                proof {
                    assert(trades@.take(n as int) == trades@);
                    assert(self.points@ =~= refreshed(
                        old_points,
                        ts.map(),
                        |t: u64| touches(trades@, ts.interval, t),
                    ));
                    assert(touched == exists|j: int|
                            0 <= j < trades@.len() && ts.map().contains_key(
                                spec_floor_to((#[trigger] trades@[j]).time, ts.interval),
                            ));
                }
            },
            PlotData::TickBased(ta) => {
                if self.time_based {
                    return ;
                }
                let ghost s = ta.datapoints@;
                let n = ta.datapoints.len();
                let start = if old_dp_len > 0 {
                    old_dp_len - 1
                } else {
                    0
                };
                let mut idx = start;
                while idx < n
                    invariant
                        s == ta.datapoints@,
                        forall|j: int| 0 <= j < s.len() ==> (#[trigger] s[j]).wf(),
                        n == s.len(),
                        start <= idx,
                        start < n ==> idx <= n,
                        start >= n ==> idx == start,
                        !self.time_based,
                        self.availability == old(self).availability,
                        self.points@ == refreshed(
                            old_points,
                            tick_map(s),
                            |k: u64| start <= k < idx,
                        ),
                        touched == (start < idx),
                    decreases n - idx,
                {
                    let dp = &ta.datapoints[idx];
                    proof {
                        assert(s[idx as int].wf());
                    }
                    match check_divergence(&dp.kline, &dp.footprint) {
                        Some(div_type) => {
                            self.points.insert(idx as u64, DivPoint { kline: dp.kline, div_type });
                        },
                        None => {
                            self.points.remove(&(idx as u64));
                        },
                    }
                    touched = true;
                    proof {
                        assert(self.points@ =~= refreshed(
                            old_points,
                            tick_map(s),
                            |k: u64| start <= k < idx + 1,
                        ));
                    }
                    idx = idx + 1;
                }
                proof {
                    assert(self.points@ =~= refreshed(
                        old_points,
                        tick_map(s),
                        |k: u64| start <= k,
                    ));
                }
            },
        }
        if touched {
            self.availability = IndicatorAvailability::Available;
        }
    }
}

/// The key of entry `i` of an increasing series is not among the keys before it.
proof fn lemma_insert_fresh_key(s: Seq<(u64, KlineDataPoint)>, i: int)
    requires
        crate::footprint::keys_increasing(s),
        0 <= i < s.len(),
    ensures
        !time_map(s.take(i)).contains_key(s[i].0),
        time_map(s.take(i + 1)) == time_map(s.take(i)).insert(s[i].0, s[i].1),
{
    let p = s.take(i);
    assert(crate::footprint::keys_increasing(p)) by {
        assert forall|a: int, b: int| 0 <= a < b < p.len() implies (#[trigger] p[a]).0 < (
        #[trigger] p[b]).0 by {
            assert(p[a] == s[a] && p[b] == s[b]);
        }
    }
    lemma_time_map(p);
    if time_map(p).contains_key(s[i].0) {
        let j = choose|j: int| 0 <= j < p.len() && (#[trigger] p[j]).0 == s[i].0;
        assert(p[j] == s[j]);
    }
    assert(s.take(i + 1).drop_last() == p);
}

/// Recomputing only the candles whose data changed gives the marks a full
/// rebuild gives: when the new source keeps every old candle, and every
/// candle outside the recomputed keys is unchanged, refreshing the old
/// marks at those keys yields the marks of the new source.
pub proof fn lemma_refresh_matches_rebuild(
    old_src: Map<u64, KlineDataPoint>,
    new_src: Map<u64, KlineDataPoint>,
    keys: spec_fn(u64) -> bool,
)
    requires
        forall|t: u64| #[trigger] old_src.contains_key(t) ==> new_src.contains_key(t),
        forall|t: u64|
            #[trigger] new_src.contains_key(t) && !keys(t) ==> old_src.contains_key(t) && old_src[t]
                == new_src[t],
    ensures
        refreshed(divergence_map(old_src), new_src, keys) == divergence_map(new_src),
{
    assert(refreshed(divergence_map(old_src), new_src, keys) =~= divergence_map(new_src));
}

/// A bullish divergence is a falling candle with positive delta, a bearish
/// one a rising candle with negative delta; a candle that closes where it
/// opened, or whose delta is zero, shows none.
pub proof fn lemma_divergence_direction(k: Kline, fp: Seq<(Price, GroupedTrades)>)
    ensures
        spec_divergence(k, fp) == Some(DivergenceType::Bullish) <==> (k.close.units < k.open.units
            && spec_delta(k, fp) > 0),
        spec_divergence(k, fp) == Some(DivergenceType::Bearish) <==> (k.close.units > k.open.units
            && spec_delta(k, fp) < 0),
        k.close.units == k.open.units ==> spec_divergence(k, fp) is None,
        spec_delta(k, fp) == 0 ==> spec_divergence(k, fp) is None,
{
}

/// Trades that fall in no stored candle change no mark.
pub proof fn lemma_untouched_marks_unchanged(
    marks: Map<u64, DivPoint>,
    src: Map<u64, KlineDataPoint>,
    trades: Seq<Trade>,
    interval: u64,
)
    requires
        forall|i: int|
            0 <= i < trades.len() ==> !src.contains_key(
                spec_floor_to((#[trigger] trades[i]).time, interval),
            ),
    ensures
        refreshed(marks, src, |t: u64| touches(trades, interval, t)) == marks,
{
    assert forall|t: u64| touches(trades, interval, t) implies !src.contains_key(t) by {
        let i = choose|i: int|
            0 <= i < trades.len() && spec_floor_to((#[trigger] trades[i]).time, interval) == t;
    }
    assert(refreshed(marks, src, |t: u64| touches(trades, interval, t)) =~= marks);
}

} // verus!
