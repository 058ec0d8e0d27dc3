//! Candles with their footprints (traded quantity per price level), and the
//! two ways a chart holds them: keyed by time, or as a list of tick bars.

use vstd::prelude::*;
use crate::units::{Kline, Price, Qty};

verus! {

/// The buy and sell quantity traded at one price level.
#[derive(Clone, Copy, Debug, PartialEq, Eq, Structural)]
pub struct GroupedTrades {
    pub buy_qty: Qty,
    pub sell_qty: Qty,
}

impl GroupedTrades {
    /// Both sides are non-negative and their sum fits a quantity.
    pub open spec fn wf(self) -> bool {
        0 <= self.buy_qty.units && 0 <= self.sell_qty.units && self.buy_qty.units
            + self.sell_qty.units <= i64::MAX
    }

    /// Buy minus sell quantity.
    pub fn delta_qty(&self) -> (q: Qty)
        requires
            self.wf(),
        ensures
            q.units == self.buy_qty.units - self.sell_qty.units,
    {
        Qty { units: self.buy_qty.units - self.sell_qty.units }
    }

    /// Buy plus sell quantity.
    pub fn total_qty(&self) -> (q: Qty)
        requires
            self.wf(),
        ensures
            q.units == self.buy_qty.units + self.sell_qty.units,
    {
        Qty { units: self.buy_qty.units + self.sell_qty.units }
    }
}

/// Sum of buy minus sell over price levels.
pub open spec fn delta_sum(s: Seq<(Price, GroupedTrades)>) -> int
    decreases s.len(),
{
    if s.len() == 0 {
        0
    } else {
        delta_sum(s.drop_last()) + s.last().1.buy_qty.units - s.last().1.sell_qty.units
    }
}

/// Sum of buy plus sell over price levels.
pub open spec fn total_sum(s: Seq<(Price, GroupedTrades)>) -> int
    decreases s.len(),
{
    if s.len() == 0 {
        0
    } else {
        total_sum(s.drop_last()) + s.last().1.buy_qty.units + s.last().1.sell_qty.units
    }
}

/// Every level is well formed.
pub open spec fn levels_wf(s: Seq<(Price, GroupedTrades)>) -> bool {
    forall|i: int| 0 <= i < s.len() ==> (#[trigger] s[i]).1.wf()
}

/// Prices strictly increase along the levels.
pub open spec fn prices_increasing(s: Seq<(Price, GroupedTrades)>) -> bool {
    forall|i: int, j: int| 0 <= i < j < s.len() ==> (#[trigger] s[i]).0.units < (#[trigger] s[j]).0.units
}

/// No price occurs twice.
pub open spec fn prices_distinct(s: Seq<(Price, GroupedTrades)>) -> bool {
    forall|i: int, j: int| 0 <= i < j < s.len() ==> (#[trigger] s[i]).0 != (#[trigger] s[j]).0
}

/// For well-formed levels the running sums stay between minus and plus the
/// running total.
pub proof fn lemma_sums_bounded(s: Seq<(Price, GroupedTrades)>)
    requires
        levels_wf(s),
    ensures
        0 <= total_sum(s),
        -total_sum(s) <= delta_sum(s) <= total_sum(s),
        forall|k: int| 0 <= k <= s.len() ==> #[trigger] total_sum(s.take(k)) <= total_sum(s),
    decreases s.len(),
{
    if s.len() > 0 {
        let t = s.drop_last();
        assert forall|i: int| 0 <= i < t.len() implies (#[trigger] t[i]).1.wf() by {
            assert(t[i] == s[i]);
        }
        lemma_sums_bounded(t);
        assert(s[s.len() - 1].1.wf());
        assert forall|k: int| 0 <= k <= s.len() implies #[trigger] total_sum(s.take(k))
            <= total_sum(s) by {
            if k < s.len() {
                assert(s.take(k) == t.take(k));
            } else {
                assert(s.take(k) == s);
            }
        }
    }
}

/// The trades of one candle grouped by price level.
#[derive(Clone, Debug)]
pub struct KlineTrades {
    pub trades: Vec<(Price, GroupedTrades)>,
}

impl KlineTrades {
    /// An empty footprint.
    pub fn new() -> (f: KlineTrades)
        ensures
            f.trades@.len() == 0,
    {
        KlineTrades { trades: Vec::new() }
    }

    /// Levels are ordered by strictly increasing price, quantities are
    /// non-negative, and the footprint's whole volume fits a quantity.
    pub open spec fn wf(&self) -> bool {
        &&& levels_wf(self.trades@)
        &&& prices_increasing(self.trades@)
        &&& total_sum(self.trades@) <= i64::MAX
    }

    /// Whether no trade was recorded.
    pub fn is_empty(&self) -> (r: bool)
        ensures
            r == (self.trades@.len() == 0),
    {
        self.trades.len() == 0
    }

    /// Buy minus sell quantity over all levels.
    pub fn delta_qty(&self) -> (q: Qty)
        requires
            self.wf(),
        ensures
            q.units == delta_sum(self.trades@),
    {
        proof {
            lemma_sums_bounded(self.trades@);
        }
        let mut acc: i64 = 0;
        let mut i: usize = 0;
        while i < self.trades.len()
            invariant
                self.wf(),
                i <= self.trades@.len(),
                acc == delta_sum(self.trades@.take(i as int)),
            decreases self.trades@.len() - i,
        {
            proof {
                let s = self.trades@;
                assert(s.take(i + 1).drop_last() == s.take(i as int));
                assert(levels_wf(s.take(i + 1))) by {
                    assert forall|j: int| 0 <= j < i + 1 implies (#[trigger] s.take(i + 1)[j]).1.wf() by {
                        assert(s.take(i + 1)[j] == s[j]);
                    }
                }
                lemma_sums_bounded(s.take(i + 1));
                lemma_sums_bounded(s);
                assert(s[i as int].1.wf());
            }
            let g = self.trades[i].1;
            acc = acc + (g.buy_qty.units - g.sell_qty.units);
            i = i + 1;
        }
        assert(self.trades@.take(self.trades@.len() as int) == self.trades@);
        Qty { units: acc }
    }

    /// Buy plus sell quantity over all levels.
    pub fn total_qty(&self) -> (q: Qty)
        requires
            self.wf(),
        ensures
            q.units == total_sum(self.trades@),
    {
        proof {
            lemma_sums_bounded(self.trades@);
        }
        let mut acc: i64 = 0;
        let mut i: usize = 0;
        while i < self.trades.len()
            invariant
                self.wf(),
                i <= self.trades@.len(),
                acc == total_sum(self.trades@.take(i as int)),
            decreases self.trades@.len() - i,
        {
            proof {
                let s = self.trades@;
                assert(s.take(i + 1).drop_last() == s.take(i as int));
                lemma_sums_bounded(s);
                assert(s[i as int].1.wf());
                assert(total_sum(s.take(i + 1)) == total_sum(s.take(i as int)) + s[i as int].1.buy_qty.units
                    + s[i as int].1.sell_qty.units);
                assert(total_sum(s.take(i + 1)) <= total_sum(s));
            }
            let g = self.trades[i].1;
            acc = acc + (g.buy_qty.units + g.sell_qty.units);
            i = i + 1;
        }
        assert(self.trades@.take(self.trades@.len() as int) == self.trades@);
        Qty { units: acc }
    }
}

/// A candle and its footprint.
#[derive(Clone, Debug)]
pub struct KlineDataPoint {
    pub kline: Kline,
    pub footprint: KlineTrades,
}

impl KlineDataPoint {
    pub open spec fn wf(&self) -> bool {
        self.kline.wf() && self.footprint.wf()
    }
}

/// Candles keyed by their open time, in increasing time order, every
/// `interval` milliseconds.
#[derive(Clone, Debug)]
pub struct TimeSeries {
    pub interval: u64,
    pub datapoints: Vec<(u64, KlineDataPoint)>,
}

/// Keys strictly increase.
pub open spec fn keys_increasing(s: Seq<(u64, KlineDataPoint)>) -> bool {
    forall|i: int, j: int| 0 <= i < j < s.len() ==> (#[trigger] s[i]).0 < (#[trigger] s[j]).0
}

/// The candles as a map from time to data point.
pub open spec fn time_map(s: Seq<(u64, KlineDataPoint)>) -> Map<u64, KlineDataPoint>
    decreases s.len(),
{
    if s.len() == 0 {
        Map::empty()
    } else {
        time_map(s.drop_last()).insert(s.last().0, s.last().1)
    }
}

/// A time is a key of the map exactly when some entry has it, and then the
/// map holds that entry's data point.
pub proof fn lemma_time_map(s: Seq<(u64, KlineDataPoint)>)
    requires
        keys_increasing(s),
    ensures
        forall|t: u64| #[trigger]
            time_map(s).contains_key(t) <==> exists|i: int| 0 <= i < s.len() && (#[trigger] s[i]).0
                == t,
        forall|i: int| 0 <= i < s.len() ==> #[trigger] time_map(s)[s[i].0] == s[i].1,
        time_map(s).dom().finite(),
    decreases s.len(),
{
    if s.len() > 0 {
        let t = s.drop_last();
        assert(keys_increasing(t)) by {
            assert forall|i: int, j: int| 0 <= i < j < t.len() implies (#[trigger] t[i]).0 < (
            #[trigger] t[j]).0 by {
                assert(t[i] == s[i] && t[j] == s[j]);
            }
        }
        lemma_time_map(t);
        assert forall|k: u64| #[trigger]
            time_map(s).contains_key(k) <==> exists|i: int| 0 <= i < s.len() && (#[trigger] s[i]).0
                == k by {
            if time_map(t).contains_key(k) {
                let i = choose|i: int| 0 <= i < t.len() && (#[trigger] t[i]).0 == k;
                assert(s[i] == t[i]);
            }
            if exists|i: int| 0 <= i < s.len() && (#[trigger] s[i]).0 == k {
                let i = choose|i: int| 0 <= i < s.len() && (#[trigger] s[i]).0 == k;
                if i < s.len() - 1 {
                    assert(t[i] == s[i]);
                }
            }
        }
        assert forall|i: int| 0 <= i < s.len() implies #[trigger] time_map(s)[s[i].0] == s[i].1 by {
            if i < s.len() - 1 {
                assert(t[i] == s[i]);
                assert(s[i].0 < s.last().0);
            }
        }
    }
}

impl TimeSeries {
    /// A positive interval, increasing keys, well-formed data points.
    pub open spec fn wf(&self) -> bool {
        &&& self.interval > 0
        &&& keys_increasing(self.datapoints@)
        &&& forall|i: int| 0 <= i < self.datapoints@.len() ==> (#[trigger] self.datapoints@[i]).1.wf()
    }

    /// The candles as a map from time to data point.
    pub open spec fn map(&self) -> Map<u64, KlineDataPoint> {
        time_map(self.datapoints@)
    }

    /// The position of the candle that opens at `time`, found by binary
    /// search.
    pub fn find(&self, time: u64) -> (r: Option<usize>)
        requires
            keys_increasing(self.datapoints@),
        ensures
            match r {
                Some(i) => i < self.datapoints@.len() && self.datapoints@[i as int].0 == time,
                None => forall|i: int|
                    0 <= i < self.datapoints@.len() ==> (#[trigger] self.datapoints@[i]).0 != time,
            },
    {
        let mut lo: usize = 0;
        let mut hi: usize = self.datapoints.len();
        while lo < hi
            invariant
                keys_increasing(self.datapoints@),
                lo <= hi <= self.datapoints@.len(),
                forall|i: int| 0 <= i < lo ==> (#[trigger] self.datapoints@[i]).0 < time,
                forall|i: int|
                    hi <= i < self.datapoints@.len() ==> (#[trigger] self.datapoints@[i]).0 > time,
            decreases hi - lo,
        {
            let mid = lo + (hi - lo) / 2;
            let k = self.datapoints[mid].0;
            if k == time {
                return Some(mid);
            } else if k < time {
                lo = mid + 1;
            } else {
                hi = mid;
            }
        }
        None
    }

    /// The position of the first candle opening at or after `time`.
    fn lower_bound(&self, time: u64) -> (r: usize)
        requires
            keys_increasing(self.datapoints@),
        ensures
            r <= self.datapoints@.len(),
            forall|i: int| 0 <= i < r ==> (#[trigger] self.datapoints@[i]).0 < time,
            forall|i: int| r <= i < self.datapoints@.len() ==> (#[trigger] self.datapoints@[i]).0 >= time,
    {
        let mut lo: usize = 0;
        let mut hi: usize = self.datapoints.len();
        while lo < hi
            invariant
                keys_increasing(self.datapoints@),
                lo <= hi <= self.datapoints@.len(),
                forall|i: int| 0 <= i < lo ==> (#[trigger] self.datapoints@[i]).0 < time,
                forall|i: int|
                    hi <= i < self.datapoints@.len() ==> (#[trigger] self.datapoints@[i]).0 >= time,
            decreases hi - lo,
        {
            let mid = lo + (hi - lo) / 2;
            if self.datapoints[mid].0 < time {
                lo = mid + 1;
            } else {
                hi = mid;
            }
        }
        lo
    }

    /// Stores `kline` at its open time: a candle already there gets the new
    /// prices and volume and keeps its footprint; otherwise a candle with an
    /// empty footprint is added in time order.
    pub fn insert_kline(&mut self, kline: Kline)
        requires
            old(self).wf(),
            kline.wf(),
        ensures
            final(self).wf(),
            final(self).interval == old(self).interval,
            final(self).map().dom() == old(self).map().dom().insert(kline.time),
            forall|t: u64|
                t != kline.time && #[trigger] old(self).map().contains_key(t) ==> final(self).map()[t]
                    == old(self).map()[t],
            final(self).map()[kline.time].kline == kline,
            old(self).map().contains_key(kline.time) ==> final(self).map()[kline.time].footprint
                == old(self).map()[kline.time].footprint,
            !old(self).map().contains_key(kline.time) ==> final(self).map()[
                kline.time
            ].footprint.trades@.len() == 0,
    {
        let t = kline.time;
        let pos = self.lower_bound(t);
        let ghost s1 = self.datapoints@;
        proof {
            lemma_time_map(s1);
        }
        if pos < self.datapoints.len() && self.datapoints[pos].0 == t {
            let (key, mut dp) = self.datapoints.remove(pos);
            dp.kline = kline;
            self.datapoints.insert(pos, (key, dp));
            let ghost s2 = self.datapoints@;
            proof {
                assert(s2 =~= s1.update(pos as int, (t, dp)));
                assert(keys_increasing(s2)) by {
                    assert forall|i: int, j: int| 0 <= i < j < s2.len() implies (#[trigger] s2[i]).0
                        < (#[trigger] s2[j]).0 by {
                        assert(s1[i].0 < s1[j].0);
                    }
                }
                assert forall|i: int| 0 <= i < s2.len() implies (#[trigger] s2[i]).1.wf() by {
                    assert(s1[i].1.wf());
                }
                lemma_time_map(s2);
                assert(time_map(s2).dom() =~= time_map(s1).dom().insert(t)) by {
                    assert forall|k: u64| #[trigger] time_map(s2).contains_key(k) implies time_map(
                        s1,
                    ).dom().insert(t).contains(k) by {
                        let i = choose|i: int| 0 <= i < s2.len() && (#[trigger] s2[i]).0 == k;
                        assert(s1[i].0 == k);
                    }
                    assert forall|k: u64| time_map(s1).dom().insert(t).contains(k) implies #[trigger]
                        time_map(s2).contains_key(k) by {
                        if k != t {
                            let i = choose|i: int| 0 <= i < s1.len() && (#[trigger] s1[i]).0 == k;
                            assert(s2[i].0 == k);
                        } else {
                            assert(s2[pos as int].0 == k);
                        }
                    }
                }
                assert forall|k: u64|
                    k != t && #[trigger] time_map(s1).contains_key(k) implies time_map(s2)[k]
                    == time_map(s1)[k] by {
                    let i = choose|i: int| 0 <= i < s1.len() && (#[trigger] s1[i]).0 == k;
                    assert(s2[i] == s1[i]);
                }
                assert(time_map(s2)[t] == s2[pos as int].1);
                assert(time_map(s1)[t] == s1[pos as int].1);
            }
        } else {
            self.datapoints.insert(pos, (t, KlineDataPoint { kline, footprint: KlineTrades::new() }));
            let ghost s2 = self.datapoints@;
            proof {
                assert(forall|i: int| pos <= i < s1.len() ==> (#[trigger] s1[i]).0 > t) by {
                    assert forall|i: int| pos <= i < s1.len() implies (#[trigger] s1[i]).0 > t by {
                        if i > pos {
                            assert(s1[pos as int].0 < s1[i].0);
                        }
                    }
                }
                assert(s2 =~= s1.insert(pos as int, s2[pos as int]));
                assert(keys_increasing(s2)) by {
                    assert forall|i: int, j: int| 0 <= i < j < s2.len() implies (#[trigger] s2[i]).0
                        < (#[trigger] s2[j]).0 by {
                        if j < pos {
                            assert(s1[i].0 < s1[j].0);
                        } else if j == pos {
                            assert(s1[i].0 < t);
                        } else if i < pos {
                            assert(s1[i].0 < t && s1[j - 1].0 > t);
                        } else if i == pos {
                            assert(s1[j - 1].0 > t);
                        } else {
                            assert(s1[i - 1].0 < s1[j - 1].0);
                        }
                    }
                }
                assert forall|i: int| 0 <= i < s2.len() implies (#[trigger] s2[i]).1.wf() by {
                    if i < pos {
                        assert(s1[i].1.wf());
                    } else if i > pos {
                        assert(s1[i - 1].1.wf());
                    }
                }
                lemma_time_map(s2);
                assert(!time_map(s1).contains_key(t)) by {
                    if time_map(s1).contains_key(t) {
                        let i = choose|i: int| 0 <= i < s1.len() && (#[trigger] s1[i]).0 == t;
                        assert(false);
                    }
                }
                assert(time_map(s2).dom() =~= time_map(s1).dom().insert(t)) by {
                    assert forall|k: u64| #[trigger] time_map(s2).contains_key(k) implies time_map(
                        s1,
                    ).dom().insert(t).contains(k) by {
                        let i = choose|i: int| 0 <= i < s2.len() && (#[trigger] s2[i]).0 == k;
                        if i < pos {
                            assert(s1[i].0 == k);
                        } else if i > pos {
                            assert(s1[i - 1].0 == k);
                        }
                    }
                    assert forall|k: u64| time_map(s1).dom().insert(t).contains(k) implies #[trigger]
                        time_map(s2).contains_key(k) by {
                        if k != t {
                            let i = choose|i: int| 0 <= i < s1.len() && (#[trigger] s1[i]).0 == k;
                            if i < pos {
                                assert(s2[i].0 == k);
                            } else {
                                assert(s2[i + 1].0 == k);
                            }
                        } else {
                            assert(s2[pos as int].0 == k);
                        }
                    }
                }
                assert forall|k: u64|
                    k != t && #[trigger] time_map(s1).contains_key(k) implies time_map(s2)[k]
                    == time_map(s1)[k] by {
                    let i = choose|i: int| 0 <= i < s1.len() && (#[trigger] s1[i]).0 == k;
                    if i < pos {
                        assert(s2[i] == s1[i]);
                    } else {
                        assert(s2[i + 1] == s1[i]);
                    }
                }
                assert(time_map(s2)[t] == s2[pos as int].1);
            }
        }
    }

    /// Stores each candle in turn, as `insert_kline` does: the stored
    /// times gain the candles' times; each time holds the last candle given
    /// for it; other candles are unchanged; footprints already stored are
    /// kept, and new candles have empty ones.
    pub fn insert_klines(&mut self, klines: &[Kline])
        requires
            old(self).wf(),
            forall|j: int| 0 <= j < klines@.len() ==> (#[trigger] klines@[j]).wf(),
        ensures
            final(self).wf(),
            final(self).interval == old(self).interval,
            forall|t: u64| #[trigger]
                final(self).map().contains_key(t) <==> (old(self).map().contains_key(t) || exists|j: int|
                    0 <= j < klines@.len() && (#[trigger] klines@[j]).time == t),
            forall|t: u64|
                #[trigger] old(self).map().contains_key(t) && (forall|j: int|
                    0 <= j < klines@.len() ==> (#[trigger] klines@[j]).time != t) ==> final(self).map()[t]
                    == old(self).map()[t],
            forall|j: int|
                0 <= j < klines@.len() && (forall|j2: int|
                    j < j2 < klines@.len() ==> (#[trigger] klines@[j2]).time != klines@[j].time)
                    ==> final(self).map()[(#[trigger] klines@[j]).time].kline == klines@[j],
            forall|t: u64| #[trigger]
                old(self).map().contains_key(t) ==> final(self).map()[t].footprint == old(self).map()[t].footprint,
            forall|t: u64|
                #[trigger] final(self).map().contains_key(t) && !old(self).map().contains_key(t)
                    ==> final(self).map()[t].footprint.trades@.len() == 0,
    {
        let mut i: usize = 0;
        while i < klines.len()
            invariant
                self.wf(),
                self.interval == old(self).interval,
                i <= klines@.len(),
                forall|j: int| 0 <= j < klines@.len() ==> (#[trigger] klines@[j]).wf(),
                forall|t: u64| #[trigger]
                    self.map().contains_key(t) <==> (old(self).map().contains_key(t) || exists|j: int|
                        0 <= j < i && (#[trigger] klines@[j]).time == t),
                forall|t: u64|
                    #[trigger] old(self).map().contains_key(t) && (forall|j: int|
                        0 <= j < i ==> (#[trigger] klines@[j]).time != t) ==> self.map()[t]
                        == old(self).map()[t],
                forall|j: int|
                    0 <= j < i && (forall|j2: int|
                        j < j2 < i ==> (#[trigger] klines@[j2]).time != klines@[j].time)
                        ==> self.map()[(#[trigger] klines@[j]).time].kline == klines@[j],
                forall|t: u64| #[trigger]
                    old(self).map().contains_key(t) ==> self.map()[t].footprint == old(self).map()[t].footprint,
                forall|t: u64|
                    #[trigger] self.map().contains_key(t) && !old(self).map().contains_key(t)
                        ==> self.map()[t].footprint.trades@.len() == 0,
            decreases klines@.len() - i,
        {
            let ghost before = self.map();
            let k = klines[i];
            self.insert_kline(k);
            proof {
                assert forall|t: u64| #[trigger]
                    self.map().contains_key(t) <==> (old(self).map().contains_key(t) || exists|j: int|
                        0 <= j < i + 1 && (#[trigger] klines@[j]).time == t) by {
                    if t == k.time {
                        assert(klines@[i as int].time == t);
                    }
                }
                assert forall|t: u64|
                    #[trigger] old(self).map().contains_key(t) && (forall|j: int|
                        0 <= j < i + 1 ==> (#[trigger] klines@[j]).time != t) implies self.map()[t]
                        == old(self).map()[t] by {
                    assert(klines@[i as int].time != t);
                    assert(forall|j: int| 0 <= j < i ==> (#[trigger] klines@[j]).time != t);
                    assert(before[t] == old(self).map()[t]);
                    assert(before.contains_key(t));
                    assert(k.time != t);
                    assert(self.map()[t] == before[t]);
                }
                assert forall|j: int|
                    0 <= j < i + 1 && (forall|j2: int|
                        j < j2 < i + 1 ==> (#[trigger] klines@[j2]).time != klines@[j].time)
                        implies self.map()[(#[trigger] klines@[j]).time].kline == klines@[j] by {
                    if j < i {
                        assert(klines@[i as int].time != klines@[j].time);
                        assert(before.contains_key(klines@[j].time));
                    }
                }
                assert forall|t: u64| #[trigger]
                    old(self).map().contains_key(t) implies self.map()[t].footprint == old(self).map()[t].footprint by {
                    assert(before.contains_key(t));
                }
                assert forall|t: u64|
                    #[trigger] self.map().contains_key(t) && !old(self).map().contains_key(t)
                        implies self.map()[t].footprint.trades@.len() == 0 by {
                    if t != k.time {
                        assert(before.contains_key(t));
                    }
                }
            }
            i = i + 1;
        }
    }
}

/// Tick-based bars: one data point per `tick_count` trades, oldest first;
/// `last_bar_trades` counts the trades in the newest bar.
#[derive(Clone, Debug)]
pub struct TickAggr {
    pub tick_count: u64,
    pub datapoints: Vec<KlineDataPoint>,
    pub last_bar_trades: u64,
}

/// The data behind a candle chart.
#[derive(Clone, Debug)]
pub enum PlotData {
    TimeBased(TimeSeries),
    TickBased(TickAggr),
}

/// Tick bars as a map from bar index to data point.
pub open spec fn tick_map(s: Seq<KlineDataPoint>) -> Map<u64, KlineDataPoint> {
    Map::new(|i: u64| i < s.len(), |i: u64| s[i as int])
}

impl PlotData {
    /// Every series is well formed.
    pub open spec fn wf(&self) -> bool {
        match self {
            PlotData::TimeBased(ts) => ts.wf(),
            PlotData::TickBased(ta) => forall|i: int|
                0 <= i < ta.datapoints@.len() ==> (#[trigger] ta.datapoints@[i]).wf(),
        }
    }

    /// The data points keyed as a chart plots them: by open time, or by
    /// bar index.
    pub open spec fn keyed(&self) -> Map<u64, KlineDataPoint> {
        match self {
            PlotData::TimeBased(ts) => ts.map(),
            PlotData::TickBased(ta) => tick_map(ta.datapoints@),
        }
    }

    /// The number of data points.
    pub open spec fn len(&self) -> nat {
        match self {
            PlotData::TimeBased(ts) => ts.datapoints@.len(),
            PlotData::TickBased(ta) => ta.datapoints@.len(),
        }
    }
}

} // verus!
