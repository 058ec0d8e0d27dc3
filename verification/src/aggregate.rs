//! Adding trades to footprints: a trade's quantity goes to the buy or sell
//! side of the price level it rounds down to, in the candle it falls in.

use vstd::prelude::*;
use crate::units::{Kline, Price, PriceStep, Qty, Trade, Volume, floor_to, spec_floor_to};
use crate::kline::{snap_to_step, spec_snap};
use crate::footprint::{
    GroupedTrades, KlineDataPoint, KlineTrades, TickAggr, TimeSeries, levels_wf, prices_increasing,
    total_sum, lemma_sums_bounded,
};
use crate::imbalance::{level_at, lemma_level_at};
use crate::profile::lemma_total_sum_concat;

verus! {

/// Buy units at price units `p`, zero when no level has that price.
pub open spec fn buy_at(s: Seq<(Price, GroupedTrades)>, p: int) -> int {
    match level_at(s, p) {
        Some(g) => g.buy_qty.units as int,
        None => 0,
    }
}

/// Sell units at price units `p`, zero when no level has that price.
pub open spec fn sell_at(s: Seq<(Price, GroupedTrades)>, p: int) -> int {
    match level_at(s, p) {
        Some(g) => g.sell_qty.units as int,
        None => 0,
    }
}

/// The volume of a single level.
proof fn lemma_total_one(x: (Price, GroupedTrades))
    ensures
        total_sum(seq![x]) == x.1.buy_qty.units + x.1.sell_qty.units,
{
    assert(seq![x].drop_last() =~= Seq::<(Price, GroupedTrades)>::empty());
    assert(total_sum(Seq::<(Price, GroupedTrades)>::empty()) == 0);
}

/// Splitting the levels around position `i`.
proof fn lemma_total_split(s: Seq<(Price, GroupedTrades)>, i: int)
    requires
        0 <= i < s.len(),
    ensures
        total_sum(s) == total_sum(s.take(i)) + s[i].1.buy_qty.units + s[i].1.sell_qty.units
            + total_sum(s.skip(i + 1)),
{
    assert(s =~= s.take(i) + seq![s[i]] + s.skip(i + 1));
    lemma_total_sum_concat(s.take(i), seq![s[i]]);
    lemma_total_sum_concat(s.take(i) + seq![s[i]], s.skip(i + 1));
    lemma_total_one(s[i]);
}

/// The levels with `x` inserted at position `i`.
proof fn lemma_total_insert(s: Seq<(Price, GroupedTrades)>, i: int, x: (Price, GroupedTrades))
    requires
        0 <= i <= s.len(),
    ensures
        total_sum(s.insert(i, x)) == total_sum(s) + x.1.buy_qty.units + x.1.sell_qty.units,
{
    assert(s.insert(i, x) =~= s.take(i) + seq![x] + s.skip(i));
    assert(s =~= s.take(i) + s.skip(i));
    lemma_total_sum_concat(s.take(i), s.skip(i));
    lemma_total_sum_concat(s.take(i), seq![x]);
    lemma_total_sum_concat(s.take(i) + seq![x], s.skip(i));
    lemma_total_one(x);
}

/// What a footprint holds: buy and sell units per price unit, and its
/// whole volume.
#[verifier::ext_equal]
pub struct FootprintView {
    pub levels: Map<int, (int, int)>,
    pub total: int,
}

/// The view of a footprint's levels.
pub open spec fn footprint_view(s: Seq<(Price, GroupedTrades)>) -> FootprintView {
    FootprintView {
        levels: Map::new(|p: int| level_at(s, p) is Some, |p: int| (buy_at(s, p), sell_at(s, p))),
        total: total_sum(s),
    }
}

/// One trade of `qty` at price units `p` added to a footprint: to the sell
/// side when `is_sell`, else to the buy side, creating the level when
/// needed; a trade that would make the whole volume overflow a quantity is
/// left out.
pub open spec fn spec_add_trade(v: FootprintView, p: int, qty: int, is_sell: bool) -> FootprintView {
    if v.total + qty <= i64::MAX {
        let old_level = if v.levels.contains_key(p) {
            v.levels[p]
        } else {
            (0int, 0int)
        };
        let new_level = if is_sell {
            (old_level.0, old_level.1 + qty)
        } else {
            (old_level.0 + qty, old_level.1)
        };
        FootprintView { levels: v.levels.insert(p, new_level), total: v.total + qty }
    } else {
        v
    }
}

/// The trades, in order, that fall in the candle opening at `key` added to
/// its footprint, each at its price rounded down onto the grid of `step`.
pub open spec fn spec_add_bucket_trades(
    v: FootprintView,
    trades: Seq<Trade>,
    interval: u64,
    key: u64,
    step: int,
) -> FootprintView
    decreases trades.len(),
{
    if trades.len() == 0 {
        v
    } else {
        let w = spec_add_bucket_trades(v, trades.drop_last(), interval, key, step);
        let t = trades.last();
        if spec_floor_to(t.time, interval) == key {
            spec_add_trade(w, spec_snap(t.price.units as int, step), t.qty.units as int, t.is_sell)
        } else {
            w
        }
    }
}

/// The level-by-level effect of adding a trade is `spec_add_trade`.
proof fn lemma_view_add(
    s1: Seq<(Price, GroupedTrades)>,
    s2: Seq<(Price, GroupedTrades)>,
    p: int,
    qty: int,
    is_sell: bool,
)
    requires
        total_sum(s1) + qty <= i64::MAX,
        total_sum(s2) == total_sum(s1) + qty,
        level_at(s2, p) is Some,
        buy_at(s2, p) == buy_at(s1, p) + (if is_sell { 0 } else { qty }),
        sell_at(s2, p) == sell_at(s1, p) + (if is_sell { qty } else { 0 }),
        forall|q: int| q != p ==> #[trigger] level_at(s2, q) == level_at(s1, q),
    ensures
        footprint_view(s2) == spec_add_trade(footprint_view(s1), p, qty, is_sell),
{
    let v1 = footprint_view(s1);
    let v2 = footprint_view(s2);
    let w = spec_add_trade(v1, p, qty, is_sell);
    assert forall|q: int| #[trigger] v2.levels.contains_key(q) == w.levels.contains_key(q) by {
        if q != p {
            assert(level_at(s2, q) == level_at(s1, q));
        }
    }
    assert forall|q: int| #[trigger] v2.levels.contains_key(q) implies v2.levels[q] == w.levels[q] by {
        if q != p {
            assert(level_at(s2, q) == level_at(s1, q));
        }
    }
    assert(v2.levels =~= w.levels);
}

impl KlineTrades {
    /// Adds `qty` to the sell side (`is_sell`) or the buy side of the level
    /// at `price`, creating the level in price order when there is none.
    /// Returns false, changing nothing, when the footprint's whole volume
    /// would no longer fit a quantity.
    pub fn add_trade(&mut self, price: Price, qty: Qty, is_sell: bool) -> (added: bool)
        requires
            old(self).wf(),
            qty.units >= 0,
        ensures
            final(self).wf(),
            added == (total_sum(old(self).trades@) + qty.units <= i64::MAX),
            !added ==> final(self).trades@ == old(self).trades@,
            footprint_view(final(self).trades@) == spec_add_trade(
                footprint_view(old(self).trades@),
                price.units as int,
                qty.units as int,
                is_sell,
            ),
    {
        let ghost s1 = self.trades@;
        let added = self.add_level_trade(price, qty, is_sell);
        proof {
            if added {
                lemma_view_add(s1, self.trades@, price.units as int, qty.units as int, is_sell);
            }
        }
        added
    }

    /// The position of the first level priced at or above `price`.
    fn price_position(&self, price: Price) -> (r: usize)
        requires
            prices_increasing(self.trades@),
        ensures
            r <= self.trades@.len(),
            forall|i: int| 0 <= i < r ==> (#[trigger] self.trades@[i]).0.units < price.units,
            forall|i: int|
                r <= i < self.trades@.len() ==> (#[trigger] self.trades@[i]).0.units >= price.units,
    {
        let mut lo: usize = 0;
        let mut hi: usize = self.trades.len();
        while lo < hi
            invariant
                prices_increasing(self.trades@),
                lo <= hi <= self.trades@.len(),
                forall|i: int| 0 <= i < lo ==> (#[trigger] self.trades@[i]).0.units < price.units,
                forall|i: int|
                    hi <= i < self.trades@.len() ==> (#[trigger] self.trades@[i]).0.units >= price.units,
            decreases hi - lo,
        {
            let mid = lo + (hi - lo) / 2;
            if self.trades[mid].0.units < price.units {
                lo = mid + 1;
            } else {
                hi = mid;
            }
        }
        lo
    }

    /// Adds `qty` to one side of the level at `price`, as `add_trade`
    /// states it level by level.
    #[verifier::rlimit(60)]
    #[verifier::spinoff_prover]
    fn add_level_trade(&mut self, price: Price, qty: Qty, is_sell: bool) -> (added: bool)
        requires
            old(self).wf(),
            qty.units >= 0,
        ensures
            final(self).wf(),
            added == (total_sum(old(self).trades@) + qty.units <= i64::MAX),
            !added ==> final(self).trades@ == old(self).trades@,
            added ==> total_sum(final(self).trades@) == total_sum(old(self).trades@) + qty.units,
            added ==> level_at(final(self).trades@, price.units as int) is Some,
            added ==> buy_at(final(self).trades@, price.units as int) == buy_at(
                old(self).trades@,
                price.units as int,
            ) + (if is_sell { 0 } else { qty.units }),
            added ==> sell_at(final(self).trades@, price.units as int) == sell_at(
                old(self).trades@,
                price.units as int,
            ) + (if is_sell { qty.units } else { 0 }),
            added ==> forall|p: int|
                p != price.units ==> #[trigger] level_at(final(self).trades@, p) == level_at(
                    old(self).trades@,
                    p,
                ),
    {
        let ghost s1 = self.trades@;
        proof {
            lemma_sums_bounded(s1);
            lemma_level_at(s1, price.units as int);
        }
        let total = self.total_qty();
        if qty.units > i64::MAX - total.units {
            return false;
        }
        let pos = self.price_position(price);
        if pos < self.trades.len() && self.trades[pos].0.units == price.units {
            let (at, g) = self.trades[pos];
            proof {
                lemma_total_split(s1, pos as int);
                lemma_sums_bounded(s1.take(pos as int));
                lemma_sums_bounded(s1.skip(pos as int + 1));
                assert(levels_wf(s1.take(pos as int))) by {
                    assert forall|i: int| 0 <= i < pos implies (#[trigger] s1.take(pos as int)[i]).1.wf() by {
                        assert(s1.take(pos as int)[i] == s1[i]);
                    }
                }
                assert(levels_wf(s1.skip(pos as int + 1))) by {
                    assert forall|i: int| 0 <= i < s1.len() - pos - 1 implies (#[trigger] s1.skip(
                        pos as int + 1,
                    )[i]).1.wf() by {
                        assert(s1.skip(pos as int + 1)[i] == s1[pos + 1 + i]);
                    }
                }
                lemma_sums_bounded(s1.take(pos as int));
                lemma_sums_bounded(s1.skip(pos as int + 1));
                assert(s1[pos as int].1.wf());
            }
            let ng = if is_sell {
                GroupedTrades { buy_qty: g.buy_qty, sell_qty: Qty { units: g.sell_qty.units + qty.units } }
            } else {
                GroupedTrades { buy_qty: Qty { units: g.buy_qty.units + qty.units }, sell_qty: g.sell_qty }
            };
            self.trades.set(pos, (at, ng));
            let ghost s2 = self.trades@;
            proof {
                assert(s2 =~= s1.update(pos as int, (at, ng)));
                assert(prices_increasing(s2)) by {
                    assert forall|i: int, j: int| 0 <= i < j < s2.len() implies (#[trigger] s2[i]).0.units
                        < (#[trigger] s2[j]).0.units by {
                        assert(s1[i].0.units < s1[j].0.units);
                    }
                }
                assert(levels_wf(s2)) by {
                    assert forall|i: int| 0 <= i < s2.len() implies (#[trigger] s2[i]).1.wf() by {
                        assert(s1[i].1.wf());
                    }
                }
                lemma_total_split(s2, pos as int);
                assert(s2.take(pos as int) =~= s1.take(pos as int));
                assert(s2.skip(pos as int + 1) =~= s1.skip(pos as int + 1));
                lemma_level_at(s2, price.units as int);
                assert forall|p: int| p != price.units implies #[trigger] level_at(s2, p) == level_at(s1, p) by {
                    lemma_level_at(s1, p);
                    lemma_level_at(s2, p);
                    if level_at(s1, p) is Some {
                        let i = choose|i: int| 0 <= i < s1.len() && (#[trigger] s1[i]).0.units == p;
                        assert(s2[i].0.units == p);
                    }
                    if level_at(s2, p) is Some {
                        let i = choose|i: int| 0 <= i < s2.len() && (#[trigger] s2[i]).0.units == p;
                        assert(s1[i].0.units == p);
                    }
                }
            }
        } else {
            let ng = if is_sell {
                GroupedTrades { buy_qty: Qty { units: 0 }, sell_qty: qty }
            } else {
                GroupedTrades { buy_qty: qty, sell_qty: Qty { units: 0 } }
            };
            self.trades.insert(pos, (price, ng));
            let ghost s2 = self.trades@;
            proof {
                assert(forall|i: int| pos <= i < s1.len() ==> (#[trigger] s1[i]).0.units > price.units) by {
                    assert forall|i: int| pos <= i < s1.len() implies (#[trigger] s1[i]).0.units
                        > price.units by {
                        if i > pos {
                            assert(s1[pos as int].0.units < s1[i].0.units);
                        }
                    }
                }
                assert(s2 =~= s1.insert(pos as int, (price, ng)));
                assert(prices_increasing(s2)) by {
                    assert forall|i: int, j: int| 0 <= i < j < s2.len() implies (#[trigger] s2[i]).0.units
                        < (#[trigger] s2[j]).0.units by {
                        if j < pos {
                            assert(s1[i].0.units < s1[j].0.units);
                        } else if j == pos {
                            assert(s1[i].0.units < price.units);
                        } else if i < pos {
                            assert(s1[i].0.units < price.units && s1[j - 1].0.units > price.units);
                        } else if i == pos {
                            assert(s1[j - 1].0.units > price.units);
                        } else {
                            assert(s1[i - 1].0.units < s1[j - 1].0.units);
                        }
                    }
                }
                assert(levels_wf(s2)) by {
                    assert forall|i: int| 0 <= i < s2.len() implies (#[trigger] s2[i]).1.wf() by {
                        if i < pos {
                            assert(s1[i].1.wf());
                        } else if i > pos {
                            assert(s1[i - 1].1.wf());
                        }
                    }
                }
                lemma_total_insert(s1, pos as int, (price, ng));
                assert(level_at(s1, price.units as int) is None) by {
                    assert forall|i: int| 0 <= i < s1.len() implies (#[trigger] s1[i]).0.units
                        != price.units by {
                        if i < pos {
                        } else {
                        }
                    }
                }
                lemma_level_at(s2, price.units as int);
                assert(s2[pos as int].0.units == price.units);
                assert forall|p: int| p != price.units implies #[trigger] level_at(s2, p) == level_at(s1, p) by {
                    lemma_level_at(s1, p);
                    lemma_level_at(s2, p);
                    if level_at(s1, p) is Some {
                        let i = choose|i: int| 0 <= i < s1.len() && (#[trigger] s1[i]).0.units == p;
                        if i < pos {
                            assert(s2[i] == s1[i]);
                        } else {
                            assert(s2[i + 1] == s1[i]);
                        }
                    }
                    if level_at(s2, p) is Some {
                        let i = choose|i: int| 0 <= i < s2.len() && (#[trigger] s2[i]).0.units == p;
                        if i < pos {
                            assert(s1[i] == s2[i]);
                        } else if i > pos {
                            assert(s1[i - 1] == s2[i]);
                        }
                    }
                }
            }
        }
        true
    }
}

/// The trades can be placed: quantities are non-negative and each price
/// rounds down onto the tick grid without leaving the price range.
pub open spec fn trades_placeable(trades: Seq<Trade>, step: PriceStep) -> bool {
    &&& step.units > 0
    &&& forall|j: int|
        0 <= j < trades.len() ==> 0 <= (#[trigger] trades[j]).qty.units && spec_snap(
            trades[j].price.units as int,
            step.units as int,
        ) >= i64::MIN
}

impl TimeSeries {
    /// Adds each trade, in order, to the footprint of the stored candle it
    /// falls in, at its price rounded down onto the tick grid of `step`, as
    /// `add_trade` does; trades of candles not stored are left out. The
    /// candles, their times and their order are unchanged, and a candle no
    /// trade falls in keeps its footprint.
    pub fn insert_trades_existing_buckets(&mut self, trades: &[Trade], step: PriceStep)
        requires
            old(self).wf(),
            trades_placeable(trades@, step),
        ensures
            final(self).wf(),
            final(self).interval == old(self).interval,
            final(self).datapoints@.len() == old(self).datapoints@.len(),
            forall|i: int|
                0 <= i < old(self).datapoints@.len() ==> (#[trigger] final(self).datapoints@[i]).0
                    == old(self).datapoints@[i].0 && final(self).datapoints@[i].1.kline == old(
                    self,
                ).datapoints@[i].1.kline,
            forall|i: int|
                0 <= i < old(self).datapoints@.len() && (forall|j: int|
                    0 <= j < trades@.len() ==> spec_floor_to((#[trigger] trades@[j]).time, old(self).interval)
                        != old(self).datapoints@[i].0) ==> (#[trigger] final(self).datapoints@[i]).1.footprint
                    == old(self).datapoints@[i].1.footprint,
            forall|i: int|
                0 <= i < old(self).datapoints@.len() ==> footprint_view(
                    (#[trigger] final(self).datapoints@[i]).1.footprint.trades@,
                ) == spec_add_bucket_trades(
                    footprint_view(old(self).datapoints@[i].1.footprint.trades@),
                    trades@,
                    old(self).interval,
                    old(self).datapoints@[i].0,
                    step.units as int,
                ),
    {
        let mut n: usize = 0;
        proof {
            assert(trades@.take(0) =~= Seq::<Trade>::empty());
        }
        while n < trades.len()
            invariant
                self.wf(),
                trades_placeable(trades@, step),
                n <= trades@.len(),
                self.interval == old(self).interval,
                self.datapoints@.len() == old(self).datapoints@.len(),
                forall|i: int|
                    0 <= i < old(self).datapoints@.len() ==> (#[trigger] self.datapoints@[i]).0
                        == old(self).datapoints@[i].0 && self.datapoints@[i].1.kline == old(
                        self,
                    ).datapoints@[i].1.kline,
                forall|i: int|
                    0 <= i < old(self).datapoints@.len() && (forall|j: int|
                        0 <= j < n ==> spec_floor_to((#[trigger] trades@[j]).time, old(self).interval)
                            != old(self).datapoints@[i].0) ==> (#[trigger] self.datapoints@[i]).1.footprint
                        == old(self).datapoints@[i].1.footprint,
                forall|i: int|
                    0 <= i < old(self).datapoints@.len() ==> footprint_view(
                        (#[trigger] self.datapoints@[i]).1.footprint.trades@,
                    ) == spec_add_bucket_trades(
                        footprint_view(old(self).datapoints@[i].1.footprint.trades@),
                        trades@.take(n as int),
                        old(self).interval,
                        old(self).datapoints@[i].0,
                        step.units as int,
                    ),
            decreases trades@.len() - n,
        {
            let trade = trades[n];
            let bucket = floor_to(trade.time, self.interval);
            let ghost before = self.datapoints@;
            proof {
                assert(trades@.take(n + 1).drop_last() =~= trades@.take(n as int));
                assert(trades@.take(n + 1).last() == trade);
            }
            match self.find(bucket) {
                Some(i) => {
                    let price = snap_to_step(trade.price, step);
                    let (key, mut dp) = self.datapoints.remove(i);
                    let _ = dp.footprint.add_trade(price, trade.qty, trade.is_sell);
                    self.datapoints.insert(i, (key, dp));
                    proof {
                        let s2 = self.datapoints@;
                        assert(s2 =~= before.update(i as int, (key, dp)));
                        assert(forall|a: int, b: int|
                            0 <= a < b < s2.len() ==> (#[trigger] s2[a]).0 < (#[trigger] s2[b]).0) by {
                            assert forall|a: int, b: int| 0 <= a < b < s2.len() implies (#[trigger] s2[a]).0
                                < (#[trigger] s2[b]).0 by {
                                assert(before[a].0 < before[b].0);
                            }
                        }
                        assert forall|k: int| 0 <= k < s2.len() implies (#[trigger] s2[k]).1.wf() by {
                            assert(before[k].1.wf());
                        }
                        assert forall|k: int|
                            0 <= k < old(self).datapoints@.len() && (forall|j: int|
                                0 <= j < n + 1 ==> spec_floor_to((#[trigger] trades@[j]).time, old(self).interval)
                                    != old(self).datapoints@[k].0) implies (#[trigger] s2[k]).1.footprint
                            == old(self).datapoints@[k].1.footprint by {
                            assert(spec_floor_to(trades@[n as int].time, old(self).interval)
                                != old(self).datapoints@[k].0);
                            if k == i {
                                assert(false);
                            }
                            assert(s2[k] == before[k]);
                        }
                        assert forall|k: int| 0 <= k < old(self).datapoints@.len() implies footprint_view(
                            (#[trigger] s2[k]).1.footprint.trades@,
                        ) == spec_add_bucket_trades(
                            footprint_view(old(self).datapoints@[k].1.footprint.trades@),
                            trades@.take(n + 1),
                            old(self).interval,
                            old(self).datapoints@[k].0,
                            step.units as int,
                        ) by {
                            if k != i {
                                assert(before[k].0 != before[i as int].0);
                                assert(s2[k] == before[k]);
                            }
                        }
                    }
                },
                None => {
                    proof {
                        assert forall|k: int| 0 <= k < old(self).datapoints@.len() implies footprint_view(
                            (#[trigger] self.datapoints@[k]).1.footprint.trades@,
                        ) == spec_add_bucket_trades(
                            footprint_view(old(self).datapoints@[k].1.footprint.trades@),
                            trades@.take(n + 1),
                            old(self).interval,
                            old(self).datapoints@[k].0,
                            step.units as int,
                        ) by {
                            assert(self.datapoints@[k].0 != bucket);
                        }
                    }
                },
            }
            n = n + 1;
        }
        proof {
            assert(trades@.take(trades@.len() as int) =~= trades@);
        }
    }

    /// Empties every candle's footprint, keeping the candles.
    pub fn clear_footprints(&mut self)
        requires
            old(self).wf(),
        ensures
            final(self).wf(),
            final(self).interval == old(self).interval,
            final(self).datapoints@.len() == old(self).datapoints@.len(),
            forall|i: int|
                0 <= i < old(self).datapoints@.len() ==> (#[trigger] final(self).datapoints@[i]).0
                    == old(self).datapoints@[i].0 && final(self).datapoints@[i].1.kline == old(
                    self,
                ).datapoints@[i].1.kline && final(self).datapoints@[i].1.footprint.trades@.len() == 0,
    {
        let mut i: usize = 0;
        while i < self.datapoints.len()
            invariant
                self.wf(),
                i <= self.datapoints@.len(),
                self.interval == old(self).interval,
                self.datapoints@.len() == old(self).datapoints@.len(),
                forall|k: int|
                    0 <= k < old(self).datapoints@.len() ==> (#[trigger] self.datapoints@[k]).0
                        == old(self).datapoints@[k].0 && self.datapoints@[k].1.kline == old(
                        self,
                    ).datapoints@[k].1.kline,
                forall|k: int| 0 <= k < i ==> (#[trigger] self.datapoints@[k]).1.footprint.trades@.len() == 0,
            decreases self.datapoints@.len() - i,
        {
            let ghost before = self.datapoints@;
            let (key, mut dp) = self.datapoints.remove(i);
            dp.footprint = KlineTrades::new();
            self.datapoints.insert(i, (key, dp));
            proof {
                let s2 = self.datapoints@;
                assert(s2 =~= before.update(i as int, (key, dp)));
                assert forall|a: int, b: int| 0 <= a < b < s2.len() implies (#[trigger] s2[a]).0
                    < (#[trigger] s2[b]).0 by {
                    assert(before[a].0 < before[b].0);
                }
                assert forall|k: int| 0 <= k < s2.len() implies (#[trigger] s2[k]).1.wf() by {
                    assert(before[k].1.wf());
                }
            }
            i = i + 1;
        }
    }
}

/// The footprint with no level.
pub open spec fn empty_footprint_view() -> FootprintView {
    FootprintView { levels: Map::empty(), total: 0 }
}

/// A bar as its candle and the view of its footprint.
pub open spec fn bar_view(dp: KlineDataPoint) -> (Kline, FootprintView) {
    (dp.kline, footprint_view(dp.footprint.trades@))
}

/// What tick bars hold: each bar's candle and footprint, and the number of
/// trades in the newest bar.
pub open spec fn tick_view(ta: TickAggr) -> (Seq<(Kline, FootprintView)>, u64) {
    (Seq::new(ta.datapoints@.len(), |i: int| bar_view(ta.datapoints@[i])), ta.last_bar_trades)
}

/// A volume with `qty` more on the sell side (`is_sell`) or the buy side; a
/// volume without sides grows in total.
pub open spec fn spec_add_volume(v: Volume, qty: int, is_sell: bool) -> Volume {
    match v {
        Volume::BuySell(b, s) => if is_sell {
            Volume::BuySell(b, Qty { units: (s.units + qty) as i64 })
        } else {
            Volume::BuySell(Qty { units: (b.units + qty) as i64 }, s)
        },
        Volume::TotalOnly(t) => Volume::TotalOnly(Qty { units: (t.units + qty) as i64 }),
    }
}

/// The newest bar after a trade at `price` (its footprint level rounded
/// down to `snapped`).
pub open spec fn spec_extend_bar(
    bar: (Kline, FootprintView),
    t: Trade,
    snapped: int,
) -> (Kline, FootprintView) {
    let k = bar.0;
    (
        Kline {
            high: if t.price.units > k.high.units { t.price } else { k.high },
            low: if t.price.units < k.low.units { t.price } else { k.low },
            close: t.price,
            volume: spec_add_volume(k.volume, t.qty.units as int, t.is_sell),
            ..k
        },
        spec_add_trade(bar.1, snapped, t.qty.units as int, t.is_sell),
    )
}

/// A bar opened by a trade.
pub open spec fn spec_new_bar(t: Trade, snapped: int) -> (Kline, FootprintView) {
    (
        Kline {
            time: t.time,
            open: t.price,
            high: t.price,
            low: t.price,
            close: t.price,
            volume: if t.is_sell {
                Volume::BuySell(Qty { units: 0 }, t.qty)
            } else {
                Volume::BuySell(t.qty, Qty { units: 0 })
            },
        },
        spec_add_trade(empty_footprint_view(), snapped, t.qty.units as int, t.is_sell),
    )
}

/// One trade added to tick bars of `tick_count` trades: it opens a new bar
/// when there is none or the newest is full, and otherwise extends the
/// newest bar, unless that would make the bar's volume or footprint volume
/// overflow a quantity, in which case it is left out.
pub open spec fn spec_tick_trade(
    v: (Seq<(Kline, FootprintView)>, u64),
    t: Trade,
    tick_count: u64,
    step: int,
) -> (Seq<(Kline, FootprintView)>, u64) {
    let snapped = spec_snap(t.price.units as int, step);
    if v.0.len() == 0 || v.1 >= tick_count {
        (v.0.push(spec_new_bar(t, snapped)), 1)
    } else if v.0.last().0.volume.total_units() + t.qty.units <= i64::MAX && v.0.last().1.total
        + t.qty.units <= i64::MAX && v.1 < u64::MAX {
        (v.0.update(v.0.len() - 1, spec_extend_bar(v.0.last(), t, snapped)), (v.1 + 1) as u64)
    } else {
        v
    }
}

/// The trades added, in order, to tick bars.
pub open spec fn spec_tick_trades(
    v: (Seq<(Kline, FootprintView)>, u64),
    trades: Seq<Trade>,
    tick_count: u64,
    step: int,
) -> (Seq<(Kline, FootprintView)>, u64)
    decreases trades.len(),
{
    if trades.len() == 0 {
        v
    } else {
        spec_tick_trade(
            spec_tick_trades(v, trades.drop_last(), tick_count, step),
            trades.last(),
            tick_count,
            step,
        )
    }
}

/// An empty footprint's view is the empty view.
proof fn lemma_empty_view(s: Seq<(Price, GroupedTrades)>)
    requires
        s.len() == 0,
    ensures
        footprint_view(s) == empty_footprint_view(),
{
    assert(footprint_view(s).levels =~= Map::<int, (int, int)>::empty());
}

impl TickAggr {
    /// Every bar is well formed.
    pub open spec fn bars_wf(&self) -> bool {
        forall|i: int| 0 <= i < self.datapoints@.len() ==> (#[trigger] self.datapoints@[i]).wf()
    }

    /// Empty tick bars of `tick_count` trades each.
    pub fn new(tick_count: u64) -> (ta: TickAggr)
        ensures
            ta.tick_count == tick_count,
            ta.datapoints@.len() == 0,
            ta.last_bar_trades == 0,
    {
        TickAggr { tick_count, datapoints: Vec::new(), last_bar_trades: 0 }
    }

    /// Adds one trade as `spec_tick_trade` states.
    fn insert_trade(&mut self, t: Trade, step: PriceStep)
        requires
            old(self).bars_wf(),
            t.qty.units >= 0,
            step.units > 0,
            spec_snap(t.price.units as int, step.units as int) >= i64::MIN,
        ensures
            final(self).bars_wf(),
            final(self).tick_count == old(self).tick_count,
            tick_view(*final(self)) == spec_tick_trade(
                tick_view(*old(self)),
                t,
                old(self).tick_count,
                step.units as int,
            ),
    {
        let ghost v0 = tick_view(*self);
        let ghost s0 = self.datapoints@;
        let snapped = snap_to_step(t.price, step);
        if self.datapoints.len() == 0 || self.last_bar_trades >= self.tick_count {
            let mut fp = KlineTrades::new();
            proof {
                lemma_empty_view(fp.trades@);
            }
            let _ = fp.add_trade(snapped, t.qty, t.is_sell);
            let volume = if t.is_sell {
                Volume::BuySell(Qty { units: 0 }, t.qty)
            } else {
                Volume::BuySell(t.qty, Qty { units: 0 })
            };
            let kline = Kline {
                time: t.time,
                open: t.price,
                high: t.price,
                low: t.price,
                close: t.price,
                volume,
            };
            self.datapoints.push(KlineDataPoint { kline, footprint: fp });
            self.last_bar_trades = 1;
            proof {
                assert(tick_view(*self).0 =~= v0.0.push(spec_new_bar(t, snapped.units as int)));
            }
        } else {
            let last = self.datapoints.len() - 1;
            let vol = self.datapoints[last].kline.volume.total();
            proof {
                assert(s0[last as int].wf());
                lemma_sums_bounded(s0[last as int].footprint.trades@);
            }
            let fp_total = self.datapoints[last].footprint.total_qty();
            if t.qty.units <= i64::MAX - vol.units && t.qty.units <= i64::MAX - fp_total.units
                && self.last_bar_trades < u64::MAX {
                let mut dp = self.datapoints.pop().unwrap();
                let ghost old_bar = bar_view(dp);
                proof {
                    assert(dp == s0[last as int]);
                    assert(old_bar == v0.0.last());
                }
                let k = dp.kline;
                let volume = match k.volume {
                    Volume::BuySell(b, sl) => if t.is_sell {
                        Volume::BuySell(b, Qty { units: sl.units + t.qty.units })
                    } else {
                        Volume::BuySell(Qty { units: b.units + t.qty.units }, sl)
                    },
                    Volume::TotalOnly(tt) => Volume::TotalOnly(Qty { units: tt.units + t.qty.units }),
                };
                dp.kline = Kline {
                    time: k.time,
                    open: k.open,
                    high: if t.price.units > k.high.units { t.price } else { k.high },
                    low: if t.price.units < k.low.units { t.price } else { k.low },
                    close: t.price,
                    volume,
                };
                let _ = dp.footprint.add_trade(snapped, t.qty, t.is_sell);
                self.datapoints.push(dp);
                self.last_bar_trades = self.last_bar_trades + 1;
                proof {
                    assert(bar_view(dp) == spec_extend_bar(old_bar, t, snapped.units as int));
                    assert(tick_view(*self).0 =~= v0.0.update(
                        v0.0.len() - 1,
                        spec_extend_bar(v0.0.last(), t, snapped.units as int),
                    ));
                }
            } else {
                proof {
                    assert(v0.0.last() == bar_view(s0[last as int]));
                }
            }
        }
    }

    /// Adds the trades in order, as `spec_tick_trades` states: a trade opens
    /// a new bar when the newest holds `tick_count` trades, and otherwise
    /// extends it.
    pub fn insert_trades(&mut self, trades: &[Trade], step: PriceStep)
        requires
            old(self).bars_wf(),
            trades_placeable(trades@, step),
        ensures
            final(self).bars_wf(),
            final(self).tick_count == old(self).tick_count,
            tick_view(*final(self)) == spec_tick_trades(
                tick_view(*old(self)),
                trades@,
                old(self).tick_count,
                step.units as int,
            ),
            bars_in_range(tick_view(*old(self)).0) ==> bars_in_range(tick_view(*final(self)).0),
    {
        proof {
            if bars_in_range(tick_view(*old(self)).0) {
                lemma_tick_trades_in_range(
                    tick_view(*old(self)),
                    trades@,
                    old(self).tick_count,
                    step.units as int,
                );
            }
        }
        let mut n: usize = 0;
        proof {
            assert(trades@.take(0) =~= Seq::<Trade>::empty());
        }
        while n < trades.len()
            invariant
                self.bars_wf(),
                trades_placeable(trades@, step),
                n <= trades@.len(),
                self.tick_count == old(self).tick_count,
                tick_view(*self) == spec_tick_trades(
                    tick_view(*old(self)),
                    trades@.take(n as int),
                    old(self).tick_count,
                    step.units as int,
                ),
            decreases trades@.len() - n,
        {
            proof {
                assert(trades@.take(n + 1).drop_last() =~= trades@.take(n as int));
                assert(trades@.take(n + 1).last() == trades@[n as int]);
            }
            self.insert_trade(trades[n], step);
            n = n + 1;
        }
        proof {
            assert(trades@.take(trades@.len() as int) =~= trades@);
        }
    }
}

/// A candle's open and close lie within its low and high.
pub open spec fn kline_in_range(k: Kline) -> bool {
    &&& k.low.units <= k.open.units <= k.high.units
    &&& k.low.units <= k.close.units <= k.high.units
}

/// Every bar's open and close lie within its low and high.
pub open spec fn bars_in_range(bars: Seq<(Kline, FootprintView)>) -> bool {
    forall|i: int| 0 <= i < bars.len() ==> kline_in_range(#[trigger] bars[i].0)
}

/// Adding a trade to tick bars keeps every bar's open and close within its
/// range; a trade that is taken becomes the newest bar's close and lies
/// within that bar's low and high; earlier bars are untouched, and no bar
/// is removed.
pub proof fn lemma_tick_trade_in_range(
    v: (Seq<(Kline, FootprintView)>, u64),
    t: Trade,
    tick_count: u64,
    step: int,
)
    requires
        bars_in_range(v.0),
    ensures
        ({
            let w = spec_tick_trade(v, t, tick_count, step);
            &&& bars_in_range(w.0)
            &&& w.0.len() >= v.0.len()
            &&& forall|i: int| 0 <= i < v.0.len() - 1 ==> #[trigger] w.0[i] == v.0[i]
            &&& w == v || ({
                &&& w.0.len() > 0
                &&& w.0.last().0.close == t.price
                &&& w.0.last().0.low.units <= t.price.units <= w.0.last().0.high.units
            })
        }),
{
    let w = spec_tick_trade(v, t, tick_count, step);
    if v.0.len() == 0 || v.1 >= tick_count {
        assert forall|i: int| 0 <= i < w.0.len() implies kline_in_range(#[trigger] w.0[i].0) by {
            if i < v.0.len() {
                assert(w.0[i] == v.0[i]);
            }
        }
    } else if w != v {
        assert forall|i: int| 0 <= i < w.0.len() implies kline_in_range(#[trigger] w.0[i].0) by {
            if i < v.0.len() - 1 {
                assert(w.0[i] == v.0[i]);
            } else {
                assert(kline_in_range(v.0[i].0));
            }
        }
    }
}

/// Adding trades to tick bars keeps every bar's open and close within its
/// low and high.
pub proof fn lemma_tick_trades_in_range(
    v: (Seq<(Kline, FootprintView)>, u64),
    trades: Seq<Trade>,
    tick_count: u64,
    step: int,
)
    requires
        bars_in_range(v.0),
    ensures
        bars_in_range(spec_tick_trades(v, trades, tick_count, step).0),
    decreases trades.len(),
{
    if trades.len() > 0 {
        lemma_tick_trades_in_range(v, trades.drop_last(), tick_count, step);
        lemma_tick_trade_in_range(
            spec_tick_trades(v, trades.drop_last(), tick_count, step),
            trades.last(),
            tick_count,
            step,
        );
    }
}

/// The buy side of a volume; zero without sides.
pub open spec fn buy_units(v: Volume) -> int {
    match v {
        Volume::BuySell(b, _) => b.units as int,
        Volume::TotalOnly(_) => 0,
    }
}

/// The sell side of a volume; zero without sides.
pub open spec fn sell_units(v: Volume) -> int {
    match v {
        Volume::BuySell(_, s) => s.units as int,
        Volume::TotalOnly(_) => 0,
    }
}

/// A trade taken by tick bars adds its quantity to the newest bar's volume
/// and to its footprint's volume, on the trade's side: a new bar holds just
/// that trade, an extended bar what it held before plus the trade.
pub proof fn lemma_tick_trade_volume(
    v: (Seq<(Kline, FootprintView)>, u64),
    t: Trade,
    tick_count: u64,
    step: int,
)
    requires
        t.qty.units >= 0,
        v.0.len() > 0 ==> v.0.last().0.wf(),
    ensures
        ({
            let w = spec_tick_trade(v, t, tick_count, step);
            let q = t.qty.units as int;
            w == v || ({
                let before = if w.0.len() > v.0.len() {
                    (0int, 0int, 0int, 0int, true)
                } else {
                    (
                        v.0.last().0.volume.total_units(),
                        v.0.last().1.total,
                        buy_units(v.0.last().0.volume),
                        sell_units(v.0.last().0.volume),
                        v.0.last().0.volume is BuySell,
                    )
                };
                let now = w.0.last();
                &&& w.0.len() > 0
                &&& now.0.volume.total_units() == before.0 + q
                &&& now.1.total == before.1 + q
                &&& before.4 ==> buy_units(now.0.volume) == before.2 + (if t.is_sell { 0 } else { q })
                &&& before.4 ==> sell_units(now.0.volume) == before.3 + (if t.is_sell { q } else { 0 })
            })
        }),
{
}

} // verus!
