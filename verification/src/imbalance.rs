//! Diagonal bid/ask imbalances of a footprint and the stacked imbalance
//! zones they form: runs of imbalanced price levels one tick apart.
//!
//! A level's sell quantity is compared with the buy quantity one tick
//! above it. The buy side is imbalanced when it exceeds the sell side by
//! more than `threshold` percent, and the sell side when it exceeds the buy
//! side by more than `threshold` percent. All comparisons are exact integer
//! arithmetic on quantity units.

use vstd::prelude::*;
use crate::units::{Price, PriceStep, Qty};
use crate::footprint::{GroupedTrades, KlineTrades, levels_wf, prices_distinct};

verus! {

/// Which side of a diagonal is imbalanced.
#[derive(Clone, Copy, Debug, PartialEq, Eq, Structural)]
pub enum ImbalanceSide {
    /// The buy quantity one tick above dominates; marked at the upper level.
    Buy,
    /// The sell quantity dominates; marked at the lower level.
    Sell,
}

/// The imbalance of a diagonal whose lower level sold `sell` and whose
/// upper level bought `buy`.
pub open spec fn spec_diagonal(sell: int, buy: int, threshold: int) -> Option<ImbalanceSide> {
    if buy >= sell {
        if 100 * buy > (100 + threshold) * sell {
            Some(ImbalanceSide::Buy)
        } else {
            None
        }
    } else {
        if 100 * sell > (100 + threshold) * buy {
            Some(ImbalanceSide::Sell)
        } else {
            None
        }
    }
}

/// The imbalance marker of a diagonal. With `ignore_zeros`, a diagonal
/// with an empty side gets no marker.
pub open spec fn spec_marker(sell: int, buy: int, threshold: int, ignore_zeros: bool) -> Option<
    ImbalanceSide,
> {
    if ignore_zeros && (sell <= 0 || buy <= 0) {
        None
    } else {
        spec_diagonal(sell, buy, threshold)
    }
}

/// Compares the sell quantity of a level with the buy quantity one tick
/// above it.
pub fn diagonal_imbalance(sell_qty: Qty, diagonal_buy_qty: Qty, threshold: usize) -> (r: Option<
    ImbalanceSide,
>)
    requires
        0 <= sell_qty.units,
        0 <= diagonal_buy_qty.units,
        threshold <= usize::MAX - 100,
    ensures
        r == spec_diagonal(sell_qty.units as int, diagonal_buy_qty.units as int, threshold as int),
{
    let sell = sell_qty.units as i128;
    let buy = diagonal_buy_qty.units as i128;
    let factor = (threshold as i128) + 100;
    proof {
        assert(0 <= factor * sell <= 0xFFFF_FFFF_FFFF_FFFF * 0x7FFF_FFFF_FFFF_FFFF) by (
        nonlinear_arith)
            requires
                0 <= factor <= 0xFFFF_FFFF_FFFF_FFFF,
                0 <= sell <= 0x7FFF_FFFF_FFFF_FFFF,
        ;
        assert(0 <= factor * buy <= 0xFFFF_FFFF_FFFF_FFFF * 0x7FFF_FFFF_FFFF_FFFF) by (
        nonlinear_arith)
            requires
                0 <= factor <= 0xFFFF_FFFF_FFFF_FFFF,
                0 <= buy <= 0x7FFF_FFFF_FFFF_FFFF,
        ;
    }
    if buy >= sell {
        if 100 * buy > factor * sell {
            Some(ImbalanceSide::Buy)
        } else {
            None
        }
    } else {
        if 100 * sell > factor * buy {
            Some(ImbalanceSide::Sell)
        } else {
            None
        }
    }
}

/// The imbalance marker drawn for a diagonal: none when `ignore_zeros` is
/// set and a side is empty, else the diagonal's imbalance.
pub fn imbalance_marker(sell_qty: Qty, diagonal_buy_qty: Qty, threshold: usize, ignore_zeros: bool) -> (r:
    Option<ImbalanceSide>)
    requires
        0 <= sell_qty.units,
        0 <= diagonal_buy_qty.units,
        threshold <= usize::MAX - 100,
    ensures
        r == spec_marker(
            sell_qty.units as int,
            diagonal_buy_qty.units as int,
            threshold as int,
            ignore_zeros,
        ),
{
    if ignore_zeros && sell_qty.units <= 0 {
        return None;
    }
    if ignore_zeros && diagonal_buy_qty.units <= 0 {
        return None;
    }
    diagonal_imbalance(sell_qty, diagonal_buy_qty, threshold)
}

/// The quantities at price units `p`, if a level has that price.
pub open spec fn level_at(s: Seq<(Price, GroupedTrades)>, p: int) -> Option<GroupedTrades>
    decreases s.len(),
{
    if s.len() == 0 {
        None
    } else if s.last().0.units == p {
        Some(s.last().1)
    } else {
        level_at(s.drop_last(), p)
    }
}

/// `level_at` finds the level with that price, or none.
pub proof fn lemma_level_at(s: Seq<(Price, GroupedTrades)>, p: int)
    requires
        prices_distinct(s),
    ensures
        level_at(s, p) is None <==> forall|i: int| 0 <= i < s.len() ==> (#[trigger] s[i]).0.units
            != p,
        forall|i: int|
            0 <= i < s.len() && (#[trigger] s[i]).0.units == p ==> level_at(s, p) == Some(s[i].1),
    decreases s.len(),
{
    if s.len() > 0 {
        let t = s.drop_last();
        assert(prices_distinct(t)) by {
            assert forall|i: int, j: int| 0 <= i < j < t.len() implies (#[trigger] t[i]).0 != (
            #[trigger] t[j]).0 by {
                assert(t[i] == s[i] && t[j] == s[j]);
            }
        }
        lemma_level_at(t, p);
        assert forall|i: int| 0 <= i < s.len() && (#[trigger] s[i]).0.units == p implies level_at(
            s,
            p,
        ) == Some(s[i].1) by {
            if i < s.len() - 1 {
                assert(t[i] == s[i]);
                assert(s[i].0 != s[s.len() - 1].0);
            }
        }
        if level_at(s, p) is None {
            assert forall|i: int| 0 <= i < s.len() implies (#[trigger] s[i]).0.units != p by {
                if i < s.len() - 1 {
                    assert(t[i] == s[i]);
                }
            }
        }
    }
}

impl KlineTrades {
    /// The quantities traded at `price`.
    pub fn get(&self, price: Price) -> (r: Option<GroupedTrades>)
        requires
            prices_distinct(self.trades@),
        ensures
            r == level_at(self.trades@, price.units as int),
    {
        proof {
            lemma_level_at(self.trades@, price.units as int);
        }
        let mut i: usize = 0;
        while i < self.trades.len()
            invariant
                i <= self.trades@.len(),
                forall|j: int| 0 <= j < i ==> (#[trigger] self.trades@[j]).0.units != price.units,
                level_at(self.trades@, price.units as int) is None <==> forall|j: int|
                    0 <= j < self.trades@.len() ==> (#[trigger] self.trades@[j]).0.units != price.units,
                forall|j: int|
                    0 <= j < self.trades@.len() && (#[trigger] self.trades@[j]).0.units == price.units
                        ==> level_at(self.trades@, price.units as int) == Some(self.trades@[j].1),
            decreases self.trades@.len() - i,
        {
            if self.trades[i].0.units == price.units {
                return Some(self.trades[i].1);
            }
            i = i + 1;
        }
        None
    }
}

/// The price units marked by a level of `s` on the side `side`: the upper
/// level of a buy imbalance, the lower level of a sell imbalance.
pub open spec fn marks_side(
    s: Seq<(Price, GroupedTrades)>,
    i: int,
    step: int,
    threshold: int,
    side: ImbalanceSide,
) -> bool {
    let p = s[i].0.units as int;
    match level_at(s, p + step) {
        Some(h) => spec_diagonal(s[i].1.sell_qty.units as int, h.buy_qty.units as int, threshold)
            == Some(side),
        None => false,
    }
}

/// The price a level marks on a side.
pub open spec fn marked_price(p: int, step: int, side: ImbalanceSide) -> int {
    match side {
        ImbalanceSide::Buy => p + step,
        ImbalanceSide::Sell => p,
    }
}

/// Strictly increasing price units.
pub open spec fn units_increasing(s: Seq<Price>) -> bool {
    forall|i: int, j: int| 0 <= i < j < s.len() ==> (#[trigger] s[i]).units < (#[trigger] s[j]).units
}

/// Some element of `s` has price units `u`.
pub open spec fn has_units(s: Seq<Price>, u: int) -> bool {
    exists|i: int| 0 <= i < s.len() && (#[trigger] s[i]).units == u
}

/// Inserts a price into strictly increasing prices where it does not occur.
fn insert_sorted(v: &mut Vec<Price>, x: Price)
    requires
        units_increasing(old(v)@),
        !has_units(old(v)@, x.units as int),
    ensures
        units_increasing(final(v)@),
        final(v)@.len() == old(v)@.len() + 1,
        forall|u: int| #[trigger] has_units(final(v)@, u) <==> has_units(old(v)@, u) || u == x.units,
{
    let ghost a = v@;
    let mut pos: usize = 0;
    while pos < v.len() && v[pos].units < x.units
        invariant
            v@ == a,
            pos <= a.len(),
            forall|j: int| 0 <= j < pos ==> (#[trigger] a[j]).units < x.units,
        decreases a.len() - pos,
    {
        pos = pos + 1;
    }
    proof {
        if pos < a.len() {
            assert(a[pos as int].units != x.units);
        }
    }
    v.insert(pos, x);
    proof {
        let b = v@;
        assert forall|i: int, j: int| 0 <= i < j < b.len() implies (#[trigger] b[i]).units < (
        #[trigger] b[j]).units by {
            if j < pos {
                assert(b[i] == a[i] && b[j] == a[j]);
            } else if i > pos {
                assert(b[i] == a[i - 1] && b[j] == a[j - 1]);
            } else if i == pos {
                assert(b[j] == a[j - 1]);
                assert(a[pos as int].units >= x.units);
            } else if j == pos {
                assert(b[i] == a[i]);
            } else {
                assert(b[i] == a[i] && b[j] == a[j - 1]);
                assert(a[pos as int].units > x.units);
            }
        }
        assert forall|u: int| #[trigger] has_units(b, u) <==> has_units(a, u) || u == x.units by {
            if has_units(b, u) {
                let i = choose|i: int| 0 <= i < b.len() && (#[trigger] b[i]).units == u;
                if i < pos {
                    assert(b[i] == a[i]);
                } else if i > pos {
                    assert(b[i] == a[i - 1]);
                }
            }
            if has_units(a, u) {
                let i = choose|i: int| 0 <= i < a.len() && (#[trigger] a[i]).units == u;
                if i < pos {
                    assert(b[i] == a[i]);
                } else {
                    assert(b[i + 1] == a[i]);
                }
            }
            if u == x.units {
                assert(b[pos as int] == x);
            }
        }
    }
}

/// The prices a footprint's diagonals mark on one side, by increasing
/// price: for a buy imbalance the upper level, for a sell imbalance the
/// lower one.
pub fn imbalance_prices(footprint: &KlineTrades, step: PriceStep, threshold: usize, side: ImbalanceSide) -> (r:
    Vec<Price>)
    requires
        footprint.wf(),
        step.units > 0,
        threshold <= usize::MAX - 100,
    ensures
        units_increasing(r@),
        forall|u: int| #[trigger]
            has_units(r@, u) <==> exists|i: int|
                0 <= i < footprint.trades@.len() && marks_side(
                    footprint.trades@,
                    i,
                    step.units as int,
                    threshold as int,
                    side,
                ) && u == marked_price(#[trigger] footprint.trades@[i].0.units as int, step.units as int, side),
{
    let ghost s = footprint.trades@;
    proof {
        lemma_level_at(s, 0);
    }
    let mut out: Vec<Price> = Vec::new();
    let n = footprint.trades.len();
    let mut i: usize = 0;
    while i < n
        invariant
            footprint.wf(),
            s == footprint.trades@,
            n == s.len(),
            step.units > 0,
            threshold <= usize::MAX - 100,
            i <= n,
            units_increasing(out@),
            forall|u: int| #[trigger]
                has_units(out@, u) <==> exists|k: int|
                    0 <= k < i && marks_side(s, k, step.units as int, threshold as int, side) && u
                        == marked_price(#[trigger] s[k].0.units as int, step.units as int, side),
        decreases n - i,
    {
        let (p, g) = footprint.trades[i];
        proof {
            assert(levels_wf(s));
            assert(s[i as int].1.wf());
        }
        let higher_units = p.units.checked_add(step.units);
        let mut marked = false;
        match higher_units {
            Some(hu) => {
                let higher = Price { units: hu };
                match footprint.get(higher) {
                    Some(h) => {
                        proof {
                            lemma_level_at(s, hu as int);
                            let j = choose|j: int| 0 <= j < s.len() && (#[trigger] s[j]).0.units
                                == hu;
                            assert(s[j].1.wf());
                        }
                        let d = diagonal_imbalance(g.sell_qty, h.buy_qty, threshold);
                        match d {
                            Some(sd) => {
                                if sd == side {
                                    marked = true;
                                }
                            },
                            None => {},
                        }
                    },
                    None => {},
                }
            },
            None => {
                proof {
                    lemma_level_at(s, p.units + step.units);
                }
            },
        }
        proof {
            assert(marked == marks_side(s, i as int, step.units as int, threshold as int, side));
        }
        if marked {
            let mp = match side {
                ImbalanceSide::Buy => Price { units: p.units + step.units },
                ImbalanceSide::Sell => p,
            };
            proof {
                if has_units(out@, mp.units as int) {
                    let k = choose|k: int|
                        0 <= k < i && marks_side(s, k, step.units as int, threshold as int, side)
                            && mp.units == marked_price(
                            #[trigger] s[k].0.units as int,
                            step.units as int,
                            side,
                        );
                    assert(s[k].0 != s[i as int].0);
                }
            }
            insert_sorted(&mut out, mp);
        }
        proof {
            assert forall|u: int| #[trigger]
                has_units(out@, u) <==> exists|k: int|
                    0 <= k < i + 1 && marks_side(s, k, step.units as int, threshold as int, side)
                        && u == marked_price(#[trigger] s[k].0.units as int, step.units as int, side) by {
                if exists|k: int|
                    0 <= k < i + 1 && marks_side(s, k, step.units as int, threshold as int, side)
                        && u == marked_price(#[trigger] s[k].0.units as int, step.units as int, side) {
                    let k = choose|k: int|
                        0 <= k < i + 1 && marks_side(s, k, step.units as int, threshold as int, side)
                            && u == marked_price(#[trigger] s[k].0.units as int, step.units as int, side);
                    if k < i {
                    }
                }
            }
        }
        i = i + 1;
    }
    out
}

/// The maximal runs of prices one tick apart in `s`, as (first index, last
/// index) pairs, in order.
pub open spec fn all_runs(s: Seq<Price>, step: int) -> Seq<(int, int)>
    decreases s.len(),
{
    if s.len() == 0 {
        Seq::empty()
    } else if s.len() == 1 {
        seq![(0int, 0int)]
    } else {
        let r = all_runs(s.drop_last(), step);
        if s.last().units == s[s.len() - 2].units + step {
            r.update(r.len() - 1, (r.last().0, s.len() - 1))
        } else {
            r.push((s.len() - 1, s.len() - 1))
        }
    }
}

/// The runs spanning at least `k` prices, in order.
pub open spec fn long_runs(r: Seq<(int, int)>, k: int) -> Seq<(int, int)>
    decreases r.len(),
{
    if r.len() == 0 {
        Seq::empty()
    } else if r.last().1 - r.last().0 + 1 >= k {
        long_runs(r.drop_last(), k).push(r.last())
    } else {
        long_runs(r.drop_last(), k)
    }
}

/// A run as a zone: its side and its lowest and highest price.
pub open spec fn zone_of(s: Seq<Price>, is_buy: bool, run: (int, int)) -> (bool, Price, Price) {
    (is_buy, s[run.0], s[run.1])
}

/// The zones of the runs, in order.
pub open spec fn zones_of(s: Seq<Price>, is_buy: bool, runs: Seq<(int, int)>) -> Seq<(bool, Price, Price)>
    decreases runs.len(),
{
    if runs.len() == 0 {
        Seq::empty()
    } else {
        zones_of(s, is_buy, runs.drop_last()).push(zone_of(s, is_buy, runs.last()))
    }
}

/// The stacked zones on one side: every maximal run of imbalanced prices one
/// tick apart that spans at least `consecutive` prices, from its lowest to
/// its highest price, in price order.
pub fn extract_runs(imbalances: &Vec<Price>, step: PriceStep, consecutive: usize, is_buy: bool) -> (r: Vec<
    (bool, Price, Price),
>)
    ensures
        r@ == zones_of(
            imbalances@,
            is_buy,
            long_runs(all_runs(imbalances@, step.units as int), consecutive as int),
        ),
{
    let ghost s = imbalances@;
    let ghost st = step.units as int;
    let ghost k = consecutive as int;
    let mut zones: Vec<(bool, Price, Price)> = Vec::new();
    let n = imbalances.len();
    if n == 0 {
        return zones;
    }
    proof {
        assert(s.take(1).len() == 1);
    }
    let mut count: usize = 1;
    let mut start: usize = 0;
    let ghost mut done: Seq<(int, int)> = Seq::empty();
    let mut i: usize = 1;
    while i < n
        invariant
            s == imbalances@,
            n == s.len(),
            st == step.units as int,
            k == consecutive as int,
            1 <= i <= n,
            start < i,
            count == i - start,
            all_runs(s.take(i as int), st) == done.push((start as int, i - 1)),
            forall|j: int| 0 <= j < done.len() ==> 0 <= (#[trigger] done[j]).0 <= done[j].1 < start,
            zones@ == zones_of(s, is_buy, long_runs(done, k)),
        decreases n - i,
    {
        let prev = imbalances[i - 1].units;
        let expected = prev.checked_add(step.units);
        let same_run = match expected {
            Some(e) => imbalances[i].units == e,
            None => false,
        };
        proof {
            let t = s.take(i + 1);
            assert(t.drop_last() == s.take(i as int));
            assert(t.last() == s[i as int]);
            assert(t[t.len() - 2] == s[i - 1]);
            assert(same_run == (t.last().units == t[t.len() - 2].units + st));
        }
        if same_run {
            count = count + 1;
            proof {
                assert(done.push((start as int, i - 1)).update(done.len() as int, (start as int, i as int))
                    =~= done.push((start as int, i as int)));
            }
        } else {
            if count >= consecutive {
                zones.push((is_buy, imbalances[start], imbalances[i - 1]));
            }
            proof {
                let x = (start as int, i - 1);
                let d2 = done.push(x);
                assert(d2.drop_last() == done);
                assert(zones_of(s, is_buy, long_runs(d2, k)) == (if x.1 - x.0 + 1 >= k {
                    zones_of(s, is_buy, long_runs(done, k)).push(zone_of(s, is_buy, x))
                } else {
                    zones_of(s, is_buy, long_runs(done, k))
                })) by {
                    if x.1 - x.0 + 1 >= k {
                        assert(long_runs(d2, k).drop_last() == long_runs(done, k));
                    }
                }
                done = d2;
            }
            start = i;
            count = 1;
        }
        i = i + 1;
    }
    if count >= consecutive {
        zones.push((is_buy, imbalances[start], imbalances[n - 1]));
    }
    proof {
        let x = (start as int, n - 1);
        let d2 = done.push(x);
        assert(s.take(n as int) == s);
        assert(d2.drop_last() == done);
        if x.1 - x.0 + 1 >= k {
            assert(long_runs(d2, k).drop_last() == long_runs(done, k));
        }
    }
    zones
}

/// The candidate stacked imbalance zones of a footprint: the buy side's
/// zones, then the sell side's.
pub fn stacked_imbalance_zones(
    footprint: &KlineTrades,
    step: PriceStep,
    threshold: usize,
    consecutive: usize,
) -> (r: Vec<(bool, Price, Price)>)
    requires
        footprint.wf(),
        step.units > 0,
        threshold <= usize::MAX - 100,
    ensures
        ({
            let buys = imbalance_side_prices(footprint.trades@, step.units as int, threshold as int, ImbalanceSide::Buy);
            let sells = imbalance_side_prices(footprint.trades@, step.units as int, threshold as int, ImbalanceSide::Sell);
            exists|b: Seq<Price>, s: Seq<Price>| {
                &&& units_increasing(b)
                &&& units_increasing(s)
                &&& (forall|u: int| #[trigger] has_units(b, u) <==> buys.contains(u))
                &&& (forall|u: int| #[trigger] has_units(s, u) <==> sells.contains(u))
                &&& r@ == zones_of(b, true, long_runs(all_runs(b, step.units as int), consecutive as int))
                    + zones_of(s, false, long_runs(all_runs(s, step.units as int), consecutive as int))
            }
        }),
{
    let buys = imbalance_prices(footprint, step, threshold, ImbalanceSide::Buy);
    let sells = imbalance_prices(footprint, step, threshold, ImbalanceSide::Sell);
    let mut zones = extract_runs(&buys, step, consecutive, true);
    let mut sell_zones = extract_runs(&sells, step, consecutive, false);
    zones.append(&mut sell_zones);
    proof {
        let bs = imbalance_side_prices(footprint.trades@, step.units as int, threshold as int, ImbalanceSide::Buy);
        let ss = imbalance_side_prices(footprint.trades@, step.units as int, threshold as int, ImbalanceSide::Sell);
        assert forall|u: int| #[trigger] has_units(buys@, u) <==> bs.contains(u) by {}
        assert forall|u: int| #[trigger] has_units(sells@, u) <==> ss.contains(u) by {}
    }
    zones
}

/// The prices a footprint's diagonals mark on one side, as a set of price
/// units.
pub open spec fn imbalance_side_prices(
    s: Seq<(Price, GroupedTrades)>,
    step: int,
    threshold: int,
    side: ImbalanceSide,
) -> Set<int> {
    Set::new(
        |u: int|
            exists|i: int|
                0 <= i < s.len() && marks_side(s, i, step, threshold, side) && u == marked_price(
                    #[trigger] s[i].0.units as int,
                    step,
                    side,
                ),
    )
}

/// A stacked zone found at some candle, and the candle that later traded
/// into it, if any.
#[derive(Clone, Copy, Debug, PartialEq, Eq, Structural)]
pub struct ActiveZone {
    pub interval: u64,
    pub is_buy: bool,
    pub min_price: Price,
    pub max_price: Price,
    pub mitigated_at: Option<u64>,
}

/// A candle with range `low..=high` at `interval` mitigates a zone still
/// open: a buy zone when its low reaches the zone's top, a sell zone when
/// its high reaches the zone's bottom.
pub open spec fn spec_mitigate(z: ActiveZone, interval: u64, high: Price, low: Price) -> ActiveZone {
    if z.mitigated_at is None && ((z.is_buy && low.units <= z.max_price.units) || (!z.is_buy
        && high.units >= z.min_price.units)) {
        ActiveZone { mitigated_at: Some(interval), ..z }
    } else {
        z
    }
}

/// Marks the open zones that the candle at `interval` trades into.
pub fn mitigate_zones(zones: &mut Vec<ActiveZone>, interval: u64, high: Price, low: Price)
    ensures
        final(zones)@.len() == old(zones)@.len(),
        forall|i: int|
            0 <= i < old(zones)@.len() ==> #[trigger] final(zones)@[i] == spec_mitigate(
                old(zones)@[i],
                interval,
                high,
                low,
            ),
{
    let n = zones.len();
    let mut i: usize = 0;
    while i < n
        invariant
            n == old(zones)@.len(),
            zones@.len() == n,
            i <= n,
            forall|j: int|
                0 <= j < i ==> #[trigger] zones@[j] == spec_mitigate(
                    old(zones)@[j],
                    interval,
                    high,
                    low,
                ),
            forall|j: int| i <= j < n ==> #[trigger] zones@[j] == old(zones)@[j],
        decreases n - i,
    {
        let z = zones[i];
        if z.mitigated_at.is_none() {
            if z.is_buy && low.units <= z.max_price.units {
                zones.set(i, ActiveZone { mitigated_at: Some(interval), ..z });
            } else if !z.is_buy && high.units >= z.min_price.units {
                zones.set(i, ActiveZone { mitigated_at: Some(interval), ..z });
            }
        }
        i = i + 1;
    }
}

/// Once mitigated, a zone keeps the candle that mitigated it.
pub proof fn lemma_mitigation_is_permanent(z: ActiveZone, interval: u64, high: Price, low: Price)
    requires
        z.mitigated_at is Some,
    ensures
        spec_mitigate(z, interval, high, low) == z,
{
}

/// Every run lies within the prices and the runs cover them in order: each
/// run starts right after the previous one ends, consecutive prices within
/// a run are one tick apart, and consecutive runs are not.
pub open spec fn runs_partition(s: Seq<Price>, step: int, r: Seq<(int, int)>) -> bool {
    &&& s.len() > 0 ==> r.len() > 0 && r[0].0 == 0 && r.last().1 == s.len() - 1
    &&& s.len() == 0 ==> r.len() == 0
    &&& forall|j: int| 0 <= j < r.len() ==> 0 <= (#[trigger] r[j]).0 <= r[j].1 < s.len()
    &&& forall|j: int| 0 < j < r.len() ==> (#[trigger] r[j]).0 == r[j - 1].1 + 1
    &&& forall|j: int, i: int|
        #![trigger r[j], s[i]]
        0 <= j < r.len() && r[j].0 < i <= r[j].1 ==> s[i].units == s[i - 1].units + step
    &&& forall|j: int| 0 < j < r.len() ==> s[(#[trigger] r[j]).0].units != s[r[j].0 - 1].units + step
}

/// The runs split the prices into maximal runs one tick apart.
pub proof fn lemma_all_runs_partition(s: Seq<Price>, step: int)
    ensures
        runs_partition(s, step, all_runs(s, step)),
    decreases s.len(),
{
    if s.len() > 1 {
        let t = s.drop_last();
        lemma_all_runs_partition(t, step);
        let r = all_runs(t, step);
        let n = s.len();
        assert forall|i: int| 0 <= i < t.len() implies t[i] == s[i] by {}
        if s.last().units == s[n - 2].units + step {
            let r2 = r.update(r.len() - 1, (r.last().0, n - 1));
            assert forall|j: int, i: int|
                #![trigger r2[j], s[i]]
                0 <= j < r2.len() && r2[j].0 < i <= r2[j].1 implies s[i].units == s[i - 1].units
                    + step by {
                if j < r2.len() - 1 {
                    assert(r2[j] == r[j]);
                    assert(t[i] == s[i] && t[i - 1] == s[i - 1]);
                } else if i < n - 1 {
                    assert(r[j].0 < i <= r[j].1);
                    assert(t[i] == s[i] && t[i - 1] == s[i - 1]);
                }
            }
            assert forall|j: int| 0 < j < r2.len() implies s[(#[trigger] r2[j]).0].units != s[r2[j].0
                - 1].units + step by {
                assert(r2[j].0 == r[j].0);
                assert(t[r[j].0] == s[r[j].0] && t[r[j].0 - 1] == s[r[j].0 - 1]);
            }
        } else {
            let r2 = r.push((n - 1, n - 1));
            assert forall|j: int, i: int|
                #![trigger r2[j], s[i]]
                0 <= j < r2.len() && r2[j].0 < i <= r2[j].1 implies s[i].units == s[i - 1].units
                    + step by {
                if j < r2.len() - 1 {
                    assert(r2[j] == r[j]);
                    assert(t[i] == s[i] && t[i - 1] == s[i - 1]);
                }
            }
            assert forall|j: int| 0 < j < r2.len() implies s[(#[trigger] r2[j]).0].units != s[r2[j].0
                - 1].units + step by {
                if j < r2.len() - 1 {
                    assert(r2[j] == r[j]);
                    assert(t[r[j].0] == s[r[j].0] && t[r[j].0 - 1] == s[r[j].0 - 1]);
                }
            }
        }
    }
}

/// Every run kept by `long_runs` spans at least `k` prices and is one of
/// the runs it was given.
proof fn lemma_long_runs(r: Seq<(int, int)>, k: int)
    ensures
        forall|j: int|
            0 <= j < long_runs(r, k).len() ==> (#[trigger] long_runs(r, k)[j]).1 - long_runs(
                r,
                k,
            )[j].0 + 1 >= k && r.contains(long_runs(r, k)[j]),
    decreases r.len(),
{
    if r.len() > 0 {
        let t = r.drop_last();
        lemma_long_runs(t, k);
        let l = long_runs(t, k);
        assert forall|j: int| 0 <= j < l.len() implies r.contains(#[trigger] l[j]) by {
            let i = choose|i: int| 0 <= i < t.len() && t[i] == l[j];
            assert(r[i] == t[i]);
        }
        if r.last().1 - r.last().0 + 1 >= k {
            let m = l.push(r.last());
            assert forall|j: int| 0 <= j < m.len() implies (#[trigger] m[j]).1 - m[j].0 + 1 >= k
                && r.contains(m[j]) by {
                if j < l.len() {
                    assert(m[j] == l[j]);
                } else {
                    assert(r[r.len() - 1] == m[j]);
                }
            }
        }
    }
}

/// A stacked zone spans at least `consecutive` imbalanced prices, each one
/// tick above the one before it, and the prices just outside it are not
/// one tick away.
pub proof fn lemma_stacked_zone_shape(s: Seq<Price>, step: int, k: int)
    ensures
        forall|j: int|
            0 <= j < long_runs(all_runs(s, step), k).len() ==> {
                let run = #[trigger] long_runs(all_runs(s, step), k)[j];
                &&& 0 <= run.0 <= run.1 < s.len()
                &&& run.1 - run.0 + 1 >= k
                &&& forall|i: int| run.0 < i <= run.1 ==> (#[trigger] s[i]).units == s[i - 1].units + step
                &&& run.0 > 0 ==> s[run.0].units != s[run.0 - 1].units + step
                &&& run.1 < s.len() - 1 ==> s[run.1 + 1].units != s[run.1].units + step
            },
{
    let r = all_runs(s, step);
    lemma_all_runs_partition(s, step);
    lemma_long_runs(r, k);
    let l = long_runs(r, k);
    assert forall|j: int| 0 <= j < l.len() implies {
        let run = #[trigger] l[j];
        &&& 0 <= run.0 <= run.1 < s.len()
        &&& run.1 - run.0 + 1 >= k
        &&& forall|i: int| run.0 < i <= run.1 ==> (#[trigger] s[i]).units == s[i - 1].units + step
        &&& run.0 > 0 ==> s[run.0].units != s[run.0 - 1].units + step
        &&& run.1 < s.len() - 1 ==> s[run.1 + 1].units != s[run.1].units + step
    } by {
        let run = l[j];
        let m = choose|m: int| 0 <= m < r.len() && r[m] == run;
        assert(r[m] == run);
        assert forall|i: int| run.0 < i <= run.1 implies (#[trigger] s[i]).units == s[i - 1].units
            + step by {
            assert(r[m].0 < i <= r[m].1);
        }
        if run.0 > 0 {
            assert(m > 0) by {
                if m == 0 {
                    assert(r[0].0 == 0);
                }
            }
        }
        if run.1 < s.len() - 1 {
            assert(m < r.len() - 1) by {
                if m == r.len() - 1 {
                    assert(r.last().1 == s.len() - 1);
                }
            }
            assert(r[m + 1].0 == r[m].1 + 1);
        }
    }
}

/// The prices each side's stacked zones are built from are exactly the
/// prices its diagonals mark: for the sell side the lower level of every
/// diagonal with a sell imbalance, for the buy side the upper level (one
/// tick above) of every diagonal with a buy imbalance.
pub proof fn lemma_side_prices_are_marked(s: Seq<(Price, GroupedTrades)>, step: int, threshold: int)
    ensures
        forall|u: int|
            #[trigger] imbalance_side_prices(s, step, threshold, ImbalanceSide::Sell).contains(u)
                <==> exists|i: int|
                0 <= i < s.len() && marks_side(s, i, step, threshold, ImbalanceSide::Sell) && (
                #[trigger] s[i]).0.units == u,
        forall|u: int|
            #[trigger] imbalance_side_prices(s, step, threshold, ImbalanceSide::Buy).contains(u)
                <==> exists|i: int|
                0 <= i < s.len() && marks_side(s, i, step, threshold, ImbalanceSide::Buy) && (
                #[trigger] s[i]).0.units + step == u,
{
    assert forall|u: int|
        #[trigger] imbalance_side_prices(s, step, threshold, ImbalanceSide::Sell).contains(u)
            <==> exists|i: int|
            0 <= i < s.len() && marks_side(s, i, step, threshold, ImbalanceSide::Sell) && (
            #[trigger] s[i]).0.units == u by {
        if exists|i: int|
            0 <= i < s.len() && marks_side(s, i, step, threshold, ImbalanceSide::Sell) && (
            #[trigger] s[i]).0.units == u {
            let i = choose|i: int|
                0 <= i < s.len() && marks_side(s, i, step, threshold, ImbalanceSide::Sell) && (
                #[trigger] s[i]).0.units == u;
            assert(u == marked_price(s[i].0.units as int, step, ImbalanceSide::Sell));
        }
    }
    assert forall|u: int|
        #[trigger] imbalance_side_prices(s, step, threshold, ImbalanceSide::Buy).contains(u)
            <==> exists|i: int|
            0 <= i < s.len() && marks_side(s, i, step, threshold, ImbalanceSide::Buy) && (
            #[trigger] s[i]).0.units + step == u by {
        if exists|i: int|
            0 <= i < s.len() && marks_side(s, i, step, threshold, ImbalanceSide::Buy) && (
            #[trigger] s[i]).0.units + step == u {
            let i = choose|i: int|
                0 <= i < s.len() && marks_side(s, i, step, threshold, ImbalanceSide::Buy) && (
                #[trigger] s[i]).0.units + step == u;
            assert(u == marked_price(s[i].0.units as int, step, ImbalanceSide::Buy));
        }
    }
}

/// A level's diagonal, against the level one tick above, is marked sell
/// exactly when its sell quantity is larger than the upper level's buy
/// quantity by more than `threshold` percent, and marked buy exactly when
/// the upper buy quantity is at least the sell quantity and larger than it
/// by more than `threshold` percent; without a level one tick above it is
/// marked on neither side, and it is never marked on both.
pub proof fn lemma_marks_side_quantities(s: Seq<(Price, GroupedTrades)>, i: int, step: int, threshold: int)
    requires
        prices_distinct(s),
        0 <= i < s.len(),
    ensures
        marks_side(s, i, step, threshold, ImbalanceSide::Sell) <==> exists|j: int|
            0 <= j < s.len() && (#[trigger] s[j]).0.units == s[i].0.units + step && s[i].1.sell_qty.units
                > s[j].1.buy_qty.units && 100 * s[i].1.sell_qty.units > (100 + threshold)
                * s[j].1.buy_qty.units,
        marks_side(s, i, step, threshold, ImbalanceSide::Buy) <==> exists|j: int|
            0 <= j < s.len() && (#[trigger] s[j]).0.units == s[i].0.units + step && s[j].1.buy_qty.units
                >= s[i].1.sell_qty.units && 100 * s[j].1.buy_qty.units > (100 + threshold)
                * s[i].1.sell_qty.units,
        !(marks_side(s, i, step, threshold, ImbalanceSide::Sell) && marks_side(
            s,
            i,
            step,
            threshold,
            ImbalanceSide::Buy,
        )),
{
    lemma_level_at(s, s[i].0.units + step);
}

/// The stacked zones keep exactly the runs that span at least `k` prices,
/// in their order.
pub proof fn lemma_long_runs_are_the_long_ones(r: Seq<(int, int)>, k: int)
    ensures
        long_runs(r, k) == r.filter(|x: (int, int)| x.1 - x.0 + 1 >= k),
    decreases r.len(),
{
    reveal(Seq::filter);
    if r.len() > 0 {
        lemma_long_runs_are_the_long_ones(r.drop_last(), k);
    }
}

} // verus!
