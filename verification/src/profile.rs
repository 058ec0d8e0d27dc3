//! Volume profiles: the point of control (the price level with the most
//! volume) and the value area (the levels around it that hold at least 70%
//! of the volume), for one footprint or for a whole session.

use vstd::prelude::*;
use crate::units::{Price, Qty};
use crate::footprint::{
    GroupedTrades, PlotData, delta_sum, levels_wf, prices_increasing, total_sum, lemma_sums_bounded,
};

verus! {

/// The volume traded at level `i`.
pub open spec fn vol_at(s: Seq<(Price, GroupedTrades)>, i: int) -> int {
    s[i].1.buy_qty.units + s[i].1.sell_qty.units
}

/// The volume of the levels `lo` to `hi`, both included.
pub open spec fn range_vol(s: Seq<(Price, GroupedTrades)>, lo: int, hi: int) -> int {
    total_sum(s.subrange(lo, hi + 1))
}

/// One step of growing the value area `lo..=hi` that holds `cur` of the
/// `total` volume: while it holds less than 70% and can grow, it takes the
/// next level above when that one has more volume than the next one below,
/// and the next one below otherwise.
pub open spec fn va_grow(s: Seq<(Price, GroupedTrades)>, lo: int, hi: int, cur: int, total: int) -> (
    int,
    int,
)
    decreases lo + s.len() - hi,
{
    if 0 <= lo && hi < s.len() && 10 * cur < 7 * total && (hi < s.len() - 1 || lo > 0) {
        let up = if hi < s.len() - 1 {
            vol_at(s, hi + 1)
        } else {
            -1
        };
        let down = if lo > 0 {
            vol_at(s, lo - 1)
        } else {
            -1
        };
        if hi < s.len() - 1 && up > down {
            va_grow(s, lo, hi + 1, cur + up, total)
        } else if lo > 0 && down >= up && down >= 0 {
            va_grow(s, lo - 1, hi, cur + down, total)
        } else {
            (lo, hi)
        }
    } else {
        (lo, hi)
    }
}

/// The value area around the level `poc`.
pub open spec fn spec_value_area(s: Seq<(Price, GroupedTrades)>, poc: int) -> (int, int) {
    va_grow(s, poc, poc, vol_at(s, poc), total_sum(s))
}

/// The volume of two adjoining runs of levels is the sum of their volumes.
pub proof fn lemma_total_sum_concat(a: Seq<(Price, GroupedTrades)>, b: Seq<(Price, GroupedTrades)>)
    ensures
        total_sum(a + b) == total_sum(a) + total_sum(b),
    decreases b.len(),
{
    if b.len() > 0 {
        lemma_total_sum_concat(a, b.drop_last());
        assert((a + b).drop_last() == a + b.drop_last());
    }
}

/// A run of well-formed levels holds no more volume than all of them.
proof fn lemma_range_vol_bounded(s: Seq<(Price, GroupedTrades)>, lo: int, hi: int)
    requires
        levels_wf(s),
        0 <= lo <= hi + 1 <= s.len(),
    ensures
        0 <= range_vol(s, lo, hi) <= total_sum(s),
{
    let a = s.subrange(0, lo);
    let b = s.subrange(lo, hi + 1);
    let c = s.subrange(hi + 1, s.len() as int);
    assert(s == a + b + c);
    lemma_total_sum_concat(a + b, c);
    lemma_total_sum_concat(a, b);
    assert(levels_wf(a)) by {
        assert forall|i: int| 0 <= i < a.len() implies (#[trigger] a[i]).1.wf() by {
            assert(a[i] == s[i]);
        }
    }
    assert(levels_wf(b)) by {
        assert forall|i: int| 0 <= i < b.len() implies (#[trigger] b[i]).1.wf() by {
            assert(b[i] == s[i + lo]);
        }
    }
    assert(levels_wf(c)) by {
        assert forall|i: int| 0 <= i < c.len() implies (#[trigger] c[i]).1.wf() by {
            assert(c[i] == s[i + hi + 1]);
        }
    }
    lemma_sums_bounded(a);
    lemma_sums_bounded(b);
    lemma_sums_bounded(c);
}

/// Growing a run by one level above or below adds that level's volume.
proof fn lemma_range_vol_extend(s: Seq<(Price, GroupedTrades)>, lo: int, hi: int)
    requires
        0 <= lo <= hi < s.len(),
    ensures
        hi + 1 < s.len() ==> range_vol(s, lo, hi + 1) == range_vol(s, lo, hi) + vol_at(s, hi + 1),
        lo > 0 ==> range_vol(s, lo - 1, hi) == range_vol(s, lo, hi) + vol_at(s, lo - 1),
        range_vol(s, lo, lo) == vol_at(s, lo),
{
    if hi + 1 < s.len() {
        assert(s.subrange(lo, hi + 2).drop_last() == s.subrange(lo, hi + 1));
    }
    if lo > 0 {
        let one = s.subrange(lo - 1, lo);
        assert(s.subrange(lo - 1, hi + 1) == one + s.subrange(lo, hi + 1));
        lemma_total_sum_concat(one, s.subrange(lo, hi + 1));
        assert(one.drop_last() =~= Seq::<(Price, GroupedTrades)>::empty());
        assert(one.last() == s[lo - 1]);
        assert(total_sum(one.drop_last()) == 0);
        assert(total_sum(one) == vol_at(s, lo - 1));
    }
    let single = s.subrange(lo, lo + 1);
    assert(single.drop_last() =~= Seq::<(Price, GroupedTrades)>::empty());
    assert(single.last() == s[lo]);
    assert(total_sum(single.drop_last()) == 0);
    assert(total_sum(single) == vol_at(s, lo));
}

/// The value area contains the point of control, and holds at least 70% of
/// the volume unless it spans every level.
pub proof fn lemma_value_area_covers(s: Seq<(Price, GroupedTrades)>, poc: int)
    requires
        levels_wf(s),
        0 <= poc < s.len(),
    ensures
        ({
            let (lo, hi) = spec_value_area(s, poc);
            &&& 0 <= lo <= poc <= hi < s.len()
            &&& 10 * range_vol(s, lo, hi) >= 7 * total_sum(s) || (lo == 0 && hi == s.len() - 1)
        }),
{
    lemma_range_vol_extend(s, poc, poc);
    lemma_va_grow_covers(s, poc, poc, poc);
}

/// How the value area grows, one level at a time, while it holds less than
/// 70% of the volume: when the level above has strictly more volume than
/// the level below (or there is no level below), it takes the level above;
/// when the level below has at least as much volume as the level above (or
/// there is no level above), it takes the level below; once it holds 70%
/// it stops.
pub proof fn lemma_value_area_step(s: Seq<(Price, GroupedTrades)>, lo: int, hi: int, cur: int, total: int)
    requires
        levels_wf(s),
        0 <= lo <= hi < s.len(),
    ensures
        10 * cur >= 7 * total ==> va_grow(s, lo, hi, cur, total) == (lo, hi),
        10 * cur < 7 * total && hi < s.len() - 1 && (lo == 0 || vol_at(s, hi + 1) > vol_at(s, lo - 1))
            ==> va_grow(s, lo, hi, cur, total) == va_grow(s, lo, hi + 1, cur + vol_at(s, hi + 1), total),
        10 * cur < 7 * total && lo > 0 && (hi == s.len() - 1 || vol_at(s, lo - 1) >= vol_at(s, hi + 1))
            ==> va_grow(s, lo, hi, cur, total) == va_grow(s, lo - 1, hi, cur + vol_at(s, lo - 1), total),
        lo == 0 && hi == s.len() - 1 ==> va_grow(s, lo, hi, cur, total) == (lo, hi),
{
    if hi < s.len() - 1 {
        assert(s[hi + 1].1.wf());
    }
    if lo > 0 {
        assert(s[lo - 1].1.wf());
    }
}

proof fn lemma_va_grow_covers(s: Seq<(Price, GroupedTrades)>, lo: int, hi: int, poc: int)
    requires
        levels_wf(s),
        0 <= lo <= poc <= hi < s.len(),
    ensures
        ({
            let (l, h) = va_grow(s, lo, hi, range_vol(s, lo, hi), total_sum(s));
            &&& 0 <= l <= lo && hi <= h < s.len()
            &&& 10 * range_vol(s, l, h) >= 7 * total_sum(s) || (l == 0 && h == s.len() - 1)
        }),
    decreases lo + s.len() - hi,
{
    let cur = range_vol(s, lo, hi);
    let total = total_sum(s);
    lemma_range_vol_extend(s, lo, hi);
    if 10 * cur < 7 * total && (hi < s.len() - 1 || lo > 0) {
        let up = if hi < s.len() - 1 {
            vol_at(s, hi + 1)
        } else {
            -1
        };
        let down = if lo > 0 {
            vol_at(s, lo - 1)
        } else {
            -1
        };
        if hi < s.len() - 1 {
            assert(s[hi + 1].1.wf());
        }
        if lo > 0 {
            assert(s[lo - 1].1.wf());
        }
        if hi < s.len() - 1 && up > down {
            lemma_va_grow_covers(s, lo, hi + 1, poc);
        } else if lo > 0 && down >= up && down >= 0 {
            lemma_va_grow_covers(s, lo - 1, hi, poc);
        }
    }
}

/// The value area around the level `poc` of well-formed levels, as the
/// indices of its lowest and highest level: starting from `poc`, while the
/// area holds less than 70% of all the volume, it takes the next level
/// above if that one has more volume than the next level below, else the
/// next level below.
pub fn value_area(levels: &Vec<(Price, GroupedTrades)>, poc: usize) -> (r: (usize, usize))
    requires
        levels_wf(levels@),
        total_sum(levels@) <= i64::MAX,
        poc < levels@.len(),
    ensures
        r.0 as int == spec_value_area(levels@, poc as int).0,
        r.1 as int == spec_value_area(levels@, poc as int).1,
        r.0 <= poc <= r.1 < levels@.len(),
{
    let ghost s = levels@;
    let n = levels.len();
    let mut total: i64 = 0;
    let mut i: usize = 0;
    proof {
        lemma_sums_bounded(s);
    }
    while i < n
        invariant
            s == levels@,
            n == s.len(),
            levels_wf(s),
            total_sum(s) <= i64::MAX,
            i <= n,
            total == total_sum(s.take(i as int)),
            forall|k: int| 0 <= k <= s.len() ==> #[trigger] total_sum(s.take(k)) <= total_sum(s),
        decreases n - i,
    {
        proof {
            assert(s.take(i + 1).drop_last() == s.take(i as int));
            assert(s[i as int].1.wf());
            assert(total_sum(s.take(i + 1)) <= total_sum(s));
        }
        total = total + (levels[i].1.buy_qty.units + levels[i].1.sell_qty.units);
        i = i + 1;
    }
    proof {
        assert(s.take(n as int) == s);
        assert(s[poc as int].1.wf());
        lemma_range_vol_extend(s, poc as int, poc as int);
    }
    let target10: i128 = 7 * (total as i128);
    let mut lo: usize = poc;
    let mut hi: usize = poc;
    let mut cur: i64 = levels[poc].1.buy_qty.units + levels[poc].1.sell_qty.units;
    while (10 * (cur as i128)) < target10 && (hi < n - 1 || lo > 0)
        invariant
            s == levels@,
            n == s.len(),
            levels_wf(s),
            total == total_sum(s),
            total <= i64::MAX,
            target10 == 7 * total,
            0 <= lo <= poc <= hi < n,
            cur == range_vol(s, lo as int, hi as int),
            va_grow(s, lo as int, hi as int, cur as int, total as int) == spec_value_area(
                s,
                poc as int,
            ),
        ensures
            0 <= lo <= poc <= hi < n,
            va_grow(s, lo as int, hi as int, cur as int, total as int) == (lo as int, hi as int),
            va_grow(s, lo as int, hi as int, cur as int, total as int) == spec_value_area(
                s,
                poc as int,
            ),
        decreases lo + n - hi,
    {
        proof {
            lemma_range_vol_extend(s, lo as int, hi as int);
            lemma_range_vol_bounded(s, lo as int, hi as int);
            if hi < n - 1 {
                assert(s[hi + 1].1.wf());
                lemma_range_vol_bounded(s, lo as int, hi + 1);
            }
            if lo > 0 {
                assert(s[lo - 1].1.wf());
                lemma_range_vol_bounded(s, lo - 1, hi as int);
            }
        }
        let vol_up: i64 = if hi < n - 1 {
            levels[hi + 1].1.buy_qty.units + levels[hi + 1].1.sell_qty.units
        } else {
            -1
        };
        let vol_down: i64 = if lo > 0 {
            levels[lo - 1].1.buy_qty.units + levels[lo - 1].1.sell_qty.units
        } else {
            -1
        };
        if vol_up > vol_down {
            hi = hi + 1;
            cur = cur + vol_up;
        } else if vol_down >= vol_up && vol_down >= 0 {
            lo = lo - 1;
            cur = cur + vol_down;
        } else {
            break ;
        }
    }
    (lo, hi)
}

/// The level with the most volume; of equal ones, the last.
pub open spec fn is_poc(s: Seq<(Price, GroupedTrades)>, p: int) -> bool {
    &&& 0 <= p < s.len()
    &&& forall|j: int| 0 <= j < s.len() ==> vol_at(s, j) <= vol_at(s, p)
    &&& forall|j: int| p < j < s.len() ==> vol_at(s, j) < vol_at(s, p)
}

/// The index of the level with the most volume; among levels with equal
/// volume, the last one.
pub fn point_of_control(levels: &Vec<(Price, GroupedTrades)>) -> (r: usize)
    requires
        levels@.len() > 0,
        levels_wf(levels@),
    ensures
        is_poc(levels@, r as int),
{
    let n = levels.len();
    let mut best: usize = 0;
    let mut best_vol: i64 = levels[0].1.buy_qty.units + levels[0].1.sell_qty.units;
    let mut i: usize = 1;
    proof {
        assert(levels@[0].1.wf());
    }
    while i < n
        invariant
            n == levels@.len(),
            levels_wf(levels@),
            1 <= i <= n,
            best < i,
            best_vol == vol_at(levels@, best as int),
            forall|j: int| 0 <= j < i ==> vol_at(levels@, j) <= best_vol,
            forall|j: int| best < j < i ==> vol_at(levels@, j) < best_vol,
        decreases n - i,
    {
        proof {
            assert(levels@[i as int].1.wf());
        }
        let v = levels[i].1.buy_qty.units + levels[i].1.sell_qty.units;
        if v >= best_vol {
            best = i;
            best_vol = v;
        }
        i = i + 1;
    }
    best
}

/// A whole session's profile: volume per price level, totals, point of
/// control and value area.
#[derive(Clone, Debug)]
pub struct SessionProfile {
    /// Levels by increasing price.
    pub levels: Vec<(Price, GroupedTrades)>,
    pub total_vol: Qty,
    pub total_delta: Qty,
    /// Index of the point of control in `levels`.
    pub poc: usize,
    /// Index of the value area's lowest level.
    pub val: usize,
    /// Index of the value area's highest level.
    pub vah: usize,
}

/// Buy quantity at price `q` summed over the levels.
pub open spec fn sum_buy_at(s: Seq<(Price, GroupedTrades)>, q: Price) -> int
    decreases s.len(),
{
    if s.len() == 0 {
        0
    } else {
        sum_buy_at(s.drop_last(), q) + if s.last().0 == q {
            s.last().1.buy_qty.units as int
        } else {
            0
        }
    }
}

/// Sell quantity at price `q` summed over the levels.
pub open spec fn sum_sell_at(s: Seq<(Price, GroupedTrades)>, q: Price) -> int
    decreases s.len(),
{
    if s.len() == 0 {
        0
    } else {
        sum_sell_at(s.drop_last(), q) + if s.last().0 == q {
            s.last().1.sell_qty.units as int
        } else {
            0
        }
    }
}

/// Some level has price `q`.
pub open spec fn has_price(s: Seq<(Price, GroupedTrades)>, q: Price) -> bool {
    exists|i: int| 0 <= i < s.len() && (#[trigger] s[i]).0 == q
}

/// The footprints of every data point, oldest first.
pub open spec fn footprints(data: PlotData) -> Seq<Seq<(Price, GroupedTrades)>> {
    match data {
        PlotData::TimeBased(ts) => Seq::new(
            ts.datapoints@.len(),
            |i: int| ts.datapoints@[i].1.footprint.trades@,
        ),
        PlotData::TickBased(ta) => Seq::new(
            ta.datapoints@.len(),
            |i: int| ta.datapoints@[i].footprint.trades@,
        ),
    }
}

/// Sequences laid end to end.
pub open spec fn concat_all(ss: Seq<Seq<(Price, GroupedTrades)>>) -> Seq<(Price, GroupedTrades)>
    decreases ss.len(),
{
    if ss.len() == 0 {
        Seq::empty()
    } else {
        concat_all(ss.drop_last()) + ss.last()
    }
}

/// Every level of every footprint of a chart.
pub open spec fn all_levels(data: PlotData) -> Seq<(Price, GroupedTrades)> {
    concat_all(footprints(data))
}

/// Per-price sums and totals add up over adjoining runs of levels.
proof fn lemma_at_concat(a: Seq<(Price, GroupedTrades)>, b: Seq<(Price, GroupedTrades)>, q: Price)
    ensures
        sum_buy_at(a + b, q) == sum_buy_at(a, q) + sum_buy_at(b, q),
        sum_sell_at(a + b, q) == sum_sell_at(a, q) + sum_sell_at(b, q),
        has_price(a + b, q) <==> has_price(a, q) || has_price(b, q),
    decreases b.len(),
{
    if b.len() > 0 {
        lemma_at_concat(a, b.drop_last(), q);
        assert((a + b).drop_last() == a + b.drop_last());
    }
    if has_price(a + b, q) {
        let i = choose|i: int| 0 <= i < (a + b).len() && (#[trigger] (a + b)[i]).0 == q;
        if i < a.len() {
            assert(a[i] == (a + b)[i]);
        } else {
            assert(b[i - a.len()] == (a + b)[i]);
        }
    }
    if has_price(a, q) {
        let i = choose|i: int| 0 <= i < a.len() && (#[trigger] a[i]).0 == q;
        assert((a + b)[i] == a[i]);
    }
    if has_price(b, q) {
        let i = choose|i: int| 0 <= i < b.len() && (#[trigger] b[i]).0 == q;
        assert((a + b)[i + a.len()] == b[i]);
    }
}

/// The sums of a single level.
proof fn lemma_at_single(x: (Price, GroupedTrades), q: Price)
    ensures
        sum_buy_at(seq![x], q) == (if x.0 == q {
            x.1.buy_qty.units as int
        } else {
            0
        }),
        sum_sell_at(seq![x], q) == (if x.0 == q {
            x.1.sell_qty.units as int
        } else {
            0
        }),
        total_sum(seq![x]) == x.1.buy_qty.units + x.1.sell_qty.units,
        has_price(seq![x], q) <==> x.0 == q,
{
    assert(seq![x].drop_last() =~= Seq::<(Price, GroupedTrades)>::empty());
    assert(seq![x][0] == x);
    assert(sum_buy_at(seq![x].drop_last(), q) == 0);
    assert(sum_sell_at(seq![x].drop_last(), q) == 0);
    assert(total_sum(seq![x].drop_last()) == 0);
}

/// With increasing prices, the sums at a level's price are that level's
/// quantities, and at an absent price they are zero.
proof fn lemma_at_distinct(s: Seq<(Price, GroupedTrades)>, q: Price)
    requires
        prices_increasing(s),
    ensures
        forall|i: int|
            0 <= i < s.len() && s[i].0 == q ==> sum_buy_at(s, q) == s[i].1.buy_qty.units
                && sum_sell_at(s, q) == s[i].1.sell_qty.units,
        !has_price(s, q) ==> sum_buy_at(s, q) == 0 && sum_sell_at(s, q) == 0,
    decreases s.len(),
{
    if s.len() > 0 {
        let t = s.drop_last();
        assert(prices_increasing(t)) by {
            assert forall|i: int, j: int| 0 <= i < j < t.len() implies (#[trigger] t[i]).0.units < (
            #[trigger] t[j]).0.units by {
                assert(t[i] == s[i] && t[j] == s[j]);
            }
        }
        lemma_at_distinct(t, q);
        if s.last().0 == q {
            assert(!has_price(t, q)) by {
                if has_price(t, q) {
                    let i = choose|i: int| 0 <= i < t.len() && (#[trigger] t[i]).0 == q;
                    assert(s[i] == t[i]);
                }
            }
        }
        assert forall|i: int|
            0 <= i < s.len() && s[i].0 == q implies sum_buy_at(s, q) == s[i].1.buy_qty.units
            && sum_sell_at(s, q) == s[i].1.sell_qty.units by {
            if i < s.len() - 1 {
                assert(t[i] == s[i]);
                assert(s[i].0.units < s[s.len() - 1].0.units);
            }
        }
        if !has_price(s, q) {
            assert(!has_price(t, q)) by {
                if has_price(t, q) {
                    let i = choose|i: int| 0 <= i < t.len() && (#[trigger] t[i]).0 == q;
                    assert(s[i] == t[i]);
                }
            }
            assert(s[s.len() - 1].0 != q);
        }
    }
}

/// For well-formed levels the per-price sums are non-negative and within
/// the total.
proof fn lemma_at_bounded(s: Seq<(Price, GroupedTrades)>, q: Price)
    requires
        levels_wf(s),
    ensures
        0 <= sum_buy_at(s, q),
        0 <= sum_sell_at(s, q),
        sum_buy_at(s, q) + sum_sell_at(s, q) <= total_sum(s),
    decreases s.len(),
{
    if s.len() > 0 {
        let t = s.drop_last();
        assert(levels_wf(t)) by {
            assert forall|i: int| 0 <= i < t.len() implies (#[trigger] t[i]).1.wf() by {
                assert(t[i] == s[i]);
            }
        }
        lemma_at_bounded(t, q);
        assert(s[s.len() - 1].1.wf());
    }
}

/// Adds the quantities of one level into levels kept by increasing price.
#[verifier::rlimit(40)]
#[verifier::spinoff_prover]
fn merge_level(acc: &mut Vec<(Price, GroupedTrades)>, p: Price, g: GroupedTrades)
    requires
        prices_increasing(old(acc)@),
        levels_wf(old(acc)@),
        g.wf(),
        total_sum(old(acc)@) + g.buy_qty.units + g.sell_qty.units <= i64::MAX,
    ensures
        prices_increasing(final(acc)@),
        levels_wf(final(acc)@),
        total_sum(final(acc)@) == total_sum(old(acc)@) + g.buy_qty.units + g.sell_qty.units,
        forall|q: Price| #[trigger]
            sum_buy_at(final(acc)@, q) == sum_buy_at(old(acc)@, q) + (if q == p {
                g.buy_qty.units as int
            } else {
                0
            }),
        forall|q: Price| #[trigger]
            sum_sell_at(final(acc)@, q) == sum_sell_at(old(acc)@, q) + (if q == p {
                g.sell_qty.units as int
            } else {
                0
            }),
        forall|q: Price| #[trigger]
            has_price(final(acc)@, q) <==> has_price(old(acc)@, q) || q == p,
{
    let ghost a = acc@;
    let n = acc.len();
    let mut pos: usize = 0;
    while pos < n && acc[pos].0.units < p.units
        invariant
            acc@ == a,
            n == a.len(),
            pos <= n,
            forall|j: int| 0 <= j < pos ==> (#[trigger] a[j]).0.units < p.units,
        decreases n - pos,
    {
        pos = pos + 1;
    }
    let x = (p, g);
    proof {
        lemma_sums_bounded(a);
    }
    if pos < n && acc[pos].0.units == p.units {
        let old_g = acc[pos].1;
        proof {
            assert(a[pos as int].0 == p);
            lemma_at_distinct(a, p);
            lemma_at_bounded(a, p);
            assert(a[pos as int].1.wf());
        }
        let y = (
            p,
            GroupedTrades {
                buy_qty: Qty { units: old_g.buy_qty.units + g.buy_qty.units },
                sell_qty: Qty { units: old_g.sell_qty.units + g.sell_qty.units },
            },
        );
        acc.set(pos, y);
        proof {
            let l = a.take(pos as int);
            let r = a.skip(pos + 1);
            assert(a == l + seq![a[pos as int]] + r);
            assert(acc@ == l + seq![y] + r);
            assert forall|q: Price| #![all_triggers] true implies {
                &&& sum_buy_at(acc@, q) == sum_buy_at(a, q) + (if q == p {
                    g.buy_qty.units as int
                } else {
                    0
                })
                &&& sum_sell_at(acc@, q) == sum_sell_at(a, q) + (if q == p {
                    g.sell_qty.units as int
                } else {
                    0
                })
                &&& (has_price(acc@, q) <==> has_price(a, q) || q == p)
            } by {
                lemma_at_concat(l + seq![a[pos as int]], r, q);
                lemma_at_concat(l, seq![a[pos as int]], q);
                lemma_at_concat(l + seq![y], r, q);
                lemma_at_concat(l, seq![y], q);
                lemma_at_single(a[pos as int], q);
                lemma_at_single(y, q);
            }
            lemma_total_sum_concat(l + seq![a[pos as int]], r);
            lemma_total_sum_concat(l, seq![a[pos as int]]);
            lemma_total_sum_concat(l + seq![y], r);
            lemma_total_sum_concat(l, seq![y]);
            lemma_at_single(a[pos as int], p);
            lemma_at_single(y, p);
            assert forall|i: int, j: int| 0 <= i < j < acc@.len() implies (#[trigger] acc@[i]).0.units
                < (#[trigger] acc@[j]).0.units by {
                if i != pos && j != pos {
                    assert(acc@[i] == a[i] && acc@[j] == a[j]);
                } else if i == pos {
                    assert(acc@[j] == a[j]);
                } else {
                    assert(acc@[i] == a[i]);
                }
            }
            assert forall|i: int| 0 <= i < acc@.len() implies (#[trigger] acc@[i]).1.wf() by {
                if i != pos {
                    assert(acc@[i] == a[i]);
                    assert(a[i].1.wf());
                } else {
                    assert(y.1.wf());
                }
            }
        }
    } else {
        acc.insert(pos, x);
        proof {
            let l = a.take(pos as int);
            let r = a.skip(pos as int);
            assert(a == l + r);
            assert(acc@ == l + seq![x] + r);
            assert forall|q: Price| #![all_triggers] true implies {
                &&& sum_buy_at(acc@, q) == sum_buy_at(a, q) + (if q == p {
                    g.buy_qty.units as int
                } else {
                    0
                })
                &&& sum_sell_at(acc@, q) == sum_sell_at(a, q) + (if q == p {
                    g.sell_qty.units as int
                } else {
                    0
                })
                &&& (has_price(acc@, q) <==> has_price(a, q) || q == p)
            } by {
                lemma_at_concat(l, r, q);
                lemma_at_concat(l + seq![x], r, q);
                lemma_at_concat(l, seq![x], q);
                lemma_at_single(x, q);
            }
            lemma_total_sum_concat(l, r);
            lemma_total_sum_concat(l + seq![x], r);
            lemma_total_sum_concat(l, seq![x]);
            lemma_at_single(x, p);
            assert forall|i: int, j: int| 0 <= i < j < acc@.len() implies (#[trigger] acc@[i]).0.units
                < (#[trigger] acc@[j]).0.units by {
                if j < pos {
                    assert(acc@[i] == a[i] && acc@[j] == a[j]);
                } else if i > pos {
                    assert(acc@[i] == a[i - 1] && acc@[j] == a[j - 1]);
                } else if i == pos {
                    assert(acc@[j] == a[j - 1]);
                    assert(a[pos as int].0.units >= p.units);
                    assert(a[pos as int].0.units != p.units);
                } else if j == pos {
                    assert(acc@[i] == a[i]);
                } else {
                    assert(acc@[i] == a[i] && acc@[j] == a[j - 1]);
                    assert(a[pos as int].0.units > p.units);
                }
            }
            assert forall|i: int| 0 <= i < acc@.len() implies (#[trigger] acc@[i]).1.wf() by {
                if i < pos {
                    assert(acc@[i] == a[i]);
                } else if i > pos {
                    assert(acc@[i] == a[i - 1]);
                }
            }
        }
    }
}

/// The profile of a whole chart: the quantities of every footprint summed
/// per price level, the total volume and delta, the point of control and
/// the value area; none when no footprint holds any level.
pub fn session_profile(source: &PlotData) -> (r: Option<SessionProfile>)
    requires
        source.wf(),
        total_sum(all_levels(*source)) <= i64::MAX,
    ensures
        r is None <==> all_levels(*source).len() == 0,
        r matches Some(prof) ==> {
            let s = prof.levels@;
            let all = all_levels(*source);
            &&& prices_increasing(s)
            &&& levels_wf(s)
            &&& (forall|i: int|
                0 <= i < s.len() ==> (#[trigger] s[i]).1.buy_qty.units == sum_buy_at(all, s[i].0)
                    && s[i].1.sell_qty.units == sum_sell_at(all, s[i].0))
            &&& (forall|q: Price| has_price(all, q) <==> #[trigger] has_price(s, q))
            &&& prof.total_vol.units == total_sum(all)
            &&& prof.total_delta.units == delta_sum(all)
            &&& is_poc(s, prof.poc as int)
            &&& prof.val as int == spec_value_area(s, prof.poc as int).0
            &&& prof.vah as int == spec_value_area(s, prof.poc as int).1
        },
{
    let all = flatten_levels(source);
    let ghost t = all@;
    proof {
        lemma_sums_bounded(t);
    }
    let n = all.len();
    let mut acc: Vec<(Price, GroupedTrades)> = Vec::new();
    let mut total: i64 = 0;
    let mut delta: i64 = 0;
    let mut i: usize = 0;
    while i < n
        invariant
            t == all@,
            n == t.len(),
            levels_wf(t),
            total_sum(t) <= i64::MAX,
            forall|k: int| 0 <= k <= t.len() ==> #[trigger] total_sum(t.take(k)) <= total_sum(t),
            i <= n,
            prices_increasing(acc@),
            levels_wf(acc@),
            total_sum(acc@) == total_sum(t.take(i as int)),
            total == total_sum(t.take(i as int)),
            delta == delta_sum(t.take(i as int)),
            forall|q: Price| #[trigger] sum_buy_at(acc@, q) == sum_buy_at(t.take(i as int), q),
            forall|q: Price| #[trigger] sum_sell_at(acc@, q) == sum_sell_at(t.take(i as int), q),
            forall|q: Price| #[trigger] has_price(acc@, q) <==> has_price(t.take(i as int), q),
        decreases n - i,
    {
        let (p, g) = all[i];
        proof {
            let pre = t.take(i as int);
            let nxt = t.take(i + 1);
            assert(nxt.drop_last() == pre);
            assert(nxt == pre + seq![t[i as int]]);
            assert(t[i as int].1.wf());
            assert(total_sum(nxt) <= total_sum(t));
            assert(levels_wf(nxt)) by {
                assert forall|k: int| 0 <= k < nxt.len() implies (#[trigger] nxt[k]).1.wf() by {
                    assert(nxt[k] == t[k]);
                }
            }
            lemma_sums_bounded(nxt);
            assert forall|q: Price| #![all_triggers] true implies {
                &&& sum_buy_at(nxt, q) == sum_buy_at(pre, q) + (if q == p {
                    g.buy_qty.units as int
                } else {
                    0
                })
                &&& sum_sell_at(nxt, q) == sum_sell_at(pre, q) + (if q == p {
                    g.sell_qty.units as int
                } else {
                    0
                })
                &&& (has_price(nxt, q) <==> has_price(pre, q) || q == p)
            } by {
                lemma_at_concat(pre, seq![t[i as int]], q);
                lemma_at_single(t[i as int], q);
            }
        }
        merge_level(&mut acc, p, g);
        total = total + (g.buy_qty.units + g.sell_qty.units);
        delta = delta + (g.buy_qty.units - g.sell_qty.units);
        i = i + 1;
    }
    proof {
        assert(t.take(n as int) == t);
    }
    if acc.len() == 0 {
        proof {
            if t.len() > 0 {
                assert(has_price(t, t[0].0));
                assert(!has_price(acc@, t[0].0));
            }
        }
        return None;
    }
    proof {
        assert forall|k: int| 0 <= k < acc@.len() implies (#[trigger] acc@[k]).1.buy_qty.units
            == sum_buy_at(t, acc@[k].0) && acc@[k].1.sell_qty.units == sum_sell_at(t, acc@[k].0) by {
            lemma_at_distinct(acc@, acc@[k].0);
        }
        if t.len() == 0 {
            assert(has_price(acc@, acc@[0].0));
        }
    }
    let poc = point_of_control(&acc);
    let (val, vah) = value_area(&acc, poc);
    Some(
        SessionProfile {
            levels: acc,
            total_vol: Qty { units: total },
            total_delta: Qty { units: delta },
            poc,
            val,
            vah,
        },
    )
}

/// Every level of every footprint of the chart, oldest data point first.
fn flatten_levels(source: &PlotData) -> (r: Vec<(Price, GroupedTrades)>)
    requires
        source.wf(),
    ensures
        r@ == all_levels(*source),
        levels_wf(r@),
{
    let mut out: Vec<(Price, GroupedTrades)> = Vec::new();
    let ghost ss = footprints(*source);
    let n = match source {
        PlotData::TimeBased(ts) => ts.datapoints.len(),
        PlotData::TickBased(ta) => ta.datapoints.len(),
    };
    let mut i: usize = 0;
    while i < n
        invariant
            source.wf(),
            ss == footprints(*source),
            n == ss.len(),
            i <= n,
            out@ == concat_all(ss.take(i as int)),
            levels_wf(out@),
        decreases n - i,
    {
        let fp = match source {
            PlotData::TimeBased(ts) => &ts.datapoints[i].1.footprint,
            PlotData::TickBased(ta) => &ta.datapoints[i].footprint,
        };
        proof {
            assert(fp.trades@ == ss[i as int]);
            match source {
                PlotData::TimeBased(ts) => {
                    assert(ts.datapoints@[i as int].1.wf());
                },
                PlotData::TickBased(ta) => {
                    assert(ta.datapoints@[i as int].wf());
                },
            }
            assert(ss.take(i + 1).drop_last() == ss.take(i as int));
        }
        let ghost before = out@;
        let m = fp.trades.len();
        let mut j: usize = 0;
        while j < m
            invariant
                m == fp.trades@.len(),
                levels_wf(fp.trades@),
                j <= m,
                out@ == before + fp.trades@.take(j as int),
                levels_wf(before),
                levels_wf(out@),
            decreases m - j,
        {
            let ghost prev = out@;
            out.push(fp.trades[j]);
            proof {
                assert(fp.trades@.take(j + 1) == fp.trades@.take(j as int).push(fp.trades@[j as int]));
                assert(fp.trades@[j as int].1.wf());
                assert forall|k: int| 0 <= k < out@.len() implies (#[trigger] out@[k]).1.wf() by {
                    if k < out@.len() - 1 {
                        assert(out@[k] == prev[k]);
                    }
                }
            }
            j = j + 1;
        }
        proof {
            assert(fp.trades@.take(m as int) == fp.trades@);
        }
        i = i + 1;
    }
    proof {
        assert(ss.take(n as int) == ss);
    }
    out
}

} // verus!
