//! Which data a time-based chart asks for next, in order of priority: the
//! first candles of an empty chart, the candles before the visible range,
//! the trades a footprint needs, what the indicators need, and the candles
//! missing from the range around the view.

use vstd::prelude::*;
use crate::footprint::{TimeSeries, lemma_time_map};

verus! {

/// A range of times, in milliseconds since the Unix epoch, to fetch.
#[derive(Clone, Copy, Debug, PartialEq, Eq, Structural)]
pub enum FetchRange {
    Kline(u64, u64),
    Trades(u64, u64),
}

/// How many candles an empty chart asks for, ending now.
pub const INITIAL_KLINE_COUNT: u64 = 450;

/// `a - b`, or zero below zero.
pub open spec fn sat_sub(a: u64, b: u64) -> u64 {
    if a >= b {
        (a - b) as u64
    } else {
        0
    }
}

/// `a + b`, or `u64::MAX` above it.
pub open spec fn sat_add(a: u64, b: u64) -> u64 {
    if a + b <= u64::MAX {
        (a + b) as u64
    } else {
        u64::MAX
    }
}

/// The start of the range fetched ahead of the view: one visible span
/// before the visible start.
pub open spec fn prefetch_start(visible_earliest: u64, visible_latest: u64) -> u64 {
    sat_sub(visible_earliest, sat_sub(visible_latest, visible_earliest))
}

/// The least key.
pub open spec fn min_of(s: Seq<u64>) -> u64
    decreases s.len(),
{
    if s.len() <= 1 {
        s[0]
    } else if s.last() < min_of(s.drop_last()) {
        s.last()
    } else {
        min_of(s.drop_last())
    }
}

/// The greatest key.
pub open spec fn max_of(s: Seq<u64>) -> u64
    decreases s.len(),
{
    if s.len() <= 1 {
        s[0]
    } else if s.last() > max_of(s.drop_last()) {
        s.last()
    } else {
        max_of(s.drop_last())
    }
}

/// The candles to fetch for the missing keys: from one interval before the
/// first missing key to one interval after the last, with the visible
/// range standing in when no key is missing.
pub open spec fn spec_missing_range(
    keys: Seq<u64>,
    visible_earliest: u64,
    visible_latest: u64,
    interval_ms: u64,
) -> FetchRange {
    let earliest = if keys.len() > 0 { min_of(keys) } else { visible_earliest };
    let latest = if keys.len() > 0 { max_of(keys) } else { visible_latest };
    FetchRange::Kline(sat_sub(earliest, interval_ms), sat_add(latest, interval_ms))
}

/// The range fetched for an empty chart.
pub open spec fn spec_initial_range(now_ms: u64, interval_ms: u64) -> FetchRange {
    FetchRange::Kline(sat_sub(now_ms, (INITIAL_KLINE_COUNT * interval_ms) as u64), now_ms)
}

/// The requests that depend on the visible range, in priority order.
pub open spec fn visible_requests(
    visible_earliest: u64,
    visible_latest: u64,
    interval_ms: u64,
    kline_earliest: u64,
    trade_range: Option<(u64, u64)>,
    indicator_ranges: Seq<FetchRange>,
    missing_keys: Option<Seq<u64>>,
) -> Seq<FetchRange> {
    let before = if visible_earliest < kline_earliest {
        seq![FetchRange::Kline(prefetch_start(visible_earliest, visible_latest), kline_earliest)]
    } else {
        Seq::<FetchRange>::empty()
    };
    let trades = match trade_range {
        Some((a, b)) => seq![FetchRange::Trades(a, b)],
        None => Seq::<FetchRange>::empty(),
    };
    let missing = match missing_keys {
        Some(keys) => seq![spec_missing_range(keys, visible_earliest, visible_latest, interval_ms)],
        None => Seq::<FetchRange>::empty(),
    };
    before + trades + indicator_ranges + missing
}

/// Every request a time-based chart would make now, in priority order.
pub open spec fn spec_fetch_requests(
    series_empty: bool,
    now_ms: u64,
    interval_ms: u64,
    visible: Option<(u64, u64)>,
    kline_earliest: u64,
    trade_range: Option<(u64, u64)>,
    indicator_ranges: Seq<FetchRange>,
    missing_keys: Option<Seq<u64>>,
) -> Seq<FetchRange> {
    let initial = if series_empty {
        seq![spec_initial_range(now_ms, interval_ms)]
    } else {
        Seq::<FetchRange>::empty()
    };
    match visible {
        None => initial,
        Some((ve, vl)) => initial + visible_requests(
            ve,
            vl,
            interval_ms,
            kline_earliest,
            trade_range,
            indicator_ranges,
            missing_keys,
        ),
    }
}

/// The start of the visible range fetched ahead of it.
pub fn prefetch_earliest(visible_earliest: u64, visible_latest: u64) -> (r: u64)
    ensures
        r == prefetch_start(visible_earliest, visible_latest),
{
    visible_earliest.saturating_sub(visible_latest.saturating_sub(visible_earliest))
}

/// The window checked for missing candles: from the later of the prefetch
/// start and the first stored candle, to one interval after the view.
pub fn integrity_window(
    visible_earliest: u64,
    visible_latest: u64,
    kline_earliest: u64,
    interval_ms: u64,
) -> (r: (u64, u64))
    ensures
        r.0 == (if prefetch_start(visible_earliest, visible_latest) < kline_earliest {
            kline_earliest
        } else {
            prefetch_start(visible_earliest, visible_latest)
        }),
        r.1 == sat_add(visible_latest, interval_ms),
{
    let start = prefetch_earliest(visible_earliest, visible_latest);
    let earliest = if start < kline_earliest {
        kline_earliest
    } else {
        start
    };
    (earliest, visible_latest.saturating_add(interval_ms))
}

/// The candles to fetch for the keys an integrity check found missing.
pub fn missing_range(
    keys: &Vec<u64>,
    visible_earliest: u64,
    visible_latest: u64,
    interval_ms: u64,
) -> (r: FetchRange)
    ensures
        r == spec_missing_range(keys@, visible_earliest, visible_latest, interval_ms),
{
    let mut lo = visible_earliest;
    let mut hi = visible_latest;
    if keys.len() > 0 {
        lo = keys[0];
        hi = keys[0];
        let mut i: usize = 1;
        while i < keys.len()
            invariant
                1 <= i <= keys@.len(),
                lo == min_of(keys@.take(i as int)),
                hi == max_of(keys@.take(i as int)),
            decreases keys@.len() - i,
        {
            proof {
                assert(keys@.take(i + 1).drop_last() == keys@.take(i as int));
            }
            let k = keys[i];
            if k < lo {
                lo = k;
            }
            if k > hi {
                hi = k;
            }
            i = i + 1;
        }
        proof {
            assert(keys@.take(keys@.len() as int) == keys@);
        }
    }
    FetchRange::Kline(lo.saturating_sub(interval_ms), hi.saturating_add(interval_ms))
}

/// Every request a time-based chart makes now, in priority order: the
/// caller sends the first one its request handler has not sent yet.
/// `series_empty` tells whether no candle is stored; `visible` is the time
/// range on screen, if any; `kline_earliest` the first stored candle's
/// time; `trade_range` the trades a footprint chart still needs, when it
/// fetches trades; `indicator_ranges` what the indicators need; and
/// `missing_keys` the candles an integrity check of `integrity_window`
/// found missing, if it found any.
pub fn fetch_requests(
    series_empty: bool,
    now_ms: u64,
    interval_ms: u64,
    visible: Option<(u64, u64)>,
    kline_earliest: u64,
    trade_range: Option<(u64, u64)>,
    indicator_ranges: &Vec<FetchRange>,
    missing_keys: &Option<Vec<u64>>,
) -> (r: Vec<FetchRange>)
    requires
        series_empty ==> INITIAL_KLINE_COUNT * interval_ms <= u64::MAX,
    ensures
        r@ == spec_fetch_requests(
            series_empty,
            now_ms,
            interval_ms,
            visible,
            kline_earliest,
            trade_range,
            indicator_ranges@,
            match missing_keys {
                Some(k) => Some(k@),
                None => None,
            },
        ),
{
    let mut out: Vec<FetchRange> = Vec::new();
    if series_empty {
        let span = INITIAL_KLINE_COUNT * interval_ms;
        out.push(FetchRange::Kline(now_ms.saturating_sub(span), now_ms));
    }
    let ghost initial = out@;
    match visible {
        None => out,
        Some((ve, vl)) => {
            if ve < kline_earliest {
                out.push(FetchRange::Kline(prefetch_earliest(ve, vl), kline_earliest));
            }
            match trade_range {
                Some((a, b)) => out.push(FetchRange::Trades(a, b)),
                None => {},
            }
            let ghost head = out@;
            let mut i: usize = 0;
            while i < indicator_ranges.len()
                invariant
                    i <= indicator_ranges@.len(),
                    out@ == head + indicator_ranges@.take(i as int),
                decreases indicator_ranges@.len() - i,
            {
                proof {
                    assert(indicator_ranges@.take(i + 1) == indicator_ranges@.take(i as int).push(
                        indicator_ranges@[i as int],
                    ));
                }
                out.push(indicator_ranges[i]);
                i = i + 1;
            }
            proof {
                assert(indicator_ranges@.take(indicator_ranges@.len() as int) == indicator_ranges@);
            }
            match missing_keys {
                Some(keys) => out.push(missing_range(keys, ve, vl, interval_ms)),
                None => {},
            }
            let ghost missing = match missing_keys {
                Some(k) => Some(k@),
                None => None,
            };
            proof {
                assert(out@ == initial + visible_requests(
                    ve,
                    vl,
                    interval_ms,
                    kline_earliest,
                    trade_range,
                    indicator_ranges@,
                    missing,
                ));
            }
            out
        },
    }
}

/// `x` lies on the grid of multiples of `step`.
pub open spec fn on_grid(x: u64, step: u64) -> bool {
    x % step == 0
}

/// A candle time in `earliest..=latest` on the interval grid that has no
/// stored candle.
pub open spec fn is_missing(ts: TimeSeries, earliest: u64, latest: u64, t: u64) -> bool {
    &&& earliest <= t <= latest
    &&& on_grid(t, ts.interval)
    &&& !ts.map().contains_key(t)
}

/// Two grid times less than one interval apart are equal.
proof fn lemma_grid_gap(a: u64, b: u64, step: u64)
    requires
        step > 0,
        a % step == 0,
        b % step == 0,
        a <= b < a + step,
    ensures
        a == b,
{
    let qa = a / step;
    let qb = b / step;
    assert(a == qa * step) by (nonlinear_arith)
        requires
            a % step == 0,
            step > 0,
            qa == a / step,
    ;
    assert(b == qb * step) by (nonlinear_arith)
        requires
            b % step == 0,
            step > 0,
            qb == b / step,
    ;
    assert(qa == qb) by (nonlinear_arith)
        requires
            a == qa * step,
            b == qb * step,
            a <= b < a + step,
            step > 0,
    ;
}

impl TimeSeries {
    /// The grid times in `earliest..=latest` with no stored candle, in
    /// increasing order; none when every such candle is stored.
    pub fn missing_candle_times(&self, earliest: u64, latest: u64) -> (r: Option<Vec<u64>>)
        requires
            self.wf(),
        ensures
            match r {
                None => forall|t: u64| !#[trigger] is_missing(*self, earliest, latest, t),
                Some(v) => {
                    &&& v@.len() > 0
                    &&& forall|t: u64| #[trigger] v@.contains(t) <==> is_missing(*self, earliest, latest, t)
                    &&& forall|i: int, j: int| 0 <= i < j < v@.len() ==> (#[trigger] v@[i]) < (#[trigger] v@[j])
                },
            },
    {
        proof {
            lemma_time_map(self.datapoints@);
        }
        let step = self.interval;
        let mut out: Vec<u64> = Vec::new();
        proof {
            assert(earliest % step <= earliest) by (nonlinear_arith)
                requires
                    step > 0,
            ;
        }
        let base = earliest - earliest % step;
        proof {
            assert(base % step == 0) by (nonlinear_arith)
                requires
                    base == earliest - earliest % step,
                    step > 0,
            ;
        }
        let mut t: u64 = base;
        if base < earliest {
            if base > u64::MAX - step {
                proof {
                    assert forall|x: u64| !#[trigger] is_missing(*self, earliest, latest, x) by {
                        if is_missing(*self, earliest, latest, x) {
                            lemma_grid_gap(base, x, step);
                        }
                    }
                }
                return None;
            }
            t = base + step;
            proof {
                assert(t % step == 0) by (nonlinear_arith)
                    requires
                        t == base + step,
                        base % step == 0,
                        step > 0,
                ;
                assert(earliest < t) by (nonlinear_arith)
                    requires
                        base == earliest - earliest % step,
                        t == base + step,
                        step > 0,
                ;
            }
        }
        proof {
            assert forall|x: u64| earliest <= x && #[trigger] on_grid(x, step) implies t <= x by {
                if x < t {
                    lemma_grid_gap(base, x, step);
                }
            }
        }
        if t > latest {
            proof {
                assert forall|x: u64| !#[trigger] is_missing(*self, earliest, latest, x) by {}
            }
            return None;
        }
        loop
            invariant_except_break
                earliest <= t <= latest,
                t % step == 0,
                forall|i: int| 0 <= i < out@.len() ==> (#[trigger] out@[i]) < t,
            invariant
                step == self.interval,
                step > 0,
                self.wf(),
                forall|k: u64| #[trigger]
                    self.map().contains_key(k) <==> exists|i: int|
                        0 <= i < self.datapoints@.len() && (#[trigger] self.datapoints@[i]).0 == k,
                forall|x: u64| earliest <= x && #[trigger] on_grid(x, step) ==> t <= x || out@.contains(x)
                    || !is_missing(*self, earliest, latest, x),
                forall|x: u64| #[trigger] out@.contains(x) ==> is_missing(*self, earliest, latest, x),
                forall|i: int, j: int| 0 <= i < j < out@.len() ==> (#[trigger] out@[i]) < (#[trigger] out@[j]),
            ensures
                forall|x: u64| #[trigger] out@.contains(x) <==> is_missing(*self, earliest, latest, x),
                forall|i: int, j: int| 0 <= i < j < out@.len() ==> (#[trigger] out@[i]) < (#[trigger] out@[j]),
            decreases latest - t,
        {
            let ghost before = out@;
            if self.find(t).is_none() {
                proof {
                    assert(!self.map().contains_key(t));
                }
                out.push(t);
                proof {
                    assert forall|x: u64| #[trigger] out@.contains(x) implies is_missing(*self, earliest, latest, x) by {
                        if x != t {
                            let k = choose|k: int| 0 <= k < out@.len() && out@[k] == x;
                            assert(before.contains(x)) by {
                                assert(before[k] == x);
                            }
                        }
                    }
                }
            } else {
                proof {
                    let i = choose|i: int| 0 <= i < self.datapoints@.len() && self.datapoints@[i].0 == t;
                    assert(self.map().contains_key(t));
                }
            }
            proof {
                assert forall|x: u64| earliest <= x && #[trigger] on_grid(x, step) && x <= t implies out@.contains(x)
                    || !is_missing(*self, earliest, latest, x) by {
                    if x == t {
                        if is_missing(*self, earliest, latest, x) {
                            assert(out@[out@.len() - 1] == t);
                        }
                    } else if before.contains(x) {
                        let k = choose|k: int| 0 <= k < before.len() && before[k] == x;
                        assert(out@[k] == x);
                    }
                }
            }
            if latest - t < step {
                proof {
                    assert forall|x: u64| is_missing(*self, earliest, latest, x) implies #[trigger] out@.contains(x) by {
                        if x > t {
                            lemma_grid_gap(t, x, step);
                        }
                    }
                }
                break;
            }
            let next = t + step;
            proof {
                assert(next % step == 0) by (nonlinear_arith)
                    requires
                        next == t + step,
                        t % step == 0,
                        step > 0,
                ;
                assert forall|x: u64| earliest <= x && #[trigger] on_grid(x, step) && t < x implies next <= x by {
                    if x < next {
                        lemma_grid_gap(t, x, step);
                    }
                }
            }
            t = next;
        }
        if out.len() == 0 {
            proof {
                assert forall|x: u64| !#[trigger] is_missing(*self, earliest, latest, x) by {
                    if is_missing(*self, earliest, latest, x) {
                        assert(out@.contains(x));
                    }
                }
            }
            None
        } else {
            Some(out)
        }
    }
}

} // verus!
