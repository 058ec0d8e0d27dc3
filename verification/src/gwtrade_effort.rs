//! The streak and zone bookkeeping of the effort indicator: runs of
//! consecutive candles whose delta agrees with their direction become price
//! zones once the run ends.
//!
//! Whether a candle qualifies, and in which direction, is decided by the
//! caller from the candle's delta and the indicator's thresholds; this
//! module keeps the streaks and zones that follow from those decisions.

use vstd::prelude::*;
use crate::units::{Kline, Price, Volume};

verus! {

/// A finished streak: the time span it covered, its direction, its price
/// range and how many candles it counted when it ended.
#[derive(Clone, Copy, Debug, PartialEq, Eq, Structural)]
pub struct EffortZone {
    pub start_time: u64,
    pub end_time: u64,
    pub is_bullish: bool,
    pub high: Price,
    pub low: Price,
    pub streak_length: usize,
}

/// The streak state of the effort indicator.
#[derive(Clone, Debug)]
pub struct GWTradeEffortIndicator {
    pub zones: Vec<EffortZone>,
    /// Candles a streak needs before it counts.
    pub minimum_bars: usize,
    /// How many cells a zone extends to the right when drawn.
    pub zone_max_extensions: usize,
    pub streak_count: usize,
    pub last_direction_bull: bool,
    pub streak_high: Price,
    pub streak_low: Price,
    pub streak_start_time: u64,
    pub streak_active: bool,
    /// The zone still developing: shown while its streak lasts.
    pub dev_active: bool,
    pub dev_bull: bool,
    pub dev_high: Price,
    pub dev_low: Price,
    pub dev_start_time: u64,
    pub latest_kline_time: u64,
}

/// The abstract state: everything, with the zones as a sequence.
#[verifier::ext_equal]
pub struct EffortView {
    pub zones: Seq<EffortZone>,
    pub minimum_bars: usize,
    pub zone_max_extensions: usize,
    pub streak_count: usize,
    pub last_direction_bull: bool,
    pub streak_high: Price,
    pub streak_low: Price,
    pub streak_start_time: u64,
    pub streak_active: bool,
    pub dev_active: bool,
    pub dev_bull: bool,
    pub dev_high: Price,
    pub dev_low: Price,
    pub dev_start_time: u64,
    pub latest_kline_time: u64,
}

impl View for GWTradeEffortIndicator {
    type V = EffortView;

    open spec fn view(&self) -> EffortView {
        EffortView {
            zones: self.zones@,
            minimum_bars: self.minimum_bars,
            zone_max_extensions: self.zone_max_extensions,
            streak_count: self.streak_count,
            last_direction_bull: self.last_direction_bull,
            streak_high: self.streak_high,
            streak_low: self.streak_low,
            streak_start_time: self.streak_start_time,
            streak_active: self.streak_active,
            dev_active: self.dev_active,
            dev_bull: self.dev_bull,
            dev_high: self.dev_high,
            dev_low: self.dev_low,
            dev_start_time: self.dev_start_time,
            latest_kline_time: self.latest_kline_time,
        }
    }
}

/// The higher of two prices.
pub open spec fn max_price(a: Price, b: Price) -> Price {
    if a.units >= b.units {
        a
    } else {
        b
    }
}

/// The lower of two prices.
pub open spec fn min_price(a: Price, b: Price) -> Price {
    if a.units <= b.units {
        a
    } else {
        b
    }
}

/// What one candle does to the streak state. `qualifies` tells whether the
/// candle's delta agrees with its direction and passes the thresholds;
/// `is_bullish` whether its delta is non-negative.
pub open spec fn spec_process(v: EffortView, k: Kline, qualifies: bool, is_bullish: bool) -> EffortView {
    let v0 = EffortView { latest_kline_time: k.time, ..v };
    if k.volume.total_units() == 0 {
        v0
    } else {
        let reset = qualifies && is_bullish != v.last_direction_bull;
        let base = if reset {
            0
        } else {
            v.streak_count as int
        };
        let count: int = if qualifies {
            base + 1
        } else {
            0
        };
        let dir = if qualifies {
            is_bullish
        } else {
            v.last_direction_bull
        };
        let start = if qualifies && base == 0 {
            k.time
        } else {
            v.streak_start_time
        };
        if count >= v.minimum_bars {
            let high = if v.streak_active {
                max_price(v.streak_high, k.high)
            } else {
                k.high
            };
            let low = if v.streak_active {
                min_price(v.streak_low, k.low)
            } else {
                k.low
            };
            EffortView {
                streak_count: count as usize,
                last_direction_bull: dir,
                streak_start_time: start,
                streak_active: true,
                streak_high: high,
                streak_low: low,
                dev_active: true,
                dev_bull: dir,
                dev_high: high,
                dev_low: low,
                dev_start_time: start,
                ..v0
            }
        } else if v.streak_active {
            EffortView {
                zones: v.zones.push(
                    EffortZone {
                        start_time: start,
                        end_time: k.time,
                        is_bullish: dir,
                        high: v.streak_high,
                        low: v.streak_low,
                        streak_length: count as usize,
                    },
                ),
                streak_count: count as usize,
                last_direction_bull: dir,
                streak_start_time: start,
                streak_active: false,
                dev_active: false,
                ..v0
            }
        } else {
            EffortView {
                streak_count: count as usize,
                last_direction_bull: dir,
                streak_start_time: start,
                dev_active: false,
                ..v0
            }
        }
    }
}

/// A candle's delta: buy minus sell volume, zero when the volume has no
/// sides.
pub open spec fn kline_delta(k: Kline) -> int {
    match k.volume {
        Volume::BuySell(b, s) => b.units - s.units,
        Volume::TotalOnly(_) => 0,
    }
}

/// Whether a candle's delta points the way the candle moved (a
/// non-negative delta with a close at or above the open, a negative one
/// with a close below it), and whether the delta is non-negative, which
/// makes a streak bullish.
pub fn delta_direction(kline: &Kline) -> (r: (bool, bool))
    requires
        kline.wf(),
    ensures
        r.1 == (kline_delta(*kline) >= 0),
        r.0 == (if kline_delta(*kline) >= 0 {
            kline.close.units >= kline.open.units
        } else {
            kline.close.units < kline.open.units
        }),
{
    let non_negative = match kline.volume {
        Volume::BuySell(b, s) => b.units >= s.units,
        Volume::TotalOnly(_) => true,
    };
    let matches = if non_negative {
        kline.close.units >= kline.open.units
    } else {
        kline.close.units < kline.open.units
    };
    (matches, non_negative)
}

impl GWTradeEffortIndicator {
    /// No zones, no streak; streaks count from two candles; zones extend
    /// ten cells.
    pub fn new() -> (t: GWTradeEffortIndicator)
        ensures
            t@.zones.len() == 0,
            t@.minimum_bars == 2,
            t@.zone_max_extensions == 10,
            t@.streak_count == 0,
            !t@.last_direction_bull,
            t@.streak_high.units == 0,
            t@.streak_low.units == i64::MAX,
            t@.streak_start_time == 0,
            !t@.streak_active,
            !t@.dev_active,
            !t@.dev_bull,
            t@.dev_high.units == 0,
            t@.dev_low.units == 0,
            t@.dev_start_time == 0,
            t@.latest_kline_time == 0,
    {
        GWTradeEffortIndicator {
            zones: Vec::new(),
            minimum_bars: 2,
            zone_max_extensions: 10,
            streak_count: 0,
            last_direction_bull: false,
            streak_high: Price { units: 0 },
            streak_low: Price { units: i64::MAX },
            streak_start_time: 0,
            streak_active: false,
            dev_active: false,
            dev_bull: false,
            dev_high: Price { units: 0 },
            dev_low: Price { units: 0 },
            dev_start_time: 0,
            latest_kline_time: 0,
        }
    }

    /// Feeds one candle. Candles without volume only move the latest time.
    pub fn process_kline(&mut self, kline: &Kline, qualifies: bool, is_bullish: bool)
        requires
            kline.wf(),
            old(self).streak_count < usize::MAX,
        ensures
            final(self)@ == spec_process(old(self)@, *kline, qualifies, is_bullish),
            effort_inv(old(self)@) && kline.low.units <= kline.high.units ==> effort_inv(final(self)@),
    {
        proof {
            if effort_inv(self@) && kline.low.units <= kline.high.units {
                lemma_process_keeps_invariant(self@, *kline, qualifies, is_bullish);
            }
        }
        self.latest_kline_time = kline.time;
        let volume = kline.volume.total();
        if volume.units == 0 {
            return ;
        }
        let high = kline.high;
        let low = kline.low;
        if qualifies {
            if is_bullish != self.last_direction_bull {
                self.streak_count = 0;
            }
            self.last_direction_bull = is_bullish;
            if self.streak_count == 0 {
                self.streak_start_time = kline.time;
            }
            self.streak_count = self.streak_count + 1;
        } else {
            self.streak_count = 0;
        }
        if self.streak_count >= self.minimum_bars {
            if !self.streak_active {
                self.streak_active = true;
                self.streak_high = high;
                self.streak_low = low;
            } else {
                if high.units > self.streak_high.units {
                    self.streak_high = high;
                }
                if low.units < self.streak_low.units {
                    self.streak_low = low;
                }
            }
            self.dev_active = true;
            self.dev_bull = self.last_direction_bull;
            self.dev_high = self.streak_high;
            self.dev_low = self.streak_low;
            self.dev_start_time = self.streak_start_time;
        } else if self.streak_active {
            self.streak_active = false;
            self.dev_active = false;
            self.zones.push(
                EffortZone {
                    start_time: self.streak_start_time,
                    end_time: kline.time,
                    is_bullish: self.last_direction_bull,
                    high: self.streak_high,
                    low: self.streak_low,
                    streak_length: self.streak_count,
                },
            );
        } else {
            self.dev_active = false;
        }
    }

    /// Forgets every zone and streak, and the developing zone's start and
    /// the latest candle time.
    pub fn clear_all_caches(&mut self)
        ensures
            final(self)@ == (EffortView {
                zones: Seq::empty(),
                dev_start_time: 0,
                latest_kline_time: 0,
                streak_count: 0,
                streak_active: false,
                dev_active: false,
                ..old(self)@
            }),
    {
        self.zones.clear();
        self.dev_start_time = 0;
        self.latest_kline_time = 0;
        self.streak_count = 0;
        self.streak_active = false;
        self.dev_active = false;
    }

    /// Forgets every zone and streak before candles are fed again from the
    /// start of a series.
    pub fn reset_streaks(&mut self)
        ensures
            final(self)@ == (EffortView {
                zones: Seq::empty(),
                streak_count: 0,
                streak_active: false,
                dev_active: false,
                ..old(self)@
            }),
    {
        self.zones.clear();
        self.streak_count = 0;
        self.streak_active = false;
        self.dev_active = false;
    }

    /// Drawn over the candles, not in a panel of its own.
    pub fn is_overlay(&self) -> (r: bool)
        ensures
            r,
    {
        true
    }
}

/// The zone shown while a streak lasts is shown exactly when a streak is
/// active and spans exactly the streak's range, and an active streak's low
/// is not above its high, when every candle's low is not above its high.
pub open spec fn effort_inv(v: EffortView) -> bool {
    &&& v.dev_active == v.streak_active
    &&& v.dev_active ==> v.dev_high == v.streak_high && v.dev_low == v.streak_low
    &&& v.streak_active ==> v.streak_low.units <= v.streak_high.units
    &&& forall|i: int| 0 <= i < v.zones.len() ==> (#[trigger] v.zones[i]).low.units <= v.zones[i].high.units
}

/// Feeding a candle whose low is not above its high keeps the invariant;
/// zones are only ever appended, one at most per candle, and one is
/// appended exactly when an active streak ends. A streak that is active
/// after a traded candle spans that candle and the range it had before.
pub proof fn lemma_process_keeps_invariant(v: EffortView, k: Kline, qualifies: bool, is_bullish: bool)
    requires
        effort_inv(v),
        k.low.units <= k.high.units,
    ensures
        effort_inv(spec_process(v, k, qualifies, is_bullish)),
        spec_process(v, k, qualifies, is_bullish).zones.len() <= v.zones.len() + 1,
        spec_process(v, k, qualifies, is_bullish).zones.subrange(0, v.zones.len() as int) == v.zones,
        spec_process(v, k, qualifies, is_bullish).zones.len() == v.zones.len() + 1 <==> (v.streak_active
            && !spec_process(v, k, qualifies, is_bullish).streak_active),
        k.volume.total_units() != 0 && spec_process(v, k, qualifies, is_bullish).streak_active ==> {
            let w = spec_process(v, k, qualifies, is_bullish);
            &&& w.streak_low.units <= k.low.units
            &&& k.high.units <= w.streak_high.units
            &&& v.streak_active ==> w.streak_low.units <= v.streak_low.units && v.streak_high.units
                <= w.streak_high.units
        },
        spec_process(v, k, qualifies, is_bullish).zones.len() == v.zones.len() + 1 ==> {
            let z = spec_process(v, k, qualifies, is_bullish).zones.last();
            &&& z.high == v.streak_high
            &&& z.low == v.streak_low
            &&& z.end_time == k.time
        },
{
    let w = spec_process(v, k, qualifies, is_bullish);
    assert(w.zones.subrange(0, v.zones.len() as int) =~= v.zones);
    assert forall|i: int| 0 <= i < w.zones.len() implies (#[trigger] w.zones[i]).low.units
        <= w.zones[i].high.units by {
        if i < v.zones.len() {
            assert(w.zones[i] == v.zones[i]);
        }
    }
}

/// A new tracker, and one whose state was cleared, satisfy the invariant.
pub proof fn lemma_fresh_state_satisfies_invariant(v: EffortView)
    requires
        v.zones.len() == 0,
        !v.streak_active,
        !v.dev_active,
    ensures
        effort_inv(v),
{
}

} // verus!
