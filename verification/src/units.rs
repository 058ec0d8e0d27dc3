//! Fixed-point market units: prices, price steps, quantities, volumes,
//! candles (klines) and trades.
//!
//! Every amount is an integer count of the smallest unit of its kind, so
//! comparisons and sums are exact.

use vstd::prelude::*;

verus! {

/// A price, counted in the smallest price unit.
#[derive(Clone, Copy, Debug, PartialEq, Eq, Structural, Hash)]
pub struct Price {
    pub units: i64,
}

impl Price {
    /// The price made of `units` smallest price units.
    pub fn from_units(units: i64) -> (p: Price)
        ensures
            p.units == units,
    {
        Price { units }
    }
}

/// The distance between two neighbouring price levels (a tick).
#[derive(Clone, Copy, Debug, PartialEq, Eq, Structural, Hash)]
pub struct PriceStep {
    pub units: i64,
}

/// A traded quantity, counted in the smallest quantity unit.
#[derive(Clone, Copy, Debug, PartialEq, Eq, Structural, Hash)]
pub struct Qty {
    pub units: i64,
}

impl Qty {
    /// The zero quantity.
    pub fn zero() -> (q: Qty)
        ensures
            q.units == 0,
    {
        Qty { units: 0 }
    }
}

/// The volume of a candle: split into buy and sell volume where the
/// venue reports it, or a total only.
#[derive(Clone, Copy, Debug, PartialEq, Eq, Structural)]
pub enum Volume {
    BuySell(Qty, Qty),
    TotalOnly(Qty),
}

impl Volume {
    /// Quantities are non-negative and their sum fits a quantity.
    pub open spec fn wf(self) -> bool {
        match self {
            Volume::BuySell(b, s) => 0 <= b.units && 0 <= s.units && b.units + s.units <= i64::MAX,
            Volume::TotalOnly(t) => 0 <= t.units,
        }
    }

    /// Total volume in quantity units.
    pub open spec fn total_units(self) -> int {
        match self {
            Volume::BuySell(b, s) => b.units + s.units,
            Volume::TotalOnly(t) => t.units as int,
        }
    }

    /// The buy and sell parts, where the volume is split.
    pub fn buy_sell(&self) -> (r: Option<(Qty, Qty)>)
        ensures
            r == (match *self {
                Volume::BuySell(b, s) => Some((b, s)),
                Volume::TotalOnly(_) => None::<(Qty, Qty)>,
            }),
    {
        match self {
            Volume::BuySell(b, s) => Some((*b, *s)),
            Volume::TotalOnly(_) => None,
        }
    }

    /// The total volume.
    pub fn total(&self) -> (r: Qty)
        requires
            self.wf(),
        ensures
            r.units == self.total_units(),
    {
        match self {
            Volume::BuySell(b, s) => Qty { units: b.units + s.units },
            Volume::TotalOnly(t) => *t,
        }
    }
}

/// One candle: its open time in milliseconds since the Unix epoch, its
/// four prices and its volume.
#[derive(Clone, Copy, Debug, PartialEq, Eq, Structural)]
pub struct Kline {
    pub time: u64,
    pub open: Price,
    pub high: Price,
    pub low: Price,
    pub close: Price,
    pub volume: Volume,
}

impl Kline {
    /// The candle's volume is well formed.
    pub open spec fn wf(self) -> bool {
        self.volume.wf()
    }
}

/// One trade: its time in milliseconds since the Unix epoch, price,
/// quantity and side.
#[derive(Clone, Copy, Debug, PartialEq, Eq, Structural)]
pub struct Trade {
    pub time: u64,
    pub price: Price,
    pub qty: Qty,
    pub is_sell: bool,
}

/// `time` rounded down to a multiple of `step`.
pub open spec fn spec_floor_to(time: u64, step: u64) -> u64 {
    (time - time % step) as u64
}

/// Rounds a timestamp down to the start of its bucket of width `step`.
pub fn floor_to(time: u64, step: u64) -> (r: u64)
    requires
        step > 0,
    ensures
        r == spec_floor_to(time, step),
        r <= time,
        r % step == 0,
        time - r < step,
{
    assert(time % step <= time) by (nonlinear_arith)
        requires
            step > 0,
    ;
    let r = time - time % step;
    assert(r % step == 0) by (nonlinear_arith)
        requires
            r == time - time % step,
            step > 0,
    ;
    r
}

} // verus!
