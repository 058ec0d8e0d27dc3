//! The decisions of the candle chart that do not depend on pixels: snapping
//! a price to the tick grid, selecting a drawing, editing the footprint
//! studies, and listing the chart's keys.

use vstd::prelude::*;
use crate::units::{Kline, Price, PriceStep, Qty};
use uuid::Uuid;
use crate::drawing::{
    ChartDrawings, ChartPoint, Drawing, DrawingEvent, DrawingType, any_selected, spec_handle_event,
    unselected,
};
use crate::footprint::{GroupedTrades, KlineDataPoint, KlineTrades, PlotData, keys_increasing, levels_wf};

verus! {

/// `price` rounded down to a multiple of `step`.
pub open spec fn spec_snap(price: int, step: int) -> int {
    (price / step) * step
}

/// Rounds a price down onto the tick grid of `step` (towards lower prices,
/// also below zero).
pub fn snap_to_step(price: Price, step: PriceStep) -> (r: Price)
    requires
        step.units > 0,
        spec_snap(price.units as int, step.units as int) >= i64::MIN,
    ensures
        r.units == spec_snap(price.units as int, step.units as int),
        r.units <= price.units,
        price.units - r.units < step.units,
        r.units % step.units == 0,
{
    let p = price.units as i128;
    let s = step.units as i128;
    let q: i128 = if p >= 0 {
        p / s
    } else {
        -((-(p + 1)) / s) - 1
    };
    proof {
        let pi = p as int;
        let si = s as int;
        assert(q == pi / si) by (nonlinear_arith)
            requires
                si > 0,
                pi >= 0 ==> q == pi / si,
                pi < 0 ==> q == -((-(pi + 1)) / si) - 1,
        {
            if pi < 0 {
                let a = -(pi + 1);
                let b = a / si;
                let r = a % si;
                assert(a == b * si + r && 0 <= r < si);
                assert(pi == (-b - 1) * si + (si - 1 - r));
                vstd::arithmetic::div_mod::lemma_fundamental_div_mod_converse(pi, si, -b - 1, si - 1 - r);
            }
        }
        assert(pi - q * si >= 0 && pi - q * si < si) by (nonlinear_arith)
            requires
                si > 0,
                q == pi / si,
        {
            vstd::arithmetic::div_mod::lemma_fundamental_div_mod(pi, si);
        }
        assert((q * si) % si == 0) by (nonlinear_arith)
            requires
                si > 0,
        {
            vstd::arithmetic::div_mod::lemma_mod_multiples_basic(q as int, si);
        }
        assert(i64::MIN <= q * si <= i64::MAX);
    }
    let m: i128 = q * s;
    Price { units: m as i64 }
}

/// The chart's tick size when it has a positive one, else the ticker's
/// smallest tick.
pub fn effective_step(tick_size: PriceStep, min_ticksize: PriceStep) -> (r: PriceStep)
    ensures
        r == (if tick_size.units > 0 {
            tick_size
        } else {
            min_ticksize
        }),
{
    if tick_size.units > 0 {
        tick_size
    } else {
        min_ticksize
    }
}

impl ChartDrawings {
    /// Selects exactly the drawing at `hit` and deselects the others (all of
    /// them for `None`); tells whether any selection changed.
    pub fn select_hit(&mut self, hit: Option<usize>) -> (changed: bool)
        ensures
            final(self)@.current_cursor == old(self)@.current_cursor,
            final(self)@.drawings.len() == old(self)@.drawings.len(),
            forall|i: int|
                0 <= i < old(self)@.drawings.len() ==> #[trigger] final(self)@.drawings[i] == (Drawing {
                    selected: hit == Some(i as usize),
                    ..old(self)@.drawings[i]
                }),
            changed == exists|i: int|
                0 <= i < old(self)@.drawings.len() && (#[trigger] old(self)@.drawings[i]).selected
                    != (hit == Some(i as usize)),
    {
        let ghost old_s = self.drawings@;
        let mut changed = false;
        let n = self.drawings.len();
        let mut i: usize = 0;
        while i < n
            invariant
                n == old_s.len(),
                self.drawings@.len() == n,
                self.current_cursor == old(self).current_cursor,
                old_s == old(self)@.drawings,
                i <= n,
                forall|j: int|
                    0 <= j < i ==> #[trigger] self.drawings@[j] == (Drawing {
                        selected: hit == Some(j as usize),
                        ..old_s[j]
                    }),
                forall|j: int| i <= j < n ==> #[trigger] self.drawings@[j] == old_s[j],
                changed == exists|j: int|
                    0 <= j < i && (#[trigger] old_s[j]).selected != (hit == Some(j as usize)),
            decreases n - i,
        {
            let should_be_selected = match hit {
                Some(h) => h == i,
                None => false,
            };
            if self.drawings[i].selected != should_be_selected {
                let mut d = self.drawings[i];
                d.selected = should_be_selected;
                self.drawings.set(i, d);
                changed = true;
            }
            proof {
                assert(self.drawings@[i as int] == (Drawing {
                    selected: hit == Some(i as usize),
                    ..old_s[i as int]
                }));
            }
            i = i + 1;
        }
        changed
    }
}

/// A footprint study and its parameters.
#[derive(Clone, Copy, Debug, PartialEq, Eq, Structural)]
pub enum FootprintStudy {
    /// Naked points of control over the last `lookback` candles.
    NPoC { lookback: usize },
    /// Diagonal bid/ask imbalance markers.
    Imbalance { threshold: usize, color_scale: Option<usize>, ignore_zeros: bool },
    /// Runs of `consecutive` stacked imbalances.
    StackedImbalance { consecutive: usize, threshold: usize },
}

/// Two studies are of the same kind, whatever their parameters.
pub open spec fn spec_same_type(a: FootprintStudy, b: FootprintStudy) -> bool {
    match (a, b) {
        (FootprintStudy::NPoC { .. }, FootprintStudy::NPoC { .. }) => true,
        (FootprintStudy::Imbalance { .. }, FootprintStudy::Imbalance { .. }) => true,
        (FootprintStudy::StackedImbalance { .. }, FootprintStudy::StackedImbalance { .. }) => true,
        _ => false,
    }
}

impl FootprintStudy {
    /// Whether two studies are of the same kind.
    pub fn is_same_type(&self, other: &FootprintStudy) -> (r: bool)
        ensures
            r == spec_same_type(*self, *other),
    {
        match (self, other) {
            (FootprintStudy::NPoC { .. }, FootprintStudy::NPoC { .. }) => true,
            (FootprintStudy::Imbalance { .. }, FootprintStudy::Imbalance { .. }) => true,
            (
                FootprintStudy::StackedImbalance { .. },
                FootprintStudy::StackedImbalance { .. },
            ) => true,
            _ => false,
        }
    }
}

/// What the study configurator asks for.
#[derive(Clone, Copy, Debug, PartialEq, Eq, Structural)]
pub enum StudyAction {
    /// Turn a study on (`true`) or off (`false`).
    ToggleStudy(FootprintStudy, bool),
    /// Replace the parameters of an enabled study.
    ConfigureStudy(FootprintStudy),
}

/// Some study in `s` is of the kind of `study`.
pub open spec fn has_type(s: Seq<FootprintStudy>, study: FootprintStudy) -> bool {
    exists|i: int| 0 <= i < s.len() && spec_same_type(#[trigger] s[i], study)
}

/// The studies of `s` of another kind than `study`, in order.
pub open spec fn without_type(s: Seq<FootprintStudy>, study: FootprintStudy) -> Seq<FootprintStudy>
    decreases s.len(),
{
    if s.len() == 0 {
        Seq::empty()
    } else if spec_same_type(s.last(), study) {
        without_type(s.drop_last(), study)
    } else {
        without_type(s.drop_last(), study).push(s.last())
    }
}

/// The index of the first study of the kind of `study`.
pub open spec fn first_of_type(s: Seq<FootprintStudy>, study: FootprintStudy) -> int
    decreases s.len(),
{
    if s.len() == 0 {
        -1
    } else if spec_same_type(s[0], study) {
        0
    } else {
        let r = first_of_type(s.drop_first(), study);
        if r < 0 {
            -1
        } else {
            r + 1
        }
    }
}

/// What a configurator action does to the enabled studies.
pub open spec fn spec_apply_study_action(s: Seq<FootprintStudy>, action: StudyAction) -> Seq<
    FootprintStudy,
> {
    match action {
        StudyAction::ToggleStudy(study, true) => if has_type(s, study) {
            s
        } else {
            s.push(study)
        },
        StudyAction::ToggleStudy(study, false) => without_type(s, study),
        StudyAction::ConfigureStudy(study) => {
            let i = first_of_type(s, study);
            if i < 0 {
                s
            } else {
                s.update(i, study)
            }
        },
    }
}

/// No two enabled studies are of the same kind.
pub open spec fn one_per_type(s: Seq<FootprintStudy>) -> bool {
    forall|i: int, j: int|
        0 <= i < j < s.len() ==> !spec_same_type(#[trigger] s[i], #[trigger] s[j])
}

/// `first_of_type` finds the first study of the kind, or reports none.
proof fn lemma_first_of_type(s: Seq<FootprintStudy>, study: FootprintStudy)
    ensures
        first_of_type(s, study) < 0 <==> !has_type(s, study),
        first_of_type(s, study) >= 0 ==> first_of_type(s, study) < s.len() && spec_same_type(
            s[first_of_type(s, study)],
            study,
        ),
        first_of_type(s, study) >= 0 ==> forall|j: int|
            0 <= j < first_of_type(s, study) ==> !spec_same_type(#[trigger] s[j], study),
    decreases s.len(),
{
    if s.len() > 0 && !spec_same_type(s[0], study) {
        let t = s.drop_first();
        lemma_first_of_type(t, study);
        if has_type(s, study) {
            let i = choose|i: int| 0 <= i < s.len() && spec_same_type(#[trigger] s[i], study);
            assert(t[i - 1] == s[i]);
        }
        if has_type(t, study) {
            let i = choose|i: int| 0 <= i < t.len() && spec_same_type(#[trigger] t[i], study);
            assert(s[i + 1] == t[i]);
        }
        let r = first_of_type(t, study);
        if r >= 0 {
            assert forall|j: int| 0 <= j < r + 1 implies !spec_same_type(#[trigger] s[j], study) by {
                if j > 0 {
                    assert(s[j] == t[j - 1]);
                }
            }
        }
    }
}

/// Applies a study configurator action to the enabled studies: turning a
/// study on adds it unless one of its kind is already on, turning it off
/// removes every study of its kind, configuring replaces the first study of
/// its kind.
pub fn apply_study_action(studies: &mut Vec<FootprintStudy>, action: StudyAction)
    ensures
        final(studies)@ == spec_apply_study_action(old(studies)@, action),
{
    match action {
        StudyAction::ToggleStudy(study, is_selected) => {
            if is_selected {
                let mut already_exists = false;
                let mut i: usize = 0;
                while i < studies.len()
                    invariant
                        studies@ == old(studies)@,
                        i <= studies@.len(),
                        already_exists == exists|j: int|
                            0 <= j < i && spec_same_type(#[trigger] studies@[j], study),
                    decreases studies@.len() - i,
                {
                    if studies[i].is_same_type(&study) {
                        already_exists = true;
                    }
                    i = i + 1;
                }
                if !already_exists {
                    studies.push(study);
                }
            } else {
                let ghost s = studies@;
                let mut kept: Vec<FootprintStudy> = Vec::new();
                let mut i: usize = 0;
                while i < studies.len()
                    invariant
                        studies@ == s,
                        i <= s.len(),
                        kept@ == without_type(s.take(i as int), study),
                    decreases s.len() - i,
                {
                    assert(s.take(i + 1).drop_last() == s.take(i as int));
                    if !studies[i].is_same_type(&study) {
                        kept.push(studies[i]);
                    }
                    i = i + 1;
                }
                assert(s.take(s.len() as int) == s);
                *studies = kept;
            }
        },
        StudyAction::ConfigureStudy(study) => {
            proof {
                lemma_first_of_type(studies@, study);
            }
            let mut i: usize = 0;
            while i < studies.len()
                invariant
                    action == StudyAction::ConfigureStudy(study),
                    studies@ == old(studies)@,
                    i <= studies@.len(),
                    forall|j: int| 0 <= j < i ==> !spec_same_type(#[trigger] studies@[j], study),
                    first_of_type(studies@, study) < 0 <==> !has_type(studies@, study),
                    first_of_type(studies@, study) >= 0 ==> first_of_type(studies@, study)
                        < studies@.len() && spec_same_type(
                        studies@[first_of_type(studies@, study)],
                        study,
                    ),
                    first_of_type(studies@, study) >= 0 ==> forall|j: int|
                        0 <= j < first_of_type(studies@, study) ==> !spec_same_type(
                            #[trigger] studies@[j],
                            study,
                        ),
                decreases studies@.len() - i,
            {
                if studies[i].is_same_type(&study) {
                    proof {
                        let f = first_of_type(studies@, study);
                        assert(f >= 0);
                        assert(f == i);
                        assert(spec_apply_study_action(old(studies)@, action) == old(studies)@.update(
                            i as int,
                            study,
                        ));
                    }
                    studies.set(i, study);
                    return ;
                }
                i = i + 1;
            }
        },
    }
}

/// The bar open times of a tick-based chart, oldest first; none for a
/// time-based chart.
pub fn interval_keys(data_source: &PlotData) -> (r: Option<Vec<u64>>)
    ensures
        match data_source {
            PlotData::TimeBased(_) => r is None,
            PlotData::TickBased(ta) => r is Some && r->Some_0@.len() == ta.datapoints@.len()
                && forall|i: int|
                0 <= i < ta.datapoints@.len() ==> #[trigger] r->Some_0@[i]
                    == ta.datapoints@[i].kline.time,
        },
{
    match data_source {
        PlotData::TimeBased(_) => None,
        PlotData::TickBased(ta) => {
            let mut keys: Vec<u64> = Vec::new();
            let mut i: usize = 0;
            while i < ta.datapoints.len()
                invariant
                    i <= ta.datapoints@.len(),
                    keys@.len() == i,
                    forall|j: int| 0 <= j < i ==> #[trigger] keys@[j] == ta.datapoints@[j].kline.time,
                decreases ta.datapoints@.len() - i,
            {
                keys.push(ta.datapoints[i].kline.time);
                i = i + 1;
            }
            Some(keys)
        },
    }
}

/// Whether the chart holds no candle.
pub fn is_empty(data_source: &PlotData) -> (r: bool)
    ensures
        r == (data_source.len() == 0),
{
    match data_source {
        PlotData::TimeBased(ts) => ts.datapoints.len() == 0,
        PlotData::TickBased(ta) => ta.datapoints.len() == 0,
    }
}

/// Turning a study on or off, or configuring one, keeps at most one study
/// of each kind enabled.
pub proof fn lemma_one_study_per_type(s: Seq<FootprintStudy>, action: StudyAction)
    requires
        one_per_type(s),
    ensures
        one_per_type(spec_apply_study_action(s, action)),
        action matches StudyAction::ToggleStudy(study, true) ==> has_type(
            spec_apply_study_action(s, action),
            study,
        ),
        action matches StudyAction::ToggleStudy(study, false) ==> !has_type(
            spec_apply_study_action(s, action),
            study,
        ),
{
    match action {
        StudyAction::ToggleStudy(study, true) => {
            if !has_type(s, study) {
                let r = s.push(study);
                assert(spec_same_type(r[s.len() as int], study));
                assert forall|i: int, j: int| 0 <= i < j < r.len() implies !spec_same_type(
                    #[trigger] r[i],
                    #[trigger] r[j],
                ) by {
                    if j == s.len() {
                        assert(r[i] == s[i]);
                        if spec_same_type(s[i], study) {
                            assert(has_type(s, study));
                        }
                    } else {
                        assert(r[i] == s[i] && r[j] == s[j]);
                    }
                }
            }
        },
        StudyAction::ToggleStudy(study, false) => {
            lemma_without_type(s, study);
        },
        StudyAction::ConfigureStudy(study) => {
            lemma_first_of_type(s, study);
            let f = first_of_type(s, study);
            if f >= 0 {
                let r = s.update(f, study);
                assert forall|i: int, j: int| 0 <= i < j < r.len() implies !spec_same_type(
                    #[trigger] r[i],
                    #[trigger] r[j],
                ) by {
                    if i == f {
                        assert(spec_same_type(s[f], s[j]) == spec_same_type(study, s[j]));
                    } else if j == f {
                        assert(spec_same_type(s[i], s[f]) == spec_same_type(s[i], study));
                    }
                }
            }
        },
    }
}

/// Removing a kind keeps one study per kind, and leaves none of that kind.
proof fn lemma_without_type(s: Seq<FootprintStudy>, study: FootprintStudy)
    requires
        one_per_type(s),
    ensures
        one_per_type(without_type(s, study)),
        !has_type(without_type(s, study), study),
        forall|i: int|
            0 <= i < without_type(s, study).len() ==> exists|j: int|
                0 <= j < s.len() && #[trigger] without_type(s, study)[i] == s[j],
    decreases s.len(),
{
    if s.len() > 0 {
        let t = s.drop_last();
        assert(one_per_type(t)) by {
            assert forall|i: int, j: int| 0 <= i < j < t.len() implies !spec_same_type(
                #[trigger] t[i],
                #[trigger] t[j],
            ) by {
                assert(t[i] == s[i] && t[j] == s[j]);
            }
        }
        lemma_without_type(t, study);
        let w = without_type(t, study);
        assert forall|i: int| 0 <= i < w.len() implies exists|j: int|
            0 <= j < s.len() && #[trigger] w[i] == s[j] by {
            let j = choose|j: int| 0 <= j < t.len() && #[trigger] w[i] == t[j];
            assert(s[j] == t[j]);
        }
        if !spec_same_type(s.last(), study) {
            let r = w.push(s.last());
            assert forall|i: int| 0 <= i < r.len() implies exists|j: int|
                0 <= j < s.len() && #[trigger] r[i] == s[j] by {
                if i < w.len() {
                    assert(r[i] == w[i]);
                    let j = choose|j: int| 0 <= j < s.len() && #[trigger] w[i] == s[j];
                } else {
                    assert(r[i] == s[s.len() - 1]);
                }
            }
            assert forall|i: int, j: int| 0 <= i < j < r.len() implies !spec_same_type(
                #[trigger] r[i],
                #[trigger] r[j],
            ) by {
                if j == w.len() {
                    assert(r[i] == w[i]);
                    let k = choose|k: int| 0 <= k < t.len() && #[trigger] w[i] == t[k];
                    assert(s[k] == t[k]);
                    assert(!spec_same_type(s[k], s[s.len() - 1]));
                } else {
                    assert(r[i] == w[i] && r[j] == w[j]);
                }
            }
            if has_type(r, study) {
                let i = choose|i: int| 0 <= i < r.len() && spec_same_type(#[trigger] r[i], study);
                if i < w.len() {
                    assert(r[i] == w[i]);
                }
            }
        }
    }
}

/// Snapping is idempotent: a price already on the grid stays where it is,
/// and snapping twice is snapping once.
pub proof fn lemma_snap_idempotent(price: int, step: int)
    requires
        step > 0,
    ensures
        spec_snap(spec_snap(price, step), step) == spec_snap(price, step),
        price % step == 0 ==> spec_snap(price, step) == price,
{
    let q = price / step;
    assert(spec_snap(price, step) == q * step);
    assert((q * step) / step == q) by (nonlinear_arith)
        requires
            step > 0,
    {
        vstd::arithmetic::div_mod::lemma_div_multiples_vanish(q, step);
    }
    if price % step == 0 {
        vstd::arithmetic::div_mod::lemma_fundamental_div_mod(price, step);
        assert(q * step == price) by (nonlinear_arith)
            requires
                price == step * q + price % step,
                price % step == 0,
        ;
    }
}

/// Selecting the same hit twice changes nothing the second time.
pub proof fn lemma_select_hit_idempotent(s: Seq<Drawing>, hit: Option<usize>)
    ensures
        ({
            let t = Seq::new(s.len(), |i: int| Drawing { selected: hit == Some(i as usize), ..s[i] });
            !(exists|i: int|
                0 <= i < t.len() && (#[trigger] t[i]).selected != (hit == Some(i as usize)))
        }),
{
}

/// The candle stored at exactly time `a`.
pub open spec fn kline_at_time(s: Seq<(u64, KlineDataPoint)>, a: u64) -> Option<Kline>
    decreases s.len(),
{
    if s.len() == 0 {
        None
    } else if s.last().0 == a {
        Some(s.last().1.kline)
    } else {
        kline_at_time(s.drop_last(), a)
    }
}

/// The candle with the latest time in `lo..=hi`.
pub open spec fn last_in_range(s: Seq<(u64, KlineDataPoint)>, lo: u64, hi: u64) -> Option<Kline>
    decreases s.len(),
{
    if s.len() == 0 {
        None
    } else if lo <= s.last().0 <= hi {
        Some(s.last().1.kline)
    } else {
        last_in_range(s.drop_last(), lo, hi)
    }
}

/// The tick bar `x` intervals back from the newest, when there is one.
pub open spec fn tick_kline_at(s: Seq<KlineDataPoint>, tick_count: u64, x: u64) -> Option<Kline> {
    let index = x / tick_count;
    if index < s.len() {
        Some(s[s.len() - 1 - index].kline)
    } else {
        None
    }
}

/// Whether the cursor is past the newest candle: to the right of the visible
/// range on a time basis, to the left of it on a tick basis (whose index
/// counts back from the newest bar).
pub open spec fn right_of_latest(basis_is_time: bool, at: u64, earliest: u64, latest: u64) -> bool {
    if basis_is_time {
        at > latest
    } else {
        at < earliest
    }
}

/// The first candle that is found.
pub open spec fn or_else(a: Option<Kline>, b: Option<Kline>) -> Option<Kline> {
    if a is Some {
        a
    } else {
        b
    }
}

/// The candle the crosshair tooltip describes: with no cursor, the newest;
/// with the cursor at `at`, the candle there, or else the nearest visible
/// candle before it, or the newest visible one when the cursor is past the
/// newest candle, or (on a time series) the newest candle when the cursor
/// is after it.
pub open spec fn spec_tooltip_kline(
    data: PlotData,
    basis_is_time: bool,
    tick_count: u64,
    at: Option<u64>,
    earliest: u64,
    latest: u64,
) -> Option<Kline> {
    match data {
        PlotData::TimeBased(ts) => {
            let s = ts.datapoints@;
            match at {
                None => if s.len() > 0 {
                    Some(s.last().1.kline)
                } else {
                    None
                },
                Some(a) => {
                    let in_visible = earliest <= a && a <= latest;
                    let search_end = if a < latest {
                        a
                    } else {
                        latest
                    };
                    let step1 = kline_at_time(s, a);
                    let step2 = if in_visible {
                        last_in_range(s, earliest, search_end)
                    } else {
                        None
                    };
                    let step3 = if right_of_latest(basis_is_time, a, earliest, latest) {
                        last_in_range(s, earliest, latest)
                    } else {
                        None
                    };
                    let step4 = if s.len() > 0 && a > s.last().0 {
                        Some(s.last().1.kline)
                    } else {
                        None
                    };
                    or_else(step1, or_else(step2, or_else(step3, step4)))
                },
            }
        },
        PlotData::TickBased(ta) => {
            let s = ta.datapoints@;
            match at {
                None => if s.len() > 0 {
                    Some(s.last().kline)
                } else {
                    None
                },
                Some(a) => {
                    let in_visible = earliest <= a && a <= latest;
                    or_else(
                        tick_kline_at(s, tick_count, a),
                        if in_visible || right_of_latest(basis_is_time, a, earliest, latest) {
                            tick_kline_at(s, tick_count, earliest)
                        } else {
                            None
                        },
                    )
                },
            }
        },
    }
}

/// With increasing keys, the candle at a time is the one of the entry with
/// that key.
proof fn lemma_kline_at_time(s: Seq<(u64, KlineDataPoint)>, a: u64)
    requires
        keys_increasing(s),
    ensures
        forall|i: int| 0 <= i < s.len() && (#[trigger] s[i]).0 == a ==> kline_at_time(s, a) == Some(
            s[i].1.kline,
        ),
        (forall|i: int| 0 <= i < s.len() ==> (#[trigger] s[i]).0 != a) ==> kline_at_time(s, a)
            is None,
    decreases s.len(),
{
    if s.len() > 0 {
        let t = s.drop_last();
        assert(keys_increasing(t)) by {
            assert forall|i: int, j: int| 0 <= i < j < t.len() implies (#[trigger] t[i]).0 < (
            #[trigger] t[j]).0 by {
                assert(t[i] == s[i] && t[j] == s[j]);
            }
        }
        lemma_kline_at_time(t, a);
        assert forall|i: int| 0 <= i < s.len() && (#[trigger] s[i]).0 == a implies kline_at_time(
            s,
            a,
        ) == Some(s[i].1.kline) by {
            if i < s.len() - 1 {
                assert(t[i] == s[i]);
                assert(s[i].0 < s[s.len() - 1].0);
            }
        }
        if forall|i: int| 0 <= i < s.len() ==> (#[trigger] s[i]).0 != a {
            assert(s[s.len() - 1].0 != a);
            assert forall|i: int| 0 <= i < t.len() implies (#[trigger] t[i]).0 != a by {
                assert(t[i] == s[i]);
            }
        }
    }
}

/// The candle with the latest time in `lo..=hi`, searching from the newest.
fn find_last_in_range(s: &Vec<(u64, KlineDataPoint)>, lo: u64, hi: u64) -> (r: Option<Kline>)
    ensures
        r == last_in_range(s@, lo, hi),
{
    let mut i: usize = s.len();
    proof {
        assert(s@.take(i as int) == s@);
    }
    while i > 0
        invariant
            i <= s@.len(),
            last_in_range(s@, lo, hi) == last_in_range(s@.take(i as int), lo, hi),
        decreases i,
    {
        proof {
            assert(s@.take(i as int).drop_last() == s@.take(i - 1));
            assert(s@.take(i as int).last() == s@[i - 1]);
        }
        let key = s[i - 1].0;
        if lo <= key && key <= hi {
            return Some(s[i - 1].1.kline);
        }
        i = i - 1;
    }
    None
}

/// The candle the crosshair tooltip describes (see `spec_tooltip_kline`).
/// `tick_count` is the number of trades per bar of a tick basis.
pub fn tooltip_kline(
    data: &PlotData,
    basis_is_time: bool,
    tick_count: u64,
    at_interval: Option<u64>,
    visible_range: (u64, u64),
) -> (r: Option<Kline>)
    requires
        data is TimeBased ==> keys_increasing(data->TimeBased_0.datapoints@),
        (data is TickBased && at_interval is Some) ==> tick_count > 0,
    ensures
        r == spec_tooltip_kline(
            *data,
            basis_is_time,
            tick_count,
            at_interval,
            visible_range.0,
            visible_range.1,
        ),
{
    let (earliest, latest) = visible_range;
    match data {
        PlotData::TimeBased(ts) => {
            let n = ts.datapoints.len();
            match at_interval {
                None => {
                    if n > 0 {
                        Some(ts.datapoints[n - 1].1.kline)
                    } else {
                        None
                    }
                },
                Some(a) => {
                    proof {
                        lemma_kline_at_time(ts.datapoints@, a);
                    }
                    if let Some(i) = ts.find(a) {
                        return Some(ts.datapoints[i].1.kline);
                    }
                    let in_visible = a >= earliest && a <= latest;
                    if in_visible {
                        let search_end = if a < latest {
                            a
                        } else {
                            latest
                        };
                        if let Some(k) = find_last_in_range(&ts.datapoints, earliest, search_end) {
                            return Some(k);
                        }
                    }
                    let right = if basis_is_time {
                        a > latest
                    } else {
                        a < earliest
                    };
                    if right {
                        if let Some(k) = find_last_in_range(&ts.datapoints, earliest, latest) {
                            return Some(k);
                        }
                    }
                    if n > 0 && a > ts.datapoints[n - 1].0 {
                        Some(ts.datapoints[n - 1].1.kline)
                    } else {
                        None
                    }
                },
            }
        },
        PlotData::TickBased(ta) => {
            let n = ta.datapoints.len();
            match at_interval {
                None => {
                    if n > 0 {
                        Some(ta.datapoints[n - 1].kline)
                    } else {
                        None
                    }
                },
                Some(a) => {
                    let index = a / tick_count;
                    if index < n as u64 {
                        return Some(ta.datapoints[n - 1 - index as usize].kline);
                    }
                    let in_visible = a >= earliest && a <= latest;
                    let right = if basis_is_time {
                        a > latest
                    } else {
                        a < earliest
                    };
                    if in_visible || right {
                        let index = earliest / tick_count;
                        if index < n as u64 {
                            Some(ta.datapoints[n - 1 - index as usize].kline)
                        } else {
                            None
                        }
                    } else {
                        None
                    }
                },
            }
        },
    }
}

/// How a footprint's clusters are drawn.
#[derive(Clone, Copy, Debug, PartialEq, Eq, Structural)]
pub enum ClusterKind {
    BidAsk,
    VolumeProfile,
    DeltaProfile,
    ProDeltaCandle,
}

/// The quantity a level contributes to its cluster's scale: the larger side
/// for bid/ask clusters, the absolute delta for delta profiles, the total
/// for volume profiles and delta candles.
pub open spec fn cluster_qty(g: GroupedTrades, kind: ClusterKind) -> int {
    match kind {
        ClusterKind::BidAsk => if g.buy_qty.units >= g.sell_qty.units {
            g.buy_qty.units as int
        } else {
            g.sell_qty.units as int
        },
        ClusterKind::DeltaProfile => if g.buy_qty.units >= g.sell_qty.units {
            g.buy_qty.units - g.sell_qty.units
        } else {
            g.sell_qty.units - g.buy_qty.units
        },
        ClusterKind::VolumeProfile | ClusterKind::ProDeltaCandle => g.buy_qty.units
            + g.sell_qty.units,
    }
}

/// What a level contributes to each kind of cluster, in terms of its two
/// sides: bid/ask clusters take the larger side (at least each side, and
/// one of them), delta profiles the absolute difference of the sides,
/// volume profiles and delta candles the sum of the sides.
pub proof fn lemma_cluster_qty_sides(g: GroupedTrades)
    ensures
        cluster_qty(g, ClusterKind::BidAsk) >= g.buy_qty.units,
        cluster_qty(g, ClusterKind::BidAsk) >= g.sell_qty.units,
        cluster_qty(g, ClusterKind::BidAsk) == g.buy_qty.units || cluster_qty(g, ClusterKind::BidAsk)
            == g.sell_qty.units,
        cluster_qty(g, ClusterKind::DeltaProfile) >= 0,
        cluster_qty(g, ClusterKind::DeltaProfile) == g.buy_qty.units - g.sell_qty.units || cluster_qty(
            g,
            ClusterKind::DeltaProfile,
        ) == g.sell_qty.units - g.buy_qty.units,
        cluster_qty(g, ClusterKind::VolumeProfile) == g.buy_qty.units + g.sell_qty.units,
        cluster_qty(g, ClusterKind::ProDeltaCandle) == g.buy_qty.units + g.sell_qty.units,
{
}

/// The largest cluster quantity of a footprint's levels; zero without
/// levels. For bid/ask clusters it is at least every level's buy and every
/// level's sell quantity, and one of them.
pub fn cluster_max_qty(footprint: &KlineTrades, kind: ClusterKind) -> (r: Qty)
    requires
        levels_wf(footprint.trades@),
    ensures
        r.units >= 0,
        forall|i: int|
            0 <= i < footprint.trades@.len() ==> cluster_qty(
                #[trigger] footprint.trades@[i].1,
                kind,
            ) <= r.units,
        footprint.trades@.len() > 0 ==> exists|i: int|
            0 <= i < footprint.trades@.len() && cluster_qty(#[trigger] footprint.trades@[i].1, kind)
                == r.units,
        footprint.trades@.len() == 0 ==> r.units == 0,
        kind == ClusterKind::BidAsk ==> forall|i: int|
            0 <= i < footprint.trades@.len() ==> (#[trigger] footprint.trades@[i]).1.buy_qty.units
                <= r.units && footprint.trades@[i].1.sell_qty.units <= r.units,
        kind == ClusterKind::BidAsk && footprint.trades@.len() > 0 ==> exists|i: int|
            0 <= i < footprint.trades@.len() && ((#[trigger] footprint.trades@[i]).1.buy_qty.units
                == r.units || footprint.trades@[i].1.sell_qty.units == r.units),
{
    let s = &footprint.trades;
    let mut best: i64 = 0;
    let mut i: usize = 0;
    while i < s.len()
        invariant
            levels_wf(s@),
            i <= s@.len(),
            best >= 0,
            forall|j: int| 0 <= j < i ==> cluster_qty(#[trigger] s@[j].1, kind) <= best,
            i > 0 ==> exists|j: int| 0 <= j < i && cluster_qty(#[trigger] s@[j].1, kind) == best,
            i == 0 ==> best == 0,
        decreases s@.len() - i,
    {
        let g = s[i].1;
        proof {
            assert(s@[i as int].1.wf());
        }
        let v: i64 = match kind {
            ClusterKind::BidAsk => if g.buy_qty.units >= g.sell_qty.units {
                g.buy_qty.units
            } else {
                g.sell_qty.units
            },
            ClusterKind::DeltaProfile => if g.buy_qty.units >= g.sell_qty.units {
                g.buy_qty.units - g.sell_qty.units
            } else {
                g.sell_qty.units - g.buy_qty.units
            },
            ClusterKind::VolumeProfile | ClusterKind::ProDeltaCandle => g.buy_qty.units
                + g.sell_qty.units,
        };
        if i == 0 || v > best {
            best = v;
        }
        i = i + 1;
    }
    proof {
        assert forall|i: int| 0 <= i < s@.len() implies cluster_qty(#[trigger] s@[i].1, kind) <= best
            && (kind == ClusterKind::BidAsk ==> s@[i].1.buy_qty.units <= best && s@[i].1.sell_qty.units
            <= best) by {
            lemma_cluster_qty_sides(s@[i].1);
        }
        if s@.len() > 0 {
            let j = choose|j: int| 0 <= j < s@.len() && cluster_qty(#[trigger] s@[j].1, kind) == best;
            lemma_cluster_qty_sides(s@[j].1);
            if kind == ClusterKind::BidAsk {
                assert(s@[j].1.buy_qty.units == best || s@[j].1.sell_qty.units == best);
            }
        }
    }
    Qty { units: best }
}

/// What the mouse did, as far as drawing is concerned.
#[derive(Clone, Copy, Debug, PartialEq, Eq, Structural)]
pub enum PointerKind {
    LeftPressed,
    Moved,
    LeftReleased,
    /// Any other mouse event.
    Other,
}

/// The drawing event a pointer event makes at a chart point.
pub open spec fn spec_pointer_event(kind: PointerKind, p: ChartPoint) -> Option<DrawingEvent> {
    match kind {
        PointerKind::LeftPressed => Some(DrawingEvent::MouseDown(p)),
        PointerKind::Moved => Some(DrawingEvent::MouseMove(p)),
        PointerKind::LeftReleased => Some(DrawingEvent::MouseUp(p)),
        PointerKind::Other => None,
    }
}

/// A mouse event on the chart, at candle `time` and at the price `price`
/// under the cursor, with `tool` picked. With the cursor tool a left press
/// selects the drawing `hit` under the cursor (as found on screen) and
/// deselects the others. With a drawing tool the price is snapped down to
/// the tick grid (the chart's tick size, or the ticker's smallest tick when
/// the chart has none) and the event is fed to the drawings; a drawing it
/// starts gets the identifier `fresh_id`. Tells whether the chart must be
/// redrawn.
pub fn handle_drawing(
    drawings: &mut ChartDrawings,
    tool: DrawingType,
    kind: PointerKind,
    time: u64,
    price: Price,
    tick_size: PriceStep,
    min_ticksize: PriceStep,
    hit: Option<usize>,
    fresh_id: Uuid,
) -> (redraw: bool)
    requires
        tool != DrawingType::Cursor ==> (if tick_size.units > 0 {
            tick_size
        } else {
            min_ticksize
        }).units > 0,
        tool != DrawingType::Cursor ==> spec_snap(
            price.units as int,
            (if tick_size.units > 0 {
                tick_size
            } else {
                min_ticksize
            }).units as int,
        ) >= i64::MIN,
    ensures
        tool == DrawingType::Cursor && kind == PointerKind::LeftPressed ==> {
            &&& final(drawings)@.current_cursor == old(drawings)@.current_cursor
            &&& final(drawings)@.drawings.len() == old(drawings)@.drawings.len()
            &&& (forall|i: int|
                0 <= i < old(drawings)@.drawings.len() ==> #[trigger] final(drawings)@.drawings[i]
                    == (Drawing { selected: hit == Some(i as usize), ..old(drawings)@.drawings[i] }))
            &&& redraw == exists|i: int|
                0 <= i < old(drawings)@.drawings.len()
                    && (#[trigger] old(drawings)@.drawings[i]).selected != (hit == Some(i as usize))
        },
        tool == DrawingType::Cursor && kind != PointerKind::LeftPressed ==> !redraw
            && final(drawings)@ == old(drawings)@,
        tool != DrawingType::Cursor ==> {
            let step = if tick_size.units > 0 {
                tick_size
            } else {
                min_ticksize
            };
            let p = ChartPoint {
                time,
                price: Price { units: spec_snap(price.units as int, step.units as int) as i64 },
            };
            match spec_pointer_event(kind, p) {
                None => !redraw && final(drawings)@ == old(drawings)@,
                Some(e) => (final(drawings)@, redraw) == spec_handle_event(
                    old(drawings)@,
                    e,
                    tool,
                    fresh_id,
                ),
            }
        },
{
    if tool == DrawingType::Cursor {
        if kind == PointerKind::LeftPressed {
            return drawings.select_hit(hit);
        }
        return false;
    }
    let step = effective_step(tick_size, min_ticksize);
    let snapped = snap_to_step(price, step);
    let point = ChartPoint { time, price: snapped };
    let event = match kind {
        PointerKind::LeftPressed => DrawingEvent::MouseDown(point),
        PointerKind::Moved => DrawingEvent::MouseMove(point),
        PointerKind::LeftReleased => DrawingEvent::MouseUp(point),
        PointerKind::Other => {
            return false;
        },
    };
    drawings.handle_event(event, tool, fresh_id)
}

/// A key press on the chart: the delete and backspace keys remove the
/// selected drawings. Tells whether the chart must be redrawn.
pub fn handle_drawing_key(drawings: &mut ChartDrawings, is_delete_key: bool) -> (redraw: bool)
    ensures
        is_delete_key ==> final(drawings)@.drawings == unselected(old(drawings)@.drawings)
            && final(drawings)@.current_cursor == old(drawings)@.current_cursor && redraw
            == any_selected(old(drawings)@.drawings),
        !is_delete_key ==> final(drawings)@ == old(drawings)@ && !redraw,
{
    if is_delete_key {
        drawings.delete_selected()
    } else {
        false
    }
}

} // verus!
