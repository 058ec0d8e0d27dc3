use orderflow::footprint::{KlineDataPoint, KlineTrades, PlotData, TickAggr, TimeSeries};
use orderflow::kline::{
    apply_study_action, effective_step, interval_keys, is_empty, snap_to_step, FootprintStudy,
    StudyAction,
};
use orderflow::units::{Kline, Price, PriceStep, Qty, Volume};
use uuid::Uuid;

#[test]
fn snap_rounds_down_to_grid() {
    let step = PriceStep { units: 25 };
    assert_eq!(snap_to_step(Price::from_units(1010), step), Price::from_units(1000));
    assert_eq!(snap_to_step(Price::from_units(1025), step), Price::from_units(1025));
    assert_eq!(snap_to_step(Price::from_units(0), step), Price::from_units(0));
    // below zero it still rounds towards lower prices
    assert_eq!(snap_to_step(Price::from_units(-1), step), Price::from_units(-25));
    assert_eq!(snap_to_step(Price::from_units(-25), step), Price::from_units(-25));
    assert_eq!(snap_to_step(Price::from_units(-26), step), Price::from_units(-50));
    // snapping twice is snapping once
    let once = snap_to_step(Price::from_units(987_654), step);
    assert_eq!(snap_to_step(once, step), once);
    assert_eq!(snap_to_step(Price::from_units(i64::MAX), PriceStep { units: 1 }), Price::from_units(i64::MAX));
}

#[test]
fn effective_step_prefers_chart_tick() {
    let min = PriceStep { units: 1 };
    assert_eq!(effective_step(PriceStep { units: 50 }, min), PriceStep { units: 50 });
    assert_eq!(effective_step(PriceStep { units: 0 }, min), min);
    assert_eq!(effective_step(PriceStep { units: -5 }, min), min);
}

#[test]
fn study_toggle_and_configure() {
    let mut studies = vec![];
    let npoc = FootprintStudy::NPoC { lookback: 80 };
    apply_study_action(&mut studies, StudyAction::ToggleStudy(npoc, true));
    assert_eq!(studies, vec![npoc]);
    // turning on a kind already on adds nothing
    apply_study_action(&mut studies, StudyAction::ToggleStudy(FootprintStudy::NPoC { lookback: 5 }, true));
    assert_eq!(studies, vec![npoc]);
    let imb = FootprintStudy::Imbalance { threshold: 200, color_scale: Some(400), ignore_zeros: true };
    apply_study_action(&mut studies, StudyAction::ToggleStudy(imb, true));
    assert_eq!(studies, vec![npoc, imb]);
    // configuring replaces the study of that kind
    let npoc2 = FootprintStudy::NPoC { lookback: 10 };
    apply_study_action(&mut studies, StudyAction::ConfigureStudy(npoc2));
    assert_eq!(studies, vec![npoc2, imb]);
    // configuring a kind that is off does nothing
    let stacked = FootprintStudy::StackedImbalance { consecutive: 3, threshold: 300 };
    apply_study_action(&mut studies, StudyAction::ConfigureStudy(stacked));
    assert_eq!(studies, vec![npoc2, imb]);
    // turning a kind off removes it whatever its parameters
    apply_study_action(
        &mut studies,
        StudyAction::ToggleStudy(FootprintStudy::NPoC { lookback: 1 }, false),
    );
    assert_eq!(studies, vec![imb]);
    assert!(imb.is_same_type(&FootprintStudy::Imbalance { threshold: 1, color_scale: None, ignore_zeros: false }));
    assert!(!imb.is_same_type(&stacked));
}

fn dp(time: u64) -> KlineDataPoint {
    KlineDataPoint {
        kline: Kline {
            time,
            open: Price::from_units(1),
            high: Price::from_units(2),
            low: Price::from_units(0),
            close: Price::from_units(1),
            volume: Volume::TotalOnly(Qty { units: 1 }),
        },
        footprint: KlineTrades::new(),
    }
}

#[test]
fn keys_and_emptiness() {
    let tick = PlotData::TickBased(TickAggr { tick_count: 1, last_bar_trades: 1, datapoints: vec![dp(7), dp(9), dp(15)] });
    assert_eq!(interval_keys(&tick), Some(vec![7, 9, 15]));
    assert!(!is_empty(&tick));
    let time = PlotData::TimeBased(TimeSeries { interval: 60, datapoints: vec![] });
    assert_eq!(interval_keys(&time), None);
    assert!(is_empty(&time));
    assert!(is_empty(&PlotData::TickBased(TickAggr { tick_count: 1, last_bar_trades: 1, datapoints: vec![] })));
}

use orderflow::drawing::{ChartDrawings, ChartPoint, DrawingState, DrawingType};
use orderflow::kline::{handle_drawing, handle_drawing_key, PointerKind};

#[test]
fn drawing_input_snaps_and_places() {
    let mut d = ChartDrawings::default();
    let tick = PriceStep { units: 25 };
    let min = PriceStep { units: 1 };
    assert!(handle_drawing(&mut d, DrawingType::TrendLine, PointerKind::LeftPressed, 10, Price::from_units(1010), tick, min, None, Uuid::from_u128(5)));
    assert_eq!(d.drawings[0].state, DrawingState::OnePoint(ChartPoint::new(10, Price::from_units(1000))));
    assert_eq!(d.drawings[0].id, Uuid::from_u128(5));
    // other pointer events do nothing
    assert!(!handle_drawing(&mut d, DrawingType::TrendLine, PointerKind::Other, 11, Price::from_units(1), tick, min, None, Uuid::from_u128(5)));
    // a chart without a tick size snaps to the ticker's smallest tick
    assert!(handle_drawing(&mut d, DrawingType::TrendLine, PointerKind::LeftReleased, 12, Price::from_units(1013), PriceStep { units: 0 }, min, None, Uuid::from_u128(5)));
    assert_eq!(
        d.drawings[0].state,
        DrawingState::Completed(ChartPoint::new(10, Price::from_units(1000)), ChartPoint::new(12, Price::from_units(1013)))
    );
    // with the cursor tool a left press selects the hit drawing
    assert!(handle_drawing(&mut d, DrawingType::Cursor, PointerKind::LeftPressed, 0, Price::from_units(0), tick, min, Some(0), Uuid::from_u128(5)));
    assert!(d.drawings[0].selected);
    assert!(!handle_drawing(&mut d, DrawingType::Cursor, PointerKind::Moved, 0, Price::from_units(0), tick, min, None, Uuid::from_u128(5)));
    assert!(d.drawings[0].selected);
    // the delete key removes it; other keys do nothing
    assert!(!handle_drawing_key(&mut d, false));
    assert_eq!(d.drawings.len(), 1);
    assert!(handle_drawing_key(&mut d, true));
    assert!(d.drawings.is_empty());
    assert!(!handle_drawing_key(&mut d, true));
}
