use orderflow::drawing::{
    ChartDrawings, ChartPoint, Drawing, DrawingEvent, DrawingState, DrawingType,
};
use orderflow::units::Price;
use uuid::Uuid;

fn id(n: u128) -> Uuid {
    Uuid::from_u128(n)
}

fn pt(time: u64, units: i64) -> ChartPoint {
    ChartPoint::new(time, Price::from_units(units))
}

#[test]
fn cursor_tool_changes_nothing() {
    let mut d = ChartDrawings::default();
    assert!(!d.handle_event(DrawingEvent::MouseDown(pt(1, 100)), DrawingType::Cursor, id(1)));
    assert!(!d.handle_event(DrawingEvent::MouseMove(pt(2, 100)), DrawingType::Cursor, id(2)));
    assert!(d.drawings.is_empty());
    assert!(d.current_cursor.is_none());
}

#[test]
fn two_clicks_complete_a_trend_line() {
    let mut d = ChartDrawings::default();
    assert!(d.handle_event(DrawingEvent::MouseDown(pt(1, 100)), DrawingType::TrendLine, id(3)));
    assert_eq!(d.drawings.len(), 1);
    assert_eq!(d.drawings[0].state, DrawingState::OnePoint(pt(1, 100)));
    assert_eq!(d.drawings[0].id, id(3));
    assert!(d.active_drawing().is_some());
    assert!(d.handle_event(DrawingEvent::MouseDown(pt(5, 120)), DrawingType::TrendLine, id(4)));
    assert_eq!(d.drawings.len(), 1);
    assert_eq!(d.drawings[0].state, DrawingState::Completed(pt(1, 100), pt(5, 120)));
    assert_eq!(d.drawings[0].kind, DrawingType::TrendLine);
    assert!(d.active_drawing().is_none());
    // a third click starts a new drawing
    assert!(d.handle_event(DrawingEvent::MouseDown(pt(7, 90)), DrawingType::Ray, id(5)));
    assert_eq!(d.drawings.len(), 2);
    assert_eq!(d.drawings[1].state, DrawingState::OnePoint(pt(7, 90)));
    assert_eq!(d.drawings[1].kind, DrawingType::Ray);
}

#[test]
fn drag_completes_click_does_not() {
    let mut d = ChartDrawings::default();
    d.handle_event(DrawingEvent::MouseDown(pt(1, 100)), DrawingType::Rectangle, id(6));
    // releasing where it was pressed is a click: nothing completes
    assert!(!d.handle_event(DrawingEvent::MouseUp(pt(1, 100)), DrawingType::Rectangle, id(7)));
    assert_eq!(d.drawings[0].state, DrawingState::OnePoint(pt(1, 100)));
    // releasing elsewhere completes it
    assert!(d.handle_event(DrawingEvent::MouseUp(pt(3, 110)), DrawingType::Rectangle, id(8)));
    assert_eq!(d.drawings[0].state, DrawingState::Completed(pt(1, 100), pt(3, 110)));
    // a release with no drawing being placed does nothing
    assert!(!d.handle_event(DrawingEvent::MouseUp(pt(4, 111)), DrawingType::Rectangle, id(9)));
}

#[test]
fn horizontal_line_needs_one_click() {
    let mut d = ChartDrawings::default();
    assert!(d.handle_event(DrawingEvent::MouseDown(pt(2, 50)), DrawingType::HorizontalLine, id(10)));
    assert_eq!(d.drawings[0].state, DrawingState::Completed(pt(2, 50), pt(2, 50)));
    assert!(d.active_drawing().is_none());
}

#[test]
fn mouse_move_records_cursor() {
    let mut d = ChartDrawings::default();
    assert!(!d.handle_event(DrawingEvent::MouseMove(pt(2, 50)), DrawingType::TrendLine, id(11)));
    assert_eq!(d.current_cursor, Some(pt(2, 50)));
    d.handle_event(DrawingEvent::MouseDown(pt(3, 50)), DrawingType::TrendLine, id(12));
    assert!(d.handle_event(DrawingEvent::MouseMove(pt(4, 60)), DrawingType::TrendLine, id(13)));
    assert_eq!(d.current_cursor, Some(pt(4, 60)));
    assert_eq!(d.drawings[0].state, DrawingState::OnePoint(pt(3, 50)));
}

#[test]
fn initial_drawing_takes_first_click() {
    let mut d = ChartDrawings::default();
    d.add_drawing(Drawing::new(DrawingType::TrendLine, id(99)));
    assert_eq!(d.drawings[0].state, DrawingState::Initial);
    assert!(d.handle_event(DrawingEvent::MouseDown(pt(1, 1)), DrawingType::TrendLine, id(14)));
    assert_eq!(d.drawings.len(), 1);
    assert_eq!(d.drawings[0].state, DrawingState::OnePoint(pt(1, 1)));
}

#[test]
fn delete_selected_removes_only_selected() {
    let mut d = ChartDrawings::default();
    d.handle_event(DrawingEvent::MouseDown(pt(1, 10)), DrawingType::HorizontalLine, id(15));
    d.handle_event(DrawingEvent::MouseDown(pt(2, 20)), DrawingType::HorizontalLine, id(16));
    d.handle_event(DrawingEvent::MouseDown(pt(3, 30)), DrawingType::HorizontalLine, id(17));
    assert!(!d.delete_selected());
    assert_eq!(d.drawings.len(), 3);
    d.drawings[1].selected = true;
    assert!(d.delete_selected());
    assert_eq!(d.drawings.len(), 2);
    assert_eq!(d.drawings[0].state, DrawingState::Completed(pt(1, 10), pt(1, 10)));
    assert_eq!(d.drawings[1].state, DrawingState::Completed(pt(3, 30), pt(3, 30)));
    assert!(d.drawings.iter().all(|x| !x.selected));
}

#[test]
fn clear_forgets_everything() {
    let mut d = ChartDrawings::default();
    d.handle_event(DrawingEvent::MouseDown(pt(1, 10)), DrawingType::TrendLine, id(18));
    d.handle_event(DrawingEvent::MouseMove(pt(2, 10)), DrawingType::TrendLine, id(19));
    d.clear();
    assert!(d.drawings.is_empty());
    assert!(d.current_cursor.is_none());
}

#[test]
fn into_one_point_only_for_one_point() {
    assert_eq!(DrawingState::OnePoint(pt(1, 2)).into_one_point(), Some(pt(1, 2)));
    assert_eq!(DrawingState::Initial.into_one_point(), None);
    assert_eq!(DrawingState::Completed(pt(1, 2), pt(3, 4)).into_one_point(), None);
}

#[test]
fn active_drawing_mut_changes_last() {
    let mut d = ChartDrawings::default();
    assert!(d.active_drawing_mut().is_none());
    d.handle_event(DrawingEvent::MouseDown(pt(1, 10)), DrawingType::TrendLine, id(20));
    if let Some(a) = d.active_drawing_mut() {
        a.selected = true;
    }
    assert!(d.drawings[0].selected);
}

#[test]
fn only_last_drawing_unfinished_after_many_events() {
    let mut d = ChartDrawings::default();
    let events = [
        DrawingEvent::MouseDown(pt(1, 1)),
        DrawingEvent::MouseMove(pt(2, 2)),
        DrawingEvent::MouseDown(pt(3, 3)),
        DrawingEvent::MouseDown(pt(4, 4)),
        DrawingEvent::MouseUp(pt(4, 4)),
        DrawingEvent::MouseUp(pt(6, 6)),
        DrawingEvent::MouseDown(pt(7, 7)),
    ];
    for e in events {
        d.handle_event(e, DrawingType::TrendLine, id(21));
        let n = d.drawings.len();
        for (i, x) in d.drawings.iter().enumerate() {
            if i + 1 < n {
                assert!(matches!(x.state, DrawingState::Completed(_, _)));
            }
        }
    }
    assert_eq!(d.drawings.len(), 3);
}

#[test]
fn new_drawing_defaults() {
    let a = Drawing::new(DrawingType::Ray, id(7));
    let b = Drawing::new(DrawingType::Ray, Uuid::new_v4());
    assert_eq!(a.kind, DrawingType::Ray);
    assert_eq!(a.state, DrawingState::Initial);
    assert!(!a.selected);
    assert!(a.hovered_point.is_none());
    assert_eq!(a.id, id(7));
    assert_ne!(a.id, b.id);
    assert_eq!(DrawingType::default(), DrawingType::Cursor);
}

#[test]
fn select_hit_selects_exactly_one() {
    let mut d = ChartDrawings::default();
    d.handle_event(DrawingEvent::MouseDown(pt(1, 10)), DrawingType::HorizontalLine, id(22));
    d.handle_event(DrawingEvent::MouseDown(pt(2, 20)), DrawingType::HorizontalLine, id(23));
    assert!(d.select_hit(Some(1)));
    assert!(!d.drawings[0].selected);
    assert!(d.drawings[1].selected);
    // the same hit again changes nothing
    assert!(!d.select_hit(Some(1)));
    assert!(d.select_hit(None));
    assert!(d.drawings.iter().all(|x| !x.selected));
    // a hit beyond the list deselects all and selects nothing
    d.drawings[0].selected = true;
    assert!(d.select_hit(Some(7)));
    assert!(d.drawings.iter().all(|x| !x.selected));
}
