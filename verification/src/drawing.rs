//! Chart drawings (trend lines, rays, horizontal lines, rectangles) and the
//! mouse-driven state machine that places them.

use vstd::prelude::*;
use crate::units::Price;
use uuid::Uuid;

verus! {

/// Makes Verus aware of `uuid::Uuid`, the identifier each drawing carries.
#[verifier::external_type_specification]
#[verifier::external_body]
pub struct ExUuid(uuid::Uuid);

/// A point of a chart: a time (or tick index) and a price.
#[derive(Clone, Copy, Debug, PartialEq, Eq, Structural)]
pub struct ChartPoint {
    pub time: u64,
    pub price: Price,
}

impl ChartPoint {
    pub fn new(time: u64, price: Price) -> (p: ChartPoint)
        ensures
            p.time == time,
            p.price == price,
    {
        ChartPoint { time, price }
    }
}

/// What the mouse did, at a chart point.
#[derive(Clone, Copy, Debug, PartialEq, Eq, Structural)]
pub enum DrawingEvent {
    MouseDown(ChartPoint),
    MouseMove(ChartPoint),
    MouseUp(ChartPoint),
}

/// The tool the user has picked.
#[derive(Clone, Copy, Debug, PartialEq, Eq, Structural)]
pub enum DrawingType {
    /// Not a drawing tool: normal chart interaction.
    Cursor,
    TrendLine,
    Ray,
    HorizontalLine,
    Rectangle,
}

impl Default for DrawingType {
    fn default() -> (t: DrawingType)
        ensures
            t == DrawingType::Cursor,
    {
        DrawingType::Cursor
    }
}

/// How far a drawing has been placed.
#[derive(Clone, Copy, Debug, PartialEq, Eq, Structural)]
pub enum DrawingState {
    /// Waiting for the first click.
    Initial,
    /// One point has been placed; waiting for the second.
    OnePoint(ChartPoint),
    /// Both points are placed.
    Completed(ChartPoint, ChartPoint),
}

impl DrawingState {
    /// The placed point of a drawing that has exactly one.
    pub fn into_one_point(self) -> (r: Option<ChartPoint>)
        ensures
            r == (match self {
                DrawingState::OnePoint(p) => Some(p),
                _ => None::<ChartPoint>,
            }),
    {
        if let DrawingState::OnePoint(p) = self {
            Some(p)
        } else {
            None
        }
    }
}

/// One drawing on a chart.
#[derive(Clone, Copy, Debug)]
pub struct Drawing {
    pub id: Uuid,
    pub kind: DrawingType,
    pub state: DrawingState,
    pub selected: bool,
    /// 0 for the start point, 1 for the end point.
    pub hovered_point: Option<usize>,
}

impl Drawing {
    /// A fresh drawing of `kind` with identifier `id`: nothing placed, not
    /// selected, not hovered. Callers draw `id` at random.
    pub fn new(kind: DrawingType, id: Uuid) -> (d: Drawing)
        ensures
            d.id == id,
            d.kind == kind,
            d.state == DrawingState::Initial,
            !d.selected,
            d.hovered_point is None,
    {
        Drawing {
            id,
            kind,
            state: DrawingState::Initial,
            selected: false,
            hovered_point: None,
        }
    }
}

/// The abstract contents of a chart's drawings.
#[verifier::ext_equal]
pub struct DrawingsView {
    pub drawings: Seq<Drawing>,
    pub current_cursor: Option<ChartPoint>,
}

/// The drawings of one chart, in the order they were made, and the last
/// cursor position seen while drawing.
#[derive(Clone, Debug)]
pub struct ChartDrawings {
    pub drawings: Vec<Drawing>,
    pub current_cursor: Option<ChartPoint>,
}

impl View for ChartDrawings {
    type V = DrawingsView;

    open spec fn view(&self) -> DrawingsView {
        DrawingsView { drawings: self.drawings@, current_cursor: self.current_cursor }
    }
}

impl Default for ChartDrawings {
    fn default() -> (c: ChartDrawings)
        ensures
            c@.drawings.len() == 0,
            c@.current_cursor is None,
    {
        ChartDrawings { drawings: Vec::new(), current_cursor: None }
    }
}

/// The drawing being placed, if any: the last one, when it is not complete.
pub open spec fn has_active(s: Seq<Drawing>) -> bool {
    s.len() > 0 && !(s.last().state is Completed)
}

/// Every drawing but the last is complete.
pub open spec fn only_last_unfinished(s: Seq<Drawing>) -> bool {
    forall|i: int| 0 <= i < s.len() - 1 ==> (#[trigger] s[i]).state is Completed
}

/// The drawings that are not selected, in their order.
pub open spec fn unselected(s: Seq<Drawing>) -> Seq<Drawing>
    decreases s.len(),
{
    if s.len() == 0 {
        Seq::empty()
    } else if s.last().selected {
        unselected(s.drop_last())
    } else {
        unselected(s.drop_last()).push(s.last())
    }
}

/// Some drawing is selected.
pub open spec fn any_selected(s: Seq<Drawing>) -> bool {
    exists|i: int| 0 <= i < s.len() && (#[trigger] s[i]).selected
}

/// A drawing with a new state, everything else kept.
pub open spec fn with_state(d: Drawing, state: DrawingState) -> Drawing {
    Drawing { state, ..d }
}

/// What one event does to the drawings of a chart with `tool` picked,
/// and whether the chart must be redrawn. `fresh` is the identifier that a
/// newly started drawing receives.
pub open spec fn spec_handle_event(
    m: DrawingsView,
    event: DrawingEvent,
    tool: DrawingType,
    fresh: Uuid,
) -> (DrawingsView, bool) {
    if tool == DrawingType::Cursor {
        (m, false)
    } else {
        match event {
            DrawingEvent::MouseDown(p) => {
                if has_active(m.drawings) {
                    let last = m.drawings.last();
                    let state = match last.state {
                        DrawingState::Initial => DrawingState::OnePoint(p),
                        DrawingState::OnePoint(q) => DrawingState::Completed(q, p),
                        DrawingState::Completed(a, b) => DrawingState::Completed(a, b),
                    };
                    (
                        DrawingsView {
                            drawings: m.drawings.update(
                                m.drawings.len() - 1,
                                with_state(last, state),
                            ),
                            ..m
                        },
                        true,
                    )
                } else {
                    let state = if tool == DrawingType::HorizontalLine {
                        DrawingState::Completed(p, p)
                    } else {
                        DrawingState::OnePoint(p)
                    };
                    let d = Drawing {
                        id: fresh,
                        kind: tool,
                        state,
                        selected: false,
                        hovered_point: None,
                    };
                    (DrawingsView { drawings: m.drawings.push(d), ..m }, true)
                }
            },
            DrawingEvent::MouseMove(p) => (
                DrawingsView { current_cursor: Some(p), ..m },
                has_active(m.drawings),
            ),
            DrawingEvent::MouseUp(p) => {
                if has_active(m.drawings) && m.drawings.last().state is OnePoint && (
                m.drawings.last().state->OnePoint_0 != p) {
                    let last = m.drawings.last();
                    let q = last.state->OnePoint_0;
                    (
                        DrawingsView {
                            drawings: m.drawings.update(
                                m.drawings.len() - 1,
                                with_state(last, DrawingState::Completed(q, p)),
                            ),
                            ..m
                        },
                        true,
                    )
                } else {
                    (m, false)
                }
            },
        }
    }
}

impl ChartDrawings {
    /// Appends a drawing.
    pub fn add_drawing(&mut self, drawing: Drawing)
        ensures
            final(self)@.drawings == old(self)@.drawings.push(drawing),
            final(self)@.current_cursor == old(self)@.current_cursor,
    {
        self.drawings.push(drawing);
    }

    /// The drawing being placed, for changing it.
    pub fn active_drawing_mut(&mut self) -> (r: Option<&mut Drawing>)
        ensures
            has_active(old(self)@.drawings) == (r is Some),
            match r {
                Some(d) => {
                    &&& *d == old(self)@.drawings.last()
                    &&& final(self)@.drawings == old(self)@.drawings.update(
                        old(self)@.drawings.len() - 1,
                        *final(d),
                    )
                    &&& final(self)@.current_cursor == old(self)@.current_cursor
                },
                None => final(self)@ == old(self)@,
            },
    {
        let len = self.drawings.len();
        if len > 0 {
            if let DrawingState::Completed(_, _) = self.drawings[len - 1].state {
                None
            } else {
                Some(&mut self.drawings[len - 1])
            }
        } else {
            None
        }
    }

    /// The drawing being placed.
    pub fn active_drawing(&self) -> (r: Option<&Drawing>)
        ensures
            has_active(self@.drawings) == (r is Some),
            r matches Some(d) ==> *d == self@.drawings.last(),
    {
        let len = self.drawings.len();
        if len > 0 {
            if let DrawingState::Completed(_, _) = self.drawings[len - 1].state {
                None
            } else {
                Some(&self.drawings[len - 1])
            }
        } else {
            None
        }
    }

    /// Removes the selected drawings; tells whether any was removed.
    pub fn delete_selected(&mut self) -> (removed: bool)
        ensures
            final(self)@.drawings == unselected(old(self)@.drawings),
            final(self)@.current_cursor == old(self)@.current_cursor,
            removed == any_selected(old(self)@.drawings),
    {
        let ghost old_s = self.drawings@;
        let len = self.drawings.len();
        let mut kept: Vec<Drawing> = Vec::new();
        let mut i: usize = 0;
        while i < len
            invariant
                len == old_s.len(),
                self.drawings@ == old_s,
                i <= len,
                kept@ == unselected(old_s.take(i as int)),
                kept@.len() <= i,
            decreases len - i,
        {
            let d = self.drawings[i];
            assert(old_s.take(i + 1).drop_last() == old_s.take(i as int));
            if !d.selected {
                kept.push(d);
            }
            i = i + 1;
        }
        assert(old_s.take(len as int) == old_s);
        proof {
            lemma_unselected_len(old_s);
        }
        self.drawings = kept;
        self.drawings.len() < len
    }

    /// Removes every drawing and forgets the cursor.
    pub fn clear(&mut self)
        ensures
            final(self)@.drawings.len() == 0,
            final(self)@.current_cursor is None,
    {
        self.drawings.clear();
        self.current_cursor = None;
    }

    /// Feeds one mouse event to the drawings, with `current_tool` picked;
    /// tells whether the chart must be redrawn. A drawing started by the
    /// event gets the identifier `fresh_id`.
    pub fn handle_event(&mut self, event: DrawingEvent, current_tool: DrawingType, fresh_id: Uuid) -> (redraw: bool)
        ensures
            (final(self)@, redraw) == spec_handle_event(old(self)@, event, current_tool, fresh_id),
    {
        if current_tool == DrawingType::Cursor {
            return false;
        }
        match event {
            DrawingEvent::MouseDown(point) => {
                if let Some(active) = self.active_drawing_mut() {
                    match active.state {
                        DrawingState::Initial => {
                            active.state = DrawingState::OnePoint(point);
                        },
                        DrawingState::OnePoint(_) => {
                            let first = active.state.into_one_point();
                            match first {
                                Some(q) => {
                                    active.state = DrawingState::Completed(q, point);
                                },
                                None => {},
                            }
                        },
                        _ => {},
                    }
                } else {
                    let mut d = Drawing::new(current_tool, fresh_id);
                    if current_tool == DrawingType::HorizontalLine {
                        d.state = DrawingState::Completed(point, point);
                    } else {
                        d.state = DrawingState::OnePoint(point);
                    }
                    self.add_drawing(d);
                }
                true
            },
            DrawingEvent::MouseMove(point) => {
                self.current_cursor = Some(point);
                self.active_drawing().is_some()
            },
            DrawingEvent::MouseUp(point) => {
                let mut completed = false;
                if let Some(active) = self.active_drawing_mut() {
                    if let DrawingState::OnePoint(p) = active.state {
                        if p.time != point.time || p.price != point.price {
                            active.state = DrawingState::Completed(p, point);
                            completed = true;
                        }
                    }
                }
                completed
            },
        }
    }
}

/// Removing the selected drawings never makes the list longer.
proof fn lemma_unselected_len(s: Seq<Drawing>)
    ensures
        unselected(s).len() <= s.len(),
        unselected(s).len() < s.len() <==> any_selected(s),
    decreases s.len(),
{
    if s.len() > 0 {
        lemma_unselected_len(s.drop_last());
        if any_selected(s.drop_last()) {
            let i = choose|i: int| 0 <= i < s.drop_last().len() && (#[trigger] s.drop_last()[i]).selected;
            assert(s[i].selected);
        }
        if any_selected(s) && !s.last().selected {
            let i = choose|i: int| 0 <= i < s.len() && (#[trigger] s[i]).selected;
            assert(s.drop_last()[i].selected);
        }
    }
}


/// Every drawing kept by `unselected` was in the list, so a property of all
/// drawings holds of the kept ones.
proof fn lemma_unselected_keeps_completed(s: Seq<Drawing>)
    requires
        forall|i: int| 0 <= i < s.len() ==> (#[trigger] s[i]).state is Completed,
    ensures
        forall|i: int| 0 <= i < unselected(s).len() ==> (#[trigger] unselected(s)[i]).state is Completed,
    decreases s.len(),
{
    if s.len() > 0 {
        let t = s.drop_last();
        assert forall|i: int| 0 <= i < t.len() implies (#[trigger] t[i]).state is Completed by {
            assert(t[i] == s[i]);
        }
        lemma_unselected_keeps_completed(t);
    }
}

/// No drawing kept by `unselected` is selected.
proof fn lemma_unselected_none_selected(s: Seq<Drawing>)
    ensures
        !any_selected(unselected(s)),
    decreases s.len(),
{
    if s.len() > 0 {
        lemma_unselected_none_selected(s.drop_last());
        let u = unselected(s.drop_last());
        if !s.last().selected {
            assert forall|i: int| 0 <= i < u.push(s.last()).len() implies !(#[trigger] u.push(
                s.last(),
            )[i]).selected by {
                if i < u.len() {
                    assert(u.push(s.last())[i] == u[i]);
                }
            }
        }
    }
}

/// With the cursor tool picked, mouse events change no drawing, move no
/// cursor and ask for no redraw.
pub proof fn lemma_cursor_tool_is_inert(m: DrawingsView, event: DrawingEvent, fresh: Uuid)
    ensures
        spec_handle_event(m, event, DrawingType::Cursor, fresh) == (m, false),
{
}

/// Mouse events keep every drawing but the last one complete: at most one
/// drawing is ever being placed, and it is the newest.
pub proof fn lemma_event_keeps_only_last_unfinished(
    m: DrawingsView,
    event: DrawingEvent,
    tool: DrawingType,
    fresh: Uuid,
)
    requires
        only_last_unfinished(m.drawings),
    ensures
        only_last_unfinished(spec_handle_event(m, event, tool, fresh).0.drawings),
{
    let n = spec_handle_event(m, event, tool, fresh).0.drawings;
    assert forall|i: int| 0 <= i < n.len() - 1 implies (#[trigger] n[i]).state is Completed by {
        assert(n[i] == m.drawings[i]);
    }
}

/// Deleting the selected drawings keeps every drawing but the last one
/// complete, and leaves no drawing selected.
pub proof fn lemma_delete_keeps_only_last_unfinished(s: Seq<Drawing>)
    requires
        only_last_unfinished(s),
    ensures
        only_last_unfinished(unselected(s)),
        !any_selected(unselected(s)),
{
    lemma_unselected_none_selected(s);
    if s.len() > 0 {
        let t = s.drop_last();
        assert forall|i: int| 0 <= i < t.len() implies (#[trigger] t[i]).state is Completed by {
            assert(t[i] == s[i]);
        }
        lemma_unselected_keeps_completed(t);
        let u = unselected(t);
        if !s.last().selected {
            assert forall|i: int| 0 <= i < u.push(s.last()).len() - 1 implies (#[trigger] u.push(
                s.last(),
            )[i]).state is Completed by {
                assert(u.push(s.last())[i] == u[i]);
            }
        }
    }
}

/// With a two-point tool and no drawing being placed, a click at `p` and a
/// click at `q` add one complete drawing from `p` to `q` of that tool's
/// kind, keep the earlier drawings, and ask for a redraw each time.
pub proof fn lemma_two_clicks_complete(
    m: DrawingsView,
    p: ChartPoint,
    q: ChartPoint,
    tool: DrawingType,
    fresh1: Uuid,
    fresh2: Uuid,
)
    requires
        !has_active(m.drawings),
        tool != DrawingType::Cursor,
        tool != DrawingType::HorizontalLine,
    ensures
        ({
            let (m1, r1) = spec_handle_event(m, DrawingEvent::MouseDown(p), tool, fresh1);
            let (m2, r2) = spec_handle_event(m1, DrawingEvent::MouseDown(q), tool, fresh2);
            &&& r1 && r2
            &&& m2.drawings.len() == m.drawings.len() + 1
            &&& m2.drawings.drop_last() == m.drawings
            &&& m2.drawings.last().state == DrawingState::Completed(p, q)
            &&& m2.drawings.last().kind == tool
            &&& m2.drawings.last().id == fresh1
            &&& !has_active(m2.drawings)
        }),
{
    let (m1, r1) = spec_handle_event(m, DrawingEvent::MouseDown(p), tool, fresh1);
    let (m2, r2) = spec_handle_event(m1, DrawingEvent::MouseDown(q), tool, fresh2);
    assert(m2.drawings.drop_last() =~= m.drawings);
}

/// With a two-point tool and no drawing being placed, pressing at `p` and
/// releasing at another point `q` completes a drawing from `p` to `q`;
/// releasing at `p` itself (a click) leaves it waiting for its second point.
pub proof fn lemma_drag_completes(
    m: DrawingsView,
    p: ChartPoint,
    q: ChartPoint,
    tool: DrawingType,
    fresh1: Uuid,
    fresh2: Uuid,
)
    requires
        !has_active(m.drawings),
        tool != DrawingType::Cursor,
        tool != DrawingType::HorizontalLine,
    ensures
        ({
            let (m1, _) = spec_handle_event(m, DrawingEvent::MouseDown(p), tool, fresh1);
            let (m2, r2) = spec_handle_event(m1, DrawingEvent::MouseUp(q), tool, fresh2);
            &&& p != q ==> r2 && m2.drawings.last().state == DrawingState::Completed(p, q)
                && m2.drawings.len() == m1.drawings.len()
            &&& p == q ==> !r2 && m2 == m1 && m2.drawings.last().state == DrawingState::OnePoint(p)
        }),
{
}

/// With the horizontal-line tool and no drawing being placed, one click at
/// `p` adds a complete horizontal line through `p`.
pub proof fn lemma_horizontal_line_one_click(m: DrawingsView, p: ChartPoint, fresh: Uuid)
    requires
        !has_active(m.drawings),
    ensures
        ({
            let (m1, r1) = spec_handle_event(
                m,
                DrawingEvent::MouseDown(p),
                DrawingType::HorizontalLine,
                fresh,
            );
            &&& r1
            &&& m1.drawings == m.drawings.push(m1.drawings.last())
            &&& m1.drawings.last().state == DrawingState::Completed(p, p)
            &&& !has_active(m1.drawings)
        }),
{
}

/// Moving the mouse records the cursor and changes no drawing.
pub proof fn lemma_move_keeps_drawings(
    m: DrawingsView,
    p: ChartPoint,
    tool: DrawingType,
    fresh: Uuid,
)
    requires
        tool != DrawingType::Cursor,
    ensures
        spec_handle_event(m, DrawingEvent::MouseMove(p), tool, fresh).0.drawings == m.drawings,
        spec_handle_event(m, DrawingEvent::MouseMove(p), tool, fresh).0.current_cursor == Some(p),
{
}

} // verus!
