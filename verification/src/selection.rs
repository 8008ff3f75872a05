//! Selection: which units are under the pointer, and the flag that marks a
//! unit as selected. Any number of units can be selected at a time.

use vstd::prelude::*;
use crate::bounds::Bounds;
use crate::camera::CameraPose;
use crate::geometry::{Point2, Ray, Size2};
use crate::unit::Unit;

verus! {

/// The mark of a unit that the player has selected.
#[derive(Clone, Copy, Debug, PartialEq, Eq, Structural)]
pub struct Selectable {
    pub is_selected: bool,
}

/// What the left button did in a frame, with the pointer's place on the
/// screen.
#[derive(Clone, Copy, Debug, PartialEq, Eq, Structural)]
pub enum SelectionEvent {
    /// The button went down here.
    Start(Point2),
    /// The button is held, and the pointer is here.
    Current(Point2),
    /// The button came up.
    End,
}

/// The rectangle that is dragged while the left button is held: it starts at
/// `origin`, where the button went down, and reaches `width` to the right and
/// `height` downwards (either may be negative). It is only shown, and selects
/// nothing by itself.
#[derive(Clone, Copy, Debug, PartialEq, Eq, Structural)]
pub struct Selection {
    pub origin: Point2,
    pub width: i64,
    pub height: i64,
}

/// The events of one frame, in the order in which they are handled. `Start`
/// and `Current` tell where the pointer is, so there is none of them while
/// it is outside the window; `End` needs only the button.
pub open spec fn selection_events(
    cursor: Option<Point2>,
    just_pressed: bool,
    pressed: bool,
    just_released: bool,
) -> Seq<SelectionEvent> {
    let start = match cursor {
        Some(c) => if just_pressed {
            seq![SelectionEvent::Start(c)]
        } else {
            Seq::empty()
        },
        None => Seq::empty(),
    };
    let current = match cursor {
        Some(c) => if pressed && !just_released {
            seq![SelectionEvent::Current(c)]
        } else {
            Seq::empty()
        },
        None => Seq::empty(),
    };
    let end = if just_released {
        seq![SelectionEvent::End]
    } else {
        Seq::empty()
    };
    start + current + end
}

/// Turns the state of the left button into the events of the frame. A
/// release ends the drag wherever the pointer is.
pub fn create_selection_events(
    cursor: Option<Point2>,
    just_pressed: bool,
    pressed: bool,
    just_released: bool,
) -> (r: Vec<SelectionEvent>)
    ensures
        r@ == selection_events(cursor, just_pressed, pressed, just_released),
{
    let mut events: Vec<SelectionEvent> = Vec::new();
    if let Some(c) = cursor {
        if just_pressed {
            events.push(SelectionEvent::Start(c));
        }
        if pressed && !just_released {
            events.push(SelectionEvent::Current(c));
        }
    }
    if just_released {
        events.push(SelectionEvent::End);
    }
    proof {
        assert(events@ =~= selection_events(cursor, just_pressed, pressed, just_released));
    }
    events
}

/// The dragged rectangle after a press: `Start` opens an empty one where the
/// button went down, in place of any that was open.
pub open spec fn started(marquee: Option<Selection>, event: SelectionEvent) -> Option<Selection> {
    match event {
        SelectionEvent::Start(p) => Some(Selection { origin: p, width: 0, height: 0 }),
        _ => marquee,
    }
}

/// The dragged rectangle after the pointer moved: `Current` stretches an open
/// rectangle from its origin to the pointer.
pub open spec fn resized(marquee: Option<Selection>, event: SelectionEvent) -> Option<Selection> {
    match (marquee, event) {
        (Some(s), SelectionEvent::Current(c)) => Some(
            Selection {
                origin: s.origin,
                width: (c.x - s.origin.x) as i64,
                height: (s.origin.y - c.y) as i64,
            },
        ),
        _ => marquee,
    }
}

/// The dragged rectangle after a release: `End` closes it.
pub open spec fn ended(marquee: Option<Selection>, event: SelectionEvent) -> Option<Selection> {
    match event {
        SelectionEvent::End => None,
        _ => marquee,
    }
}

/// The dragged rectangle after one event.
pub open spec fn selection_after(
    marquee: Option<Selection>,
    event: SelectionEvent,
) -> Option<Selection> {
    ended(resized(started(marquee, event), event), event)
}

/// The dragged rectangle after a run of events, taken in order.
pub open spec fn selection_tracked(
    marquee: Option<Selection>,
    events: Seq<SelectionEvent>,
) -> Option<Selection>
    decreases events.len(),
{
    if events.len() == 0 {
        marquee
    } else {
        selection_after(selection_tracked(marquee, events.drop_last()), events.last())
    }
}

/// Opens the dragged rectangle when the button goes down.
pub fn start_drawing_selection(marquee: &mut Option<Selection>, event: &SelectionEvent)
    ensures
        *final(marquee) == started(*old(marquee), *event),
{
    if let SelectionEvent::Start(start) = event {
        *marquee = Some(Selection { origin: *start, width: 0, height: 0 });
    }
}

/// Stretches the dragged rectangle to the pointer while the button is held.
pub fn set_selection_size(marquee: &mut Option<Selection>, event: &SelectionEvent)
    ensures
        *final(marquee) == resized(*old(marquee), *event),
{
    if let SelectionEvent::Current(current) = event {
        if let Some(selection) = *marquee {
            let width_diff: i64 = selection.origin.x as i64 - current.x as i64;
            let height_diff: i64 = selection.origin.y as i64 - current.y as i64;
            *marquee = Some(
                Selection { origin: selection.origin, width: -width_diff, height: height_diff },
            );
        }
    }
}

/// Closes the dragged rectangle when the button comes up.
pub fn despawn_selection(marquee: &mut Option<Selection>, event: &SelectionEvent)
    ensures
        *final(marquee) == ended(*old(marquee), *event),
{
    if let SelectionEvent::End = event {
        *marquee = None;
    }
}

/// Follows the drag through the events of a frame.
pub fn track_selection(marquee: &mut Option<Selection>, events: &Vec<SelectionEvent>)
    ensures
        *final(marquee) == selection_tracked(*old(marquee), events@),
{
    let mut i: usize = 0;
    while i < events.len()
        invariant
            i <= events.len(),
            *marquee == selection_tracked(*old(marquee), events@.take(i as int)),
        decreases events.len() - i,
    {
        proof {
            assert(events@.take(i + 1).drop_last() =~= events@.take(i as int));
        }
        start_drawing_selection(marquee, &events[i]);
        set_selection_size(marquee, &events[i]);
        despawn_selection(marquee, &events[i]);
        i += 1;
    }
    proof {
        assert(events@.take(events.len() as int) =~= events@);
    }
}

/// The pointer is on a unit: it is in the window, and the ray it shows passes
/// through the unit's bounds within reach.
pub open spec fn pointer_on(
    camera: CameraPose,
    viewport: Size2,
    cursor: Option<Point2>,
    bounds: Bounds,
) -> bool {
    match camera.pointer_ray(viewport, cursor) {
        Some(ray) => bounds.hit_by(ray),
        None => false,
    }
}

/// Tests whether the pointer is on a unit with the given bounds.
pub fn is_single_unit_selectable(
    camera: &CameraPose,
    viewport: Size2,
    cursor: Option<Point2>,
    unit_bounds: &Bounds,
) -> (r: bool)
    ensures
        r == pointer_on(*camera, viewport, cursor, *unit_bounds),
{
    match camera.viewport_to_world(viewport, cursor) {
        Some(ray) => unit_bounds.intersects_ray(&ray),
        None => false,
    }
}

impl Unit {
    /// Tests whether the pointer's ray passes through the unit within reach.
    pub fn is_pointed_at(&self, ray: &Option<Ray>) -> (r: bool)
        ensures
            r == self@.pointed_at(*ray),
    {
        match ray {
            Some(r) => self.bounds().intersects_ray(r),
            None => false,
        }
    }
}

/// Selects every unit under the pointer when the left button goes down. No
/// unit loses its selection by this.
pub fn select_unit(
    units: &mut Vec<Unit>,
    camera: &CameraPose,
    viewport: Size2,
    cursor: Option<Point2>,
    left_just_pressed: bool,
)
    ensures
        final(units)@.len() == old(units)@.len(),
        forall|i: int|
            0 <= i < old(units)@.len() ==> (#[trigger] final(units)@[i])@
                == old(units)@[i]@.after_press(
                camera.pointer_ray(viewport, cursor),
                left_just_pressed,
            ),
{
    let ray = camera.viewport_to_world(viewport, cursor);
    let mut i: usize = 0;
    while i < units.len()
        invariant
            i <= units.len(),
            units@.len() == old(units)@.len(),
            ray == camera.pointer_ray(viewport, cursor),
            forall|j: int|
                0 <= j < i ==> (#[trigger] units@[j])@ == old(units)@[j]@.after_press(
                    ray,
                    left_just_pressed,
                ),
            forall|j: int| i <= j < units@.len() ==> units@[j] == old(units)@[j],
        decreases units.len() - i,
    {
        if units[i].is_pointed_at(&ray) && left_just_pressed {
            units[i].selectable.is_selected = true;
        }
        i += 1;
    }
}

/// Takes the selection from every unit that is not under the pointer when
/// the left button comes up. Each unit is judged by itself. Where the pointer
/// has no ray, as when it is outside the window, no unit changes.
pub fn deselect_unit(
    units: &mut Vec<Unit>,
    camera: &CameraPose,
    viewport: Size2,
    cursor: Option<Point2>,
    left_just_released: bool,
)
    ensures
        final(units)@.len() == old(units)@.len(),
        forall|i: int|
            0 <= i < old(units)@.len() ==> (#[trigger] final(units)@[i])@
                == old(units)@[i]@.after_release(
                camera.pointer_ray(viewport, cursor),
                left_just_released,
            ),
{
    let ray = camera.viewport_to_world(viewport, cursor);
    let mut i: usize = 0;
    while i < units.len()
        invariant
            i <= units.len(),
            units@.len() == old(units)@.len(),
            ray == camera.pointer_ray(viewport, cursor),
            forall|j: int|
                0 <= j < i ==> (#[trigger] units@[j])@ == old(units)@[j]@.after_release(
                    ray,
                    left_just_released,
                ),
            forall|j: int| i <= j < units@.len() ==> units@[j] == old(units)@[j],
        decreases units.len() - i,
    {
        if left_just_released && ray.is_some() && !units[i].is_pointed_at(&ray) {
            units[i].selectable.is_selected = false;
        }
        i += 1;
    }
}

} // verus!
