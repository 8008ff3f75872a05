//! The pointer on the ground: the point of the ground that it shows, and the
//! position that is kept of it from frame to frame.

use vstd::prelude::*;
use crate::camera::CameraPose;
use crate::geometry::{Point2, Point3, Size2};
use crate::ground::Ground;

verus! {

/// The point of the ground that the pointer shows, if it shows one: the
/// pointer has a ray, and the ray hits the ground.
pub open spec fn ground_point(
    camera: CameraPose,
    viewport: Size2,
    cursor: Option<Point2>,
    ground: Ground,
) -> Option<Point3> {
    match camera.pointer_ray(viewport, cursor) {
        Some(ray) => ground.hit(ray),
        None => None,
    }
}

/// Projects the pointer onto the ground.
pub fn get_point_on_ground(
    camera: &CameraPose,
    viewport: Size2,
    cursor: Option<Point2>,
    ground: &Ground,
) -> (r: Option<Point3>)
    ensures
        r == ground_point(*camera, viewport, cursor, *ground),
{
    match camera.viewport_to_world(viewport, cursor) {
        Some(ray) => ground.cast_ray(&ray),
        None => None,
    }
}

/// What the pointer showed in a frame.
#[derive(Clone, Copy, Debug, PartialEq, Eq, Structural)]
pub enum CursorEvent {
    /// The pointer is over this point of the ground.
    OverGround(Point3),
    /// The pointer is outside the window or shows no point of the ground.
    OutOfBounds,
}

/// Reports what the pointer shows in this frame.
pub fn handle_cursor_over_ground(
    camera: &CameraPose,
    viewport: Size2,
    cursor: Option<Point2>,
    ground: &Ground,
) -> (r: CursorEvent)
    ensures
        r == match ground_point(*camera, viewport, cursor, *ground) {
            Some(p) => CursorEvent::OverGround(p),
            None => CursorEvent::OutOfBounds,
        },
{
    match get_point_on_ground(camera, viewport, cursor, ground) {
        Some(point) => CursorEvent::OverGround(point),
        None => CursorEvent::OutOfBounds,
    }
}

/// The pointer's place on the ground after one event: the point it is over,
/// or none once it has left the ground.
pub open spec fn position_after(position: Option<Point3>, event: CursorEvent) -> Option<Point3> {
    match event {
        CursorEvent::OverGround(p) => Some(p),
        CursorEvent::OutOfBounds => None,
    }
}

/// The pointer's place on the ground after a run of events, taken in order.
pub open spec fn position_tracked(
    position: Option<Point3>,
    events: Seq<CursorEvent>,
) -> Option<Point3>
    decreases events.len(),
{
    if events.len() == 0 {
        position
    } else {
        position_after(position_tracked(position, events.drop_last()), events.last())
    }
}

/// Keeps the pointer's place on the ground up to date with the events of a
/// frame.
pub fn update_cursor_position(position: &mut Option<Point3>, events: &Vec<CursorEvent>)
    ensures
        *final(position) == position_tracked(*old(position), events@),
{
    let mut i: usize = 0;
    while i < events.len()
        invariant
            i <= events.len(),
            *position == position_tracked(*old(position), events@.take(i as int)),
        decreases events.len() - i,
    {
        proof {
            assert(events@.take(i + 1).drop_last() =~= events@.take(i as int));
        }
        match events[i] {
            CursorEvent::OverGround(point) => {
                *position = Some(point);
            },
            CursorEvent::OutOfBounds => {
                *position = None;
            },
        }
        i += 1;
    }
    proof {
        assert(events@.take(events.len() as int) =~= events@);
    }
}

/// Where a mark is to be put for a right click: at the pointer's place on the
/// ground, if the button went down in this frame and the place is known.
pub fn spawn_move_mark(right_just_pressed: bool, position: Option<Point3>) -> (r: Option<Point3>)
    ensures
        r == if right_just_pressed {
            position
        } else {
            None
        },
{
    if right_just_pressed {
        position
    } else {
        None
    }
}

} // verus!
