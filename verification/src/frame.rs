//! One frame of the game: what the player's input of a frame does to every
//! unit, in the one order in which the steps of a frame run.

use vstd::prelude::*;
use crate::camera::CameraPose;
use crate::cursor::ground_point;
use crate::geometry::{Point2, Size2};
use crate::ground::Ground;
use crate::order::{handle_orders, send_move_order};
use crate::selection::{deselect_unit, select_unit};
use crate::unit::{move_units, Unit, UnitModel};

verus! {

/// What the player did in a frame, through which camera, and how long the
/// frame took.
#[derive(Clone, Copy, Debug, PartialEq, Eq, Structural)]
pub struct FrameInput {
    pub camera: CameraPose,
    /// Where the pointer is on the screen, if it is in the window.
    pub cursor: Option<Point2>,
    pub viewport: Size2,
    pub left_just_pressed: bool,
    pub left_just_released: bool,
    pub right_just_pressed: bool,
    pub elapsed_ms: u32,
}

/// A unit when the movement of a frame begins: selection has come first,
/// then the order of a right click, then the unit has taken up the oldest
/// order that waited.
pub open spec fn unit_before_step(unit: UnitModel, ground: Ground, input: FrameInput) -> UnitModel {
    let ray = input.camera.pointer_ray(input.viewport, input.cursor);
    unit.after_press(ray, input.left_just_pressed).after_release(
        ray,
        input.left_just_released,
    ).ordered(
        input.right_just_pressed,
        ground_point(input.camera, input.viewport, input.cursor, ground),
    ).after_orders()
}

/// A unit after a frame: what it is when the movement begins, moved.
pub open spec fn unit_after_frame(unit: UnitModel, ground: Ground, input: FrameInput) -> UnitModel {
    unit_before_step(unit, ground, input).after_step(input.elapsed_ms as int)
}

/// Runs one frame on all units.
pub fn run_frame(units: &mut Vec<Unit>, ground: &Ground, input: &FrameInput)
    ensures
        final(units)@.len() == old(units)@.len(),
        forall|i: int|
            0 <= i < old(units)@.len() ==> (#[trigger] final(units)@[i])@ == unit_after_frame(
                old(units)@[i]@,
                *ground,
                *input,
            ),
{
    let camera = &input.camera;
    select_unit(units, camera, input.viewport, input.cursor, input.left_just_pressed);
    let ghost selected = units@;
    deselect_unit(units, camera, input.viewport, input.cursor, input.left_just_released);
    let ghost deselected = units@;
    send_move_order(units, camera, input.viewport, input.cursor, ground, input.right_just_pressed);
    let ghost ordered = units@;
    handle_orders(units);
    let ghost taken = units@;
    move_units(units, input.elapsed_ms);
    proof {
        assert forall|i: int| 0 <= i < old(units)@.len() implies (#[trigger] units@[i])@
            == unit_after_frame(old(units)@[i]@, *ground, *input) by {
            let ray = camera.pointer_ray(input.viewport, input.cursor);
            assert(selected[i]@ == old(units)@[i]@.after_press(ray, input.left_just_pressed));
            assert(deselected[i]@ == selected[i]@.after_release(ray, input.left_just_released));
            assert(ordered[i]@ == deselected[i]@.ordered(
                input.right_just_pressed,
                ground_point(*camera, input.viewport, input.cursor, *ground),
            ));
            assert(taken[i]@ == ordered[i]@.after_orders());
            assert(units@[i]@ == taken[i]@.after_step(input.elapsed_ms as int));
        }
    }
}

} // verus!
