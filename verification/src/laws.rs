//! What holds of the library as a whole: properties that relate several of
//! its operations, each proved from the definitions the contracts use.

use vstd::prelude::*;
use crate::camera::CameraPose;
use crate::cursor::ground_point;
use crate::frame::{unit_after_frame, unit_before_step, FrameInput};
use crate::geometry::{
    dist_sq, lemma_product_bound, sq, Point2, Point3, Ray, Size2, MAX_RAY_LENGTH,
};
use crate::ground::Ground;
use crate::order::Order;
use crate::unit::{
    arrives, carried, lemma_root_ceiling_exists, lemma_root_ceiling_least, lemma_step_gains,
    lemma_toward_bounds, planar_dist_sq, root_ceiling, stepped, toward, way, UnitModel, UnitState,
    UNIT_SPEED,
};

verus! {

/// The point that the pointer shows on the ground lies on the ground, and no
/// farther from the camera than `MAX_RAY_LENGTH`; and the pointer shows one
/// only where it has a ray that faces the ground.
pub proof fn law_projection_bound(
    camera: CameraPose,
    viewport: Size2,
    cursor: Option<Point2>,
    ground: Ground,
)
    requires
        ground_point(camera, viewport, cursor, ground) is Some,
    ensures
        ground.contains(ground_point(camera, viewport, cursor, ground)->0),
        dist_sq(camera.position, ground_point(camera, viewport, cursor, ground)->0) <= sq(
            MAX_RAY_LENGTH as int,
        ),
        cursor is Some,
        camera.pointer_ray(viewport, cursor) is Some,
        ground.faces(camera.pointer_ray(viewport, cursor)->0),
{
}

/// The point where a ray hits the ground is the point where the ray crosses
/// the ground's plane, rounded down by less than one step along x and along z.
pub proof fn law_hit_on_ray(ground: Ground, ray: Ray)
    requires
        ground.hit(ray) is Some,
    ensures
        ({
            let p = ground.hit(ray)->0;
            let pitch = Ground::pitch(ray);
            let climb = ground.climb(ray);
            &&& pitch > 0
            &&& climb >= 0
            &&& 0 <= (ray.origin.x * pitch + ray.direction.x * climb) - p.x * pitch < pitch
            &&& 0 <= (ray.origin.z * pitch + ray.direction.z * climb) - p.z * pitch < pitch
        }),
{
    let p = ground.hit(ray)->0;
    let pitch = Ground::pitch(ray);
    let climb = ground.climb(ray);
    let ax = ray.direction.x * climb;
    let az = ray.direction.z * climb;
    vstd::arithmetic::div_mod::lemma_fundamental_div_mod(ax, pitch);
    vstd::arithmetic::div_mod::lemma_fundamental_div_mod(az, pitch);
    assert(p.x == ray.origin.x + ax / pitch);
    assert(p.z == ray.origin.z + az / pitch);
    assert(p.x * pitch == ray.origin.x * pitch + pitch * (ax / pitch)) by (nonlinear_arith)
        requires
            p.x == ray.origin.x + ax / pitch,
    ;
    assert(p.z * pitch == ray.origin.z * pitch + pitch * (az / pitch)) by (nonlinear_arith)
        requires
            p.z == ray.origin.z + az / pitch,
    ;
}

/// A unit after a run of frames.
pub open spec fn after_frames(unit: UnitModel, ground: Ground, inputs: Seq<FrameInput>) -> UnitModel
    decreases inputs.len(),
{
    if inputs.len() == 0 {
        unit
    } else {
        unit_after_frame(after_frames(unit, ground, inputs.drop_last()), ground, inputs.last())
    }
}

/// The target of an order.
pub open spec fn target_of(order: Order) -> Point3 {
    match order {
        Order::Move(t) => t,
    }
}

/// Of the orders that `unit` had, all but the first `taken` still wait at the
/// head of the queue of `now`, in their order.
pub open spec fn still_waiting(unit: UnitModel, taken: int, now: UnitModel) -> bool {
    &&& now.orders.len() >= unit.orders.len() - taken
    &&& forall|j: int|
        0 <= j < unit.orders.len() - taken ==> #[trigger] now.orders[j] == unit.orders[taken + j]
}

/// What the input of a frame does before the unit takes up an order leaves
/// the orders that wait where they are; at most one joins them at the back.
proof fn lemma_input_keeps_orders(unit: UnitModel, ground: Ground, input: FrameInput)
    ensures
        ({
            let ray = input.camera.pointer_ray(input.viewport, input.cursor);
            let given = unit.after_press(ray, input.left_just_pressed).after_release(
                ray,
                input.left_just_released,
            ).ordered(
                input.right_just_pressed,
                ground_point(input.camera, input.viewport, input.cursor, ground),
            );
            &&& given.orders.len() >= unit.orders.len()
            &&& forall|j: int| 0 <= j < unit.orders.len() ==> #[trigger] given.orders[j] == unit.orders[j]
            &&& unit_before_step(unit, ground, input) == given.after_orders()
        }),
{
}

/// Frames take orders up one at a time and in the order in which they came:
/// after `k` frames, whatever the player did in them and wherever the unit
/// has got to, the first `k` orders have left the queue and the others still
/// wait at its head.
pub proof fn law_frames_drain_in_order(unit: UnitModel, ground: Ground, inputs: Seq<FrameInput>)
    requires
        inputs.len() <= unit.orders.len(),
    ensures
        still_waiting(unit, inputs.len() as int, after_frames(unit, ground, inputs)),
{
    if inputs.len() > 0 {
        law_queue_is_fifo(unit, ground, inputs.drop_last(), inputs.last());
    }
}

/// First in, first out: the order at place `k` of the queue is the one that
/// the unit takes up in frame `k + 1`, whatever it was doing and whatever
/// orders have come in since, and the orders behind it keep waiting.
pub proof fn law_queue_is_fifo(
    unit: UnitModel,
    ground: Ground,
    inputs: Seq<FrameInput>,
    next: FrameInput,
)
    requires
        inputs.len() < unit.orders.len(),
    ensures
        unit_before_step(after_frames(unit, ground, inputs), ground, next).state
            == UnitState::Moving(target_of(unit.orders[inputs.len() as int])),
        still_waiting(
            unit,
            inputs.len() as int + 1,
            unit_before_step(after_frames(unit, ground, inputs), ground, next),
        ),
        still_waiting(
            unit,
            inputs.len() as int + 1,
            unit_after_frame(after_frames(unit, ground, inputs), ground, next),
        ),
    decreases inputs.len(),
{
    let k = inputs.len() as int;
    if k > 0 {
        law_queue_is_fifo(unit, ground, inputs.drop_last(), inputs.last());
    }
    let before = after_frames(unit, ground, inputs);
    assert(still_waiting(unit, k, before));
    lemma_input_keeps_orders(before, ground, next);
    let ray = next.camera.pointer_ray(next.viewport, next.cursor);
    let given = before.after_press(ray, next.left_just_pressed).after_release(
        ray,
        next.left_just_released,
    ).ordered(
        next.right_just_pressed,
        ground_point(next.camera, next.viewport, next.cursor, ground),
    );
    assert(given.orders[0] == before.orders[0]);
    assert(before.orders[0] == unit.orders[k + 0]);
    let taken = unit_before_step(before, ground, next);
    assert forall|j: int| 0 <= j < unit.orders.len() - (k + 1) implies #[trigger] taken.orders[j]
        == unit.orders[k + 1 + j] by {
        assert(taken.orders[j] == given.orders[j + 1]);
        assert(given.orders[j + 1] == before.orders[j + 1]);
        assert(before.orders[j + 1] == unit.orders[k + (j + 1)]);
    }
}

/// An order that a unit is given waits behind all that it has, and leaves
/// what the unit is doing untouched.
pub proof fn law_order_waits_its_turn(unit: UnitModel, target: Point3)
    requires
        unit.selected,
    ensures
        unit.ordered(true, Some(target)).orders == unit.orders.push(Order::Move(target)),
        unit.ordered(true, Some(target)).state == unit.state,
        unit.ordered(true, Some(target)).position == unit.position,
        unit.ordered(true, None) == unit,
        unit.ordered(false, Some(target)) == unit,
{
}

/// Selecting is idempotent: a second press at the same place changes
/// nothing, so a unit is never selected twice over.
pub proof fn law_selection_idempotent(unit: UnitModel, ray: Option<Ray>)
    ensures
        unit.after_press(ray, true).after_press(ray, true) == unit.after_press(ray, true),
        unit.pointed_at(ray) ==> unit.after_press(ray, true).selected,
        !unit.pointed_at(ray) ==> unit.after_press(ray, true) == unit,
{
}

/// Releasing the button at a place of the screen where no unit is clears the
/// selection of every unit; releasing it over a selected unit leaves that
/// unit selected; and a release while the pointer has no ray, as when it is
/// outside the window, changes nothing.
pub proof fn law_deselection_boundary(unit: UnitModel, ray: Option<Ray>)
    ensures
        ray is Some && !unit.pointed_at(ray) ==> !unit.after_release(ray, true).selected,
        unit.pointed_at(ray) ==> unit.after_release(ray, true) == unit,
        ray is None ==> unit.after_release(ray, true) == unit,
        unit.after_release(ray, false) == unit,
{
}

/// A frame long enough for the unit to cover the way to its target puts the
/// unit on the target and at rest.
pub proof fn law_movement_converges(unit: UnitModel, target: Point3, elapsed_ms: int)
    requires
        unit.state == UnitState::Moving(target),
        planar_dist_sq(unit.position, target) <= sq(unit.allowance(elapsed_ms)),
    ensures
        unit.after_step(elapsed_ms).state == UnitState::Idle,
        unit.after_step(elapsed_ms).position == (Point3 {
            x: target.x,
            y: unit.position.y,
            z: target.z,
        }),
        unit.after_step(elapsed_ms).orders == unit.orders,
{
}

/// A fleet after the left button went down with the pointer's ray as given.
pub open spec fn fleet_after_press(fleet: Seq<UnitModel>, ray: Option<Ray>) -> Seq<UnitModel> {
    Seq::new(fleet.len(), |i: int| fleet[i].after_press(ray, true))
}

/// A fleet after the left button came up with the pointer's ray as given.
pub open spec fn fleet_after_release(fleet: Seq<UnitModel>, ray: Option<Ray>) -> Seq<UnitModel> {
    Seq::new(fleet.len(), |i: int| fleet[i].after_release(ray, true))
}

/// The number of selected units of a fleet.
pub open spec fn selected_count(fleet: Seq<UnitModel>) -> nat
    decreases fleet.len(),
{
    if fleet.len() == 0 {
        0
    } else {
        selected_count(fleet.drop_last()) + if fleet.last().selected {
            1nat
        } else {
            0nat
        }
    }
}

/// Pressing twice at one place selects what pressing once selects: the fleet
/// is the same after the second press, and so is the number of selected
/// units.
pub proof fn law_press_twice_selects_once(fleet: Seq<UnitModel>, ray: Option<Ray>)
    ensures
        fleet_after_press(fleet_after_press(fleet, ray), ray) == fleet_after_press(fleet, ray),
        selected_count(fleet_after_press(fleet_after_press(fleet, ray), ray)) == selected_count(
            fleet_after_press(fleet, ray),
        ),
{
    assert(fleet_after_press(fleet_after_press(fleet, ray), ray) =~= fleet_after_press(fleet, ray));
}

/// A fleet of which no unit is selected counts no selected unit.
proof fn lemma_none_selected_counts_zero(fleet: Seq<UnitModel>)
    requires
        forall|i: int| 0 <= i < fleet.len() ==> !(#[trigger] fleet[i]).selected,
    ensures
        selected_count(fleet) == 0,
    decreases fleet.len(),
{
    if fleet.len() > 0 {
        let rest = fleet.drop_last();
        assert forall|i: int| 0 <= i < rest.len() implies !(#[trigger] rest[i]).selected by {
            assert(rest[i] == fleet[i]);
        }
        lemma_none_selected_counts_zero(rest);
    }
}

/// Releasing the button at a place of the screen where the pointer is on no
/// unit leaves no unit of the fleet selected.
pub proof fn law_release_over_nothing_clears(fleet: Seq<UnitModel>, ray: Option<Ray>)
    requires
        ray is Some,
        forall|i: int| 0 <= i < fleet.len() ==> !(#[trigger] fleet[i]).pointed_at(ray),
    ensures
        forall|i: int|
            0 <= i < fleet.len() ==> !(#[trigger] fleet_after_release(fleet, ray)[i]).selected,
        selected_count(fleet_after_release(fleet, ray)) == 0,
{
    let after = fleet_after_release(fleet, ray);
    assert forall|i: int| 0 <= i < after.len() implies !(#[trigger] after[i]).selected by {
        assert(!fleet[i].pointed_at(ray));
    }
    lemma_none_selected_counts_zero(after);
}

/// A frame in which the pointer is outside the window selects and deselects
/// nothing and hands out no order, whatever the buttons did.
pub proof fn law_pointer_outside_changes_nothing(
    unit: UnitModel,
    camera: CameraPose,
    viewport: Size2,
    ground: Ground,
    left_just_pressed: bool,
    left_just_released: bool,
    right_just_pressed: bool,
)
    ensures
        camera.pointer_ray(viewport, None) is None,
        ground_point(camera, viewport, None, ground) is None,
        unit.after_press(camera.pointer_ray(viewport, None), left_just_pressed) == unit,
        unit.after_release(camera.pointer_ray(viewport, None), left_just_released) == unit,
        unit.ordered(right_just_pressed, ground_point(camera, viewport, None, ground)) == unit,
{
}

/// Every target that a unit moves to or has an order for lies on the ground.
pub open spec fn targets_on_ground(unit: UnitModel, ground: Ground) -> bool {
    &&& unit.state matches UnitState::Moving(t) ==> ground.contains(t)
    &&& forall|i: int| 0 <= i < unit.orders.len() ==> ground.contains(target_of(#[trigger] unit.orders[i]))
}

/// Units only ever head for points of the ground: a right click hands out a
/// point that the pointer shows on the ground, and neither taking up an
/// order, nor moving, nor selecting brings in any other target.
pub proof fn law_targets_stay_on_ground(
    unit: UnitModel,
    ground: Ground,
    camera: CameraPose,
    viewport: Size2,
    cursor: Option<Point2>,
    pressed: bool,
    ray: Option<Ray>,
    elapsed_ms: int,
)
    requires
        targets_on_ground(unit, ground),
    ensures
        targets_on_ground(
            unit.ordered(pressed, ground_point(camera, viewport, cursor, ground)),
            ground,
        ),
        targets_on_ground(unit.after_orders(), ground),
        targets_on_ground(unit.after_step(elapsed_ms), ground),
        targets_on_ground(unit.after_press(ray, pressed), ground),
        targets_on_ground(unit.after_release(ray, pressed), ground),
{
    let taken = unit.after_orders();
    if unit.orders.len() > 0 {
        assert(ground.contains(target_of(unit.orders[0])));
        assert forall|i: int| 0 <= i < taken.orders.len() implies ground.contains(
            target_of(#[trigger] taken.orders[i]),
        ) by {
            assert(taken.orders[i] == unit.orders[i + 1]);
        }
    }
    let given = unit.ordered(pressed, ground_point(camera, viewport, cursor, ground));
    assert forall|i: int| 0 <= i < given.orders.len() implies ground.contains(
        target_of(#[trigger] given.orders[i]),
    ) by {
        if i < unit.orders.len() {
            assert(given.orders[i] == unit.orders[i]);
        }
    }
}

/// A unit after a run of movement frames, one for each entry of `elapsed`.
pub open spec fn after_steps(unit: UnitModel, elapsed: Seq<int>) -> UnitModel
    decreases elapsed.len(),
{
    if elapsed.len() == 0 {
        unit
    } else {
        after_steps(unit, elapsed.drop_last()).after_step(elapsed.last())
    }
}

/// The way that a unit's speed allows it in a run of frames.
pub open spec fn total_reach(elapsed: Seq<int>) -> int
    decreases elapsed.len(),
{
    if elapsed.len() == 0 {
        0
    } else {
        total_reach(elapsed.drop_last()) + UNIT_SPEED * elapsed.last()
    }
}

/// The way between two points is a number from zero to 2^33 whose square
/// reaches the squared distance.
proof fn lemma_way_bounds(pos: Point3, target: Point3)
    ensures
        0 <= way(pos, target) <= 0x2_0000_0000,
        0 <= planar_dist_sq(pos, target) <= way(pos, target) * way(pos, target),
{
    let dx = target.x - pos.x;
    let dz = target.z - pos.z;
    let far = planar_dist_sq(pos, target);
    lemma_product_bound(dx, dx, 0x1_0000_0000, 0x1_0000_0000);
    lemma_product_bound(dz, dz, 0x1_0000_0000, 0x1_0000_0000);
    assert(dx * dx >= 0 && dz * dz >= 0) by (nonlinear_arith);
    assert(0x2_0000_0000 * 0x2_0000_0000 == 0x4_0000_0000_0000_0000) by (nonlinear_arith);
    lemma_root_ceiling_exists(far);
    lemma_root_ceiling_least(0x2_0000_0000, far);
}

/// Through any run of frames a moving unit keeps its height and its orders,
/// and either is still on its way and no farther from its target than at
/// the start, or rests on the target.
pub proof fn law_frames_keep_approaching(unit: UnitModel, target: Point3, elapsed: Seq<int>)
    requires
        unit.state == UnitState::Moving(target),
        forall|i: int| 0 <= i < elapsed.len() ==> elapsed[i] >= 0,
    ensures
        after_steps(unit, elapsed).position.y == unit.position.y,
        after_steps(unit, elapsed).orders == unit.orders,
        ({
            let u = after_steps(unit, elapsed);
            ||| u.state == UnitState::Moving(target) && planar_dist_sq(u.position, target)
                <= planar_dist_sq(unit.position, target)
            ||| u.state == UnitState::Idle && u.position.x == target.x && u.position.z == target.z
        }),
    decreases elapsed.len(),
{
    if elapsed.len() > 0 {
        let earlier = elapsed.drop_last();
        assert forall|i: int| 0 <= i < earlier.len() implies earlier[i] >= 0 by {
            assert(earlier[i] == elapsed[i]);
        }
        law_frames_keep_approaching(unit, target, earlier);
        let before = after_steps(unit, earlier);
        let e = elapsed.last();
        assert(e >= 0) by {
            assert(elapsed[elapsed.len() - 1] >= 0);
        }
        if before.state == UnitState::Moving(target) {
            law_step_approaches(before.position, target, before.allowance(e));
        }
    }
}

/// Nothing of the way that the frames allow is lost: while the unit is on
/// its way, what is left of the way and what the frames have allowed add up
/// to no more than the way at the start and what the unit carries unspent.
proof fn lemma_frames_keep_account(unit: UnitModel, target: Point3, elapsed: Seq<int>)
    requires
        unit.state == UnitState::Moving(target),
        forall|i: int| 0 <= i < elapsed.len() ==> elapsed[i] >= 0,
    ensures
        ({
            let u = after_steps(unit, elapsed);
            ||| u.state == UnitState::Idle && u.position.x == target.x && u.position.z == target.z
            ||| u.state == UnitState::Moving(target) && way(u.position, target) + total_reach(
                elapsed,
            ) <= way(unit.position, target) + u.unspent
        }),
    decreases elapsed.len(),
{
    if elapsed.len() > 0 {
        let earlier = elapsed.drop_last();
        assert forall|i: int| 0 <= i < earlier.len() implies earlier[i] >= 0 by {
            assert(earlier[i] == elapsed[i]);
        }
        lemma_frames_keep_account(unit, target, earlier);
        let before = after_steps(unit, earlier);
        let e = elapsed.last();
        assert(e >= 0) by {
            assert(elapsed[elapsed.len() - 1] >= 0);
        }
        let reach = before.allowance(e);
        if before.state == UnitState::Moving(target) && !arrives(before.position, target, reach) {
            let next = stepped(before.position, target, reach);
            lemma_way_bounds(before.position, target);
            lemma_way_bounds(next, target);
            let dist = way(before.position, target);
            assert(reach < dist) by (nonlinear_arith)
                requires
                    reach * reach < planar_dist_sq(before.position, target),
                    planar_dist_sq(before.position, target) <= dist * dist,
                    reach >= 0,
                    dist >= 0,
            ;
            let kept = carried(reach, dist - way(next, target));
            assert(0 <= kept <= 0x4_0000_0000);
            assert(before.after_step(e).unspent == kept);
        }
    }
}

/// Movement converges: once the frames have added up to the time that the
/// way takes at the unit's speed, the unit is on its target and at rest.
/// The way counts in whole steps, rounded up.
pub proof fn law_movement_converges_in_time(unit: UnitModel, target: Point3, elapsed: Seq<int>)
    requires
        unit.state == UnitState::Moving(target),
        elapsed.len() > 0,
        forall|i: int| 0 <= i < elapsed.len() ==> elapsed[i] >= 0,
        total_reach(elapsed) >= way(unit.position, target),
    ensures
        after_steps(unit, elapsed).state == UnitState::Idle,
        after_steps(unit, elapsed).position == (Point3 {
            x: target.x,
            y: unit.position.y,
            z: target.z,
        }),
        after_steps(unit, elapsed).orders == unit.orders,
{
    let earlier = elapsed.drop_last();
    assert forall|i: int| 0 <= i < earlier.len() implies earlier[i] >= 0 by {
        assert(earlier[i] == elapsed[i]);
    }
    lemma_frames_keep_account(unit, target, earlier);
    law_frames_keep_approaching(unit, target, earlier);
    law_frames_keep_approaching(unit, target, elapsed);
    let before = after_steps(unit, earlier);
    let e = elapsed.last();
    assert(e >= 0) by {
        assert(elapsed[elapsed.len() - 1] >= 0);
    }
    if before.state == UnitState::Moving(target) {
        let reach = before.allowance(e);
        lemma_way_bounds(before.position, target);
        let dist = way(before.position, target);
        assert(reach >= dist);
        assert(dist * dist <= reach * reach) by (nonlinear_arith)
            requires
                0 <= dist <= reach,
        ;
        assert(arrives(before.position, target, reach));
    }
}

/// Frames add up to a way that is not negative.
proof fn lemma_total_reach_not_negative(elapsed: Seq<int>)
    requires
        forall|i: int| 0 <= i < elapsed.len() ==> elapsed[i] >= 0,
    ensures
        total_reach(elapsed) >= 0,
    decreases elapsed.len(),
{
    if elapsed.len() > 0 {
        let earlier = elapsed.drop_last();
        assert forall|i: int| 0 <= i < earlier.len() implies earlier[i] >= 0 by {
            assert(earlier[i] == elapsed[i]);
        }
        lemma_total_reach_not_negative(earlier);
        assert(elapsed[elapsed.len() - 1] >= 0);
    }
}

/// The same without rounding: once the unit's speed times the time of the
/// frames is no less than the distance to the target, the unit is on its
/// target and at rest.
pub proof fn law_movement_converges_by_distance(
    unit: UnitModel,
    target: Point3,
    elapsed: Seq<int>,
)
    requires
        unit.state == UnitState::Moving(target),
        elapsed.len() > 0,
        forall|i: int| 0 <= i < elapsed.len() ==> elapsed[i] >= 0,
        planar_dist_sq(unit.position, target) <= sq(total_reach(elapsed)),
    ensures
        after_steps(unit, elapsed).state == UnitState::Idle,
        after_steps(unit, elapsed).position == (Point3 {
            x: target.x,
            y: unit.position.y,
            z: target.z,
        }),
{
    lemma_total_reach_not_negative(elapsed);
    lemma_way_bounds(unit.position, target);
    lemma_root_ceiling_least(total_reach(elapsed), planar_dist_sq(unit.position, target));
    law_movement_converges_in_time(unit, target, elapsed);
}

/// A moving unit keeps to its speed: a frame takes it no farther than its
/// speed allows in the time of the frame, but for what it carries unspent
/// from earlier frames; and after a frame it carries no more than two
/// steps.
pub proof fn law_speed_is_kept(unit: UnitModel, target: Point3, elapsed_ms: int)
    requires
        unit.state == UnitState::Moving(target),
        elapsed_ms >= 0,
    ensures
        planar_dist_sq(unit.position, unit.after_step(elapsed_ms).position) <= sq(
            unit.unspent + UNIT_SPEED * elapsed_ms,
        ),
        unit.after_step(elapsed_ms).unspent <= 2,
{
    let reach = unit.allowance(elapsed_ms);
    law_step_within_reach(unit.position, target, reach);
    if !arrives(unit.position, target, reach) {
        let next = stepped(unit.position, target, reach);
        lemma_step_gains(unit.position, target, reach);
        lemma_way_bounds(unit.position, target);
        lemma_way_bounds(next, target);
    }
}

/// A step is no longer than the reach it is given.
pub proof fn law_step_within_reach(pos: Point3, target: Point3, reach: int)
    requires
        reach >= 0,
    ensures
        planar_dist_sq(pos, stepped(pos, target, reach)) <= sq(reach),
{
    let far = planar_dist_sq(pos, target);
    let dx = target.x - pos.x;
    let dz = target.z - pos.z;
    if !arrives(pos, target, reach) {
        assert(far >= 0 && dx * dx <= far && dz * dz <= far) by (nonlinear_arith)
            requires
                far == dx * dx + dz * dz,
        ;
        lemma_root_ceiling_exists(far);
        let dist = root_ceiling(far);
        assert(reach < dist) by (nonlinear_arith)
            requires
                reach * reach < far,
                far <= dist * dist,
                reach >= 0,
                dist >= 0,
        ;
        lemma_share_squared(dx, reach, dist);
        lemma_share_squared(dz, reach, dist);
        lemma_toward_bounds(dx, reach, dist);
        lemma_toward_bounds(dz, reach, dist);
        let sx = toward(dx, reach, dist);
        let sz = toward(dz, reach, dist);
        let after = stepped(pos, target, reach);
        assert(after.x - pos.x == sx);
        assert(after.z - pos.z == sz);
        let dd = dist * dist;
        let rr = reach * reach;
        let moved = planar_dist_sq(pos, after);
        assert(moved == sx * sx + sz * sz);
        assert(dd * (sx * sx) + dd * (sz * sz) == dd * moved) by (nonlinear_arith)
            requires
                moved == sx * sx + sz * sz,
        ;
        assert(rr * (dx * dx) + rr * (dz * dz) == rr * far) by (nonlinear_arith)
            requires
                far == dx * dx + dz * dz,
        ;
        assert(rr * far <= rr * dd) by (nonlinear_arith)
            requires
                far <= dd,
                rr == reach * reach,
        ;
        assert(dd * moved <= dd * rr) by (nonlinear_arith)
            requires
                dd * moved <= rr * far,
                rr * far <= rr * dd,
        ;
        assert(moved <= rr) by (nonlinear_arith)
            requires
                dd * moved <= dd * rr,
                dd == dist * dist,
                dist > 0,
        ;
    }
}

/// The square of a share of a step, scaled by the way.
proof fn lemma_share_squared(delta: int, reach: int, dist: int)
    requires
        0 <= reach < dist,
    ensures
        (dist * dist) * (toward(delta, reach, dist) * toward(delta, reach, dist)) <= (reach
            * reach) * (delta * delta),
{
    let a = if delta >= 0 {
        delta
    } else {
        -delta
    };
    let whole = a * reach;
    let q = whole / dist;
    vstd::arithmetic::div_mod::lemma_fundamental_div_mod(whole, dist);
    lemma_toward_bounds(delta, reach, dist);
    assert(q >= 0 && dist * q <= whole) by (nonlinear_arith)
        requires
            whole == dist * q + (whole % dist),
            0 <= whole % dist < dist,
            whole == a * reach,
            a >= 0,
            reach >= 0,
            dist > 0,
    ;
    let u = dist * q;
    assert(0 <= u) by (nonlinear_arith)
        requires
            u == dist * q,
            q >= 0,
            dist > 0,
    ;
    assert(u * u <= whole * whole) by (nonlinear_arith)
        requires
            0 <= u <= whole,
    ;
    assert(u * u == (dist * dist) * (q * q)) by (nonlinear_arith)
        requires
            u == dist * q,
    ;
    assert(whole * whole == (reach * reach) * (a * a)) by (nonlinear_arith)
        requires
            whole == a * reach,
    ;
    assert(a * a == delta * delta) by (nonlinear_arith)
        requires
            a == delta || a == -delta,
    ;
    let t = toward(delta, reach, dist);
    assert(t * t == q * q) by (nonlinear_arith)
        requires
            t == q || t == -q,
    ;
}

/// `v` lies between `a` and `b`, ends included.
pub open spec fn between(a: int, v: int, b: int) -> bool {
    a <= v <= b || b <= v <= a
}

/// A step never passes the target nor leads away from it: along each axis of
/// the ground plane the unit ends between where it was and its target, its
/// height stays, and it is no farther from the target than before.
pub proof fn law_step_approaches(pos: Point3, target: Point3, reach: int)
    requires
        reach >= 0,
    ensures
        between(pos.x as int, stepped(pos, target, reach).x as int, target.x as int),
        between(pos.z as int, stepped(pos, target, reach).z as int, target.z as int),
        stepped(pos, target, reach).y == pos.y,
        planar_dist_sq(stepped(pos, target, reach), target) <= planar_dist_sq(pos, target),
{
    let p = stepped(pos, target, reach);
    if !arrives(pos, target, reach) {
        let far = planar_dist_sq(pos, target);
        assert(far >= 0) by (nonlinear_arith)
            requires
                far == (target.x - pos.x) * (target.x - pos.x) + (target.z - pos.z) * (target.z
                    - pos.z),
        ;
        lemma_root_ceiling_exists(far);
        let dist = root_ceiling(far);
        assert(reach < dist) by (nonlinear_arith)
            requires
                reach * reach < far,
                far <= dist * dist,
                reach >= 0,
                dist >= 0,
        ;
        lemma_toward_bounds(target.x - pos.x, reach, dist);
        lemma_toward_bounds(target.z - pos.z, reach, dist);
    }
    let ax = target.x - pos.x;
    let bx = target.x - p.x;
    let az = target.z - pos.z;
    let bz = target.z - p.z;
    assert(bx * bx <= ax * ax) by (nonlinear_arith)
        requires
            (0 <= bx <= ax) || (ax <= bx <= 0),
    ;
    assert(bz * bz <= az * az) by (nonlinear_arith)
        requires
            (0 <= bz <= az) || (az <= bz <= 0),
    ;
}

} // verus!
