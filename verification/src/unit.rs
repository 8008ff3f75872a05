//! Units: what a unit is, the state machine that moves it, and how it is
//! shown.

use vstd::prelude::*;
use crate::bounds::Bounds;
use crate::geometry::{lemma_product_bound, sq, Point3, Ray};
use crate::order::{Order, Orders};
use crate::selection::Selectable;

verus! {

/// Half the side of the cube that bounds a unit.
pub const UNIT_HALF_SIZE: i32 = 250;

/// How far a unit moves per millisecond: five world units per second.
pub const UNIT_SPEED: i64 = 5;

/// What a unit is doing.
#[derive(Clone, Copy, Debug, PartialEq, Eq, Structural)]
pub enum UnitState {
    /// On its way to a point of the ground.
    Moving(Point3),
    /// At rest until an order arrives.
    Idle,
}

/// The direction a unit faces in the ground plane. Only the direction of the
/// pair counts, not its length.
#[derive(Clone, Copy, Debug, PartialEq, Eq, Structural)]
pub struct Heading {
    pub x: i64,
    pub z: i64,
}

/// How a unit is to be drawn.
#[derive(Clone, Copy, Debug, PartialEq, Eq, Structural)]
pub enum Highlight {
    Normal,
    Selected,
}

/// A unit of the player.
#[derive(Clone, Debug)]
pub struct Unit {
    pub id: u64,
    pub position: Point3,
    pub heading: Heading,
    pub selectable: Selectable,
    pub orders: Orders,
    pub state: UnitState,
    /// The way that the unit was allowed in the frames of its move so far and
    /// that rounding has kept it from covering. The next frame adds it to
    /// what the unit may cover, so that nothing is lost over a move.
    pub unspent: u64,
}

/// The value of a unit: its fields, with the queue of orders as a sequence.
pub struct UnitModel {
    pub id: u64,
    pub position: Point3,
    pub heading: Heading,
    pub selected: bool,
    pub orders: Seq<Order>,
    pub state: UnitState,
    pub unspent: u64,
}

/// The squared distance of two points, heights left aside.
pub open spec fn planar_dist_sq(a: Point3, b: Point3) -> int {
    sq(b.x - a.x) + sq(b.z - a.z)
}

/// `r` is the square root of `n`, rounded up.
pub open spec fn is_root_ceiling(r: int, n: int) -> bool {
    &&& r >= 0
    &&& n <= r * r
    &&& r > 0 ==> (r - 1) * (r - 1) < n
}

/// The square root of `n`, rounded up.
pub open spec fn root_ceiling(n: int) -> int {
    choose|r: int| is_root_ceiling(r, n)
}

/// The share of a step of length `reach` that falls on an axis along which
/// the target is `delta` away, the target being `dist` away in all. The
/// share is rounded towards zero.
pub open spec fn toward(delta: int, reach: int, dist: int) -> int {
    if delta >= 0 {
        (delta * reach) / dist
    } else {
        -((-delta * reach) / dist)
    }
}

/// A step of length `reach` from `pos` reaches `target`: the two are no
/// farther apart in the ground plane than `reach`.
pub open spec fn arrives(pos: Point3, target: Point3, reach: int) -> bool {
    planar_dist_sq(pos, target) <= sq(reach)
}

/// Where a step of length `reach` towards `target` takes a unit from `pos`:
/// onto the target if the step reaches it, else along the straight line to
/// it. The height stays.
pub open spec fn stepped(pos: Point3, target: Point3, reach: int) -> Point3 {
    if arrives(pos, target, reach) {
        Point3 { x: target.x, y: pos.y, z: target.z }
    } else {
        let dist = root_ceiling(planar_dist_sq(pos, target));
        Point3 {
            x: (pos.x + toward(target.x - pos.x, reach, dist)) as i32,
            y: pos.y,
            z: (pos.z + toward(target.z - pos.z, reach, dist)) as i32,
        }
    }
}

/// The length of the way from `pos` to `target` in the ground plane, rounded
/// up to a whole step.
pub open spec fn way(pos: Point3, target: Point3) -> int {
    root_ceiling(planar_dist_sq(pos, target))
}

/// What is carried over of a frame's allowance `reach`, when the way has
/// become shorter by `gain`.
pub open spec fn carried(reach: int, gain: int) -> int {
    if gain >= reach {
        0
    } else {
        reach - gain
    }
}

/// The direction from `pos` to `target` in the ground plane, or `heading`
/// where the two lie above each other.
pub open spec fn facing(pos: Point3, target: Point3, heading: Heading) -> Heading {
    if target.x == pos.x && target.z == pos.z {
        heading
    } else {
        Heading { x: (target.x - pos.x) as i64, z: (target.z - pos.z) as i64 }
    }
}

impl UnitModel {
    /// The unit after the frame's chance to take up an order: the oldest one
    /// that waits leaves the queue and sets the unit moving to its target,
    /// whatever the unit was doing, with nothing carried over from an earlier
    /// move; with no order waiting, nothing changes.
    pub open spec fn after_orders(self) -> UnitModel {
        if self.orders.len() > 0 {
            match self.orders[0] {
                Order::Move(target) => UnitModel {
                    orders: self.orders.skip(1),
                    state: UnitState::Moving(target),
                    unspent: 0,
                    ..self
                },
            }
        } else {
            self
        }
    }

    /// The unit after a right click: a selected unit gets the order to move
    /// to the point the click showed, if it showed one.
    pub open spec fn ordered(self, right_just_pressed: bool, target: Option<Point3>) -> UnitModel {
        match target {
            Some(t) => if self.selected && right_just_pressed {
                UnitModel { orders: self.orders.push(Order::Move(t)), ..self }
            } else {
                self
            },
            None => self,
        }
    }

    /// What a moving unit may cover in a frame of `elapsed_ms` milliseconds:
    /// its speed times the time, and what earlier frames left unspent.
    pub open spec fn allowance(self, elapsed_ms: int) -> int {
        self.unspent + UNIT_SPEED * elapsed_ms
    }

    /// The unit after a frame of `elapsed_ms` milliseconds: a moving unit
    /// turns to its target and steps towards it as far as its allowance
    /// goes, and rests once it is there. What the step leaves of the
    /// allowance, measured by how much shorter the way has become, is
    /// carried over to the next frame.
    pub open spec fn after_step(self, elapsed_ms: int) -> UnitModel {
        match self.state {
            UnitState::Idle => self,
            UnitState::Moving(target) => {
                let reach = self.allowance(elapsed_ms);
                let next = stepped(self.position, target, reach);
                if arrives(self.position, target, reach) {
                    UnitModel {
                        position: next,
                        heading: facing(self.position, target, self.heading),
                        state: UnitState::Idle,
                        unspent: 0,
                        ..self
                    }
                } else {
                    UnitModel {
                        position: next,
                        heading: facing(self.position, target, self.heading),
                        unspent: carried(reach, way(self.position, target) - way(next, target)) as u64,
                        ..self
                    }
                }
            },
        }
    }

    /// The unit after the left button went down with the pointer's ray as
    /// given: a unit under the pointer is selected, the others stay as they
    /// are.
    pub open spec fn after_press(self, ray: Option<Ray>, left_just_pressed: bool) -> UnitModel {
        UnitModel {
            selected: self.selected || (left_just_pressed && self.pointed_at(ray)),
            ..self
        }
    }

    /// The unit after the left button came up with the pointer's ray as
    /// given: a unit that the ray passes by is no longer selected. Where the
    /// pointer has no ray, as when it is outside the window, nothing changes.
    pub open spec fn after_release(self, ray: Option<Ray>, left_just_released: bool) -> UnitModel {
        UnitModel {
            selected: self.selected && !(left_just_released && ray is Some && !self.pointed_at(ray)),
            ..self
        }
    }

    /// The cube that bounds the unit.
    pub open spec fn bounds(self) -> Bounds {
        Bounds {
            center: self.position,
            half: Point3 { x: UNIT_HALF_SIZE, y: UNIT_HALF_SIZE, z: UNIT_HALF_SIZE },
        }
    }

    /// The pointer's ray passes through the unit within reach.
    pub open spec fn pointed_at(self, ray: Option<Ray>) -> bool {
        match ray {
            Some(r) => self.bounds().hit_by(r),
            None => false,
        }
    }
}

impl View for Unit {
    type V = UnitModel;

    open spec fn view(&self) -> UnitModel {
        UnitModel {
            id: self.id,
            position: self.position,
            heading: self.heading,
            selected: self.selectable.is_selected,
            orders: self.orders@,
            state: self.state,
            unspent: self.unspent,
        }
    }
}

/// No two numbers are the rounded-up root of one number.
pub proof fn lemma_root_ceiling_is(r: int, n: int)
    requires
        is_root_ceiling(r, n),
    ensures
        root_ceiling(n) == r,
{
    let c = root_ceiling(n);
    assert(is_root_ceiling(c, n));
    if c < r {
        assert(c * c <= (r - 1) * (r - 1)) by (nonlinear_arith)
            requires
                0 <= c <= r - 1,
        ;
    } else if r < c {
        assert(r * r <= (c - 1) * (c - 1)) by (nonlinear_arith)
            requires
                0 <= r <= c - 1,
        ;
    }
}

/// Every number that is not negative has a rounded-up root.
pub proof fn lemma_root_ceiling_exists(n: int)
    requires
        n >= 0,
    ensures
        is_root_ceiling(root_ceiling(n), n),
    decreases n,
{
    if n == 0 {
        assert(is_root_ceiling(0, n));
    } else {
        lemma_root_ceiling_exists(n - 1);
        let r = root_ceiling(n - 1);
        if n <= r * r {
            assert(is_root_ceiling(r, n));
        } else {
            assert((r + 1) * (r + 1) == r * r + 2 * r + 1) by (nonlinear_arith);
            assert(is_root_ceiling(r + 1, n));
        }
    }
}

/// A share of a step that is shorter than the way to the target has the sign
/// of the way along its axis, and is no longer than it.
pub proof fn lemma_toward_bounds(delta: int, reach: int, dist: int)
    requires
        0 <= reach < dist,
    ensures
        delta >= 0 ==> 0 <= toward(delta, reach, dist) <= delta,
        delta < 0 ==> delta <= toward(delta, reach, dist) <= 0,
{
    let a = if delta >= 0 {
        delta
    } else {
        -delta
    };
    let whole = a * reach;
    vstd::arithmetic::div_mod::lemma_fundamental_div_mod(whole, dist);
    assert(0 <= whole / dist <= a) by (nonlinear_arith)
        requires
            whole == dist * (whole / dist) + (whole % dist),
            0 <= whole % dist < dist,
            whole == a * reach,
            0 <= reach < dist,
            a >= 0,
    ;
}

/// The rounded-up root of `n` is the least number whose square reaches `n`.
pub proof fn lemma_root_ceiling_least(r: int, n: int)
    requires
        r >= 0,
        0 <= n <= r * r,
    ensures
        root_ceiling(n) <= r,
{
    lemma_root_ceiling_exists(n);
    let c = root_ceiling(n);
    if c > r {
        assert(r * r <= (c - 1) * (c - 1)) by (nonlinear_arith)
            requires
                0 <= r <= c - 1,
        ;
    }
}

/// What a step leaves of the way along one axis, `a` long before the step:
/// the share of the way that the step leaves in all, and less than one step
/// more.
proof fn lemma_rest_of_axis(a: int, reach: int, dist: int)
    requires
        a >= 0,
        0 <= reach < dist,
    ensures
        0 <= (a * reach) / dist <= a,
        dist * (a - (a * reach) / dist) <= a * (dist - reach) + dist,
{
    let whole = a * reach;
    let s = whole / dist;
    lemma_toward_bounds(a, reach, dist);
    vstd::arithmetic::div_mod::lemma_fundamental_div_mod(whole, dist);
    assert(dist * (a - s) <= a * (dist - reach) + dist) by (nonlinear_arith)
        requires
            whole == dist * s + (whole % dist),
            0 <= whole % dist < dist,
            whole == a * reach,
    ;
}

/// The square of what a step leaves along one axis, scaled by the way.
proof fn lemma_rest_squared(a: int, rest: int, gap: int, dist: int)
    requires
        0 <= rest,
        0 <= a <= dist,
        gap >= 0,
        dist > 0,
        dist * rest <= a * gap + dist,
    ensures
        (dist * dist) * (rest * rest) <= (gap * gap) * (a * a) + 2 * ((gap * dist) * dist) + dist
            * dist,
{
    let u = dist * rest;
    let v = a * gap + dist;
    assert(0 <= u) by (nonlinear_arith)
        requires
            u == dist * rest,
            dist > 0,
            rest >= 0,
    ;
    assert(u * u <= v * v) by (nonlinear_arith)
        requires
            0 <= u <= v,
    ;
    assert(u * u == (dist * dist) * (rest * rest)) by (nonlinear_arith)
        requires
            u == dist * rest,
    ;
    assert(v * v == (gap * gap) * (a * a) + 2 * ((gap * dist) * a) + dist * dist)
        by (nonlinear_arith)
        requires
            v == a * gap + dist,
    ;
    assert((gap * dist) * a <= (gap * dist) * dist) by (nonlinear_arith)
        requires
            0 <= a <= dist,
            gap >= 0,
            dist > 0,
    ;
}

/// What is left of the way after a step that does not arrive: with the way
/// `dist` long (rounded up) and the step `reach` long, at most
/// `dist - reach + 2`.
pub proof fn lemma_step_gains(pos: Point3, target: Point3, reach: int)
    requires
        reach >= 0,
        !arrives(pos, target, reach),
    ensures
        root_ceiling(planar_dist_sq(stepped(pos, target, reach), target)) <= root_ceiling(
            planar_dist_sq(pos, target),
        ) - reach + 2,
        root_ceiling(planar_dist_sq(pos, target)) > reach,
{
    let far = planar_dist_sq(pos, target);
    let dx = target.x - pos.x;
    let dz = target.z - pos.z;
    assert(far >= 0 && dx * dx <= far && dz * dz <= far) by (nonlinear_arith)
        requires
            far == dx * dx + dz * dz,
    ;
    lemma_root_ceiling_exists(far);
    let dist = root_ceiling(far);
    assert(reach < dist) by (nonlinear_arith)
        requires
            reach * reach < far,
            far <= dist * dist,
            reach >= 0,
            dist >= 0,
    ;
    let gap = dist - reach;
    let ax = if dx >= 0 {
        dx
    } else {
        -dx
    };
    let az = if dz >= 0 {
        dz
    } else {
        -dz
    };
    assert(ax * ax == dx * dx && az * az == dz * dz) by (nonlinear_arith)
        requires
            ax == dx || ax == -dx,
            az == dz || az == -dz,
    ;
    assert(ax <= dist) by (nonlinear_arith)
        requires
            ax * ax <= dist * dist,
            ax >= 0,
            dist >= 0,
    ;
    assert(az <= dist) by (nonlinear_arith)
        requires
            az * az <= dist * dist,
            az >= 0,
            dist >= 0,
    ;
    lemma_rest_of_axis(ax, reach, dist);
    lemma_rest_of_axis(az, reach, dist);
    lemma_toward_bounds(dx, reach, dist);
    lemma_toward_bounds(dz, reach, dist);
    let rx = ax - (ax * reach) / dist;
    let rz = az - (az * reach) / dist;
    let after = stepped(pos, target, reach);
    assert(target.x - after.x == rx || target.x - after.x == -rx);
    assert(target.z - after.z == rz || target.z - after.z == -rz);
    let left = planar_dist_sq(after, target);
    assert(left == rx * rx + rz * rz) by (nonlinear_arith)
        requires
            left == (target.x - after.x) * (target.x - after.x) + (target.z - after.z) * (target.z
                - after.z),
            target.x - after.x == rx || target.x - after.x == -rx,
            target.z - after.z == rz || target.z - after.z == -rz,
    ;
    lemma_rest_squared(ax, rx, gap, dist);
    lemma_rest_squared(az, rz, gap, dist);
    let dd = dist * dist;
    let gg = gap * gap;
    let gd = gap * dist;
    assert(gg * (ax * ax) + gg * (az * az) <= gg * dd) by (nonlinear_arith)
        requires
            ax * ax + az * az <= dd,
            gg == gap * gap,
    ;
    assert(dd * (rx * rx) + dd * (rz * rz) == dd * left) by (nonlinear_arith)
        requires
            left == rx * rx + rz * rz,
    ;
    assert(gd * dist == gap * dd) by (nonlinear_arith)
        requires
            gd == gap * dist,
            dd == dist * dist,
    ;
    assert(dd * left <= gg * dd + 4 * (gap * dd) + 2 * dd);
    assert(dd * left <= dd * ((gap + 2) * (gap + 2))) by (nonlinear_arith)
        requires
            dd * left <= gg * dd + 4 * (gap * dd) + 2 * dd,
            gg == gap * gap,
            dd >= 0,
    ;
    assert(dd > 0) by (nonlinear_arith)
        requires
            dd == dist * dist,
            dist > 0,
    ;
    assert(left <= (gap + 2) * (gap + 2)) by (nonlinear_arith)
        requires
            dd * left <= dd * ((gap + 2) * (gap + 2)),
            dd > 0,
    ;
    assert(left >= 0) by (nonlinear_arith)
        requires
            left == rx * rx + rz * rz,
    ;
    lemma_root_ceiling_least(gap + 2, left);
}

/// Computes the square root of `n`, rounded up.
fn root_ceiling_of(n: i128) -> (r: i128)
    requires
        0 <= n <= 0x4_0000_0000_0000_0000,
    ensures
        0 <= r <= 0x2_0000_0000,
        is_root_ceiling(r as int, n as int),
        r == root_ceiling(n as int),
{
    let mut lo: i128 = 0;
    let mut hi: i128 = 0x2_0000_0000;
    assert(0x2_0000_0000 * 0x2_0000_0000 == 0x4_0000_0000_0000_0000) by (nonlinear_arith);
    while lo < hi
        invariant
            0 <= lo <= hi <= 0x2_0000_0000,
            n <= hi * hi,
            lo > 0 ==> (lo - 1) * (lo - 1) < n,
        decreases hi - lo,
    {
        let mid: i128 = lo + (hi - lo) / 2;
        proof {
            lemma_product_bound(mid as int, mid as int, 0x2_0000_0000, 0x2_0000_0000);
        }
        if mid * mid >= n {
            hi = mid;
        } else {
            lo = mid + 1;
        }
    }
    proof {
        lemma_root_ceiling_is(lo as int, n as int);
    }
    lo
}

/// Computes the share of a step that falls on one axis.
fn step_toward(delta: i64, reach: i64, dist: i128) -> (r: i64)
    requires
        -0x1_0000_0000 <= delta <= 0x1_0000_0000,
        0 <= reach < dist,
        reach <= 0x8_0000_0000,
    ensures
        r == toward(delta as int, reach as int, dist as int),
        delta >= 0 ==> 0 <= r <= delta,
        delta < 0 ==> delta <= r <= 0,
{
    let a: i128 = if delta >= 0 {
        delta as i128
    } else {
        -(delta as i128)
    };
    proof {
        lemma_product_bound(a as int, reach as int, 0x1_0000_0000, 0x8_0000_0000);
    }
    let whole: i128 = a * (reach as i128);
    assert(whole >= 0) by (nonlinear_arith)
        requires
            whole == a * reach,
            a >= 0,
            reach >= 0,
    ;
    let q: i128 = whole / dist;
    proof {
        lemma_toward_bounds(delta as int, reach as int, dist as int);
    }
    if delta >= 0 {
        q as i64
    } else {
        -(q as i64)
    }
}

impl Unit {
    /// A unit at rest at `position`, not selected, with no orders.
    pub fn new(id: u64, position: Point3) -> (r: Unit)
        ensures
            r@ == (UnitModel {
                id,
                position,
                heading: Heading { x: 0, z: 1 },
                selected: false,
                orders: Seq::<Order>::empty(),
                state: UnitState::Idle,
                unspent: 0,
            }),
    {
        Unit {
            id,
            position,
            heading: Heading { x: 0, z: 1 },
            selectable: Selectable { is_selected: false },
            orders: Orders::new(),
            state: UnitState::Idle,
            unspent: 0,
        }
    }

    /// The cube that bounds the unit.
    pub fn bounds(&self) -> (r: Bounds)
        ensures
            r == self@.bounds(),
    {
        Bounds {
            center: self.position,
            half: Point3 { x: UNIT_HALF_SIZE, y: UNIT_HALF_SIZE, z: UNIT_HALF_SIZE },
        }
    }

    /// Takes up the oldest order that waits, if any.
    pub fn handle_orders(&mut self)
        ensures
            final(self)@ == old(self)@.after_orders(),
    {
        if let Some(order) = self.orders.dequeue_one() {
            match order {
                Order::Move(destination) => {
                    self.state = UnitState::Moving(destination);
                    self.unspent = 0;
                },
            }
        }
    }

    /// Receives the move order of a right click, if the unit is selected and
    /// the click showed a point of the ground.
    pub fn take_order(&mut self, right_just_pressed: bool, target: Option<Point3>)
        ensures
            final(self)@ == old(self)@.ordered(right_just_pressed, target),
    {
        if self.selectable.is_selected && right_just_pressed {
            if let Some(t) = target {
                self.orders.enqueue(Order::Move(t));
            }
        }
    }

    /// Moves the unit by one frame of `elapsed_ms` milliseconds.
    pub fn advance(&mut self, elapsed_ms: u32)
        ensures
            final(self)@ == old(self)@.after_step(elapsed_ms as int),
    {
        if let UnitState::Moving(target) = self.state {
            let dx: i64 = target.x as i64 - self.position.x as i64;
            let dz: i64 = target.z as i64 - self.position.z as i64;
            if dx != 0 || dz != 0 {
                self.heading = Heading { x: dx, z: dz };
            }
            let reach: i128 = self.unspent as i128 + (UNIT_SPEED as i128) * (elapsed_ms as i128);
            proof {
                lemma_product_bound(dx as int, dx as int, 0x1_0000_0000, 0x1_0000_0000);
                lemma_product_bound(dz as int, dz as int, 0x1_0000_0000, 0x1_0000_0000);
                assert(dx * dx >= 0 && dz * dz >= 0) by (nonlinear_arith);
            }
            let far: i128 = (dx as i128) * (dx as i128) + (dz as i128) * (dz as i128);
            let there: bool = if reach >= 0x2_0000_0000 {
                proof {
                    assert(reach * reach >= 0x2_0000_0000 * 0x2_0000_0000) by (nonlinear_arith)
                        requires
                            reach >= 0x2_0000_0000,
                    ;
                }
                true
            } else {
                proof {
                    lemma_product_bound(reach as int, reach as int, 0x2_0000_0000, 0x2_0000_0000);
                }
                far <= reach * reach
            };
            if there {
                self.position.x = target.x;
                self.position.z = target.z;
                self.state = UnitState::Idle;
                self.unspent = 0;
            } else {
                let dist: i128 = root_ceiling_of(far);
                proof {
                    assert(reach < dist) by (nonlinear_arith)
                        requires
                            reach * reach < far,
                            far <= dist * dist,
                            reach >= 0,
                            dist >= 0,
                    ;
                }
                let sx: i64 = step_toward(dx, reach as i64, dist);
                let sz: i64 = step_toward(dz, reach as i64, dist);
                assert(i32::MIN <= self.position.x + sx <= i32::MAX);
                assert(i32::MIN <= self.position.z + sz <= i32::MAX);
                self.position.x = (self.position.x as i64 + sx) as i32;
                self.position.z = (self.position.z as i64 + sz) as i32;
                let ex: i64 = target.x as i64 - self.position.x as i64;
                let ez: i64 = target.z as i64 - self.position.z as i64;
                proof {
                    lemma_product_bound(ex as int, ex as int, 0x1_0000_0000, 0x1_0000_0000);
                    lemma_product_bound(ez as int, ez as int, 0x1_0000_0000, 0x1_0000_0000);
                    assert(ex * ex >= 0 && ez * ez >= 0) by (nonlinear_arith);
                }
                let left: i128 = root_ceiling_of(
                    (ex as i128) * (ex as i128) + (ez as i128) * (ez as i128),
                );
                let gain: i128 = dist - left;
                self.unspent = if gain >= reach {
                    0
                } else {
                    (reach - gain) as u64
                };
            }
        }
    }

    /// How the unit is to be drawn: marked where it is selected.
    pub fn highlight(&self) -> (r: Highlight)
        ensures
            r == if self@.selected {
                Highlight::Selected
            } else {
                Highlight::Normal
            },
    {
        if self.selectable.is_selected {
            Highlight::Selected
        } else {
            Highlight::Normal
        }
    }
}

/// Moves every unit by one frame of `elapsed_ms` milliseconds.
pub fn move_units(units: &mut Vec<Unit>, elapsed_ms: u32)
    ensures
        final(units)@.len() == old(units)@.len(),
        forall|i: int|
            0 <= i < old(units)@.len() ==> (#[trigger] final(units)@[i])@
                == old(units)@[i]@.after_step(elapsed_ms as int),
{
    let mut i: usize = 0;
    while i < units.len()
        invariant
            i <= units.len(),
            units@.len() == old(units)@.len(),
            forall|j: int|
                0 <= j < i ==> (#[trigger] units@[j])@ == old(units)@[j]@.after_step(
                    elapsed_ms as int,
                ),
            forall|j: int| i <= j < units@.len() ==> units@[j] == old(units)@[j],
        decreases units.len() - i,
    {
        units[i].advance(elapsed_ms);
        i += 1;
    }
}

} // verus!
