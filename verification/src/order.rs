//! Orders and the queue of them that every unit carries.

use std::collections::VecDeque;
use vstd::prelude::*;
use crate::camera::CameraPose;
use crate::cursor::{get_point_on_ground, ground_point};
use crate::geometry::{Point2, Point3, Size2};
use crate::ground::Ground;
use crate::unit::{Unit, UnitModel, UnitState};

verus! {

/// A command for one unit.
#[derive(Clone, Copy, Debug, PartialEq, Eq, Structural)]
pub enum Order {
    /// Go to this point of the ground.
    Move(Point3),
}

/// The orders a unit has yet to take up, oldest first. The queue has no
/// bound, and nothing in it is ever merged, reordered or withdrawn.
#[derive(Clone, Debug)]
pub struct Orders(pub VecDeque<Order>);

impl View for Orders {
    type V = Seq<Order>;

    open spec fn view(&self) -> Seq<Order> {
        self.0@
    }
}

impl Orders {
    /// An empty queue.
    pub fn new() -> (r: Orders)
        ensures
            r@ == Seq::<Order>::empty(),
    {
        Orders(VecDeque::new())
    }

    /// The number of orders that wait.
    pub fn len(&self) -> (r: usize)
        ensures
            r == self@.len(),
    {
        self.0.len()
    }

    /// Appends an order behind all that wait.
    pub fn enqueue(&mut self, order: Order)
        ensures
            final(self)@ == old(self)@.push(order),
    {
        self.0.push_back(order);
    }

    /// Takes the oldest order out of the queue, if there is one.
    pub fn dequeue_one(&mut self) -> (r: Option<Order>)
        ensures
            old(self)@.len() == 0 ==> r is None && final(self)@ == old(self)@,
            old(self)@.len() > 0 ==> r == Some(old(self)@[0]) && final(self)@ == old(self)@.skip(1),
    {
        let r = self.0.pop_front();
        proof {
            if old(self)@.len() > 0 {
                assert(old(self)@.subrange(1, old(self)@.len() as int) =~= old(self)@.skip(1));
            }
        }
        r
    }
}

/// The unit at place `i` is the one that the handle `id` names: the first of
/// the fleet that carries it.
pub open spec fn names(units: Seq<Unit>, id: u64, i: int) -> bool {
    &&& 0 <= i < units.len()
    &&& units[i].id == id
    &&& forall|j: int| 0 <= j < i ==> (#[trigger] units[j]).id != id
}

/// Finds the unit that a handle names. A handle whose unit is gone names
/// none.
pub fn find_unit(units: &Vec<Unit>, id: u64) -> (r: Option<usize>)
    ensures
        r matches Some(i) ==> names(units@, id, i as int),
        r is None ==> forall|j: int| 0 <= j < units@.len() ==> (#[trigger] units@[j]).id != id,
{
    let mut i: usize = 0;
    while i < units.len()
        invariant
            i <= units.len(),
            forall|j: int| 0 <= j < i ==> (#[trigger] units@[j]).id != id,
        decreases units.len() - i,
    {
        if units[i].id == id {
            return Some(i);
        }
        i += 1;
    }
    None
}

/// Appends an order to the queue of the unit that `id` names. Where the unit
/// is gone the order is dropped, and nothing changes.
pub fn enqueue(units: &mut Vec<Unit>, id: u64, order: Order)
    ensures
        final(units)@.len() == old(units)@.len(),
        forall|i: int|
            0 <= i < old(units)@.len() ==> (#[trigger] final(units)@[i])@ == if names(
                old(units)@,
                id,
                i,
            ) {
                UnitModel { orders: old(units)@[i]@.orders.push(order), ..old(units)@[i]@ }
            } else {
                old(units)@[i]@
            },
{
    if let Some(i) = find_unit(units, id) {
        units[i].orders.enqueue(order);
    }
}

/// Lets the unit that `id` names take up the oldest order that waits, and
/// hands that order back. Where the unit is gone, or no order waits, nothing
/// changes and there is none to hand back.
pub fn dequeue_one(units: &mut Vec<Unit>, id: u64) -> (r: Option<Order>)
    ensures
        final(units)@.len() == old(units)@.len(),
        forall|i: int|
            0 <= i < old(units)@.len() ==> (#[trigger] final(units)@[i])@ == if names(
                old(units)@,
                id,
                i,
            ) {
                old(units)@[i]@.after_orders()
            } else {
                old(units)@[i]@
            },
        r matches Some(order) ==> exists|i: int|
            names(old(units)@, id, i) && (#[trigger] old(units)@[i])@.orders.len() > 0 && order
                == old(units)@[i]@.orders[0],
        r is None ==> forall|i: int|
            names(old(units)@, id, i) ==> (#[trigger] old(units)@[i])@.orders.len() == 0,
{
    match find_unit(units, id) {
        Some(i) => {
            let order = units[i].orders.dequeue_one();
            if let Some(Order::Move(destination)) = order {
                units[i].state = UnitState::Moving(destination);
                units[i].unspent = 0;
            }
            order
        },
        None => None,
    }
}

/// Hands the move order of one right click to every selected unit: where the
/// button was pressed in this frame and the pointer shows a point of the
/// ground, each selected unit gets `Order::Move` to that point behind the
/// orders it has. Nothing else changes.
pub fn send_move_order(
    units: &mut Vec<Unit>,
    camera: &CameraPose,
    viewport: Size2,
    cursor: Option<Point2>,
    ground: &Ground,
    right_just_pressed: bool,
)
    ensures
        final(units)@.len() == old(units)@.len(),
        forall|i: int|
            0 <= i < old(units)@.len() ==> (#[trigger] final(units)@[i])@ == old(units)@[i]@.ordered(
                right_just_pressed,
                ground_point(*camera, viewport, cursor, *ground),
            ),
{
    let target = get_point_on_ground(camera, viewport, cursor, ground);
    let mut i: usize = 0;
    while i < units.len()
        invariant
            i <= units.len(),
            units@.len() == old(units)@.len(),
            target == ground_point(*camera, viewport, cursor, *ground),
            forall|j: int|
                0 <= j < i ==> (#[trigger] units@[j])@ == old(units)@[j]@.ordered(
                    right_just_pressed,
                    target,
                ),
            forall|j: int| i <= j < units@.len() ==> units@[j] == old(units)@[j],
        decreases units.len() - i,
    {
        units[i].take_order(right_just_pressed, target);
        i += 1;
    }
}

/// Lets every unit take up at most one order: the oldest one that waits.
pub fn handle_orders(units: &mut Vec<Unit>)
    ensures
        final(units)@.len() == old(units)@.len(),
        forall|i: int|
            0 <= i < old(units)@.len() ==> (#[trigger] final(units)@[i])@
                == old(units)@[i]@.after_orders(),
{
    let mut i: usize = 0;
    while i < units.len()
        invariant
            i <= units.len(),
            units@.len() == old(units)@.len(),
            forall|j: int| 0 <= j < i ==> (#[trigger] units@[j])@ == old(units)@[j]@.after_orders(),
            forall|j: int| i <= j < units@.len() ==> units@[j] == old(units)@[j],
        decreases units.len() - i,
    {
        units[i].handle_orders();
        i += 1;
    }
}

} // verus!
