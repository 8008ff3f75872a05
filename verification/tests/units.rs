use rts_command::camera::{move_camera, restrict_camera, zoom, CameraPose};
use rts_command::frame::{run_frame, FrameInput};
use rts_command::game::{pause_game, resume_game, GameState};
use rts_command::geometry::{Point2, Point3, Ray, Size2};
use rts_command::ground::Ground;
use rts_command::order::{
    dequeue_one, enqueue, find_unit, handle_orders, send_move_order, Order, Orders,
};
use rts_command::selection::{
    create_selection_events, deselect_unit, despawn_selection, is_single_unit_selectable,
    select_unit, set_selection_size, start_drawing_selection, track_selection, Selection,
    SelectionEvent,
};
use rts_command::unit::{move_units, Heading, Highlight, Unit, UnitState};

fn pt(x: i32, y: i32, z: i32) -> Point3 {
    Point3 { x, y, z }
}

fn px(x: i32, y: i32) -> Point2 {
    Point2 { x, y }
}

fn ground() -> Ground {
    Ground { height: 0, half_width: 50_000, half_depth: 50_000 }
}

/// A camera at (5, 10, 5) that looks straight down; the middle of the screen
/// shows the ground point (5, 0, 5), and the screen point (250, 450) shows
/// the world's origin.
fn camera() -> CameraPose {
    CameraPose {
        position: pt(5_000, 10_000, 5_000),
        right: pt(1, 0, 0),
        up: pt(0, 0, -1),
        forward: pt(0, -1, 0),
        focal: 600,
    }
}

fn viewport() -> Size2 {
    Size2 { width: 800, height: 600 }
}

const MIDDLE: Point2 = Point2 { x: 400, y: 300 };
const ON_ORIGIN: Point2 = Point2 { x: 250, y: 450 };
const ON_NOTHING: Point2 = Point2 { x: 700, y: 100 };

fn orders_of(unit: &Unit) -> Vec<Order> {
    unit.orders.0.iter().copied().collect()
}

fn selected_count(units: &[Unit]) -> usize {
    units.iter().filter(|u| u.selectable.is_selected).count()
}

#[test]
fn new_unit_rests_unselected() {
    let u = Unit::new(7, pt(1, 2, 3));
    assert_eq!(u.id, 7);
    assert_eq!(u.position, pt(1, 2, 3));
    assert_eq!(u.state, UnitState::Idle);
    assert!(!u.selectable.is_selected);
    assert_eq!(u.orders.len(), 0);
    assert_eq!(u.unspent, 0);
    assert_eq!(u.highlight(), Highlight::Normal);
    assert_eq!(u.bounds().center, pt(1, 2, 3));
    assert_eq!(u.bounds().half, pt(250, 250, 250));
}

#[test]
fn queue_is_first_in_first_out() {
    let mut q = Orders::new();
    assert_eq!(q.dequeue_one(), None);
    q.enqueue(Order::Move(pt(1, 0, 0)));
    q.enqueue(Order::Move(pt(2, 0, 0)));
    q.enqueue(Order::Move(pt(3, 0, 0)));
    assert_eq!(q.len(), 3);
    assert_eq!(q.dequeue_one(), Some(Order::Move(pt(1, 0, 0))));
    assert_eq!(q.len(), 2);
    q.enqueue(Order::Move(pt(4, 0, 0)));
    assert_eq!(q.dequeue_one(), Some(Order::Move(pt(2, 0, 0))));
    assert_eq!(q.dequeue_one(), Some(Order::Move(pt(3, 0, 0))));
    assert_eq!(q.dequeue_one(), Some(Order::Move(pt(4, 0, 0))));
    assert_eq!(q.dequeue_one(), None);
    assert_eq!(q.len(), 0);
}

#[test]
fn orders_drain_one_per_frame_and_overwrite_at_once() {
    let mut units = vec![Unit::new(1, pt(0, 0, 0))];
    let targets = [pt(1_000, 0, 0), pt(0, 0, 2_000), pt(-3_000, 0, 0)];
    for t in targets {
        units[0].orders.enqueue(Order::Move(t));
    }
    for (frame, t) in targets.iter().enumerate() {
        handle_orders(&mut units);
        assert_eq!(units[0].state, UnitState::Moving(*t));
        assert_eq!(units[0].orders.len(), 2 - frame);
        assert_eq!(orders_of(&units[0]), targets[frame + 1..].iter().map(|t| Order::Move(*t)).collect::<Vec<_>>());
    }
    handle_orders(&mut units);
    assert_eq!(units[0].state, UnitState::Moving(targets[2]));
    assert_eq!(units[0].orders.len(), 0);
}

#[test]
fn orders_drain_in_order_when_each_move_is_waited_for() {
    let mut units = vec![Unit::new(1, pt(0, 0, 0))];
    let targets = [pt(1_000, 0, 0), pt(0, 0, 2_000), pt(-3_000, 0, 0)];
    for t in targets {
        units[0].orders.enqueue(Order::Move(t));
    }
    for t in targets {
        handle_orders(&mut units);
        assert_eq!(units[0].state, UnitState::Moving(t));
        let mut frames = 0;
        while units[0].state != UnitState::Idle {
            move_units(&mut units, 16);
            frames += 1;
            assert!(frames < 1_000);
        }
        assert_eq!(units[0].position, t);
    }
    assert_eq!(units[0].orders.len(), 0);
}

#[test]
fn orders_keep_waiting_while_the_unit_moves() {
    let mut units = vec![Unit::new(1, pt(0, 0, 0))];
    units[0].orders.enqueue(Order::Move(pt(1_000, 0, 0)));
    units[0].orders.enqueue(Order::Move(pt(2_000, 0, 0)));
    handle_orders(&mut units);
    move_units(&mut units, 16);
    assert_eq!(orders_of(&units[0]), vec![Order::Move(pt(2_000, 0, 0))]);
    assert_eq!(units[0].state, UnitState::Moving(pt(1_000, 0, 0)));
}

#[test]
fn step_follows_the_straight_line() {
    let mut u = Unit::new(1, pt(0, 7, 0));
    u.state = UnitState::Moving(pt(3_000, 0, 4_000));
    u.advance(100);
    assert_eq!(u.position, pt(300, 7, 400));
    assert_eq!(u.state, UnitState::Moving(pt(3_000, 0, 4_000)));
    assert_eq!(u.heading, Heading { x: 3_000, z: 4_000 });
    u.advance(100);
    assert_eq!(u.position, pt(600, 7, 800));
    assert_eq!(u.heading, Heading { x: 2_700, z: 3_600 });
}

#[test]
fn step_in_negative_directions() {
    let mut u = Unit::new(1, pt(0, 0, 0));
    u.state = UnitState::Moving(pt(-3_000, 0, -4_000));
    u.advance(100);
    assert_eq!(u.position, pt(-300, 0, -400));
    assert_eq!(u.heading, Heading { x: -3_000, z: -4_000 });
}

#[test]
fn step_rounds_towards_the_start() {
    let mut u = Unit::new(1, pt(0, 0, 0));
    u.state = UnitState::Moving(pt(1_000, 0, 1));
    u.advance(10);
    // the way is 1000.0005 long, rounded up to 1001; 1000 * 50 / 1001 = 49.95
    assert_eq!(u.position, pt(49, 0, 0));
    let mut v = Unit::new(2, pt(0, 0, 0));
    v.state = UnitState::Moving(pt(-1_000, 0, -1));
    v.advance(10);
    assert_eq!(v.position, pt(-49, 0, 0));
}

#[test]
fn unit_arrives_and_rests() {
    let mut u = Unit::new(1, pt(0, 3, 0));
    u.state = UnitState::Moving(pt(3_000, 0, 4_000));
    u.advance(999);
    assert_eq!(u.state, UnitState::Moving(pt(3_000, 0, 4_000)));
    let mut u = Unit::new(1, pt(0, 3, 0));
    u.state = UnitState::Moving(pt(3_000, 0, 4_000));
    u.advance(1_000);
    assert_eq!(u.state, UnitState::Idle);
    assert_eq!(u.position, pt(3_000, 3, 4_000));
    assert_eq!(u.heading, Heading { x: 3_000, z: 4_000 });
    u.advance(1_000);
    assert_eq!(u.state, UnitState::Idle);
    assert_eq!(u.position, pt(3_000, 3, 4_000));
}

#[test]
fn unit_on_its_target_rests_at_once() {
    let mut u = Unit::new(1, pt(5, 0, 5));
    u.heading = Heading { x: 1, z: 0 };
    u.state = UnitState::Moving(pt(5, 0, 5));
    u.advance(0);
    assert_eq!(u.state, UnitState::Idle);
    assert_eq!(u.heading, Heading { x: 1, z: 0 });
}

#[test]
fn no_time_no_move() {
    let mut u = Unit::new(1, pt(0, 0, 0));
    u.state = UnitState::Moving(pt(10, 0, 0));
    u.advance(0);
    assert_eq!(u.position, pt(0, 0, 0));
    assert_eq!(u.state, UnitState::Moving(pt(10, 0, 0)));
}

#[test]
fn idle_unit_stays() {
    let mut units = vec![Unit::new(1, pt(1, 2, 3))];
    move_units(&mut units, 1_000);
    assert_eq!(units[0].position, pt(1, 2, 3));
    assert_eq!(units[0].state, UnitState::Idle);
}

#[test]
fn movement_never_passes_the_target() {
    let mut u = Unit::new(1, pt(i32::MIN, 0, i32::MAX));
    let target = pt(i32::MAX, 0, i32::MIN);
    u.state = UnitState::Moving(target);
    let mut last = u.position;
    for _ in 0..50 {
        u.advance(u32::MAX);
        assert!(last.x <= u.position.x && u.position.x <= target.x);
        assert!(target.z <= u.position.z && u.position.z <= last.z);
        last = u.position;
    }
    assert_eq!(u.position, target);
    assert_eq!(u.state, UnitState::Idle);
}

#[test]
fn movement_converges_over_many_frames() {
    let mut units = vec![Unit::new(1, pt(0, 0, 0)), Unit::new(2, pt(900, 0, -77))];
    units[0].state = UnitState::Moving(pt(5_000, 0, 5_000));
    units[1].state = UnitState::Moving(pt(-1_234, 0, 4_321));
    // 7072 steps at 5 per millisecond take 1415 ms: 89 frames of 16 ms
    for _ in 0..88 {
        move_units(&mut units, 16);
    }
    assert_eq!(units[0].state, UnitState::Moving(pt(5_000, 0, 5_000)));
    move_units(&mut units, 16);
    assert_eq!(units[0].position, pt(5_000, 0, 5_000));
    assert_eq!(units[0].state, UnitState::Idle);
    assert_eq!(units[0].unspent, 0);
    assert_eq!(units[1].position, pt(-1_234, 0, 4_321));
    assert_eq!(units[1].state, UnitState::Idle);
}

#[test]
fn unit_is_at_rest_when_the_time_is_up() {
    // the way is 25 steps long: 5 ms at 5 steps per millisecond
    let mut u = Unit::new(1, pt(0, 0, 0));
    u.state = UnitState::Moving(pt(7, 0, 24));
    u.advance(1);
    assert_eq!(u.position, pt(1, 0, 4));
    assert_eq!(u.state, UnitState::Moving(pt(7, 0, 24)));
    // the way has become 4 steps shorter (from 25 to 21), one less than allowed
    assert_eq!(u.unspent, 1);
    u.advance(4);
    assert_eq!(u.position, pt(7, 0, 24));
    assert_eq!(u.state, UnitState::Idle);
    assert_eq!(u.unspent, 0);
}

#[test]
fn unit_is_at_rest_when_the_time_is_up_in_five_frames() {
    let mut u = Unit::new(1, pt(0, 0, 0));
    u.state = UnitState::Moving(pt(7, 0, 24));
    for _ in 0..4 {
        u.advance(1);
        assert_eq!(u.state, UnitState::Moving(pt(7, 0, 24)));
        assert!(u.unspent <= 2);
    }
    u.advance(1);
    assert_eq!(u.position, pt(7, 0, 24));
    assert_eq!(u.state, UnitState::Idle);
}

#[test]
fn a_new_order_starts_with_nothing_carried_over() {
    let mut u = Unit::new(1, pt(0, 0, 0));
    u.state = UnitState::Moving(pt(7, 0, 24));
    u.advance(1);
    assert_eq!(u.unspent, 1);
    u.orders.enqueue(Order::Move(pt(100, 0, 0)));
    u.handle_orders();
    assert_eq!(u.state, UnitState::Moving(pt(100, 0, 0)));
    assert_eq!(u.unspent, 0);
    let mut units = vec![u];
    units[0].unspent = 2;
    enqueue(&mut units, 1, Order::Move(pt(0, 0, 100)));
    assert_eq!(units[0].unspent, 2);
    assert_eq!(dequeue_one(&mut units, 1), Some(Order::Move(pt(0, 0, 100))));
    assert_eq!(units[0].unspent, 0);
}

#[test]
fn unspent_way_is_spent_in_the_next_frame() {
    let mut u = Unit::new(1, pt(0, 0, 0));
    u.state = UnitState::Moving(pt(3_000, 0, 4_000));
    u.unspent = 500;
    u.advance(0);
    assert_eq!(u.position, pt(300, 0, 400));
    assert_eq!(u.unspent, 0);
    u.unspent = 4_500;
    u.advance(0);
    assert_eq!(u.position, pt(3_000, 0, 4_000));
    assert_eq!(u.state, UnitState::Idle);
    let mut v = Unit::new(2, pt(i32::MIN, 0, i32::MIN));
    v.state = UnitState::Moving(pt(i32::MAX, 0, i32::MAX));
    v.unspent = u64::MAX;
    v.advance(u32::MAX);
    assert_eq!(v.position, pt(i32::MAX, 0, i32::MAX));
    assert_eq!(v.state, UnitState::Idle);
    assert_eq!(v.unspent, 0);
}

#[test]
fn press_on_a_unit_selects_it() {
    let mut units = vec![Unit::new(1, pt(0, 0, 0)), Unit::new(2, pt(5_000, 0, 5_000))];
    select_unit(&mut units, &camera(), viewport(), Some(ON_ORIGIN), true);
    assert!(units[0].selectable.is_selected);
    assert!(!units[1].selectable.is_selected);
    assert_eq!(units[0].highlight(), Highlight::Selected);
    assert_eq!(units[1].highlight(), Highlight::Normal);
}

#[test]
fn selecting_twice_is_selecting_once() {
    let mut units = vec![Unit::new(1, pt(0, 0, 0)), Unit::new(2, pt(5_000, 0, 5_000))];
    select_unit(&mut units, &camera(), viewport(), Some(ON_ORIGIN), true);
    assert_eq!(selected_count(&units), 1);
    select_unit(&mut units, &camera(), viewport(), Some(ON_ORIGIN), true);
    assert_eq!(selected_count(&units), 1);
    assert!(units[0].selectable.is_selected);
}

#[test]
fn selection_is_additive() {
    let mut units = vec![Unit::new(1, pt(0, 0, 0)), Unit::new(2, pt(5_000, 0, 5_000))];
    select_unit(&mut units, &camera(), viewport(), Some(ON_ORIGIN), true);
    select_unit(&mut units, &camera(), viewport(), Some(MIDDLE), true);
    assert_eq!(selected_count(&units), 2);
}

#[test]
fn no_press_no_selection() {
    let mut units = vec![Unit::new(1, pt(0, 0, 0))];
    select_unit(&mut units, &camera(), viewport(), Some(ON_ORIGIN), false);
    assert_eq!(selected_count(&units), 0);
    select_unit(&mut units, &camera(), viewport(), None, true);
    assert_eq!(selected_count(&units), 0);
    select_unit(&mut units, &camera(), viewport(), Some(ON_NOTHING), true);
    assert_eq!(selected_count(&units), 0);
}

#[test]
fn release_over_nothing_clears_the_selection() {
    let mut units = vec![Unit::new(1, pt(0, 0, 0)), Unit::new(2, pt(5_000, 0, 5_000))];
    units[0].selectable.is_selected = true;
    units[1].selectable.is_selected = true;
    deselect_unit(&mut units, &camera(), viewport(), Some(ON_NOTHING), false);
    assert_eq!(selected_count(&units), 2);
    deselect_unit(&mut units, &camera(), viewport(), Some(ON_NOTHING), true);
    assert_eq!(selected_count(&units), 0);
}

#[test]
fn release_outside_the_window_changes_nothing() {
    let mut units = vec![Unit::new(1, pt(0, 0, 0)), Unit::new(2, pt(5_000, 0, 5_000))];
    units[0].selectable.is_selected = true;
    deselect_unit(&mut units, &camera(), viewport(), None, true);
    assert!(units[0].selectable.is_selected);
    assert!(!units[1].selectable.is_selected);
    // a pointer beyond the viewport has no ray either
    deselect_unit(&mut units, &camera(), viewport(), Some(px(801, 10)), true);
    assert!(units[0].selectable.is_selected);
    let mut blind = camera();
    blind.focal = 0;
    deselect_unit(&mut units, &blind, viewport(), Some(ON_NOTHING), true);
    assert!(units[0].selectable.is_selected);
}

#[test]
fn release_on_a_selected_unit_keeps_it() {
    let mut units = vec![Unit::new(1, pt(0, 0, 0)), Unit::new(2, pt(5_000, 0, 5_000))];
    units[0].selectable.is_selected = true;
    units[1].selectable.is_selected = true;
    deselect_unit(&mut units, &camera(), viewport(), Some(ON_ORIGIN), true);
    assert!(units[0].selectable.is_selected);
    assert!(!units[1].selectable.is_selected);
}

#[test]
fn release_does_not_select() {
    let mut units = vec![Unit::new(1, pt(0, 0, 0))];
    deselect_unit(&mut units, &camera(), viewport(), Some(ON_ORIGIN), true);
    assert_eq!(selected_count(&units), 0);
}

#[test]
fn pointer_test_on_one_unit() {
    let u = Unit::new(1, pt(0, 0, 0));
    assert!(is_single_unit_selectable(&camera(), viewport(), Some(ON_ORIGIN), &u.bounds()));
    assert!(!is_single_unit_selectable(&camera(), viewport(), Some(MIDDLE), &u.bounds()));
    assert!(!is_single_unit_selectable(&camera(), viewport(), None, &u.bounds()));
    let ray = Some(Ray { origin: pt(0, 1_000, 0), direction: pt(0, -1, 0) });
    assert!(u.is_pointed_at(&ray));
    assert!(!u.is_pointed_at(&None));
}

#[test]
fn right_click_orders_the_selected_units_only() {
    let mut units = vec![
        Unit::new(1, pt(0, 0, 0)),
        Unit::new(2, pt(1_000, 0, 0)),
        Unit::new(3, pt(2_000, 0, 0)),
    ];
    units[0].selectable.is_selected = true;
    units[2].selectable.is_selected = true;
    send_move_order(&mut units, &camera(), viewport(), Some(MIDDLE), &ground(), true);
    assert_eq!(orders_of(&units[0]), vec![Order::Move(pt(5_000, 0, 5_000))]);
    assert_eq!(orders_of(&units[1]), vec![]);
    assert_eq!(orders_of(&units[2]), vec![Order::Move(pt(5_000, 0, 5_000))]);
    assert_eq!(units[0].state, UnitState::Idle);
    send_move_order(&mut units, &camera(), viewport(), Some(ON_ORIGIN), &ground(), true);
    assert_eq!(
        orders_of(&units[0]),
        vec![Order::Move(pt(5_000, 0, 5_000)), Order::Move(pt(0, 0, 0))]
    );
}

#[test]
fn no_order_without_a_click_or_a_ground_point() {
    let mut units = vec![Unit::new(1, pt(0, 0, 0))];
    units[0].selectable.is_selected = true;
    send_move_order(&mut units, &camera(), viewport(), Some(MIDDLE), &ground(), false);
    assert_eq!(units[0].orders.len(), 0);
    send_move_order(&mut units, &camera(), viewport(), None, &ground(), true);
    assert_eq!(units[0].orders.len(), 0);
    let small = Ground { height: 0, half_width: 10, half_depth: 10 };
    send_move_order(&mut units, &camera(), viewport(), Some(MIDDLE), &small, true);
    assert_eq!(units[0].orders.len(), 0);
}

#[test]
fn select_order_move_arrive() {
    let mut units = vec![Unit::new(1, pt(0, 0, 0))];
    let cam = camera();
    select_unit(&mut units, &cam, viewport(), Some(ON_ORIGIN), true);
    deselect_unit(&mut units, &cam, viewport(), Some(ON_ORIGIN), true);
    assert!(units[0].selectable.is_selected);
    send_move_order(&mut units, &cam, viewport(), Some(MIDDLE), &ground(), true);
    assert_eq!(orders_of(&units[0]), vec![Order::Move(pt(5_000, 0, 5_000))]);
    assert_eq!(units[0].state, UnitState::Idle);
    handle_orders(&mut units);
    assert_eq!(units[0].state, UnitState::Moving(pt(5_000, 0, 5_000)));
    assert_eq!(units[0].orders.len(), 0);
    // the way is 7071.07 steps long; at 5 steps per millisecond it takes 1414.2 ms
    move_units(&mut units, 1_415);
    assert_eq!(units[0].position, pt(5_000, 0, 5_000));
    assert_eq!(units[0].state, UnitState::Idle);
}

#[test]
fn selection_events_of_a_frame() {
    let c = px(10, 20);
    assert_eq!(create_selection_events(None, true, true, true), vec![SelectionEvent::End]);
    assert_eq!(create_selection_events(None, false, false, true), vec![SelectionEvent::End]);
    assert_eq!(create_selection_events(None, true, true, false), vec![]);
    assert_eq!(create_selection_events(None, false, true, false), vec![]);
    assert_eq!(
        create_selection_events(Some(c), true, true, false),
        vec![SelectionEvent::Start(c), SelectionEvent::Current(c)]
    );
    assert_eq!(create_selection_events(Some(c), false, true, false), vec![SelectionEvent::Current(c)]);
    assert_eq!(create_selection_events(Some(c), false, false, true), vec![SelectionEvent::End]);
    assert_eq!(create_selection_events(Some(c), false, true, true), vec![SelectionEvent::End]);
    assert_eq!(
        create_selection_events(Some(c), true, false, true),
        vec![SelectionEvent::Start(c), SelectionEvent::End]
    );
    assert_eq!(create_selection_events(Some(c), false, false, false), vec![]);
}

#[test]
fn drag_opens_stretches_and_closes_the_rectangle() {
    let mut marquee = None;
    start_drawing_selection(&mut marquee, &SelectionEvent::Current(px(1, 1)));
    assert_eq!(marquee, None);
    set_selection_size(&mut marquee, &SelectionEvent::Current(px(1, 1)));
    assert_eq!(marquee, None);
    start_drawing_selection(&mut marquee, &SelectionEvent::Start(px(100, 200)));
    assert_eq!(marquee, Some(Selection { origin: px(100, 200), width: 0, height: 0 }));
    set_selection_size(&mut marquee, &SelectionEvent::Current(px(130, 150)));
    assert_eq!(marquee, Some(Selection { origin: px(100, 200), width: 30, height: 50 }));
    set_selection_size(&mut marquee, &SelectionEvent::Current(px(90, 260)));
    assert_eq!(marquee, Some(Selection { origin: px(100, 200), width: -10, height: -60 }));
    set_selection_size(&mut marquee, &SelectionEvent::End);
    assert_eq!(marquee, Some(Selection { origin: px(100, 200), width: -10, height: -60 }));
    despawn_selection(&mut marquee, &SelectionEvent::Current(px(0, 0)));
    assert!(marquee.is_some());
    despawn_selection(&mut marquee, &SelectionEvent::End);
    assert_eq!(marquee, None);
    despawn_selection(&mut marquee, &SelectionEvent::End);
    assert_eq!(marquee, None);
}

#[test]
fn drag_with_extreme_screen_points() {
    let mut marquee = Some(Selection { origin: px(i32::MIN, i32::MAX), width: 0, height: 0 });
    set_selection_size(&mut marquee, &SelectionEvent::Current(px(i32::MAX, i32::MIN)));
    assert_eq!(
        marquee,
        Some(Selection {
            origin: px(i32::MIN, i32::MAX),
            width: i32::MAX as i64 - i32::MIN as i64,
            height: i32::MAX as i64 - i32::MIN as i64,
        })
    );
}

#[test]
fn drag_followed_through_frames() {
    let mut marquee = None;
    track_selection(&mut marquee, &create_selection_events(Some(px(5, 5)), true, true, false));
    assert_eq!(marquee, Some(Selection { origin: px(5, 5), width: 0, height: 0 }));
    track_selection(&mut marquee, &create_selection_events(Some(px(9, 2)), false, true, false));
    assert_eq!(marquee, Some(Selection { origin: px(5, 5), width: 4, height: 3 }));
    track_selection(&mut marquee, &create_selection_events(None, false, true, false));
    assert_eq!(marquee, Some(Selection { origin: px(5, 5), width: 4, height: 3 }));
    track_selection(&mut marquee, &create_selection_events(Some(px(9, 2)), false, false, true));
    assert_eq!(marquee, None);
    // a release ends the drag even when the pointer has left the window
    track_selection(&mut marquee, &create_selection_events(Some(px(5, 5)), true, true, false));
    assert!(marquee.is_some());
    track_selection(&mut marquee, &create_selection_events(None, false, false, true));
    assert_eq!(marquee, None);
    track_selection(
        &mut marquee,
        &vec![SelectionEvent::Start(px(1, 1)), SelectionEvent::End, SelectionEvent::Start(px(2, 2))],
    );
    assert_eq!(marquee, Some(Selection { origin: px(2, 2), width: 0, height: 0 }));
}

#[test]
fn camera_scrolls_at_the_edges() {
    let mut cam = camera();
    move_camera(&mut cam, None, viewport(), 16);
    assert_eq!(cam.position, pt(5_000, 10_000, 5_000));
    move_camera(&mut cam, Some(MIDDLE), viewport(), 16);
    assert_eq!(cam.position, pt(5_000, 10_000, 5_000));
    move_camera(&mut cam, Some(px(799, 300)), viewport(), 16);
    assert_eq!(cam.position, pt(5_800, 10_000, 5_000));
    move_camera(&mut cam, Some(px(1, 300)), viewport(), 16);
    assert_eq!(cam.position, pt(5_000, 10_000, 5_000));
    move_camera(&mut cam, Some(px(400, 599)), viewport(), 16);
    assert_eq!(cam.position, pt(5_000, 10_000, 4_200));
    move_camera(&mut cam, Some(px(400, 0)), viewport(), 16);
    assert_eq!(cam.position, pt(5_000, 10_000, 5_000));
    move_camera(&mut cam, Some(px(800, 600)), viewport(), 10);
    assert_eq!(cam.position, pt(5_500, 10_000, 4_500));
    move_camera(&mut cam, Some(px(798, 2)), viewport(), 10);
    assert_eq!(cam.position, pt(5_500, 10_000, 4_500));
}

#[test]
fn camera_scroll_stops_at_the_end_of_the_world() {
    let mut cam = camera();
    cam.position = pt(i32::MAX - 10, 0, i32::MIN + 10);
    move_camera(&mut cam, Some(px(800, 600)), viewport(), u32::MAX);
    assert_eq!(cam.position, pt(i32::MAX, 0, i32::MIN));
}

#[test]
fn camera_height_is_restricted() {
    let mut cam = camera();
    for (before, after) in
        [(2_999, 3_000), (3_000, 3_000), (3_001, 3_001), (15_999, 15_999), (16_000, 16_000), (16_001, 16_000), (i32::MIN, 3_000), (i32::MAX, 16_000)]
    {
        cam.position.y = before;
        restrict_camera(&mut cam);
        assert_eq!(cam.position, pt(5_000, after, 5_000));
    }
    assert_eq!(cam.focal, 600);
}

#[test]
fn wheel_raises_and_lowers_the_camera() {
    let mut cam = camera();
    zoom(&mut cam, &vec![], 16);
    assert_eq!(cam.position.y, 10_000);
    zoom(&mut cam, &vec![-1], 16);
    assert_eq!(cam.position.y, 10_160);
    zoom(&mut cam, &vec![1, 1, 0, 2, -1], 10);
    assert_eq!(cam.position.y, 10_060);
    cam.position.y = i32::MAX - 5;
    zoom(&mut cam, &vec![-1, 1], 1);
    assert_eq!(cam.position.y, i32::MAX - 10);
    assert_eq!(cam.position.x, 5_000);
    assert_eq!(cam.position.z, 5_000);
}

#[test]
fn escape_toggles_the_game() {
    assert_eq!(GameState::default(), GameState::InGame);
    assert_eq!(pause_game(GameState::InGame, true), GameState::Menu);
    assert_eq!(pause_game(GameState::InGame, false), GameState::InGame);
    assert_eq!(pause_game(GameState::Menu, true), GameState::Menu);
    assert_eq!(resume_game(GameState::Menu, true), GameState::InGame);
    assert_eq!(resume_game(GameState::Menu, false), GameState::Menu);
    assert_eq!(resume_game(GameState::InGame, true), GameState::InGame);
}

fn quiet_frame(elapsed_ms: u32) -> FrameInput {
    FrameInput {
        camera: camera(),
        cursor: Some(ON_NOTHING),
        viewport: viewport(),
        left_just_pressed: false,
        left_just_released: false,
        right_just_pressed: false,
        elapsed_ms,
    }
}

#[test]
fn frames_run_selection_orders_and_movement_in_turn() {
    let mut units = vec![Unit::new(1, pt(0, 0, 0)), Unit::new(2, pt(5_000, 0, 5_000))];
    let press = FrameInput { cursor: Some(ON_ORIGIN), left_just_pressed: true, ..quiet_frame(16) };
    run_frame(&mut units, &ground(), &press);
    assert!(units[0].selectable.is_selected);
    assert!(!units[1].selectable.is_selected);
    let release = FrameInput { cursor: Some(ON_ORIGIN), left_just_released: true, ..quiet_frame(16) };
    run_frame(&mut units, &ground(), &release);
    assert!(units[0].selectable.is_selected);
    // a right click is handed out, taken up and moved on within its frame
    let click = FrameInput { cursor: Some(MIDDLE), right_just_pressed: true, ..quiet_frame(100) };
    run_frame(&mut units, &ground(), &click);
    assert_eq!(units[0].orders.len(), 0);
    assert_eq!(units[0].state, UnitState::Moving(pt(5_000, 0, 5_000)));
    // 500 steps along a way of 7072: 5000 * 500 / 7072 = 353.5
    assert_eq!(units[0].position, pt(353, 0, 353));
    assert_eq!(units[1].state, UnitState::Idle);
    assert_eq!(units[1].position, pt(5_000, 0, 5_000));
    run_frame(&mut units, &ground(), &quiet_frame(1_400));
    assert_eq!(units[0].position, pt(5_000, 0, 5_000));
    assert_eq!(units[0].state, UnitState::Idle);
    assert!(units[0].selectable.is_selected);
}

#[test]
fn frames_take_up_orders_first_come_first_served() {
    let mut units = vec![Unit::new(1, pt(0, 0, 0))];
    units[0].selectable.is_selected = true;
    units[0].orders.enqueue(Order::Move(pt(10, 0, 0)));
    units[0].orders.enqueue(Order::Move(pt(20, 0, 0)));
    // an order that comes in later waits behind the two
    let click = FrameInput { cursor: Some(MIDDLE), right_just_pressed: true, ..quiet_frame(0) };
    run_frame(&mut units, &ground(), &click);
    assert_eq!(units[0].state, UnitState::Moving(pt(10, 0, 0)));
    run_frame(&mut units, &ground(), &quiet_frame(0));
    assert_eq!(units[0].state, UnitState::Moving(pt(20, 0, 0)));
    run_frame(&mut units, &ground(), &quiet_frame(0));
    assert_eq!(units[0].state, UnitState::Moving(pt(5_000, 0, 5_000)));
    run_frame(&mut units, &ground(), &quiet_frame(0));
    assert_eq!(units[0].state, UnitState::Moving(pt(5_000, 0, 5_000)));
    assert_eq!(units[0].orders.len(), 0);
}

#[test]
fn short_frames_add_up() {
    let mut u = Unit::new(1, pt(0, 0, 0));
    let target = pt(1_000, 0, 1_000);
    u.state = UnitState::Moving(target);
    // the way is 1415 steps long, rounded up; 283 frames of 1 ms cover 1415 steps
    let mut last = u.position;
    for _ in 0..282 {
        u.advance(1);
        assert_eq!(u.state, UnitState::Moving(target));
        assert!(u.unspent <= 2);
        let dx = (u.position.x - last.x) as i64;
        let dz = (u.position.z - last.z) as i64;
        // no frame takes the unit farther than 5 steps and what it carried
        assert!(dx * dx + dz * dz <= 7 * 7);
        last = u.position;
    }
    u.advance(1);
    assert_eq!(u.position, target);
    assert_eq!(u.state, UnitState::Idle);
}

#[test]
fn select_order_move_arrive_frame_by_frame() {
    let mut units = vec![Unit::new(1, pt(0, 0, 0))];
    let press = FrameInput { cursor: Some(ON_ORIGIN), left_just_pressed: true, ..quiet_frame(0) };
    run_frame(&mut units, &ground(), &press);
    let release = FrameInput { cursor: Some(ON_ORIGIN), left_just_released: true, ..quiet_frame(0) };
    run_frame(&mut units, &ground(), &release);
    assert!(units[0].selectable.is_selected);
    let click = FrameInput { cursor: Some(MIDDLE), right_just_pressed: true, ..quiet_frame(0) };
    run_frame(&mut units, &ground(), &click);
    assert_eq!(units[0].state, UnitState::Moving(pt(5_000, 0, 5_000)));
    assert_eq!(units[0].position, pt(0, 0, 0));
    // the way takes 1414.2 ms; frames of 5 ms have added up to it after 283 of them
    for _ in 0..282 {
        run_frame(&mut units, &ground(), &quiet_frame(5));
        assert_eq!(units[0].state, UnitState::Moving(pt(5_000, 0, 5_000)));
    }
    run_frame(&mut units, &ground(), &quiet_frame(5));
    assert_eq!(units[0].position, pt(5_000, 0, 5_000));
    assert_eq!(units[0].state, UnitState::Idle);
    // a release with the pointer outside the window leaves the selection alone
    let outside = FrameInput { cursor: None, left_just_released: true, ..quiet_frame(5) };
    run_frame(&mut units, &ground(), &outside);
    assert!(units[0].selectable.is_selected);
}
