use smart_road::intersection::IntersectionManager;
use smart_road::vehicle::physics::{MIN_FOLLOWING_GAP, SAFETY_DISTANCE, VEHICLE_LENGTH};
use smart_road::vehicle::{direction_to_angle, Direction, Route, Vehicle, VehicleState};

fn veh(dir: Direction) -> Vehicle {
    Vehicle::new(0, dir, Route::Straight)
}

// ── direction_to_angle ────────────────────────────────────────────────────

#[test]
fn direction_to_angle_correct() {
    assert_eq!(direction_to_angle(Direction::North) as f32, 0.0);
    assert_eq!(direction_to_angle(Direction::East) as f32, 90.0);
    assert_eq!(direction_to_angle(Direction::South) as f32, 180.0);
    assert_eq!(direction_to_angle(Direction::West) as f32, 270.0);
}

// ── transit_ticks ─────────────────────────────────────────────────────────

#[test]
fn transit_ticks_none_without_detection() {
    let mut v = veh(Direction::North);
    v.exit_tick = Some(100);
    assert!(v.transit_ticks().is_none());
}

#[test]
fn transit_ticks_none_without_exit() {
    let mut v = veh(Direction::North);
    v.detection_tick = Some(10);
    assert!(v.transit_ticks().is_none());
}

#[test]
fn transit_ticks_computed_correctly() {
    let mut v = veh(Direction::North);
    v.detection_tick = Some(20);
    v.exit_tick = Some(80);
    assert_eq!(v.transit_ticks(), Some(60));
}

// ── physics constants ─────────────────────────────────────────────────────

#[test]
fn min_following_gap_exceeds_safety_distance() {
    const { assert!(MIN_FOLLOWING_GAP > SAFETY_DISTANCE) };
}

#[test]
fn min_following_gap_is_safety_plus_length() {
    assert_eq!(MIN_FOLLOWING_GAP, SAFETY_DISTANCE + VEHICLE_LENGTH);
    assert_eq!(MIN_FOLLOWING_GAP, 72);
}

// ── trip phases ───────────────────────────────────────────────────────────

#[test]
fn new_vehicle_is_approaching_without_booking() {
    let v = Vehicle::new(3, Direction::West, Route::Left);
    assert_eq!(v.id, 3);
    assert_eq!(v.state, VehicleState::Approaching);
    assert_eq!(v.reservation, None);
    assert_eq!(v.detection_tick, None);
    assert_eq!(v.exit_tick, None);
}

#[test]
fn stop_line_without_booking_starts_waiting() {
    let mut v = veh(Direction::South);
    assert!(!v.arrive_at_stop_line(12));
    assert_eq!(v.state, VehicleState::Waiting);
    assert_eq!(v.detection_tick, Some(12));
}

#[test]
fn stop_line_holds_until_entry_tick() {
    let mut v = veh(Direction::South);
    v.reservation = Some(30);
    assert!(!v.arrive_at_stop_line(25));
    assert_eq!(v.state, VehicleState::Approaching);
    assert!(v.arrive_at_stop_line(30));
    assert_eq!(v.state, VehicleState::Crossing);
    // the first detection is kept
    assert_eq!(v.detection_tick, Some(25));
}

#[test]
fn waiting_vehicle_enters_when_granted() {
    let mut mgr = IntersectionManager::new();
    let mut a = Vehicle::new(1, Direction::South, Route::Straight);
    let mut b = Vehicle::new(2, Direction::North, Route::Left);
    a.state = VehicleState::Waiting;
    b.state = VehicleState::Waiting;
    assert!(a.try_enter(&mut mgr, 0));
    assert_eq!(a.state, VehicleState::Crossing);
    assert!(!b.try_enter(&mut mgr, 0));
    assert_eq!(b.state, VehicleState::Waiting);
}

#[test]
fn finishing_crossing_turns_and_releases() {
    let mut mgr = IntersectionManager::new();
    let mut a = Vehicle::new(1, Direction::South, Route::Straight);
    let mut b = Vehicle::new(2, Direction::North, Route::Left);
    assert!(a.try_enter(&mut mgr, 0));
    assert_eq!(b.state, VehicleState::Approaching);
    let mut c = Vehicle::new(4, Direction::West, Route::Left);
    c.reservation = Some(0);
    assert_eq!(c.finish_crossing(&mut mgr), Direction::South);
    assert_eq!(c.state, VehicleState::Exiting);
    assert_eq!(c.reservation, None);
    assert_eq!(a.finish_crossing(&mut mgr), Direction::South);
    assert!(mgr.reservations().is_empty());
    // the junction is free again for the conflicting path
    assert!(b.try_enter(&mut mgr, 1));
}

#[test]
fn leaving_screen_reports_transit() {
    let mut v = veh(Direction::East);
    v.detection_tick = Some(40);
    assert_eq!(v.leave_screen(125), Some(85));
    assert_eq!(v.state, VehicleState::Done);
    assert_eq!(v.exit_tick, Some(125));
    let mut u = veh(Direction::East);
    assert_eq!(u.leave_screen(125), None);
}
