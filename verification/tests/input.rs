use smart_road::input::{
    direction_for_draw, is_running, lane_index, next_sim_state, random_direction, random_route,
    route_for_draw, spawn_pos, InputHandler, KeyPress, SimState, WindowEvent, RANDOM_INTERVAL,
};
use smart_road::intersection::crossing_waypoints;
use smart_road::renderer::{WINDOW_H, WINDOW_W};
use smart_road::vehicle::{Direction, Route};

const DIRECTIONS: [Direction; 4] = [Direction::South, Direction::North, Direction::West, Direction::East];
const ROUTES: [Route; 3] = [Route::Right, Route::Straight, Route::Left];

#[test]
fn new_handler_is_idle() {
    let h = InputHandler::new();
    assert!(!h.random_mode());
    assert_eq!(h.next_id(), 0);
}

#[test]
fn arrow_keys_request_spawns() {
    let mut h = InputHandler::new();
    assert_eq!(h.handle_key(KeyPress::Up), Some(Direction::North));
    assert_eq!(h.handle_key(KeyPress::Down), Some(Direction::South));
    assert_eq!(h.handle_key(KeyPress::Right), Some(Direction::East));
    assert_eq!(h.handle_key(KeyPress::Left), Some(Direction::West));
    assert_eq!(h.handle_key(KeyPress::Other), None);
    assert!(!h.random_mode());
}

#[test]
fn r_toggles_random_mode() {
    let mut h = InputHandler::new();
    assert_eq!(h.handle_key(KeyPress::R), None);
    assert!(h.random_mode());
    assert_eq!(h.handle_key(KeyPress::R), None);
    assert!(!h.random_mode());
}

#[test]
fn tick_spawns_every_interval_in_random_mode() {
    let mut rng = rand::thread_rng();
    let mut h = InputHandler::new();
    for _ in 0..100 {
        assert_eq!(h.tick(&mut rng), None);
    }
    h.handle_key(KeyPress::R);
    let mut spawns = 0;
    for i in 1..=(3 * RANDOM_INTERVAL) {
        let s = h.tick(&mut rng);
        assert_eq!(s.is_some(), i % RANDOM_INTERVAL == 0, "tick {i}");
        if s.is_some() {
            spawns += 1;
        }
    }
    assert_eq!(spawns, 3);
}

#[test]
fn allocated_ids_count_up() {
    let mut h = InputHandler::new();
    assert_eq!(h.allocate_id(), 0);
    assert_eq!(h.allocate_id(), 1);
    assert_eq!(h.allocate_id(), 2);
    assert_eq!(h.next_id(), 3);
}

#[test]
fn draws_map_to_directions_and_routes() {
    assert_eq!(direction_for_draw(0), Direction::North);
    assert_eq!(direction_for_draw(1), Direction::South);
    assert_eq!(direction_for_draw(2), Direction::East);
    assert_eq!(direction_for_draw(3), Direction::West);
    assert_eq!(route_for_draw(0), Route::Right);
    assert_eq!(route_for_draw(1), Route::Straight);
    assert_eq!(route_for_draw(2), Route::Left);
}

#[test]
fn random_draws_cover_all_choices() {
    let mut rng = rand::thread_rng();
    let mut dirs = std::collections::HashSet::new();
    let mut routes = std::collections::HashSet::new();
    for _ in 0..2000 {
        dirs.insert(random_direction(&mut rng));
        routes.insert(random_route(&mut rng));
    }
    assert_eq!(dirs.len(), 4);
    assert_eq!(routes.len(), 3);
}

#[test]
fn lane_index_values() {
    assert_eq!(lane_index(Direction::South, Route::Right), 0);
    assert_eq!(lane_index(Direction::South, Route::Left), 2);
    assert_eq!(lane_index(Direction::North, Route::Left), 0);
    assert_eq!(lane_index(Direction::North, Route::Right), 2);
    assert_eq!(lane_index(Direction::West, Route::Straight), 1);
    assert_eq!(lane_index(Direction::East, Route::Right), 2);
}

#[test]
fn spawn_positions_are_off_screen_lane_centres() {
    assert_eq!(spawn_pos(Direction::South, Route::Right), (300, -20));
    assert_eq!(spawn_pos(Direction::North, Route::Left), (420, 820));
    assert_eq!(spawn_pos(Direction::West, Route::Straight), (820, 340));
    assert_eq!(spawn_pos(Direction::East, Route::Right), (-20, 500));
    for d in DIRECTIONS {
        for r in ROUTES {
            let (x, y) = spawn_pos(d, r);
            assert!(x < 0 || x > WINDOW_W as i32 || y < 0 || y > WINDOW_H as i32);
        }
    }
}

#[test]
fn spawn_lane_lines_up_with_crossing_path() {
    for d in DIRECTIONS {
        for r in ROUTES {
            let (x, y) = spawn_pos(d, r);
            let start = crossing_waypoints(d, r)[0];
            match d {
                Direction::South | Direction::North => assert_eq!(x, start.0, "{d:?}/{r:?}"),
                Direction::West | Direction::East => assert_eq!(y, start.1, "{d:?}/{r:?}"),
            }
        }
    }
}

#[test]
fn escape_shows_stats_then_quits() {
    let shown = next_sim_state(SimState::Running, WindowEvent::Escape);
    assert_eq!(shown, Some(SimState::ShowingStats));
    assert!(!is_running(SimState::ShowingStats));
    assert!(is_running(SimState::Running));
    assert_eq!(next_sim_state(SimState::ShowingStats, WindowEvent::Escape), None);
    assert_eq!(next_sim_state(SimState::Running, WindowEvent::Other), Some(SimState::Running));
    assert_eq!(next_sim_state(SimState::ShowingStats, WindowEvent::Other), Some(SimState::ShowingStats));
    assert_eq!(next_sim_state(SimState::Running, WindowEvent::Quit), None);
    assert_eq!(next_sim_state(SimState::ShowingStats, WindowEvent::Quit), None);
}
