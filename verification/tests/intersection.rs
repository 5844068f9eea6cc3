use rand::Rng;
use smart_road::intersection::{
    conflicts, crossing_ticks, crossing_waypoints, exit_direction, path_index, IntersectionManager,
    CONFLICTS, GRACE_TICKS, LOOKAHEAD_TICKS, PATH_COUNT,
};
use smart_road::renderer::{CENTER_X, CENTER_Y, ROAD_W};
use smart_road::vehicle::{Direction, Route};

const DIRECTIONS: [Direction; 4] = [Direction::South, Direction::North, Direction::West, Direction::East];
const ROUTES: [Route; 3] = [Route::Right, Route::Straight, Route::Left];

// ── path_index ────────────────────────────────────────────────────────────

#[test]
fn path_index_spans_0_to_11() {
    let mut seen = [false; 12];
    for d in [
        Direction::South,
        Direction::North,
        Direction::West,
        Direction::East,
    ] {
        for r in [Route::Right, Route::Straight, Route::Left] {
            let i = path_index(d, r);
            assert!(i < 12, "path_index out of range: {i}");
            assert!(!seen[i], "path_index collision at {i}");
            seen[i] = true;
        }
    }
    assert!(
        seen.iter().all(|&v| v),
        "not all indices 0-11 were produced"
    );
}

// ── conflict table ────────────────────────────────────────────────────────

#[test]
fn conflicts_table_is_symmetric() {
    for (i, row) in CONFLICTS.iter().enumerate() {
        for (j, &val) in row.iter().enumerate() {
            assert_eq!(val, CONFLICTS[j][i], "asymmetry at [{i}][{j}]");
        }
    }
}

#[test]
fn right_turns_are_conflict_free() {
    // Right turns map to indices 0 (S_r), 3 (N_r), 6 (W_r), 9 (E_r)
    for &r in &[
        path_index(Direction::South, Route::Right),
        path_index(Direction::North, Route::Right),
        path_index(Direction::West, Route::Right),
        path_index(Direction::East, Route::Right),
    ] {
        for (other, &conflict) in CONFLICTS[r].iter().enumerate() {
            assert!(!conflict, "right turn {r} conflicts with {other}");
        }
    }
}

#[test]
fn conflicts_lookup_matches_table() {
    for a in 0..PATH_COUNT {
        for b in 0..PATH_COUNT {
            assert_eq!(conflicts(a, b), CONFLICTS[a][b]);
        }
        assert!(!conflicts(a, a), "path {a} conflicts with itself");
    }
    // S_s and N_l cross each other
    assert!(conflicts(1, 5));
    assert!(conflicts(5, 1));
}

// ── crossing geometry ─────────────────────────────────────────────────────

#[test]
fn right_turn_shorter_than_straight() {
    let right = crossing_ticks(Direction::South, Route::Right);
    let straight = crossing_ticks(Direction::South, Route::Straight);
    assert!(right < straight, "right {right} >= straight {straight}");
}

#[test]
fn path_lengths_symmetric_for_opposing_directions() {
    let s = crossing_ticks(Direction::South, Route::Straight) as f32;
    let n = crossing_ticks(Direction::North, Route::Straight) as f32;
    assert!((s - n).abs() < 1.0, "S/N straight lengths differ: {s:.1} vs {n:.1}");

    let w = crossing_ticks(Direction::West, Route::Straight) as f32;
    let e = crossing_ticks(Direction::East, Route::Straight) as f32;
    assert!((w - e).abs() < 1.0, "W/E straight lengths differ: {w:.1} vs {e:.1}");
}

#[test]
fn crossing_ticks_values() {
    for d in DIRECTIONS {
        assert_eq!(crossing_ticks(d, Route::Right), 20);
        assert_eq!(crossing_ticks(d, Route::Straight), 90);
        assert_eq!(crossing_ticks(d, Route::Left), 104);
    }
}

#[test]
fn crossing_ticks_match_float_path_length() {
    // the window is the path length at 3 px per tick, rounded up, plus the grace ticks
    for d in DIRECTIONS {
        for r in ROUTES {
            let pts = crossing_waypoints(d, r);
            let len: f32 = pts
                .windows(2)
                .map(|w| {
                    let dx = (w[1].0 - w[0].0) as f32;
                    let dy = (w[1].1 - w[0].1) as f32;
                    (dx * dx + dy * dy).sqrt()
                })
                .sum();
            assert_eq!(crossing_ticks(d, r), (len / 3.0).ceil() as u64 + GRACE_TICKS);
        }
    }
}

#[test]
fn crossing_waypoints_concrete() {
    assert_eq!(crossing_waypoints(Direction::South, Route::Right), vec![(300, 280), (280, 300)]);
    assert_eq!(crossing_waypoints(Direction::North, Route::Straight), vec![(460, 520), (460, 280)]);
    assert_eq!(
        crossing_waypoints(Direction::South, Route::Left),
        vec![(380, 280), (380, 420), (520, 420)]
    );
    assert_eq!(
        crossing_waypoints(Direction::East, Route::Left),
        vec![(280, 420), (420, 420), (420, 280)]
    );
}

#[test]
fn crossing_paths_start_and_end_on_box_edges() {
    let (top, bottom) = (CENTER_Y - ROAD_W, CENTER_Y + ROAD_W);
    let (left, right) = (CENTER_X - ROAD_W, CENTER_X + ROAD_W);
    for d in DIRECTIONS {
        for r in ROUTES {
            let pts = crossing_waypoints(d, r);
            let on_edge = |p: (i32, i32)| p.0 == left || p.0 == right || p.1 == top || p.1 == bottom;
            assert!(on_edge(pts[0]) && on_edge(*pts.last().unwrap()), "{d:?}/{r:?}");
        }
    }
}

// ── exit_direction ────────────────────────────────────────────────────────

#[test]
fn exit_direction_straight_is_unchanged() {
    for d in [
        Direction::North,
        Direction::South,
        Direction::East,
        Direction::West,
    ] {
        assert_eq!(exit_direction(d, Route::Straight), d);
    }
}

#[test]
fn exit_direction_right_turns() {
    assert_eq!(exit_direction(Direction::South, Route::Right), Direction::West);
    assert_eq!(exit_direction(Direction::North, Route::Right), Direction::East);
    assert_eq!(exit_direction(Direction::West, Route::Right), Direction::North);
    assert_eq!(exit_direction(Direction::East, Route::Right), Direction::South);
}

#[test]
fn exit_direction_left_turns() {
    assert_eq!(exit_direction(Direction::South, Route::Left), Direction::East);
    assert_eq!(exit_direction(Direction::North, Route::Left), Direction::West);
    assert_eq!(exit_direction(Direction::West, Route::Left), Direction::South);
    assert_eq!(exit_direction(Direction::East, Route::Left), Direction::North);
}

#[test]
fn right_then_left_restores_heading() {
    for d in DIRECTIONS {
        let turned = exit_direction(d, Route::Right);
        assert_ne!(turned, d);
        assert_eq!(exit_direction(turned, Route::Left), d);
    }
}

// ── IntersectionManager ───────────────────────────────────────────────────

#[test]
fn reserve_and_release() {
    let mut mgr = IntersectionManager::new();
    assert!(mgr.try_reserve(0, Direction::South, Route::Straight, 0));
    mgr.release(0);
    assert!(mgr.try_reserve(0, Direction::South, Route::Straight, 0));
}

#[test]
fn second_reserve_same_vehicle_is_noop() {
    let mut mgr = IntersectionManager::new();
    assert!(mgr.try_reserve(0, Direction::South, Route::Straight, 0));
    // Calling again for the same vehicle should return true without double-booking.
    assert!(mgr.try_reserve(0, Direction::South, Route::Straight, 0));
    assert_eq!(mgr.reservations().len(), 1);
}

#[test]
fn conflicting_paths_block_second_vehicle() {
    let mut mgr = IntersectionManager::new();
    // S_s and N_l conflict in the CONFLICTS table.
    assert!(mgr.try_reserve(0, Direction::South, Route::Straight, 0));
    assert!(!mgr.try_reserve(1, Direction::North, Route::Left, 0));
}

#[test]
fn non_conflicting_paths_both_granted() {
    let mut mgr = IntersectionManager::new();
    // Right turns never conflict.
    assert!(mgr.try_reserve(0, Direction::South, Route::Right, 0));
    assert!(mgr.try_reserve(1, Direction::North, Route::Right, 0));
    assert!(mgr.try_reserve(2, Direction::West, Route::Right, 0));
    assert!(mgr.try_reserve(3, Direction::East, Route::Right, 0));
}

#[test]
fn cleanup_expired_removes_old_slots() {
    let mut mgr = IntersectionManager::new();
    mgr.try_reserve(0, Direction::South, Route::Straight, 0);

    // Slot should still block a conflict shortly after.
    mgr.cleanup_expired(1);
    assert!(!mgr.try_reserve(1, Direction::North, Route::Left, 1));

    // After the full crossing window expires, the conflict clears.
    let expire_at = crossing_ticks(Direction::South, Route::Straight) + 50;
    mgr.cleanup_expired(expire_at);
    assert!(mgr.try_reserve(1, Direction::North, Route::Left, expire_at));
}

#[test]
fn booked_window_matches_crossing_ticks() {
    let mut mgr = IntersectionManager::new();
    assert!(mgr.try_reserve(7, Direction::West, Route::Left, 33));
    let r = mgr.reservations()[0];
    assert_eq!(r.vehicle_id, 7);
    assert_eq!(r.path_idx, path_index(Direction::West, Route::Left));
    assert_eq!(r.entry_tick, 33);
    assert_eq!(r.exit_tick, 33 + 104);
}

#[test]
fn cleanup_keeps_open_windows_in_order() {
    let mut mgr = IntersectionManager::new();
    assert!(mgr.try_reserve(0, Direction::South, Route::Right, 0)); // closes at 20
    assert!(mgr.try_reserve(1, Direction::North, Route::Straight, 0)); // closes at 90
    assert!(mgr.try_reserve(2, Direction::West, Route::Right, 5)); // closes at 25
    mgr.cleanup_expired(20);
    let ids: Vec<u32> = mgr.reservations().iter().map(|r| r.vehicle_id).collect();
    assert_eq!(ids, vec![1, 2]);
    mgr.cleanup_expired(25);
    let ids: Vec<u32> = mgr.reservations().iter().map(|r| r.vehicle_id).collect();
    assert_eq!(ids, vec![1]);
}

#[test]
fn release_only_drops_that_vehicle() {
    let mut mgr = IntersectionManager::new();
    assert!(mgr.try_reserve(0, Direction::South, Route::Right, 0));
    assert!(mgr.try_reserve(1, Direction::North, Route::Right, 0));
    mgr.release(0);
    mgr.release(42);
    let ids: Vec<u32> = mgr.reservations().iter().map(|r| r.vehicle_id).collect();
    assert_eq!(ids, vec![1]);
}

#[test]
fn windows_touching_end_to_start_do_not_conflict() {
    let mut mgr = IntersectionManager::new();
    assert!(mgr.try_reserve(0, Direction::South, Route::Straight, 0)); // [0, 90)
    assert!(!mgr.try_reserve(1, Direction::North, Route::Left, 89));
    assert!(mgr.try_reserve(1, Direction::North, Route::Left, 90));
}

#[test]
fn timed_reservation_books_earliest_arrival_when_free() {
    let mut mgr = IntersectionManager::new();
    assert_eq!(mgr.try_reserve_timed(0, Direction::South, Route::Straight, 100, 40, 130), Some(140));
    let r = mgr.reservations()[0];
    assert_eq!((r.entry_tick, r.exit_tick), (140, 230));
}

#[test]
fn timed_reservation_jumps_past_conflicting_window() {
    let mut mgr = IntersectionManager::new();
    assert!(mgr.try_reserve(0, Direction::South, Route::Straight, 0)); // [0, 90)
    // N_l conflicts with S_s: the first free entry is when S_s clears
    assert_eq!(mgr.try_reserve_timed(1, Direction::North, Route::Left, 0, 10, 20), Some(90));
    // a non-conflicting path gets its earliest arrival
    assert_eq!(mgr.try_reserve_timed(2, Direction::West, Route::Right, 0, 10, 20), Some(10));
}

#[test]
fn timed_reservation_keeps_booking_while_reachable() {
    let mut mgr = IntersectionManager::new();
    assert_eq!(mgr.try_reserve_timed(5, Direction::East, Route::Straight, 0, 20, 60), Some(20));
    // asking again later keeps the same slot, within the grace ticks
    assert_eq!(mgr.try_reserve_timed(5, Direction::East, Route::Straight, 10, 1, 2), Some(20));
    assert_eq!(mgr.try_reserve_timed(5, Direction::East, Route::Straight, 20 + GRACE_TICKS, 1, 2), Some(20));
    assert_eq!(mgr.reservations().len(), 1);
}

#[test]
fn timed_reservation_rebooks_after_missing_entry() {
    let mut mgr = IntersectionManager::new();
    assert_eq!(mgr.try_reserve_timed(5, Direction::East, Route::Straight, 0, 20, 60), Some(20));
    // the entry window has passed: drop the old slot and book a fresh one
    let now = 20 + GRACE_TICKS + 1;
    assert_eq!(mgr.try_reserve_timed(5, Direction::East, Route::Straight, now, 3, 6), Some(now + 3));
    assert_eq!(mgr.reservations().len(), 1);
    assert_eq!(mgr.reservations()[0].entry_tick, now + 3);
}

#[test]
fn timed_reservation_none_when_saturated() {
    let mut mgr = IntersectionManager::new();
    // paths crossing N_l, booked back to back over [0, 492)
    assert!(mgr.try_reserve(0, Direction::South, Route::Straight, 0)); // [0, 90)
    assert!(mgr.try_reserve(1, Direction::East, Route::Straight, 90)); // [90, 180)
    assert!(mgr.try_reserve(2, Direction::South, Route::Left, 180)); // [180, 284)
    assert!(mgr.try_reserve(3, Direction::West, Route::Left, 284)); // [284, 388)
    assert!(mgr.try_reserve(4, Direction::East, Route::Left, 388)); // [388, 492)
    // every entry in [0, 0 + 0 + LOOKAHEAD_TICKS] is blocked
    assert_eq!(LOOKAHEAD_TICKS, 400);
    assert_eq!(mgr.try_reserve_timed(9, Direction::North, Route::Left, 0, 0, 0), None);
    assert_eq!(mgr.reservations().len(), 5);
    // with a longer crawl estimate the slot after the last window is found
    assert_eq!(mgr.try_reserve_timed(9, Direction::North, Route::Left, 0, 0, 92), Some(492));
}

#[test]
fn timed_reservation_drops_old_slot_when_none_found() {
    let mut mgr = IntersectionManager::new();
    assert_eq!(mgr.try_reserve_timed(1, Direction::North, Route::Left, 0, 5, 5), Some(5));
    // much later the old slot is gone and the arrival range is empty
    assert_eq!(mgr.try_reserve_timed(1, Direction::North, Route::Left, 1000, 500, 0), None);
    assert!(mgr.reservations().is_empty());
}

#[test]
fn right_turn_always_granted() {
    let mut mgr = IntersectionManager::new();
    for (i, (d, r)) in [
        (Direction::South, Route::Straight),
        (Direction::North, Route::Left),
        (Direction::West, Route::Straight),
        (Direction::East, Route::Left),
    ]
    .into_iter()
    .enumerate()
    {
        mgr.try_reserve(i as u32, d, r, 0);
    }
    for (k, d) in DIRECTIONS.into_iter().enumerate() {
        assert!(mgr.try_reserve(100 + k as u32, d, Route::Right, 0));
        assert_eq!(mgr.try_reserve_timed(200 + k as u32, d, Route::Right, 0, 7, 9), Some(7));
    }
}

#[test]
fn reserve_then_release_restores_other_bookings() {
    let mut mgr = IntersectionManager::new();
    assert!(mgr.try_reserve(0, Direction::South, Route::Right, 0));
    assert!(mgr.try_reserve(1, Direction::North, Route::Straight, 3));
    let before = mgr.reservations().clone();
    assert!(mgr.try_reserve(2, Direction::West, Route::Right, 4));
    mgr.release(2);
    assert_eq!(mgr.reservations(), &before);
}

#[test]
fn schedule_never_overlaps_conflicting_windows() {
    let mut rng = rand::thread_rng();
    let mut mgr = IntersectionManager::new();
    for tick in 0..3000u64 {
        mgr.cleanup_expired(tick);
        let id: u32 = rng.gen_range(0..40);
        let d = DIRECTIONS[rng.gen_range(0..4)];
        let r = ROUTES[rng.gen_range(0..3)];
        match rng.gen_range(0..3) {
            0 => {
                mgr.try_reserve(id, d, r, tick);
            }
            1 => {
                let fast: u64 = rng.gen_range(0..60);
                let slow: u64 = fast + rng.gen_range(0..140);
                let held = mgr.reservations().iter().any(|b| b.vehicle_id == id);
                if let Some(e) = mgr.try_reserve_timed(id, d, r, tick, fast, slow) {
                    let booked = mgr.reservations().iter().find(|b| b.vehicle_id == id).unwrap();
                    assert_eq!(booked.entry_tick, e);
                    if !held {
                        assert!(e >= tick + fast && e <= tick + slow + LOOKAHEAD_TICKS);
                    }
                }
            }
            _ => mgr.release(id),
        }
        let s = mgr.reservations();
        for i in 0..s.len() {
            assert_eq!(s[i].exit_tick - s[i].entry_tick, crossing_ticks(
                [Direction::South, Direction::North, Direction::West, Direction::East][s[i].path_idx / 3],
                ROUTES[s[i].path_idx % 3],
            ));
            for j in 0..s.len() {
                if i != j {
                    assert_ne!(s[i].vehicle_id, s[j].vehicle_id);
                    if conflicts(s[i].path_idx, s[j].path_idx) {
                        assert!(s[i].exit_tick <= s[j].entry_tick || s[j].exit_tick <= s[i].entry_tick);
                    }
                }
            }
        }
    }
}

#[test]
fn timed_reservation_search_stops_at_end_of_clock() {
    let mut mgr = IntersectionManager::new();
    // the look-ahead would run past the clock, so it ends where a window still fits
    let now = u64::MAX - 150;
    assert_eq!(mgr.try_reserve_timed(1, Direction::East, Route::Straight, now, 0, 0), Some(now));
    let r = mgr.reservations()[0];
    assert_eq!((r.entry_tick, r.exit_tick), (now, now + 90));
    // a conflicting request could only enter after the last entry that fits the clock
    assert_eq!(mgr.try_reserve_timed(2, Direction::South, Route::Straight, now, 0, 0), None);
    assert_eq!(mgr.reservations().len(), 1);
}

#[test]
fn timed_reservation_none_when_no_window_fits_the_clock() {
    let mut mgr = IntersectionManager::new();
    assert_eq!(mgr.try_reserve_timed(1, Direction::East, Route::Straight, u64::MAX - 50, 0, 0), None);
    assert_eq!(mgr.try_reserve_timed(2, Direction::East, Route::Right, 10, u64::MAX, u64::MAX), None);
    assert!(mgr.reservations().is_empty());
}

#[test]
fn timed_reservation_leaves_other_vehicles_alone() {
    let mut mgr = IntersectionManager::new();
    assert_eq!(mgr.try_reserve_timed(1, Direction::South, Route::Straight, 0, 10, 20), Some(10));
    assert_eq!(mgr.try_reserve_timed(2, Direction::East, Route::Straight, 0, 30, 40), Some(100));
    let before = mgr.reservations()[0];
    // vehicle 2 misses its entry and re-books; vehicle 1 keeps its window
    assert_eq!(mgr.try_reserve_timed(2, Direction::East, Route::Straight, 100 + GRACE_TICKS + 1, 1, 2), Some(112));
    assert_eq!(mgr.reservations().len(), 2);
    assert_eq!(mgr.reservations()[0], before);
    assert!(mgr.reservations().iter().all(|r| r.entry_tick < r.exit_tick));
}
