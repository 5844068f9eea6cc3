use smart_road::statistics::StatsAccumulator;

fn make_stats() -> StatsAccumulator {
    StatsAccumulator::new()
}

#[test]
fn record_exit_increments_vehicles_passed() {
    let mut s = make_stats();
    assert_eq!(s.vehicles_passed, 0);
    s.record_exit(100);
    assert_eq!(s.vehicles_passed, 1);
    s.record_exit(200);
    assert_eq!(s.vehicles_passed, 2);
}

#[test]
fn record_exit_tracks_min_max_transit() {
    let mut s = make_stats();
    s.record_exit(50);
    s.record_exit(200);
    s.record_exit(100);
    assert_eq!(s.max_transit(), Some(200), "missing max transit");
    assert_eq!(s.min_transit(), Some(50), "missing min transit");
}

#[test]
fn transit_extremes_unknown_before_any_exit() {
    let s = make_stats();
    assert_eq!(s.max_transit(), None);
    assert_eq!(s.min_transit(), None);
    let mut s = make_stats();
    s.record_exit(0);
    assert_eq!((s.min_transit(), s.max_transit()), (Some(0), Some(0)));
}

#[test]
fn update_violations_counts_new_pairs_only() {
    let mut s = make_stats();
    let pair = (0u32, 1u32);

    // First tick: pair enters violation — counts as 1.
    let current = vec![pair];
    s.update_violations(current.clone());
    assert_eq!(s.close_calls, 1);

    // Second tick: same pair still active — should NOT increment.
    s.update_violations(current);
    assert_eq!(s.close_calls, 1);

    // Third tick: pair resolved — no increment.
    s.update_violations(Vec::new());
    assert_eq!(s.close_calls, 1);

    // Fourth tick: pair re-enters — counts as a new event.
    let renewed = vec![pair];
    s.update_violations(renewed);
    assert_eq!(s.close_calls, 2);
}

#[test]
fn update_violations_counts_each_new_pair() {
    let mut s = make_stats();
    s.update_violations(vec![(0, 1), (2, 3)]);
    assert_eq!(s.close_calls, 2);
    assert_eq!(s.count_new_violations(&vec![(0, 1), (4, 5), (2, 3), (6, 7)]), 2);
    s.update_violations(vec![(0, 1), (4, 5), (2, 3), (6, 7)]);
    assert_eq!(s.close_calls, 4);
    assert_eq!(s.active_violations, vec![(0, 1), (4, 5), (2, 3), (6, 7)]);
}
