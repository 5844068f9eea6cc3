//! Junction geometry and the time-slot reservation manager.
//!
//! Each of the twelve (direction, route) pairs is a fixed path through the
//! junction. Two paths conflict when they share a tile of road; the manager
//! hands out crossing windows so that no two conflicting windows overlap.

use vstd::prelude::*;

use crate::renderer::{CENTER_X, CENTER_Y, LANE_W, ROAD_W, WINDOW_H, WINDOW_W};
use crate::vehicle::{Direction, Route};

verus! {

// ── Path index encoding ───────────────────────────────────────────────────────
// path_index = direction_index * 3 + route_index
//   South=0, North=1, West=2, East=3
//   Right=0, Straight=1, Left=2
//
//  0 S_r   1 S_s   2 S_l
//  3 N_r   4 N_s   5 N_l
//  6 W_r   7 W_s   8 W_l
//  9 E_r  10 E_s  11 E_l

/// Number of distinct paths through the junction.
pub const PATH_COUNT: usize = 12;

/// Position of a direction in the path encoding.
pub open spec fn direction_rank(direction: Direction) -> int {
    match direction {
        Direction::South => 0,
        Direction::North => 1,
        Direction::West => 2,
        Direction::East => 3,
    }
}

/// Position of a route in the path encoding.
pub open spec fn route_rank(route: Route) -> int {
    match route {
        Route::Right => 0,
        Route::Straight => 1,
        Route::Left => 2,
    }
}

/// Index of the path taken by `direction` and `route`.
pub open spec fn path_of(direction: Direction, route: Route) -> int {
    direction_rank(direction) * 3 + route_rank(route)
}

/// Direction of the path with index `idx`.
pub open spec fn path_direction(idx: int) -> Direction {
    if idx / 3 == 0 {
        Direction::South
    } else if idx / 3 == 1 {
        Direction::North
    } else if idx / 3 == 2 {
        Direction::West
    } else {
        Direction::East
    }
}

/// Route of the path with index `idx`.
pub open spec fn path_route(idx: int) -> Route {
    if idx % 3 == 0 {
        Route::Right
    } else if idx % 3 == 1 {
        Route::Straight
    } else {
        Route::Left
    }
}

/// Index of the path that `direction` and `route` take through the junction.
pub fn path_index(direction: Direction, route: Route) -> (idx: usize)
    ensures
        idx == path_of(direction, route),
        idx < PATH_COUNT,
{
    let d: usize = match direction {
        Direction::South => 0,
        Direction::North => 1,
        Direction::West => 2,
        Direction::East => 3,
    };
    let r: usize = match route {
        Route::Right => 0,
        Route::Straight => 1,
        Route::Left => 2,
    };
    d * 3 + r
}

/// The path encoding is a bijection between (direction, route) pairs and
/// the indices `0..PATH_COUNT`.
pub proof fn lemma_path_index_bijective()
    ensures
        forall|d: Direction, r: Route| 0 <= #[trigger] path_of(d, r) < PATH_COUNT,
        forall|d: Direction, r: Route|
            path_direction(#[trigger] path_of(d, r)) == d && path_route(path_of(d, r)) == r,
        forall|i: int|
            0 <= i < PATH_COUNT ==> #[trigger] path_of(path_direction(i), path_route(i)) == i,
        forall|d1: Direction, r1: Route, d2: Direction, r2: Route|
            #[trigger] path_of(d1, r1) == #[trigger] path_of(d2, r2) ==> d1 == d2 && r1 == r2,
{
    assert forall|i: int| 0 <= i < PATH_COUNT implies #[trigger] path_of(
        path_direction(i),
        path_route(i),
    ) == i by {
        assert(i == (i / 3) * 3 + i % 3);
    }
    assert forall|d1: Direction, r1: Route, d2: Direction, r2: Route|
        #[trigger] path_of(d1, r1) == #[trigger] path_of(d2, r2) implies d1 == d2 && r1 == r2 by {
        assert(path_direction(path_of(d1, r1)) == d1);
        assert(path_route(path_of(d1, r1)) == r1);
        assert(path_direction(path_of(d2, r2)) == d2);
        assert(path_route(path_of(d2, r2)) == r2);
    }
}

// ── Conflict table ────────────────────────────────────────────────────────────
// Derived from tile-overlap analysis of all 12 paths through the intersection.
// Right turns (indices 0, 3, 6, 9) are conflict-free — they stay in the corner.

/// `CONFLICTS[a][b]` holds when paths `a` and `b` share a tile of road.
pub const CONFLICTS: [[bool; 12]; 12] = [
    //S_r    S_s    S_l    N_r    N_s    N_l    W_r    W_s    W_l    E_r    E_s    E_l
    [false, false, false, false, false, false, false, false, false, false, false, false],  // S_r
    [false, false, false, false, false, true, false, true, false, false, true, true],  // S_s
    [false, false, false, false, true, true, false, true, true, false, false, true],  // S_l
    [false, false, false, false, false, false, false, false, false, false, false, false],  // N_r
    [false, false, true, false, false, false, false, true, true, false, true, false],  // N_s
    [false, true, true, false, false, false, false, false, true, false, true, true],  // N_l
    [false, false, false, false, false, false, false, false, false, false, false, false],  // W_r
    [false, true, true, false, true, false, false, false, false, false, false, true],  // W_s
    [false, false, true, false, true, true, false, false, false, false, true, true],  // W_l
    [false, false, false, false, false, false, false, false, false, false, false, false],  // E_r
    [false, true, false, false, true, true, false, false, true, false, false, false],  // E_s
    [false, true, true, false, false, true, false, true, true, false, false, false],  // E_l
];

/// Paths `a` and `b` share a tile of road.
pub open spec fn paths_conflict(a: int, b: int) -> bool {
    0 <= a < PATH_COUNT && 0 <= b < PATH_COUNT && CONFLICTS@[a]@[b]
}

/// Whether paths `a` and `b` share a tile of road.
pub fn conflicts(a: usize, b: usize) -> (c: bool)
    requires
        a < PATH_COUNT,
        b < PATH_COUNT,
    ensures
        c == paths_conflict(a as int, b as int),
{
    CONFLICTS[a][b]
}

/// The conflict relation is symmetric, no path conflicts with itself, and
/// right turns conflict with nothing.
pub proof fn lemma_conflicts_symmetric_and_right_turns_free()
    ensures
        forall|a: int, b: int| #[trigger] paths_conflict(a, b) == paths_conflict(b, a),
        forall|a: int| !#[trigger] paths_conflict(a, a),
        forall|d: Direction, b: int| !#[trigger] paths_conflict(path_of(d, Route::Right), b),
        forall|d: Direction, a: int| !#[trigger] paths_conflict(a, path_of(d, Route::Right)),
{
    assert forall|a: int, b: int| #[trigger] paths_conflict(a, b) == paths_conflict(b, a) by {
        if 0 <= a < 12 && 0 <= b < 12 {
            lemma_table_symmetric_at(a, b);
        }
    }
    assert forall|d: Direction, b: int| !#[trigger] paths_conflict(path_of(d, Route::Right), b) by {
        if 0 <= b < 12 {
            lemma_right_row_empty(d, b);
        }
    }
    assert forall|d: Direction, a: int| !#[trigger] paths_conflict(a, path_of(d, Route::Right)) by {
        if 0 <= a < 12 {
            lemma_right_row_empty(d, a);
            lemma_table_symmetric_at(a, path_of(d, Route::Right));
        }
    }
}

proof fn lemma_table_symmetric_at(a: int, b: int)
    requires
        0 <= a < 12,
        0 <= b < 12,
    ensures
        CONFLICTS@[a]@[b] == CONFLICTS@[b]@[a],
        !CONFLICTS@[a]@[a],
{
}

proof fn lemma_right_row_empty(d: Direction, b: int)
    requires
        0 <= b < 12,
    ensures
        !CONFLICTS@[path_of(d, Route::Right)]@[b],
{
}

// ── Crossing waypoints ────────────────────────────────────────────────────────
// Waypoints (x, y) of each (direction, route) through the box, in whole pixels.

/// Centre x of southbound lane `lane` (0 = outermost).
pub open spec fn southbound_x(lane: int) -> int {
    CENTER_X - ROAD_W + lane * LANE_W + LANE_W / 2
}

/// Centre x of northbound lane `lane` (0 = innermost).
pub open spec fn northbound_x(lane: int) -> int {
    CENTER_X + lane * LANE_W + LANE_W / 2
}

/// Centre y of westbound lane `lane` (0 = outermost).
pub open spec fn westbound_y(lane: int) -> int {
    CENTER_Y - ROAD_W + lane * LANE_W + LANE_W / 2
}

/// Centre y of eastbound lane `lane` (0 = innermost).
pub open spec fn eastbound_y(lane: int) -> int {
    CENTER_Y + lane * LANE_W + LANE_W / 2
}

/// The waypoints that a vehicle with `direction` and `route` follows through
/// the junction, from the stop line to the exit edge of the box.
pub open spec fn crossing_path(direction: Direction, route: Route) -> Seq<(int, int)> {
    // edges of the junction box
    let top = CENTER_Y - ROAD_W;
    let bottom = CENTER_Y + ROAD_W;
    let left = CENTER_X - ROAD_W;
    let right = CENTER_X + ROAD_W;
    match route {
        // right turns clip the corner and exit into the nearest lane of the cross street
        Route::Right => match direction {
            Direction::South => seq![(southbound_x(0), top), (left, westbound_y(0))],
            Direction::North => seq![(northbound_x(2), bottom), (right, eastbound_y(2))],
            Direction::West => seq![(right, westbound_y(0)), (northbound_x(2), top)],
            Direction::East => seq![(left, eastbound_y(2)), (southbound_x(0), bottom)],
        },
        Route::Straight => match direction {
            Direction::South => seq![(southbound_x(1), top), (southbound_x(1), bottom)],
            Direction::North => seq![(northbound_x(1), bottom), (northbound_x(1), top)],
            Direction::West => seq![(right, westbound_y(1)), (left, westbound_y(1))],
            Direction::East => seq![(left, eastbound_y(1)), (right, eastbound_y(1))],
        },
        // left turns bend through the centre and exit into the innermost lane
        Route::Left => match direction {
            Direction::South => seq![
                (southbound_x(2), top),
                (southbound_x(2), eastbound_y(0)),
                (right, eastbound_y(0)),
            ],
            Direction::North => seq![
                (northbound_x(0), bottom),
                (northbound_x(0), westbound_y(2)),
                (left, westbound_y(2)),
            ],
            Direction::West => seq![
                (right, westbound_y(2)),
                (southbound_x(2), westbound_y(2)),
                (southbound_x(2), bottom),
            ],
            Direction::East => seq![
                (left, eastbound_y(0)),
                (northbound_x(0), eastbound_y(0)),
                (northbound_x(0), top),
            ],
        },
    }
}

/// Pixel points read as mathematical integers.
pub open spec fn points_view(points: Seq<(i32, i32)>) -> Seq<(int, int)> {
    points.map_values(|p: (i32, i32)| (p.0 as int, p.1 as int))
}

/// Every coordinate of `points` lies inside the window.
pub open spec fn points_on_screen(points: Seq<(int, int)>) -> bool {
    forall|i: int|
        0 <= i < points.len() ==> 0 <= #[trigger] points[i].0 <= WINDOW_W && 0 <= points[i].1
            <= WINDOW_H
}

/// Waypoints (x, y) that a vehicle with `direction` and `route` follows
/// through the junction.
pub fn crossing_waypoints(direction: Direction, route: Route) -> (points: Vec<(i32, i32)>)
    ensures
        points_view(points@) == crossing_path(direction, route),
        2 <= points@.len() <= 3,
        points_on_screen(crossing_path(direction, route)),
{
    let cx = CENTER_X;
    let cy = CENTER_Y;
    let rw = ROAD_W;
    let lw = LANE_W;
    // lane centres, counted from the left or top edge of each carriageway
    let sb0 = cx - rw + lw / 2;
    let sb1 = sb0 + lw;
    let sb2 = sb1 + lw;
    let nb0 = cx + lw / 2;
    let nb1 = nb0 + lw;
    let nb2 = nb1 + lw;
    let wb0 = cy - rw + lw / 2;
    let wb1 = wb0 + lw;
    let wb2 = wb1 + lw;
    let eb0 = cy + lw / 2;
    let eb1 = eb0 + lw;
    let eb2 = eb1 + lw;
    // edges of the junction box
    let top = cy - rw;
    let bottom = cy + rw;
    let left = cx - rw;
    let right = cx + rw;
    let points = match route {
        Route::Right => match direction {
            Direction::South => vec![(sb0, top), (left, wb0)],
            Direction::North => vec![(nb2, bottom), (right, eb2)],
            Direction::West => vec![(right, wb0), (nb2, top)],
            Direction::East => vec![(left, eb2), (sb0, bottom)],
        },
        Route::Straight => match direction {
            Direction::South => vec![(sb1, top), (sb1, bottom)],
            Direction::North => vec![(nb1, bottom), (nb1, top)],
            Direction::West => vec![(right, wb1), (left, wb1)],
            Direction::East => vec![(left, eb1), (right, eb1)],
        },
        Route::Left => match direction {
            Direction::South => vec![(sb2, top), (sb2, eb0), (right, eb0)],
            Direction::North => vec![(nb0, bottom), (nb0, wb2), (left, wb2)],
            Direction::West => vec![(right, wb2), (sb2, wb2), (sb2, bottom)],
            Direction::East => vec![(left, eb0), (nb0, eb0), (nb0, top)],
        },
    };
    assert(points_view(points@) =~= crossing_path(direction, route));
    points
}

// ── Conflicts from geometry ──────────────────────────────────────────────────
// The junction box is cut into lane-wide tiles: six strips across (three lanes
// each way) by six strips down. Two paths conflict when they run through a
// common tile.

/// Which lane-wide strip of the junction box an offset `d` from the box's
/// near edge falls in; the far edge belongs to the last strip.
pub open spec fn strip_of(d: int) -> int {
    if d < LANE_W {
        0
    } else if d < 2 * LANE_W {
        1
    } else if d < 3 * LANE_W {
        2
    } else if d < 4 * LANE_W {
        3
    } else if d < 5 * LANE_W {
        4
    } else {
        5
    }
}

/// Tile column of the x coordinate `x`.
pub open spec fn tile_col(x: int) -> int {
    strip_of(x - (CENTER_X - ROAD_W))
}

/// Tile row of the y coordinate `y`.
pub open spec fn tile_row(y: int) -> int {
    strip_of(y - (CENTER_Y - ROAD_W))
}

/// `t` lies between `a` and `b`, ends included.
pub open spec fn between(a: int, t: int, b: int) -> bool {
    (a <= t <= b) || (b <= t <= a)
}

/// The waypoints of the path with index `idx`.
pub open spec fn path_points(idx: int) -> Seq<(int, int)> {
    crossing_path(path_direction(idx), path_route(idx))
}

/// Leg `i` of the polyline `p` runs through tile (`col`, `row`): the tile lies
/// in the block of tiles spanned by the tiles of the leg's two ends.
pub open spec fn leg_covers(p: Seq<(int, int)>, i: int, col: int, row: int) -> bool {
    &&& 0 <= i && i + 1 < p.len()
    &&& between(tile_col(p[i].0), col, tile_col(p[i + 1].0))
    &&& between(tile_row(p[i].1), row, tile_row(p[i + 1].1))
}

/// The path with index `idx` runs through tile (`col`, `row`).
pub open spec fn path_covers(idx: int, col: int, row: int) -> bool {
    exists|i: int| #[trigger] leg_covers(path_points(idx), i, col, row)
}

/// Paths `a` and `b` run through a common tile.
pub open spec fn paths_share_tile(a: int, b: int) -> bool {
    exists|col: int, row: int| #[trigger] path_covers(a, col, row) && #[trigger] path_covers(b, col, row)
}

/// The smaller of `a` and `b`.
pub open spec fn lower(a: int, b: int) -> int {
    if a <= b {
        a
    } else {
        b
    }
}

/// The larger of `a` and `b`.
pub open spec fn upper(a: int, b: int) -> int {
    if a <= b {
        b
    } else {
        a
    }
}

/// The tile blocks of leg `i` of `pa` and leg `j` of `pb` overlap.
pub open spec fn leg_blocks_overlap(pa: Seq<(int, int)>, i: int, pb: Seq<(int, int)>, j: int) -> bool {
    let (a0, a1, b0, b1) = (pa[i], pa[i + 1], pb[j], pb[j + 1]);
    &&& 0 <= i && i + 1 < pa.len()
    &&& 0 <= j && j + 1 < pb.len()
    &&& upper(lower(tile_col(a0.0), tile_col(a1.0)), lower(tile_col(b0.0), tile_col(b1.0)))
        <= lower(upper(tile_col(a0.0), tile_col(a1.0)), upper(tile_col(b0.0), tile_col(b1.0)))
    &&& upper(lower(tile_row(a0.1), tile_row(a1.1)), lower(tile_row(b0.1), tile_row(b1.1)))
        <= lower(upper(tile_row(a0.1), tile_row(a1.1)), upper(tile_row(b0.1), tile_row(b1.1)))
}

/// Two legs run through a common tile exactly when their tile blocks overlap.
proof fn lemma_leg_blocks_overlap(pa: Seq<(int, int)>, i: int, pb: Seq<(int, int)>, j: int)
    ensures
        leg_blocks_overlap(pa, i, pb, j) ==> {
            let a0 = pa[i];
            let a1 = pa[i + 1];
            let b0 = pb[j];
            let b1 = pb[j + 1];
            let col = upper(lower(tile_col(a0.0), tile_col(a1.0)), lower(tile_col(b0.0), tile_col(b1.0)));
            let row = upper(lower(tile_row(a0.1), tile_row(a1.1)), lower(tile_row(b0.1), tile_row(b1.1)));
            leg_covers(pa, i, col, row) && leg_covers(pb, j, col, row)
        },
        forall|col: int, row: int|
            leg_covers(pa, i, col, row) && leg_covers(pb, j, col, row) ==> leg_blocks_overlap(pa, i, pb, j),
{
}

/// Every path has two or three waypoints.
proof fn lemma_path_points_len(idx: int)
    requires
        0 <= idx < PATH_COUNT,
    ensures
        2 <= path_points(idx).len() <= 3,
{
}

/// The table entry for paths `a` and `b` says whether the tile blocks of one
/// of the (at most four) pairs of their legs overlap.
pub open spec fn entry_matches_tiles(a: int, b: int) -> bool {
    let pa = path_points(a);
    let pb = path_points(b);
    CONFLICTS@[a]@[b] <==> {
        ||| leg_blocks_overlap(pa, 0, pb, 0)
        ||| leg_blocks_overlap(pa, 0, pb, 1)
        ||| leg_blocks_overlap(pa, 1, pb, 0)
        ||| leg_blocks_overlap(pa, 1, pb, 1)
    }
}

/// Checks the table against the tiles of the legs, entry by entry.
#[verifier::rlimit(100)]
proof fn lemma_table_entry_tiles(a: int, b: int)
    requires
        0 <= a < PATH_COUNT,
        0 <= b < PATH_COUNT,
        a != b,
    ensures
        entry_matches_tiles(a, b),
{
    if a == 0 {
        if b == 1 {
            assert(entry_matches_tiles(0, 1));
        } else if b == 2 {
            assert(entry_matches_tiles(0, 2));
        } else if b == 3 {
            assert(entry_matches_tiles(0, 3));
        } else if b == 4 {
            assert(entry_matches_tiles(0, 4));
        } else if b == 5 {
            assert(entry_matches_tiles(0, 5));
        } else if b == 6 {
            assert(entry_matches_tiles(0, 6));
        } else if b == 7 {
            assert(entry_matches_tiles(0, 7));
        } else if b == 8 {
            assert(entry_matches_tiles(0, 8));
        } else if b == 9 {
            assert(entry_matches_tiles(0, 9));
        } else if b == 10 {
            assert(entry_matches_tiles(0, 10));
        } else {
            assert(entry_matches_tiles(0, 11));
        }
    } else if a == 1 {
        if b == 0 {
            assert(entry_matches_tiles(1, 0));
        } else if b == 2 {
            assert(entry_matches_tiles(1, 2));
        } else if b == 3 {
            assert(entry_matches_tiles(1, 3));
        } else if b == 4 {
            assert(entry_matches_tiles(1, 4));
        } else if b == 5 {
            assert(entry_matches_tiles(1, 5));
        } else if b == 6 {
            assert(entry_matches_tiles(1, 6));
        } else if b == 7 {
            assert(entry_matches_tiles(1, 7));
        } else if b == 8 {
            assert(entry_matches_tiles(1, 8));
        } else if b == 9 {
            assert(entry_matches_tiles(1, 9));
        } else if b == 10 {
            assert(entry_matches_tiles(1, 10));
        } else {
            assert(entry_matches_tiles(1, 11));
        }
    } else if a == 2 {
        if b == 0 {
            assert(entry_matches_tiles(2, 0));
        } else if b == 1 {
            assert(entry_matches_tiles(2, 1));
        } else if b == 3 {
            assert(entry_matches_tiles(2, 3));
        } else if b == 4 {
            assert(entry_matches_tiles(2, 4));
        } else if b == 5 {
            assert(entry_matches_tiles(2, 5));
        } else if b == 6 {
            assert(entry_matches_tiles(2, 6));
        } else if b == 7 {
            assert(entry_matches_tiles(2, 7));
        } else if b == 8 {
            assert(entry_matches_tiles(2, 8));
        } else if b == 9 {
            assert(entry_matches_tiles(2, 9));
        } else if b == 10 {
            assert(entry_matches_tiles(2, 10));
        } else {
            assert(entry_matches_tiles(2, 11));
        }
    } else if a == 3 {
        if b == 0 {
            assert(entry_matches_tiles(3, 0));
        } else if b == 1 {
            assert(entry_matches_tiles(3, 1));
        } else if b == 2 {
            assert(entry_matches_tiles(3, 2));
        } else if b == 4 {
            assert(entry_matches_tiles(3, 4));
        } else if b == 5 {
            assert(entry_matches_tiles(3, 5));
        } else if b == 6 {
            assert(entry_matches_tiles(3, 6));
        } else if b == 7 {
            assert(entry_matches_tiles(3, 7));
        } else if b == 8 {
            assert(entry_matches_tiles(3, 8));
        } else if b == 9 {
            assert(entry_matches_tiles(3, 9));
        } else if b == 10 {
            assert(entry_matches_tiles(3, 10));
        } else {
            assert(entry_matches_tiles(3, 11));
        }
    } else if a == 4 {
        if b == 0 {
            assert(entry_matches_tiles(4, 0));
        } else if b == 1 {
            assert(entry_matches_tiles(4, 1));
        } else if b == 2 {
            assert(entry_matches_tiles(4, 2));
        } else if b == 3 {
            assert(entry_matches_tiles(4, 3));
        } else if b == 5 {
            assert(entry_matches_tiles(4, 5));
        } else if b == 6 {
            assert(entry_matches_tiles(4, 6));
        } else if b == 7 {
            assert(entry_matches_tiles(4, 7));
        } else if b == 8 {
            assert(entry_matches_tiles(4, 8));
        } else if b == 9 {
            assert(entry_matches_tiles(4, 9));
        } else if b == 10 {
            assert(entry_matches_tiles(4, 10));
        } else {
            assert(entry_matches_tiles(4, 11));
        }
    } else if a == 5 {
        if b == 0 {
            assert(entry_matches_tiles(5, 0));
        } else if b == 1 {
            assert(entry_matches_tiles(5, 1));
        } else if b == 2 {
            assert(entry_matches_tiles(5, 2));
        } else if b == 3 {
            assert(entry_matches_tiles(5, 3));
        } else if b == 4 {
            assert(entry_matches_tiles(5, 4));
        } else if b == 6 {
            assert(entry_matches_tiles(5, 6));
        } else if b == 7 {
            assert(entry_matches_tiles(5, 7));
        } else if b == 8 {
            assert(entry_matches_tiles(5, 8));
        } else if b == 9 {
            assert(entry_matches_tiles(5, 9));
        } else if b == 10 {
            assert(entry_matches_tiles(5, 10));
        } else {
            assert(entry_matches_tiles(5, 11));
        }
    } else if a == 6 {
        if b == 0 {
            assert(entry_matches_tiles(6, 0));
        } else if b == 1 {
            assert(entry_matches_tiles(6, 1));
        } else if b == 2 {
            assert(entry_matches_tiles(6, 2));
        } else if b == 3 {
            assert(entry_matches_tiles(6, 3));
        } else if b == 4 {
            assert(entry_matches_tiles(6, 4));
        } else if b == 5 {
            assert(entry_matches_tiles(6, 5));
        } else if b == 7 {
            assert(entry_matches_tiles(6, 7));
        } else if b == 8 {
            assert(entry_matches_tiles(6, 8));
        } else if b == 9 {
            assert(entry_matches_tiles(6, 9));
        } else if b == 10 {
            assert(entry_matches_tiles(6, 10));
        } else {
            assert(entry_matches_tiles(6, 11));
        }
    } else if a == 7 {
        if b == 0 {
            assert(entry_matches_tiles(7, 0));
        } else if b == 1 {
            assert(entry_matches_tiles(7, 1));
        } else if b == 2 {
            assert(entry_matches_tiles(7, 2));
        } else if b == 3 {
            assert(entry_matches_tiles(7, 3));
        } else if b == 4 {
            assert(entry_matches_tiles(7, 4));
        } else if b == 5 {
            assert(entry_matches_tiles(7, 5));
        } else if b == 6 {
            assert(entry_matches_tiles(7, 6));
        } else if b == 8 {
            assert(entry_matches_tiles(7, 8));
        } else if b == 9 {
            assert(entry_matches_tiles(7, 9));
        } else if b == 10 {
            assert(entry_matches_tiles(7, 10));
        } else {
            assert(entry_matches_tiles(7, 11));
        }
    } else if a == 8 {
        if b == 0 {
            assert(entry_matches_tiles(8, 0));
        } else if b == 1 {
            assert(entry_matches_tiles(8, 1));
        } else if b == 2 {
            assert(entry_matches_tiles(8, 2));
        } else if b == 3 {
            assert(entry_matches_tiles(8, 3));
        } else if b == 4 {
            assert(entry_matches_tiles(8, 4));
        } else if b == 5 {
            assert(entry_matches_tiles(8, 5));
        } else if b == 6 {
            assert(entry_matches_tiles(8, 6));
        } else if b == 7 {
            assert(entry_matches_tiles(8, 7));
        } else if b == 9 {
            assert(entry_matches_tiles(8, 9));
        } else if b == 10 {
            assert(entry_matches_tiles(8, 10));
        } else {
            assert(entry_matches_tiles(8, 11));
        }
    } else if a == 9 {
        if b == 0 {
            assert(entry_matches_tiles(9, 0));
        } else if b == 1 {
            assert(entry_matches_tiles(9, 1));
        } else if b == 2 {
            assert(entry_matches_tiles(9, 2));
        } else if b == 3 {
            assert(entry_matches_tiles(9, 3));
        } else if b == 4 {
            assert(entry_matches_tiles(9, 4));
        } else if b == 5 {
            assert(entry_matches_tiles(9, 5));
        } else if b == 6 {
            assert(entry_matches_tiles(9, 6));
        } else if b == 7 {
            assert(entry_matches_tiles(9, 7));
        } else if b == 8 {
            assert(entry_matches_tiles(9, 8));
        } else if b == 10 {
            assert(entry_matches_tiles(9, 10));
        } else {
            assert(entry_matches_tiles(9, 11));
        }
    } else if a == 10 {
        if b == 0 {
            assert(entry_matches_tiles(10, 0));
        } else if b == 1 {
            assert(entry_matches_tiles(10, 1));
        } else if b == 2 {
            assert(entry_matches_tiles(10, 2));
        } else if b == 3 {
            assert(entry_matches_tiles(10, 3));
        } else if b == 4 {
            assert(entry_matches_tiles(10, 4));
        } else if b == 5 {
            assert(entry_matches_tiles(10, 5));
        } else if b == 6 {
            assert(entry_matches_tiles(10, 6));
        } else if b == 7 {
            assert(entry_matches_tiles(10, 7));
        } else if b == 8 {
            assert(entry_matches_tiles(10, 8));
        } else if b == 9 {
            assert(entry_matches_tiles(10, 9));
        } else {
            assert(entry_matches_tiles(10, 11));
        }
    } else if a == 11 {
        if b == 0 {
            assert(entry_matches_tiles(11, 0));
        } else if b == 1 {
            assert(entry_matches_tiles(11, 1));
        } else if b == 2 {
            assert(entry_matches_tiles(11, 2));
        } else if b == 3 {
            assert(entry_matches_tiles(11, 3));
        } else if b == 4 {
            assert(entry_matches_tiles(11, 4));
        } else if b == 5 {
            assert(entry_matches_tiles(11, 5));
        } else if b == 6 {
            assert(entry_matches_tiles(11, 6));
        } else if b == 7 {
            assert(entry_matches_tiles(11, 7));
        } else if b == 8 {
            assert(entry_matches_tiles(11, 8));
        } else if b == 9 {
            assert(entry_matches_tiles(11, 9));
        } else {
            assert(entry_matches_tiles(11, 10));
        }
    }
}

/// The conflict table is the tile overlap of the paths: two distinct paths
/// conflict exactly when they run through a common tile of the junction.
pub proof fn lemma_conflicts_are_shared_tiles()
    ensures
        forall|a: int, b: int|
            0 <= a < PATH_COUNT && 0 <= b < PATH_COUNT && a != b ==> (#[trigger] paths_conflict(a, b)
                <==> paths_share_tile(a, b)),
{
    assert forall|a: int, b: int|
        0 <= a < PATH_COUNT && 0 <= b < PATH_COUNT && a != b implies (#[trigger] paths_conflict(a, b)
            <==> paths_share_tile(a, b)) by {
        let pa = path_points(a);
        let pb = path_points(b);
        lemma_table_entry_tiles(a, b);
        lemma_path_points_len(a);
        lemma_path_points_len(b);
        if paths_share_tile(a, b) {
            let (col, row) = choose|col: int, row: int|
                #[trigger] path_covers(a, col, row) && #[trigger] path_covers(b, col, row);
            let i = choose|i: int| #[trigger] leg_covers(pa, i, col, row);
            let j = choose|j: int| #[trigger] leg_covers(pb, j, col, row);
            lemma_leg_blocks_overlap(pa, i, pb, j);
            assert(i == 0 || i == 1);
            assert(j == 0 || j == 1);
        }
        if paths_conflict(a, b) {
            let (i, j) = if leg_blocks_overlap(pa, 0, pb, 0) {
                (0int, 0int)
            } else if leg_blocks_overlap(pa, 0, pb, 1) {
                (0int, 1int)
            } else if leg_blocks_overlap(pa, 1, pb, 0) {
                (1int, 0int)
            } else {
                (1int, 1int)
            };
            lemma_leg_blocks_overlap(pa, i, pb, j);
            let col = upper(lower(tile_col(pa[i].0), tile_col(pa[i + 1].0)), lower(tile_col(pb[j].0), tile_col(pb[j + 1].0)));
            let row = upper(lower(tile_row(pa[i].1), tile_row(pa[i + 1].1)), lower(tile_row(pb[j].1), tile_row(pb[j + 1].1)));
            assert(leg_covers(pa, i, col, row));
            assert(leg_covers(pb, j, col, row));
            assert(path_covers(a, col, row));
            assert(path_covers(b, col, row));
        }
    }
}

// ── Crossing duration ─────────────────────────────────────────────────────────

/// Vehicles cross at normal speed, in pixels per tick; used to size crossing windows.
pub const CROSSING_SPEED_PX: u64 = 3;

/// Extra ticks added to each crossing window to absorb speed-smoothing imprecision.
pub const GRACE_TICKS: u64 = 10;

/// Squared length of the straight leg from `a` to `b`.
pub open spec fn leg_len_sq(a: (int, int), b: (int, int)) -> int {
    (b.0 - a.0) * (b.0 - a.0) + (b.1 - a.1) * (b.1 - a.1)
}

/// `k` whole ticks at crossing speed cover a leg of squared length `len_sq`,
/// and `k - 1` ticks do not: `k` is the leg's length divided by the
/// crossing speed, rounded up.
pub open spec fn is_leg_ticks(len_sq: int, k: int) -> bool {
    &&& 0 <= k
    &&& len_sq <= (CROSSING_SPEED_PX * k) * (CROSSING_SPEED_PX * k)
    &&& (k == 0 || (CROSSING_SPEED_PX * (k - 1)) * (CROSSING_SPEED_PX * (k - 1)) < len_sq)
}

/// Whole ticks needed to drive a leg of squared length `len_sq` at crossing speed.
pub open spec fn leg_ticks(len_sq: int) -> int {
    choose|k: int| is_leg_ticks(len_sq, k)
}

/// Whole ticks needed to drive along `points` at crossing speed, each leg
/// rounded up on its own.
pub open spec fn path_ticks(points: Seq<(int, int)>) -> int
    decreases points.len(),
{
    if points.len() < 2 {
        0
    } else {
        path_ticks(points.drop_last()) + leg_ticks(
            leg_len_sq(points[points.len() - 2], points[points.len() - 1]),
        )
    }
}

/// Length in ticks of the crossing window booked for `direction` and `route`:
/// the time to drive the path at crossing speed plus the grace ticks.
pub open spec fn crossing_window(direction: Direction, route: Route) -> int {
    GRACE_TICKS + path_ticks(crossing_path(direction, route))
}

/// Crossing window of the path with index `idx`.
pub open spec fn crossing_window_of(idx: int) -> int {
    crossing_window(path_direction(idx), path_route(idx))
}

proof fn lemma_square_monotonic(a: int, b: int)
    requires
        0 <= a <= b,
    ensures
        a * a <= b * b,
{
    assert(a * a <= b * b) by (nonlinear_arith)
        requires
            0 <= a <= b,
    ;
}

/// Exactly one tick count fits a leg.
proof fn lemma_leg_ticks_unique(len_sq: int, k: int)
    requires
        is_leg_ticks(len_sq, k),
    ensures
        leg_ticks(len_sq) == k,
{
    let j = leg_ticks(len_sq);
    assert(is_leg_ticks(len_sq, j));
    if j < k {
        lemma_square_monotonic(CROSSING_SPEED_PX * j, CROSSING_SPEED_PX * (k - 1));
    } else if k < j {
        lemma_square_monotonic(CROSSING_SPEED_PX * k, CROSSING_SPEED_PX * (j - 1));
    }
}

/// Whole ticks needed to drive a leg of squared length `len_sq`.
fn leg_ticks_exec(len_sq: u64) -> (k: u64)
    requires
        len_sq <= 2_000_000,
    ensures
        is_leg_ticks(len_sq as int, k as int),
        leg_ticks(len_sq as int) == k,
        k <= 500,
{
    let mut k: u64 = 0;
    loop
        invariant
            len_sq <= 2_000_000,
            k <= 500,
            k == 0 || (CROSSING_SPEED_PX * (k - 1)) * (CROSSING_SPEED_PX * (k - 1)) < len_sq,
        ensures
            is_leg_ticks(len_sq as int, k as int),
            k <= 500,
        decreases 500 - k,
    {
        let covered = CROSSING_SPEED_PX * k;
        assert(covered * covered <= 2_250_000) by (nonlinear_arith)
            requires
                covered <= 1500,
        ;
        if covered * covered >= len_sq {
            break;
        }
        assert(k < 500) by (nonlinear_arith)
            requires
                covered == 3 * k,
                covered * covered < len_sq,
                len_sq <= 2_000_000,
        ;
        k = k + 1;
    }
    proof {
        lemma_leg_ticks_unique(len_sq as int, k as int);
    }
    k
}

/// Length in ticks of the crossing window for `direction` and `route`.
pub fn crossing_ticks(direction: Direction, route: Route) -> (ticks: u64)
    ensures
        ticks == crossing_window(direction, route),
{
    let points = crossing_waypoints(direction, route);
    let ghost path = crossing_path(direction, route);
    let mut total: u64 = 0;
    let mut i: usize = 1;
    assert(path.take(1).len() == 1);
    while i < points.len()
        invariant
            points_view(points@) == path,
            points_on_screen(path),
            2 <= points@.len() <= 3,
            1 <= i <= points@.len(),
            total == path_ticks(path.take(i as int)),
            total <= 500 * i,
        decreases points@.len() - i,
    {
        let (x0, y0) = points[i - 1];
        let (x1, y1) = points[i];
        assert(path[i - 1] == (x0 as int, y0 as int));
        assert(path[i as int] == (x1 as int, y1 as int));
        let dx: i64 = x1 as i64 - x0 as i64;
        let dy: i64 = y1 as i64 - y0 as i64;
        assert(dx * dx <= 640_000) by (nonlinear_arith)
            requires
                -800 <= dx <= 800,
        ;
        assert(dy * dy <= 640_000) by (nonlinear_arith)
            requires
                -800 <= dy <= 800,
        ;
        assert(dx * dx >= 0 && dy * dy >= 0) by (nonlinear_arith);
        let len_sq: u64 = (dx * dx + dy * dy) as u64;
        let k = leg_ticks_exec(len_sq);
        proof {
            let prefix = path.take(i + 1);
            assert(prefix.drop_last() =~= path.take(i as int));
            assert(prefix[prefix.len() - 2] == path[i - 1]);
            assert(prefix[prefix.len() - 1] == path[i as int]);
        }
        total = total + k;
        i = i + 1;
    }
    assert(path.take(points@.len() as int) =~= path);
    total + GRACE_TICKS
}

/// The crossing windows are 20 ticks for a right turn, 90 for going straight
/// and 104 for a left turn, whatever the direction: opposing directions take
/// equally long and a right turn is the shortest crossing.
pub proof fn lemma_crossing_window_values(direction: Direction)
    ensures
        crossing_window(direction, Route::Right) == 20,
        crossing_window(direction, Route::Straight) == 90,
        crossing_window(direction, Route::Left) == 104,
{
    // a diagonal corner clip of 20 px each way, a straight run of 240 px,
    // and two legs of 140 px
    assert(is_leg_ticks(800, 10) && is_leg_ticks(57600, 80) && is_leg_ticks(19600, 47))
        by (nonlinear_arith)
        requires
            CROSSING_SPEED_PX == 3,
    ;
    lemma_leg_ticks_unique(800, 10);
    lemma_leg_ticks_unique(57600, 80);
    lemma_leg_ticks_unique(19600, 47);
    let r = crossing_path(direction, Route::Right);
    let s = crossing_path(direction, Route::Straight);
    let l = crossing_path(direction, Route::Left);
    assert(r.drop_last().len() == 1);
    assert(s.drop_last().len() == 1);
    assert(l.drop_last().len() == 2);
    assert(l.drop_last().drop_last().len() == 1);
    let (rdx, rdy) = (r[1].0 - r[0].0, r[1].1 - r[0].1);
    let (sdx, sdy) = (s[1].0 - s[0].0, s[1].1 - s[0].1);
    assert((rdx == 20 || rdx == -20) && (rdy == 20 || rdy == -20));
    assert((sdx == 0 && (sdy == 240 || sdy == -240)) || (sdy == 0 && (sdx == 240 || sdx == -240)));
    assert(leg_len_sq(r[0], r[1]) == rdx * rdx + rdy * rdy);
    assert(leg_len_sq(s[0], s[1]) == sdx * sdx + sdy * sdy);
    assert(rdx * rdx + rdy * rdy == 800) by (nonlinear_arith)
        requires
            (rdx == 20 || rdx == -20) && (rdy == 20 || rdy == -20),
    ;
    assert(sdx * sdx + sdy * sdy == 57600) by (nonlinear_arith)
        requires
            (sdx == 0 && (sdy == 240 || sdy == -240)) || (sdy == 0 && (sdx == 240 || sdx
                == -240)),
    ;
    let (adx, ady) = (l[1].0 - l[0].0, l[1].1 - l[0].1);
    let (bdx, bdy) = (l[2].0 - l[1].0, l[2].1 - l[1].1);
    assert((adx == 0 && (ady == 140 || ady == -140)) || (ady == 0 && (adx == 140 || adx == -140)));
    assert((bdx == 0 && (bdy == 140 || bdy == -140)) || (bdy == 0 && (bdx == 140 || bdx == -140)));
    assert(adx * adx + ady * ady == 19600) by (nonlinear_arith)
        requires
            (adx == 0 && (ady == 140 || ady == -140)) || (ady == 0 && (adx == 140 || adx
                == -140)),
    ;
    assert(bdx * bdx + bdy * bdy == 19600) by (nonlinear_arith)
        requires
            (bdx == 0 && (bdy == 140 || bdy == -140)) || (bdy == 0 && (bdx == 140 || bdx
                == -140)),
    ;
    assert(leg_len_sq(l[0], l[1]) == adx * adx + ady * ady);
    assert(leg_len_sq(l[1], l[2]) == bdx * bdx + bdy * bdy);
    assert(l.drop_last()[0] == l[0] && l.drop_last()[1] == l[1]);
    assert(path_ticks(r.drop_last()) == 0);
    assert(path_ticks(s.drop_last()) == 0);
    assert(path_ticks(l.drop_last().drop_last()) == 0);
    assert(path_ticks(l.drop_last()) == 47);
}

// ── Exit heading ──────────────────────────────────────────────────────────────

/// Heading after turning `route` from `direction`.
pub open spec fn heading_after(direction: Direction, route: Route) -> Direction {
    match route {
        Route::Straight => direction,
        Route::Right => match direction {
            Direction::South => Direction::West,
            Direction::North => Direction::East,
            Direction::West => Direction::North,
            Direction::East => Direction::South,
        },
        Route::Left => match direction {
            Direction::South => Direction::East,
            Direction::North => Direction::West,
            Direction::West => Direction::South,
            Direction::East => Direction::North,
        },
    }
}

/// Direction the vehicle is heading after it exits the intersection.
pub fn exit_direction(direction: Direction, route: Route) -> (exit: Direction)
    ensures
        exit == heading_after(direction, route),
{
    match route {
        Route::Straight => direction,
        Route::Right => match direction {
            Direction::South => Direction::West,
            Direction::North => Direction::East,
            Direction::West => Direction::North,
            Direction::East => Direction::South,
        },
        Route::Left => match direction {
            Direction::South => Direction::East,
            Direction::North => Direction::West,
            Direction::West => Direction::South,
            Direction::East => Direction::North,
        },
    }
}

/// Turning is a rotation of the heading: going straight keeps it, a left
/// turn undoes a right turn, two right turns face back the way one came, and
/// every turn but straight changes the heading.
pub proof fn lemma_turns_rotate_heading(direction: Direction)
    ensures
        heading_after(direction, Route::Straight) == direction,
        heading_after(heading_after(direction, Route::Right), Route::Left) == direction,
        heading_after(heading_after(direction, Route::Left), Route::Right) == direction,
        heading_after(heading_after(direction, Route::Right), Route::Right) == heading_after(
            heading_after(direction, Route::Left),
            Route::Left,
        ),
        heading_after(direction, Route::Right) != direction,
        heading_after(direction, Route::Left) != direction,
        heading_after(direction, Route::Right) != heading_after(direction, Route::Left),
{
}

// ── Time-slot reservation manager ────────────────────────────────────────────

/// Distance (px) from the stop line at which vehicles begin requesting reservations.
pub const RESERVATION_DIST: u32 = 300;

/// Ticks beyond the crawl-speed arrival estimate up to which a free crossing
/// window is searched for.
pub const LOOKAHEAD_TICKS: u64 = 400;

/// A crossing window `[entry_tick, exit_tick)` booked by one vehicle on one path.
#[derive(Debug, Clone, Copy, PartialEq, Eq, Structural)]
pub struct TimedReservation {
    pub vehicle_id: u32,
    pub path_idx: usize,
    pub entry_tick: u64,
    pub exit_tick: u64,
}

/// Books conflict-free crossing windows for the vehicles at the junction.
pub struct IntersectionManager {
    reservations: Vec<TimedReservation>,
}

impl View for IntersectionManager {
    type V = Seq<TimedReservation>;

    /// The booked windows, in booking order.
    closed spec fn view(&self) -> Seq<TimedReservation> {
        self.reservations@
    }
}

/// Booking `r` stands in the way of a window `[entry, exit)` on path `idx`:
/// the two paths share a tile and the two windows overlap in time.
pub open spec fn blocks(r: TimedReservation, idx: int, entry: int, exit: int) -> bool {
    &&& paths_conflict(idx, r.path_idx as int)
    &&& entry < r.exit_tick
    &&& r.entry_tick < exit
}

/// No booking in `s` stands in the way of the window `[entry, exit)` on path `idx`.
pub open spec fn slot_free(s: Seq<TimedReservation>, idx: int, entry: int, exit: int) -> bool {
    forall|k: int| 0 <= k < s.len() ==> !#[trigger] blocks(s[k], idx, entry, exit)
}

/// The window of `window` ticks starting at `entry` on path `idx` is free in `s`.
pub open spec fn slot_free_from(s: Seq<TimedReservation>, idx: int, window: int, entry: int) -> bool {
    slot_free(s, idx, entry, entry + window)
}

/// Vehicle `id` holds a booking in `s`.
pub open spec fn holds_reservation(s: Seq<TimedReservation>, id: u32) -> bool {
    exists|k: int| 0 <= k < s.len() && s[k].vehicle_id == id
}

/// The booking that vehicle `id` holds in `s`.
pub open spec fn held_booking(s: Seq<TimedReservation>, id: u32) -> TimedReservation {
    s[choose|k: int| 0 <= k < s.len() && s[k].vehicle_id == id]
}

/// A booking of `window` ticks from `entry` for vehicle `id` on path `idx`.
pub open spec fn booking(id: u32, idx: int, entry: int, window: int) -> TimedReservation {
    TimedReservation {
        vehicle_id: id,
        path_idx: idx as usize,
        entry_tick: entry as u64,
        exit_tick: (entry + window) as u64,
    }
}

/// A booking names a real path and lasts exactly that path's crossing window.
pub open spec fn booking_wf(r: TimedReservation) -> bool {
    &&& r.path_idx < PATH_COUNT
    &&& r.exit_tick == r.entry_tick + crossing_window_of(r.path_idx as int)
}

/// A schedule in which every booking is well formed, no vehicle holds two
/// bookings, and no two bookings on conflicting paths overlap in time.
pub open spec fn schedule_wf(s: Seq<TimedReservation>) -> bool {
    &&& forall|k: int| 0 <= k < s.len() ==> booking_wf(#[trigger] s[k])
    &&& forall|i: int, j: int|
        #![trigger s[i], s[j]]
        0 <= i < s.len() && 0 <= j < s.len() && i != j ==> s[i].vehicle_id != s[j].vehicle_id
    &&& forall|i: int, j: int|
        #![trigger s[i], s[j]]
        0 <= i < s.len() && 0 <= j < s.len() && i != j ==> !blocks(
            s[j],
            s[i].path_idx as int,
            s[i].entry_tick as int,
            s[i].exit_tick as int,
        )
}

/// Keeps the bookings whose window has not yet closed at `tick`.
pub open spec fn still_open(tick: u64) -> spec_fn(TimedReservation) -> bool {
    |r: TimedReservation| r.exit_tick > tick
}

/// Keeps the bookings of every vehicle but `id`.
pub open spec fn other_vehicle(id: u32) -> spec_fn(TimedReservation) -> bool {
    |r: TimedReservation| r.vehicle_id != id
}

/// `s` without the booking of vehicle `id`.
pub open spec fn without_vehicle(s: Seq<TimedReservation>, id: u32) -> Seq<TimedReservation> {
    s.filter(other_vehicle(id))
}

/// A stop-line request by vehicle `id` at `tick` is granted: the vehicle
/// already holds a booking, or its whole crossing window starting now is free.
pub open spec fn reserve_granted(
    s: Seq<TimedReservation>,
    id: u32,
    direction: Direction,
    route: Route,
    tick: u64,
) -> bool {
    holds_reservation(s, id) || slot_free_from(
        s,
        path_of(direction, route),
        crossing_window(direction, route),
        tick as int,
    )
}

/// The schedule after a stop-line request: a new booking is appended only
/// when the vehicle held none and its window is free.
pub open spec fn after_reserve(
    s: Seq<TimedReservation>,
    id: u32,
    direction: Direction,
    route: Route,
    tick: u64,
) -> Seq<TimedReservation> {
    if !holds_reservation(s, id) && reserve_granted(s, id, direction, route, tick) {
        s.push(booking(id, path_of(direction, route), tick as int, crossing_window(direction, route)))
    } else {
        s
    }
}

/// Vehicle `id` keeps its booking at `tick`: it still has time to make its
/// entry (within the grace ticks) and the window has not closed.
pub open spec fn keeps_booking(s: Seq<TimedReservation>, id: u32, tick: u64) -> bool {
    &&& holds_reservation(s, id)
    &&& tick <= held_booking(s, id).entry_tick + GRACE_TICKS
    &&& tick < held_booking(s, id).exit_tick
}

/// `entry` is the earliest tick in `[lo, hi]` from which a window of `window`
/// ticks on path `idx` is free in `s`.
pub open spec fn first_free_entry(
    s: Seq<TimedReservation>,
    idx: int,
    window: int,
    lo: int,
    hi: int,
    entry: int,
) -> bool {
    &&& lo <= entry <= hi
    &&& slot_free_from(s, idx, window, entry)
    &&& forall|e: int| lo <= e < entry ==> !#[trigger] slot_free_from(s, idx, window, e)
}

/// No tick in `[lo, hi]` starts a free window of `window` ticks on path `idx`.
pub open spec fn no_free_entry(s: Seq<TimedReservation>, idx: int, window: int, lo: int, hi: int) -> bool {
    forall|e: int| lo <= e <= hi ==> !#[trigger] slot_free_from(s, idx, window, e)
}

/// Last entry tick searched by a timed request at `tick` from a vehicle that
/// reaches the stop line at crawl speed after `slow` ticks:
/// `LOOKAHEAD_TICKS` past that arrival, but never so late that a window of
/// `window` ticks would run past the end of the tick clock.
pub open spec fn search_end(tick: u64, slow: u64, window: int) -> int {
    let hi = tick + slow + LOOKAHEAD_TICKS;
    if hi + window <= u64::MAX {
        hi
    } else {
        u64::MAX - window
    }
}

/// Outcome of a timed request by vehicle `id` at `tick` when it can arrive
/// at full speed after `fast` ticks and at crawl speed after `slow` ticks.
/// A vehicle that keeps its booking gets its entry tick again and nothing
/// changes. Otherwise its old booking is dropped and it is booked into the
/// earliest free window whose entry lies in `[tick + fast, search_end(..)]`,
/// if there is one.
pub open spec fn timed_outcome(
    old: Seq<TimedReservation>,
    new: Seq<TimedReservation>,
    id: u32,
    direction: Direction,
    route: Route,
    tick: u64,
    fast: u64,
    slow: u64,
    entry: Option<u64>,
) -> bool {
    if keeps_booking(old, id, tick) {
        &&& new == old
        &&& entry == Some(held_booking(old, id).entry_tick)
    } else {
        let base = without_vehicle(old, id);
        let idx = path_of(direction, route);
        let window = crossing_window(direction, route);
        let lo = tick + fast;
        let hi = search_end(tick, slow, window);
        match entry {
            Some(e) => {
                &&& first_free_entry(base, idx, window, lo, hi, e as int)
                &&& new == base.push(booking(id, idx, e as int, window))
            },
            None => {
                &&& no_free_entry(base, idx, window, lo, hi)
                &&& new == base
            },
        }
    }
}

/// Every path's crossing window is one of the three route lengths, so it is
/// at least the grace period.
proof fn lemma_window_of_path(idx: int)
    requires
        0 <= idx < PATH_COUNT,
    ensures
        crossing_window_of(idx) == 20 || crossing_window_of(idx) == 90 || crossing_window_of(idx)
            == 104,
        GRACE_TICKS <= crossing_window_of(idx) <= 104,
{
    lemma_crossing_window_values(path_direction(idx));
}

/// Appending a compatible booking keeps a schedule well formed.
proof fn lemma_push_keeps_wf(s: Seq<TimedReservation>, n: TimedReservation)
    requires
        schedule_wf(s),
        booking_wf(n),
        forall|k: int|
            0 <= k < s.len() ==> {
                &&& (#[trigger] s[k]).vehicle_id != n.vehicle_id
                &&& !blocks(s[k], n.path_idx as int, n.entry_tick as int, n.exit_tick as int)
                &&& !blocks(n, s[k].path_idx as int, s[k].entry_tick as int, s[k].exit_tick as int)
            },
    ensures
        schedule_wf(s.push(n)),
{
    let t = s.push(n);
    assert forall|k: int| 0 <= k < t.len() implies booking_wf(#[trigger] t[k]) by {
        if k < s.len() {
            assert(t[k] == s[k]);
        }
    }
    assert forall|i: int, j: int|
        #![trigger t[i], t[j]]
        0 <= i < t.len() && 0 <= j < t.len() && i != j implies t[i].vehicle_id != t[j].vehicle_id
        && !blocks(t[j], t[i].path_idx as int, t[i].entry_tick as int, t[i].exit_tick as int) by {
        if i < s.len() && j < s.len() {
            assert(t[i] == s[i] && t[j] == s[j]);
        } else if i < s.len() {
            assert(t[i] == s[i]);
        } else {
            assert(t[j] == s[j]);
        }
    }
}

/// Dropping bookings keeps a schedule well formed.
proof fn lemma_filter_keeps_wf(s: Seq<TimedReservation>, pred: spec_fn(TimedReservation) -> bool)
    requires
        schedule_wf(s),
    ensures
        schedule_wf(s.filter(pred)),
    decreases s.len(),
{
    reveal(Seq::filter);
    if s.len() > 0 {
        let rest = s.drop_last();
        let last = s.last();
        assert(schedule_wf(rest)) by {
            assert forall|k: int| 0 <= k < rest.len() implies booking_wf(#[trigger] rest[k]) by {
                assert(rest[k] == s[k]);
            }
            assert forall|i: int, j: int|
                #![trigger rest[i], rest[j]]
                0 <= i < rest.len() && 0 <= j < rest.len() && i != j implies rest[i].vehicle_id
                != rest[j].vehicle_id && !blocks(
                rest[j],
                rest[i].path_idx as int,
                rest[i].entry_tick as int,
                rest[i].exit_tick as int,
            ) by {
                assert(rest[i] == s[i] && rest[j] == s[j]);
            }
        }
        lemma_filter_keeps_wf(rest, pred);
        let kept = rest.filter(pred);
        if pred(last) {
            assert(booking_wf(s[s.len() - 1]));
            assert forall|k: int| 0 <= k < kept.len() implies {
                &&& (#[trigger] kept[k]).vehicle_id != last.vehicle_id
                &&& !blocks(kept[k], last.path_idx as int, last.entry_tick as int, last.exit_tick as int)
                &&& !blocks(last, kept[k].path_idx as int, kept[k].entry_tick as int, kept[k].exit_tick as int)
            } by {
                assert(kept.contains(kept[k]));
                rest.lemma_filter_contains_rev(pred, kept[k]);
                let m = choose|m: int| 0 <= m < rest.len() && rest[m] == kept[k];
                assert(s[m] == kept[k]);
                assert(s[s.len() - 1] == last);
            }
            lemma_push_keeps_wf(kept, last);
        }
    }
}

/// If booking `k` of `s` stands in the way of the window starting at `entry`,
/// then no window of the same length starting before booking `k` closes is free.
proof fn lemma_blocked_until(s: Seq<TimedReservation>, idx: int, window: int, entry: int, k: int)
    requires
        0 <= k < s.len(),
        blocks(s[k], idx, entry, entry + window),
    ensures
        entry < s[k].exit_tick,
        forall|e: int| entry <= e < s[k].exit_tick ==> !#[trigger] slot_free_from(s, idx, window, e),
{
    assert forall|e: int| entry <= e < s[k].exit_tick implies !#[trigger] slot_free_from(
        s,
        idx,
        window,
        e,
    ) by {
        assert(blocks(s[k], idx, e, e + window));
    }
}

/// Keeping the elements that all pass `pred` keeps the whole sequence.
proof fn lemma_filter_all_kept(s: Seq<TimedReservation>, pred: spec_fn(TimedReservation) -> bool)
    requires
        forall|k: int| 0 <= k < s.len() ==> pred(#[trigger] s[k]),
    ensures
        s.filter(pred) == s,
    decreases s.len(),
{
    reveal(Seq::filter);
    if s.len() > 0 {
        let rest = s.drop_last();
        assert forall|k: int| 0 <= k < rest.len() implies pred(#[trigger] rest[k]) by {
            assert(rest[k] == s[k]);
        }
        lemma_filter_all_kept(rest, pred);
        assert(pred(s[s.len() - 1]));
        assert(rest.push(s.last()) =~= s);
    }
}

/// Dropping vehicle `id` from a schedule to which only a booking of `id`
/// was appended gives what dropping it from the original gives.
proof fn lemma_without_vehicle_push(s: Seq<TimedReservation>, n: TimedReservation, id: u32)
    requires
        n.vehicle_id == id,
    ensures
        without_vehicle(s.push(n), id) == without_vehicle(s, id),
{
    reveal(Seq::filter);
    assert(s.push(n).drop_last() =~= s);
}

/// Dropping vehicle `id` twice is dropping it once.
proof fn lemma_without_vehicle_twice(s: Seq<TimedReservation>, id: u32)
    ensures
        without_vehicle(without_vehicle(s, id), id) == without_vehicle(s, id),
{
    let f = without_vehicle(s, id);
    assert forall|k: int| 0 <= k < f.len() implies (other_vehicle(id))(#[trigger] f[k]) by {
        s.lemma_filter_pred(other_vehicle(id), k);
    }
    lemma_filter_all_kept(f, other_vehicle(id));
}

/// Every booked window is non-empty: it opens strictly before it closes.
pub proof fn lemma_booked_windows_nonempty(m: IntersectionManager)
    requires
        m.wf(),
    ensures
        forall|k: int| 0 <= k < m@.len() ==> #[trigger] m@[k].entry_tick < m@[k].exit_tick,
{
    assert forall|k: int| 0 <= k < m@.len() implies #[trigger] m@[k].entry_tick < m@[k].exit_tick by {
        assert(booking_wf(m@[k]));
        lemma_window_of_path(m@[k].path_idx as int);
    }
}

/// Safety of the schedule: no vehicle holds two bookings, and two bookings
/// on paths that share a tile never overlap in time.
pub proof fn lemma_conflicting_windows_disjoint(m: IntersectionManager, i: int, j: int)
    requires
        m.wf(),
        0 <= i < m@.len(),
        0 <= j < m@.len(),
        i != j,
    ensures
        m@[i].vehicle_id != m@[j].vehicle_id,
        paths_conflict(m@[i].path_idx as int, m@[j].path_idx as int) ==> m@[i].exit_tick
            <= m@[j].entry_tick || m@[j].exit_tick <= m@[i].entry_tick,
{
    assert(!blocks(m@[j], m@[i].path_idx as int, m@[i].entry_tick as int, m@[i].exit_tick as int));
}

/// A right turn never waits: every window on a right-turn path is free
/// whatever is booked, so a stop-line request for a right turn is granted.
pub proof fn lemma_right_turns_never_blocked(
    s: Seq<TimedReservation>,
    id: u32,
    direction: Direction,
    tick: u64,
    window: int,
    entry: int,
)
    ensures
        slot_free_from(s, path_of(direction, Route::Right), window, entry),
        reserve_granted(s, id, direction, Route::Right, tick),
{
    lemma_conflicts_symmetric_and_right_turns_free();
}

/// Asking twice changes nothing: once a stop-line request is granted the
/// vehicle holds a booking, and asking again is granted and books nothing more.
pub proof fn lemma_reserve_idempotent(
    s: Seq<TimedReservation>,
    id: u32,
    direction: Direction,
    route: Route,
    tick: u64,
)
    requires
        reserve_granted(s, id, direction, route, tick),
    ensures
        holds_reservation(after_reserve(s, id, direction, route, tick), id),
        reserve_granted(after_reserve(s, id, direction, route, tick), id, direction, route, tick),
        after_reserve(after_reserve(s, id, direction, route, tick), id, direction, route, tick)
            == after_reserve(s, id, direction, route, tick),
{
    let s2 = after_reserve(s, id, direction, route, tick);
    if !holds_reservation(s, id) {
        assert(s2[s2.len() - 1].vehicle_id == id);
    }
}

/// Releasing undoes a request: reserving and then releasing leaves the
/// bookings of all other vehicles exactly as they were.
pub proof fn lemma_release_undoes_reserve(
    s: Seq<TimedReservation>,
    id: u32,
    direction: Direction,
    route: Route,
    tick: u64,
)
    ensures
        without_vehicle(after_reserve(s, id, direction, route, tick), id) == without_vehicle(s, id),
{
    if !holds_reservation(s, id) && reserve_granted(s, id, direction, route, tick) {
        let n = booking(id, path_of(direction, route), tick as int, crossing_window(direction, route));
        reveal(Seq::filter);
        assert(s.push(n).drop_last() =~= s);
    }
}

impl IntersectionManager {
    /// The schedule is well formed (see `schedule_wf`).
    pub open spec fn wf(&self) -> bool {
        schedule_wf(self@)
    }

    /// An empty schedule.
    pub fn new() -> (m: Self)
        ensures
            m.wf(),
            m@ == Seq::<TimedReservation>::empty(),
    {
        IntersectionManager { reservations: Vec::new() }
    }

    /// The bookings currently held, in booking order.
    pub fn reservations(&self) -> (r: &Vec<TimedReservation>)
        ensures
            r@ == self@,
    {
        &self.reservations
    }

    /// Position of vehicle `id`'s booking, if it holds one.
    fn find(&self, id: u32) -> (pos: Option<usize>)
        ensures
            match pos {
                Some(k) => k < self@.len() && self@[k as int].vehicle_id == id,
                None => !holds_reservation(self@, id),
            },
    {
        let mut i: usize = 0;
        while i < self.reservations.len()
            invariant
                i <= self@.len(),
                self.reservations@ == self@,
                forall|k: int| 0 <= k < i ==> self@[k].vehicle_id != id,
            decreases self@.len() - i,
        {
            if self.reservations[i].vehicle_id == id {
                return Some(i);
            }
            i = i + 1;
        }
        None
    }

    /// Earliest closing tick among the bookings that stand in the way of the
    /// window `[entry, exit)` on path `idx`, or `None` when the window is free.
    fn earliest_blocking_exit(&self, idx: usize, entry: u64, exit: u64) -> (m: Option<u64>)
        requires
            self.wf(),
            idx < PATH_COUNT,
        ensures
            match m {
                None => slot_free(self@, idx as int, entry as int, exit as int),
                Some(t) => {
                    &&& exists|k: int|
                        0 <= k < self@.len() && #[trigger] blocks(
                            self@[k],
                            idx as int,
                            entry as int,
                            exit as int,
                        ) && self@[k].exit_tick == t
                    &&& forall|k: int|
                        0 <= k < self@.len() && #[trigger] blocks(
                            self@[k],
                            idx as int,
                            entry as int,
                            exit as int,
                        ) ==> t <= self@[k].exit_tick
                },
            },
    {
        let mut best: Option<u64> = None;
        let mut i: usize = 0;
        while i < self.reservations.len()
            invariant
                i <= self@.len(),
                idx < PATH_COUNT,
                self.wf(),
                self.reservations@ == self@,
                match best {
                    None => forall|k: int|
                        0 <= k < i ==> !#[trigger] blocks(
                            self@[k],
                            idx as int,
                            entry as int,
                            exit as int,
                        ),
                    Some(t) => {
                        &&& exists|k: int|
                            0 <= k < i && #[trigger] blocks(
                                self@[k],
                                idx as int,
                                entry as int,
                                exit as int,
                            ) && self@[k].exit_tick == t
                        &&& forall|k: int|
                            0 <= k < i && #[trigger] blocks(
                                self@[k],
                                idx as int,
                                entry as int,
                                exit as int,
                            ) ==> t <= self@[k].exit_tick
                    },
                },
            decreases self@.len() - i,
        {
            let r = self.reservations[i];
            if conflicts(idx, r.path_idx) && entry < r.exit_tick && r.entry_tick < exit {
                assert(blocks(self@[i as int], idx as int, entry as int, exit as int));
                best = match best {
                    None => Some(r.exit_tick),
                    Some(t) => if r.exit_tick < t {
                        Some(r.exit_tick)
                    } else {
                        Some(t)
                    },
                };
            } else {
                assert(!blocks(self@[i as int], idx as int, entry as int, exit as int));
            }
            i = i + 1;
        }
        best
    }

    /// Appends a booking that fits the schedule.
    fn book(&mut self, r: TimedReservation)
        requires
            old(self).wf(),
            booking_wf(r),
            !holds_reservation(old(self)@, r.vehicle_id),
            slot_free(old(self)@, r.path_idx as int, r.entry_tick as int, r.exit_tick as int),
        ensures
            final(self).wf(),
            final(self)@ == old(self)@.push(r),
    {
        proof {
            let s = self@;
            lemma_conflicts_symmetric_and_right_turns_free();
            assert forall|k: int| 0 <= k < s.len() implies {
                &&& (#[trigger] s[k]).vehicle_id != r.vehicle_id
                &&& !blocks(s[k], r.path_idx as int, r.entry_tick as int, r.exit_tick as int)
                &&& !blocks(r, s[k].path_idx as int, s[k].entry_tick as int, s[k].exit_tick as int)
            } by {
                assert(!blocks(s[k], r.path_idx as int, r.entry_tick as int, r.exit_tick as int));
            }
            lemma_push_keeps_wf(s, r);
        }
        self.reservations.push(r);
    }

    /// Purge reservations whose crossing window has fully elapsed.
    /// Call once per simulation tick before processing vehicles.
    pub fn cleanup_expired(&mut self, current_tick: u64)
        requires
            old(self).wf(),
        ensures
            final(self).wf(),
            final(self)@ == old(self)@.filter(still_open(current_tick)),
            forall|k: int| 0 <= k < final(self)@.len() ==> #[trigger] final(self)@[k].exit_tick > current_tick,
            forall|k: int|
                0 <= k < old(self)@.len() && #[trigger] old(self)@[k].exit_tick > current_tick
                    ==> final(self)@.contains(old(self)@[k]),
    {
        let ghost pred = still_open(current_tick);
        let mut kept: Vec<TimedReservation> = Vec::new();
        let mut i: usize = 0;
        while i < self.reservations.len()
            invariant
                i <= self@.len(),
                self.reservations@ == self@,
                kept@ == self@.take(i as int).filter(pred),
                pred == still_open(current_tick),
            decreases self@.len() - i,
        {
            let r = self.reservations[i];
            if r.exit_tick > current_tick {
                kept.push(r);
            }
            proof {
                reveal(Seq::filter);
                assert(self@.take(i + 1).drop_last() =~= self@.take(i as int));
                assert(self@.take(i + 1).last() == r);
                assert(pred(r) == (r.exit_tick > current_tick));
            }
            i = i + 1;
        }
        proof {
            assert(self@.take(self@.len() as int) =~= self@);
            lemma_filter_keeps_wf(self@, pred);
            broadcast use vstd::seq_lib::group_filter_ensures;
        }
        self.reservations = kept;
    }

    /// Release the reservation held by a vehicle that has finished crossing.
    pub fn release(&mut self, vehicle_id: u32)
        requires
            old(self).wf(),
        ensures
            final(self).wf(),
            final(self)@ == without_vehicle(old(self)@, vehicle_id),
            !holds_reservation(final(self)@, vehicle_id),
            forall|k: int|
                0 <= k < old(self)@.len() && #[trigger] old(self)@[k].vehicle_id != vehicle_id
                    ==> final(self)@.contains(old(self)@[k]),
    {
        let ghost pred = other_vehicle(vehicle_id);
        let mut kept: Vec<TimedReservation> = Vec::new();
        let mut i: usize = 0;
        while i < self.reservations.len()
            invariant
                i <= self@.len(),
                self.reservations@ == self@,
                kept@ == self@.take(i as int).filter(pred),
                pred == other_vehicle(vehicle_id),
            decreases self@.len() - i,
        {
            let r = self.reservations[i];
            if r.vehicle_id != vehicle_id {
                kept.push(r);
            }
            proof {
                reveal(Seq::filter);
                assert(self@.take(i + 1).drop_last() =~= self@.take(i as int));
                assert(self@.take(i + 1).last() == r);
                assert(pred(r) == (r.vehicle_id != vehicle_id));
            }
            i = i + 1;
        }
        proof {
            assert(self@.take(self@.len() as int) =~= self@);
            lemma_filter_keeps_wf(self@, pred);
            let f = self@.filter(pred);
            assert forall|k: int| 0 <= k < f.len() implies f[k].vehicle_id != vehicle_id by {
                self@.lemma_filter_pred(pred, k);
            }
            broadcast use vstd::seq_lib::group_filter_ensures;
        }
        self.reservations = kept;
    }

    /// Fallback reservation for vehicles already at the stop line (Waiting state).
    /// Grants an immediate slot if the full crossing window is free of conflicts
    /// — including future reservations from approaching vehicles.
    pub fn try_reserve(
        &mut self,
        vehicle_id: u32,
        direction: Direction,
        route: Route,
        current_tick: u64,
    ) -> (granted: bool)
        requires
            old(self).wf(),
            holds_reservation(old(self)@, vehicle_id) || current_tick + crossing_window(
                direction,
                route,
            ) <= u64::MAX,
        ensures
            final(self).wf(),
            granted == reserve_granted(old(self)@, vehicle_id, direction, route, current_tick),
            final(self)@ == after_reserve(old(self)@, vehicle_id, direction, route, current_tick),
    {
        if self.find(vehicle_id).is_some() {
            return true;
        }
        let idx = path_index(direction, route);
        let window = crossing_ticks(direction, route);
        let exit_tick = current_tick + window;
        // Full interval overlap: [current_tick, exit_tick) vs [r.entry_tick, r.exit_tick)
        if self.earliest_blocking_exit(idx, current_tick, exit_tick).is_some() {
            return false;
        }
        proof {
            lemma_path_index_bijective();
        }
        self.book(
            TimedReservation { vehicle_id, path_idx: idx, entry_tick: current_tick, exit_tick },
        );
        true
    }

    /// Find the earliest free crossing window for a vehicle that can reach the
    /// stop line after `fast_arrival_ticks` ticks at full speed and after
    /// `slow_arrival_ticks` ticks at crawl speed.
    ///
    /// If the vehicle already holds a reservation that it can still make,
    /// returns its entry tick. Otherwise drops any reservation it holds,
    /// searches forward in time from the full-speed arrival and books the first
    /// conflict-free window. Returns None only when the junction is saturated
    /// for the full look-ahead range (which never reaches past the end of the
    /// tick clock).
    pub fn try_reserve_timed(
        &mut self,
        vehicle_id: u32,
        direction: Direction,
        route: Route,
        current_tick: u64,
        fast_arrival_ticks: u64,
        slow_arrival_ticks: u64,
    ) -> (entry: Option<u64>)
        requires
            old(self).wf(),
        ensures
            final(self).wf(),
            timed_outcome(
                old(self)@,
                final(self)@,
                vehicle_id,
                direction,
                route,
                current_tick,
                fast_arrival_ticks,
                slow_arrival_ticks,
                entry,
            ),
            entry is Some <==> holds_reservation(final(self)@, vehicle_id),
            entry matches Some(e) ==> held_booking(final(self)@, vehicle_id).entry_tick == e,
            entry matches Some(e) ==> forall|k: int|
                0 <= k < final(self)@.len() && #[trigger] final(self)@[k].vehicle_id == vehicle_id
                    ==> final(self)@[k].entry_tick == e,
            entry is None ==> final(self)@ == without_vehicle(old(self)@, vehicle_id),
            without_vehicle(final(self)@, vehicle_id) == without_vehicle(old(self)@, vehicle_id),
            forall|k: int|
                0 <= k < final(self)@.len() ==> #[trigger] final(self)@[k].entry_tick
                    < final(self)@[k].exit_tick,
    {
        let ghost old_view = self@;
        // If already reserved and the entry window can still be made, keep it.
        // If the entry window has passed (vehicle was blocked by a leader), re-book.
        if let Some(pos) = self.find(vehicle_id) {
            let held = self.reservations[pos];
            proof {
                let k = choose|k: int| 0 <= k < old_view.len() && old_view[k].vehicle_id == vehicle_id;
                assert(old_view[k].vehicle_id == old_view[pos as int].vehicle_id);
                assert(held_booking(old_view, vehicle_id) == held);
                assert(booking_wf(old_view[pos as int]));
                lemma_window_of_path(held.path_idx as int);
            }
            if current_tick <= held.entry_tick + GRACE_TICKS && current_tick < held.exit_tick {
                proof {
                    lemma_booked_windows_nonempty(*self);
                    assert forall|k: int|
                        0 <= k < old_view.len() && #[trigger] old_view[k].vehicle_id == vehicle_id
                            implies old_view[k].entry_tick == held.entry_tick by {
                        if k != pos as int {
                            assert(old_view[k].vehicle_id != old_view[pos as int].vehicle_id);
                        }
                    }
                }
                return Some(held.entry_tick);
            }
            assert(!keeps_booking(old_view, vehicle_id, current_tick));
        } else {
            assert(!keeps_booking(old_view, vehicle_id, current_tick));
        }
        // Entry window fully passed (or none held) — drop and find a new slot.
        self.release(vehicle_id);
        let ghost base = self@;
        proof {
            lemma_without_vehicle_twice(old_view, vehicle_id);
            lemma_booked_windows_nonempty(*self);
        }
        let idx = path_index(direction, route);
        let window = crossing_ticks(direction, route);
        proof {
            lemma_path_index_bijective();
            lemma_window_of_path(idx as int);
        }
        // Latest entry whose window still ends on the tick clock.
        let limit = u64::MAX - window;
        // Search window: earliest arrival at full speed, latest at crawl speed + buffer.
        let earliest = match current_tick.checked_add(fast_arrival_ticks) {
            Some(t) => t,
            None => {
                return None;
            },
        };
        let search_max = match current_tick.checked_add(slow_arrival_ticks) {
            Some(t) => {
                if t <= limit && LOOKAHEAD_TICKS <= limit - t {
                    t + LOOKAHEAD_TICKS
                } else {
                    limit
                }
            },
            None => limit,
        };
        if earliest > search_max {
            return None;
        }
        let mut entry = earliest;
        loop
            invariant
                self.wf(),
                self@ == base,
                old_view == old(self)@,
                !keeps_booking(old_view, vehicle_id, current_tick),
                base == without_vehicle(old_view, vehicle_id),
                without_vehicle(base, vehicle_id) == base,
                !holds_reservation(base, vehicle_id),
                forall|k: int| 0 <= k < base.len() ==> #[trigger] base[k].entry_tick < base[k].exit_tick,
                idx == path_of(direction, route),
                window == crossing_window(direction, route),
                GRACE_TICKS <= window <= 104,
                earliest == current_tick + fast_arrival_ticks,
                search_max == search_end(current_tick, slow_arrival_ticks, window as int),
                earliest <= entry <= search_max,
                search_max + window <= u64::MAX,
                forall|e: int|
                    earliest <= e < entry ==> !#[trigger] slot_free_from(
                        base,
                        idx as int,
                        window as int,
                        e,
                    ),
            decreases search_max - entry,
        {
            let exit = entry + window;
            // Find the earliest exit_tick among all conflicting reservations overlapping
            // [entry, exit). If any exist, jump straight to that tick — skipping the
            // entire blocked window in one step rather than iterating tick-by-tick.
            match self.earliest_blocking_exit(idx, entry, exit) {
                None => {
                    let r = TimedReservation { vehicle_id, path_idx: idx, entry_tick: entry, exit_tick: exit };
                    self.book(r);
                    proof {
                        let s = self@;
                        let last = s.len() - 1;
                        assert(s[last].vehicle_id == vehicle_id);
                        let k = choose|k: int| 0 <= k < s.len() && s[k].vehicle_id == vehicle_id;
                        assert(s[k].vehicle_id == s[last].vehicle_id);
                        assert forall|k: int|
                            0 <= k < s.len() && #[trigger] s[k].vehicle_id == vehicle_id
                                implies s[k].entry_tick == entry by {
                            if k < last {
                                assert(s[k] == base[k]);
                            }
                        }
                        assert forall|k: int| 0 <= k < s.len() implies #[trigger] s[k].entry_tick
                            < s[k].exit_tick by {
                            if k < last {
                                assert(s[k] == base[k]);
                            }
                        }
                        lemma_without_vehicle_push(base, r, vehicle_id);
                    }
                    return Some(entry);
                },
                Some(next) => {
                    proof {
                        let k = choose|k: int|
                            0 <= k < base.len() && #[trigger] blocks(
                                base[k],
                                idx as int,
                                entry as int,
                                exit as int,
                            ) && base[k].exit_tick == next;
                        lemma_blocked_until(base, idx as int, window as int, entry as int, k);
                    }
                    if next > search_max {
                        return None;
                    }
                    entry = next;
                },
            }
        }
    }
}

} // verus!
