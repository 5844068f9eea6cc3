//! Turning key presses and the random-traffic timer into vehicles to spawn.

use rand::rngs::ThreadRng;
use rand::Rng;
use vstd::prelude::*;

use crate::intersection::{crossing_path, eastbound_y, northbound_x, southbound_x, westbound_y};
use crate::renderer::{CENTER_X, CENTER_Y, LANE_W, ROAD_W, WINDOW_H, WINDOW_W};
use crate::vehicle::{Direction, Route};

verus! {

/// Ticks between random spawns (about half a second at 60 frames per second).
pub const RANDOM_INTERVAL: u32 = 30;

/// Distance (px) beyond the window edge at which vehicles spawn.
pub const SPAWN_OFFSET: i32 = 20;

/// The thread-local random number generator of `rand`, carried through
/// verified code as an opaque value.
#[verifier::external_type_specification]
#[verifier::external_body]
pub struct ExThreadRng(ThreadRng);

/// A key press that the simulation reacts to.
#[derive(Debug, Clone, Copy, PartialEq, Eq, Structural)]
pub enum KeyPress {
    Up,
    Down,
    Left,
    Right,
    /// Toggles random traffic.
    R,
    /// Any other key.
    Other,
}

/// Spawns vehicles on request and, in random mode, on a timer.
pub struct InputHandler {
    random_mode: bool,
    random_timer: u32,
    next_id: u32,
}

/// Draws a number below `bound` from `rng` through `Rng::gen_range(0..bound)`.
/// The draw is random: all that is claimed of it is that it lies in `0..bound`.
#[verifier::external_body]
fn random_below(rng: &mut ThreadRng, bound: u32) -> (n: u32)
    requires
        bound > 0,
    ensures
        n < bound,
{
    rng.gen_range(0..bound)
}

/// Direction picked by a draw in `0..4`.
pub open spec fn drawn_direction(draw: u32) -> Direction {
    if draw == 0 {
        Direction::North
    } else if draw == 1 {
        Direction::South
    } else if draw == 2 {
        Direction::East
    } else {
        Direction::West
    }
}

/// Route picked by a draw in `0..3`.
pub open spec fn drawn_route(draw: u32) -> Route {
    if draw == 0 {
        Route::Right
    } else if draw == 1 {
        Route::Straight
    } else {
        Route::Left
    }
}

/// Every direction can be drawn: each of the four directions is the one
/// picked by some draw in `0..4`, and every route by some draw in `0..3`.
pub proof fn lemma_every_direction_and_route_drawable(d: Direction, r: Route)
    ensures
        exists|draw: u32| draw < 4 && #[trigger] drawn_direction(draw) == d,
        exists|draw: u32| draw < 3 && #[trigger] drawn_route(draw) == r,
{
    match d {
        Direction::North => assert(drawn_direction(0) == d),
        Direction::South => assert(drawn_direction(1) == d),
        Direction::East => assert(drawn_direction(2) == d),
        Direction::West => assert(drawn_direction(3) == d),
    }
    match r {
        Route::Right => assert(drawn_route(0) == r),
        Route::Straight => assert(drawn_route(1) == r),
        Route::Left => assert(drawn_route(2) == r),
    }
}

/// Direction for a random draw in `0..4`.
pub fn direction_for_draw(draw: u32) -> (d: Direction)
    ensures
        d == drawn_direction(draw),
{
    match draw {
        0 => Direction::North,
        1 => Direction::South,
        2 => Direction::East,
        _ => Direction::West,
    }
}

/// Route for a random draw in `0..3`.
pub fn route_for_draw(draw: u32) -> (r: Route)
    ensures
        r == drawn_route(draw),
{
    match draw {
        0 => Route::Right,
        1 => Route::Straight,
        _ => Route::Left,
    }
}

/// A direction drawn uniformly at random.
pub fn random_direction(rng: &mut ThreadRng) -> (d: Direction)
    ensures
        exists|draw: u32| draw < 4 && d == drawn_direction(draw),
{
    let draw = random_below(rng, 4);
    direction_for_draw(draw)
}

/// A route drawn uniformly at random.
pub fn random_route(rng: &mut ThreadRng) -> (r: Route)
    ensures
        exists|draw: u32| draw < 3 && r == drawn_route(draw),
{
    let draw = random_below(rng, 3);
    route_for_draw(draw)
}

impl InputHandler {
    #[verifier::type_invariant]
    spec fn timer_below_interval(self) -> bool {
        self.random_timer < RANDOM_INTERVAL
    }

    /// Random traffic is on.
    pub closed spec fn is_random(self) -> bool {
        self.random_mode
    }

    /// Ticks counted since the last random spawn.
    pub closed spec fn timer(self) -> u32 {
        self.random_timer
    }

    /// Id that the next spawned vehicle gets.
    pub closed spec fn next_vehicle_id(self) -> u32 {
        self.next_id
    }

    /// Random traffic off, nothing spawned yet.
    pub fn new() -> (h: Self)
        ensures
            !h.is_random(),
            h.timer() == 0,
            h.next_vehicle_id() == 0,
    {
        InputHandler { random_mode: false, random_timer: 0, next_id: 0 }
    }

    /// Whether random traffic is on.
    pub fn random_mode(&self) -> (on: bool)
        ensures
            on == self.is_random(),
    {
        self.random_mode
    }

    /// Id that the next spawned vehicle gets.
    pub fn next_id(&self) -> (id: u32)
        ensures
            id == self.next_vehicle_id(),
    {
        self.next_id
    }

    /// Handle one key press. The arrow keys ask for a vehicle heading that
    /// way (the returned direction); R toggles random traffic and restarts
    /// its timer; other keys do nothing.
    pub fn handle_key(&mut self, key: KeyPress) -> (spawn: Option<Direction>)
        ensures
            spawn == match key {
                KeyPress::Up => Some(Direction::North),
                KeyPress::Down => Some(Direction::South),
                KeyPress::Right => Some(Direction::East),
                KeyPress::Left => Some(Direction::West),
                _ => None::<Direction>,
            },
            final(self).is_random() == (if key == KeyPress::R {
                !old(self).is_random()
            } else {
                old(self).is_random()
            }),
            final(self).timer() == (if key == KeyPress::R {
                0
            } else {
                old(self).timer()
            }),
            final(self).next_vehicle_id() == old(self).next_vehicle_id(),
    {
        proof {
            use_type_invariant(&*self);
        }
        match key {
            KeyPress::Up => Some(Direction::North),
            KeyPress::Down => Some(Direction::South),
            KeyPress::Right => Some(Direction::East),
            KeyPress::Left => Some(Direction::West),
            KeyPress::R => {
                self.random_mode = !self.random_mode;
                self.random_timer = 0;
                None
            },
            KeyPress::Other => None,
        }
    }

    /// Call once per tick. In random mode, counts the tick and, every
    /// RANDOM_INTERVAL ticks, returns a random direction to spawn a vehicle in.
    pub fn tick(&mut self, rng: &mut ThreadRng) -> (spawn: Option<Direction>)
        ensures
            final(self).is_random() == old(self).is_random(),
            final(self).next_vehicle_id() == old(self).next_vehicle_id(),
            !old(self).is_random() ==> spawn is None && final(self).timer() == old(self).timer(),
            old(self).is_random() && old(self).timer() + 1 < RANDOM_INTERVAL ==> spawn is None
                && final(self).timer() == old(self).timer() + 1,
            old(self).is_random() && old(self).timer() + 1 >= RANDOM_INTERVAL ==> spawn is Some
                && final(self).timer() == 0,
            final(self).timer() < RANDOM_INTERVAL,
    {
        proof {
            use_type_invariant(&*self);
        }
        if !self.random_mode {
            return None;
        }
        let elapsed = self.random_timer + 1;
        if elapsed >= RANDOM_INTERVAL {
            self.random_timer = 0;
            Some(random_direction(rng))
        } else {
            self.random_timer = elapsed;
            None
        }
    }

    /// Hands out the id of a vehicle about to be spawned.
    pub fn allocate_id(&mut self) -> (id: u32)
        requires
            old(self).next_vehicle_id() < u32::MAX,
        ensures
            id == old(self).next_vehicle_id(),
            final(self).next_vehicle_id() == old(self).next_vehicle_id() + 1,
            final(self).is_random() == old(self).is_random(),
            final(self).timer() == old(self).timer(),
    {
        proof {
            use_type_invariant(&*self);
        }
        let id = self.next_id;
        self.next_id = self.next_id + 1;
        id
    }
}

/// 0-based lane of `route` for traffic heading `direction`, counted from the
/// left or top edge of its carriageway.
pub open spec fn lane_of(direction: Direction, route: Route) -> int {
    match direction {
        // outer-to-inner order: right, straight, left
        Direction::South | Direction::West => match route {
            Route::Right => 0,
            Route::Straight => 1,
            Route::Left => 2,
        },
        // mirrored for opposing traffic: left, straight, right
        Direction::North | Direction::East => match route {
            Route::Left => 0,
            Route::Straight => 1,
            Route::Right => 2,
        },
    }
}

/// 0-based lane index counting from the outer edge of the road inward.
/// Multiply by LANE_W to convert to a pixel offset from the road edge.
pub fn lane_index(direction: Direction, route: Route) -> (lane: i32)
    ensures
        lane == lane_of(direction, route),
        0 <= lane < 3,
{
    match direction {
        Direction::South | Direction::West => match route {
            Route::Right => 0,
            Route::Straight => 1,
            Route::Left => 2,
        },
        Direction::North | Direction::East => match route {
            Route::Left => 0,
            Route::Straight => 1,
            Route::Right => 2,
        },
    }
}

/// Where a vehicle with `direction` and `route` appears: just off screen, at
/// the centre of its lane.
pub open spec fn spawn_point(direction: Direction, route: Route) -> (int, int) {
    let lane = lane_of(direction, route);
    match direction {
        Direction::South => (southbound_x(lane), -SPAWN_OFFSET),
        Direction::North => (northbound_x(lane), WINDOW_H + SPAWN_OFFSET),
        Direction::West => (WINDOW_W + SPAWN_OFFSET, westbound_y(lane)),
        Direction::East => (-SPAWN_OFFSET, eastbound_y(lane)),
    }
}

/// Entry (x, y) position for a vehicle with the given direction and route.
/// Vehicles spawn just off-screen at the correct lane centre.
pub fn spawn_pos(direction: Direction, route: Route) -> (pos: (i32, i32))
    ensures
        (pos.0 as int, pos.1 as int) == spawn_point(direction, route),
{
    let idx = lane_index(direction, route);
    match direction {
        Direction::South => {
            let x = CENTER_X - ROAD_W + idx * LANE_W + LANE_W / 2;
            (x, -SPAWN_OFFSET)
        },
        Direction::North => {
            let x = CENTER_X + idx * LANE_W + LANE_W / 2;
            (x, WINDOW_H as i32 + SPAWN_OFFSET)
        },
        Direction::West => {
            let y = CENTER_Y - ROAD_W + idx * LANE_W + LANE_W / 2;
            (WINDOW_W as i32 + SPAWN_OFFSET, y)
        },
        Direction::East => {
            let y = CENTER_Y + idx * LANE_W + LANE_W / 2;
            (-SPAWN_OFFSET, y)
        },
    }
}

/// Each route of a direction has a lane of its own.
pub proof fn lemma_lanes_distinct(direction: Direction, r1: Route, r2: Route)
    ensures
        lane_of(direction, r1) == lane_of(direction, r2) <==> r1 == r2,
        spawn_point(direction, r1) == spawn_point(direction, r2) <==> r1 == r2,
{
}

/// A vehicle spawns off screen in the lane where its crossing path begins:
/// the spawn point and the first waypoint share the lane's centre line.
pub proof fn lemma_spawn_lane_meets_crossing_path(direction: Direction, route: Route)
    ensures
        ({
            let start = crossing_path(direction, route)[0];
            let spawn = spawn_point(direction, route);
            match direction {
                Direction::South | Direction::North => spawn.0 == start.0,
                Direction::West | Direction::East => spawn.1 == start.1,
            }
        }),
        ({
            let spawn = spawn_point(direction, route);
            spawn.0 < 0 || spawn.0 > WINDOW_W || spawn.1 < 0 || spawn.1 > WINDOW_H
        }),
{
}

/// What the window shows: the running simulation, or the final statistics.
#[derive(Debug, Clone, Copy, PartialEq, Eq, Structural)]
pub enum SimState {
    Running,
    ShowingStats,
}

/// A window event, as far as the run loop is concerned.
#[derive(Debug, Clone, Copy, PartialEq, Eq, Structural)]
pub enum WindowEvent {
    /// The window was closed.
    Quit,
    /// Esc was pressed.
    Escape,
    /// Any other event.
    Other,
}

/// The state after `event`, or `None` when the program ends: closing the
/// window ends it at once; Esc stops the simulation and shows the statistics,
/// and a second Esc ends the program; other events change nothing.
pub fn next_sim_state(state: SimState, event: WindowEvent) -> (next: Option<SimState>)
    ensures
        next == match event {
            WindowEvent::Quit => None,
            WindowEvent::Escape => match state {
                SimState::Running => Some(SimState::ShowingStats),
                SimState::ShowingStats => None,
            },
            WindowEvent::Other => Some(state),
        },
{
    match event {
        WindowEvent::Quit => None,
        WindowEvent::Escape => match state {
            SimState::Running => Some(SimState::ShowingStats),
            SimState::ShowingStats => None,
        },
        WindowEvent::Other => Some(state),
    }
}

/// Whether the simulation advances and reacts to spawn keys in `state`.
pub fn is_running(state: SimState) -> (running: bool)
    ensures
        running <==> state == SimState::Running,
{
    match state {
        SimState::Running => true,
        SimState::ShowingStats => false,
    }
}

} // verus!
