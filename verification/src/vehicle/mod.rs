//! Vehicles: where they come from, where they go, and the phases of their trip.

pub mod physics;

use vstd::prelude::*;

use crate::intersection::{
    after_reserve, crossing_window, exit_direction, heading_after, holds_reservation,
    reserve_granted, without_vehicle, IntersectionManager,
};

verus! {

/// Heading of a vehicle.
#[derive(Debug, Clone, Copy, PartialEq, Eq, Hash, Structural)]
pub enum Direction {
    /// Travelling north, enters from the south.
    North,
    /// Travelling south, enters from the north.
    South,
    /// Travelling east, enters from the west.
    East,
    /// Travelling west, enters from the east.
    West,
}

/// What a vehicle does at the junction.
#[derive(Debug, Clone, Copy, PartialEq, Eq, Hash, Structural)]
pub enum Route {
    Right,
    Straight,
    Left,
}

/// Phase of a vehicle's trip through the junction.
#[derive(Debug, Clone, Copy, PartialEq, Eq, Hash, Structural)]
pub enum VehicleState {
    /// Moving down the approach lane toward the junction.
    Approaching,
    /// Stopped at the stop line, waiting for a slot.
    Waiting,
    /// Holds a slot and is driving through the junction.
    Crossing,
    /// Has cleared the junction and is leaving the screen.
    Exiting,
    /// Off screen, ready to be removed.
    Done,
}

/// Heading in whole degrees, clockwise from north.
pub open spec fn heading_degrees(dir: Direction) -> u32 {
    match dir {
        Direction::North => 0,
        Direction::East => 90,
        Direction::South => 180,
        Direction::West => 270,
    }
}

/// Sprite rotation for a heading: clockwise degrees, 0 pointing up (north).
pub fn direction_to_angle(dir: Direction) -> (deg: u32)
    ensures
        deg == heading_degrees(dir),
        deg < 360,
        deg % 90 == 0,
{
    match dir {
        Direction::North => 0,
        Direction::East => 90,
        Direction::South => 180,
        Direction::West => 270,
    }
}

/// The trip of one vehicle through the junction: who it is, where it goes,
/// which phase it is in and when it was seen. Its position and speed are
/// kept by the moving body that carries it.
#[derive(Debug, Clone, Copy)]
pub struct Vehicle {
    pub id: u32,
    pub direction: Direction,
    pub route: Route,
    /// Entry tick assigned by the IntersectionManager.
    pub reservation: Option<u64>,
    pub state: VehicleState,
    /// None until the vehicle first reaches the stop line.
    pub detection_tick: Option<u64>,
    /// Tick at which the vehicle left the screen.
    pub exit_tick: Option<u64>,
}

/// Ticks from first detection at the stop line to leaving the screen, when
/// both are known.
pub open spec fn transit_of(detection: Option<u64>, exit: Option<u64>) -> Option<u64> {
    match (detection, exit) {
        (Some(d), Some(e)) => Some((e - d) as u64),
        _ => None,
    }
}

/// The vehicle was not detected after `tick`.
pub open spec fn detected_by(detection: Option<u64>, tick: u64) -> bool {
    match detection {
        Some(d) => d <= tick,
        None => true,
    }
}

impl Vehicle {
    /// A vehicle entering the approach lane.
    pub fn new(id: u32, direction: Direction, route: Route) -> (v: Self)
        ensures
            v.id == id,
            v.direction == direction,
            v.route == route,
            v.reservation is None,
            v.state == VehicleState::Approaching,
            v.detection_tick is None,
            v.exit_tick is None,
    {
        Vehicle {
            id,
            direction,
            route,
            reservation: None,
            state: VehicleState::Approaching,
            detection_tick: None,
            exit_tick: None,
        }
    }

    /// Transit time in ticks from first stop-line detection to off-screen exit.
    pub fn transit_ticks(&self) -> (t: Option<u64>)
        requires
            self.exit_tick matches Some(e) ==> detected_by(self.detection_tick, e),
        ensures
            t == transit_of(self.detection_tick, self.exit_tick),
    {
        match (self.detection_tick, self.exit_tick) {
            (Some(d), Some(e)) => Some(e - d),
            _ => None,
        }
    }

    /// An approaching vehicle's front has reached its stop line at `tick`.
    /// Records the first detection, then enters the junction if its booked
    /// entry tick has come, holds at the line if the entry is still ahead, or
    /// starts waiting when it holds no booking. Returns whether it enters.
    pub fn arrive_at_stop_line(&mut self, tick: u64) -> (enters: bool)
        ensures
            final(self).detection_tick == (if old(self).detection_tick is None {
                Some(tick)
            } else {
                old(self).detection_tick
            }),
            enters == (old(self).reservation matches Some(e) && tick >= e),
            final(self).state == (if enters {
                VehicleState::Crossing
            } else if old(self).reservation is None {
                VehicleState::Waiting
            } else {
                old(self).state
            }),
            final(self).id == old(self).id,
            final(self).direction == old(self).direction,
            final(self).route == old(self).route,
            final(self).reservation == old(self).reservation,
            final(self).exit_tick == old(self).exit_tick,
    {
        if self.detection_tick.is_none() {
            self.detection_tick = Some(tick);
        }
        match self.reservation {
            Some(entry_tick) => {
                if tick >= entry_tick {
                    self.state = VehicleState::Crossing;
                    true
                } else {
                    // hold at the stop line until entry_tick arrives
                    false
                }
            },
            None => {
                self.state = VehicleState::Waiting;
                false
            },
        }
    }

    /// A waiting vehicle asks for an immediate crossing window at `tick` and
    /// starts crossing when it is granted. Returns whether it was granted.
    pub fn try_enter(&mut self, manager: &mut IntersectionManager, tick: u64) -> (granted: bool)
        requires
            old(manager).wf(),
            holds_reservation(old(manager)@, old(self).id) || tick + crossing_window(
                old(self).direction,
                old(self).route,
            ) <= u64::MAX,
        ensures
            final(manager).wf(),
            granted == reserve_granted(
                old(manager)@,
                old(self).id,
                old(self).direction,
                old(self).route,
                tick,
            ),
            final(manager)@ == after_reserve(
                old(manager)@,
                old(self).id,
                old(self).direction,
                old(self).route,
                tick,
            ),
            final(self).state == (if granted {
                VehicleState::Crossing
            } else {
                old(self).state
            }),
            final(self).id == old(self).id,
            final(self).direction == old(self).direction,
            final(self).route == old(self).route,
            final(self).reservation == old(self).reservation,
            final(self).detection_tick == old(self).detection_tick,
            final(self).exit_tick == old(self).exit_tick,
    {
        if manager.try_reserve(self.id, self.direction, self.route, tick) {
            self.state = VehicleState::Crossing;
            true
        } else {
            false
        }
    }

    /// The vehicle has reached the last waypoint of its path: it takes its
    /// exit heading, starts leaving, and gives its crossing window back.
    /// Returns the new heading.
    pub fn finish_crossing(&mut self, manager: &mut IntersectionManager) -> (heading: Direction)
        requires
            old(manager).wf(),
        ensures
            heading == heading_after(old(self).direction, old(self).route),
            final(self).direction == heading,
            final(self).state == VehicleState::Exiting,
            final(self).reservation is None,
            final(manager).wf(),
            final(manager)@ == without_vehicle(old(manager)@, old(self).id),
            !holds_reservation(final(manager)@, old(self).id),
            final(self).id == old(self).id,
            final(self).route == old(self).route,
            final(self).detection_tick == old(self).detection_tick,
            final(self).exit_tick == old(self).exit_tick,
    {
        let heading = exit_direction(self.direction, self.route);
        self.direction = heading;
        self.state = VehicleState::Exiting;
        self.reservation = None;
        manager.release(self.id);
        heading
    }

    /// The vehicle has left the screen at `tick`: it is done, and its transit
    /// time is returned when it was detected at the stop line.
    pub fn leave_screen(&mut self, tick: u64) -> (transit: Option<u64>)
        requires
            detected_by(old(self).detection_tick, tick),
        ensures
            final(self).state == VehicleState::Done,
            final(self).exit_tick == Some(tick),
            transit == transit_of(old(self).detection_tick, Some(tick)),
            final(self).id == old(self).id,
            final(self).direction == old(self).direction,
            final(self).route == old(self).route,
            final(self).reservation == old(self).reservation,
            final(self).detection_tick == old(self).detection_tick,
    {
        self.state = VehicleState::Done;
        self.exit_tick = Some(tick);
        self.transit_ticks()
    }
}

} // verus!
