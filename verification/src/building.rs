//! Plain data shared between the dispatch controller and the building: floor
//! and car identifiers, inbound events, outbound commands, and the static
//! building configuration.

use vstd::prelude::*;

verus! {

/// A floor ordinal; valid floors lie in `[0, num_floors)`.
pub type FloorId = usize;

/// A car ordinal; valid cars lie in `[0, num_elevators)`.
pub type ElevatorId = usize;

/// Travel direction of a hall call or of a scanning car.
#[derive(Clone, Copy, PartialEq, Eq, Structural, Debug)]
pub enum Direction {
    Up,
    Down,
}

impl Direction {
    /// The opposite scanning direction.
    pub open spec fn flip_spec(self) -> Direction {
        match self {
            Direction::Up => Direction::Down,
            Direction::Down => Direction::Up,
        }
    }

    /// The opposite scanning direction.
    pub fn flip(self) -> (d: Direction)
        ensures
            d == self.flip_spec(),
    {
        match self {
            Direction::Up => Direction::Down,
            Direction::Down => Direction::Up,
        }
    }
}

/// An inbound building event consumed by the dispatch controller.
#[derive(Clone, Copy, PartialEq, Eq, Structural, Debug)]
pub enum BuildingEvent {
    /// A hall-call button was pressed at a floor, asking to travel in a direction.
    CallButtonPressed(FloorId, Direction),
    /// A destination button was pressed inside a car.
    FloorButtonPressed(ElevatorId, FloorId),
    /// A car arrived at a floor.
    AtFloor(ElevatorId, FloorId),
    /// A passenger left a car; ignored by the controller.
    PassengerDelivered(ElevatorId),
}

/// An outbound command emitted by the dispatch controller.
#[derive(Clone, Copy, PartialEq, Eq, Structural, Debug)]
pub enum BuildingCommand {
    /// Send the given car toward the given floor.
    GoToFloor(ElevatorId, FloorId),
}

/// A fault raised when an event references a car or floor that does not exist:
/// evidence of a corrupted upstream collaborator, surfaced instead of healed.
#[derive(Clone, Copy, PartialEq, Eq, Structural, Debug)]
pub enum DispatchError {
    /// The event names a car outside `[0, num_elevators)`.
    UnknownCar,
    /// The event names a floor outside `[0, num_floors)`.
    FloorOutOfRange,
}

/// Static configuration of a building: floor count and car count.
#[derive(Clone, Copy, PartialEq, Eq, Structural, Debug)]
pub struct Building {
    pub num_floors: usize,
    pub num_elevators: usize,
}

impl Building {
    pub fn new(num_floors: usize, num_elevators: usize) -> (b: Building)
        ensures
            b.num_floors == num_floors,
            b.num_elevators == num_elevators,
    {
        Building { num_floors, num_elevators }
    }

    pub fn num_floors(&self) -> (n: usize)
        ensures
            n == self.num_floors,
    {
        self.num_floors
    }

    pub fn num_elevators(&self) -> (n: usize)
        ensures
            n == self.num_elevators,
    {
        self.num_elevators
    }
}

/// Create the building this crate's driver wiring expects: thirty floors
/// served by a bank of ten cars.
pub fn make_building() -> (b: Building)
    ensures
        b.num_floors == 30,
        b.num_elevators == 10,
{
    Building::new(30, 10)
}

} // verus!
