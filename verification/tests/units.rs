//! Unit tests of the car queries, the best-match selection, the
//! reconciliation pass, and the error paths.

use elevator_dispatch::building::{
    Building, BuildingCommand, BuildingEvent, Direction, DispatchError, make_building,
};
use elevator_dispatch::car::{ElevatorButtonsInfo, FloorRange, vec_insert_sorted, vec_remove_sorted};
use elevator_dispatch::controller::DispatchState;
use elevator_dispatch::dispatch::{find_best_elevator_match, process_waiting_list};

fn car(position: usize, stops: Vec<usize>, direction: Option<Direction>) -> ElevatorButtonsInfo {
    ElevatorButtonsInfo { position, should_visit: stops, direction }
}

#[test]
fn building_configuration() {
    let b = make_building();
    assert_eq!(b.num_floors(), 30);
    assert_eq!(b.num_elevators(), 10);
    let b2 = Building::new(4, 2);
    assert_eq!(b2.num_floors(), 4);
    assert_eq!(b2.num_elevators(), 2);
}

#[test]
fn direction_flip() {
    assert_eq!(Direction::Up.flip(), Direction::Down);
    assert_eq!(Direction::Down.flip(), Direction::Up);
}

#[test]
fn floor_range_contains_is_inclusive() {
    let r = FloorRange { low: 3, high: 8 };
    assert!(r.contains(3));
    assert!(r.contains(5));
    assert!(r.contains(8));
    assert!(!r.contains(2));
    assert!(!r.contains(9));
}

#[test]
fn idle_and_trip_queries() {
    let c = car(0, vec![], None);
    assert!(c.is_idle());
    assert_eq!(c.current_trip(), None);

    let c = car(3, vec![5, 8], Some(Direction::Up));
    assert!(!c.is_idle());
    assert_eq!(c.current_trip(), Some(FloorRange { low: 3, high: 8 }));

    let c = car(7, vec![2, 5], Some(Direction::Down));
    assert_eq!(c.current_trip(), Some(FloorRange { low: 2, high: 7 }));
}

#[test]
fn next_step_follows_direction() {
    let c = car(3, vec![1, 5, 8], Some(Direction::Up));
    assert_eq!(c.next_step(), Some(5));
    let c = car(3, vec![1, 5, 8], Some(Direction::Down));
    assert_eq!(c.next_step(), Some(1));
    // A stop exactly at the position is returned (inclusive bound).
    let c = car(5, vec![5, 9], Some(Direction::Up));
    assert_eq!(c.next_step(), Some(5));
    // End of sweep: no stop ahead in the current direction.
    let c = car(9, vec![1, 2], Some(Direction::Up));
    assert_eq!(c.next_step(), None);
    let c = car(0, vec![], None);
    assert_eq!(c.next_step(), None);
}

#[test]
fn distance_is_absolute() {
    let c = car(2, vec![], None);
    assert_eq!(c.distance_to(7), 5);
    assert_eq!(c.distance_to(2), 0);
    let c = car(9, vec![], None);
    assert_eq!(c.distance_to(4), 5);
}

#[test]
fn swap_direction_flips_or_derives() {
    let mut c = car(3, vec![5], Some(Direction::Up));
    c.swap_direction();
    assert_eq!(c.direction, Some(Direction::Down));
    c.swap_direction();
    assert_eq!(c.direction, Some(Direction::Up));

    let mut c = car(3, vec![5], None);
    c.swap_direction();
    assert_eq!(c.direction, Some(Direction::Up));
    let mut c = car(6, vec![5], None);
    c.swap_direction();
    assert_eq!(c.direction, Some(Direction::Down));
}

#[test]
fn sorted_stop_vector_operations() {
    let mut v: Vec<usize> = vec![];
    vec_insert_sorted(&mut v, 5);
    vec_insert_sorted(&mut v, 2);
    vec_insert_sorted(&mut v, 8);
    vec_insert_sorted(&mut v, 5);
    assert_eq!(v, vec![2, 5, 8]);
    vec_remove_sorted(&mut v, 5);
    assert_eq!(v, vec![2, 8]);
    vec_remove_sorted(&mut v, 7);
    assert_eq!(v, vec![2, 8]);
}

#[test]
fn best_match_prefers_nearest_then_lowest_id() {
    let cars = vec![
        car(9, vec![], None),
        car(2, vec![], None),
        car(5, vec![], None),
    ];
    // Distances to floor 4: 5, 2, 1 — car 2 is nearest.
    assert_eq!(find_best_elevator_match(4, Direction::Up, &cars), Some(2));

    let cars = vec![car(6, vec![], None), car(2, vec![], None)];
    // Both at distance 2 from floor 4: the lowest id wins.
    assert_eq!(find_best_elevator_match(4, Direction::Up, &cars), Some(0));
}

#[test]
fn best_match_requires_direction_and_trip() {
    // A car scanning down never serves an up call, even on its path.
    let cars = vec![car(7, vec![2], Some(Direction::Down))];
    assert_eq!(find_best_elevator_match(4, Direction::Up, &cars), None);
    assert_eq!(find_best_elevator_match(4, Direction::Down, &cars), Some(0));
    // A floor outside the current trip is not served.
    assert_eq!(find_best_elevator_match(1, Direction::Down, &cars), None);
    // A moving car beats no one when idle cars exist but sit farther away.
    let cars = vec![car(0, vec![], None), car(3, vec![5], Some(Direction::Up))];
    assert_eq!(find_best_elevator_match(4, Direction::Up, &cars), Some(1));
}

#[test]
fn waiting_list_pass_assigns_and_removes() {
    let mut cars = vec![car(0, vec![], None)];
    let mut pending = vec![(5, Direction::Up), (4, Direction::Up), (2, Direction::Down)];
    let cmds = process_waiting_list(&mut cars, &mut pending);
    // The first call takes the idle car upward; the second then lies in its
    // trip; the down call is left waiting.
    assert_eq!(
        cmds,
        vec![BuildingCommand::GoToFloor(0, 5), BuildingCommand::GoToFloor(0, 4)]
    );
    assert_eq!(cars[0].should_visit, vec![4, 5]);
    assert_eq!(cars[0].direction, Some(Direction::Up));
    assert_eq!(pending, vec![(2, Direction::Down)]);
}

#[test]
fn events_naming_missing_cars_or_floors_are_faults() {
    let mut s = DispatchState::new(10, 1);
    assert_eq!(
        s.handle_event(BuildingEvent::CallButtonPressed(10, Direction::Up)),
        Err(DispatchError::FloorOutOfRange)
    );
    assert_eq!(
        s.handle_event(BuildingEvent::FloorButtonPressed(1, 3)),
        Err(DispatchError::UnknownCar)
    );
    assert_eq!(
        s.handle_event(BuildingEvent::FloorButtonPressed(0, 10)),
        Err(DispatchError::FloorOutOfRange)
    );
    assert_eq!(
        s.handle_event(BuildingEvent::AtFloor(7, 3)),
        Err(DispatchError::UnknownCar)
    );
    assert_eq!(
        s.handle_event(BuildingEvent::AtFloor(0, 99)),
        Err(DispatchError::FloorOutOfRange)
    );
    // A rejected event leaves the state untouched.
    assert!(s.pending.is_empty());
    assert!(s.cars[0].should_visit.is_empty());
    assert_eq!(s.cars[0].position, 0);
}

#[test]
fn duplicate_hall_calls_collapse() {
    let mut s = DispatchState::new(10, 1);
    s.handle_event(BuildingEvent::FloorButtonPressed(0, 8)).unwrap();
    s.handle_event(BuildingEvent::AtFloor(0, 3)).unwrap();
    s.handle_event(BuildingEvent::CallButtonPressed(2, Direction::Down)).unwrap();
    s.handle_event(BuildingEvent::CallButtonPressed(2, Direction::Down)).unwrap();
    assert_eq!(s.pending, vec![(2, Direction::Down)]);
}
