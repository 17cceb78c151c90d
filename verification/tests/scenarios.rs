//! End-to-end dispatch scenarios driven through `handle_event`.

use elevator_dispatch::building::{BuildingCommand, BuildingEvent, Direction};
use elevator_dispatch::controller::DispatchState;

fn up() -> Direction {
    Direction::Up
}

fn down() -> Direction {
    Direction::Down
}

#[test]
fn idle_car_takes_hall_call() {
    // One car idle at floor 0 in a ten-floor building; a hall call at floor 5
    // going up is assigned to it at once and a motion command is emitted.
    let mut s = DispatchState::new(10, 1);
    let cmds = s.handle_event(BuildingEvent::CallButtonPressed(5, up())).unwrap();
    assert_eq!(cmds, vec![BuildingCommand::GoToFloor(0, 5)]);
    assert!(s.pending.is_empty());
    assert_eq!(s.cars[0].should_visit, vec![5]);
    assert_eq!(s.cars[0].direction, Some(up()));
}

#[test]
fn call_inside_trip_joins_moving_car() {
    // A car moving up from floor 3 with stops {5, 8} accepts a same-direction
    // call at floor 6, which lies inside its current trip.
    let mut s = DispatchState::new(10, 1);
    s.handle_event(BuildingEvent::FloorButtonPressed(0, 5)).unwrap();
    s.handle_event(BuildingEvent::FloorButtonPressed(0, 8)).unwrap();
    s.handle_event(BuildingEvent::AtFloor(0, 3)).unwrap();
    assert_eq!(s.cars[0].position, 3);
    assert_eq!(s.cars[0].should_visit, vec![5, 8]);
    assert_eq!(s.cars[0].direction, Some(up()));

    let cmds = s.handle_event(BuildingEvent::CallButtonPressed(6, up())).unwrap();
    assert_eq!(s.cars[0].should_visit, vec![5, 6, 8]);
    assert!(s.pending.is_empty());
    // The reconciliation pass recomputes the next stop, still floor 5.
    assert_eq!(cmds, vec![BuildingCommand::GoToFloor(0, 5)]);
}

#[test]
fn tie_between_idle_cars_goes_to_lowest_id() {
    // Two idle cars, both at floor 0, are equidistant from floor 4: the car
    // with the lowest id wins the tie.
    let mut s = DispatchState::new(10, 2);
    let cmds = s.handle_event(BuildingEvent::CallButtonPressed(4, down())).unwrap();
    assert_eq!(cmds, vec![BuildingCommand::GoToFloor(0, 4)]);
    assert_eq!(s.cars[0].should_visit, vec![4]);
    assert!(s.cars[1].should_visit.is_empty());
    assert!(s.pending.is_empty());
}

#[test]
fn call_at_current_floor_of_moving_car_is_dropped() {
    // A car at floor 5, moving up, with floor 5 still among its stops. A hall
    // call at floor 5 going up matches the car, yet the stop is not inserted
    // and the pending pair is removed: the documented reference behaviour
    // drops the call unserviced.
    let mut s = DispatchState::new(10, 1);
    s.handle_event(BuildingEvent::FloorButtonPressed(0, 9)).unwrap();
    s.handle_event(BuildingEvent::AtFloor(0, 5)).unwrap();
    s.handle_event(BuildingEvent::FloorButtonPressed(0, 5)).unwrap();
    assert_eq!(s.cars[0].position, 5);
    assert_eq!(s.cars[0].should_visit, vec![5, 9]);
    assert_eq!(s.cars[0].direction, Some(up()));

    let cmds = s.handle_event(BuildingEvent::CallButtonPressed(5, up())).unwrap();
    assert!(cmds.is_empty());
    assert!(s.pending.is_empty());
    assert_eq!(s.cars[0].should_visit, vec![5, 9]);
}

#[test]
fn arrival_at_last_stop_makes_car_idle() {
    // A car heading up with {3} as its only stop arrives at floor 3: the stop
    // set empties, the car goes idle, and no command is emitted.
    let mut s = DispatchState::new(10, 1);
    s.handle_event(BuildingEvent::FloorButtonPressed(0, 3)).unwrap();
    assert_eq!(s.cars[0].direction, Some(up()));
    let cmds = s.handle_event(BuildingEvent::AtFloor(0, 3)).unwrap();
    assert!(cmds.is_empty());
    assert!(s.cars[0].should_visit.is_empty());
    assert_eq!(s.cars[0].direction, None);
    assert_eq!(s.cars[0].position, 3);
}

#[test]
fn unmatchable_call_stays_pending_and_second_pass_changes_nothing() {
    // A call behind a busy car finds no candidate and stays pending; an
    // ignored event re-runs the reconciliation pass, which must change
    // nothing and emit nothing.
    let mut s = DispatchState::new(10, 1);
    s.handle_event(BuildingEvent::FloorButtonPressed(0, 8)).unwrap();
    s.handle_event(BuildingEvent::AtFloor(0, 3)).unwrap();
    // Car scans up through [3, 8]; a down call at floor 2 has no candidate.
    let cmds = s.handle_event(BuildingEvent::CallButtonPressed(2, down())).unwrap();
    assert!(cmds.is_empty());
    assert_eq!(s.pending, vec![(2, down())]);
    let stops_before = s.cars[0].should_visit.clone();

    let cmds2 = s.handle_event(BuildingEvent::PassengerDelivered(0)).unwrap();
    assert!(cmds2.is_empty());
    assert_eq!(s.pending, vec![(2, down())]);
    assert_eq!(s.cars[0].should_visit, stops_before);
    assert_eq!(s.cars[0].position, 3);
}

#[test]
fn sweep_visits_stops_in_strictly_increasing_order() {
    // While a car keeps scanning up, each arrival is followed by a command
    // toward a strictly higher floor.
    let mut s = DispatchState::new(12, 1);
    s.handle_event(BuildingEvent::FloorButtonPressed(0, 8)).unwrap();
    s.handle_event(BuildingEvent::FloorButtonPressed(0, 3)).unwrap();
    s.handle_event(BuildingEvent::FloorButtonPressed(0, 5)).unwrap();
    let cmds = s.handle_event(BuildingEvent::AtFloor(0, 3)).unwrap();
    assert_eq!(cmds, vec![BuildingCommand::GoToFloor(0, 5)]);
    let cmds = s.handle_event(BuildingEvent::AtFloor(0, 5)).unwrap();
    assert_eq!(cmds, vec![BuildingCommand::GoToFloor(0, 8)]);
    let cmds = s.handle_event(BuildingEvent::AtFloor(0, 8)).unwrap();
    assert!(cmds.is_empty());
    assert_eq!(s.cars[0].direction, None);
}

#[test]
fn reversal_serves_stop_behind_idle_position() {
    // An idle car at floor 5 receives a cabin call for floor 2: it derives a
    // downward direction and heads there.
    let mut s = DispatchState::new(10, 1);
    s.handle_event(BuildingEvent::AtFloor(0, 5)).unwrap();
    assert_eq!(s.cars[0].direction, None);
    let cmds = s.handle_event(BuildingEvent::FloorButtonPressed(0, 2)).unwrap();
    assert_eq!(cmds, vec![BuildingCommand::GoToFloor(0, 2)]);
    assert_eq!(s.cars[0].direction, Some(down()));
}

#[test]
fn freed_car_picks_up_waiting_call() {
    // A call that found no candidate is picked up by the reconciliation pass
    // of a later event, once the car has gone idle.
    let mut s = DispatchState::new(10, 1);
    s.handle_event(BuildingEvent::FloorButtonPressed(0, 8)).unwrap();
    s.handle_event(BuildingEvent::AtFloor(0, 3)).unwrap();
    s.handle_event(BuildingEvent::CallButtonPressed(2, down())).unwrap();
    assert_eq!(s.pending, vec![(2, down())]);
    let cmds = s.handle_event(BuildingEvent::AtFloor(0, 8)).unwrap();
    // Arrival empties the stops; the pass then binds the waiting call.
    assert_eq!(cmds, vec![BuildingCommand::GoToFloor(0, 2)]);
    assert!(s.pending.is_empty());
    assert_eq!(s.cars[0].should_visit, vec![2]);
}

#[test]
fn invariants_hold_along_a_mixed_run() {
    // Along an arbitrary valid run, every car is directionless exactly when
    // it has no stops, and every recorded floor lies inside the building.
    let mut s = DispatchState::new(10, 3);
    let events = vec![
        BuildingEvent::CallButtonPressed(5, up()),
        BuildingEvent::FloorButtonPressed(1, 7),
        BuildingEvent::AtFloor(0, 5),
        BuildingEvent::CallButtonPressed(2, down()),
        BuildingEvent::PassengerDelivered(1),
        BuildingEvent::AtFloor(1, 7),
        BuildingEvent::FloorButtonPressed(2, 9),
        BuildingEvent::AtFloor(2, 9),
    ];
    for e in events {
        let cmds = s.handle_event(e).unwrap();
        for c in cmds {
            let BuildingCommand::GoToFloor(id, floor) = c;
            assert!(id < 3);
            assert!(floor < 10);
        }
        for car in &s.cars {
            assert_eq!(car.direction.is_none(), car.should_visit.is_empty());
            assert!(car.position < 10);
            for &f in &car.should_visit {
                assert!(f < 10);
            }
        }
        for &(f, _) in &s.pending {
            assert!(f < 10);
        }
    }
}
