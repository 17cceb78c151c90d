//! The dispatch controller: the owned aggregate of all car states plus the
//! pending hall calls, and the event-handling step that drives it.

use vstd::prelude::*;
use crate::building::{BuildingCommand, BuildingEvent, Direction, DispatchError, FloorId};
use crate::car::{arrive, add_stop, Car, car_bounded, car_wf, lemma_add_stop, lemma_arrive,
    lemma_insert_sorted, lemma_next_stop_in_stops, lemma_remove_sorted, next_stop,
    ElevatorButtonsInfo};
use crate::dispatch::{cmd_valid, distinct_seq, lemma_reconcile_bounded, lemma_remaining_props,
    process_waiting_list, reconcile, remaining, views};

verus! {

/// Mathematical model of the whole controller: the building height, one car
/// model per car, and the hall calls not yet bound to any car.
#[verifier::ext_equal]
pub ghost struct StateModel {
    pub num_floors: usize,
    pub cars: Seq<Car>,
    pub pending: Seq<(FloorId, Direction)>,
}

/// The dispatch controller state: owned exclusively by the event loop, all
/// mutation goes through `handle_event`.
pub struct DispatchState {
    pub num_floors: usize,
    pub cars: Vec<ElevatorButtonsInfo>,
    pub pending: Vec<(FloorId, Direction)>,
}

impl View for DispatchState {
    type V = StateModel;

    open spec fn view(&self) -> StateModel {
        StateModel { num_floors: self.num_floors, cars: views(self.cars@), pending: self.pending@ }
    }
}

/// The controller invariant: a workable building height, every car well
/// formed and inside the building, and a duplicate-free pending set of
/// in-range hall calls.
pub open spec fn state_wf(s: StateModel) -> bool {
    &&& 1 <= s.num_floors <= i32::MAX as usize
    &&& forall|k: int| 0 <= k < s.cars.len() ==> car_wf(#[trigger] s.cars[k])
    &&& forall|k: int| 0 <= k < s.cars.len() ==> car_bounded(#[trigger] s.cars[k], s.num_floors)
    &&& forall|j: int| 0 <= j < s.pending.len() ==> (#[trigger] s.pending[j]).0 < s.num_floors
    &&& distinct_seq(s.pending)
}

/// An event is valid when every car and floor it names exists.
pub open spec fn event_valid(s: StateModel, e: BuildingEvent) -> bool {
    match e {
        BuildingEvent::CallButtonPressed(at, _) => at < s.num_floors,
        BuildingEvent::FloorButtonPressed(car, destination) => car < s.cars.len() && destination
            < s.num_floors,
        BuildingEvent::AtFloor(car, floor) => car < s.cars.len() && floor < s.num_floors,
        BuildingEvent::PassengerDelivered(_) => true,
    }
}

/// The fault reported for an invalid event: an unknown car is reported
/// before an out-of-range floor. Meaningful only when `event_valid` fails.
pub open spec fn event_fault(s: StateModel, e: BuildingEvent) -> DispatchError {
    match e {
        BuildingEvent::CallButtonPressed(_, _) => DispatchError::FloorOutOfRange,
        BuildingEvent::FloorButtonPressed(car, _) => if car >= s.cars.len() {
            DispatchError::UnknownCar
        } else {
            DispatchError::FloorOutOfRange
        },
        BuildingEvent::AtFloor(car, _) => if car >= s.cars.len() {
            DispatchError::UnknownCar
        } else {
            DispatchError::FloorOutOfRange
        },
        BuildingEvent::PassengerDelivered(_) => DispatchError::UnknownCar,
    }
}

/// The pending set after a hall call: the pair is recorded unless an equal
/// pair is already waiting.
pub open spec fn press_call_button(s: StateModel, at: FloorId, dir: Direction) -> StateModel {
    if s.pending.contains((at, dir)) {
        s
    } else {
        StateModel { pending: s.pending.push((at, dir)), ..s }
    }
}

/// Append the reconciliation pass to an intermediate state: matched calls
/// leave the pending set, matched cars take their stops, and the pass's
/// commands follow the event's own.
pub open spec fn with_reconciled(s: StateModel, cmds0: Seq<BuildingCommand>) -> (StateModel, Seq<
    BuildingCommand,
>) {
    let rec = reconcile(s.cars, s.pending);
    (
        StateModel { cars: rec.cars, pending: remaining(s.pending, rec.matched), ..s },
        cmds0 + rec.cmds,
    )
}

/// The controller's whole step for one valid event: the per-event
/// transition, followed by the reconciliation pass that runs after every
/// event.
pub open spec fn step_event(s: StateModel, e: BuildingEvent) -> (StateModel, Seq<BuildingCommand>) {
    match e {
        BuildingEvent::CallButtonPressed(at, dir) => with_reconciled(
            press_call_button(s, at, dir),
            Seq::<BuildingCommand>::empty(),
        ),
        BuildingEvent::FloorButtonPressed(car, destination) => {
            let c2 = add_stop(s.cars[car as int], destination);
            let s1 = StateModel { cars: s.cars.update(car as int, c2), ..s };
            with_reconciled(
                s1,
                seq![BuildingCommand::GoToFloor(car, next_stop(c2).unwrap())],
            )
        },
        BuildingEvent::AtFloor(car, floor) => {
            let c2 = arrive(s.cars[car as int], floor);
            let s1 = StateModel { cars: s.cars.update(car as int, c2), ..s };
            let cmds0 = if c2.stops.len() > 0 {
                seq![BuildingCommand::GoToFloor(car, next_stop(c2).unwrap())]
            } else {
                Seq::<BuildingCommand>::empty()
            };
            with_reconciled(s1, cmds0)
        },
        BuildingEvent::PassengerDelivered(_) => with_reconciled(s, Seq::<BuildingCommand>::empty()),
    }
}

/// Whether an equal hall call is already waiting.
fn pending_contains(pending: &Vec<(FloorId, Direction)>, at: FloorId, dir: Direction) -> (r: bool)
    ensures
        r == pending@.contains((at, dir)),
{
    let mut j: usize = 0;
    while j < pending.len()
        invariant
            j <= pending@.len(),
            forall|k: int| 0 <= k < j ==> #[trigger] pending@[k] != (at, dir),
        decreases pending@.len() - j,
    {
        let entry = pending[j];
        if entry.0 == at && entry.1 == dir {
            proof {
                assert(pending@[j as int] == (at, dir));
            }
            return true;
        }
        j = j + 1;
    }
    proof {
        if pending@.contains((at, dir)) {
            let k = choose|k: int| 0 <= k < pending@.len() && pending@[k] == (at, dir);
        }
    }
    false
}

impl DispatchState {
    /// The controller invariant, at the model level.
    pub open spec fn wf(self) -> bool {
        state_wf(self@)
    }

    /// A fresh controller: every car idle at the ground floor, no pending
    /// calls.
    pub fn new(num_floors: usize, num_elevators: usize) -> (s: DispatchState)
        requires
            1 <= num_floors <= i32::MAX as usize,
        ensures
            s.wf(),
            s@.num_floors == num_floors,
            s@.cars.len() == num_elevators,
            forall|k: int| 0 <= k < num_elevators ==> #[trigger] s@.cars[k] == (Car {
                position: 0,
                stops: Seq::<FloorId>::empty(),
                direction: None,
            }),
            s@.pending.len() == 0,
    {
        let mut cars: Vec<ElevatorButtonsInfo> = Vec::new();
        let mut i: usize = 0;
        while i < num_elevators
            invariant
                i <= num_elevators,
                cars@.len() == i,
                forall|k: int| 0 <= k < i ==> #[trigger] cars@[k]@ == (Car {
                    position: 0,
                    stops: Seq::<FloorId>::empty(),
                    direction: None,
                }),
            decreases num_elevators - i,
        {
            cars.push(ElevatorButtonsInfo::default());
            proof {
                assert(cars@[i as int]@ =~= (Car {
                    position: 0,
                    stops: Seq::<FloorId>::empty(),
                    direction: None,
                }));
            }
            i = i + 1;
        }
        let s = DispatchState { num_floors, cars, pending: Vec::new() };
        proof {
            assert(forall|k: int| 0 <= k < s@.cars.len() ==> #[trigger] s@.cars[k]
                == s.cars@[k]@);
        }
        s
    }

    /// Handle one inbound building event and return the motion commands to
    /// emit, in order. An event naming a nonexistent car or floor is
    /// rejected with the matching fault and leaves the state untouched;
    /// every valid event performs the transition of `step_event`, the
    /// reconciliation pass included.
    pub fn handle_event(&mut self, event: BuildingEvent) -> (r: Result<
        Vec<BuildingCommand>,
        DispatchError,
    >)
        requires
            old(self).wf(),
        ensures
            final(self).wf(),
            r is Ok <==> event_valid(old(self)@, event),
            r matches Ok(cmds) ==> final(self)@ == step_event(old(self)@, event).0 && cmds@
                == step_event(old(self)@, event).1,
            r matches Err(fault) ==> fault == event_fault(old(self)@, event) && final(self)@
                == old(self)@,
            r matches Ok(cmds) ==> forall|x: int| 0 <= x < cmds@.len() ==> cmd_valid(
                #[trigger] cmds@[x],
                old(self)@.cars.len() as int,
                old(self)@.num_floors,
            ),
    {
        let ghost s0 = self@;
        let mut cmds0: Vec<BuildingCommand> = Vec::new();
        match event {
            BuildingEvent::CallButtonPressed(at, dir) => {
                if at >= self.num_floors {
                    proof {
                        assert(self@ =~= s0);
                    }
                    return Err(DispatchError::FloorOutOfRange);
                }
                if !pending_contains(&self.pending, at, dir) {
                    self.pending.push((at, dir));
                }
                proof {
                    assert(self@ =~= press_call_button(s0, at, dir));
                    assert(distinct_seq(self@.pending));
                }
            },
            BuildingEvent::FloorButtonPressed(car_id, destination) => {
                if car_id >= self.cars.len() {
                    proof {
                        assert(self@ =~= s0);
                    }
                    return Err(DispatchError::UnknownCar);
                }
                if destination >= self.num_floors {
                    proof {
                        assert(self@ =~= s0);
                    }
                    return Err(DispatchError::FloorOutOfRange);
                }
                let ghost c_old = s0.cars[car_id as int];
                proof {
                    lemma_add_stop(c_old, destination);
                    lemma_insert_sorted(c_old.stops, destination);
                }
                let car = crate::dispatch::car_at_mut(&mut self.cars, car_id);
                let next = car.accept_stop(destination);
                cmds0.push(BuildingCommand::GoToFloor(car_id, next));
                proof {
                    lemma_next_stop_in_stops(add_stop(c_old, destination));
                    assert(self@.cars =~= s0.cars.update(car_id as int, add_stop(c_old, destination)));
                    assert(self@ =~= (StateModel {
                        cars: s0.cars.update(car_id as int, add_stop(c_old, destination)),
                        ..s0
                    }));
                    let c2 = add_stop(c_old, destination);
                    assert(car_bounded(c2, s0.num_floors)) by {
                        assert forall|i: int| 0 <= i < c2.stops.len() implies #[trigger] c2.stops[i]
                            < s0.num_floors by {
                            assert(c2.stops.contains(c2.stops[i]));
                            if c_old.stops.contains(c2.stops[i]) {
                                let x = choose|x: int|
                                    0 <= x < c_old.stops.len() && c_old.stops[x] == c2.stops[i];
                            }
                        }
                    }
                    assert forall|k: int| 0 <= k < self@.cars.len() implies car_wf(
                        #[trigger] self@.cars[k],
                    ) && car_bounded(self@.cars[k], s0.num_floors) by {
                        if k != car_id as int {
                            assert(self@.cars[k] == s0.cars[k]);
                        }
                    }
                    assert(cmds0@[0] == BuildingCommand::GoToFloor(
                        car_id,
                        next_stop(c2).unwrap(),
                    ));
                    assert(c2.stops.contains(next_stop(c2).unwrap()));
                    assert(forall|x: int| 0 <= x < cmds0@.len() ==> cmd_valid(
                        #[trigger] cmds0@[x],
                        s0.cars.len() as int,
                        s0.num_floors,
                    ));
                }
            },
            BuildingEvent::AtFloor(car_id, floor) => {
                if car_id >= self.cars.len() {
                    proof {
                        assert(self@ =~= s0);
                    }
                    return Err(DispatchError::UnknownCar);
                }
                if floor >= self.num_floors {
                    proof {
                        assert(self@ =~= s0);
                    }
                    return Err(DispatchError::FloorOutOfRange);
                }
                let ghost c_old = s0.cars[car_id as int];
                proof {
                    lemma_arrive(c_old, floor);
                    lemma_remove_sorted(c_old.stops, floor);
                }
                let car = crate::dispatch::car_at_mut(&mut self.cars, car_id);
                let next = car.arrive_at(floor);
                match next {
                    Some(f) => {
                        cmds0.push(BuildingCommand::GoToFloor(car_id, f));
                    },
                    None => {},
                }
                proof {
                    lemma_next_stop_in_stops(arrive(c_old, floor));
                    assert(self@.cars =~= s0.cars.update(car_id as int, arrive(c_old, floor)));
                    assert(self@ =~= (StateModel {
                        cars: s0.cars.update(car_id as int, arrive(c_old, floor)),
                        ..s0
                    }));
                    let c2 = arrive(c_old, floor);
                    assert(car_bounded(c2, s0.num_floors)) by {
                        assert forall|i: int| 0 <= i < c2.stops.len() implies #[trigger] c2.stops[i]
                            < s0.num_floors by {
                            assert(c2.stops.contains(c2.stops[i]));
                            let x = choose|x: int|
                                0 <= x < c_old.stops.len() && c_old.stops[x] == c2.stops[i];
                        }
                    }
                    assert forall|k: int| 0 <= k < self@.cars.len() implies car_wf(
                        #[trigger] self@.cars[k],
                    ) && car_bounded(self@.cars[k], s0.num_floors) by {
                        if k != car_id as int {
                            assert(self@.cars[k] == s0.cars[k]);
                        }
                    }
                    if c2.stops.len() > 0 {
                        assert(c2.stops.contains(next_stop(c2).unwrap()));
                    }
                    assert(forall|x: int| 0 <= x < cmds0@.len() ==> cmd_valid(
                        #[trigger] cmds0@[x],
                        s0.cars.len() as int,
                        s0.num_floors,
                    ));
                }
            },
            BuildingEvent::PassengerDelivered(_) => {
                proof {
                    assert(self@ =~= s0);
                }
            },
        }
        let ghost s1 = self@;
        proof {
            assert(forall|k: int| 0 <= k < s1.cars.len() ==> car_wf(#[trigger] s1.cars[k])
                && car_bounded(s1.cars[k], s1.num_floors));
            assert(forall|j: int| 0 <= j < s1.pending.len() ==> (#[trigger] s1.pending[j]).0
                < s1.num_floors);
            lemma_reconcile_bounded(s1.cars, s1.pending, s1.num_floors, s1.pending.len() as int);
            lemma_remaining_props(
                s1.pending,
                reconcile(s1.cars, s1.pending).matched,
                s1.pending.len() as int,
            );
        }
        proof {
            assert forall|k: int| 0 <= k < self.cars@.len() implies car_wf(
                #[trigger] self.cars@[k]@,
            ) && self.cars@[k]@.position <= i32::MAX as usize by {
                assert(self.cars@[k]@ == s1.cars[k]);
            }
            assert forall|j: int| 0 <= j < self.pending@.len() implies (
            #[trigger] self.pending@[j]).0 <= i32::MAX as usize by {
                assert(self.pending@[j] == s1.pending[j]);
            }
        }
        let mut more = process_waiting_list(&mut self.cars, &mut self.pending);
        cmds0.append(&mut more);
        proof {
            let stepped = step_event(s0, event);
            assert(self@ =~= stepped.0);
            assert(cmds0@ =~= stepped.1);
            let rem = self@.pending;
            assert forall|j: int| 0 <= j < rem.len() implies (#[trigger] rem[j]).0
                < self@.num_floors by {
                assert(rem.contains(rem[j]));
                let x = choose|x: int|
                    0 <= x < s1.pending.len() && s1.pending[x] == rem[j] && !reconcile(
                        s1.cars,
                        s1.pending,
                    ).matched[x];
            }
        }
        Ok(cmds0)
    }
}

} // verus!
