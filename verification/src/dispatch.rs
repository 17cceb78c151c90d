//! Best-match selection for hall calls and the pending-call reconciliation
//! pass: the heart of the SCAN dispatch policy.

use vstd::prelude::*;
use crate::building::{BuildingCommand, Direction, ElevatorId, FloorId};
use crate::car::{add_stop, Car, car_bounded, car_wf, dist, idle, lemma_add_stop,
    lemma_insert_sorted, lemma_next_stop_in_stops, next_stop, trip, ElevatorButtonsInfo};

verus! {

/// The call's floor lies inside the car's current trip range.
pub open spec fn in_trip(c: Car, floor: FloorId) -> bool {
    trip(c) matches Some(t) && t.contains_spec(floor)
}

/// A car may serve a hall call exactly when it is idle, or when it is already
/// scanning in the call's direction and the call's floor lies within its
/// current trip.
pub open spec fn candidate(c: Car, floor: FloorId, dir: Direction) -> bool {
    idle(c) || (c.direction == Some(dir) && in_trip(c, floor))
}

/// The models of a vector of cars, index for index.
pub open spec fn views(cars: Seq<ElevatorButtonsInfo>) -> Seq<Car> {
    Seq::new(cars.len(), |i: int| cars[i]@)
}

/// Scan the cars from index `i` upward, keeping the best candidate seen so
/// far: least distance to `floor`, earliest index winning ties.
pub open spec fn select_from(
    floor: FloorId,
    dir: Direction,
    cars: Seq<Car>,
    i: int,
    best: Option<int>,
) -> Option<int>
    decreases cars.len() - i,
{
    if i < 0 || i >= cars.len() {
        best
    } else {
        let better = candidate(cars[i], floor, dir) && (match best {
            None => true,
            Some(b) => dist(cars[i], floor) < dist(cars[b], floor),
        });
        select_from(floor, dir, cars, i + 1, if better { Some(i) } else { best })
    }
}

/// The car chosen for a hall call: the nearest candidate, lowest id on ties;
/// nothing if no car qualifies.
pub open spec fn select_car(floor: FloorId, dir: Direction, cars: Seq<Car>) -> Option<int> {
    select_from(floor, dir, cars, 0, None)
}

/// What `select_from` returns is the nearest candidate over the whole bank,
/// lowest index on ties, given that `best` already has that shape over the
/// prefix scanned so far.
proof fn lemma_select_from(floor: FloorId, dir: Direction, cars: Seq<Car>, i: int, best: Option<int>)
    requires
        0 <= i <= cars.len(),
        match best {
            None => forall|k: int| 0 <= k < i ==> !candidate(#[trigger] cars[k], floor, dir),
            Some(b) => 0 <= b < i && candidate(cars[b], floor, dir) && forall|k: int|
                0 <= k < i && candidate(#[trigger] cars[k], floor, dir) ==> dist(cars[b], floor)
                    < dist(cars[k], floor) || (dist(cars[b], floor) == dist(cars[k], floor) && b
                    <= k),
        },
    ensures
        match select_from(floor, dir, cars, i, best) {
            None => forall|k: int| 0 <= k < cars.len() ==> !candidate(#[trigger] cars[k], floor, dir),
            Some(r) => 0 <= r < cars.len() && candidate(cars[r], floor, dir) && forall|k: int|
                0 <= k < cars.len() && candidate(#[trigger] cars[k], floor, dir) ==> dist(
                    cars[r],
                    floor,
                ) < dist(cars[k], floor) || (dist(cars[r], floor) == dist(cars[k], floor) && r
                    <= k),
        },
    decreases cars.len() - i,
{
    if i < cars.len() {
        let better = candidate(cars[i], floor, dir) && (match best {
            None => true,
            Some(b) => dist(cars[i], floor) < dist(cars[b], floor),
        });
        let b2 = if better { Some(i) } else { best };
        lemma_select_from(floor, dir, cars, i + 1, b2);
    }
}

/// `select_car` returns the nearest candidate, lowest id on ties, and
/// nothing exactly when no car is a candidate.
pub proof fn lemma_select_car(floor: FloorId, dir: Direction, cars: Seq<Car>)
    ensures
        match select_car(floor, dir, cars) {
            None => forall|k: int| 0 <= k < cars.len() ==> !candidate(#[trigger] cars[k], floor, dir),
            Some(r) => 0 <= r < cars.len() && candidate(cars[r], floor, dir) && forall|k: int|
                0 <= k < cars.len() && candidate(#[trigger] cars[k], floor, dir) ==> dist(
                    cars[r],
                    floor,
                ) < dist(cars[k], floor) || (dist(cars[r], floor) == dist(cars[k], floor) && r
                    <= k),
        },
{
    lemma_select_from(floor, dir, cars, 0, None);
}

/// An `Option` of a car index, widened to the mathematical model.
pub open spec fn opt_id(r: Option<ElevatorId>) -> Option<int> {
    match r {
        None => None,
        Some(i) => Some(i as int),
    }
}

/// Among all cars, pick the best match for a hall call at `floor` heading
/// `direction`: the nearest candidate car, the one with the lowest id on
/// ties; none if no car qualifies.
pub fn find_best_elevator_match(
    floor: FloorId,
    direction: Direction,
    should_visit_by_elevator: &Vec<ElevatorButtonsInfo>,
) -> (r: Option<ElevatorId>)
    requires
        forall|k: int| 0 <= k < should_visit_by_elevator@.len() ==> car_wf(
            #[trigger] should_visit_by_elevator@[k]@,
        ),
        forall|k: int| 0 <= k < should_visit_by_elevator@.len() ==> (
        #[trigger] should_visit_by_elevator@[k]@).position <= i32::MAX as usize,
        floor <= i32::MAX as usize,
    ensures
        opt_id(r) == select_car(floor, direction, views(should_visit_by_elevator@)),
        r matches Some(id) ==> id < should_visit_by_elevator@.len(),
{
    let ghost cars = views(should_visit_by_elevator@);
    let mut result: Option<ElevatorId> = None;
    let mut lowest_distance: i32 = 0;
    let mut id: usize = 0;
    while id < should_visit_by_elevator.len()
        invariant
            id <= cars.len(),
            cars == views(should_visit_by_elevator@),
            cars.len() == should_visit_by_elevator@.len(),
            forall|k: int| 0 <= k < should_visit_by_elevator@.len() ==> car_wf(
                #[trigger] should_visit_by_elevator@[k]@,
            ),
            forall|k: int| 0 <= k < should_visit_by_elevator@.len() ==> (
            #[trigger] should_visit_by_elevator@[k]@).position <= i32::MAX as usize,
            floor <= i32::MAX as usize,
            select_car(floor, direction, cars) == select_from(
                floor,
                direction,
                cars,
                id as int,
                opt_id(result),
            ),
            match result {
                None => true,
                Some(b) => b < id && lowest_distance as int == dist(cars[b as int], floor),
            },
        decreases cars.len() - id,
    {
        let ghost result0 = result;
        let elevator = &should_visit_by_elevator[id];
        proof {
            assert(cars[id as int] == elevator@);
        }
        let mut is_cand: bool = false;
        if elevator.is_idle() {
            is_cand = true;
        } else {
            match (elevator.current_trip(), elevator.direction) {
                (Some(t), Some(d)) => {
                    is_cand = t.contains(floor) && d == direction;
                },
                _ => {
                    proof {
                        assert(false);
                    }
                },
            }
        }
        proof {
            assert(is_cand == candidate(cars[id as int], floor, direction));
        }
        if is_cand {
            let d = elevator.distance_to(floor);
            let better = match result {
                None => true,
                Some(_) => d < lowest_distance,
            };
            if better {
                result = Some(id);
                lowest_distance = d;
            }
        }
        proof {
            let sbetter = candidate(cars[id as int], floor, direction) && (match opt_id(result0) {
                None => true,
                Some(b) => dist(cars[id as int], floor) < dist(cars[b], floor),
            });
            assert(select_from(floor, direction, cars, id as int, opt_id(result0))
                == select_from(
                floor,
                direction,
                cars,
                id as int + 1,
                if sbetter {
                    Some(id as int)
                } else {
                    opt_id(result0)
                },
            ));
            assert(opt_id(result) == (if sbetter {
                Some(id as int)
            } else {
                opt_id(result0)
            }));
        }
        id = id + 1;
    }
    result
}


/// Result of a reconciliation prefix: the cars after the processed calls, a
/// matched flag for each processed call, and the commands emitted so far.
#[verifier::ext_equal]
pub ghost struct Reconciled {
    pub cars: Seq<Car>,
    pub matched: Seq<bool>,
    pub cmds: Seq<BuildingCommand>,
}

/// One assignment attempt for the hall call `(floor, dir)`: the selected car
/// accepts the stop and a motion command toward its next stop is emitted —
/// unless the call is for the floor a moving car currently occupies, in which
/// case the call counts as matched but has no further effect.
pub open spec fn assign_call(cars: Seq<Car>, floor: FloorId, dir: Direction) -> (Seq<Car>, bool, Seq<
    BuildingCommand,
>) {
    match select_car(floor, dir, cars) {
        None => (cars, false, Seq::<BuildingCommand>::empty()),
        Some(id) => {
            let c = cars[id];
            if floor == c.position && !idle(c) {
                (cars, true, Seq::<BuildingCommand>::empty())
            } else {
                let c2 = add_stop(c, floor);
                (
                    cars.update(id, c2),
                    true,
                    seq![BuildingCommand::GoToFloor(id as ElevatorId, next_stop(c2).unwrap())],
                )
            }
        },
    }
}

/// The reconciliation pass run over the first `n` pending calls, in order;
/// each attempt sees the car states left by the previous one.
pub open spec fn reconcile_upto(cars: Seq<Car>, pending: Seq<(FloorId, Direction)>, n: int) -> Reconciled
    decreases n,
{
    if n <= 0 {
        Reconciled { cars, matched: Seq::<bool>::empty(), cmds: Seq::<BuildingCommand>::empty() }
    } else {
        let prev = reconcile_upto(cars, pending, n - 1);
        let step = assign_call(prev.cars, pending[n - 1].0, pending[n - 1].1);
        Reconciled { cars: step.0, matched: prev.matched.push(step.1), cmds: prev.cmds + step.2 }
    }
}

/// The full reconciliation pass over every pending call.
pub open spec fn reconcile(cars: Seq<Car>, pending: Seq<(FloorId, Direction)>) -> Reconciled {
    reconcile_upto(cars, pending, pending.len() as int)
}

/// The calls among the first `n` whose attempt found no car, in order.
pub open spec fn remaining_upto(
    pending: Seq<(FloorId, Direction)>,
    matched: Seq<bool>,
    n: int,
) -> Seq<(FloorId, Direction)>
    decreases n,
{
    if n <= 0 {
        Seq::<(FloorId, Direction)>::empty()
    } else {
        let prev = remaining_upto(pending, matched, n - 1);
        if matched[n - 1] {
            prev
        } else {
            prev.push(pending[n - 1])
        }
    }
}

/// The calls that stay pending after a reconciliation pass.
pub open spec fn remaining(pending: Seq<(FloorId, Direction)>, matched: Seq<bool>) -> Seq<(FloorId, Direction)> {
    remaining_upto(pending, matched, pending.len() as int)
}


pub(crate) fn car_at_mut(cars: &mut Vec<ElevatorButtonsInfo>, i: usize) -> (car: &mut ElevatorButtonsInfo)
    requires
        i < old(cars)@.len(),
    ensures
        *car == old(cars)@[i as int],
        final(cars)@ == old(cars)@.update(i as int, *final(car)),
{
    &mut cars[i]
}

/// Run the reconciliation pass: attempt every pending hall call in order,
/// mutate the matched cars, drop every matched call from the pending list,
/// and return the motion commands to emit, in order.
pub fn process_waiting_list(
    should_visit_by_elevator: &mut Vec<ElevatorButtonsInfo>,
    call_button_pressed_by_floor: &mut Vec<(FloorId, Direction)>,
) -> (cmds: Vec<BuildingCommand>)
    requires
        forall|k: int| 0 <= k < old(should_visit_by_elevator)@.len() ==> car_wf(
            #[trigger] old(should_visit_by_elevator)@[k]@,
        ),
        forall|k: int| 0 <= k < old(should_visit_by_elevator)@.len() ==> (
        #[trigger] old(should_visit_by_elevator)@[k]@).position <= i32::MAX as usize,
        forall|j: int| 0 <= j < old(call_button_pressed_by_floor)@.len() ==> (
        #[trigger] old(call_button_pressed_by_floor)@[j]).0 <= i32::MAX as usize,
    ensures
        views(final(should_visit_by_elevator)@) == reconcile(
            views(old(should_visit_by_elevator)@),
            old(call_button_pressed_by_floor)@,
        ).cars,
        cmds@ == reconcile(
            views(old(should_visit_by_elevator)@),
            old(call_button_pressed_by_floor)@,
        ).cmds,
        final(call_button_pressed_by_floor)@ == remaining(
            old(call_button_pressed_by_floor)@,
            reconcile(views(old(should_visit_by_elevator)@), old(call_button_pressed_by_floor)@).matched,
        ),
        final(should_visit_by_elevator)@.len() == old(should_visit_by_elevator)@.len(),
        forall|k: int| 0 <= k < final(should_visit_by_elevator)@.len() ==> car_wf(
            #[trigger] final(should_visit_by_elevator)@[k]@,
        ),
        forall|k: int| 0 <= k < final(should_visit_by_elevator)@.len() ==> (
        #[trigger] final(should_visit_by_elevator)@[k]@).position == old(
            should_visit_by_elevator,
        )@[k]@.position,
{
    let ghost cars0 = views(old(should_visit_by_elevator)@);
    let ghost pending0 = old(call_button_pressed_by_floor)@;
    let mut cmds: Vec<BuildingCommand> = Vec::new();
    let mut flags: Vec<bool> = Vec::new();
    let mut i: usize = 0;
    while i < call_button_pressed_by_floor.len()
        invariant
            i == flags@.len(),
            i <= pending0.len(),
            call_button_pressed_by_floor@ == pending0,
            should_visit_by_elevator@.len() == cars0.len(),
            views(should_visit_by_elevator@) == reconcile_upto(cars0, pending0, i as int).cars,
            flags@ == reconcile_upto(cars0, pending0, i as int).matched,
            cmds@ == reconcile_upto(cars0, pending0, i as int).cmds,
            forall|k: int| 0 <= k < should_visit_by_elevator@.len() ==> car_wf(
                #[trigger] should_visit_by_elevator@[k]@,
            ),
            forall|k: int| 0 <= k < should_visit_by_elevator@.len() ==> (
            #[trigger] should_visit_by_elevator@[k]@).position <= i32::MAX as usize,
            forall|k: int| 0 <= k < should_visit_by_elevator@.len() ==> (
            #[trigger] should_visit_by_elevator@[k]@).position == cars0[k].position,
            forall|j: int| 0 <= j < pending0.len() ==> (#[trigger] pending0[j]).0 <= i32::MAX
                as usize,
        decreases pending0.len() - i,
    {
        let ghost pre = views(should_visit_by_elevator@);
        let ghost r0 = reconcile_upto(cars0, pending0, i as int);
        let (floor, direction) = call_button_pressed_by_floor[i];
        let ghost step = assign_call(pre, floor, direction);
        let r = find_best_elevator_match(floor, direction, should_visit_by_elevator);
        match r {
            None => {
                flags.push(false);
                proof {
                    assert(step.2 =~= Seq::<BuildingCommand>::empty());
                    assert(r0.cmds + step.2 =~= r0.cmds);
                }
            },
            Some(id) => {
                flags.push(true);
                let hold: bool = {
                    let elevator = &should_visit_by_elevator[id];
                    floor == elevator.position && !elevator.is_idle()
                };
                proof {
                    assert(pre[id as int] == should_visit_by_elevator@[id as int]@);
                }
                if hold {
                    proof {
                        assert(step.0 == pre);
                        assert(step.2 =~= Seq::<BuildingCommand>::empty());
                        assert(r0.cmds + step.2 =~= r0.cmds);
                    }
                } else {
                    let ghost c_old = pre[id as int];
                    proof {
                        lemma_add_stop(c_old, floor);
                    }
                    let elevator = car_at_mut(should_visit_by_elevator, id);
                    let next = elevator.accept_stop(floor);
                    cmds.push(BuildingCommand::GoToFloor(id, next));
                    proof {
                        assert(views(should_visit_by_elevator@) =~= pre.update(
                            id as int,
                            add_stop(c_old, floor),
                        ));
                        assert(step.0 == pre.update(id as int, add_stop(c_old, floor)));
                        assert(next_stop(add_stop(c_old, floor)).unwrap() == next);
                        assert(cmds@ =~= r0.cmds + step.2);
                    }
                }
            },
        }
        proof {
            let r1 = reconcile_upto(cars0, pending0, i as int + 1);
            assert(r1.cars == step.0 && r1.matched == r0.matched.push(step.1) && r1.cmds == r0.cmds
                + step.2);
            assert(flags@ =~= r1.matched);
            assert(views(should_visit_by_elevator@) =~= r1.cars);
        }
        i = i + 1;
    }
    proof {
        assert(reconcile_upto(cars0, pending0, pending0.len() as int) == reconcile(cars0, pending0));
    }
    let mut unmatched: Vec<(FloorId, Direction)> = Vec::new();
    let mut j: usize = 0;
    while j < call_button_pressed_by_floor.len()
        invariant
            j <= pending0.len(),
            call_button_pressed_by_floor@ == pending0,
            flags@.len() == pending0.len(),
            flags@ == reconcile(cars0, pending0).matched,
            unmatched@ == remaining_upto(pending0, flags@, j as int),
        decreases pending0.len() - j,
    {
        if !flags[j] {
            unmatched.push(call_button_pressed_by_floor[j]);
        }
        j = j + 1;
    }
    *call_button_pressed_by_floor = unmatched;
    cmds
}


/// A command that refers only to existing cars and floors.
pub open spec fn cmd_valid(c: BuildingCommand, num_cars: int, num_floors: usize) -> bool {
    match c {
        BuildingCommand::GoToFloor(id, f) => id < num_cars && f < num_floors,
    }
}

/// No index of a sequence repeats an entry.
pub open spec fn distinct_seq<A>(s: Seq<A>) -> bool {
    forall|i: int, j: int| 0 <= i < j < s.len() ==> s[i] != s[j]
}

/// A reconciliation prefix keeps every car well formed and inside the
/// building, never moves a car, and emits only commands that name existing
/// cars and floors.
pub proof fn lemma_reconcile_bounded(
    cars: Seq<Car>,
    pending: Seq<(FloorId, Direction)>,
    num_floors: usize,
    n: int,
)
    requires
        forall|k: int| 0 <= k < cars.len() ==> car_wf(#[trigger] cars[k]),
        forall|k: int| 0 <= k < cars.len() ==> car_bounded(#[trigger] cars[k], num_floors),
        forall|j: int| 0 <= j < pending.len() ==> (#[trigger] pending[j]).0 < num_floors,
        0 <= n <= pending.len(),
    ensures
        reconcile_upto(cars, pending, n).cars.len() == cars.len(),
        reconcile_upto(cars, pending, n).matched.len() == n,
        forall|k: int| 0 <= k < cars.len() ==> car_wf(#[trigger] reconcile_upto(cars, pending, n).cars[k]),
        forall|k: int| 0 <= k < cars.len() ==> car_bounded(
            #[trigger] reconcile_upto(cars, pending, n).cars[k],
            num_floors,
        ),
        forall|k: int| 0 <= k < cars.len() ==> (#[trigger] reconcile_upto(cars, pending, n).cars[k]).position
            == cars[k].position,
        forall|x: int| 0 <= x < reconcile_upto(cars, pending, n).cmds.len() ==> cmd_valid(
            #[trigger] reconcile_upto(cars, pending, n).cmds[x],
            cars.len() as int,
            num_floors,
        ),
    decreases n,
{
    if n > 0 {
        lemma_reconcile_bounded(cars, pending, num_floors, n - 1);
        let prev = reconcile_upto(cars, pending, n - 1);
        let floor = pending[n - 1].0;
        let dir = pending[n - 1].1;
        let step = assign_call(prev.cars, floor, dir);
        let r1 = reconcile_upto(cars, pending, n);
        lemma_select_car(floor, dir, prev.cars);
        match select_car(floor, dir, prev.cars) {
            None => {
                assert(r1.cmds =~= prev.cmds);
            },
            Some(id) => {
                let c = prev.cars[id];
                if floor == c.position && !idle(c) {
                    assert(r1.cmds =~= prev.cmds);
                } else {
                    let c2 = add_stop(c, floor);
                    lemma_add_stop(c, floor);
                    lemma_insert_sorted(c.stops, floor);
                    assert(car_bounded(c2, num_floors)) by {
                        assert forall|i: int| 0 <= i < c2.stops.len() implies #[trigger] c2.stops[i]
                            < num_floors by {
                            assert(c2.stops.contains(c2.stops[i]));
                        }
                    }
                    let f2 = next_stop(c2).unwrap();
                    lemma_next_stop_in_stops(c2);
                    assert(c2.stops.contains(f2));
                    assert(f2 < num_floors) by {
                        let x = choose|x: int| 0 <= x < c2.stops.len() && c2.stops[x] == f2;
                    }
                    assert(forall|x: int| 0 <= x < prev.cmds.len() ==> #[trigger] r1.cmds[x]
                        == prev.cmds[x]);
                    assert(r1.cmds[r1.cmds.len() - 1] == BuildingCommand::GoToFloor(
                        id as ElevatorId,
                        f2,
                    ));
                }
            },
        }
    }
}


/// A reconciliation prefix keeps every car well formed.
pub proof fn lemma_reconcile_wf(cars: Seq<Car>, pending: Seq<(FloorId, Direction)>, n: int)
    requires
        forall|k: int| 0 <= k < cars.len() ==> car_wf(#[trigger] cars[k]),
        0 <= n <= pending.len(),
    ensures
        reconcile_upto(cars, pending, n).cars.len() == cars.len(),
        reconcile_upto(cars, pending, n).matched.len() == n,
        forall|k: int| 0 <= k < cars.len() ==> car_wf(#[trigger] reconcile_upto(cars, pending, n).cars[k]),
    decreases n,
{
    if n > 0 {
        lemma_reconcile_wf(cars, pending, n - 1);
        let prev = reconcile_upto(cars, pending, n - 1);
        let floor = pending[n - 1].0;
        let dir = pending[n - 1].1;
        lemma_select_car(floor, dir, prev.cars);
        match select_car(floor, dir, prev.cars) {
            None => {},
            Some(id) => {
                lemma_add_stop(prev.cars[id], floor);
            },
        }
    }
}

/// A reconciliation prefix carries one matched flag per processed call.
pub proof fn lemma_reconcile_matched_len(cars: Seq<Car>, pending: Seq<(FloorId, Direction)>, n: int)
    requires
        0 <= n <= pending.len(),
    ensures
        reconcile_upto(cars, pending, n).matched.len() == n,
    decreases n,
{
    if n > 0 {
        lemma_reconcile_matched_len(cars, pending, n - 1);
    }
}

/// The matched flag of call `j` records whether its own attempt, against the
/// cars as they stood just before it, found a car.
pub proof fn lemma_matched_prefix(cars: Seq<Car>, pending: Seq<(FloorId, Direction)>, j: int, n: int)
    requires
        0 <= j < n <= pending.len(),
    ensures
        reconcile_upto(cars, pending, n).matched[j] == (select_car(
            pending[j].0,
            pending[j].1,
            reconcile_upto(cars, pending, j).cars,
        ) is Some),
    decreases n,
{
    lemma_reconcile_matched_len(cars, pending, n - 1);
    if j == n - 1 {
        let prev = reconcile_upto(cars, pending, n - 1);
        let step = assign_call(prev.cars, pending[n - 1].0, pending[n - 1].1);
        match select_car(pending[n - 1].0, pending[n - 1].1, prev.cars) {
            None => {},
            Some(id) => {},
        }
        assert(reconcile_upto(cars, pending, n).matched[j] == step.1);
    } else {
        lemma_matched_prefix(cars, pending, j, n - 1);
    }
}

/// Every call left pending after a pass was pending before it, with its
/// attempt unmatched; distinct pending calls stay distinct.
pub proof fn lemma_remaining_props(pending: Seq<(FloorId, Direction)>, matched: Seq<bool>, n: int)
    requires
        0 <= n <= pending.len(),
        n <= matched.len(),
    ensures
        remaining_upto(pending, matched, n).len() <= n,
        forall|x: (FloorId, Direction)| #[trigger] remaining_upto(pending, matched, n).contains(x)
            ==> exists|j: int| 0 <= j < n && pending[j] == x && !matched[j],
        distinct_seq(pending) ==> distinct_seq(remaining_upto(pending, matched, n)),
    decreases n,
{
    if n > 0 {
        lemma_remaining_props(pending, matched, n - 1);
        let prev = remaining_upto(pending, matched, n - 1);
        let r = remaining_upto(pending, matched, n);
        if !matched[n - 1] {
            assert(r == prev.push(pending[n - 1]));
            assert forall|x: (FloorId, Direction)| #[trigger] r.contains(x) implies exists|j: int|
                0 <= j < n && pending[j] == x && !matched[j] by {
                let i = choose|i: int| 0 <= i < r.len() && r[i] == x;
                if i < prev.len() {
                    assert(prev[i] == x);
                    assert(prev.contains(x));
                } else {
                    assert(x == pending[n - 1]);
                }
            }
            if distinct_seq(pending) {
                assert(!prev.contains(pending[n - 1])) by {
                    if prev.contains(pending[n - 1]) {
                        let j = choose|j: int|
                            0 <= j < n - 1 && pending[j] == pending[n - 1] && !matched[j];
                    }
                }
                assert forall|i1: int, i2: int| 0 <= i1 < i2 < r.len() implies r[i1] != r[i2] by {
                    if i2 == r.len() - 1 {
                        assert(prev[i1] == r[i1]);
                        assert(prev.contains(r[i1]));
                    } else {
                        assert(r[i1] == prev[i1] && r[i2] == prev[i2]);
                    }
                }
            }
        } else {
            assert forall|x: (FloorId, Direction)| #[trigger] r.contains(x) implies exists|j: int|
                0 <= j < n && pending[j] == x && !matched[j] by {
                assert(prev.contains(x));
            }
        }
    }
}

} // verus!
