//! Laws of the dispatch policy proved once and for all: the SCAN sweep makes
//! strict progress toward its turning point, and the reconciliation pass is
//! idempotent — running it a second time with no event in between changes
//! nothing and emits nothing.

use vstd::prelude::*;
use crate::building::{BuildingCommand, Direction, FloorId};
use crate::car::{arrive, dist, Car, car_wf, idle, lemma_arrive, lemma_first_at_or_above,
    lemma_insert_sorted, lemma_last_at_or_below, lemma_remove_sorted, next_stop};
use crate::dispatch::{assign_call, candidate, lemma_matched_prefix,
    lemma_reconcile_matched_len, lemma_reconcile_wf, lemma_remaining_props, lemma_select_car,
    reconcile, reconcile_upto, remaining, remaining_upto, select_car};

verus! {

/// Progress of the SCAN sweep, upward: a car scanning up that arrives at its
/// next stop and keeps scanning up is left with a strictly higher next stop,
/// whenever it has one at all. Successive stops therefore strictly increase
/// until the car reverses or goes idle.
pub proof fn lemma_progress_up(c: Car, f: FloorId)
    requires
        car_wf(c),
        c.direction == Some(Direction::Up),
        next_stop(c) == Some(f),
        arrive(c, f).direction == Some(Direction::Up),
    ensures
        next_stop(arrive(c, f)) matches Some(f2) ==> f2 > f,
{
    lemma_arrive(c, f);
    lemma_remove_sorted(c.stops, f);
    let c2 = arrive(c, f);
    lemma_first_at_or_above(c2.stops, c2.position);
    match next_stop(c2) {
        Some(f2) => {
            assert(c2.stops.contains(f2));
            assert(f2 != f);
        },
        None => {},
    }
}

/// Progress of the SCAN sweep, downward: the mirror image of
/// `lemma_progress_up`.
pub proof fn lemma_progress_down(c: Car, f: FloorId)
    requires
        car_wf(c),
        c.direction == Some(Direction::Down),
        next_stop(c) == Some(f),
        arrive(c, f).direction == Some(Direction::Down),
    ensures
        next_stop(arrive(c, f)) matches Some(f2) ==> f2 < f,
{
    lemma_arrive(c, f);
    lemma_remove_sorted(c.stops, f);
    let c2 = arrive(c, f);
    lemma_last_at_or_below(c2.stops, c2.position);
    match next_stop(c2) {
        Some(f2) => {
            assert(c2.stops.contains(f2));
            assert(f2 != f);
        },
        None => {},
    }
}

/// Two car states the matcher cannot tell apart: same position, same
/// direction, same idleness, and the same scan range toward the turning
/// point.
pub open spec fn same_profile(c1: Car, c2: Car) -> bool {
    &&& c2.position == c1.position
    &&& c2.direction == c1.direction
    &&& (c1.stops.len() == 0 <==> c2.stops.len() == 0)
    &&& (c1.stops.len() > 0 && c1.direction == Some(Direction::Up) ==> c2.stops.len() > 0
        && c2.stops.last() == c1.stops.last())
    &&& (c1.stops.len() > 0 && c1.direction == Some(Direction::Down) ==> c2.stops.len() > 0
        && c2.stops[0] == c1.stops[0])
}

/// Cars with the same profile are candidates for exactly the same calls, at
/// the same distance.
proof fn lemma_same_profile_candidate(c1: Car, c2: Car, floor: FloorId, dir: Direction)
    requires
        same_profile(c1, c2),
    ensures
        candidate(c2, floor, dir) == candidate(c1, floor, dir),
        dist(c2, floor) == dist(c1, floor),
{
}

/// The matcher profile relation composes.
proof fn lemma_same_profile_trans(c1: Car, c2: Car, c3: Car)
    requires
        same_profile(c1, c2),
        same_profile(c2, c3),
    ensures
        same_profile(c1, c3),
{
}

/// When no car is idle, one assignment attempt leaves every car with its
/// profile intact, well formed, and still busy.
proof fn lemma_assign_preserves_profiles(cars: Seq<Car>, floor: FloorId, dir: Direction)
    requires
        forall|k: int| 0 <= k < cars.len() ==> car_wf(#[trigger] cars[k]),
        forall|k: int| 0 <= k < cars.len() ==> !idle(#[trigger] cars[k]),
    ensures
        assign_call(cars, floor, dir).0.len() == cars.len(),
        forall|k: int| 0 <= k < cars.len() ==> car_wf(#[trigger] assign_call(cars, floor, dir).0[k]),
        forall|k: int| 0 <= k < cars.len() ==> same_profile(
            cars[k],
            #[trigger] assign_call(cars, floor, dir).0[k],
        ),
        forall|k: int| 0 <= k < cars.len() ==> !idle(#[trigger] assign_call(cars, floor, dir).0[k]),
{
    lemma_select_car(floor, dir, cars);
    match select_car(floor, dir, cars) {
        None => {},
        Some(id) => {
            let c = cars[id];
            assert(candidate(c, floor, dir));
            assert(!idle(c));
            assert(c.direction == Some(dir));
            if floor == c.position {
            } else {
                lemma_insert_sorted(c.stops, floor);
                let s1 = crate::car::insert_sorted(c.stops, floor);
                let c1 = Car { stops: s1, ..c };
                match dir {
                    Direction::Up => {
                        assert(c.position <= floor <= c.stops.last());
                        assert(s1.last() == c.stops.last());
                        lemma_first_at_or_above(s1, c.position);
                        if next_stop(c1) is None {
                            assert(s1.contains(floor));
                            let x = choose|x: int| 0 <= x < s1.len() && s1[x] == floor;
                            assert(s1[x] < c.position);
                            assert(false);
                        }
                    },
                    Direction::Down => {
                        assert(c.stops[0] <= floor <= c.position);
                        assert(s1[0] == c.stops[0]);
                        lemma_last_at_or_below(s1, c.position);
                        if next_stop(c1) is None {
                            assert(s1.contains(floor));
                            let x = choose|x: int| 0 <= x < s1.len() && s1[x] == floor;
                            assert(s1[x] > c.position);
                            assert(false);
                        }
                    },
                }
                assert(crate::car::add_stop(c, floor) == c1);
                assert(same_profile(c, c1));
                crate::car::lemma_add_stop(c, floor);
            }
        },
    }
}

/// From any point of the pass at which no car is idle, the rest of the pass
/// keeps every car's matcher profile, well-formedness, and busyness.
proof fn lemma_pass_preserves_profiles(
    cars: Seq<Car>,
    pending: Seq<(FloorId, Direction)>,
    k1: int,
    k2: int,
)
    requires
        forall|k: int| 0 <= k < cars.len() ==> car_wf(#[trigger] cars[k]),
        0 <= k1 <= k2 <= pending.len(),
        forall|k: int| 0 <= k < cars.len() ==> !idle(
            #[trigger] reconcile_upto(cars, pending, k1).cars[k],
        ),
    ensures
        reconcile_upto(cars, pending, k2).cars.len() == cars.len(),
        forall|k: int| 0 <= k < cars.len() ==> same_profile(
            reconcile_upto(cars, pending, k1).cars[k],
            #[trigger] reconcile_upto(cars, pending, k2).cars[k],
        ),
        forall|k: int| 0 <= k < cars.len() ==> !idle(
            #[trigger] reconcile_upto(cars, pending, k2).cars[k],
        ),
    decreases k2 - k1,
{
    lemma_reconcile_wf(cars, pending, k1);
    let a = reconcile_upto(cars, pending, k1).cars;
    if k1 == k2 {
    } else {
        let b = reconcile_upto(cars, pending, k1 + 1).cars;
        assert(b == assign_call(a, pending[k1].0, pending[k1].1).0);
        lemma_assign_preserves_profiles(a, pending[k1].0, pending[k1].1);
        lemma_pass_preserves_profiles(cars, pending, k1 + 1, k2);
        let c = reconcile_upto(cars, pending, k2).cars;
        assert forall|k: int| 0 <= k < cars.len() implies same_profile(a[k], #[trigger] c[k]) by {
            lemma_same_profile_trans(a[k], b[k], c[k]);
        }
    }
}

/// A call whose own attempt found no car finds none against the cars as they
/// stand at the end of the pass either.
proof fn lemma_unmatched_still_unmatched(
    cars: Seq<Car>,
    pending: Seq<(FloorId, Direction)>,
    j: int,
)
    requires
        forall|k: int| 0 <= k < cars.len() ==> car_wf(#[trigger] cars[k]),
        0 <= j < pending.len(),
        select_car(pending[j].0, pending[j].1, reconcile_upto(cars, pending, j).cars) is None,
    ensures
        select_car(pending[j].0, pending[j].1, reconcile(cars, pending).cars) is None,
{
    let floor = pending[j].0;
    let dir = pending[j].1;
    let cj = reconcile_upto(cars, pending, j).cars;
    lemma_reconcile_wf(cars, pending, j);
    lemma_select_car(floor, dir, cj);
    assert(forall|k: int| 0 <= k < cj.len() ==> !candidate(#[trigger] cj[k], floor, dir));
    assert forall|k: int| 0 <= k < cars.len() implies !idle(#[trigger] cj[k]) by {
        if idle(cj[k]) {
            assert(candidate(cj[k], floor, dir));
        }
    }
    lemma_pass_preserves_profiles(cars, pending, j, pending.len() as int);
    let cn = reconcile(cars, pending).cars;
    assert forall|k: int| 0 <= k < cn.len() implies !candidate(#[trigger] cn[k], floor, dir) by {
        lemma_same_profile_candidate(cj[k], cn[k], floor, dir);
    }
    lemma_select_car(floor, dir, cn);
    if select_car(floor, dir, cn) is Some {
        let r = select_car(floor, dir, cn).unwrap();
        assert(candidate(cn[r], floor, dir));
        assert(false);
    }
}

/// A pass over calls none of which can be matched does nothing at all.
proof fn lemma_pass_of_unmatchable(cars: Seq<Car>, pending: Seq<(FloorId, Direction)>, n: int)
    requires
        forall|j: int| 0 <= j < pending.len() ==> select_car(
            (#[trigger] pending[j]).0,
            pending[j].1,
            cars,
        ) is None,
        0 <= n <= pending.len(),
    ensures
        reconcile_upto(cars, pending, n).cars == cars,
        reconcile_upto(cars, pending, n).cmds == Seq::<BuildingCommand>::empty(),
        forall|i: int| 0 <= i < n ==> !(#[trigger] reconcile_upto(cars, pending, n).matched[i]),
    decreases n,
{
    if n > 0 {
        lemma_pass_of_unmatchable(cars, pending, n - 1);
        lemma_reconcile_matched_len(cars, pending, n - 1);
        let prev = reconcile_upto(cars, pending, n - 1);
        assert(prev.cars == cars);
        assert(reconcile_upto(cars, pending, n).cmds =~= Seq::<BuildingCommand>::empty());
    }
}

/// When no flag is set, every call stays pending, in order.
proof fn lemma_remaining_all_false(pending: Seq<(FloorId, Direction)>, matched: Seq<bool>, n: int)
    requires
        0 <= n <= pending.len(),
        n <= matched.len(),
        forall|i: int| 0 <= i < n ==> !(#[trigger] matched[i]),
    ensures
        remaining_upto(pending, matched, n) == pending.take(n),
    decreases n,
{
    if n > 0 {
        lemma_remaining_all_false(pending, matched, n - 1);
        assert(remaining_upto(pending, matched, n) =~= pending.take(n)) by {
            assert(remaining_upto(pending, matched, n) == remaining_upto(
                pending,
                matched,
                n - 1,
            ).push(pending[n - 1]));
        }
    }
}

/// Idempotence of reconciliation: running the pass a second time, with no
/// event in between, moves no car, matches no call, keeps every pending call
/// pending, and emits no command.
pub proof fn lemma_reconcile_idempotent(cars: Seq<Car>, pending: Seq<(FloorId, Direction)>)
    requires
        forall|k: int| 0 <= k < cars.len() ==> car_wf(#[trigger] cars[k]),
    ensures
        ({
            let r1 = reconcile(cars, pending);
            let p1 = remaining(pending, r1.matched);
            let r2 = reconcile(r1.cars, p1);
            &&& r2.cars == r1.cars
            &&& r2.cmds == Seq::<BuildingCommand>::empty()
            &&& remaining(p1, r2.matched) == p1
        }),
{
    let n = pending.len() as int;
    let r1 = reconcile(cars, pending);
    let p1 = remaining(pending, r1.matched);
    lemma_reconcile_wf(cars, pending, n);
    lemma_remaining_props(pending, r1.matched, n);
    assert forall|idx: int| 0 <= idx < p1.len() implies select_car(
        (#[trigger] p1[idx]).0,
        p1[idx].1,
        r1.cars,
    ) is None by {
        assert(p1.contains(p1[idx]));
        let j = choose|j: int| 0 <= j < n && pending[j] == p1[idx] && !r1.matched[j];
        lemma_matched_prefix(cars, pending, j, n);
        lemma_unmatched_still_unmatched(cars, pending, j);
    }
    lemma_pass_of_unmatchable(r1.cars, p1, p1.len() as int);
    let r2 = reconcile(r1.cars, p1);
    lemma_reconcile_matched_len(r1.cars, p1, p1.len() as int);
    lemma_remaining_all_false(p1, r2.matched, p1.len() as int);
    assert(p1.take(p1.len() as int) =~= p1);
}

} // verus!
