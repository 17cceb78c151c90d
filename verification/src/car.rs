//! Per-car dispatch state and the pure queries of the SCAN policy: idleness,
//! the current trip range, the next stop in the scanning direction, distance
//! to a floor, and direction reversal.

use vstd::prelude::*;
use crate::building::{Direction, FloorId};

verus! {

/// Mathematical model of one car: its last known position, the strictly
/// increasing sequence of floors it must still visit, and its scanning
/// direction (`None` exactly when it has nothing to visit).
#[verifier::ext_equal]
pub ghost struct Car {
    pub position: FloorId,
    pub stops: Seq<FloorId>,
    pub direction: Option<Direction>,
}

/// A strictly increasing sequence: a sorted set of floors.
pub open spec fn sorted(s: Seq<FloorId>) -> bool {
    forall|i: int, j: int| 0 <= i < j < s.len() ==> s[i] < s[j]
}

/// A car with no stops left is idle.
pub open spec fn idle(c: Car) -> bool {
    c.stops.len() == 0
}

/// Structural well-formedness of a car: stops are sorted and duplicate-free,
/// and the car is directionless exactly when it is idle.
pub open spec fn car_wf(c: Car) -> bool {
    &&& sorted(c.stops)
    &&& (c.direction is None <==> c.stops.len() == 0)
}

/// Every floor the car knows lies in `[0, num_floors)`.
pub open spec fn car_bounded(c: Car, num_floors: usize) -> bool {
    &&& c.position < num_floors
    &&& forall|i: int| 0 <= i < c.stops.len() ==> c.stops[i] < num_floors
}

/// The first (hence smallest, if sorted) entry of `s` that is at least `p`.
pub open spec fn first_at_or_above(s: Seq<FloorId>, p: FloorId) -> Option<FloorId>
    decreases s.len(),
{
    if s.len() == 0 {
        None
    } else if s[0] >= p {
        Some(s[0])
    } else {
        first_at_or_above(s.drop_first(), p)
    }
}

/// The last (hence largest, if sorted) entry of `s` that is at most `p`.
pub open spec fn last_at_or_below(s: Seq<FloorId>, p: FloorId) -> Option<FloorId>
    decreases s.len(),
{
    if s.len() == 0 {
        None
    } else if s.last() <= p {
        Some(s.last())
    } else {
        last_at_or_below(s.drop_last(), p)
    }
}

/// The next floor a car visits while keeping its current direction: the
/// nearest stop at or beyond its position, in that direction.
pub open spec fn next_stop(c: Car) -> Option<FloorId> {
    match c.direction {
        None => None,
        Some(Direction::Up) => first_at_or_above(c.stops, c.position),
        Some(Direction::Down) => last_at_or_below(c.stops, c.position),
    }
}

/// The car after a direction reversal: a scanning car flips; a directionless
/// car derives a fresh direction by comparing its position to its smallest
/// stop.
pub open spec fn swap_dir(c: Car) -> Car {
    Car {
        direction: match c.direction {
            Some(d) => Some(d.flip_spec()),
            None => if c.position < c.stops[0] {
                Some(Direction::Up)
            } else {
                Some(Direction::Down)
            },
        },
        ..c
    }
}

/// An inclusive floor interval `[low, high]`.
#[derive(Clone, Copy, PartialEq, Eq, Structural, Debug)]
pub struct FloorRange {
    pub low: FloorId,
    pub high: FloorId,
}

impl FloorRange {
    /// Membership in the inclusive interval.
    pub open spec fn contains_spec(self, floor: FloorId) -> bool {
        self.low <= floor <= self.high
    }

    /// Membership in the inclusive interval.
    pub fn contains(&self, floor: FloorId) -> (r: bool)
        ensures
            r == self.contains_spec(floor),
    {
        self.low <= floor && floor <= self.high
    }
}

/// The floor range a car traverses before its next reversal: up to its
/// largest stop when scanning up, down to its smallest stop when scanning
/// down; nothing when idle.
pub open spec fn trip(c: Car) -> Option<FloorRange> {
    if c.stops.len() == 0 {
        None
    } else {
        match c.direction {
            None => None,
            Some(Direction::Up) => Some(FloorRange { low: c.position, high: c.stops.last() }),
            Some(Direction::Down) => Some(FloorRange { low: c.stops[0], high: c.position }),
        }
    }
}

/// Whatever `first_at_or_above` returns is the least entry at or above `p`;
/// when it returns nothing, every entry lies below `p`.
pub proof fn lemma_first_at_or_above(s: Seq<FloorId>, p: FloorId)
    requires
        sorted(s),
    ensures
        match first_at_or_above(s, p) {
            Some(f) => s.contains(f) && f >= p && forall|i: int|
                0 <= i < s.len() && s[i] >= p ==> f <= #[trigger] s[i],
            None => forall|i: int| 0 <= i < s.len() ==> #[trigger] s[i] < p,
        },
    decreases s.len(),
{
    if s.len() == 0 {
    } else if s[0] >= p {
        assert(s.contains(s[0])) by {
            assert(s[0] == s[0]);
        }
        assert(forall|i: int| 0 <= i < s.len() ==> s[0] <= #[trigger] s[i]);
    } else {
        let t = s.drop_first();
        assert(sorted(t)) by {
            assert(forall|i: int, j: int|
                0 <= i < j < t.len() ==> #[trigger] t[i] == s[i + 1] && #[trigger] t[j] == s[j + 1]);
        }
        lemma_first_at_or_above(t, p);
        match first_at_or_above(t, p) {
            Some(f) => {
                let k = choose|k: int| 0 <= k < t.len() && t[k] == f;
                assert(s[k + 1] == f);
                assert(s.contains(f));
                assert(forall|i: int| 1 <= i < s.len() ==> #[trigger] s[i] == t[i - 1]);
            },
            None => {
                assert(forall|i: int| 1 <= i < s.len() ==> #[trigger] s[i] == t[i - 1]);
            },
        }
    }
}

/// Whatever `last_at_or_below` returns is the greatest entry at or below `p`;
/// when it returns nothing, every entry lies above `p`.
pub proof fn lemma_last_at_or_below(s: Seq<FloorId>, p: FloorId)
    requires
        sorted(s),
    ensures
        match last_at_or_below(s, p) {
            Some(f) => s.contains(f) && f <= p && forall|i: int|
                0 <= i < s.len() && s[i] <= p ==> f >= #[trigger] s[i],
            None => forall|i: int| 0 <= i < s.len() ==> #[trigger] s[i] > p,
        },
    decreases s.len(),
{
    if s.len() == 0 {
    } else if s.last() <= p {
        assert(s.contains(s.last()));
        assert(forall|i: int| 0 <= i < s.len() ==> #[trigger] s[i] <= s.last());
    } else {
        let t = s.drop_last();
        assert(sorted(t));
        lemma_last_at_or_below(t, p);
        assert(forall|i: int| 0 <= i < s.len() - 1 ==> #[trigger] s[i] == t[i]);
        match last_at_or_below(t, p) {
            Some(f) => {
                let k = choose|k: int| 0 <= k < t.len() && t[k] == f;
                assert(s[k] == f);
                assert(s.contains(f));
            },
            None => {},
        }
    }
}

/// The next stop, when there is one, is one of the car's stops.
pub proof fn lemma_next_stop_in_stops(c: Car)
    requires
        sorted(c.stops),
    ensures
        next_stop(c) matches Some(f) ==> c.stops.contains(f),
{
    match c.direction {
        None => {},
        Some(Direction::Up) => {
            lemma_first_at_or_above(c.stops, c.position);
        },
        Some(Direction::Down) => {
            lemma_last_at_or_below(c.stops, c.position);
        },
    }
}

/// Distance from a car's position to a floor, as a mathematical integer.
pub open spec fn dist(c: Car, floor: FloorId) -> int {
    if c.position >= floor {
        c.position - floor
    } else {
        floor - c.position
    }
}

/// Per-car dispatch bookkeeping owned by the controller: the car's position,
/// the sorted vector of floors it must still visit, and its scanning
/// direction.
#[derive(Debug)]
pub struct ElevatorButtonsInfo {
    pub position: FloorId,
    pub should_visit: Vec<FloorId>,
    pub direction: Option<Direction>,
}

impl View for ElevatorButtonsInfo {
    type V = Car;

    open spec fn view(&self) -> Car {
        Car { position: self.position, stops: self.should_visit@, direction: self.direction }
    }
}

impl Default for ElevatorButtonsInfo {
    /// An idle car at the ground floor.
    fn default() -> (c: ElevatorButtonsInfo)
        ensures
            c.position == 0,
            c.should_visit@ == Seq::<FloorId>::empty(),
            c.direction is None,
    {
        ElevatorButtonsInfo { position: 0, should_visit: Vec::new(), direction: None }
    }
}

impl ElevatorButtonsInfo {
    /// True exactly when the car has no stops left.
    pub fn is_idle(&self) -> (r: bool)
        ensures
            r == idle(self@),
    {
        self.should_visit.len() == 0
    }

    /// The floor range the car traverses before reversing, or nothing when it
    /// is idle.
    pub fn current_trip(&self) -> (r: Option<FloorRange>)
        ensures
            r == trip(self@),
    {
        match self.direction {
            None => None,
            Some(d) => {
                if self.should_visit.len() == 0 {
                    None
                } else {
                    let first = self.should_visit[0];
                    let last = self.should_visit[self.should_visit.len() - 1];
                    match d {
                        Direction::Up => Some(FloorRange { low: self.position, high: last }),
                        Direction::Down => Some(FloorRange { low: first, high: self.position }),
                    }
                }
            },
        }
    }

    /// The next floor to visit consistent with the current direction: the
    /// smallest stop at or above the position when scanning up, the largest
    /// stop at or below it when scanning down.
    pub fn next_step(&self) -> (r: Option<FloorId>)
        requires
            sorted(self@.stops),
        ensures
            r == next_stop(self@),
    {
        let s = &self.should_visit;
        match self.direction {
            None => None,
            Some(Direction::Up) => {
                let mut i: usize = 0;
                proof {
                    assert(s@.skip(0) =~= s@);
                }
                while i < s.len()
                    invariant
                        i <= s@.len(),
                        self.direction == Some(Direction::Up),
                        first_at_or_above(self@.stops, self@.position)
                            == first_at_or_above(s@.skip(i as int), self@.position),
                    decreases s@.len() - i,
                {
                    if s[i] >= self.position {
                        proof {
                            assert(s@.skip(i as int)[0] == s@[i as int]);
                            assert(s@.skip(i as int).len() > 0);
                            assert(first_at_or_above(s@.skip(i as int), self@.position)
                                == Some(s@[i as int]));
                            assert(self.direction == Some(Direction::Up));
                            assert(next_stop(self@)
                                == first_at_or_above(self@.stops, self@.position));
                        }
                        return Some(s[i]);
                    }
                    proof {
                        assert(s@.skip(i as int).drop_first() =~= s@.skip(i as int + 1));
                        assert(s@.skip(i as int)[0] == s@[i as int]);
                    }
                    i = i + 1;
                }
                proof {
                    assert(s@.skip(i as int).len() == 0);
                }
                None
            },
            Some(Direction::Down) => {
                let mut i: usize = s.len();
                proof {
                    assert(s@.take(s@.len() as int) =~= s@);
                }
                while i > 0
                    invariant
                        i <= s@.len(),
                        self.direction == Some(Direction::Down),
                        last_at_or_below(self@.stops, self@.position)
                            == last_at_or_below(s@.take(i as int), self@.position),
                    decreases i,
                {
                    if s[i - 1] <= self.position {
                        proof {
                            assert(s@.take(i as int).last() == s@[i as int - 1]);
                            assert(s@.take(i as int).len() > 0);
                            assert(last_at_or_below(s@.take(i as int), self@.position)
                                == Some(s@[i as int - 1]));
                            assert(self.direction == Some(Direction::Down));
                            assert(next_stop(self@)
                                == last_at_or_below(self@.stops, self@.position));
                        }
                        return Some(s[i - 1]);
                    }
                    proof {
                        assert(s@.take(i as int).last() == s@[i as int - 1]);
                        assert(s@.take(i as int).drop_last() =~= s@.take(i as int - 1));
                    }
                    i = i - 1;
                }
                proof {
                    assert(s@.take(0).len() == 0);
                }
                None
            },
        }
    }

    /// The absolute distance from the car's position to `floor`.
    pub fn distance_to(&self, floor: FloorId) -> (d: i32)
        requires
            self.position <= i32::MAX as usize,
            floor <= i32::MAX as usize,
        ensures
            d as int == dist(self@, floor),
    {
        let diff: usize = if self.position >= floor {
            self.position - floor
        } else {
            floor - self.position
        };
        diff as i32
    }

    /// Accept a stop (a cabin call, or a hall call assigned to this car):
    /// insert the floor and, if no stop now lies ahead, reverse direction.
    /// Returns the next floor the car heads for, which always exists.
    pub fn accept_stop(&mut self, floor: FloorId) -> (next: FloorId)
        requires
            car_wf(old(self)@),
        ensures
            final(self)@ == add_stop(old(self)@, floor),
            next_stop(add_stop(old(self)@, floor)) == Some(next),
    {
        proof {
            lemma_add_stop(self@, floor);
        }
        vec_insert_sorted(&mut self.should_visit, floor);
        let n1 = self.next_step();
        if n1.is_none() {
            self.swap_direction();
        }
        proof {
            assert(self@ =~= add_stop(old(self)@, floor));
        }
        let n2 = self.next_step();
        match n2 {
            Some(x) => x,
            None => {
                proof {
                    assert(false);
                }
                0
            },
        }
    }

    /// Record arrival at a floor: clear the stop, move the car, reverse if
    /// stops remain but none lies ahead, go idle if none remain. Returns the
    /// next floor to head for, if any.
    pub fn arrive_at(&mut self, floor: FloorId) -> (next: Option<FloorId>)
        requires
            car_wf(old(self)@),
        ensures
            final(self)@ == arrive(old(self)@, floor),
            next == next_stop(arrive(old(self)@, floor)),
            (next is Some <==> arrive(old(self)@, floor).stops.len() > 0),
    {
        proof {
            lemma_arrive(self@, floor);
        }
        vec_remove_sorted(&mut self.should_visit, floor);
        self.position = floor;
        let n1 = self.next_step();
        if n1.is_none() && !self.is_idle() {
            self.swap_direction();
        }
        if !self.is_idle() {
            proof {
                assert(self@ =~= arrive(old(self)@, floor));
            }
            self.next_step()
        } else {
            self.direction = None;
            proof {
                assert(self@ =~= arrive(old(self)@, floor));
            }
            None
        }
    }

    /// Reverse the scanning direction; a directionless car derives a fresh
    /// direction by comparing its position to its smallest stop.
    pub fn swap_direction(&mut self)
        requires
            old(self).should_visit@.len() > 0,
        ensures
            final(self)@ == swap_dir(old(self)@),
    {
        self.direction = match self.direction {
            Some(d) => Some(d.flip()),
            None => {
                let first = self.should_visit[0];
                if self.position < first {
                    Some(Direction::Up)
                } else {
                    Some(Direction::Down)
                }
            },
        };
        proof {
            assert(self@ =~= swap_dir(old(self)@));
        }
    }
}


/// `s` with `f` inserted at its sorted position; unchanged if `f` is already
/// present.
pub open spec fn insert_sorted(s: Seq<FloorId>, f: FloorId) -> Seq<FloorId>
    decreases s.len(),
{
    if s.len() == 0 {
        seq![f]
    } else if f < s[0] {
        seq![f] + s
    } else if f == s[0] {
        s
    } else {
        seq![s[0]] + insert_sorted(s.drop_first(), f)
    }
}

/// `s` with `f` removed; unchanged if `f` is absent.
pub open spec fn remove_sorted(s: Seq<FloorId>, f: FloorId) -> Seq<FloorId>
    decreases s.len(),
{
    if s.len() == 0 {
        s
    } else if s[0] == f {
        s.drop_first()
    } else {
        seq![s[0]] + remove_sorted(s.drop_first(), f)
    }
}

/// Dropping the first entry of a sorted sequence keeps it sorted, and keeps
/// every entry above the dropped one.
proof fn lemma_sorted_drop_first(s: Seq<FloorId>)
    requires
        sorted(s),
        s.len() > 0,
    ensures
        sorted(s.drop_first()),
        forall|i: int| 0 <= i < s.drop_first().len() ==> #[trigger] s.drop_first()[i] == s[i + 1],
        forall|i: int| 0 <= i < s.drop_first().len() ==> #[trigger] s.drop_first()[i] > s[0],
{
    let t = s.drop_first();
    assert(forall|i: int| 0 <= i < t.len() ==> #[trigger] t[i] == s[i + 1]);
}

/// Inserting keeps the sequence sorted; the result holds exactly the old
/// entries plus `f`, and its end points move only toward `f`.
pub proof fn lemma_insert_sorted(s: Seq<FloorId>, f: FloorId)
    requires
        sorted(s),
    ensures
        sorted(insert_sorted(s, f)),
        insert_sorted(s, f).len() > 0,
        insert_sorted(s, f).len() == (if s.contains(f) { s.len() as int } else { s.len() + 1int }),
        insert_sorted(s, f).contains(f),
        forall|x: FloorId| #[trigger] insert_sorted(s, f).contains(x) ==> s.contains(x) || x == f,
        forall|x: FloorId| s.contains(x) ==> #[trigger] insert_sorted(s, f).contains(x),
        insert_sorted(s, f)[0] == (if s.len() == 0 || f < s[0] { f } else { s[0] }),
        insert_sorted(s, f).last() == (if s.len() == 0 || f > s.last() { f } else { s.last() }),
    decreases s.len(),
{
    let r = insert_sorted(s, f);
    if s.len() == 0 {
        assert(r =~= seq![f]);
        assert(r[0] == f);
        assert forall|x: FloorId| #[trigger] r.contains(x) implies s.contains(x) || x == f by {
            let i = choose|i: int| 0 <= i < r.len() && r[i] == x;
        }
    } else if f < s[0] {
        assert(r =~= seq![f] + s);
        assert(!s.contains(f)) by {
            if s.contains(f) {
                let i = choose|i: int| 0 <= i < s.len() && s[i] == f;
                assert(i > 0 ==> s[0] < s[i]);
            }
        }
        assert(forall|i: int| 0 <= i < s.len() ==> #[trigger] r[i + 1] == s[i]);
        assert(sorted(r)) by {
            assert forall|i: int, j: int| 0 <= i < j < r.len() implies r[i] < r[j] by {
                if i > 0 {
                    assert(r[i] == s[i - 1] && r[j] == s[j - 1]);
                } else {
                    assert(r[j] == s[j - 1] && s[0] <= s[j - 1]);
                }
            }
        }
        assert(r.contains(f)) by {
            assert(r[0] == f);
        }
        assert forall|x: FloorId| #[trigger] r.contains(x) implies s.contains(x) || x == f by {
            let i = choose|i: int| 0 <= i < r.len() && r[i] == x;
            if i > 0 {
                assert(s[i - 1] == x);
            }
        }
        assert forall|x: FloorId| s.contains(x) implies #[trigger] r.contains(x) by {
            let i = choose|i: int| 0 <= i < s.len() && s[i] == x;
            assert(r[i + 1] == x);
        }
        assert(r.last() == s.last());
    } else if f == s[0] {
        assert(s.contains(f)) by {
            assert(s[0] == f);
        }
    } else {
        let t = s.drop_first();
        lemma_sorted_drop_first(s);
        lemma_insert_sorted(t, f);
        let rt = insert_sorted(t, f);
        assert(r =~= seq![s[0]] + rt);
        assert(forall|i: int| 0 <= i < rt.len() ==> #[trigger] r[i + 1] == rt[i]);
        assert(forall|i: int| 0 <= i < rt.len() ==> #[trigger] rt[i] > s[0]) by {
            assert forall|i: int| 0 <= i < rt.len() implies #[trigger] rt[i] > s[0] by {
                assert(rt.contains(rt[i]));
                if t.contains(rt[i]) {
                    let k = choose|k: int| 0 <= k < t.len() && t[k] == rt[i];
                    assert(t[k] > s[0]);
                }
            }
        }
        assert(sorted(r)) by {
            assert forall|i: int, j: int| 0 <= i < j < r.len() implies r[i] < r[j] by {
                if i > 0 {
                    assert(r[i] == rt[i - 1] && r[j] == rt[j - 1]);
                } else {
                    assert(r[j] == rt[j - 1]);
                }
            }
        }
        assert(s.contains(f) <==> t.contains(f)) by {
            if s.contains(f) {
                let i = choose|i: int| 0 <= i < s.len() && s[i] == f;
                assert(i > 0);
                assert(t[i - 1] == f);
            }
            if t.contains(f) {
                let i = choose|i: int| 0 <= i < t.len() && t[i] == f;
                assert(s[i + 1] == f);
            }
        }
        assert(r.contains(f)) by {
            let i = choose|i: int| 0 <= i < rt.len() && rt[i] == f;
            assert(r[i + 1] == f);
        }
        assert forall|x: FloorId| #[trigger] r.contains(x) implies s.contains(x) || x == f by {
            let i = choose|i: int| 0 <= i < r.len() && r[i] == x;
            if i == 0 {
                assert(s[0] == x);
            } else {
                assert(rt[i - 1] == x);
                assert(rt.contains(x));
                if t.contains(x) {
                    let k = choose|k: int| 0 <= k < t.len() && t[k] == x;
                    assert(s[k + 1] == x);
                }
            }
        }
        assert forall|x: FloorId| s.contains(x) implies #[trigger] r.contains(x) by {
            let i = choose|i: int| 0 <= i < s.len() && s[i] == x;
            if i == 0 {
                assert(r[0] == x);
            } else {
                assert(t[i - 1] == x);
                assert(t.contains(x));
                assert(rt.contains(x));
                let k = choose|k: int| 0 <= k < rt.len() && rt[k] == x;
                assert(r[k + 1] == x);
            }
        }
        assert(r[0] == s[0]);
        assert(r.last() == rt.last());
        if t.len() == 0 {
            assert(s.last() == s[0] && s[0] < f);
        } else {
            assert(t.last() == s.last());
        }
    }
}

/// Removal keeps the sequence sorted and drops exactly `f`.
pub proof fn lemma_remove_sorted(s: Seq<FloorId>, f: FloorId)
    requires
        sorted(s),
    ensures
        sorted(remove_sorted(s, f)),
        !remove_sorted(s, f).contains(f),
        forall|x: FloorId| #[trigger] remove_sorted(s, f).contains(x) ==> s.contains(x),
        forall|x: FloorId| s.contains(x) && x != f ==> #[trigger] remove_sorted(s, f).contains(x),
        remove_sorted(s, f).len() == (if s.contains(f) { s.len() - 1int } else { s.len() as int }),
    decreases s.len(),
{
    let r = remove_sorted(s, f);
    if s.len() == 0 {
        assert forall|x: FloorId| #[trigger] r.contains(x) implies s.contains(x) by {}
    } else if s[0] == f {
        lemma_sorted_drop_first(s);
        let t = s.drop_first();
        assert(!t.contains(f)) by {
            if t.contains(f) {
                let i = choose|i: int| 0 <= i < t.len() && t[i] == f;
                assert(t[i] > s[0]);
            }
        }
        assert(s.contains(f)) by {
            assert(s[0] == f);
        }
        assert forall|x: FloorId| #[trigger] r.contains(x) implies s.contains(x) by {
            let i = choose|i: int| 0 <= i < t.len() && t[i] == x;
            assert(s[i + 1] == x);
        }
        assert forall|x: FloorId| s.contains(x) && x != f implies #[trigger] r.contains(x) by {
            let i = choose|i: int| 0 <= i < s.len() && s[i] == x;
            assert(i > 0);
            assert(t[i - 1] == x);
        }
    } else {
        let t = s.drop_first();
        lemma_sorted_drop_first(s);
        lemma_remove_sorted(t, f);
        let rt = remove_sorted(t, f);
        assert(r =~= seq![s[0]] + rt);
        assert(forall|i: int| 0 <= i < rt.len() ==> #[trigger] r[i + 1] == rt[i]);
        assert(forall|i: int| 0 <= i < rt.len() ==> #[trigger] rt[i] > s[0]) by {
            assert forall|i: int| 0 <= i < rt.len() implies #[trigger] rt[i] > s[0] by {
                assert(rt.contains(rt[i]));
                let k = choose|k: int| 0 <= k < t.len() && t[k] == rt[i];
                assert(t[k] > s[0]);
            }
        }
        assert(sorted(r)) by {
            assert forall|i: int, j: int| 0 <= i < j < r.len() implies r[i] < r[j] by {
                if i > 0 {
                    assert(r[i] == rt[i - 1] && r[j] == rt[j - 1]);
                } else {
                    assert(r[j] == rt[j - 1]);
                }
            }
        }
        assert(!r.contains(f)) by {
            if r.contains(f) {
                let i = choose|i: int| 0 <= i < r.len() && r[i] == f;
                assert(i > 0);
                assert(rt[i - 1] == f);
                assert(rt.contains(f));
            }
        }
        assert(s.contains(f) <==> t.contains(f)) by {
            if s.contains(f) {
                let i = choose|i: int| 0 <= i < s.len() && s[i] == f;
                assert(i > 0);
                assert(t[i - 1] == f);
            }
            if t.contains(f) {
                let i = choose|i: int| 0 <= i < t.len() && t[i] == f;
                assert(s[i + 1] == f);
            }
        }
        assert forall|x: FloorId| #[trigger] r.contains(x) implies s.contains(x) by {
            let i = choose|i: int| 0 <= i < r.len() && r[i] == x;
            if i == 0 {
                assert(s[0] == x);
            } else {
                assert(rt[i - 1] == x);
                assert(rt.contains(x));
                assert(t.contains(x));
                let k = choose|k: int| 0 <= k < t.len() && t[k] == x;
                assert(s[k + 1] == x);
            }
        }
        assert forall|x: FloorId| s.contains(x) && x != f implies #[trigger] r.contains(x) by {
            let i = choose|i: int| 0 <= i < s.len() && s[i] == x;
            if i == 0 {
                assert(r[0] == x);
            } else {
                assert(t[i - 1] == x);
                assert(t.contains(x));
                assert(rt.contains(x));
                let k = choose|k: int| 0 <= k < rt.len() && rt[k] == x;
                assert(r[k + 1] == x);
            }
        }
    }
}

/// If `f` is already present, inserting it changes nothing.
proof fn lemma_insert_sorted_present(s: Seq<FloorId>, f: FloorId)
    requires
        sorted(s),
        s.contains(f),
    ensures
        insert_sorted(s, f) == s,
    decreases s.len(),
{
    let i = choose|i: int| 0 <= i < s.len() && s[i] == f;
    assert(i > 0 ==> s[0] < s[i]);
    if f != s[0] {
        let t = s.drop_first();
        lemma_sorted_drop_first(s);
        assert(t[i - 1] == f);
        assert(t.contains(f));
        lemma_insert_sorted_present(t, f);
        assert(insert_sorted(s, f) =~= s);
    }
}

/// Inserting `f` at the index where the scan stopped matches `insert_sorted`.
proof fn lemma_insert_sorted_at(s: Seq<FloorId>, f: FloorId, i: int)
    requires
        sorted(s),
        0 <= i <= s.len(),
        forall|k: int| 0 <= k < i ==> s[k] < f,
        i < s.len() ==> s[i] > f,
    ensures
        insert_sorted(s, f) == s.insert(i, f),
    decreases i,
{
    if i == 0 {
        if s.len() == 0 {
            assert(insert_sorted(s, f) =~= s.insert(0, f));
        } else {
            assert(s[0] > f);
            assert(insert_sorted(s, f) =~= s.insert(0, f));
        }
    } else {
        assert(s[0] < f);
        let t = s.drop_first();
        lemma_sorted_drop_first(s);
        lemma_insert_sorted_at(t, f, i - 1);
        assert(seq![s[0]] + t.insert(i - 1, f) =~= s.insert(i, f));
    }
}

/// If `f` is absent, removing it changes nothing.
proof fn lemma_remove_sorted_absent(s: Seq<FloorId>, f: FloorId)
    requires
        sorted(s),
        !s.contains(f),
    ensures
        remove_sorted(s, f) == s,
    decreases s.len(),
{
    if s.len() > 0 {
        assert(s[0] != f);
        let t = s.drop_first();
        lemma_sorted_drop_first(s);
        assert(!t.contains(f)) by {
            if t.contains(f) {
                let k = choose|k: int| 0 <= k < t.len() && t[k] == f;
                assert(s[k + 1] == f);
            }
        }
        lemma_remove_sorted_absent(t, f);
        assert(remove_sorted(s, f) =~= s);
    }
}

/// Removing the entry found at index `i` matches `remove_sorted`.
proof fn lemma_remove_sorted_at(s: Seq<FloorId>, f: FloorId, i: int)
    requires
        sorted(s),
        0 <= i < s.len(),
        s[i] == f,
    ensures
        remove_sorted(s, f) == s.remove(i),
    decreases i,
{
    if i == 0 {
        assert(remove_sorted(s, f) =~= s.remove(0));
    } else {
        assert(s[0] < s[i]);
        let t = s.drop_first();
        lemma_sorted_drop_first(s);
        assert(t[i - 1] == f);
        lemma_remove_sorted_at(t, f, i - 1);
        assert(seq![s[0]] + t.remove(i - 1) =~= s.remove(i));
    }
}

/// Insert `f` into a sorted stop vector, keeping it sorted; no effect if `f`
/// is already present.
pub fn vec_insert_sorted(v: &mut Vec<FloorId>, f: FloorId)
    requires
        sorted(old(v)@),
    ensures
        final(v)@ == insert_sorted(old(v)@, f),
{
    let mut i: usize = 0;
    while i < v.len()
        invariant
            i <= v@.len(),
            v@ == old(v)@,
            sorted(v@),
            forall|k: int| 0 <= k < i ==> v@[k] < f,
        decreases v@.len() - i,
    {
        if v[i] == f {
            proof {
                assert(old(v)@.contains(f)) by {
                    assert(old(v)@[i as int] == f);
                }
                lemma_insert_sorted_present(old(v)@, f);
            }
            return;
        }
        if v[i] > f {
            proof {
                lemma_insert_sorted_at(old(v)@, f, i as int);
            }
            v.insert(i, f);
            return;
        }
        i = i + 1;
    }
    proof {
        lemma_insert_sorted_at(old(v)@, f, i as int);
    }
    v.insert(i, f);
}

/// Remove `f` from a sorted stop vector; no effect if `f` is absent.
pub fn vec_remove_sorted(v: &mut Vec<FloorId>, f: FloorId)
    requires
        sorted(old(v)@),
    ensures
        final(v)@ == remove_sorted(old(v)@, f),
{
    let mut i: usize = 0;
    while i < v.len()
        invariant
            i <= v@.len(),
            v@ == old(v)@,
            sorted(v@),
            forall|k: int| 0 <= k < i ==> v@[k] != f,
        decreases v@.len() - i,
    {
        if v[i] == f {
            proof {
                lemma_remove_sorted_at(old(v)@, f, i as int);
            }
            v.remove(i);
            return;
        }
        i = i + 1;
    }
    proof {
        assert(!old(v)@.contains(f)) by {
            if old(v)@.contains(f) {
                let k = choose|k: int| 0 <= k < old(v)@.len() && old(v)@[k] == f;
            }
        }
        lemma_remove_sorted_absent(old(v)@, f);
    }
}

/// The car after accepting a new stop: the floor is inserted, and if no stop
/// lies ahead in the current direction the car reverses (an idle car derives
/// a fresh direction).
pub open spec fn add_stop(c: Car, f: FloorId) -> Car {
    let c1 = Car { stops: insert_sorted(c.stops, f), ..c };
    if next_stop(c1) is None {
        swap_dir(c1)
    } else {
        c1
    }
}

/// The car after arriving at a floor: the stop is cleared and the position
/// updated; if stops remain but none lies ahead the car reverses; if none
/// remain at all it goes idle.
pub open spec fn arrive(c: Car, f: FloorId) -> Car {
    let c1 = Car { position: f, stops: remove_sorted(c.stops, f), direction: c.direction };
    let c2 = if next_stop(c1) is None && c1.stops.len() > 0 {
        swap_dir(c1)
    } else {
        c1
    };
    if c2.stops.len() == 0 {
        Car { direction: None, ..c2 }
    } else {
        c2
    }
}

/// Accepting a stop preserves well-formedness and always leaves the car with
/// a next stop to head for.
pub proof fn lemma_add_stop(c: Car, f: FloorId)
    requires
        car_wf(c),
    ensures
        car_wf(add_stop(c, f)),
        add_stop(c, f).position == c.position,
        add_stop(c, f).stops == insert_sorted(c.stops, f),
        add_stop(c, f).stops.len() > 0,
        next_stop(add_stop(c, f)) is Some,
        forall|x: FloorId| #[trigger] add_stop(c, f).stops.contains(x) ==> c.stops.contains(x) || x == f,
{
    lemma_insert_sorted(c.stops, f);
    let s1 = insert_sorted(c.stops, f);
    let c1 = Car { stops: s1, ..c };
    lemma_first_at_or_above(s1, c.position);
    lemma_last_at_or_below(s1, c.position);
    match c.direction {
        None => {
            assert(c.stops.len() == 0);
            assert(s1[0] == f && s1.last() == f && s1.len() == 1);
            assert(next_stop(c1) is None);
            let c2 = swap_dir(c1);
            if c.position < f {
                assert(c2.direction == Some(Direction::Up));
                if first_at_or_above(s1, c.position) is None {
                    assert(s1[0] < c.position);
                }
            } else {
                assert(c2.direction == Some(Direction::Down));
                if last_at_or_below(s1, c.position) is None {
                    assert(s1[0] > c.position);
                }
            }
        },
        Some(Direction::Up) => {
            if next_stop(c1) is None {
                assert(forall|i: int| 0 <= i < s1.len() ==> #[trigger] s1[i] < c.position);
                let c2 = swap_dir(c1);
                assert(c2.direction == Some(Direction::Down));
                assert(s1.last() <= c.position);
            }
        },
        Some(Direction::Down) => {
            if next_stop(c1) is None {
                assert(forall|i: int| 0 <= i < s1.len() ==> #[trigger] s1[i] > c.position);
                let c2 = swap_dir(c1);
                assert(c2.direction == Some(Direction::Up));
                assert(s1[0] >= c.position);
            }
        },
    }
}

/// Arrival preserves well-formedness; the car keeps a next stop exactly when
/// stops remain.
pub proof fn lemma_arrive(c: Car, f: FloorId)
    requires
        car_wf(c),
    ensures
        car_wf(arrive(c, f)),
        arrive(c, f).position == f,
        arrive(c, f).stops == remove_sorted(c.stops, f),
        !arrive(c, f).stops.contains(f),
        (next_stop(arrive(c, f)) is Some <==> arrive(c, f).stops.len() > 0),
        forall|x: FloorId| #[trigger] arrive(c, f).stops.contains(x) ==> c.stops.contains(x),
{
    lemma_remove_sorted(c.stops, f);
    let s1 = remove_sorted(c.stops, f);
    let c1 = Car { position: f, stops: s1, direction: c.direction };
    lemma_first_at_or_above(s1, f);
    lemma_last_at_or_below(s1, f);
    if s1.len() == 0 {
    } else {
        assert(c.stops.len() > 0);
        match c.direction {
            None => {
                assert(false);
            },
            Some(Direction::Up) => {
                if next_stop(c1) is None {
                    assert(forall|i: int| 0 <= i < s1.len() ==> #[trigger] s1[i] < f);
                    let c2 = swap_dir(c1);
                    assert(c2.direction == Some(Direction::Down));
                    assert(s1.last() <= f);
                }
            },
            Some(Direction::Down) => {
                if next_stop(c1) is None {
                    assert(forall|i: int| 0 <= i < s1.len() ==> #[trigger] s1[i] > f);
                    let c2 = swap_dir(c1);
                    assert(c2.direction == Some(Direction::Up));
                    assert(s1[0] >= f);
                }
            },
        }
    }
}

} // verus!
