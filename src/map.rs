use vstd::prelude::*;
use crate::ids::{IntersectionID, TurnID};

verus! {

/// Durations and instants are whole milliseconds.
pub type Duration = u64;

/// The largest instant the simulation reaches, and the largest length of a signal's schedule.
pub const MAX_TIME: u64 = 1_000_000_000_000_000;

/// A turn's admission class under a control plan, from lowest to highest.
#[derive(Clone, Copy, Debug, PartialEq, Eq, Structural, Hash)]
pub enum TurnPriority {
    Banned,
    Stop,
    Yield,
    Priority,
}

pub open spec fn rank(p: TurnPriority) -> int {
    match p {
        TurnPriority::Banned => 0,
        TurnPriority::Stop => 1,
        TurnPriority::Yield => 2,
        TurnPriority::Priority => 3,
    }
}

impl TurnPriority {
    pub fn rank(&self) -> (r: u8)
        ensures
            r as int == rank(*self),
    {
        match self {
            TurnPriority::Banned => 0,
            TurnPriority::Stop => 1,
            TurnPriority::Yield => 2,
            TurnPriority::Priority => 3,
        }
    }
}

/// A turn of the map and its geometric length in millimetres.
#[derive(Clone, Copy, Debug)]
pub struct Turn {
    pub id: TurnID,
    pub length: u64,
}

/// The static priority of each turn at a stop sign; a turn that is not listed is banned.
#[derive(Clone, Debug)]
pub struct ControlStopSign {
    pub turns: Vec<(TurnID, TurnPriority)>,
}

/// One phase of a signal's repeating schedule, lasting `duration` milliseconds. Turns listed in
/// neither list are banned during it.
#[derive(Clone, Debug)]
pub struct Cycle {
    pub priority_turns: Vec<TurnID>,
    pub yield_turns: Vec<TurnID>,
    pub duration: Duration,
}

/// A signal's schedule: its cycles, run in order and repeated.
#[derive(Clone, Debug)]
pub struct ControlTrafficSignal {
    pub cycles: Vec<Cycle>,
}

/// How an intersection is controlled.
#[derive(Clone, Debug)]
pub enum Control {
    Freeform,
    StopSign(ControlStopSign),
    TrafficSignal(ControlTrafficSignal),
}

#[derive(Clone, Debug)]
pub struct Intersection {
    pub id: IntersectionID,
    pub control: Control,
}

/// What the admission logic reads of the map: its intersections (the one numbered `k` at
/// index `k`), its turns, and the pairs of turns whose paths conflict.
#[derive(Clone, Debug)]
pub struct RoadMap {
    pub intersections: Vec<Intersection>,
    pub turns: Vec<Turn>,
    pub conflicts: Vec<(TurnID, TurnID)>,
}

/// The first index of `s` whose first component is `t`, if any.
pub open spec fn is_first_index<V>(s: Seq<(TurnID, V)>, t: TurnID, k: int) -> bool {
    0 <= k < s.len() && s[k].0 == t && forall|j: int| 0 <= j < k ==> s[j].0 != t
}

/// The priority that a stop sign gives to `t`: its first entry for `t`, else `Banned`.
pub open spec fn sign_priority(turns: Seq<(TurnID, TurnPriority)>, t: TurnID) -> TurnPriority {
    if exists|k: int| is_first_index(turns, t, k) {
        turns[choose|k: int| is_first_index(turns, t, k)].1
    } else {
        TurnPriority::Banned
    }
}

/// The priority that a cycle gives to `t`.
pub open spec fn cycle_priority(c: Cycle, t: TurnID) -> TurnPriority {
    if c.priority_turns@.contains(t) {
        TurnPriority::Priority
    } else if c.yield_turns@.contains(t) {
        TurnPriority::Yield
    } else {
        TurnPriority::Banned
    }
}

/// The total length of a schedule.
pub open spec fn period(c: Seq<Cycle>) -> int
    decreases c.len(),
{
    if c.len() == 0 {
        0
    } else {
        c[0].duration + period(c.subrange(1, c.len() as int))
    }
}

/// Where `t` milliseconds into a schedule falls: the index of the cycle and the time left in it.
pub open spec fn locate(c: Seq<Cycle>, t: int) -> (int, int)
    decreases c.len(),
{
    if c.len() <= 1 || t < c[0].duration {
        (0, c[0].duration - t)
    } else {
        let (k, rem) = locate(c.subrange(1, c.len() as int), t - c[0].duration);
        (k + 1, rem)
    }
}

pub proof fn lemma_locate_bounds(c: Seq<Cycle>, t: int)
    requires
        c.len() > 0,
        0 <= t < period(c),
        forall|k: int| 0 <= k < c.len() ==> c[k].duration > 0,
    ensures
        0 <= locate(c, t).0 < c.len(),
        0 < locate(c, t).1 <= c[locate(c, t).0].duration,
        locate(c, t).1 <= period(c),
    decreases c.len(),
{
    let rest = c.subrange(1, c.len() as int);
    if c.len() <= 1 {
        assert(rest.len() == 0);
        assert(period(rest) == 0);
        assert(period(c) == c[0].duration);
    } else if t < c[0].duration {
        lemma_period_nonneg(rest);
    } else {
        assert forall|k: int| 0 <= k < rest.len() implies rest[k].duration > 0 by {
            assert(rest[k] == c[k + 1]);
        }
        lemma_locate_bounds(rest, t - c[0].duration);
        assert(rest[locate(rest, t - c[0].duration).0] == c[locate(c, t).0]);
    }
}

pub proof fn lemma_period_nonneg(c: Seq<Cycle>)
    ensures
        period(c) >= 0,
    decreases c.len(),
{
    if c.len() > 0 {
        lemma_period_nonneg(c.subrange(1, c.len() as int));
    }
}

impl ControlTrafficSignal {
    /// A schedule that can run: at least one cycle, each of positive length, the whole no
    /// longer than `MAX_TIME`.
    pub open spec fn wf(&self) -> bool {
        &&& self.cycles@.len() > 0
        &&& forall|k: int| 0 <= k < self.cycles@.len() ==> self.cycles@[k].duration > 0
        &&& period(self.cycles@) <= MAX_TIME
    }

    /// The position in the schedule at `now`: the cycle's index and the time left in it.
    pub open spec fn position(&self, now: int) -> (int, int) {
        locate(self.cycles@, now % period(self.cycles@))
    }

    /// The total length of the schedule.
    pub fn cycle_length(&self) -> (r: Duration)
        requires
            self.wf(),
        ensures
            r == period(self.cycles@),
            r > 0,
    {
        let n = self.cycles.len();
        let mut total: u64 = 0;
        let mut k: usize = 0;
        assert(self.cycles@.subrange(0, n as int) =~= self.cycles@);
        while k < n
            invariant
                self.wf(),
                n == self.cycles@.len(),
                k <= n,
                total + period(self.cycles@.subrange(k as int, n as int)) == period(self.cycles@),
            decreases n - k,
        {
            let ghost rest = self.cycles@.subrange(k as int, n as int);
            assert(rest.subrange(1, rest.len() as int) =~= self.cycles@.subrange(k + 1, n as int));
            proof {
                lemma_period_nonneg(self.cycles@.subrange(k + 1, n as int));
            }
            total = total + self.cycles[k].duration;
            k = k + 1;
        }
        assert(self.cycles@.subrange(n as int, n as int).len() == 0);
        assert(self.cycles@[0].duration > 0);
        assert(self.cycles@.subrange(0, n as int) =~= self.cycles@);
        proof {
            lemma_period_nonneg(self.cycles@.subrange(1, n as int));
        }
        total
    }

    /// The cycle active at `now`, its index, and the time left in it.
    pub fn current_cycle_and_remaining_time(&self, now: Duration) -> (r: (usize, &Cycle, Duration))
        requires
            self.wf(),
        ensures
            (r.0 as int, r.2 as int) == self.position(now as int),
            r.0 < self.cycles@.len(),
            *r.1 == self.cycles@[r.0 as int],
            0 < r.2 <= period(self.cycles@),
    {
        let n = self.cycles.len();
        let period_len = self.cycle_length();
        let t0 = now % period_len;
        let mut t: u64 = t0;
        let mut k: usize = 0;
        proof {
            assert(self.cycles@.subrange(0, n as int) =~= self.cycles@);
        }
        while k + 1 < n && t >= self.cycles[k].duration
            invariant
                self.wf(),
                n == self.cycles@.len(),
                k < n,
                t <= t0,
                t0 < period(self.cycles@),
                (t0 - t) + period(self.cycles@.subrange(k as int, n as int)) == period(self.cycles@),
                locate(self.cycles@, t0 as int) == ({
                    let (j, rem) = locate(self.cycles@.subrange(k as int, n as int), t as int);
                    (j + k, rem)
                }),
            decreases n - k,
        {
            let ghost rest = self.cycles@.subrange(k as int, n as int);
            assert(rest.subrange(1, rest.len() as int) =~= self.cycles@.subrange(k + 1, n as int));
            t = t - self.cycles[k].duration;
            k = k + 1;
        }
        let ghost rest = self.cycles@.subrange(k as int, n as int);
        assert(rest[0] == self.cycles@[k as int]);
        proof {
            if k + 1 >= n {
                assert(rest.subrange(1, rest.len() as int).len() == 0);
            } else {
                lemma_period_nonneg(rest.subrange(1, rest.len() as int));
            }
            lemma_locate_bounds(self.cycles@, t0 as int);
        }
        let remaining = self.cycles[k].duration - t;
        (k, &self.cycles[k], remaining)
    }
}

impl Cycle {
    /// The priority of `t` during this cycle.
    pub fn get_priority(&self, t: TurnID) -> (r: TurnPriority)
        ensures
            r == cycle_priority(*self, t),
    {
        if contains_turn(&self.priority_turns, t) {
            TurnPriority::Priority
        } else if contains_turn(&self.yield_turns, t) {
            TurnPriority::Yield
        } else {
            TurnPriority::Banned
        }
    }
}

fn contains_turn(v: &Vec<TurnID>, t: TurnID) -> (r: bool)
    ensures
        r == v@.contains(t),
{
    let mut k: usize = 0;
    while k < v.len()
        invariant
            k <= v@.len(),
            forall|j: int| 0 <= j < k ==> v@[j] != t,
        decreases v@.len() - k,
    {
        if v[k] == t {
            return true;
        }
        k = k + 1;
    }
    false
}

impl ControlStopSign {
    /// The priority of `t` at this stop sign.
    pub fn get_priority(&self, t: TurnID) -> (r: TurnPriority)
        ensures
            r == sign_priority(self.turns@, t),
    {
        let mut k: usize = 0;
        while k < self.turns.len()
            invariant
                k <= self.turns@.len(),
                forall|j: int| 0 <= j < k ==> self.turns@[j].0 != t,
            decreases self.turns@.len() - k,
        {
            if self.turns[k].0 == t {
                assert(is_first_index(self.turns@, t, k as int));
                proof {
                    let c = choose|c: int| is_first_index(self.turns@, t, c);
                    assert(c == k);
                }
                return self.turns[k].1;
            }
            k = k + 1;
        }
        TurnPriority::Banned
    }
}

/// The first index of `s` that holds the turn `t`.
pub open spec fn is_first_turn(s: Seq<Turn>, t: TurnID, k: int) -> bool {
    0 <= k < s.len() && s[k].id == t && forall|j: int| 0 <= j < k ==> s[j].id != t
}

impl RoadMap {
    /// Intersections numbered by position, and every signal's schedule able to run.
    pub open spec fn wf(&self) -> bool {
        forall|k: int|
            0 <= k < self.intersections@.len() ==> {
                &&& (#[trigger] self.intersections@[k]).id.0 == k
                &&& (self.intersections@[k].control matches Control::TrafficSignal(s) ==> s.wf())
            }
    }

    /// Whether the paths of turns `a` and `b` conflict; the relation is symmetric.
    pub open spec fn conflicts(&self, a: TurnID, b: TurnID) -> bool {
        exists|k: int|
            0 <= k < self.conflicts@.len() && (#[trigger] self.conflicts@[k] == (a, b)
                || self.conflicts@[k] == (b, a))
    }

    pub open spec fn has_turn(&self, t: TurnID) -> bool {
        exists|k: int| is_first_turn(self.turns@, t, k)
    }

    /// The length in millimetres of a turn of the map.
    pub open spec fn turn_length(&self, t: TurnID) -> int
        recommends
            self.has_turn(t),
    {
        self.turns@[choose|k: int| is_first_turn(self.turns@, t, k)].length as int
    }

    pub open spec fn control_of(&self, i: IntersectionID) -> Control {
        self.intersections@[i.0 as int].control
    }

    /// Whether the paths of turns `a` and `b` conflict.
    pub fn turns_conflict(&self, a: TurnID, b: TurnID) -> (r: bool)
        ensures
            r == self.conflicts(a, b),
    {
        let mut k: usize = 0;
        while k < self.conflicts.len()
            invariant
                k <= self.conflicts@.len(),
                forall|j: int|
                    0 <= j < k ==> self.conflicts@[j] != (a, b) && self.conflicts@[j] != (b, a),
            decreases self.conflicts@.len() - k,
        {
            let (x, y) = self.conflicts[k];
            if (x == a && y == b) || (x == b && y == a) {
                assert(self.conflicts@[k as int] == (a, b) || self.conflicts@[k as int] == (b, a));
                return true;
            }
            k = k + 1;
        }
        false
    }

    /// The length in millimetres of the turn `t`.
    pub fn get_turn_length(&self, t: TurnID) -> (r: u64)
        requires
            self.has_turn(t),
        ensures
            r == self.turn_length(t),
    {
        let mut k: usize = 0;
        while k < self.turns.len()
            invariant
                self.has_turn(t),
                k <= self.turns@.len(),
                forall|j: int| 0 <= j < k ==> self.turns@[j].id != t,
            decreases self.turns@.len() - k,
        {
            if self.turns[k].id == t {
                assert(is_first_turn(self.turns@, t, k as int));
                proof {
                    let c = choose|c: int| is_first_turn(self.turns@, t, c);
                    assert(c == k);
                }
                return self.turns[k].length;
            }
            k = k + 1;
        }
        proof {
            let c = choose|c: int| is_first_turn(self.turns@, t, c);
            assert(self.turns@[c].id == t);
        }
        0
    }

    /// How the intersection `i` is controlled.
    pub fn control(&self, i: IntersectionID) -> (r: &Control)
        requires
            i.0 < self.intersections@.len(),
        ensures
            *r == self.control_of(i),
    {
        &self.intersections[i.0].control
    }
}

} // verus!
