use vstd::prelude::*;
use crate::ids::{lemma_request_order, request_lt, AgentID, IntersectionID, LaneID, Request, TurnID};
use crate::map::{
    cycle_priority, rank, sign_priority, Control, ControlStopSign, ControlTrafficSignal, Duration,
    RoadMap, TurnPriority, MAX_TIME,
};
use crate::scheduler::{rescheduled, Command, Scheduler};

verus! {

/// How long a stop-controlled movement must wait before it is considered at all.
pub const WAIT_AT_STOP_SIGN: Duration = 500;

/// Requests in strictly increasing order.
pub open spec fn sorted(s: Seq<Request>) -> bool {
    forall|i: int, j: int| 0 <= i < j < s.len() ==> request_lt(s[i], s[j])
}

/// Entries whose requests are in strictly increasing order.
pub open spec fn keys_sorted(w: Seq<(Request, Duration)>) -> bool {
    forall|i: int, j: int| 0 <= i < j < w.len() ==> request_lt(w[i].0, w[j].0)
}

pub open spec fn has_key(w: Seq<(Request, Duration)>, r: Request) -> bool {
    exists|k: int| 0 <= k < w.len() && w[k].0 == r
}

/// The mapping that a list of entries holds.
pub open spec fn map_of(w: Seq<(Request, Duration)>) -> Map<Request, Duration> {
    Map::new(
        |r: Request| has_key(w, r),
        |r: Request| w[choose|k: int| 0 <= k < w.len() && w[k].0 == r].1,
    )
}

/// The requests of a list of entries, in order.
pub open spec fn keys(w: Seq<(Request, Duration)>) -> Seq<Request> {
    w.map_values(|e: (Request, Duration)| e.0)
}

proof fn lemma_map_of_index(w: Seq<(Request, Duration)>, k: int)
    requires
        keys_sorted(w),
        0 <= k < w.len(),
    ensures
        map_of(w).contains_key(w[k].0),
        map_of(w)[w[k].0] == w[k].1,
{
    let r = w[k].0;
    assert(has_key(w, r));
    let c = choose|c: int| 0 <= c < w.len() && w[c].0 == r;
    lemma_request_order(r, r, r);
    if c < k {
        assert(request_lt(w[c].0, w[k].0));
    } else if c > k {
        assert(request_lt(w[k].0, w[c].0));
    }
}

proof fn lemma_insert_entry(w: Seq<(Request, Duration)>, p: int, e: (Request, Duration))
    requires
        keys_sorted(w),
        0 <= p <= w.len(),
        forall|j: int| 0 <= j < p ==> request_lt(w[j].0, e.0),
        forall|j: int| p <= j < w.len() ==> request_lt(e.0, w[j].0),
    ensures
        keys_sorted(w.insert(p, e)),
        map_of(w.insert(p, e)) == map_of(w).insert(e.0, e.1),
        keys(w.insert(p, e)) == keys(w).insert(p, e.0),
{
    let v = w.insert(p, e);
    assert(keys_sorted(v)) by {
        assert forall|i: int, j: int| 0 <= i < j < v.len() implies request_lt(v[i].0, v[j].0) by {
            if j < p {
            } else if j == p {
            } else if i < p {
                lemma_request_order(v[i].0, e.0, v[j].0);
            } else if i == p {
            } else {
                assert(v[i] == w[i - 1] && v[j] == w[j - 1]);
            }
        }
    }
    assert forall|r: Request| #[trigger] map_of(v).contains_key(r) <==> map_of(w).insert(e.0, e.1).contains_key(r) by {
        if has_key(w, r) {
            let k = choose|k: int| 0 <= k < w.len() && w[k].0 == r;
            if k < p {
                assert(v[k] == w[k]);
            } else {
                assert(v[k + 1] == w[k]);
            }
        }
        if has_key(v, r) {
            let k = choose|k: int| 0 <= k < v.len() && v[k].0 == r;
            if k < p {
                assert(v[k] == w[k]);
            } else if k > p {
                assert(v[k] == w[k - 1]);
            }
        }
        assert(v[p] == e);
    }
    assert forall|r: Request| map_of(v).contains_key(r) implies map_of(v)[r] == map_of(w).insert(e.0, e.1)[r] by {
        let k = choose|k: int| 0 <= k < v.len() && v[k].0 == r;
        lemma_map_of_index(v, k);
        if k < p {
            assert(v[k] == w[k]);
            lemma_map_of_index(w, k);
            lemma_request_order(r, e.0, r);
        } else if k > p {
            assert(v[k] == w[k - 1]);
            lemma_map_of_index(w, k - 1);
            lemma_request_order(r, e.0, r);
        }
    }
    assert(map_of(v) =~= map_of(w).insert(e.0, e.1));
    assert(keys(v) =~= keys(w).insert(p, e.0));
}

proof fn lemma_remove_entry(w: Seq<(Request, Duration)>, k: int)
    requires
        keys_sorted(w),
        0 <= k < w.len(),
    ensures
        keys_sorted(w.remove(k)),
        map_of(w.remove(k)) == map_of(w).remove(w[k].0),
{
    let v = w.remove(k);
    let e = w[k];
    assert(keys_sorted(v)) by {
        assert forall|i: int, j: int| 0 <= i < j < v.len() implies request_lt(v[i].0, v[j].0) by {
            if j < k {
            } else if i < k {
                assert(v[j] == w[j + 1]);
            } else {
                assert(v[i] == w[i + 1] && v[j] == w[j + 1]);
            }
        }
    }
    lemma_request_order(e.0, e.0, e.0);
    assert forall|r: Request| #[trigger] map_of(v).contains_key(r) <==> map_of(w).remove(e.0).contains_key(r) by {
        if has_key(w, r) && r != e.0 {
            let j = choose|j: int| 0 <= j < w.len() && w[j].0 == r;
            if j < k {
                assert(v[j] == w[j]);
            } else {
                assert(j != k);
                assert(v[j - 1] == w[j]);
            }
        }
        if has_key(v, r) {
            let j = choose|j: int| 0 <= j < v.len() && v[j].0 == r;
            if j < k {
                assert(v[j] == w[j]);
                assert(request_lt(w[j].0, w[k].0));
            } else {
                assert(v[j] == w[j + 1]);
                assert(request_lt(w[k].0, w[j + 1].0));
            }
        }
    }
    assert forall|r: Request| map_of(v).contains_key(r) implies map_of(v)[r] == map_of(w).remove(e.0)[r] by {
        let j = choose|j: int| 0 <= j < v.len() && v[j].0 == r;
        lemma_map_of_index(v, j);
        if j < k {
            assert(v[j] == w[j]);
            lemma_map_of_index(w, j);
        } else {
            assert(v[j] == w[j + 1]);
            lemma_map_of_index(w, j + 1);
        }
    }
    assert(map_of(v) =~= map_of(w).remove(e.0));
}

proof fn lemma_insert_request(a: Seq<Request>, p: int, x: Request)
    requires
        sorted(a),
        0 <= p <= a.len(),
        forall|j: int| 0 <= j < p ==> request_lt(a[j], x),
        forall|j: int| p <= j < a.len() ==> request_lt(x, a[j]),
    ensures
        sorted(a.insert(p, x)),
        a.insert(p, x).to_set() == a.to_set().insert(x),
{
    let v = a.insert(p, x);
    assert forall|i: int, j: int| 0 <= i < j < v.len() implies request_lt(v[i], v[j]) by {
        if j < p {
        } else if j == p {
        } else if i < p {
            lemma_request_order(v[i], x, v[j]);
        } else if i == p {
        } else {
            assert(v[i] == a[i - 1] && v[j] == a[j - 1]);
        }
    }
    assert forall|r: Request| #[trigger] v.to_set().contains(r) <==> a.to_set().insert(x).contains(r) by {
        if a.contains(r) {
            let k = choose|k: int| 0 <= k < a.len() && a[k] == r;
            if k < p {
                assert(v[k] == a[k]);
            } else {
                assert(v[k + 1] == a[k]);
            }
        }
        if v.contains(r) {
            let k = choose|k: int| 0 <= k < v.len() && v[k] == r;
            if k < p {
                assert(v[k] == a[k]);
            } else if k > p {
                assert(v[k] == a[k - 1]);
            }
        }
        assert(v[p] == x);
    }
    assert(v.to_set() =~= a.to_set().insert(x));
}

proof fn lemma_remove_request(a: Seq<Request>, k: int)
    requires
        sorted(a),
        0 <= k < a.len(),
    ensures
        sorted(a.remove(k)),
        a.remove(k).to_set() == a.to_set().remove(a[k]),
{
    let v = a.remove(k);
    let x = a[k];
    assert forall|i: int, j: int| 0 <= i < j < v.len() implies request_lt(v[i], v[j]) by {
        if j < k {
        } else if i < k {
            assert(v[j] == a[j + 1]);
        } else {
            assert(v[i] == a[i + 1] && v[j] == a[j + 1]);
        }
    }
    lemma_request_order(x, x, x);
    assert forall|r: Request| #[trigger] v.to_set().contains(r) <==> a.to_set().remove(x).contains(r) by {
        if a.contains(r) && r != x {
            let j = choose|j: int| 0 <= j < a.len() && a[j] == r;
            if j < k {
                assert(v[j] == a[j]);
            } else {
                assert(v[j - 1] == a[j]);
            }
        }
        if v.contains(r) {
            let j = choose|j: int| 0 <= j < v.len() && v[j] == r;
            if j < k {
                assert(v[j] == a[j]);
                assert(request_lt(a[j], a[k]));
            } else {
                assert(v[j] == a[j + 1]);
                assert(request_lt(a[k], a[j + 1]));
            }
        }
    }
    assert(v.to_set() =~= a.to_set().remove(x));
}

/// The waiting requests after `req` is made at `now`: a request already waiting keeps its
/// first instant.
pub open spec fn noted(w: Map<Request, Duration>, req: Request, now: Duration) -> Map<Request, Duration> {
    if w.contains_key(req) {
        w
    } else {
        w.insert(req, now)
    }
}

/// The events after waking, at `now` and in the given order, each agent of `reqs`, with the
/// scheduler's `update`.
pub open spec fn wake_all(s: Seq<(Duration, Command)>, reqs: Seq<Request>, now: Duration) -> Seq<
    (Duration, Command),
>
    decreases reqs.len(),
{
    if reqs.len() == 0 {
        s
    } else {
        rescheduled(
            wake_all(s, reqs.drop_last(), now),
            now,
            Command::UpdateAgent(reqs.last().agent),
        )
    }
}

/// The events after a request is tried: a stop-controlled request denied for its dwell alone
/// is woken when the dwell ends.
pub open spec fn after_attempt(
    s: Seq<(Duration, Command)>,
    map: RoadMap,
    control: Control,
    acc: Set<Request>,
    w: Map<Request, Duration>,
    req: Request,
    now: Duration,
) -> Seq<(Duration, Command)> {
    if denied_for_dwell(map, control, acc, w, req, now as int) {
        s.push(((w[req] + WAIT_AT_STOP_SIGN) as Duration, Command::UpdateAgent(req.agent)))
    } else {
        s
    }
}

/// The first re-evaluation of every signal-controlled intersection, each at the end of the
/// cycle active at instant zero, in the order of the intersections.
pub open spec fn signal_ticks(ints: Seq<crate::map::Intersection>) -> Seq<(Duration, Command)>
    decreases ints.len(),
{
    if ints.len() == 0 {
        Seq::empty()
    } else {
        let rest = signal_ticks(ints.drop_last());
        match ints.last().control {
            Control::TrafficSignal(signal) => rest.push(
                (signal.position(0).1 as Duration, Command::UpdateIntersection(ints.last().id)),
            ),
            _ => rest,
        }
    }
}

/// Some request of `acc` has a turn that conflicts with `t`.
pub open spec fn conflicts_with_set(map: RoadMap, acc: Set<Request>, t: TurnID) -> bool {
    exists|r: Request| acc.contains(r) && map.conflicts(r.turn, t)
}

/// An uncontrolled intersection admits whatever does not conflict with a turn in progress.
pub open spec fn freeform_allows(map: RoadMap, acc: Set<Request>, req: Request) -> bool {
    !conflicts_with_set(map, acc, req.turn)
}

/// A stop-controlled movement first requested at `since` is still in its dwell at `now`.
pub open spec fn dwelling(p: TurnPriority, since: int, now: int) -> bool {
    p == TurnPriority::Stop && now < since + WAIT_AT_STOP_SIGN
}

/// A waiting request that could go now, were it not for its competitors.
pub open spec fn ready_at_stop_sign(
    map: RoadMap,
    sign: ControlStopSign,
    acc: Set<Request>,
    r: Request,
    since: int,
    now: int,
) -> bool {
    !conflicts_with_set(map, acc, r.turn) && !dwelling(sign_priority(sign.turns@, r.turn), since, now)
}

/// A competitor of priority `p` first requested at `since` goes before one of priority `q`
/// first requested at `our_since`.
pub open spec fn outranks(p: TurnPriority, since: int, q: TurnPriority, our_since: int) -> bool {
    rank(p) > rank(q) || (p == q && since < our_since)
}

/// A waiting request that conflicts with `req`, is ready, and goes before it.
pub open spec fn blocks_at_stop_sign(
    map: RoadMap,
    sign: ControlStopSign,
    acc: Set<Request>,
    w: Map<Request, Duration>,
    req: Request,
    r: Request,
    now: int,
) -> bool {
    &&& w.contains_key(r)
    &&& map.conflicts(req.turn, r.turn)
    &&& ready_at_stop_sign(map, sign, acc, r, w[r] as int, now)
    &&& outranks(
        sign_priority(sign.turns@, r.turn),
        w[r] as int,
        sign_priority(sign.turns@, req.turn),
        w[req] as int,
    )
}

/// The stop-sign rule: no conflict with a turn in progress, the dwell over, and no ready
/// conflicting competitor of higher priority, or of equal priority and earlier.
pub open spec fn stop_sign_allows(
    map: RoadMap,
    sign: ControlStopSign,
    acc: Set<Request>,
    w: Map<Request, Duration>,
    req: Request,
    now: int,
) -> bool {
    &&& !conflicts_with_set(map, acc, req.turn)
    &&& !dwelling(sign_priority(sign.turns@, req.turn), w[req] as int, now)
    &&& !exists|r: Request| blocks_at_stop_sign(map, sign, acc, w, req, r, now)
}

/// A turn of `length` millimetres, at `speed` millimetres a second, is done within `remaining`
/// milliseconds: length / speed <= remaining, without division.
pub open spec fn crossing_fits(length: int, speed: int, remaining: int) -> bool {
    length * 1000 <= remaining * speed
}

/// A waiting request that conflicts with `req` and has priority in the cycle.
pub open spec fn preempted_in_cycle(
    map: RoadMap,
    cycle: crate::map::Cycle,
    w: Map<Request, Duration>,
    req: Request,
) -> bool {
    exists|r: Request|
        w.contains_key(r) && map.conflicts(req.turn, r.turn) && cycle_priority(cycle, r.turn)
            == TurnPriority::Priority
}

/// The signal rule: not banned in the current cycle, no conflict with a turn in progress, a
/// yield loses to a waiting conflicting priority movement, and the crossing fits in what is
/// left of the cycle.
pub open spec fn signal_allows(
    map: RoadMap,
    signal: ControlTrafficSignal,
    acc: Set<Request>,
    w: Map<Request, Duration>,
    req: Request,
    speed: int,
    now: int,
) -> bool {
    let (idx, remaining) = signal.position(now);
    let cycle = signal.cycles@[idx];
    let p = cycle_priority(cycle, req.turn);
    &&& p != TurnPriority::Banned
    &&& !conflicts_with_set(map, acc, req.turn)
    &&& !(p == TurnPriority::Yield && preempted_in_cycle(map, cycle, w, req))
    &&& crossing_fits(map.turn_length(req.turn), speed, remaining)
}

/// The decision of the policy that the intersection's control selects.
pub open spec fn admits(
    map: RoadMap,
    control: Control,
    acc: Set<Request>,
    w: Map<Request, Duration>,
    req: Request,
    speed: int,
    now: int,
) -> bool {
    match control {
        Control::Freeform => freeform_allows(map, acc, req),
        Control::StopSign(sign) => stop_sign_allows(map, sign, acc, w, req, now),
        Control::TrafficSignal(signal) => signal_allows(map, signal, acc, w, req, speed, now),
    }
}

/// A stop-controlled request denied only for its dwell; it is woken when the dwell ends.
pub open spec fn denied_for_dwell(
    map: RoadMap,
    control: Control,
    acc: Set<Request>,
    w: Map<Request, Duration>,
    req: Request,
    now: int,
) -> bool {
    match control {
        Control::StopSign(sign) => !conflicts_with_set(map, acc, req.turn) && dwelling(
            sign_priority(sign.turns@, req.turn),
            w[req] as int,
            now,
        ),
        _ => false,
    }
}

/// The requests in progress and the requests waiting at one intersection.
#[derive(Clone, Debug)]
pub struct State {
    id: IntersectionID,
    accepted: Vec<Request>,
    waiting: Vec<(Request, Duration)>,
}

impl State {
    pub closed spec fn id_spec(&self) -> IntersectionID {
        self.id
    }

    /// The requests whose turns are in progress.
    pub closed spec fn accepted_set(&self) -> Set<Request> {
        self.accepted@.to_set()
    }

    /// The waiting requests, each with the instant it was first made.
    pub closed spec fn waiting_map(&self) -> Map<Request, Duration> {
        map_of(self.waiting@)
    }

    /// The waiting requests in their order.
    pub closed spec fn waiting_order(&self) -> Seq<Request> {
        keys(self.waiting@)
    }

    /// Both collections ordered without repeats; no request both waiting and accepted; no two
    /// accepted turns in conflict; every request for a turn of this intersection; every
    /// timestamp within `MAX_TIME`.
    pub closed spec fn wf(&self, map: RoadMap) -> bool {
        &&& sorted(self.accepted@)
        &&& keys_sorted(self.waiting@)
        &&& forall|i: int, j: int|
            0 <= i < self.accepted@.len() && 0 <= j < self.waiting@.len() ==> self.accepted@[i]
                != self.waiting@[j].0
        &&& forall|i: int, j: int|
            0 <= i < j < self.accepted@.len() ==> !map.conflicts(
                self.accepted@[i].turn,
                self.accepted@[j].turn,
            )
        &&& forall|i: int|
            0 <= i < self.accepted@.len() ==> (#[trigger] self.accepted@[i]).turn.parent == self.id
        &&& forall|j: int|
            0 <= j < self.waiting@.len() ==> (#[trigger] self.waiting@[j]).0.turn.parent == self.id
                && self.waiting@[j].1 <= MAX_TIME
    }

    pub fn new(id: IntersectionID) -> (r: State)
        ensures
            r.id_spec() == id,
            r.accepted_set() == Set::<Request>::empty(),
            r.waiting_map() == Map::<Request, Duration>::empty(),
            r.waiting_order() == Seq::<Request>::empty(),
            forall|map: RoadMap| r.wf(map),
    {
        let r = State { id, accepted: Vec::new(), waiting: Vec::new() };
        assert(r.accepted_set() =~= Set::<Request>::empty());
        assert(r.waiting_map() =~= Map::<Request, Duration>::empty());
        assert(r.waiting_order() =~= Seq::<Request>::empty());
        r
    }

    pub fn id(&self) -> (r: IntersectionID)
        ensures
            r == self.id_spec(),
    {
        self.id
    }

    /// The requests in progress, in order.
    pub fn accepted(&self) -> (r: &Vec<Request>)
        ensures
            r@.to_set() == self.accepted_set(),
    {
        &self.accepted
    }

    /// The waiting requests with the instants they were first made, in order.
    pub fn waiting(&self) -> (r: &Vec<(Request, Duration)>)
        ensures
            map_of(r@) == self.waiting_map(),
            keys(r@) == self.waiting_order(),
    {
        &self.waiting
    }

    fn any_accepted_conflict_with(&self, t: TurnID, map: &RoadMap) -> (r: bool)
        ensures
            r == conflicts_with_set(*map, self.accepted_set(), t),
    {
        let mut k: usize = 0;
        while k < self.accepted.len()
            invariant
                k <= self.accepted@.len(),
                forall|j: int| 0 <= j < k ==> !map.conflicts(self.accepted@[j].turn, t),
            decreases self.accepted@.len() - k,
        {
            if map.turns_conflict(self.accepted[k].turn, t) {
                assert(self.accepted_set().contains(self.accepted@[k as int]));
                return true;
            }
            k = k + 1;
        }
        assert forall|r: Request| self.accepted_set().contains(r) implies !map.conflicts(r.turn, t) by {
            assert(self.accepted@.contains(r));
        }
        false
    }

    /// The instant a waiting request was first made.
    fn waiting_since(&self, req: &Request) -> (r: Duration)
        requires
            keys_sorted(self.waiting@),
            forall|j: int| 0 <= j < self.waiting@.len() ==> self.waiting@[j].1 <= MAX_TIME,
            self.waiting_map().contains_key(*req),
        ensures
            r == self.waiting_map()[*req],
            r <= MAX_TIME,
    {
        let mut k: usize = 0;
        while k < self.waiting.len()
            invariant
                keys_sorted(self.waiting@),
                forall|j: int| 0 <= j < self.waiting@.len() ==> self.waiting@[j].1 <= MAX_TIME,
                k <= self.waiting@.len(),
                forall|j: int| 0 <= j < k ==> self.waiting@[j].0 != *req,
            decreases self.waiting@.len() - k,
        {
            if self.waiting[k].0 == *req {
                proof {
                    lemma_map_of_index(self.waiting@, k as int);
                }
                return self.waiting[k].1;
            }
            k = k + 1;
        }
        assert(has_key(self.waiting@, *req));
        0
    }

    fn freeform_policy(&self, req: &Request, map: &RoadMap) -> (r: bool)
        ensures
            r == freeform_allows(*map, self.accepted_set(), *req),
    {
        // Concurrent turns that do not conflict may all go; nothing stops a target lane from
        // filling up.
        if self.any_accepted_conflict_with(req.turn, map) {
            return false;
        }
        true
    }

    fn is_ready_at_stop_sign(
        &self,
        sign: &ControlStopSign,
        req: &Request,
        now: Duration,
        map: &RoadMap,
    ) -> (r: bool)
        requires
            self.wf(*map),
            self.waiting_map().contains_key(*req),
        ensures
            r == ready_at_stop_sign(
                *map,
                *sign,
                self.accepted_set(),
                *req,
                self.waiting_map()[*req] as int,
                now as int,
            ),
    {
        if self.any_accepted_conflict_with(req.turn, map) {
            return false;
        }
        let our_priority = sign.get_priority(req.turn);
        let our_time = self.waiting_since(req);
        if our_priority == TurnPriority::Stop && now < our_time + WAIT_AT_STOP_SIGN {
            return false;
        }
        true
    }

    fn stop_sign_policy(
        &self,
        sign: &ControlStopSign,
        req: &Request,
        now: Duration,
        map: &RoadMap,
        scheduler: &mut Scheduler,
    ) -> (r: bool)
        requires
            self.wf(*map),
            self.waiting_map().contains_key(*req),
            sign_priority(sign.turns@, req.turn) != TurnPriority::Banned,
        ensures
            r == stop_sign_allows(
                *map,
                *sign,
                self.accepted_set(),
                self.waiting_map(),
                *req,
                now as int,
            ),
            final(scheduler)@ == (if !conflicts_with_set(*map, self.accepted_set(), req.turn)
                && dwelling(
                sign_priority(sign.turns@, req.turn),
                self.waiting_map()[*req] as int,
                now as int,
            ) {
                old(scheduler)@.push(
                    (
                        (self.waiting_map()[*req] + WAIT_AT_STOP_SIGN) as Duration,
                        Command::UpdateAgent(req.agent),
                    ),
                )
            } else {
                old(scheduler)@
            }),
    {
        if self.any_accepted_conflict_with(req.turn, map) {
            return false;
        }
        let our_priority = sign.get_priority(req.turn);
        let our_time = self.waiting_since(req);
        if our_priority == TurnPriority::Stop && now < our_time + WAIT_AT_STOP_SIGN {
            // This request's wake-ups are ours to schedule, so a plain push does.
            scheduler.push(our_time + WAIT_AT_STOP_SIGN, Command::update_agent(req.agent));
            return false;
        }
        let ghost acc = self.accepted_set();
        let ghost w = self.waiting_map();
        let mut k: usize = 0;
        while k < self.waiting.len()
            invariant
                self.wf(*map),
                scheduler@ == old(scheduler)@,
                !dwelling(our_priority, our_time as int, now as int),
                acc == self.accepted_set(),
                w == self.waiting_map(),
                w.contains_key(*req),
                our_priority == sign_priority(sign.turns@, req.turn),
                our_time == w[*req],
                k <= self.waiting@.len(),
                forall|j: int|
                    0 <= j < k ==> !blocks_at_stop_sign(
                        *map,
                        *sign,
                        acc,
                        w,
                        *req,
                        #[trigger] self.waiting@[j].0,
                        now as int,
                    ),
            decreases self.waiting@.len() - k,
        {
            let (r, time) = self.waiting[k];
            proof {
                lemma_map_of_index(self.waiting@, k as int);
            }
            // Turns that do not conflict are no competition.
            if map.turns_conflict(req.turn, r.turn) {
                // Nor is a competitor that cannot go yet.
                if self.is_ready_at_stop_sign(sign, &r, now, map) {
                    let their_priority = sign.get_priority(r.turn);
                    if their_priority.rank() > our_priority.rank() {
                        assert(blocks_at_stop_sign(*map, *sign, acc, w, *req, r, now as int));
                        return false;
                    } else if their_priority == our_priority && time < our_time {
                        assert(blocks_at_stop_sign(*map, *sign, acc, w, *req, r, now as int));
                        return false;
                    }
                }
            }
            k = k + 1;
        }
        assert forall|r: Request| !blocks_at_stop_sign(*map, *sign, acc, w, *req, r, now as int) by {
            if w.contains_key(r) {
                let j = choose|j: int| 0 <= j < self.waiting@.len() && self.waiting@[j].0 == r;
                assert(self.waiting@[j].0 == r);
            }
        }
        true
    }

    fn traffic_signal_policy(
        &self,
        signal: &ControlTrafficSignal,
        new_req: &Request,
        speed: u64,
        time: Duration,
        map: &RoadMap,
    ) -> (r: bool)
        requires
            signal.wf(),
            map.has_turn(new_req.turn),
        ensures
            r == signal_allows(
                *map,
                *signal,
                self.accepted_set(),
                self.waiting_map(),
                *new_req,
                speed as int,
                time as int,
            ),
    {
        let (_, cycle, remaining_cycle_time) = signal.current_cycle_and_remaining_time(time);
        let our_priority = cycle.get_priority(new_req.turn);
        // Cannot go at all during this cycle.
        if our_priority == TurnPriority::Banned {
            return false;
        }
        // Somebody may already be doing a turn that conflicts with this one.
        if self.any_accepted_conflict_with(new_req.turn, map) {
            return false;
        }
        // A yield loses to a conflicting priority movement.
        if our_priority == TurnPriority::Yield {
            let ghost w = self.waiting_map();
            let mut k: usize = 0;
            while k < self.waiting.len()
                invariant
                    w == self.waiting_map(),
                    signal.cycles@[signal.position(time as int).0] == *cycle,
                    our_priority == TurnPriority::Yield,
                    our_priority == cycle_priority(*cycle, new_req.turn),
                    k <= self.waiting@.len(),
                    forall|j: int|
                        0 <= j < k ==> !(map.conflicts(new_req.turn, (#[trigger] self.waiting@[j]).0.turn)
                            && cycle_priority(*cycle, self.waiting@[j].0.turn)
                            == TurnPriority::Priority),
                decreases self.waiting@.len() - k,
            {
                let r = self.waiting[k].0;
                if map.turns_conflict(new_req.turn, r.turn) && cycle.get_priority(r.turn)
                    == TurnPriority::Priority {
                    assert(has_key(self.waiting@, r));
                    assert(w.contains_key(r));
                    assert(preempted_in_cycle(*map, *cycle, w, *new_req));
                    return false;
                }
                k = k + 1;
            }
            assert forall|r: Request|
                !(w.contains_key(r) && map.conflicts(new_req.turn, r.turn) && cycle_priority(
                    *cycle,
                    r.turn,
                ) == TurnPriority::Priority) by {
                if w.contains_key(r) {
                    let j = choose|j: int| 0 <= j < self.waiting@.len() && self.waiting@[j].0 == r;
                    assert(self.waiting@[j].0 == r);
                }
            }
        }
        // If nobody is in the way, this is how long the turn takes. Do not start it if it
        // cannot be done before the light changes; actual speeds may differ, and a turn that
        // overruns the cycle a little is accepted.
        let length = map.get_turn_length(new_req.turn);
        let needed: u128 = (length as u128) * 1000;
        proof {
            let a = remaining_cycle_time as int;
            let b = speed as int;
            assert(a * b <= 0xffff_ffff_ffff_ffff * 0xffff_ffff_ffff_ffff) by (nonlinear_arith)
                requires
                    0 <= a <= 0xffff_ffff_ffff_ffff,
                    0 <= b <= 0xffff_ffff_ffff_ffff,
            ;
        }
        let available: u128 = (remaining_cycle_time as u128) * (speed as u128);
        assert(needed == map.turn_length(new_req.turn) * 1000);
        assert(available == remaining_cycle_time as int * speed as int);
        if needed > available {
            return false;
        }
        assert(crossing_fits(map.turn_length(new_req.turn), speed as int, remaining_cycle_time as int));
        true
    }

    /// Records that `req` is waiting since `now`, unless it already waits.
    fn note_request(&mut self, req: Request, now: Duration, map: &RoadMap)
        requires
            old(self).wf(*map),
            req.turn.parent == old(self).id_spec(),
            now <= MAX_TIME,
            !old(self).accepted_set().contains(req),
        ensures
            final(self).wf(*map),
            final(self).id_spec() == old(self).id_spec(),
            final(self).accepted_set() == old(self).accepted_set(),
            final(self).waiting_map() == noted(old(self).waiting_map(), req, now),
    {
        let n = self.waiting.len();
        let mut p: usize = 0;
        while p < n && self.waiting[p].0.precedes(&req)
            invariant
                n == self.waiting@.len(),
                p <= n,
                keys_sorted(self.waiting@),
                forall|j: int| 0 <= j < p ==> request_lt(self.waiting@[j].0, req),
            decreases n - p,
        {
            p = p + 1;
        }
        if p < n && self.waiting[p].0 == req {
            proof {
                lemma_map_of_index(self.waiting@, p as int);
            }
            return;
        }
        let ghost w = self.waiting@;
        proof {
            assert forall|j: int| p <= j < n implies request_lt(req, w[j].0) by {
                lemma_request_order(req, w[p as int].0, w[j].0);
            }
            assert(!has_key(w, req)) by {
                if has_key(w, req) {
                    let j = choose|j: int| 0 <= j < w.len() && w[j].0 == req;
                    lemma_request_order(req, req, req);
                }
            }
            lemma_insert_entry(w, p as int, (req, now));
        }
        self.waiting.insert(p, (req, now));
        proof {
            let v = self.waiting@;
            assert forall|i: int, j: int|
                0 <= i < self.accepted@.len() && 0 <= j < v.len() implies self.accepted@[i] != v[j].0 by {
                if j < p {
                    assert(v[j] == w[j]);
                } else if j > p {
                    assert(v[j] == w[j - 1]);
                } else {
                    assert(self.accepted@.contains(self.accepted@[i]));
                }
            }
            assert forall|j: int| 0 <= j < v.len() implies (#[trigger] v[j]).0.turn.parent == self.id
                && v[j].1 <= MAX_TIME by {
                if j < p {
                    assert(v[j] == w[j]);
                } else if j > p {
                    assert(v[j] == w[j - 1]);
                }
            }
        }
    }

    /// Moves a waiting request whose turn conflicts with nothing in progress to the accepted ones.
    fn accept(&mut self, req: Request, map: &RoadMap)
        requires
            old(self).wf(*map),
            old(self).waiting_map().contains_key(req),
            !conflicts_with_set(*map, old(self).accepted_set(), req.turn),
        ensures
            final(self).wf(*map),
            final(self).id_spec() == old(self).id_spec(),
            final(self).accepted_set() == old(self).accepted_set().insert(req),
            final(self).waiting_map() == old(self).waiting_map().remove(req),
    {
        let ghost w = self.waiting@;
        let ghost a = self.accepted@;
        let n = self.waiting.len();
        let mut k: usize = 0;
        while k < n && self.waiting[k].0 != req
            invariant
                n == self.waiting@.len(),
                k <= n,
                forall|j: int| 0 <= j < k ==> self.waiting@[j].0 != req,
            decreases n - k,
        {
            k = k + 1;
        }
        proof {
            if k == n {
                assert(has_key(w, req));
            }
            lemma_remove_entry(w, k as int);
        }
        self.waiting.remove(k);
        let m = self.accepted.len();
        let mut p: usize = 0;
        while p < m && self.accepted[p].precedes(&req)
            invariant
                m == self.accepted@.len(),
                a == self.accepted@,
                p <= m,
                sorted(a),
                forall|j: int| 0 <= j < p ==> request_lt(a[j], req),
            decreases m - p,
        {
            p = p + 1;
        }
        proof {
            assert forall|j: int| p <= j < m implies request_lt(req, a[j]) by {
                assert(a[p as int] != req) by {
                    assert(a.contains(a[j]));
                    assert(a[p as int] != w[k as int].0);
                }
                lemma_request_order(req, a[p as int], a[j]);
            }
            lemma_insert_request(a, p as int, req);
        }
        self.accepted.insert(p, req);
        proof {
            let v = self.accepted@;
            let u = self.waiting@;
            lemma_request_order(req, req, req);
            assert forall|i: int, j: int| 0 <= i < j < v.len() implies !map.conflicts(
                v[i].turn,
                v[j].turn,
            ) by {
                if i == p {
                    assert(v[j] == a[j - 1]);
                    assert(a.to_set().contains(a[j - 1]));
                } else if j == p {
                    assert(v[i] == a[i]);
                    assert(a.to_set().contains(a[i]));
                } else {
                    let ii = if i < p { i } else { i - 1 };
                    let jj = if j < p { j } else { j - 1 };
                    assert(v[i] == a[ii] && v[j] == a[jj]);
                }
            }
            assert forall|i: int, j: int|
                0 <= i < v.len() && 0 <= j < u.len() implies v[i] != u[j].0 by {
                let jj = if j < k { j } else { j + 1 };
                assert(u[j] == w[jj]);
                if i == p {
                    if jj < k {
                        assert(request_lt(w[jj].0, w[k as int].0));
                    } else {
                        assert(request_lt(w[k as int].0, w[jj].0));
                    }
                } else {
                    let ii = if i < p { i } else { i - 1 };
                    assert(v[i] == a[ii]);
                }
            }
            assert forall|i: int| 0 <= i < v.len() implies (#[trigger] v[i]).turn.parent == self.id by {
                if i < p {
                    assert(v[i] == a[i]);
                } else if i > p {
                    assert(v[i] == a[i - 1]);
                } else {
                    assert(w[k as int].0.turn.parent == self.id);
                }
            }
            assert forall|j: int| 0 <= j < u.len() implies (#[trigger] u[j]).0.turn.parent == self.id
                && u[j].1 <= MAX_TIME by {
                let jj = if j < k { j } else { j + 1 };
                assert(u[j] == w[jj]);
            }
        }
    }

    /// Removes a request whose turn is done.
    fn finish(&mut self, req: Request, map: &RoadMap)
        requires
            old(self).wf(*map),
            old(self).accepted_set().contains(req),
        ensures
            final(self).wf(*map),
            final(self).id_spec() == old(self).id_spec(),
            final(self).accepted_set() == old(self).accepted_set().remove(req),
            final(self).waiting@ == old(self).waiting@,
    {
        let ghost a = self.accepted@;
        let m = self.accepted.len();
        let mut k: usize = 0;
        while k < m && self.accepted[k] != req
            invariant
                m == self.accepted@.len(),
                k <= m,
                forall|j: int| 0 <= j < k ==> self.accepted@[j] != req,
            decreases m - k,
        {
            k = k + 1;
        }
        proof {
            if k == m {
                assert(a.contains(req));
            }
            lemma_remove_request(a, k as int);
        }
        self.accepted.remove(k);
        proof {
            let v = self.accepted@;
            assert forall|i: int, j: int| 0 <= i < j < v.len() implies !map.conflicts(
                v[i].turn,
                v[j].turn,
            ) by {
                let ii = if i < k { i } else { i + 1 };
                let jj = if j < k { j } else { j + 1 };
                assert(v[i] == a[ii] && v[j] == a[jj]);
            }
            assert forall|i: int, j: int|
                0 <= i < v.len() && 0 <= j < self.waiting@.len() implies v[i] != self.waiting@[j].0 by {
                let ii = if i < k { i } else { i + 1 };
                assert(v[i] == a[ii]);
            }
            assert forall|i: int| 0 <= i < v.len() implies (#[trigger] v[i]).turn.parent == self.id by {
                let ii = if i < k { i } else { i + 1 };
                assert(v[i] == a[ii]);
            }
        }
    }

    /// Wakes every waiting agent at `now`, in the order of the requests.
    fn wake_waiting(&self, now: Duration, scheduler: &mut Scheduler)
        ensures
            final(scheduler)@ == wake_all(old(scheduler)@, self.waiting_order(), now),
    {
        let n = self.waiting.len();
        let mut k: usize = 0;
        assert(keys(self.waiting@).take(0) =~= Seq::<Request>::empty());
        while k < n
            invariant
                n == self.waiting@.len(),
                k <= n,
                scheduler@ == wake_all(old(scheduler)@, keys(self.waiting@).take(k as int), now),
            decreases n - k,
        {
            // Several turns may finish at one instant before the agent tries again: update
            // rather than push, so that it is woken once.
            scheduler.update(now, Command::update_agent(self.waiting[k].0.agent));
            assert(keys(self.waiting@).take(k + 1).drop_last() =~= keys(self.waiting@).take(k as int));
            k = k + 1;
        }
        assert(keys(self.waiting@).take(n as int) =~= keys(self.waiting@));
    }

    /// Tries `req` at `now`: records it as waiting, asks the intersection's policy, and on
    /// success moves it to the accepted requests.
    fn attempt(
        &mut self,
        req: Request,
        speed: u64,
        now: Duration,
        map: &RoadMap,
        scheduler: &mut Scheduler,
    ) -> (r: bool)
        requires
            old(self).wf(*map),
            map.wf(),
            old(self).id_spec().0 < map.intersections@.len(),
            req.turn.parent == old(self).id_spec(),
            map.has_turn(req.turn),
            now <= MAX_TIME,
            !old(self).accepted_set().contains(req),
            map.control_of(old(self).id_spec()) matches Control::StopSign(sign) ==> sign_priority(
                sign.turns@,
                req.turn,
            ) != TurnPriority::Banned,
        ensures
            final(self).wf(*map),
            final(self).id_spec() == old(self).id_spec(),
            ({
                let w = noted(old(self).waiting_map(), req, now);
                let acc = old(self).accepted_set();
                let control = map.control_of(old(self).id_spec());
                &&& r == admits(*map, control, acc, w, req, speed as int, now as int)
                &&& r ==> final(self).accepted_set() == acc.insert(req)
                    && final(self).waiting_map() == w.remove(req)
                &&& !r ==> final(self).accepted_set() == acc && final(self).waiting_map() == w
                &&& final(scheduler)@ == after_attempt(old(scheduler)@, *map, control, acc, w, req, now)
            }),
    {
        self.note_request(req, now, map);
        let control = map.control(self.id);
        proof {
            assert(map.intersections@[self.id.0 as int].id.0 == self.id.0);
        }
        let allowed = match control {
            Control::TrafficSignal(signal) => {
                self.traffic_signal_policy(signal, &req, speed, now, map)
            },
            Control::StopSign(sign) => self.stop_sign_policy(sign, &req, now, map, scheduler),
            Control::Freeform => self.freeform_policy(&req, map),
        };
        if allowed {
            self.accept(req, map);
            true
        } else {
            false
        }
    }
}

/// The admission state of every intersection of the map.
#[derive(Clone, Debug)]
pub struct IntersectionSimState {
    state: Vec<State>,
}

impl View for IntersectionSimState {
    type V = Seq<State>;

    /// The state of each intersection, the one numbered `k` at index `k`.
    closed spec fn view(&self) -> Seq<State> {
        self.state@
    }
}

impl IntersectionSimState {
    /// One state per intersection of `map`, each well formed.
    pub closed spec fn wf(&self, map: RoadMap) -> bool {
        &&& self.state@.len() == map.intersections@.len()
        &&& forall|k: int|
            0 <= k < self.state@.len() ==> (#[trigger] self.state@[k]).id_spec() == IntersectionID(
                k as usize,
            ) && self.state@[k].wf(map)
    }

    pub open spec fn holds(&self, i: IntersectionID) -> bool {
        i.0 < self@.len()
    }

    /// The agents that `turn_finished` and `update_intersection` wake at intersection `i`.
    pub open spec fn waiting_order_at(&self, i: IntersectionID) -> Seq<Request> {
        self@[i.0 as int].waiting_order()
    }

    pub open spec fn accepted_at(&self, i: IntersectionID) -> Set<Request> {
        self@[i.0 as int].accepted_set()
    }

    pub open spec fn waiting_at(&self, i: IntersectionID) -> Map<Request, Duration> {
        self@[i.0 as int].waiting_map()
    }

    /// An agent at the point of starting `turn`, moving at `speed` millimetres a second, asks at
    /// `now` whether it may. When this returns true the agent must start the turn; when it
    /// returns false the agent must not try again until an event from the scheduler says so.
    pub fn maybe_start_turn(
        &mut self,
        agent: AgentID,
        turn: TurnID,
        speed: u64,
        now: Duration,
        map: &RoadMap,
        scheduler: &mut Scheduler,
    ) -> (r: bool)
        requires
            old(self).wf(*map),
            map.wf(),
            old(self).holds(turn.parent),
            map.has_turn(turn),
            now <= MAX_TIME,
            !old(self).accepted_at(turn.parent).contains(Request { agent, turn }),
            map.control_of(turn.parent) matches Control::StopSign(sign) ==> sign_priority(
                sign.turns@,
                turn,
            ) != TurnPriority::Banned,
        ensures
            final(self).wf(*map),
            final(self)@.len() == old(self)@.len(),
            forall|k: int|
                0 <= k < old(self)@.len() && k != turn.parent.0 ==> final(self)@[k] == old(self)@[k],
            ({
                let req = Request { agent, turn };
                let i = turn.parent;
                let w = noted(old(self).waiting_at(i), req, now);
                let acc = old(self).accepted_at(i);
                let control = map.control_of(i);
                &&& r == admits(*map, control, acc, w, req, speed as int, now as int)
                &&& r ==> final(self).accepted_at(i) == acc.insert(req) && final(self).waiting_at(i)
                    == w.remove(req)
                &&& !r ==> final(self).accepted_at(i) == acc && final(self).waiting_at(i) == w
                &&& final(scheduler)@ == after_attempt(old(scheduler)@, *map, control, acc, w, req, now)
            }),
    {
        let req = Request { agent, turn };
        let i = turn.parent.0;
        proof {
            assert(self.state@[i as int].id_spec() == turn.parent);
        }
        let allowed = self.state[i].attempt(req, speed, now, map, scheduler);
        proof {
            assert forall|k: int| 0 <= k < self.state@.len() implies (#[trigger] self.state@[k]).id_spec()
                == IntersectionID(k as usize) && self.state@[k].wf(*map) by {
                if k != i {
                    assert(self.state@[k] == old(self).state@[k]);
                }
            }
        }
        allowed
    }

    /// One empty state per intersection of `map`; every signal-controlled intersection is
    /// scheduled for its first re-evaluation.
    pub fn new(map: &RoadMap, scheduler: &mut Scheduler) -> (r: IntersectionSimState)
        requires
            map.wf(),
        ensures
            r.wf(*map),
            r@.len() == map.intersections@.len(),
            forall|k: int|
                0 <= k < r@.len() ==> (#[trigger] r@[k]).accepted_set() == Set::<Request>::empty()
                    && r@[k].waiting_map() == Map::<Request, Duration>::empty(),
            final(scheduler)@ == old(scheduler)@ + signal_ticks(map.intersections@),
    {
        let mut sim = IntersectionSimState { state: Vec::new() };
        let n = map.intersections.len();
        let mut k: usize = 0;
        assert(map.intersections@.take(0) =~= Seq::<crate::map::Intersection>::empty());
        assert(old(scheduler)@ + Seq::<(Duration, Command)>::empty() =~= old(scheduler)@);
        while k < n
            invariant
                map.wf(),
                n == map.intersections@.len(),
                k <= n,
                sim.state@.len() == k,
                forall|j: int|
                    0 <= j < k ==> (#[trigger] sim.state@[j]).id_spec() == IntersectionID(j as usize)
                        && sim.state@[j].wf(*map) && sim.state@[j].accepted_set()
                        == Set::<Request>::empty() && sim.state@[j].waiting_map() == Map::<
                        Request,
                        Duration,
                    >::empty() && sim.state@[j].waiting_order() == Seq::<Request>::empty(),
                scheduler@ == old(scheduler)@ + signal_ticks(map.intersections@.take(k as int)),
            decreases n - k,
        {
            let id = map.intersections[k].id;
            proof {
                assert(map.intersections@[k as int].id.0 == k);
            }
            sim.state.push(State::new(id));
            let ghost before = scheduler@;
            let ghost ints = map.intersections@.take(k + 1);
            assert(ints.drop_last() =~= map.intersections@.take(k as int));
            assert(ints.last() == map.intersections@[k as int]);
            if let Control::TrafficSignal(_) = &map.intersections[k].control {
                sim.update_intersection(0, id, map, scheduler);
                assert(sim.waiting_order_at(id) == Seq::<Request>::empty());
                assert(scheduler@ =~= old(scheduler)@ + signal_ticks(ints));
            } else {
                assert(scheduler@ =~= old(scheduler)@ + signal_ticks(ints));
            }
            k = k + 1;
        }
        assert(map.intersections@.take(n as int) =~= map.intersections@);
        sim
    }

    /// True when no turn in progress at `i` ends on `lane`.
    pub fn nobody_headed_towards(&self, lane: LaneID, i: IntersectionID) -> (r: bool)
        requires
            self.holds(i),
        ensures
            r == !exists|q: Request| self.accepted_at(i).contains(q) && q.turn.dst == lane,
    {
        let st = &self.state[i.0];
        let mut k: usize = 0;
        while k < st.accepted.len()
            invariant
                *st == self@[i.0 as int],
                k <= st.accepted@.len(),
                forall|j: int| 0 <= j < k ==> st.accepted@[j].turn.dst != lane,
            decreases st.accepted@.len() - k,
        {
            if st.accepted[k].turn.dst == lane {
                assert(st.accepted@.contains(st.accepted@[k as int]));
                assert(self.accepted_at(i).contains(st.accepted@[k as int]));
                return false;
            }
            k = k + 1;
        }
        assert forall|q: Request| st.accepted_set().contains(q) implies q.turn.dst != lane by {
            assert(st.accepted@.contains(q));
        }
        true
    }

    /// The agent of `turn` at `turn.parent` has finished it. Every agent waiting there is woken
    /// at `now`, for it may now be able to go.
    pub fn turn_finished(
        &mut self,
        now: Duration,
        agent: AgentID,
        turn: TurnID,
        map: &RoadMap,
        scheduler: &mut Scheduler,
    )
        requires
            old(self).wf(*map),
            old(self).holds(turn.parent),
            old(self).accepted_at(turn.parent).contains(Request { agent, turn }),
        ensures
            final(self).wf(*map),
            final(self)@.len() == old(self)@.len(),
            forall|k: int|
                0 <= k < old(self)@.len() && k != turn.parent.0 ==> final(self)@[k] == old(self)@[k],
            final(self).accepted_at(turn.parent) == old(self).accepted_at(turn.parent).remove(
                Request { agent, turn },
            ),
            final(self).waiting_at(turn.parent) == old(self).waiting_at(turn.parent),
            final(self).waiting_order_at(turn.parent) == old(self).waiting_order_at(turn.parent),
            final(scheduler)@ == wake_all(old(scheduler)@, old(self).waiting_order_at(turn.parent), now),
    {
        let i = turn.parent.0;
        self.state[i].finish(Request { agent, turn }, map);
        proof {
            assert forall|k: int| 0 <= k < self.state@.len() implies (#[trigger] self.state@[k]).id_spec()
                == IntersectionID(k as usize) && self.state@[k].wf(*map) by {
                if k != i {
                    assert(self.state@[k] == old(self).state@[k]);
                }
            }
        }
        // Waking only those that could now go would be less work; waking everyone keeps the
        // outcome the same for every policy.
        self.state[i].wake_waiting(now, scheduler);
    }

    /// Re-evaluates the signal-controlled intersection `id` at `now`: wakes every agent waiting
    /// there and schedules the next re-evaluation at the end of the current cycle.
    pub fn update_intersection(
        &self,
        now: Duration,
        id: IntersectionID,
        map: &RoadMap,
        scheduler: &mut Scheduler,
    )
        requires
            self.holds(id),
            map.wf(),
            id.0 < map.intersections@.len(),
            map.control_of(id) is TrafficSignal,
            now <= MAX_TIME,
        ensures
            ({
                let signal = map.control_of(id)->TrafficSignal_0;
                final(scheduler)@ == wake_all(old(scheduler)@, self.waiting_order_at(id), now).push(
                    (
                        (now + signal.position(now as int).1) as Duration,
                        Command::UpdateIntersection(id),
                    ),
                )
            }),
    {
        let state = &self.state[id.0];
        proof {
            assert(map.intersections@[id.0 as int].id.0 == id.0);
        }
        if let Control::TrafficSignal(signal) = map.control(id) {
            let (_, _, remaining) = signal.current_cycle_and_remaining_time(now);
            state.wake_waiting(now, scheduler);
            scheduler.push(now + remaining, Command::UpdateIntersection(id));
        }
    }

    /// The agents whose turns are in progress at `i`, each once.
    pub fn get_accepted_agents(&self, i: IntersectionID) -> (r: Vec<AgentID>)
        requires
            self.holds(i),
        ensures
            r@.no_duplicates(),
            forall|a: AgentID|
                r@.contains(a) <==> exists|q: Request| self.accepted_at(i).contains(q) && q.agent == a,
    {
        let st = &self.state[i.0];
        let mut agents: Vec<AgentID> = Vec::new();
        let mut k: usize = 0;
        while k < st.accepted.len()
            invariant
                k <= st.accepted@.len(),
                agents@.no_duplicates(),
                forall|a: AgentID|
                    agents@.contains(a) <==> exists|j: int| 0 <= j < k && st.accepted@[j].agent == a,
            decreases st.accepted@.len() - k,
        {
            let a = st.accepted[k].agent;
            let ghost prev = agents@;
            if !contains_agent(&agents, a) {
                agents.push(a);
                proof {
                    assert forall|x: int, y: int|
                        0 <= x < agents@.len() && 0 <= y < agents@.len() && x != y implies agents@[x]
                        != agents@[y] by {
                        if x == prev.len() {
                            assert(agents@[y] == prev[y]);
                            assert(agents@[x] == a);
                            assert(!prev.contains(a));
                            if prev[y] == a {
                                assert(prev.contains(a));
                            }
                        } else if y == prev.len() {
                            assert(agents@[x] == prev[x]);
                            assert(agents@[y] == a);
                            if prev[x] == a {
                                assert(prev.contains(a));
                            }
                        } else {
                            assert(agents@[x] == prev[x] && agents@[y] == prev[y]);
                        }
                    }
                }
            }
            proof {
                assert forall|b: AgentID|
                    agents@.contains(b) <==> exists|j: int|
                        0 <= j < k + 1 && st.accepted@[j].agent == b by {
                    if agents@.contains(b) {
                        let m = choose|m: int| 0 <= m < agents@.len() && agents@[m] == b;
                        if m < prev.len() {
                            assert(prev[m] == b);
                            assert(prev.contains(b));
                        } else {
                            assert(st.accepted@[k as int].agent == b);
                        }
                    }
                    if exists|j: int| 0 <= j < k + 1 && st.accepted@[j].agent == b {
                        let j = choose|j: int| 0 <= j < k + 1 && st.accepted@[j].agent == b;
                        if j < k {
                            assert(prev.contains(b));
                            let m = choose|m: int| 0 <= m < prev.len() && prev[m] == b;
                            assert(agents@[m] == b);
                        } else if prev.contains(b) {
                            let m = choose|m: int| 0 <= m < prev.len() && prev[m] == b;
                            assert(agents@[m] == b);
                        } else {
                            assert(agents@[prev.len() as int] == b);
                        }
                    }
                }
            }
            k = k + 1;
        }
        assert forall|a: AgentID|
            agents@.contains(a) <==> exists|q: Request| self.accepted_at(i).contains(q) && q.agent
                == a by {
            if agents@.contains(a) {
                let j = choose|j: int| 0 <= j < st.accepted@.len() && st.accepted@[j].agent == a;
                assert(st.accepted@.contains(st.accepted@[j]));
                assert(self.accepted_at(i).contains(st.accepted@[j]));
            }
            if exists|q: Request| self.accepted_at(i).contains(q) && q.agent == a {
                let q = choose|q: Request| self.accepted_at(i).contains(q) && q.agent == a;
                assert(st.accepted@.contains(q));
                let j = choose|j: int| 0 <= j < st.accepted@.len() && st.accepted@[j] == q;
                assert(st.accepted@[j].agent == a);
            }
        }
        agents
    }

    /// The number of intersections held.
    pub fn num_intersections(&self) -> (r: usize)
        ensures
            r == self@.len(),
    {
        self.state.len()
    }

    /// The state of intersection `i`, for inspection.
    pub fn debug(&self, i: IntersectionID) -> (r: &State)
        requires
            self.holds(i),
        ensures
            *r == self@[i.0 as int],
    {
        &self.state[i.0]
    }
}

fn contains_agent(v: &Vec<AgentID>, a: AgentID) -> (r: bool)
    ensures
        r == v@.contains(a),
{
    let mut k: usize = 0;
    while k < v.len()
        invariant
            k <= v@.len(),
            forall|j: int| 0 <= j < k ==> v@[j] != a,
        decreases v@.len() - k,
    {
        if v[k] == a {
            return true;
        }
        k = k + 1;
    }
    false
}

/// At every intersection, no two distinct requests in progress have conflicting turns. Every
/// operation keeps `wf`, so this holds at every instant.
pub proof fn lemma_accepted_never_conflict(
    sim: IntersectionSimState,
    map: RoadMap,
    i: IntersectionID,
    r1: Request,
    r2: Request,
)
    requires
        sim.wf(map),
        sim.holds(i),
        sim.accepted_at(i).contains(r1),
        sim.accepted_at(i).contains(r2),
        r1 != r2,
    ensures
        !map.conflicts(r1.turn, r2.turn),
{
    let st = sim.state@[i.0 as int];
    assert(st.wf(map));
    assert(st.accepted@.contains(r1));
    assert(st.accepted@.contains(r2));
    let x = choose|x: int| 0 <= x < st.accepted@.len() && st.accepted@[x] == r1;
    let y = choose|y: int| 0 <= y < st.accepted@.len() && st.accepted@[y] == r2;
    if x < y {
        assert(!map.conflicts(st.accepted@[x].turn, st.accepted@[y].turn));
    } else {
        assert(!map.conflicts(st.accepted@[y].turn, st.accepted@[x].turn));
    }
}

/// No request is both waiting and accepted at an intersection.
pub proof fn lemma_waiting_and_accepted_disjoint(
    sim: IntersectionSimState,
    map: RoadMap,
    i: IntersectionID,
    r: Request,
)
    requires
        sim.wf(map),
        sim.holds(i),
    ensures
        !(sim.accepted_at(i).contains(r) && sim.waiting_at(i).contains_key(r)),
{
    let st = sim.state@[i.0 as int];
    assert(st.wf(map));
    if sim.accepted_at(i).contains(r) && sim.waiting_at(i).contains_key(r) {
        assert(st.accepted@.contains(r));
        let x = choose|x: int| 0 <= x < st.accepted@.len() && st.accepted@[x] == r;
        assert(has_key(st.waiting@, r));
        let y = choose|y: int| 0 <= y < st.waiting@.len() && st.waiting@[y].0 == r;
        assert(st.accepted@[x] != st.waiting@[y].0);
    }
}

} // verus!
