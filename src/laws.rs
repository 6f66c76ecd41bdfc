use vstd::prelude::*;
use crate::ids::Request;
use crate::intersection::{
    blocks_at_stop_sign, conflicts_with_set, freeform_allows, preempted_in_cycle, signal_allows,
    stop_sign_allows, WAIT_AT_STOP_SIGN,
};
use crate::map::{cycle_priority, sign_priority, ControlStopSign, ControlTrafficSignal, Duration, RoadMap, TurnPriority};

verus! {

/// Among two conflicting stop-controlled requests whose dwells are over, the one made first is
/// not held back by the other, and, when nothing in progress stands in its way, the later one
/// is denied.
pub proof fn lemma_stop_sign_first_come_first_served(
    map: RoadMap,
    sign: ControlStopSign,
    acc: Set<Request>,
    w: Map<Request, Duration>,
    r1: Request,
    r2: Request,
    now: int,
)
    requires
        w.contains_key(r1),
        w.contains_key(r2),
        map.conflicts(r1.turn, r2.turn),
        sign_priority(sign.turns@, r1.turn) == TurnPriority::Stop,
        sign_priority(sign.turns@, r2.turn) == TurnPriority::Stop,
        w[r1] < w[r2],
        now >= w[r2] + WAIT_AT_STOP_SIGN,
        !conflicts_with_set(map, acc, r1.turn),
    ensures
        !stop_sign_allows(map, sign, acc, w, r2, now),
        !blocks_at_stop_sign(map, sign, acc, w, r1, r2, now),
{
    assert(blocks_at_stop_sign(map, sign, acc, w, r2, r1, now));
}

/// A stop-controlled request made at `t0` is denied at every instant before `t0` plus the
/// dwell, and from then on admitted when nothing in progress or waiting conflicts with it.
pub proof fn lemma_stop_sign_dwell(
    map: RoadMap,
    sign: ControlStopSign,
    acc: Set<Request>,
    w: Map<Request, Duration>,
    req: Request,
    now: int,
)
    requires
        w.contains_key(req),
        sign_priority(sign.turns@, req.turn) == TurnPriority::Stop,
    ensures
        now < w[req] + WAIT_AT_STOP_SIGN ==> !stop_sign_allows(map, sign, acc, w, req, now),
        now >= w[req] + WAIT_AT_STOP_SIGN && !conflicts_with_set(map, acc, req.turn) && (forall|
            r: Request,
        | w.contains_key(r) && r != req ==> !map.conflicts(req.turn, r.turn)) ==> stop_sign_allows(
            map,
            sign,
            acc,
            w,
            req,
            now,
        ),
{
}

/// With the turn allowed in the current cycle, nothing in progress in its way and no yield to
/// make, a signal admits it exactly when length / speed is at most the time left in the cycle.
pub proof fn lemma_signal_feasibility(
    map: RoadMap,
    signal: ControlTrafficSignal,
    acc: Set<Request>,
    w: Map<Request, Duration>,
    req: Request,
    speed: int,
    now: int,
)
    requires
        ({
            let cycle = signal.cycles@[signal.position(now).0];
            let p = cycle_priority(cycle, req.turn);
            &&& p != TurnPriority::Banned
            &&& !conflicts_with_set(map, acc, req.turn)
            &&& !(p == TurnPriority::Yield && preempted_in_cycle(map, cycle, w, req))
        }),
    ensures
        signal_allows(map, signal, acc, w, req, speed, now) <==> map.turn_length(req.turn) * 1000
            <= signal.position(now).1 * speed,
{
}

/// A yield movement is denied while a conflicting movement with priority in the same cycle is
/// waiting, whichever was requested first.
pub proof fn lemma_signal_priority_preempts_yield(
    map: RoadMap,
    signal: ControlTrafficSignal,
    acc: Set<Request>,
    w: Map<Request, Duration>,
    req: Request,
    other: Request,
    speed: int,
    now: int,
)
    requires
        cycle_priority(signal.cycles@[signal.position(now).0], req.turn) == TurnPriority::Yield,
        cycle_priority(signal.cycles@[signal.position(now).0], other.turn)
            == TurnPriority::Priority,
        w.contains_key(other),
        map.conflicts(req.turn, other.turn),
    ensures
        !signal_allows(map, signal, acc, w, req, speed, now),
{
    assert(preempted_in_cycle(map, signal.cycles@[signal.position(now).0], w, req));
}

/// At an uncontrolled intersection, two requests whose turns do not conflict with each other
/// nor with any turn in progress are both admitted, in either order.
pub proof fn lemma_freeform_independent(map: RoadMap, acc: Set<Request>, r1: Request, r2: Request)
    requires
        !conflicts_with_set(map, acc, r1.turn),
        !conflicts_with_set(map, acc, r2.turn),
        !map.conflicts(r1.turn, r2.turn),
    ensures
        freeform_allows(map, acc, r1),
        freeform_allows(map, acc.insert(r1), r2),
        freeform_allows(map, acc, r2),
        freeform_allows(map, acc.insert(r2), r1),
{
    assert forall|r: Request| acc.insert(r1).contains(r) implies !map.conflicts(r.turn, r2.turn) by {
        if r != r1 {
            assert(acc.contains(r));
        }
    }
    assert forall|r: Request| acc.insert(r2).contains(r) implies !map.conflicts(r.turn, r1.turn) by {
        if r != r2 {
            assert(acc.contains(r));
        }
    }
}

} // verus!
