use vstd::prelude::*;

verus! {

/// An intersection of the map; intersections are numbered from zero.
#[derive(Clone, Copy, Debug, PartialEq, Eq, Structural, Hash)]
pub struct IntersectionID(pub usize);

/// A lane of the map.
#[derive(Clone, Copy, Debug, PartialEq, Eq, Structural, Hash)]
pub struct LaneID(pub usize);

/// A movement through the intersection `parent`, from lane `src` to lane `dst`.
#[derive(Clone, Copy, Debug, PartialEq, Eq, Structural, Hash)]
pub struct TurnID {
    pub parent: IntersectionID,
    pub src: LaneID,
    pub dst: LaneID,
}

/// A simulated agent: a car or a pedestrian.
#[derive(Clone, Copy, Debug, PartialEq, Eq, Structural, Hash)]
pub enum AgentID {
    Car(u64),
    Pedestrian(u64),
}

/// One agent's attempt to execute one turn.
#[derive(Clone, Copy, Debug, PartialEq, Eq, Structural, Hash)]
pub struct Request {
    pub agent: AgentID,
    pub turn: TurnID,
}

/// Cars come before pedestrians; within a kind, agents are ordered by number.
pub open spec fn agent_lt(a: AgentID, b: AgentID) -> bool {
    match (a, b) {
        (AgentID::Car(x), AgentID::Car(y)) => x < y,
        (AgentID::Car(_), AgentID::Pedestrian(_)) => true,
        (AgentID::Pedestrian(_), AgentID::Car(_)) => false,
        (AgentID::Pedestrian(x), AgentID::Pedestrian(y)) => x < y,
    }
}

/// Turns are ordered by intersection, then source lane, then destination lane.
pub open spec fn turn_lt(a: TurnID, b: TurnID) -> bool {
    a.parent.0 < b.parent.0 || (a.parent.0 == b.parent.0 && (a.src.0 < b.src.0 || (a.src.0
        == b.src.0 && a.dst.0 < b.dst.0)))
}

/// The total order on requests: by agent, then by turn.
pub open spec fn request_lt(a: Request, b: Request) -> bool {
    agent_lt(a.agent, b.agent) || (a.agent == b.agent && turn_lt(a.turn, b.turn))
}

/// `request_lt` is a strict total order.
pub proof fn lemma_request_order(a: Request, b: Request, c: Request)
    ensures
        !request_lt(a, a),
        request_lt(a, b) && request_lt(b, c) ==> request_lt(a, c),
        a != b ==> (request_lt(a, b) || request_lt(b, a)),
        request_lt(a, b) ==> !request_lt(b, a),
{
}

impl AgentID {
    pub fn precedes(&self, other: &AgentID) -> (r: bool)
        ensures
            r == agent_lt(*self, *other),
    {
        match (self, other) {
            (AgentID::Car(x), AgentID::Car(y)) => *x < *y,
            (AgentID::Car(_), AgentID::Pedestrian(_)) => true,
            (AgentID::Pedestrian(_), AgentID::Car(_)) => false,
            (AgentID::Pedestrian(x), AgentID::Pedestrian(y)) => *x < *y,
        }
    }
}

impl TurnID {
    pub fn precedes(&self, other: &TurnID) -> (r: bool)
        ensures
            r == turn_lt(*self, *other),
    {
        if self.parent.0 != other.parent.0 {
            self.parent.0 < other.parent.0
        } else if self.src.0 != other.src.0 {
            self.src.0 < other.src.0
        } else {
            self.dst.0 < other.dst.0
        }
    }
}

impl Request {
    /// Whether `self` comes strictly before `other` in the order of requests.
    pub fn precedes(&self, other: &Request) -> (r: bool)
        ensures
            r == request_lt(*self, *other),
    {
        if self.agent == other.agent {
            self.turn.precedes(&other.turn)
        } else {
            self.agent.precedes(&other.agent)
        }
    }
}

} // verus!
