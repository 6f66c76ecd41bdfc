//! Admission control for the intersections of a traffic simulation: which agent may start
//! which turn, and when the ones that must wait are woken again.
pub mod ids;
pub mod intersection;
pub mod laws;
pub mod map;
pub mod scheduler;

pub use ids::{AgentID, IntersectionID, LaneID, Request, TurnID};
pub use intersection::{IntersectionSimState, State, WAIT_AT_STOP_SIGN};
pub use map::{
    Control, ControlStopSign, ControlTrafficSignal, Cycle, Duration, Intersection, RoadMap, Turn,
    TurnPriority, MAX_TIME,
};
pub use scheduler::{Command, Scheduler};
