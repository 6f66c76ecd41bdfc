use vstd::prelude::*;
use crate::ids::{AgentID, IntersectionID};
use crate::map::Duration;

verus! {

/// What an event asks for when it comes due.
#[derive(Clone, Copy, Debug, PartialEq, Eq, Structural, Hash)]
pub enum Command {
    /// Let the agent try again to start its turn.
    UpdateAgent(AgentID),
    /// Re-evaluate a signal-controlled intersection at a cycle boundary.
    UpdateIntersection(IntersectionID),
}

impl Command {
    pub fn update_agent(agent: AgentID) -> (r: Command)
        ensures
            r == Command::UpdateAgent(agent),
    {
        Command::UpdateAgent(agent)
    }
}

/// The events that are pending, each an instant and a command, in the order they were given.
#[derive(Clone, Debug)]
pub struct Scheduler {
    events: Vec<(Duration, Command)>,
}

/// The events after `update(time, cmd)`: every pending event for `cmd` moves to `time`; where
/// none was pending, one is added.
pub open spec fn rescheduled(s: Seq<(Duration, Command)>, time: Duration, cmd: Command) -> Seq<
    (Duration, Command),
> {
    if exists|k: int| 0 <= k < s.len() && s[k].1 == cmd {
        s.map_values(|e: (Duration, Command)| if e.1 == cmd { (time, cmd) } else { e })
    } else {
        s.push((time, cmd))
    }
}

impl View for Scheduler {
    type V = Seq<(Duration, Command)>;

    closed spec fn view(&self) -> Seq<(Duration, Command)> {
        self.events@
    }
}

impl Scheduler {
    pub fn new() -> (r: Scheduler)
        ensures
            r@ == Seq::<(Duration, Command)>::empty(),
    {
        Scheduler { events: Vec::new() }
    }

    /// The pending events.
    pub fn events(&self) -> (r: &Vec<(Duration, Command)>)
        ensures
            r@ == self@,
    {
        &self.events
    }

    /// Adds an event, whatever else is pending.
    pub fn push(&mut self, time: Duration, cmd: Command)
        ensures
            final(self)@ == old(self)@.push((time, cmd)),
    {
        self.events.push((time, cmd));
    }

    /// Schedules `cmd` at `time` without delivering it twice: a pending event for the same
    /// command is moved rather than repeated.
    pub fn update(&mut self, time: Duration, cmd: Command)
        ensures
            final(self)@ == rescheduled(old(self)@, time, cmd),
    {
        let ghost s = self.events@;
        let n = self.events.len();
        let mut found = false;
        let mut k: usize = 0;
        while k < n
            invariant
                n == s.len(),
                self.events@.len() == n,
                k <= n,
                found == exists|j: int| 0 <= j < k && s[j].1 == cmd,
                forall|j: int|
                    0 <= j < k ==> self.events@[j] == (if s[j].1 == cmd {
                        (time, cmd)
                    } else {
                        s[j]
                    }),
                forall|j: int| k <= j < n ==> self.events@[j] == s[j],
            decreases n - k,
        {
            if self.events[k].1 == cmd {
                self.events.set(k, (time, cmd));
                found = true;
            }
            k = k + 1;
        }
        if !found {
            self.events.push((time, cmd));
        } else {
            assert(self.events@ =~= s.map_values(
                |e: (Duration, Command)| if e.1 == cmd { (time, cmd) } else { e },
            ));
        }
    }
}

} // verus!
