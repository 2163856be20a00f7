//! A single actor: its lifecycle phase, the two forks it is wired to, and
//! the event it emits once per completed cycle.

use vstd::prelude::*;
use crate::event::{idea_text, idea_message, Event};

verus! {

/// Where an actor stands in its think/eat cycle.
///
/// `Thinking` and `Done` hold no fork; `HasLeft` holds exactly the left
/// fork, pending the attempt on the right one; `Eating` holds both.
#[derive(Clone, Copy, Debug, PartialEq, Eq, Structural)]
pub enum Phase {
    Thinking,
    HasLeft,
    Eating,
    Done,
}

/// One actor of the ring.
///
/// `idx` is its position, `left` and `right` the indices of its two forks
/// (assigned at construction, never changed), `target` the configured
/// number of cycles, `done` how many it has completed.
#[derive(Debug)]
pub struct Philosopher {
    pub name: String,
    pub idx: usize,
    pub left: usize,
    pub right: usize,
    pub target: u64,
    pub done: u64,
    pub phase: Phase,
}

impl Philosopher {
    /// Well-formedness of one actor within a ring of `n` forks.
    pub open spec fn wf(self, n: int) -> bool {
        &&& 0 <= self.idx < n
        &&& self.left == self.idx
        &&& self.right == (self.idx + 1) % n
        &&& self.done <= self.target
        &&& (self.phase == Phase::Done <==> self.done == self.target)
    }

    /// Whether this actor currently holds fork `k`.
    pub open spec fn holds(self, k: int) -> bool {
        ||| self.phase == Phase::HasLeft && k == self.left
        ||| self.phase == Phase::Eating && (k == self.left || k == self.right)
    }

    /// Whether this actor holds no fork at all.
    pub open spec fn holds_none(self) -> bool {
        self.phase == Phase::Thinking || self.phase == Phase::Done
    }

    /// Everything about an actor except its cycle progress and phase.
    pub open spec fn same_wiring(self, other: Philosopher) -> bool {
        &&& self.name == other.name
        &&& self.idx == other.idx
        &&& self.left == other.left
        &&& self.right == other.right
        &&& self.target == other.target
    }

    /// Emits this actor's thought for the cycle it just completed.
    pub fn think(&self, events: &mut Vec<Event>)
        ensures
            final(events)@.len() == old(events)@.len() + 1,
            final(events)@ == old(events)@.push(final(events)@.last()),
            final(events)@.last().actor == self.idx,
            final(events)@.last().cycle == self.done,
            final(events)@.last().message@ == idea_text(self.name@),
    {
        let message = idea_message(self.name.as_str());
        events.push(Event { actor: self.idx, cycle: self.done, message });
        proof {
            assert(events@ == old(events)@.push(events@.last()));
        }
    }

    /// How many steps of its own this actor still needs before it is done,
    /// when every attempt succeeds.
    pub open spec fn steps_left(self) -> int {
        match self.phase {
            Phase::Done => 0,
            Phase::Thinking => 3 * (self.target - self.done),
            Phase::HasLeft => 3 * (self.target - self.done) - 1,
            Phase::Eating => 3 * (self.target - self.done) - 2,
        }
    }
}

} // verus!
