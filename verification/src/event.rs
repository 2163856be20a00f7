//! Events emitted by actors and the shape of the aggregated stream.

use vstd::prelude::*;
use vstd::string::StringExecFns;

verus! {

/// One record produced by exactly one actor at one point of its lifecycle.
///
/// `actor` is the emitter's position in the ring, `cycle` the number of
/// think/eat cycles the emitter had completed when the event was produced,
/// and `message` the human-readable text of the thought.
#[derive(Debug)]
pub struct Event {
    pub actor: usize,
    pub cycle: u64,
    pub message: String,
}

/// The text an actor named `name` emits when it has an idea.
pub open spec fn idea_text(name: Seq<char>) -> Seq<char> {
    "Eureka! "@ + name + " has a new idea!"@
}

/// Builds the thought message for an actor named `name`.
pub fn idea_message(name: &str) -> (r: String)
    ensures
        r@ == idea_text(name@),
{
    let s = String::from_str("Eureka! ");
    let s = s.concat(name);
    s.concat(" has a new idea!")
}

/// The cycle numbers of actor `a`'s own events, read off the aggregated
/// stream in arrival order.
pub open spec fn cycles_of(events: Seq<Event>, a: int) -> Seq<u64>
    decreases events.len(),
{
    if events.len() == 0 {
        Seq::empty()
    } else {
        let rest = cycles_of(events.drop_last(), a);
        if events.last().actor as int == a {
            rest.push(events.last().cycle)
        } else {
            rest
        }
    }
}

/// Appending one event extends exactly its emitter's cycle sequence.
pub proof fn lemma_cycles_of_push(events: Seq<Event>, e: Event, a: int)
    ensures
        cycles_of(events.push(e), a) == (if e.actor as int == a {
            cycles_of(events, a).push(e.cycle)
        } else {
            cycles_of(events, a)
        }),
{
    assert(events.push(e).drop_last() =~= events);
    assert(events.push(e).last() == e);
}

} // verus!
