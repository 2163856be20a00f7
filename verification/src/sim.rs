//! Driving the simulation to completion, and the guarantees of the whole
//! run: termination, the exact event count, and the shape of the stream.

use vstd::prelude::*;
use crate::event::{cycles_of, idea_text, Event};
use crate::philosopher::Phase;
use crate::table::{event_ok, lemma_ring_forks_distinct, lemma_total_done_const, ConfigError,
    Table};

verus! {

impl Table {
    /// The table `post` is what stepping the actors named by `schedule`,
    /// in order, makes of `pre`.
    pub open spec fn reaches(pre: Table, schedule: Seq<usize>, post: Table) -> bool
        decreases schedule.len(),
    {
        if schedule.len() == 0 {
            post == pre
        } else {
            exists|mid: Table|
                Table::reaches(pre, schedule.drop_last(), mid) && #[trigger] Table::step_spec(
                    mid,
                    schedule.last() as int,
                    post,
                )
        }
    }

    /// Every state reachable by any interleaving from a well-formed table
    /// is itself well formed: mutual exclusion of every fork and the clean
    /// shape of the event stream hold at every instant of any simulation,
    /// with no fairness assumption on the scheduler.
    pub proof fn lemma_reachable_wf(pre: Table, schedule: Seq<usize>, post: Table)
        requires
            pre.wf(),
            pre.events_wf(),
            forall|s: int| 0 <= s < schedule.len() ==> schedule[s] < pre.n(),
            Table::reaches(pre, schedule, post),
        ensures
            post.wf(),
            post.events_wf(),
            post.n() == pre.n(),
        decreases schedule.len(),
    {
        if schedule.len() > 0 {
            let mid = choose|mid: Table|
                Table::reaches(pre, schedule.drop_last(), mid) && #[trigger] Table::step_spec(
                    mid,
                    schedule.last() as int,
                    post,
                );
            Table::lemma_reachable_wf(pre, schedule.drop_last(), mid);
            post.lemma_after_step(mid, schedule.last() as int);
        }
    }

    /// Applies an arbitrary interleaving: one protocol step per schedule
    /// entry, in schedule order. Safety asks for no fairness: whatever the
    /// interleaving, the table stays well formed — so no fork ever has two
    /// holders — the stream stays a clean interleaving of the per-actor
    /// streams, and no event is lost or reordered.
    pub fn run_interleaved(&mut self, schedule: &Vec<usize>)
        requires
            old(self).wf(),
            old(self).events_wf(),
            forall|s: int| 0 <= s < schedule@.len() ==> schedule@[s] < old(self).n(),
        ensures
            final(self).wf(),
            final(self).events_wf(),
            final(self).n() == old(self).n(),
            forall|j: int|
                0 <= j < old(self).n() ==> (#[trigger] final(self).actors@[j]).same_wiring(
                    old(self).actors@[j],
                ),
            old(self).events@.is_prefix_of(final(self).events@),
            Table::reaches(*old(self), schedule@, *final(self)),
    {
        proof {
            assert(schedule@.subrange(0, 0) =~= Seq::<usize>::empty());
        }
        let mut s: usize = 0;
        while s < schedule.len()
            invariant
                self.wf(),
                self.events_wf(),
                self.n() == old(self).n(),
                s <= schedule@.len(),
                Table::reaches(*old(self), schedule@.subrange(0, s as int), *self),
                forall|x: int| 0 <= x < schedule@.len() ==> schedule@[x] < self.n(),
                forall|j: int|
                    0 <= j < self.n() ==> (#[trigger] self.actors@[j]).same_wiring(
                        old(self).actors@[j],
                    ),
                old(self).events@.len() <= self.events@.len(),
                forall|t: int|
                    0 <= t < old(self).events@.len() ==> self.events@[t] == old(
                        self,
                    ).events@[t],
            decreases schedule@.len() - s,
        {
            let ghost mid = *self;
            let ghost done_part = schedule@.subrange(0, s as int);
            let i = schedule[s];
            self.step(i);
            proof {
                let part = schedule@.subrange(0, s as int + 1);
                assert(part.drop_last() =~= done_part);
                assert(part.last() == schedule@[s as int]);
                assert(Table::step_spec(mid, part.last() as int, *self));
                assert(Table::reaches(*old(self), part, *self));
            }
            s = s + 1;
        }
        proof {
            assert(schedule@.subrange(0, schedule@.len() as int) =~= schedule@);
            assert(old(self).events@.is_prefix_of(self.events@)) by {
                assert(old(self).events@ =~= self.events@.subrange(
                    0,
                    old(self).events@.len() as int,
                ));
            }
        }
    }

    /// Runs every actor through all of its remaining cycles, visiting the
    /// actors in ring order. The run terminates: an actor whose turn it is
    /// always finds its forks free, because everyone else is between
    /// cycles and the protocol never lets an idle actor keep a fork.
    pub fn run_to_completion(&mut self)
        requires
            old(self).wf(),
            old(self).events_wf(),
            old(self).quiescent(),
        ensures
            final(self).wf(),
            final(self).events_wf(),
            final(self).all_done(),
            final(self).n() == old(self).n(),
            forall|j: int|
                0 <= j < old(self).n() ==> {
                    &&& (#[trigger] final(self).actors@[j]).same_wiring(old(self).actors@[j])
                    &&& final(self).actors@[j].done == final(self).actors@[j].target
                },
            old(self).events@.is_prefix_of(final(self).events@),
    {
        let n = self.actors.len();
        let mut i: usize = 0;
        while i < n
            invariant
                self.wf(),
                self.events_wf(),
                self.n() == n,
                i <= n,
                forall|j: int| 0 <= j < i ==> (#[trigger] self.actors@[j]).phase == Phase::Done,
                forall|j: int| i <= j < n ==> (#[trigger] self.actors@[j]).holds_none(),
                forall|j: int|
                    0 <= j < n ==> (#[trigger] self.actors@[j]).same_wiring(
                        old(self).actors@[j],
                    ),
                old(self).events@.len() <= self.events@.len(),
                forall|t: int|
                    0 <= t < old(self).events@.len() ==> self.events@[t] == old(
                        self,
                    ).events@[t],
            decreases n - i,
        {
            while !(matches!(self.actors[i].phase, Phase::Done))
                invariant
                    self.wf(),
                    self.events_wf(),
                    self.n() == n,
                    i < n,
                    forall|j: int|
                        0 <= j < i ==> (#[trigger] self.actors@[j]).phase == Phase::Done,
                    forall|j: int| i < j < n ==> (#[trigger] self.actors@[j]).holds_none(),
                    forall|j: int|
                        0 <= j < n ==> (#[trigger] self.actors@[j]).same_wiring(
                            old(self).actors@[j],
                        ),
                    old(self).events@.len() <= self.events@.len(),
                    forall|t: int|
                        0 <= t < old(self).events@.len() ==> self.events@[t] == old(
                            self,
                        ).events@[t],
                decreases self.actors@[i as int].steps_left(),
            {
                proof {
                    let ii = i as int;
                    let a = self.actors@[ii];
                    assert(a.wf(n as int));
                    let al = a.left as int;
                    let ar = a.right as int;
                    lemma_ring_forks_distinct(ii, n as int);
                    assert(self.fork_matches(al));
                    assert(self.fork_matches(ar));
                    // whichever fork the actor reaches for next is free:
                    // its recorded holder would have to be an actor that
                    // holds nothing
                    if a.phase == Phase::Thinking && self.forks@[al] is Some {
                        let h = self.forks@[al]->0 as int;
                        assert(self.actors@[h].holds(al));
                        assert(false);
                    }
                    if a.phase == Phase::HasLeft && self.forks@[ar] is Some {
                        let h = self.forks@[ar]->0 as int;
                        assert(self.actors@[h].holds(ar));
                        assert(false);
                    }
                }
                self.step(i);
            }
            i = i + 1;
        }
        proof {
            assert(old(self).events@.is_prefix_of(self.events@)) by {
                assert(old(self).events@ =~= self.events@.subrange(
                    0,
                    old(self).events@.len() as int,
                ));
            }
        }
    }
}

/// Builds the table from the roster and runs every actor through all of
/// its cycles. For every roster of at least two names and every cycle
/// count, the run terminates and the drained stream holds exactly
/// `names.len() * cycles` events — one per actor per cycle — interleaved
/// so that each actor's own events appear in emission order and carry
/// that actor's thought text. A smaller roster is rejected before any
/// actor runs.
pub fn simulate(names: Vec<String>, cycles: u64) -> (r: Result<Vec<Event>, ConfigError>)
    ensures
        names@.len() < 2 ==> r == Err::<Vec<Event>, ConfigError>(ConfigError::TooFewActors),
        names@.len() >= 2 ==> {
            &&& r is Ok
            &&& r->Ok_0@.len() == names@.len() * cycles
            &&& forall|a: int|
                0 <= a < names@.len() ==> {
                    &&& (#[trigger] cycles_of(r->Ok_0@, a)).len() == cycles
                    &&& forall|c: int| 0 <= c < cycles ==> cycles_of(r->Ok_0@, a)[c] == c
                }
            &&& forall|t: int|
                0 <= t < r->Ok_0@.len() ==> {
                    &&& (#[trigger] r->Ok_0@[t]).actor < names@.len()
                    &&& r->Ok_0@[t].message@ == idea_text(names@[r->Ok_0@[t].actor as int]@)
                }
        },
{
    let ghost names0 = names@;
    let mut t = match Table::new(names, cycles) {
        Ok(t) => t,
        Err(e) => {
            return Err(e);
        },
    };
    let ghost t0 = t;
    t.run_to_completion();
    proof {
        assert forall|j: int|
            0 <= j < names0.len() implies (#[trigger] t.actors@[j]).name == names0[j]
            && t.actors@[j].done == cycles by {
            assert(t0.actors@[j].name == names0[j]);
            assert(t0.actors@[j].target == cycles);
            assert(t.actors@[j].same_wiring(t0.actors@[j]));
            assert(t.actors@[j].done == t.actors@[j].target);
        }
        lemma_total_done_const(t.actors@, cycles);
        assert forall|a: int|
            0 <= a < names0.len() implies (#[trigger] cycles_of(t.events@, a)).len() == cycles
            && (forall|c: int| 0 <= c < cycles ==> cycles_of(t.events@, a)[c] == c) by {
            assert(cycles_of(t.events@, a) == Seq::new(
                t.actors@[a].done as nat,
                |c: int| c as u64,
            ));
        }
        assert forall|w: int|
            0 <= w < t.events@.len() implies (#[trigger] t.events@[w]).actor < names0.len()
            && t.events@[w].message@ == idea_text(names0[t.events@[w].actor as int]@) by {
            assert(event_ok(t.events@[w], t.actors@));
        }
    }
    Ok(t.events)
}

} // verus!
