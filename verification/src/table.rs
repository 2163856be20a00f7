//! The shared table: the ring of forks, the actors around it, and the
//! aggregated event stream, together with the protocol step and the
//! safety lemmas that hold of every reachable state.

use vstd::prelude::*;
use vstd::arithmetic::div_mod::{lemma_mod_self_0, lemma_small_mod};
use crate::event::{cycles_of, idea_text, lemma_cycles_of_push, Event};
use crate::philosopher::{Phase, Philosopher};

verus! {

/// Rejected configurations, detected before any actor runs.
#[derive(Clone, Copy, Debug, PartialEq, Eq, Structural)]
pub enum ConfigError {
    TooFewActors,
}

/// Index of the left fork of the actor at position `i` in a ring of `n`.
pub fn left_fork_index(i: usize, n: usize) -> (r: usize)
    requires
        i < n,
    ensures
        r == i,
{
    i
}

/// Index of the right fork of the actor at position `i` in a ring of `n`.
pub fn right_fork_index(i: usize, n: usize) -> (r: usize)
    requires
        i < n,
    ensures
        r == (i + 1) % (n as int),
        r < n,
{
    proof {
        if i + 1 < n {
            lemma_small_mod((i + 1) as nat, n as nat);
        } else {
            lemma_mod_self_0(n as int);
        }
    }
    (i + 1) % n
}

/// An actor's two forks are two distinct cells whenever the ring has at
/// least two forks.
pub proof fn lemma_ring_forks_distinct(i: int, n: int)
    requires
        0 <= i < n,
        n >= 2,
    ensures
        (i + 1) % n != i,
{
    if i + 1 < n {
        lemma_small_mod((i + 1) as nat, n as nat);
    } else {
        lemma_mod_self_0(n);
    }
}

/// The event carried by the stream names an actor of the ring and holds
/// that actor's thought text.
pub open spec fn event_ok(e: Event, actors: Seq<Philosopher>) -> bool {
    &&& e.actor < actors.len()
    &&& e.message@ == idea_text(actors[e.actor as int].name@)
}

/// How many cycles the actors have completed in total.
pub open spec fn total_done(s: Seq<Philosopher>) -> int
    decreases s.len(),
{
    if s.len() == 0 {
        0
    } else {
        total_done(s.drop_last()) + s.last().done
    }
}

pub proof fn lemma_total_done_push(s: Seq<Philosopher>, p: Philosopher)
    ensures
        total_done(s.push(p)) == total_done(s) + p.done,
{
    assert(s.push(p).drop_last() =~= s);
}

pub proof fn lemma_total_done_update(s: Seq<Philosopher>, j: int, p: Philosopher)
    requires
        0 <= j < s.len(),
    ensures
        total_done(s.update(j, p)) == total_done(s) - s[j].done + p.done,
    decreases s.len(),
{
    if j == s.len() - 1 {
        assert(s.update(j, p).drop_last() =~= s.drop_last());
        assert(s.update(j, p).last() == p);
    } else {
        assert(s.update(j, p).drop_last() =~= s.drop_last().update(j, p));
        assert(s.update(j, p).last() == s.last());
        lemma_total_done_update(s.drop_last(), j, p);
    }
}

pub proof fn lemma_total_done_const(s: Seq<Philosopher>, c: u64)
    requires
        forall|j: int| 0 <= j < s.len() ==> #[trigger] s[j].done == c,
    ensures
        total_done(s) == s.len() * c,
    decreases s.len(),
{
    if s.len() == 0 {
    } else {
        lemma_total_done_const(s.drop_last(), c);
        assert((s.len() as int) * (c as int) == (s.len() as int - 1) * (c as int) + (c as int))
            by (nonlinear_arith);
    }
}

/// The whole simulation state: the actors, one holder record per fork,
/// and the aggregated event stream in arrival order.
pub struct Table {
    pub actors: Vec<Philosopher>,
    pub forks: Vec<Option<usize>>,
    pub events: Vec<Event>,
}

impl Table {
    /// The number of actors, which is also the number of forks.
    pub open spec fn n(self) -> int {
        self.actors.len() as int
    }

    /// The fork record agrees with the actors on who holds fork `k`.
    /// A fork is a single cell: it can name at most one holder.
    pub open spec fn fork_matches(self, k: int) -> bool {
        &&& (self.forks@[k] is Some ==> 0 <= self.forks@[k]->0 < self.n())
        &&& forall|j: int|
            0 <= j < self.n() ==> ((#[trigger] self.actors@[j].holds(k)) <==> self.forks@[k]
                == Some(j as usize))
    }

    /// Well-formedness: a ring of at least two actors, one fork between
    /// each pair of neighbours, and a truthful holder record.
    pub open spec fn wf(self) -> bool {
        &&& self.n() >= 2
        &&& self.forks@.len() == self.n()
        &&& forall|j: int|
            0 <= j < self.n() ==> (#[trigger] self.actors@[j]).wf(self.n()) && self.actors@[j].idx
                == j
        &&& forall|k: int| 0 <= k < self.n() ==> #[trigger] self.fork_matches(k)
    }

    /// The aggregated stream is a clean interleaving of per-actor streams:
    /// its length is the total number of completed cycles, actor `a` has
    /// contributed exactly the cycles `0 .. done` in emission order, and
    /// every event names an actor of the ring and carries its text.
    pub open spec fn events_wf(self) -> bool {
        &&& self.events@.len() == total_done(self.actors@)
        &&& forall|a: int|
            0 <= a < self.n() ==> #[trigger] cycles_of(self.events@, a) == Seq::new(
                self.actors@[a].done as nat,
                |c: int| c as u64,
            )
        &&& forall|t: int|
            0 <= t < self.events@.len() ==> #[trigger] event_ok(self.events@[t], self.actors@)
    }

    /// No actor holds any fork.
    pub open spec fn quiescent(self) -> bool {
        forall|j: int| 0 <= j < self.n() ==> (#[trigger] self.actors@[j]).holds_none()
    }

    /// Every actor has completed all its cycles.
    pub open spec fn all_done(self) -> bool {
        forall|j: int| 0 <= j < self.n() ==> (#[trigger] self.actors@[j]).phase == Phase::Done
    }

    /// Mutual exclusion: at no reachable instant do two actors hold the
    /// same fork.
    pub proof fn lemma_mutual_exclusion(self, i: int, j: int, k: int)
        requires
            self.wf(),
            0 <= i < self.n(),
            0 <= j < self.n(),
            0 <= k < self.n(),
            self.actors@[i].holds(k),
            self.actors@[j].holds(k),
        ensures
            i == j,
    {
        assert(self.fork_matches(k));
    }

    /// Per-actor order preservation: actor `a`'s own events, filtered out
    /// of the interleaved stream in arrival order, carry its cycle numbers
    /// `0, 1, ...` in exactly the order they were produced.
    pub proof fn lemma_per_actor_order(self, a: int)
        requires
            self.wf(),
            self.events_wf(),
            0 <= a < self.n(),
        ensures
            cycles_of(self.events@, a).len() == self.actors@[a].done,
            forall|c: int| 0 <= c < self.actors@[a].done ==> cycles_of(self.events@, a)[c] == c,
    {
    }

    /// No partial hold outlives one step of its holder: an actor holding
    /// exactly one fork either completes the acquisition and eats, or
    /// releases that fork before backing off — it never carries the
    /// partial hold into a retry. Steps of other actors leave what it
    /// holds untouched.
    pub proof fn lemma_partial_hold_resolved(pre: Table, i: int, post: Table)
        requires
            pre.wf(),
            0 <= i < pre.n(),
            pre.actors@[i].phase == Phase::HasLeft,
            Table::step_spec(pre, i, post),
        ensures
            post.actors@[i].phase == Phase::Eating || post.actors@[i].phase
                == Phase::Thinking,
            post.actors@[i].phase == Phase::Thinking ==> post.actors@[i].holds_none(),
    {
    }

    /// Builds the initial table: one actor per name arranged in a ring,
    /// every fork free, no event emitted yet. A roster of fewer than two
    /// actors has no meaningful ring adjacency and is rejected.
    pub fn new(names: Vec<String>, cycles: u64) -> (r: Result<Table, ConfigError>)
        ensures
            names@.len() < 2 ==> r == Err::<Table, ConfigError>(ConfigError::TooFewActors),
            names@.len() >= 2 ==> {
                &&& r is Ok
                &&& r->Ok_0.wf()
                &&& r->Ok_0.events_wf()
                &&& r->Ok_0.quiescent()
                &&& r->Ok_0.n() == names@.len()
                &&& r->Ok_0.events@.len() == 0
                &&& forall|j: int|
                    0 <= j < names@.len() ==> {
                        &&& (#[trigger] r->Ok_0.actors@[j]).name == names@[j]
                        &&& r->Ok_0.actors@[j].target == cycles
                        &&& r->Ok_0.actors@[j].done == 0
                    }
            },
    {
        let n = names.len();
        if n < 2 {
            return Err(ConfigError::TooFewActors);
        }
        let mut actors: Vec<Philosopher> = Vec::new();
        let mut forks: Vec<Option<usize>> = Vec::new();
        let mut i: usize = 0;
        while i < n
            invariant
                2 <= n,
                n == names@.len(),
                i <= n,
                actors@.len() == i,
                forks@.len() == i,
                total_done(actors@) == 0,
                forall|j: int|
                    0 <= j < i ==> {
                        &&& (#[trigger] actors@[j]).idx == j
                        &&& actors@[j].left == j
                        &&& actors@[j].right == (j + 1) % (n as int)
                        &&& actors@[j].target == cycles
                        &&& actors@[j].done == 0
                        &&& actors@[j].name == names@[j]
                        &&& actors@[j].holds_none()
                        &&& (actors@[j].phase == Phase::Done <==> cycles == 0)
                        &&& actors@[j].phase != Phase::HasLeft
                        &&& actors@[j].phase != Phase::Eating
                    },
                forall|k: int| 0 <= k < i ==> (#[trigger] forks@[k]) is None,
            decreases n - i,
        {
            let phase = if cycles == 0 {
                Phase::Done
            } else {
                Phase::Thinking
            };
            let name = names[i].clone();
            let right = right_fork_index(i, n);
            let ghost prev = actors@;
            let p = Philosopher { name, idx: i, left: i, right, target: cycles, done: 0, phase };
            proof {
                lemma_total_done_push(prev, p);
            }
            actors.push(p);
            forks.push(None);
            i = i + 1;
        }
        let t = Table { actors, forks, events: Vec::new() };
        proof {
            assert forall|k: int| 0 <= k < t.n() implies #[trigger] t.fork_matches(k) by {
                assert(t.forks@[k] is None);
            }
            assert forall|a: int|
                0 <= a < t.n() implies #[trigger] cycles_of(t.events@, a) == Seq::new(
                t.actors@[a].done as nat,
                |c: int| c as u64,
            ) by {
                assert(cycles_of(t.events@, a) =~= Seq::new(0nat, |c: int| c as u64));
            }
        }
        Ok(t)
    }

    /// What one protocol step of the actor at position `i` does to the
    /// table. Actors other than `i` and forks other than `i`'s are never
    /// touched.
    pub open spec fn step_spec(pre: Table, i: int, post: Table) -> bool {
        let a = pre.actors@[i];
        &&& post.actors@.len() == pre.actors@.len()
        &&& post.forks@.len() == pre.forks@.len()
        &&& forall|j: int| 0 <= j < pre.n() && j != i ==> post.actors@[j] == pre.actors@[j]
        &&& post.actors@[i].same_wiring(a)
        &&& match a.phase {
            Phase::Done => post == pre,
            Phase::Thinking => if pre.forks@[a.left as int] is None {
                // the left fork was free: pick it up
                &&& post.forks@ == pre.forks@.update(a.left as int, Some(a.idx))
                &&& post.actors@[i].phase == Phase::HasLeft
                &&& post.actors@[i].done == a.done
                &&& post.events == pre.events
            } else {
                // contention: back off without holding anything
                post == pre
            },
            Phase::HasLeft => {
                &&& post.events == pre.events
                &&& post.actors@[i].done == a.done
                &&& if pre.forks@[a.right as int] is None {
                    // the right fork was free too: start eating
                    &&& post.forks@ == pre.forks@.update(a.right as int, Some(a.idx))
                    &&& post.actors@[i].phase == Phase::Eating
                } else {
                    // the right fork is taken: release the left one before
                    // backing off, never carry a partial hold into a retry
                    &&& post.forks@ == pre.forks@.update(a.left as int, None::<usize>)
                    &&& post.actors@[i].phase == Phase::Thinking
                }
            },
            Phase::Eating => {
                // put both forks down, then emit the thought of this cycle
                &&& post.forks@ == pre.forks@.update(a.left as int, None::<usize>).update(
                    a.right as int,
                    None::<usize>,
                )
                &&& post.actors@[i].done == a.done + 1
                &&& post.actors@[i].phase == (if a.done + 1 == a.target {
                    Phase::Done
                } else {
                    Phase::Thinking
                })
                &&& post.events@ == pre.events@.push(post.events@.last())
                &&& post.events@.last().actor == a.idx
                &&& post.events@.last().cycle == a.done
                &&& post.events@.last().message@ == idea_text(a.name@)
            },
        }
    }

    /// One protocol step of the actor at position `i`: a non-blocking fork
    /// attempt, a release-and-back-off, or the completion of a meal with
    /// the emission of its event. The step never blocks: whatever the fork
    /// record holds, the actor has a move.
    pub fn step(&mut self, i: usize)
        requires
            old(self).wf(),
            old(self).events_wf(),
            i < old(self).n(),
        ensures
            final(self).wf(),
            final(self).events_wf(),
            Table::step_spec(*old(self), i as int, *final(self)),
    {
        let n = self.actors.len();
        let left = self.actors[i].left;
        let right = self.actors[i].right;
        let phase = self.actors[i].phase;
        proof {
            assert(old(self).actors@[i as int].wf(old(self).n()));
            lemma_ring_forks_distinct(i as int, n as int);
        }
        match phase {
            Phase::Done => {},
            Phase::Thinking => {
                if self.forks[left].is_none() {
                    let idx = self.actors[i].idx;
                    self.forks[left] = Some(idx);
                    self.actors[i].phase = Phase::HasLeft;
                    proof {
                        self.lemma_after_step(*old(self), i as int);
                    }
                }
            },
            Phase::HasLeft => {
                if self.forks[right].is_none() {
                    let idx = self.actors[i].idx;
                    self.forks[right] = Some(idx);
                    self.actors[i].phase = Phase::Eating;
                    proof {
                        self.lemma_after_step(*old(self), i as int);
                    }
                } else {
                    self.forks[left] = None;
                    self.actors[i].phase = Phase::Thinking;
                    proof {
                        self.lemma_after_step(*old(self), i as int);
                    }
                }
            },
            Phase::Eating => {
                self.forks[left] = None;
                self.forks[right] = None;
                self.actors[i].think(&mut self.events);
                let done = self.actors[i].done;
                let target = self.actors[i].target;
                self.actors[i].done = done + 1;
                self.actors[i].phase = if done + 1 == target {
                    Phase::Done
                } else {
                    Phase::Thinking
                };
                proof {
                    self.lemma_after_step(*old(self), i as int);
                }
            },
        }
    }

    /// Re-establishes the invariants after the state change of one step.
    pub(crate) proof fn lemma_after_step(self, pre: Table, i: int)
        requires
            pre.wf(),
            pre.events_wf(),
            0 <= i < pre.n(),
            Table::step_spec(pre, i, self),
        ensures
            self.wf(),
            self.events_wf(),
    {
        let n = pre.n();
        let a = pre.actors@[i];
        lemma_ring_forks_distinct(i, n);
        if a.phase == Phase::Done || (a.phase == Phase::Thinking && !(pre.forks@[a.left as int]
            is None)) {
            // nothing changed
            assert(self == pre);
        } else {
            assert forall|j: int| 0 <= j < n implies (#[trigger] self.actors@[j]).wf(n)
                && self.actors@[j].idx == j by {
                assert(pre.actors@[j].wf(n));
            }
            let al = a.left as int;
            let ar = a.right as int;
            assert(a.idx == i && al == i && ar == (i + 1) % n && al != ar);
            assert forall|k: int| 0 <= k < n implies #[trigger] self.fork_matches(k) by {
                assert(pre.fork_matches(k));
                assert(pre.fork_matches(al));
                assert(pre.fork_matches(ar));
                assert forall|j: int|
                    0 <= j < n implies ((#[trigger] self.actors@[j].holds(k))
                    <==> self.forks@[k] == Some(j as usize)) by {
                    assert(pre.actors@[j].idx == j);
                    assert(pre.actors@[j].holds(k) <==> pre.forks@[k] == Some(j as usize));
                    assert(pre.actors@[j].holds(al) <==> pre.forks@[al] == Some(j as usize));
                    assert(pre.actors@[j].holds(ar) <==> pre.forks@[ar] == Some(j as usize));
                    if j != i {
                        assert(self.actors@[j] == pre.actors@[j]);
                    }
                    if a.phase == Phase::HasLeft || a.phase == Phase::Eating {
                        // the stepping actor is the recorded holder of its
                        // left fork, and of its right one while eating
                        assert(pre.actors@[i].holds(al));
                        assert(pre.forks@[al] == Some(a.idx));
                        if a.phase == Phase::Eating {
                            assert(pre.actors@[i].holds(ar));
                            assert(pre.forks@[ar] == Some(a.idx));
                        }
                    }
                }
            }
            self.lemma_events_after_step(pre, i);
        }
    }

    /// The event-stream invariant survives one step.
    proof fn lemma_events_after_step(self, pre: Table, i: int)
        requires
            pre.wf(),
            pre.events_wf(),
            0 <= i < pre.n(),
            Table::step_spec(pre, i, self),
            self.actors@.len() == pre.actors@.len(),
        ensures
            self.events_wf(),
    {
        let n = pre.n();
        let a = pre.actors@[i];
        lemma_total_done_update(pre.actors@, i, self.actors@[i]);
        assert(self.actors@ =~= pre.actors@.update(i, self.actors@[i]));
        if a.phase == Phase::Eating {
            let e = self.events@.last();
            assert(self.events@ == pre.events@.push(e));
            assert forall|b: int|
                0 <= b < n implies #[trigger] cycles_of(self.events@, b) == Seq::new(
                self.actors@[b].done as nat,
                |c: int| c as u64,
            ) by {
                lemma_cycles_of_push(pre.events@, e, b);
                if b == i {
                    assert(Seq::new((a.done + 1) as nat, |c: int| c as u64) =~= Seq::new(
                        a.done as nat,
                        |c: int| c as u64,
                    ).push(a.done));
                } else {
                    assert(self.actors@[b] == pre.actors@[b]);
                }
            }
            assert forall|t: int|
                0 <= t < self.events@.len() implies #[trigger] event_ok(
                self.events@[t],
                self.actors@,
            ) by {
                if t < pre.events@.len() {
                    assert(event_ok(pre.events@[t], pre.actors@));
                    assert(self.events@[t] == pre.events@[t]);
                } else {
                    assert(self.events@[t] == e);
                }
                let who = self.events@[t].actor as int;
                assert(self.actors@[who].name == pre.actors@[who].name);
            }
        } else {
            assert(self.events@ == pre.events@);
            assert(self.actors@[i].done == a.done);
            assert forall|b: int|
                0 <= b < n implies #[trigger] cycles_of(self.events@, b) == Seq::new(
                self.actors@[b].done as nat,
                |c: int| c as u64,
            ) by {
                assert(cycles_of(pre.events@, b) == Seq::new(
                    pre.actors@[b].done as nat,
                    |c: int| c as u64,
                ));
                assert(self.actors@[b].done == pre.actors@[b].done);
            }
            assert forall|t: int|
                0 <= t < self.events@.len() implies #[trigger] event_ok(
                self.events@[t],
                self.actors@,
            ) by {
                assert(event_ok(pre.events@[t], pre.actors@));
                let who = self.events@[t].actor as int;
                assert(self.actors@[who].name == pre.actors@[who].name);
            }
        }
    }
}

} // verus!
