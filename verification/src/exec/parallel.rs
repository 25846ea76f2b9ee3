use std::collections::VecDeque;
use std::hash::Hash;
use std::sync::Arc;
use vstd::prelude::*;

use crate::error::ExecError;
use crate::exec::common::{
    arc_clone, build_kahn_metadata, collect_remaining, mark_needed, release_dependents, released, seed_ready,
};
use crate::exec::counting::{
    count_pending, count_true, lemma_count_pending_empty, lemma_count_pending_push, lemma_count_pending_zero,
    lemma_count_true_le, lemma_count_true_update, lemma_unresolved_empty, lemma_unresolved_push, lemma_unresolved_zero, occ, unresolved,
};
use crate::exec::kahn::{dependents_ok, indeg_ok, lemma_complete_node, lemma_unresolved_not_done};
use crate::exec::observe::{started_ids, finish_before, lemma_finish_before_extend, start_before, ExecObserver, ObsEvent};
use crate::exec::outcome::{
    args_match, executed, lemma_executed_frame, value_ok, lemma_logged_append, lemma_logged_refl, lemma_logged_trans,
    lemma_run_log_finish, lemma_run_log_ready, lemma_run_log_start, log_respects_deps, logged, remaining_keys, run_outcome,
    lemma_workers_below_append, lemma_workers_below_def, lemma_ready_ids_push, lemma_ready_ids_ready,
    lemma_ready_before_start_def, lemma_ready_before_start_push, lemma_ready_before_start_ready, ready_before_start, ready_ids, run_log_ok, scheduled, starts_name_workers, workers_below,
};
use crate::exec::common::ready_events;
use crate::trace::{max_width, lemma_worker_of_below, needed_ids, lemma_parallel_report, reports_parallel_run, TraceObserver, TracedExecution};
use crate::graph::{effective_cap, key_model, Dag, DagModel, ExecutorConfig, NodeId, NodeKind};

verus! {

/// What the scheduler asks its driver to do next.
pub enum Step<O> {
    /// Queue the task of node `id` with arguments `args` on a worker.
    Dispatch { id: usize, args: Vec<Arc<O>> },
    /// Wait for one running task to finish.
    Wait,
    /// Every needed node is complete.
    Done,
}

/// Where the scheduler stands between two driver actions.
pub enum Phase {
    /// About to check whether every needed node is complete.
    Outer,
    /// Dispatching ready nodes while below the in-flight cap.
    Inner,
    /// A task was handed out; the driver reports whether a worker took it.
    Dispatching,
    /// Dispatching stopped; about to wait for a result, or to report a cycle.
    AfterInner,
    /// The driver is waiting for a result.
    Waiting,
    /// The run is over.
    Finished,
}

/// The decisions of a bounded-parallelism run over the needed subgraph: which task to
/// hand to the workers next, when to wait for a result, and when the run is over.
/// A driver performs the actions (queueing tasks on worker threads, receiving results)
/// and reports back.
pub struct ParallelRun<O> {
    needed: Vec<bool>,
    dependents: Vec<Vec<usize>>,
    indeg: Vec<usize>,
    needed_count: usize,
    vals: Vec<Option<Arc<O>>>,
    ready: VecDeque<usize>,
    running: Vec<bool>,
    n_workers: usize,
    effective_cap: usize,
    max_in_flight: usize,
    processed: usize,
    in_flight: usize,
    next_worker: usize,
    pending: Option<(usize, Vec<Arc<O>>)>,
    awaiting: Option<usize>,
    phase: Phase,
    done: Ghost<Seq<usize>>,
    roots: Ghost<Set<usize>>,
    events: Ghost<Seq<ObsEvent>>,
}

/// `i` is needed, not complete, not running, and all of its dependencies are complete.
pub open spec fn waiting_to_run(needed: Seq<bool>, running: Seq<bool>, unresolved_count: nat, done: Seq<usize>, i: usize) -> bool {
    &&& needed[i as int]
    &&& !done.contains(i)
    &&& !running[i as int]
    &&& unresolved_count == 0
}

impl<O> ParallelRun<O> {
    /// Nodes completed so far, in completion order.
    pub closed spec fn completed(&self) -> Seq<usize> {
        self.done@
    }

    /// The notifications the run has sent, in order.
    pub closed spec fn events(&self) -> Seq<ObsEvent> {
        self.events@
    }

    /// Every completed node holds the value its kind gives: its source value, or an `Ok`
    /// result that its task returned on the values of its dependencies.
    pub open spec fn values_ok<K, E, F: Fn(&[Arc<O>]) -> Result<O, E>>(&self, d: DagModel<K, O, F>) -> bool {
        all_values_ok::<K, O, E, F>(d, self.completed(), self.values())
    }

    /// The value of each node, once complete.
    pub closed spec fn values(&self) -> Seq<Option<Arc<O>>> {
        self.vals@
    }

    /// The needed nodes.
    pub closed spec fn needed_marks(&self) -> Seq<bool> {
        self.needed@
    }

    /// The nodes whose outputs were requested.
    pub closed spec fn requested(&self) -> Set<usize> {
        self.roots@
    }

    /// Tasks queued on or running on a worker.
    pub closed spec fn in_flight_count(&self) -> nat {
        self.in_flight as nat
    }

    /// Whether node `i` is queued on or running on a worker.
    pub closed spec fn is_running_spec(&self, i: int) -> bool {
        0 <= i < self.running@.len() && self.running@[i]
    }

    /// The bound on tasks in flight: the configured bound, or the workers' capacity if lower.
    pub closed spec fn cap(&self) -> nat {
        self.effective_cap as nat
    }

    /// The configured bound on tasks in flight.
    pub closed spec fn max_in_flight_spec(&self) -> nat {
        self.max_in_flight as nat
    }

    /// The number of workers tasks are spread over.
    pub closed spec fn worker_count(&self) -> nat {
        self.n_workers as nat
    }

    /// The round-robin position of the next worker to try.
    pub closed spec fn next_worker_spec(&self) -> nat {
        self.next_worker as nat
    }

    /// Everything but the round-robin position is the same in `self` and `other`.
    pub closed spec fn same_state(&self, other: Self) -> bool {
        &&& self.needed == other.needed
        &&& self.dependents == other.dependents
        &&& self.indeg == other.indeg
        &&& self.needed_count == other.needed_count
        &&& self.vals == other.vals
        &&& self.ready == other.ready
        &&& self.running == other.running
        &&& self.n_workers == other.n_workers
        &&& self.effective_cap == other.effective_cap
        &&& self.max_in_flight == other.max_in_flight
        &&& self.processed == other.processed
        &&& self.in_flight == other.in_flight
        &&& self.pending == other.pending
        &&& self.awaiting == other.awaiting
        &&& self.phase == other.phase
        &&& self.done == other.done
        &&& self.roots == other.roots
        &&& self.events == other.events
    }

    pub closed spec fn phase_spec(&self) -> Phase {
        self.phase
    }

    /// The node whose task was handed out last and not yet reported on.
    pub closed spec fn awaiting_spec(&self) -> Option<usize> {
        self.awaiting
    }

    pub closed spec fn wf<K, F>(&self, d: DagModel<K, O, F>) -> bool {
        &&& self.inv(d, None)
        &&& workers_below(self.events@, self.n_workers as nat)
        &&& self.phase is AfterInner ==> self.in_flight == self.effective_cap || self.pending is Some || self.ready@.len() == 0
        &&& seen_ok(self.events@, self.ready@, self.held_back_spec(), self.awaiting)
    }

    /// The needed nodes not completed yet. With `in_flight_count()`, bounded by `cap()`, it
    /// measures the work left: `complete` lowers it, `next` never raises it, and `dispatched`
    /// raises the count in flight, so a driver that follows the steps reaches `Done` or an
    /// error.
    pub closed spec fn uncompleted(&self) -> nat {
        count_pending(self.needed@, self.done@, self.needed@.len() as int)
    }

    /// The node whose task is held back because every worker queue was full, if any.
    pub closed spec fn held_back_spec(&self) -> Option<usize> {
        match self.pending {
            Some(p) => Some(p.0),
            None => None,
        }
    }

    /// The scheduler's invariant, except that node `limbo`, if any, has just left the ready
    /// queue or a worker and is not complete yet.
    pub closed spec fn inv<K, F>(&self, d: DagModel<K, O, F>, limbo: Option<usize>) -> bool {
        let n = d.len();
        let needed = self.needed@;
        let done = self.done@;
        let running = self.running@;
        &&& d.wf()
        &&& needed.len() == n
        &&& needed == d.needed_of(self.roots@)
        &&& d.closed_under_deps(needed)
        &&& dependents_ok(d, needed, self.dependents@.map_values(|v: Vec<usize>| v@))
        &&& indeg_ok(d, needed, done, self.indeg@)
        &&& scheduled(d, needed, done, self.vals@)
        &&& running.len() == n
        &&& forall|i: int|
            0 <= i < n && #[trigger] running[i] ==> needed[i] && !done.contains(i as usize) && unresolved(
                d.deps(i),
                done,
            ) == 0
        &&& self.in_flight == count_true(running)
        &&& self.ready@.no_duplicates()
        &&& forall|k: int|
            0 <= k < self.ready@.len() ==> #[trigger] self.ready@[k] < n && waiting_to_run(
                needed,
                running,
                unresolved(d.deps(self.ready@[k] as int), done),
                done,
                self.ready@[k],
            ) && (self.pending matches Some(p) ==> p.0 != self.ready@[k]) && self.awaiting != Some(
                self.ready@[k],
            ) && limbo != Some(self.ready@[k])
        &&& self.pending matches Some(p) ==> p.0 < n && waiting_to_run(
            needed,
            running,
            unresolved(d.deps(p.0 as int), done),
            done,
            p.0,
        ) && args_match(d, self.vals@, p.0 as int, p.1@) && self.awaiting != Some(p.0) && limbo != Some(p.0)
        &&& self.awaiting matches Some(a) ==> a < n && waiting_to_run(
            needed,
            running,
            unresolved(d.deps(a as int), done),
            done,
            a,
        ) && limbo != Some(a)
        &&& limbo matches Some(x) ==> x < n && waiting_to_run(
            needed,
            running,
            unresolved(d.deps(x as int), done),
            done,
            x,
        )
        &&& (self.phase is Dispatching <==> self.awaiting is Some)
        &&& forall|i: int|
            0 <= i < n && needed[i] && !done.contains(i as usize) && #[trigger] unresolved(d.deps(i), done)
                == 0 ==> self.ready@.contains(i as usize) || running[i] || (self.pending matches Some(p)
                && p.0 == i) || self.awaiting == Some(i as usize) || limbo == Some(i as usize)
        &&& self.processed == done.len()
        &&& self.processed + count_pending(needed, done, n as int) == self.needed_count
        &&& self.n_workers > 0
        &&& 0 < self.effective_cap <= self.max_in_flight
        &&& self.in_flight <= self.effective_cap
        &&& self.phase is Dispatching ==> self.in_flight < self.effective_cap
        &&& self.phase is Waiting ==> self.in_flight > 0
        &&& self.phase is AfterInner ==> (self.in_flight > 0 || (self.ready@.len() == 0 && self.pending is None))
        &&& self.phase is Dispatching ==> self.pending is None
        &&& forall|i: int| 0 <= i < n && #[trigger] running[i] ==> d.nodes[i].kind is Task
        &&& self.awaiting matches Some(a) ==> d.nodes[a as int].kind is Task
        &&& self.pending matches Some(p) ==> d.nodes[p.0 as int].kind is Task
        &&& run_log_ok(d, self.events@, done, running)
    }

    /// Records the value of node `x` and releases its dependents.
    #[verifier::rlimit(100)]
    #[verifier::spinoff_prover]
    fn record_completion<K, F, R: ExecObserver>(
        &mut self,
        dag: &Dag<K, O, F>,
        x: usize,
        value: Arc<O>,
        observer: &mut R,
    )
        requires
            old(self).inv(dag@, Some(x)),
            !(old(self).phase is AfterInner),
            old(observer).bound() >= dag@.len(),
            finish_before(old(self).events@, x, old(self).events@.len() as int),
            workers_below(old(self).events@, old(self).n_workers as nat),
            match dag@.nodes[x as int].kind {
                NodeKind::Source(a) => value == a,
                NodeKind::Task(_) => true,
            },
        ensures
            final(self).inv(dag@, None),
            final(self).done@ == old(self).done@.push(x),
            final(self).vals@ == old(self).vals@.update(x as int, Some(value)),
            final(self).phase == old(self).phase,
            final(self).awaiting == old(self).awaiting,
            final(self).pending == old(self).pending,
            final(self).running == old(self).running,
            final(self).in_flight == old(self).in_flight,
            final(self).roots == old(self).roots,
            final(self).needed == old(self).needed,
            final(self).n_workers == old(self).n_workers,
            final(self).effective_cap == old(self).effective_cap,
            final(self).max_in_flight == old(self).max_in_flight,
            final(self).next_worker == old(self).next_worker,
            workers_below(final(self).events@, final(self).n_workers as nat),
            final(self).ready@ == old(self).ready@ + released(
                old(self).dependents@[x as int]@,
                old(self).indeg@,
                old(self).dependents@[x as int]@.len() as int,
            ),
            final(self).events@ == old(self).events@ + ready_events(
                released(old(self).dependents@[x as int]@, old(self).indeg@, old(self).dependents@[x as int]@.len() as int),
                old(self).ready@.len(),
            ),
            final(observer).logs() == old(observer).logs(),
            final(observer).bound() == old(observer).bound(),
            logged(old(self).events@, final(self).events@, old(observer).logs(), old(observer).log(), final(observer).log()),
    {
        let ghost d = dag@;
        let ghost n = d.len();
        let ghost ev0 = self.events@;
        let ghost needed = self.needed@;
        let ghost done = self.done@;
        let ghost running = self.running@;
        let ghost deps_model = self.dependents@.map_values(|v: Vec<usize>| v@);
        let ghost vals0 = self.vals@;
        proof {
            lemma_count_pending_push(needed, done, x, n as int);
        }
        self.vals.set(x, Some(value));
        self.processed = self.processed + 1;
        let ghost indeg0 = self.indeg@;
        let ghost q0 = self.ready@;
        proof {
            assert forall|i: int| 0 <= i < self.dependents@.len() implies occ(self.dependents@[x as int]@, i as usize)
                <= #[trigger] self.indeg@[i] by {
                assert(deps_model[x as int] == self.dependents@[x as int]@);
                if needed[i] {
                    lemma_unresolved_push(d.deps(i), done, x);
                }
            }
            assert forall|k: int| 0 <= k < self.dependents@[x as int]@.len() implies #[trigger] self.dependents@[x as int]@[k]
                < self.dependents@.len() by {
                assert(deps_model[x as int] == self.dependents@[x as int]@);
            }
        }
        release_dependents(&self.dependents, &mut self.indeg, &mut self.ready, x, observer);
        let ghost more = ready_events(
            released(self.dependents@[x as int]@, indeg0, self.dependents@[x as int]@.len() as int),
            q0.len(),
        );
        self.events = Ghost(ev0 + more);
        proof {
            assert(deps_model[x as int] == self.dependents@[x as int]@);
            lemma_logged_refl(ev0, old(observer).logs(), old(observer).log());
            lemma_logged_append(ev0, ev0, old(observer).logs(), old(observer).log(), old(observer).log(), more);
        }
        let ghost done1 = done.push(x);
        let ghost rel = released(deps_model[x as int], indeg0, deps_model[x as int].len() as int);
        self.done = Ghost(done1);
        proof {
            assert(self.inv(d, None)) by {
                lemma_complete_node(d, needed, deps_model, done, x, indeg0, self.indeg@);
                assert forall|k: int| 0 <= k < more.len() implies #[trigger] more[k] is Ready by {}
                lemma_run_log_ready(d, ev0, more, done, running);
                lemma_finish_before_extend(ev0, more, x, ev0.len() as int, (ev0 + more).len() as int);
                assert(self.ready@ == q0 + rel);
                assert(done1[done.len() as int] == x);
                assert forall|y: usize| #[trigger] done1.contains(y) && y != x implies done.contains(y) by {
                    let t = choose|t: int| 0 <= t < done1.len() && done1[t] == y;
                    assert(done[t] == y);
                }
                assert forall|y: usize| #[trigger] done.contains(y) implies done1.contains(y) by {
                    let t = choose|t: int| 0 <= t < done.len() && done[t] == y;
                    assert(done1[t] == y);
                }
                // nodes that waited before still wait, with fewer unresolved dependencies
                assert forall|y: int| 0 <= y < n && unresolved(d.deps(y), done) == 0 implies #[trigger] unresolved(
                    d.deps(y),
                    done1,
                ) == 0 by {
                    lemma_unresolved_push(d.deps(y), done, x);
                }
                assert forall|k: int| 0 <= k < self.ready@.len() implies #[trigger] self.ready@[k] < n && waiting_to_run(
                    needed,
                    running,
                    unresolved(d.deps(self.ready@[k] as int), done1),
                    done1,
                    self.ready@[k],
                ) && (self.pending matches Some(p) ==> p.0 != self.ready@[k]) && self.awaiting != Some(
                    self.ready@[k],
                ) && None::<usize> != Some(self.ready@[k]) by {
                    let y = self.ready@[k];
                    if k < q0.len() {
                        assert(q0[k] == y);
                        assert(y != x);
                    } else {
                        assert(rel[k - q0.len()] == y);
                        assert(rel.contains((y as int) as usize));
                        lemma_unresolved_not_done(d, needed, done, y);
                        assert(y != x);
                        if running[y as int] {
                            assert(unresolved(d.deps(y as int), done) == 0);
                        }
                        if self.pending is Some {
                            assert(unresolved(d.deps(self.pending->Some_0.0 as int), done) == 0);
                        }
                        if self.awaiting is Some {
                            assert(unresolved(d.deps(self.awaiting->Some_0 as int), done) == 0);
                        }
                    }
                }
                assert(self.ready@.no_duplicates()) by {
                    assert forall|a: int, b: int| 0 <= a < self.ready@.len() && 0 <= b < self.ready@.len() && a != b implies self.ready@[a]
                        != self.ready@[b] by {
                        if a < q0.len() && b < q0.len() {
                            assert(self.ready@[a] == q0[a] && self.ready@[b] == q0[b]);
                        } else if a >= q0.len() && b >= q0.len() {
                            assert(self.ready@[a] == rel[a - q0.len()] && self.ready@[b] == rel[b - q0.len()]);
                        } else if a < q0.len() {
                            assert(self.ready@[a] == q0[a]);
                            assert(rel[b - q0.len()] == self.ready@[b]);
                            assert(rel.contains((self.ready@[b] as int) as usize));
                        } else {
                            assert(self.ready@[b] == q0[b]);
                            assert(rel[a - q0.len()] == self.ready@[a]);
                            assert(rel.contains((self.ready@[a] as int) as usize));
                        }
                    }
                }
                assert forall|i: int|
                    0 <= i < n && needed[i] && !done1.contains(i as usize) && #[trigger] unresolved(d.deps(i), done1)
                        == 0 implies self.ready@.contains(i as usize) || running[i] || (self.pending matches Some(p)
                        && p.0 == i) || self.awaiting == Some(i as usize) || None::<usize> == Some(i as usize) by {
                    assert(i != x);
                    assert(!done.contains(i as usize));
                    lemma_unresolved_push(d.deps(i), done, x);
                    if unresolved(d.deps(i), done) == 0 {
                        if q0.contains(i as usize) {
                            let t = choose|t: int| 0 <= t < q0.len() && q0[t] == i as usize;
                            assert(self.ready@[t] == i);
                        }
                    } else {
                        assert(rel.contains(i as usize));
                        let t = choose|t: int| 0 <= t < rel.len() && rel[t] == i as usize;
                        assert(self.ready@[q0.len() + t] == i);
                    }
                }
                assert forall|i: int| 0 <= i < n && #[trigger] running[i] implies needed[i] && !done1.contains(i as usize)
                    && unresolved(d.deps(i), done1) == 0 by {
                    assert(i != x);
                }
                assert(scheduled(d, needed, done1, self.vals@)) by {
                    assert forall|i: int| 0 <= i < d.len() implies (#[trigger] self.vals@[i] is Some <==> done1.contains(i as usize)) by {
                        if i == x {
                            assert(done1.contains(x));
                        }
                    }
                }
                assert forall|k: int| 0 <= k < done1.len() implies finish_before(
                    self.events@,
                    #[trigger] done1[k],
                    self.events@.len() as int,
                ) by {
                    if k < done.len() {
                        assert(done1[k] == done[k]);
                    }
                }
            }
        }
        proof {
            lemma_ready_keeps_workers(
                ev0,
                released(self.dependents@[x as int]@, indeg0, self.dependents@[x as int]@.len() as int),
                q0.len(),
                self.n_workers as nat,
            );
        }
    }

    /// Runs the scheduler up to the next action its driver must perform: dispatch a task,
    /// wait for a result, or stop. Ready sources complete on the way, without a worker.
    #[verifier::rlimit(80)]
    #[verifier::spinoff_prover]
    pub fn next<K: Clone, E, F: Fn(&[Arc<O>]) -> Result<O, E>, R: ExecObserver>(&mut self, dag: &Dag<K, O, F>, observer: &mut R) -> (r: Result<
        Step<O>,
        ExecError<K, E>,
    >)
        requires
            old(self).wf(dag@),
            key_model::<K>(),
            old(self).phase_spec() is Outer || old(self).phase_spec() is Inner || old(self).phase_spec() is AfterInner,
            old(observer).bound() >= dag@.len(),
        ensures
            final(observer).logs() == old(observer).logs(),
            final(observer).bound() == old(observer).bound(),
            final(self).wf(dag@),
            final(self).requested() == old(self).requested(),
            final(self).max_in_flight_spec() == old(self).max_in_flight_spec(),
            final(self).worker_count() == old(self).worker_count(),
            old(self).completed().is_prefix_of(final(self).completed()),
            final(self).in_flight_count() == old(self).in_flight_count(),
            final(self).cap() == old(self).cap(),
            final(self).uncompleted() <= old(self).uncompleted(),
            old(self).phase_spec() is AfterInner ==> !(r matches Ok(Step::Dispatch { .. })),
            old(self).values_ok::<K, E, F>(dag@) ==> final(self).values_ok::<K, E, F>(dag@),
            logged(old(self).events(), final(self).events(), old(observer).logs(), old(observer).log(), final(observer).log()),
            match r {
                Ok(Step::Dispatch { id, args }) => {
                    &&& final(self).phase_spec() is Dispatching
                    &&& final(self).awaiting_spec() == Some(id)
                    &&& id < dag@.len()
                    &&& !final(self).is_running_spec(id as int)
                    &&& final(self).in_flight_count() < final(self).cap()
                    &&& final(self).needed_marks()[id as int]
                    &&& !final(self).completed().contains(id)
                    &&& forall|j: int|
                        0 <= j < dag@.deps(id as int).len() ==> final(self).completed().contains(
                            #[trigger] dag@.deps(id as int)[j],
                        )
                    &&& args_match(dag@, final(self).values(), id as int, args@)
                },
                Ok(Step::Wait) => {
                    &&& final(self).phase_spec() is Waiting
                    &&& final(self).in_flight_count() > 0
                    &&& final(self).in_flight_count() == final(self).cap() || final(self).held_back_spec() is Some
                        || forall|i: int|
                        0 <= i < dag@.len() && #[trigger] final(self).needed_marks()[i]
                            && !final(self).completed().contains(i as usize) && (forall|j: int|
                            0 <= j < dag@.deps(i).len() ==> final(self).completed().contains(
                                #[trigger] dag@.deps(i)[j],
                            )) ==> final(self).is_running_spec(i)
                },
                Ok(Step::Done) => final(self).phase_spec() is Finished && final(self).uncompleted() == 0 && dag@.is_topo_order(
                    final(self).needed_marks(),
                    final(self).completed(),
                ),
                Err(ExecError::Cycle { remaining }) => {
                    &&& final(self).phase_spec() is Finished
                    &&& final(self).in_flight_count() == 0
                    &&& !dag@.is_topo_order(final(self).needed_marks(), final(self).completed())
                    &&& dag@.rest_is_blocked(final(self).needed_marks(), final(self).completed())
                    &&& remaining@ == remaining_keys(
                        dag@,
                        final(self).needed_marks(),
                        final(self).completed(),
                        dag@.len() as int,
                    )
                },
                Err(_) => false,
            },
    {
        let ghost d = dag@;
        let ghost done0 = self.done@;
        let ghost ev0 = self.events@;
        proof {
            lemma_logged_refl(ev0, old(observer).logs(), old(observer).log());
        }
        loop
            invariant
                ev0 == old(self).events@,
                logged(ev0, self.events@, old(observer).logs(), old(observer).log(), observer.log()),
                d == dag@,
                key_model::<K>(),
                self.wf(d),
                self.phase is Outer || self.phase is Inner || self.phase is AfterInner,
                self.roots == old(self).roots,
                self.max_in_flight == old(self).max_in_flight,
                self.n_workers == old(self).n_workers,
                self.in_flight == old(self).in_flight,
                self.effective_cap == old(self).effective_cap,
                old(self).values_ok::<K, E, F>(d) ==> all_values_ok::<K, O, E, F>(d, self.done@, self.vals@),
                count_pending(self.needed@, self.done@, d.len() as int) <= count_pending(
                    old(self).needed@,
                    old(self).done@,
                    d.len() as int,
                ),
                self.needed@.len() == d.len(),
                old(self).needed@.len() == d.len(),
                old(self).phase is AfterInner ==> self.phase is AfterInner,
                done0 == old(self).done@,
                done0.is_prefix_of(self.done@),
                observer.logs() == old(observer).logs(),
                observer.bound() == old(observer).bound(),
                observer.bound() >= d.len(),
            decreases count_pending(self.needed@, self.done@, d.len() as int), phase_rank(self.phase),
        {
            match self.phase {
                Phase::Outer => {
                    if self.processed < self.needed_count {
                        self.phase = Phase::Inner;
                    } else {
                        self.phase = Phase::Finished;
                        proof {
                            lemma_count_pending_zero(self.needed@, self.done@, d.len() as int);
                        }
                        return Ok(Step::Done);
                    }
                },
                Phase::Inner => {
                    if self.in_flight < self.effective_cap {
                        match self.pending.take() {
                            Some((id, args)) => {
                                self.awaiting = Some(id);
                                self.phase = Phase::Dispatching;
                                proof {
                                    lemma_unresolved_zero(d.deps(id as int), self.done@);
                                }
                                return Ok(Step::Dispatch { id, args });
                            },
                            None => {},
                        }
                        let ghost q0 = self.ready@;
                        match self.ready.pop_front() {
                            None => {
                                self.phase = Phase::AfterInner;
                            },
                            Some(id) => {
                                assert(q0[0] == id);
                                assert(self.ready@ =~= q0.drop_first());
                                proof {
                                    lemma_seen_pop(self.events@, q0);
                                    lemma_unresolved_zero(d.deps(id as int), self.done@);
                                    assert forall|k: int| 0 <= k < self.ready@.len() implies self.ready@[k] != id by {
                                        assert(self.ready@[k] == q0[k + 1]);
                                    }
                                }
                                proof {
                                        assert forall|i: int|
                                        0 <= i < d.len() && self.needed@[i] && !self.done@.contains(i as usize)
                                            && #[trigger] unresolved(d.deps(i), self.done@) == 0 implies self.ready@.contains(
                                        i as usize,
                                    ) || self.running@[i] || (self.pending matches Some(p) && p.0 == i)
                                        || self.awaiting == Some(i as usize) || Some(id) == Some(i as usize) by {
                                        if q0.contains(i as usize) && i != id {
                                            let t = choose|t: int| 0 <= t < q0.len() && q0[t] == i as usize;
                                            assert(t != 0);
                                            assert(self.ready@[t - 1] == i);
                                        }
                                    }
                                    assert forall|k: int| 0 <= k < self.ready@.len() implies #[trigger] self.ready@[k]
                                        < d.len() && waiting_to_run(
                                        self.needed@,
                                        self.running@,
                                        unresolved(d.deps(self.ready@[k] as int), self.done@),
                                        self.done@,
                                        self.ready@[k],
                                    ) && (self.pending matches Some(p) ==> p.0 != self.ready@[k]) && self.awaiting
                                        != Some(self.ready@[k]) && Some(id) != Some(self.ready@[k]) by {
                                        assert(self.ready@[k] == q0[k + 1]);
                                    }
                                    assert(self.ready@.no_duplicates()) by {
                                        assert forall|a: int, b: int|
                                            0 <= a < self.ready@.len() && 0 <= b < self.ready@.len() && a != b implies self.ready@[a]
                                            != self.ready@[b] by {
                                            assert(self.ready@[a] == q0[a + 1] && self.ready@[b] == q0[b + 1]);
                                        }
                                    }
                                    assert(self.inv(d, Some(id)));
                                }
                                match dag.node_kind(id) {
                                    NodeKind::Source(v) => {
                                        let ghost ev1 = self.events@;
                                        let ghost obs1 = observer.log();
                                        proof {
                                            lemma_seen_source(
                                                ev1,
                                                id,
                                                self.ready@,
                                                released(
                                                    self.dependents@[id as int]@,
                                                    self.indeg@,
                                                    self.dependents@[id as int]@.len() as int,
                                                ),
                                                self.held_back_spec(),
                                                self.awaiting,
                                            );
                                        }
                                        observer.mark_start(NodeId(id), None);
                                        let a = arc_clone(v);
                                        observer.mark_finish(NodeId(id));
                                        let ghost st = ObsEvent::Start { id, worker: None };
                                        let ghost fin = ObsEvent::Finish { id };
                                        self.events = Ghost(ev1.push(st).push(fin));
                                        proof {
                                            lemma_workers_below_def(seq![st, fin], self.n_workers as nat);
                                            lemma_workers_below_append(ev1, seq![st, fin], self.n_workers as nat);
                                            lemma_count_pending_push(self.needed@, self.done@, id, d.len() as int);
                                            lemma_run_log_start(d, ev1, self.done@, self.running@, id, None);
                                            lemma_run_log_finish(d, ev1.push(st), self.done@, self.running@, id);
                                            lemma_logged_append(
                                                ev0,
                                                ev1,
                                                old(observer).logs(),
                                                old(observer).log(),
                                                obs1,
                                                seq![st, fin],
                                            );
                                            assert(ev1 + seq![st, fin] =~= ev1.push(st).push(fin));
                                            assert(obs1 + seq![st, fin] =~= obs1.push(st).push(fin));
                                        }
                                        let ghost ev2 = self.events@;
                                        let ghost obs2 = observer.log();
                                        let ghost done_b = self.done@;
                                        let ghost vals_b = self.vals@;
                                        let ghost ok_b = self.values_ok::<K, E, F>(d);
                                        self.record_completion(dag, id, a, observer);
                                        proof {
                                            if ok_b {
                                                lemma_values_push::<K, O, E, F>(d, self.needed@, done_b, vals_b, id, a);
                                            }
                                            lemma_logged_trans(
                                                ev0,
                                                ev2,
                                                self.events@,
                                                old(observer).logs(),
                                                old(observer).log(),
                                                obs2,
                                                observer.log(),
                                            );
                                        }
                                        proof {
                                            assert(done0.is_prefix_of(self.done@));
                                        }
                                    },
                                    NodeKind::Task(_) => {
                                        let deps = dag.node_deps(id);
                                        let mut args: Vec<Arc<O>> = Vec::with_capacity(deps.len());
                                        for j in 0..deps.len()
                                            invariant
                                                d == dag@,
                                                d.wf(),
                                                id < d.len(),
                                                scheduled(d, self.needed@, self.done@, self.vals@),
                                                deps@.len() == d.deps(id as int).len(),
                                                forall|j2: int|
                                                    0 <= j2 < deps@.len() ==> (#[trigger] deps@[j2]).0 == d.deps(
                                                        id as int,
                                                    )[j2],
                                                forall|j2: int|
                                                    0 <= j2 < d.deps(id as int).len() ==> self.done@.contains(
                                                        #[trigger] d.deps(id as int)[j2],
                                                    ),
                                                args@.len() == j,
                                                forall|j2: int|
                                                    0 <= j2 < j ==> self.vals@[#[trigger] d.deps(id as int)[j2] as int]
                                                        == Some(args@[j2]),
                                        {
                                            let dep = deps[j].0;
                                            assert(d.deps(id as int)[j as int] == dep);
                                            assert(self.done@.contains(dep));
                                            match &self.vals[dep] {
                                                Some(v) => {
                                                    args.push(arc_clone(v));
                                                },
                                                None => {
                                                    return Err(ExecError::InternalInvariant("dep missing during exec"));
                                                },
                                            }
                                        }
                                        self.awaiting = Some(id);
                                        self.phase = Phase::Dispatching;
                                        proof {
                                            assert(self.inv(d, None));
                                        }
                                        return Ok(Step::Dispatch { id, args });
                                    },
                                }
                            },
                        }
                    } else {
                        self.phase = Phase::AfterInner;
                    }
                },
                Phase::AfterInner => {
                    if self.in_flight == 0 && self.processed == self.needed_count {
                        // Sources completed inline may have finished the run.
                        self.phase = Phase::Finished;
                        proof {
                            lemma_count_pending_zero(self.needed@, self.done@, d.len() as int);
                        }
                        return Ok(Step::Done);
                    } else if self.in_flight == 0 {
                        proof {
                            lemma_count_pending_zero(self.needed@, self.done@, d.len() as int);
                            lemma_count_true_zero_none(self.running@);
                            assert forall|i: int| 0 <= i < d.len() && #[trigger] self.needed@[i] implies (self.indeg@[i] > 0
                                <==> !self.done@.contains(i as usize)) by {
                                if self.done@.contains(i as usize) {
                                    let t = choose|t: int| 0 <= t < self.done@.len() && self.done@[t] == i as usize;
                                    crate::exec::kahn::lemma_prefix_resolved(d, self.needed@, self.done@, t);
                                }
                            }
                            assert forall|i: int| 0 <= i < d.len() && self.needed@[i] && !self.done@.contains(i as usize) implies exists|j: int|
                                0 <= j < d.deps(i).len() && !self.done@.contains(#[trigger] d.deps(i)[j]) by {
                                lemma_unresolved_zero(d.deps(i), self.done@);
                            }
                        }
                        let remaining = collect_remaining(dag, &self.needed, &self.indeg, Ghost(self.done@));
                        self.phase = Phase::Finished;
                        return Err(ExecError::Cycle { remaining });
                    } else {
                        proof {
                            if !(self.in_flight == self.effective_cap || self.pending is Some) {
                                assert forall|i: int|
                                    0 <= i < d.len() && self.needed@[i] && !self.done@.contains(i as usize) && (forall|j: int|
                                        0 <= j < d.deps(i).len() ==> self.done@.contains(#[trigger] d.deps(i)[j])) implies self.running@[i] by {
                                    lemma_unresolved_zero(d.deps(i), self.done@);
                                }
                            }
                        }
                        self.phase = Phase::Waiting;
                        return Ok(Step::Wait);
                    }
                },
                _ => {
                    return Err(ExecError::InternalInvariant("scheduler stepped out of turn"));
                },
            }
        }
    }

    /// The driver queued the handed-out task on worker `worker_id`.
    pub fn dispatched<K, F, R: ExecObserver>(&mut self, dag: &Dag<K, O, F>, worker_id: usize, observer: &mut R)
        requires
            old(self).wf(dag@),
            old(self).phase_spec() is Dispatching,
            worker_id < old(self).worker_count(),
            old(observer).bound() >= dag@.len(),
        ensures
            final(observer).logs() == old(observer).logs(),
            final(observer).bound() == old(observer).bound(),
            final(self).wf(dag@),
            final(self).phase_spec() is Inner,
            final(self).awaiting_spec() is None,
            final(self).in_flight_count() == old(self).in_flight_count() + 1,
            final(self).cap() == old(self).cap(),
            final(self).uncompleted() == old(self).uncompleted(),
            final(self).is_running_spec(old(self).awaiting_spec()->Some_0 as int),
            final(self).completed() == old(self).completed(),
            final(self).values() == old(self).values(),
            final(self).needed_marks() == old(self).needed_marks(),
            final(self).requested() == old(self).requested(),
            final(self).max_in_flight_spec() == old(self).max_in_flight_spec(),
            final(self).worker_count() == old(self).worker_count(),
            final(self).events() == old(self).events().push(
                ObsEvent::Start { id: old(self).awaiting_spec()->Some_0, worker: Some(worker_id) },
            ),
            old(observer).logs() ==> final(observer).log() == old(observer).log().push(
                ObsEvent::Start { id: old(self).awaiting_spec()->Some_0, worker: Some(worker_id) },
            ),
    {
        let ghost d = dag@;
        let id = self.awaiting.unwrap();
        self.awaiting = None;
        observer.mark_start(NodeId(id), Some(worker_id));
        let ghost ev0 = self.events@;
        let ghost running0 = self.running@;
        self.events = Ghost(ev0.push(ObsEvent::Start { id, worker: Some(worker_id) }));
        proof {
            lemma_workers_below_def(seq![ObsEvent::Start { id, worker: Some(worker_id) }], self.n_workers as nat);
            lemma_workers_below_append(ev0, seq![ObsEvent::Start { id, worker: Some(worker_id) }], self.n_workers as nat);
            assert(ev0 + seq![ObsEvent::Start { id, worker: Some(worker_id) }] =~= self.events@);
            lemma_count_true_update(self.running@, id as int);
            lemma_unresolved_zero(d.deps(id as int), self.done@);
            lemma_run_log_start(d, ev0, self.done@, running0, id, Some(worker_id));
            lemma_seen_push(ev0, ObsEvent::Start { id, worker: Some(worker_id) }, self.ready@, None, None);
        }
        self.running.set(id, true);
        self.in_flight = self.in_flight + 1;
        self.phase = Phase::Inner;
        proof {
            assert forall|i: int| 0 <= i < self.running@.len() && #[trigger] self.running@[i] implies start_before(
                self.events@,
                i as usize,
                self.events@.len() as int,
            ) by {
                if i != id {
                    assert(running0[i]);
                }
            }
        }
    }

    /// Every worker queue was full: the handed-out task, with its `args`, waits until a
    /// result comes back.
    pub fn all_full<K, F>(&mut self, dag: &Dag<K, O, F>, args: Vec<Arc<O>>)
        requires
            old(self).wf(dag@),
            old(self).phase_spec() is Dispatching,
            old(self).in_flight_count() > 0,
            args_match(dag@, old(self).values(), old(self).awaiting_spec()->Some_0 as int, args@),
        ensures
            final(self).wf(dag@),
            final(self).events() == old(self).events(),
            final(self).phase_spec() is AfterInner,
            final(self).awaiting_spec() is None,
            final(self).held_back_spec() == old(self).awaiting_spec(),
            final(self).uncompleted() == old(self).uncompleted(),
            final(self).in_flight_count() == old(self).in_flight_count(),
            final(self).cap() == old(self).cap(),
            final(self).completed() == old(self).completed(),
            final(self).values() == old(self).values(),
            final(self).needed_marks() == old(self).needed_marks(),
            final(self).requested() == old(self).requested(),
            final(self).max_in_flight_spec() == old(self).max_in_flight_spec(),
            final(self).worker_count() == old(self).worker_count(),
    {
        let id = self.awaiting.unwrap();
        self.awaiting = None;
        self.pending = Some((id, args));
        self.phase = Phase::AfterInner;
    }

    /// Whether node `id` is queued on or running on a worker.
    pub fn is_running(&self, id: usize) -> (b: bool)
        ensures
            b == self.is_running_spec(id as int),
    {
        id < self.running.len() && self.running[id]
    }

    /// The driver received `result` for the task of node `id`.
    #[verifier::rlimit(60)]
    #[verifier::spinoff_prover]
    pub fn complete<K: Clone, E, F: Fn(&[Arc<O>]) -> Result<O, E>, R: ExecObserver>(
        &mut self,
        dag: &Dag<K, O, F>,
        id: usize,
        result: Result<O, E>,
        observer: &mut R,
    ) -> (r: Result<(), ExecError<K, E>>)
        requires
            old(self).wf(dag@),
            key_model::<K>(),
            old(self).phase_spec() is Waiting,
            id < dag@.len(),
            old(self).is_running_spec(id as int),
            old(observer).bound() >= dag@.len(),
            match dag@.nodes[id as int].kind {
                NodeKind::Task(f) => exists|s: &[Arc<O>]|
                    args_match(dag@, old(self).values(), id as int, s@) && #[trigger] f.ensures((s,), result),
                NodeKind::Source(_) => true,
            },
        ensures
            final(observer).logs() == old(observer).logs(),
            final(observer).bound() == old(observer).bound(),
            final(self).requested() == old(self).requested(),
            final(self).max_in_flight_spec() == old(self).max_in_flight_spec(),
            final(self).worker_count() == old(self).worker_count(),
            final(self).in_flight_count() + 1 == old(self).in_flight_count(),
            final(self).cap() == old(self).cap(),
            logged(old(self).events(), final(self).events(), old(observer).logs(), old(observer).log(), final(observer).log()),
            final(self).events().len() > old(self).events().len(),
            final(self).events()[old(self).events().len() as int] == (ObsEvent::Finish { id }),
            match r {
                Ok(()) => {
                    &&& result is Ok
                    &&& final(self).wf(dag@)
                    &&& final(self).phase_spec() is Outer
                    &&& final(self).completed() == old(self).completed().push(id)
                    &&& final(self).values() == old(self).values().update(
                        id as int,
                        Some(Arc::new(result->Ok_0)),
                    )
                    &&& final(self).needed_marks() == old(self).needed_marks()
                    &&& old(self).values_ok::<K, E, F>(dag@) ==> final(self).values_ok::<K, E, F>(dag@)
                    &&& final(self).uncompleted() + 1 == old(self).uncompleted()
                },
                Err(e) => {
                    &&& final(self).phase_spec() is Finished
                    &&& result matches Err(error) && e == ExecError::<K, E>::TaskFailed {
                        task: dag@.key(id as int),
                        error,
                    }
                    &&& final(self).completed() == old(self).completed()
                },
            },
    {
        let ghost d = dag@;
        proof {
            assert(self.running@ == self.running@.update(id as int, false).update(id as int, true));
            lemma_count_true_update(self.running@.update(id as int, false), id as int);
        }
        let ghost ev0 = self.events@;
        let ghost running0 = self.running@;
        let ghost obs0 = observer.log();
        self.running.set(id, false);
        self.in_flight = self.in_flight - 1;
        observer.mark_finish(NodeId(id));
        let ghost fin = ObsEvent::Finish { id };
        self.events = Ghost(ev0.push(fin));
        proof {
            lemma_workers_below_def(seq![fin], self.n_workers as nat);
            lemma_workers_below_append(ev0, seq![fin], self.n_workers as nat);
            assert forall|i: int| 0 <= i < self.running@.len() && #[trigger] self.running@[i] implies start_before(
                ev0,
                i as usize,
                ev0.len() as int,
            ) by {
                assert(running0[i]);
            }
            assert(running0[id as int]);
            lemma_run_log_finish(d, ev0, self.done@, self.running@, id);
            lemma_logged_refl(ev0, old(observer).logs(), obs0);
            lemma_logged_append(ev0, ev0, old(observer).logs(), obs0, obs0, seq![fin]);
            assert(ev0 + seq![fin] =~= ev0.push(fin));
            assert(obs0 + seq![fin] =~= obs0.push(fin));
        }
        let ghost ev1 = self.events@;
        let ghost obs1 = observer.log();
        match result {
            Err(e) => {
                self.phase = Phase::Finished;
                let task = dag.node_key(id).clone();
                assert(cloned::<K>(d.key(id as int), task));
                Err(ExecError::TaskFailed { task, error: e })
            },
            Ok(out) => {
                self.phase = Phase::Outer;
                proof {
                    assert forall|i: int| 0 <= i < d.len() && #[trigger] self.running@[i] implies needed_ok(
                        self.needed@,
                        self.done@,
                        i,
                    ) by {}
                }
                let ghost done_b = self.done@;
                let ghost vals_b = self.vals@;
                let ghost ok_b = old(self).values_ok::<K, E, F>(d);
                let value = Arc::new(out);
                proof {
                    lemma_unresolved_zero(d.deps(id as int), done_b);
                    lemma_count_pending_push(self.needed@, done_b, id, d.len() as int);
                    lemma_seen_complete(
                        ev0,
                        id,
                        self.ready@,
                        released(self.dependents@[id as int]@, self.indeg@, self.dependents@[id as int]@.len() as int),
                        self.held_back_spec(),
                        self.awaiting,
                    );
                }
                self.record_completion(dag, id, value, observer);
                proof {
                    if ok_b {
                        assert(match d.nodes[id as int].kind {
                            NodeKind::Source(a) => value == a,
                            NodeKind::Task(f) => exists|s: &[Arc<O>]|
                                args_match(d, vals_b, id as int, s@) && #[trigger] f.ensures((s,), Ok::<O, E>(*value)),
                        }) by {
                            match d.nodes[id as int].kind {
                                NodeKind::Task(f) => {
                                    let s = choose|s: &[Arc<O>]|
                                        args_match(d, old(self).values(), id as int, s@) && #[trigger] f.ensures((s,), result);
                                    assert(f.ensures((s,), Ok::<O, E>(*value)));
                                },
                                NodeKind::Source(_) => {
                                    assert(old(self).running@[id as int]);
                                },
                            }
                        }
                        lemma_values_push::<K, O, E, F>(d, self.needed@, done_b, vals_b, id, value);
                    }
                    lemma_logged_trans(
                        ev0,
                        ev1,
                        self.events@,
                        old(observer).logs(),
                        obs0,
                        obs1,
                        observer.log(),
                    );
                    assert(self.events@[ev0.len() as int] == ev1[ev0.len() as int]);
                }
                Ok(())
            },
        }
    }

    /// The needed nodes, one mark per node.
    pub fn needed_nodes(&self) -> (v: &Vec<bool>)
        ensures
            v@ == self.needed_marks(),
    {
        &self.needed
    }

    /// The value of each requested key, once every needed node is complete.
    pub fn into_outputs<K: Eq + Hash + Clone, E, F: Fn(&[Arc<O>]) -> Result<O, E>>(self, dag: &Dag<K, O, F>, out_keys: &[K]) -> (r: Result<
        std::collections::HashMap<K, Arc<O>>,
        ExecError<K, E>,
    >)
        requires
            self.wf(dag@),
            key_model::<K>(),
            dag@.is_topo_order(self.needed_marks(), self.completed()),
            self.requested() == dag@.output_roots(out_keys@),
            dag@.all_present(out_keys@),
        ensures
            r matches Ok(m) && m@ == crate::exec::common::outputs_map(dag@, self.values(), out_keys@),
            self.values_ok::<K, E, F>(dag@) && out_keys@.len() > 0 ==> run_outcome::<K, O, E, F>(
                dag@,
                out_keys@,
                match r {
                    Ok(m) => Ok(m@),
                    Err(e) => Err(e),
                },
            ),
    {
        let ghost d = dag@;
        proof {
            assert forall|j: int| 0 <= j < out_keys@.len() implies #[trigger] crate::exec::common::output_available(
                d,
                self.vals@,
                out_keys@[j],
            ) by {
                let i = d.index[out_keys@[j]];
                assert(d.index.contains_key(out_keys@[j]));
                assert(d.output_roots(out_keys@).contains(i));
                let p = seq![i];
                assert(d.is_dep_path(p));
                assert(p.last() == i);
                assert(self.needed@[i as int]);
                assert(self.done@.contains(i));
            }
        }
        let ghost done = self.done@;
        let ghost vals = self.vals@;
        let ghost needed = self.needed@;
        let ghost ok = self.values_ok::<K, E, F>(d);
        let r = crate::exec::common::collect_outputs(dag, out_keys, self.vals);
        proof {
            if ok && out_keys@.len() > 0 {
                assert(executed::<K, O, E, F>(d, needed, done, vals));
                assert(needed == d.needed_of(d.output_roots(out_keys@)));
            }
        }
        r
    }

    /// Tasks in flight never exceed the effective cap, which never exceeds the
    /// configured `max_in_flight`.
    pub proof fn lemma_in_flight_bounded<K, F>(&self, d: DagModel<K, O, F>)
        requires
            self.wf(d),
        ensures
            self.in_flight_count() <= self.cap() <= self.max_in_flight_spec(),
            self.cap() > 0,
    {
    }

    /// The value of each requested key once every needed node is complete, with the trace
    /// that `observer` recorded of the run. When the observer received exactly the run's
    /// notifications, the trace reports the run as `reports_parallel_run` states.
    pub fn into_traced<K: Eq + Hash + Clone, E, F: Fn(&[Arc<O>]) -> Result<O, E>>(
        self,
        dag: &Dag<K, O, F>,
        out_keys: &[K],
        observer: TraceObserver,
    ) -> (r: Result<TracedExecution<K, O>, ExecError<K, E>>)
        requires
            self.wf(dag@),
            key_model::<K>(),
            dag@.is_topo_order(self.needed_marks(), self.completed()),
            self.requested() == dag@.output_roots(out_keys@),
            dag@.all_present(out_keys@),
            observer.bound() == dag@.len(),
        ensures
            r matches Ok(t) && t.outputs@ == crate::exec::common::outputs_map(dag@, self.values(), out_keys@)
                && (observer.log() == self.events() ==> reports_parallel_run(t.trace, dag@, self.needed_marks()))
                && (observer.log() == self.events() ==> t.trace.max_frontier_width == max_width(self.events()))
                && (observer.log() == self.events() ==> forall|k: int|
                0 <= k < t.trace.nodes@.len() ==> ((#[trigger] t.trace.nodes@[k]).worker_id matches Some(w) ==> w
                < self.worker_count())),
            self.values_ok::<K, E, F>(dag@) && out_keys@.len() > 0 ==> run_outcome::<K, O, E, F>(
                dag@,
                out_keys@,
                match r {
                    Ok(t) => Ok(t.outputs@),
                    Err(e) => Err(e),
                },
            ),
    {
        let ghost d = dag@;
        let ghost ev = observer.log();
        let ghost tm = observer.times();
        let ghost needed = self.needed@;
        let ghost completed = self.done@;
        let ghost events = self.events@;
        proof {
            observer.lemma_times();
            self.lemma_events_in_order(d);
        }
        let trace = observer.finalize(dag, self.needed.as_slice());
        let outputs = match self.into_outputs::<K, E, F>(dag, out_keys) {
            Ok(m) => m,
            Err(e) => {
                return Err(e);
            },
        };
        proof {
            if ev == events {
                lemma_parallel_report(trace, d, needed, completed, ev, tm);
                lemma_workers_below_def(events, self.n_workers as nat);
                assert forall|k: int| 0 <= k < trace.nodes@.len() implies ((#[trigger] trace.nodes@[k]).worker_id matches Some(
                    w,
                ) ==> w < self.n_workers) by {
                    lemma_worker_of_below(ev, needed_ids(started_ids(ev), needed)[k], self.n_workers as nat);
                }
            }
        }
        let t = TracedExecution { outputs, trace };
        assert(t.trace == trace);
        Ok(t)
    }

    /// In every state of a run, the needed nodes are those the requested ones reach, and the
    /// completed nodes are distinct needed nodes, each completed after its dependencies.
    pub proof fn lemma_completed_in_order<K, F>(&self, d: DagModel<K, O, F>)
        requires
            self.wf(d),
        ensures
            self.needed_marks() == d.needed_of(self.requested()),
            d.closed_under_deps(self.needed_marks()),
            d.is_topo_prefix(self.needed_marks(), self.completed()),
    {
    }

    /// In every state of a run, each node it started had all of its dependencies finished
    /// first, each node it finished had started, each completed node has finished, each node
    /// on a worker has started, only tasks started on workers, and every worker named is one
    /// of the run's.
    pub proof fn lemma_events_in_order<K, F>(&self, d: DagModel<K, O, F>)
        requires
            self.wf(d),
        ensures
            log_respects_deps(d, self.events()),
            forall|k: int|
                0 <= k < self.completed().len() ==> finish_before(
                    self.events(),
                    #[trigger] self.completed()[k],
                    self.events().len() as int,
                ),
            forall|i: int|
                0 <= i < d.len() && #[trigger] self.is_running_spec(i) ==> start_before(
                    self.events(),
                    i as usize,
                    self.events().len() as int,
                ),
            starts_name_workers(d, self.events()),
            forall|p: int|
                0 <= p < self.events().len() ==> ((#[trigger] self.events()[p]) matches ObsEvent::Start {
                    worker: Some(w),
                    ..
                } ==> w < self.worker_count()),
    {
        lemma_workers_below_def(self.events@, self.n_workers as nat);
    }

    /// The number of workers tasks are spread over.
    pub fn workers(&self) -> (n: usize)
        ensures
            n == self.worker_count(),
    {
        self.n_workers
    }

    /// The worker to try next for a task, round-robin.
    pub fn next_worker_slot<K, F>(&mut self, dag: &Dag<K, O, F>) -> (w: usize)
        requires
            old(self).wf(dag@),
        ensures
            final(self).wf(dag@),
            w < final(self).worker_count(),
            w == old(self).next_worker_spec() % old(self).worker_count(),
            final(self).next_worker_spec() == w + 1,
            final(self).same_state(*old(self)),
            final(self).completed() == old(self).completed(),
            final(self).values() == old(self).values(),
            final(self).phase_spec() == old(self).phase_spec(),
            final(self).in_flight_count() == old(self).in_flight_count(),
            final(self).cap() == old(self).cap(),
            final(self).worker_count() == old(self).worker_count(),
            final(self).events() == old(self).events(),
    {
        let idx = self.next_worker % self.n_workers;
        self.next_worker = idx + 1;
        idx
    }

    /// Tasks queued on or running on a worker.
    pub fn in_flight(&self) -> (n: usize)
        ensures
            n == self.in_flight_count(),
    {
        self.in_flight
    }
}

/// Starts a bounded-parallelism run over the nodes that `out_keys` need: checks the
/// request and the configuration, marks the needed nodes, and queues those without
/// dependencies.
pub(crate) fn start<K: Eq + Hash + Clone, O, E, F: Fn(&[Arc<O>]) -> Result<O, E>, R: ExecObserver>(
    dag: &Dag<K, O, F>,
    cfg: &ExecutorConfig,
    out_keys: &[K],
    observer: &mut R,
) -> (r: Result<ParallelRun<O>, ExecError<K, E>>)
    requires
        dag@.wf(),
        key_model::<K>(),
        old(observer).bound() >= dag@.len(),
    ensures
        final(observer).logs() == old(observer).logs(),
        final(observer).bound() == old(observer).bound(),
        r is Err ==> *final(observer) == *old(observer),
        out_keys@.len() == 0 ==> (r matches Err(ExecError::InternalInvariant(m)) && m@
            == "outputs must be non-empty"@),
        out_keys@.len() > 0 && cfg.max_workers == 0 ==> (r matches Err(ExecError::InternalInvariant(m))
            && m@ == "max_workers must be > 0"@),
        out_keys@.len() > 0 && cfg.max_workers > 0 && cfg.max_in_flight == 0 ==> (r matches Err(
            ExecError::InternalInvariant(m),
        ) && m@ == "max_in_flight must be > 0"@),
        out_keys@.len() > 0 && cfg.max_workers > 0 && cfg.max_in_flight > 0 && cfg.worker_queue_cap == 0 ==> (
        r matches Err(ExecError::InternalInvariant(m)) && m@ == "worker_queue_cap must be > 0"@),
        out_keys@.len() > 0 && cfg.max_workers > 0 && cfg.max_in_flight > 0 && cfg.worker_queue_cap > 0
            && !dag@.all_present(out_keys@) ==> exists|j: int|
            dag@.first_missing(out_keys@, j) && r == Err::<ParallelRun<O>, ExecError<K, E>>(
                ExecError::OutputMissing(out_keys@[j]),
            ),
        out_keys@.len() > 0 && cfg.max_workers > 0 && cfg.max_in_flight > 0 && cfg.worker_queue_cap > 0
            && dag@.all_present(out_keys@) ==> (r matches Ok(run) && run.wf(dag@) && run.completed().len() == 0
            && run.in_flight_count() == 0 && run.requested() == dag@.output_roots(out_keys@)
            && run.max_in_flight_spec() == cfg.max_in_flight && run.phase_spec() is Outer
            && run.worker_count() == cfg.max_workers && run.cap() == effective_cap(*cfg)
            && run.values_ok::<K, E, F>(dag@) && (old(observer).logs() ==> final(observer).log()
            == old(observer).log() + run.events())),
{
    let ghost d = dag@;
    if out_keys.len() == 0 {
        return Err(ExecError::InternalInvariant("outputs must be non-empty"));
    }
    if cfg.max_workers == 0 {
        return Err(ExecError::InternalInvariant("max_workers must be > 0"));
    }
    if cfg.max_in_flight == 0 {
        return Err(ExecError::InternalInvariant("max_in_flight must be > 0"));
    }
    if cfg.worker_queue_cap == 0 {
        return Err(ExecError::InternalInvariant("worker_queue_cap must be > 0"));
    }
    let needed = match mark_needed(dag, out_keys) {
        Ok(needed) => needed,
        Err(e) => {
            return Err(e);
        },
    };
    let ghost roots = d.output_roots(out_keys@);
    proof {
        d.lemma_needed_of_closed(roots);
    }
    let (dependents, indeg, needed_count) = build_kahn_metadata(dag, &needed);
    let n = dag.node_count();
    let mut vals: Vec<Option<Arc<O>>> = Vec::with_capacity(n);
    for i in 0..n
        invariant
            vals@.len() == i,
            forall|k: int| 0 <= k < i ==> #[trigger] vals@[k] is None,
    {
        vals.push(None);
    }
    proof {
        assert forall|i: int| 0 <= i < n implies #[trigger] indeg@[i] == if needed@[i] {
            unresolved(d.deps(i), Seq::empty())
        } else {
            0
        } by {
            lemma_unresolved_empty(d.deps(i));
        }
    }
    let ready = seed_ready(dag, &needed, &indeg, observer);
    let running: Vec<bool> = vec![false; n];

    let n_workers = cfg.max_workers;
    let per_worker = cfg.worker_queue_cap.saturating_add(1);
    let physical_max = match n_workers.checked_mul(per_worker) {
        Some(m) => {
            assert(m > 0) by (nonlinear_arith)
                requires
                    m == n_workers * per_worker,
                    n_workers > 0,
                    per_worker > 0,
            ;
            m
        },
        None => usize::MAX,
    };
    let effective_cap = if cfg.max_in_flight < physical_max {
        cfg.max_in_flight
    } else {
        physical_max
    };

    let run = ParallelRun {
        needed,
        dependents,
        indeg,
        needed_count,
        vals,
        ready,
        running,
        n_workers,
        effective_cap,
        max_in_flight: cfg.max_in_flight,
        processed: 0,
        in_flight: 0,
        next_worker: 0,
        pending: None,
        awaiting: None,
        phase: Phase::Outer,
        done: Ghost(Seq::empty()),
        roots: Ghost(roots),
        events: Ghost(ready_events(ready@, 0)),
    };
    proof {
        lemma_count_pending_empty(run.needed@, n as int);
        assert(run.needed@.take(n as int) =~= run.needed@);
        assert(run.running@ =~= Seq::new(n as nat, |i: int| false));
        lemma_count_true_none(run.running@);
        assert(d.is_topo_prefix(run.needed@, Seq::empty()));
        let done = run.done@;
        assert(done =~= Seq::<usize>::empty());
        assert(dependents_ok(d, run.needed@, run.dependents@.map_values(|v: Vec<usize>| v@)));
        assert(indeg_ok(d, run.needed@, done, run.indeg@));
        assert(scheduled(d, run.needed@, done, run.vals@));
        assert(run.in_flight == count_true(run.running@));
        assert forall|k: int| 0 <= k < run.ready@.len() implies #[trigger] run.ready@[k] < n && waiting_to_run(
                run.needed@,
                run.running@,
                unresolved(d.deps(run.ready@[k] as int), done),
                done,
                run.ready@[k],
            ) by {
            assert(!done.contains(run.ready@[k]));
        }
        assert(run.processed + count_pending(run.needed@, done, n as int) == run.needed_count);
        assert(0 < run.effective_cap <= run.max_in_flight);
        let evs = run.events@;
        assert forall|k: int| 0 <= k < evs.len() implies #[trigger] evs[k] is Ready by {}
        lemma_workers_below_def(evs, run.n_workers as nat);
        lemma_seen_seed(run.ready@);
        assert(run_log_ok(d, Seq::empty(), done, run.running@));
        lemma_run_log_ready(d, Seq::empty(), evs, done, run.running@);
        assert(Seq::<ObsEvent>::empty() + evs =~= evs);
        assert(run.wf(d));
    }
    Ok(run)
}

spec fn needed_ok(needed: Seq<bool>, done: Seq<usize>, i: int) -> bool {
    needed[i] && !done.contains(i as usize)
}

spec fn phase_rank(p: Phase) -> nat {
    match p {
        Phase::Outer => 2,
        Phase::Inner => 1,
        _ => 0,
    }
}

/// With no `true` entry counted, every entry is `false`.
proof fn lemma_count_true_zero_none(b: Seq<bool>)
    requires
        count_true(b) == 0,
    ensures
        forall|i: int| 0 <= i < b.len() ==> !#[trigger] b[i],
    decreases b.len(),
{
    if b.len() > 0 {
        lemma_count_true_zero_none(b.drop_last());
        assert forall|i: int| 0 <= i < b.len() implies !#[trigger] b[i] by {
            if i < b.len() - 1 {
                assert(b.drop_last()[i] == b[i]);
            }
        }
    }
}

proof fn lemma_count_true_none(b: Seq<bool>)
    requires
        forall|i: int| 0 <= i < b.len() ==> !#[trigger] b[i],
    ensures
        count_true(b) == 0,
    decreases b.len(),
{
    if b.len() > 0 {
        assert forall|i: int| 0 <= i < b.drop_last().len() implies !#[trigger] b.drop_last()[i] by {
            assert(b.drop_last()[i] == b[i]);
        }
        lemma_count_true_none(b.drop_last());
    }
}


/// Ready notifications name no worker.
proof fn lemma_ready_keeps_workers(log: Seq<ObsEvent>, rel: Seq<usize>, base: nat, n: nat)
    requires
        workers_below(log, n),
    ensures
        workers_below(log + ready_events(rel, base), n),
{
    lemma_workers_below_def(ready_events(rel, base), n);
    lemma_workers_below_append(log, ready_events(rel, base), n);
}


/// Each node of `done` holds the value its kind gives in `vals`.
pub open spec fn all_values_ok<K, O, E, F: Fn(&[Arc<O>]) -> Result<O, E>>(
    d: DagModel<K, O, F>,
    done: Seq<usize>,
    vals: Seq<Option<Arc<O>>>,
) -> bool {
    forall|k: int| 0 <= k < done.len() ==> value_ok::<K, O, E, F>(d, vals, #[trigger] done[k] as int)
}

/// Completing node `x`, whose dependencies are all complete, with the value its kind gives
/// keeps every completed node's value correct.
proof fn lemma_values_push<K, O, E, F: Fn(&[Arc<O>]) -> Result<O, E>>(
    d: DagModel<K, O, F>,
    needed: Seq<bool>,
    done: Seq<usize>,
    vals: Seq<Option<Arc<O>>>,
    x: usize,
    v: Arc<O>,
)
    requires
        scheduled(d, needed, done, vals),
        all_values_ok::<K, O, E, F>(d, done, vals),
        x < d.len(),
        !done.contains(x),
        forall|j: int| 0 <= j < d.deps(x as int).len() ==> done.contains(#[trigger] d.deps(x as int)[j]),
        match d.nodes[x as int].kind {
            NodeKind::Source(a) => v == a,
            NodeKind::Task(f) => exists|s: &[Arc<O>]|
                args_match(d, vals, x as int, s@) && #[trigger] f.ensures((s,), Ok::<O, E>(*v)),
        },
    ensures
        all_values_ok::<K, O, E, F>(d, done.push(x), vals.update(x as int, Some(v))),
{
    assert(executed::<K, O, E, F>(d, needed, done, vals));
    lemma_executed_frame::<K, O, E, F>(d, needed, done, vals, x, v);
    let vals2 = vals.update(x as int, Some(v));
    assert forall|k: int| 0 <= k < done.push(x).len() implies value_ok::<K, O, E, F>(
        d,
        vals2,
        #[trigger] done.push(x)[k] as int,
    ) by {
        if k < done.len() {
            assert(done.push(x)[k] == done[k]);
        } else {
            assert(done.push(x)[k] == x);
            match d.nodes[x as int].kind {
                NodeKind::Task(f) => {
                    let s = choose|s: &[Arc<O>]| args_match(d, vals, x as int, s@) && #[trigger] f.ensures((s,), Ok::<O, E>(*v));
                    assert forall|j: int| 0 <= j < s@.len() implies vals2[#[trigger] d.deps(x as int)[j] as int] == Some(s@[j]) by {
                        assert(done.contains(d.deps(x as int)[j]));
                        assert(d.deps(x as int)[j] != x);
                    }
                    assert(args_match(d, vals2, x as int, s@));
                    assert(vals2[x as int] == Some(v));
                    assert(f.ensures((s,), Ok::<O, E>(*v)));
                    assert(vals2[x as int]->Some_0 == v);
                    assert(f.ensures((s,), Ok::<O, E>(*(vals2[x as int]->Some_0))));
                    assert(value_ok::<K, O, E, F>(d, vals2, x as int));
                },
                NodeKind::Source(_) => {},
            }
        }
    }
}


/// Every node of `s` is on the ready list of `ev`.
#[verifier::opaque]
spec fn all_seen(ev: Seq<ObsEvent>, s: Seq<usize>) -> bool {
    forall|k: int| 0 <= k < s.len() ==> ready_ids(ev).contains(#[trigger] s[k])
}

/// The run's log says every start follows a ready notification for its node, and every node
/// waiting in the queue, held back or handed out is on its ready list.
spec fn seen_ok(ev: Seq<ObsEvent>, q: Seq<usize>, pending: Option<usize>, awaiting: Option<usize>) -> bool {
    &&& ready_before_start(ev)
    &&& all_seen(ev, q)
    &&& pending matches Some(p) ==> ready_ids(ev).contains(p)
    &&& awaiting matches Some(a) ==> ready_ids(ev).contains(a)
}

/// Ready notifications for `rel`, appended to the log while `rel` joins the queue, keep
/// `seen_ok`.
proof fn lemma_seen_release(
    ev: Seq<ObsEvent>,
    q: Seq<usize>,
    rel: Seq<usize>,
    base: nat,
    pending: Option<usize>,
    awaiting: Option<usize>,
)
    requires
        seen_ok(ev, q, pending, awaiting),
    ensures
        seen_ok(ev + ready_events(rel, base), q + rel, pending, awaiting),
{
    reveal(all_seen);
    let ev2 = ev + ready_events(rel, base);
    lemma_ready_ids_ready(ev, rel, base);
    lemma_ready_before_start_ready(ev, rel, base);
    let r = ready_ids(ev);
    assert forall|x: usize| r.contains(x) implies ready_ids(ev2).contains(x) by {
        let t = choose|t: int| 0 <= t < r.len() && r[t] == x;
        assert((r + rel)[t] == x);
    }
    assert forall|k: int| 0 <= k < (q + rel).len() implies ready_ids(ev2).contains(#[trigger] (q + rel)[k]) by {
        if k < q.len() {
            assert((q + rel)[k] == q[k]);
            assert(r.contains(q[k]));
        } else {
            assert((q + rel)[k] == rel[k - q.len()]);
            assert((r + rel)[r.len() + k - q.len()] == rel[k - q.len()]);
        }
    }
}

/// A notification that is not a ready one leaves the ready list as it is, and keeps `seen_ok`
/// when a start it adds is of a node on the list.
proof fn lemma_seen_push(
    ev: Seq<ObsEvent>,
    e: ObsEvent,
    q: Seq<usize>,
    pending: Option<usize>,
    awaiting: Option<usize>,
)
    requires
        ready_before_start(ev),
        all_seen(ev, q),
        !(e is Ready),
        e is Start ==> ready_ids(ev).contains(e->Start_id),
    ensures
        ready_ids(ev.push(e)) == ready_ids(ev),
        ready_before_start(ev.push(e)),
        all_seen(ev.push(e), q),
{
    reveal(all_seen);
    lemma_ready_ids_push(ev, e);
    lemma_ready_before_start_push(ev, e);
}

/// Dropping the first node of the queue keeps the rest on the ready list.
proof fn lemma_seen_pop(ev: Seq<ObsEvent>, q: Seq<usize>)
    requires
        all_seen(ev, q),
        q.len() > 0,
    ensures
        all_seen(ev, q.drop_first()),
        ready_ids(ev).contains(q[0]),
{
    reveal(all_seen);
    assert forall|k: int| 0 <= k < q.drop_first().len() implies ready_ids(ev).contains(#[trigger] q.drop_first()[k]) by {
        assert(q.drop_first()[k] == q[k + 1]);
    }
}

/// The seed queue is the whole ready list of the seed notifications.
proof fn lemma_seen_seed(q: Seq<usize>)
    ensures
        seen_ok(ready_events(q, 0), q, None, None),
{
    lemma_seen_empty();
    lemma_seen_release(Seq::empty(), Seq::empty(), q, 0, None, None);
    assert(Seq::<ObsEvent>::empty() + ready_events(q, 0) =~= ready_events(q, 0));
    assert(Seq::<usize>::empty() + q =~= q);
}

/// A finished task whose completion releases `rel` keeps `seen_ok`.
proof fn lemma_seen_complete(
    ev: Seq<ObsEvent>,
    id: usize,
    q: Seq<usize>,
    rel: Seq<usize>,
    pending: Option<usize>,
    awaiting: Option<usize>,
)
    requires
        seen_ok(ev, q, pending, awaiting),
    ensures
        seen_ok(ev.push(ObsEvent::Finish { id }) + ready_events(rel, q.len()), q + rel, pending, awaiting),
{
    lemma_seen_push(ev, ObsEvent::Finish { id }, q, pending, awaiting);
    lemma_seen_release(ev.push(ObsEvent::Finish { id }), q, rel, q.len(), pending, awaiting);
}

/// A source node taken off the ready list, started, finished and completed, releasing `rel`,
/// keeps `seen_ok`.
proof fn lemma_seen_source(
    ev: Seq<ObsEvent>,
    id: usize,
    q: Seq<usize>,
    rel: Seq<usize>,
    pending: Option<usize>,
    awaiting: Option<usize>,
)
    requires
        seen_ok(ev, q, pending, awaiting),
        ready_ids(ev).contains(id),
    ensures
        seen_ok(
            ev.push(ObsEvent::Start { id, worker: None }).push(ObsEvent::Finish { id }) + ready_events(rel, q.len()),
            q + rel,
            pending,
            awaiting,
        ),
{
    let st = ObsEvent::Start { id, worker: None };
    lemma_seen_push(ev, st, q, pending, awaiting);
    lemma_seen_complete(ev.push(st), id, q, rel, pending, awaiting);
}

proof fn lemma_seen_empty()
    ensures
        seen_ok(Seq::empty(), Seq::empty(), None, None),
{
    reveal(all_seen);
    lemma_ready_before_start_def(Seq::empty());
}

} // verus!
