use std::collections::HashMap;
use std::hash::Hash;
use std::sync::Arc;
use vstd::prelude::*;

pub mod common;
pub mod counting;
pub mod kahn;
pub mod observe;
pub mod outcome;
pub mod parallel;
pub mod sequential;

use crate::error::ExecError;
use crate::exec::observe::{ExecObserver, ObsEvent};
use crate::exec::outcome::{count_finish, count_start, queue_log_ok, ready_ids, run_outcome, seq_events_ok, tasks_accept};
use crate::exec::common::initial_ready;
use crate::exec::parallel::ParallelRun;
use crate::graph::{effective_cap, key_model, Dag, ExecutorConfig};
use crate::trace::{max_width, reports_sequential_run, TracedExecution};

verus! {

/// Executes a compiled `Dag`; the parallel scheduler follows `cfg`.
pub struct Executor {
    cfg: ExecutorConfig,
}

impl Executor {
    pub fn new(cfg: ExecutorConfig) -> (e: Self)
        ensures
            e.config() == cfg,
    {
        Executor { cfg }
    }

    pub closed spec fn config(&self) -> ExecutorConfig {
        self.cfg
    }

    /// The configuration this executor was made with.
    pub fn cfg(&self) -> (c: &ExecutorConfig)
        ensures
            *c == self.config(),
    {
        &self.cfg
    }

    /// Computes the requested outputs one node at a time, in dependency order, running
    /// only the nodes that the outputs need, each at most once.
    pub fn run_sequential<K: Eq + Hash + Clone, O, E, F: Fn(&[Arc<O>]) -> Result<O, E>>(
        &self,
        dag: &Dag<K, O, F>,
        outputs: Vec<K>,
    ) -> (r: Result<HashMap<K, Arc<O>>, ExecError<K, E>>)
        requires
            dag@.wf(),
            key_model::<K>(),
            tasks_accept::<K, O, E, F>(dag@, dag@.needed_of(dag@.output_roots(outputs@))),
        ensures
            run_outcome::<K, O, E, F>(
                dag@,
                outputs@,
                match r {
                    Ok(m) => Ok(m@),
                    Err(e) => Err(e),
                },
            ),
    {
        sequential::run(dag, outputs)
    }

    /// Computes the requested outputs as `run_sequential` does, and reports when each needed
    /// node became ready, started and finished, in the order the nodes ran.
    pub fn run_sequential_traced<K: Eq + Hash + Clone, O, E, F: Fn(&[Arc<O>]) -> Result<O, E>>(
        &self,
        dag: &Dag<K, O, F>,
        outputs: Vec<K>,
    ) -> (r: Result<TracedExecution<K, O>, ExecError<K, E>>)
        requires
            dag@.wf(),
            key_model::<K>(),
            tasks_accept::<K, O, E, F>(dag@, dag@.needed_of(dag@.output_roots(outputs@))),
        ensures
            run_outcome::<K, O, E, F>(
                dag@,
                outputs@,
                match r {
                    Ok(t) => Ok(t.outputs@),
                    Err(e) => Err(e),
                },
            ),
            r matches Ok(t) ==> exists|ord: Seq<usize>|
                dag@.is_topo_order(dag@.needed_of(dag@.output_roots(outputs@)), ord)
                    && #[trigger] reports_sequential_run(t.trace, dag@, ord) && exists|evs: Seq<ObsEvent>|
                    #[trigger] seq_events_ok(dag@, ord, evs) && ready_ids(evs) == ord && queue_log_ok(evs) && count_start(evs) == ord.len()
                    && count_finish(evs) == ord.len()
                    && initial_ready(dag@, dag@.needed_of(dag@.output_roots(outputs@)), dag@.len() as int).is_prefix_of(ord)
                        && t.trace.max_frontier_width == max_width(evs),
    {
        sequential::run_traced(dag, outputs)
    }

    /// Starts a bounded-parallelism run of the nodes that `outputs` need, following this
    /// executor's configuration. A driver then performs the scheduler's actions.
    pub fn start_parallel<K: Eq + Hash + Clone, O, E, F: Fn(&[Arc<O>]) -> Result<O, E>, R: ExecObserver>(
        &self,
        dag: &Dag<K, O, F>,
        outputs: &[K],
        observer: &mut R,
    ) -> (r: Result<ParallelRun<O>, ExecError<K, E>>)
        requires
            dag@.wf(),
            key_model::<K>(),
            old(observer).bound() >= dag@.len(),
        ensures
            final(observer).logs() == old(observer).logs(),
            final(observer).bound() == old(observer).bound(),
            r is Err ==> *final(observer) == *old(observer),
            outputs@.len() == 0 ==> (r matches Err(ExecError::InternalInvariant(m)) && m@
                == "outputs must be non-empty"@),
            outputs@.len() > 0 && self.config().max_workers == 0 ==> (r matches Err(
                ExecError::InternalInvariant(m),
            ) && m@ == "max_workers must be > 0"@),
            outputs@.len() > 0 && self.config().max_workers > 0 && self.config().max_in_flight == 0 ==> (
            r matches Err(ExecError::InternalInvariant(m)) && m@ == "max_in_flight must be > 0"@),
            outputs@.len() > 0 && self.config().max_workers > 0 && self.config().max_in_flight > 0
                && self.config().worker_queue_cap == 0 ==> (r matches Err(ExecError::InternalInvariant(m))
                && m@ == "worker_queue_cap must be > 0"@),
            outputs@.len() > 0 && self.config().max_workers > 0 && self.config().max_in_flight > 0
                && self.config().worker_queue_cap > 0 && !dag@.all_present(outputs@) ==> exists|j: int|
                dag@.first_missing(outputs@, j) && r == Err::<ParallelRun<O>, ExecError<K, E>>(
                    ExecError::OutputMissing(outputs@[j]),
                ),
            outputs@.len() > 0 && self.config().max_workers > 0 && self.config().max_in_flight > 0
                && self.config().worker_queue_cap > 0 && dag@.all_present(outputs@) ==> (r matches Ok(run)
                && run.wf(dag@) && run.completed().len() == 0 && run.in_flight_count() == 0
                && run.requested() == dag@.output_roots(outputs@) && run.max_in_flight_spec()
                == self.config().max_in_flight && run.phase_spec() is Outer && run.worker_count()
                == self.config().max_workers && run.cap() == effective_cap(self.config())
                && run.values_ok::<K, E, F>(dag@) && (old(observer).logs() ==> final(observer).log()
                == old(observer).log() + run.events())),
    {
        parallel::start(dag, &self.cfg, outputs, observer)
    }
}

} // verus!
