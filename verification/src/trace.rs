use std::collections::HashMap;
use std::sync::Arc;
use std::time::{Duration, Instant};
use vstd::prelude::*;

use crate::exec::observe::{finish_before, start_before, started_ids, starts_without_worker, ExecObserver, ObsEvent};
use crate::exec::outcome::{lemma_ready_before_start_def, ready_before_start, log_respects_deps, seq_events_ok, starts_name_workers};
use crate::graph::{key_model, Dag, DagModel, NodeId, NodeKind};

verus! {

/// Distinguishes immutable sources from computed tasks in execution reports.
#[derive(Debug, Clone, Copy, PartialEq, Eq, Structural)]
pub enum TraceNodeKind {
    Source,
    Task,
}

/// One node's scheduling and running times, in nanoseconds since the run started.
#[derive(Debug, Clone)]
pub struct NodeTrace<K> {
    pub node_id: NodeId,
    pub key: K,
    pub kind: TraceNodeKind,
    pub deps: Vec<NodeId>,
    pub ready_at: u64,
    pub started_at: u64,
    pub finished_at: u64,
    pub run_duration: u64,
    pub worker_id: Option<usize>,
}

/// Summary of one DAG execution, for benchmarking and diagnostics. Times are in
/// nanoseconds.
#[must_use]
#[derive(Debug, Clone)]
pub struct ExecutionTrace<K> {
    pub nodes: Vec<NodeTrace<K>>,
    pub wall_time: u64,
    pub critical_path_time: u64,
    pub max_frontier_width: usize,
    pub executed_nodes: usize,
}

/// The outputs of a run together with its trace.
#[must_use]
#[derive(Debug)]
pub struct TracedExecution<K, O> {
    pub outputs: HashMap<K, Arc<O>>,
    pub trace: ExecutionTrace<K>,
}

/// std's `Instant`, which proofs see as an opaque value.
#[verifier::external_type_specification]
#[verifier::external_body]
pub struct ExInstant(Instant);

/// The current instant.
///
/// Trusted: `Instant::now` of std; nothing is claimed of the result.
#[verifier::external_body]
fn instant_now() -> Instant {
    Instant::now()
}

/// The time elapsed since `start`.
///
/// Trusted: `Instant::elapsed` of std; nothing is claimed of the result.
#[verifier::external_body]
fn instant_elapsed(start: &Instant) -> Duration {
    start.elapsed()
}

/// The whole number of nanoseconds in `d`.
///
/// Trusted: `Duration::as_nanos` of std; nothing is claimed of the result.
#[verifier::external_body]
fn duration_as_nanos(d: &Duration) -> u128 {
    d.as_nanos()
}

/// Event `e` is a notification of kind `kind` (0: ready, 1: start, 2: finish) for node `i`.
pub open spec fn is_event_of(e: ObsEvent, kind: nat, i: usize) -> bool {
    match e {
        ObsEvent::Ready { id, .. } => kind == 0 && id == i,
        ObsEvent::Start { id, .. } => kind == 1 && id == i,
        ObsEvent::Finish { id } => kind == 2 && id == i,
    }
}

/// The time of the first notification of kind `kind` for node `i`, if any.
pub open spec fn first_time(ev: Seq<ObsEvent>, tm: Seq<u64>, kind: nat, i: usize) -> Option<u64>
    decreases ev.len(),
{
    if ev.len() == 0 {
        None
    } else {
        match first_time(ev.drop_last(), tm.drop_last(), kind, i) {
            Some(t) => Some(t),
            None => if is_event_of(ev.last(), kind, i) {
                Some(tm[ev.len() - 1])
            } else {
                None
            },
        }
    }
}

/// The worker of node `i`: the first worker named by a start of `i`, if any start names one.
pub open spec fn worker_of(ev: Seq<ObsEvent>, i: usize) -> Option<usize>
    decreases ev.len(),
{
    if ev.len() == 0 {
        None
    } else {
        let prev = worker_of(ev.drop_last(), i);
        if prev is Some {
            prev
        } else {
            match ev.last() {
                ObsEvent::Start { id, worker } => if id == i {
                    worker
                } else {
                    None
                },
                _ => None,
            }
        }
    }
}

/// A later notification never moves a node's first ready, start or finish time, nor the
/// worker its first start named: the trace keeps the first start and the first worker of a
/// node that is started twice.
pub proof fn lemma_first_kept(ev: Seq<ObsEvent>, tm: Seq<u64>, e: ObsEvent, t: u64, kind: nat, i: usize)
    requires
        tm.len() == ev.len(),
    ensures
        first_time(ev, tm, kind, i) is Some ==> first_time(ev.push(e), tm.push(t), kind, i) == first_time(
            ev,
            tm,
            kind,
            i,
        ),
        worker_of(ev, i) is Some ==> worker_of(ev.push(e), i) == worker_of(ev, i),
{
    assert(ev.push(e).drop_last() =~= ev);
    assert(tm.push(t).drop_last() =~= tm);
}

/// The largest frontier width among the ready notifications.
pub open spec fn max_width(ev: Seq<ObsEvent>) -> nat
    decreases ev.len(),
{
    if ev.len() == 0 {
        0
    } else {
        let prev = max_width(ev.drop_last());
        match ev.last() {
            ObsEvent::Ready { width, .. } => if width > prev {
                width as nat
            } else {
                prev
            },
            _ => prev,
        }
    }
}

/// The largest frontier width is the largest width that a ready notification reports: no
/// ready notification reports more, and one reports exactly that (unless it is 0).
pub proof fn lemma_max_width_is_largest(ev: Seq<ObsEvent>)
    ensures
        forall|p: int| 0 <= p < ev.len() && #[trigger] ev[p] is Ready ==> ev[p]->Ready_width <= max_width(ev),
        max_width(ev) == 0 || exists|p: int| 0 <= p < ev.len() && #[trigger] ev[p] is Ready && ev[p]->Ready_width == max_width(ev),
    decreases ev.len(),
{
    if ev.len() > 0 {
        let pre = ev.drop_last();
        lemma_max_width_is_largest(pre);
        assert forall|p: int| 0 <= p < ev.len() && #[trigger] ev[p] is Ready implies ev[p]->Ready_width <= max_width(ev) by {
            if p < ev.len() - 1 {
                assert(pre[p] == ev[p]);
            }
        }
        if max_width(ev) != 0 && max_width(ev) == max_width(pre) {
            let p = choose|p: int| 0 <= p < pre.len() && #[trigger] pre[p] is Ready && pre[p]->Ready_width == max_width(pre);
            assert(ev[p] == pre[p]);
        } else if max_width(ev) != 0 {
            assert(ev[ev.len() - 1] == ev.last());
        }
    }
}

/// `t`, or `dflt` when there is none.
pub open spec fn time_or(t: Option<u64>, dflt: u64) -> u64 {
    match t {
        Some(x) => x,
        None => dflt,
    }
}

/// When node `i` first started, or 0 if it never did.
pub open spec fn start_time(ev: Seq<ObsEvent>, tm: Seq<u64>, i: usize) -> u64 {
    time_or(first_time(ev, tm, 1, i), 0)
}

/// When node `i` first finished, or its start time if it never did.
pub open spec fn finish_time(ev: Seq<ObsEvent>, tm: Seq<u64>, i: usize) -> u64 {
    time_or(first_time(ev, tm, 2, i), start_time(ev, tm, i))
}

/// How long node `i` ran: its finish time less its start time, or 0 if that is negative.
pub open spec fn run_time(ev: Seq<ObsEvent>, tm: Seq<u64>, i: usize) -> u64 {
    if finish_time(ev, tm, i) >= start_time(ev, tm, i) {
        (finish_time(ev, tm, i) - start_time(ev, tm, i)) as u64
    } else {
        0
    }
}

/// The nodes of `ids` that `needed` marks, in order.
pub open spec fn needed_ids(ids: Seq<usize>, needed: Seq<bool>) -> Seq<usize>
    decreases ids.len(),
{
    if ids.len() == 0 {
        Seq::empty()
    } else {
        let prev = needed_ids(ids.drop_last(), needed);
        if needed[ids.last() as int] {
            prev.push(ids.last())
        } else {
            prev
        }
    }
}

/// The largest value `lp` gives to a node of `deps` that `needed` marks, or 0.
pub open spec fn max_needed(lp: Seq<u64>, needed: Seq<bool>, deps: Seq<usize>) -> u64
    decreases deps.len(),
{
    if deps.len() == 0 {
        0
    } else {
        let m = max_needed(lp, needed, deps.drop_last());
        let y = deps.last();
        if needed[y as int] && lp[y as int] > m {
            lp[y as int]
        } else {
            m
        }
    }
}

/// `a + b`, or `u64::MAX` when the sum does not fit.
pub open spec fn sat_add(a: u64, b: u64) -> u64 {
    if a + b > u64::MAX {
        u64::MAX
    } else {
        (a + b) as u64
    }
}

/// The longest run time accumulated along dependencies, per node, after visiting `ids` in
/// order from all zeros: a visited node gets its own run time plus the largest value among
/// its needed dependencies.
pub open spec fn longest_after<K, O, F>(
    d: DagModel<K, O, F>,
    needed: Seq<bool>,
    ev: Seq<ObsEvent>,
    tm: Seq<u64>,
    ids: Seq<usize>,
) -> Seq<u64>
    decreases ids.len(),
{
    if ids.len() == 0 {
        Seq::new(d.len(), |i: int| 0u64)
    } else {
        let lp = longest_after(d, needed, ev, tm, ids.drop_last());
        let x = ids.last();
        lp.update(x as int, sat_add(max_needed(lp, needed, d.deps(x as int)), run_time(ev, tm, x)))
    }
}

/// The critical path time: the largest value that a visit of `ids` gives a node.
pub open spec fn critical_after<K, O, F>(
    d: DagModel<K, O, F>,
    needed: Seq<bool>,
    ev: Seq<ObsEvent>,
    tm: Seq<u64>,
    ids: Seq<usize>,
) -> u64
    decreases ids.len(),
{
    if ids.len() == 0 {
        0
    } else {
        let c = critical_after(d, needed, ev, tm, ids.drop_last());
        let v = longest_after(d, needed, ev, tm, ids)[ids.last() as int];
        if v > c {
            v
        } else {
            c
        }
    }
}

/// The kind of trace entry for a node of kind `k`.
pub open spec fn trace_kind<O, F>(k: NodeKind<O, F>) -> TraceNodeKind {
    match k {
        NodeKind::Source(_) => TraceNodeKind::Source,
        NodeKind::Task(_) => TraceNodeKind::Task,
    }
}

/// `nt` reports node `i` of `d` as the notifications `ev`, received at times `tm`, show it.
pub open spec fn describes<K, O, F>(
    nt: NodeTrace<K>,
    d: DagModel<K, O, F>,
    ev: Seq<ObsEvent>,
    tm: Seq<u64>,
    i: usize,
) -> bool {
    &&& nt.node_id == NodeId(i)
    &&& nt.key == d.key(i as int)
    &&& nt.kind == trace_kind(d.nodes[i as int].kind)
    &&& nt.deps@.map_values(|x: NodeId| x.0) == d.deps(i as int)
    &&& nt.ready_at == time_or(first_time(ev, tm, 0, i), 0)
    &&& nt.started_at == start_time(ev, tm, i)
    &&& nt.finished_at == finish_time(ev, tm, i)
    &&& nt.run_duration == run_time(ev, tm, i)
    &&& nt.worker_id == worker_of(ev, i)
}

/// Every entry of `t` finishes by the wall time, and every dependency that `t` lists
/// finishes no later than its dependent starts.
pub open spec fn timing_ok<K, O, F>(t: ExecutionTrace<K>, d: DagModel<K, O, F>) -> bool {
    &&& forall|k: int| 0 <= k < t.nodes@.len() ==> (#[trigger] t.nodes@[k]).finished_at <= t.wall_time
    &&& forall|k: int, m: int|
        0 <= k < t.nodes@.len() && 0 <= m < t.nodes@.len() && d.deps(t.nodes@[k].node_id.0 as int).contains(
            t.nodes@[m].node_id.0,
        ) ==> (#[trigger] t.nodes@[m]).finished_at <= (#[trigger] t.nodes@[k]).started_at
}

/// `t` reports the nodes of `ord`, in that order, as a run without workers made them:
/// each entry names its node, key, kind and dependencies, no entry names a worker, no node
/// starts before it became ready or finishes before it starts, and the critical path fits
/// in the wall time and is the total run time of the longest chain of dependent entries.
pub open spec fn reports_sequential_run<K, O, F>(t: ExecutionTrace<K>, d: DagModel<K, O, F>, ord: Seq<usize>) -> bool {
    &&& t.nodes@.len() == ord.len()
    &&& t.executed_nodes == ord.len()
    &&& forall|k: int|
        0 <= k < ord.len() ==> {
            let nt = #[trigger] t.nodes@[k];
            &&& nt.node_id == NodeId(ord[k])
            &&& nt.key == d.key(ord[k] as int)
            &&& nt.kind == trace_kind(d.nodes[ord[k] as int].kind)
            &&& nt.deps@.map_values(|x: NodeId| x.0) == d.deps(ord[k] as int)
            &&& nt.worker_id is None
            &&& nt.ready_at <= nt.started_at
            &&& nt.started_at <= nt.finished_at
        }
    &&& t.critical_path_time <= t.wall_time
    &&& critical_is_longest_chain(t, d)
    &&& timing_ok(t, d)
}

/// `t` reports a bounded-parallelism run that completed the needed nodes: every needed node
/// is listed once, each after its dependencies; each entry names its node's key, kind and
/// dependencies; exactly the tasks name a worker; no node starts before it became ready or
/// finishes before it starts; and the critical path fits in the wall time and is the total
/// run time of the longest chain of dependent entries.
pub open spec fn reports_parallel_run<K, O, F>(t: ExecutionTrace<K>, d: DagModel<K, O, F>, needed: Seq<bool>) -> bool {
    &&& t.executed_nodes == t.nodes@.len()
    &&& d.is_topo_order(needed, t.nodes@.map_values(|nt: NodeTrace<K>| nt.node_id.0))
    &&& forall|k: int|
        0 <= k < t.nodes@.len() ==> {
            let nt = #[trigger] t.nodes@[k];
            &&& nt.key == d.key(nt.node_id.0 as int)
            &&& nt.kind == trace_kind(d.nodes[nt.node_id.0 as int].kind)
            &&& nt.deps@.map_values(|x: NodeId| x.0) == d.deps(nt.node_id.0 as int)
            &&& (nt.worker_id is Some <==> nt.kind == TraceNodeKind::Task)
            &&& nt.ready_at <= nt.started_at
            &&& nt.started_at <= nt.finished_at
        }
    &&& t.critical_path_time <= t.wall_time
    &&& critical_is_longest_chain(t, d)
    &&& timing_ok(t, d)
}

/// Records scheduler-observed execution times for later reporting.
pub struct TraceObserver {
    started: Instant,
    clock: u64,
    ready_at: Vec<Option<u64>>,
    started_at: Vec<Option<u64>>,
    finished_at: Vec<Option<u64>>,
    worker_id: Vec<Option<usize>>,
    execution_order: Vec<NodeId>,
    max_frontier_width: usize,
    events: Ghost<Seq<ObsEvent>>,
    times: Ghost<Seq<u64>>,
}

impl TraceObserver {
    /// The notifications received, with the clock reading at each.
    pub closed spec fn times(&self) -> Seq<u64> {
        self.times@
    }

    pub closed spec fn inv(&self) -> bool {
        let n = self.ready_at@.len();
        let ev = self.events@;
        let tm = self.times@;
        &&& self.started_at@.len() == n
        &&& self.finished_at@.len() == n
        &&& self.worker_id@.len() == n
        &&& n <= usize::MAX
        &&& tm.len() == ev.len()
        &&& forall|p: int, q: int| 0 <= p <= q < tm.len() ==> tm[p] <= tm[q]
        &&& forall|p: int| 0 <= p < tm.len() ==> tm[p] <= self.clock
        &&& forall|p: int|
            0 <= p < ev.len() ==> match #[trigger] ev[p] {
                ObsEvent::Ready { id, .. } => id < n,
                ObsEvent::Start { id, .. } => id < n,
                ObsEvent::Finish { id } => id < n,
            }
        &&& forall|i: int|
            0 <= i < n ==> #[trigger] self.ready_at@[i] == first_time(ev, tm, 0, i as usize)
                && self.started_at@[i] == first_time(ev, tm, 1, i as usize) && self.finished_at@[i]
                == first_time(ev, tm, 2, i as usize) && self.worker_id@[i] == worker_of(ev, i as usize)
        &&& self.execution_order@.map_values(|id: NodeId| id.0) == started_ids(ev)
        &&& self.max_frontier_width == max_width(ev)
    }

    /// A well-formed observer holds one time per notification, in the order received, and
    /// the times never decrease.
    pub proof fn lemma_times(&self)
        requires
            self.bound() > 0,
        ensures
            self.times().len() == self.log().len(),
            forall|p: int, q: int| 0 <= p <= q < self.times().len() ==> self.times()[p] <= self.times()[q],
    {
    }

    /// An observer for a graph of `node_count` nodes; the clock starts now.
    pub fn new(node_count: usize) -> (o: Self)
        ensures
            o.inv(),
            o.logs(),
            o.log() == Seq::<ObsEvent>::empty(),
            o.times() == Seq::<u64>::empty(),
            o.bound() == node_count,
    {
        let mut ready_at: Vec<Option<u64>> = Vec::with_capacity(node_count);
        let mut started_at: Vec<Option<u64>> = Vec::with_capacity(node_count);
        let mut finished_at: Vec<Option<u64>> = Vec::with_capacity(node_count);
        let mut worker_id: Vec<Option<usize>> = Vec::with_capacity(node_count);
        for i in 0..node_count
            invariant
                ready_at@.len() == i,
                started_at@.len() == i,
                finished_at@.len() == i,
                worker_id@.len() == i,
                forall|k: int| 0 <= k < i ==> #[trigger] ready_at@[k] is None && started_at@[k] is None
                    && finished_at@[k] is None && worker_id@[k] is None,
        {
            ready_at.push(None);
            started_at.push(None);
            finished_at.push(None);
            worker_id.push(None);
        }
        let o = TraceObserver {
            started: instant_now(),
            clock: 0,
            ready_at,
            started_at,
            finished_at,
            worker_id,
            execution_order: Vec::with_capacity(node_count),
            max_frontier_width: 0,
            events: Ghost(Seq::empty()),
            times: Ghost(Seq::empty()),
        };
        assert(o.execution_order@.map_values(|id: NodeId| id.0) =~= Seq::<usize>::empty());
        o
    }

    /// The trace entry of node `id`, after giving it, in `longest`, its run time plus the
    /// largest value there among its needed dependencies.
    fn visit<K: Clone, O, F>(&self, dag: &Dag<K, O, F>, needed: &[bool], longest: &mut Vec<u64>, id: usize) -> (nt:
        NodeTrace<K>)
        requires
            self.inv(),
            dag@.wf(),
            key_model::<K>(),
            self.ready_at@.len() == dag@.len(),
            needed@.len() == dag@.len(),
            id < dag@.len(),
            old(longest)@.len() == dag@.len(),
        ensures
            describes(nt, dag@, self.events@, self.times@, id),
            final(longest)@ == old(longest)@.update(
                id as int,
                sat_add(
                    max_needed(old(longest)@, needed@, dag@.deps(id as int)),
                    run_time(self.events@, self.times@, id),
                ),
            ),
    {
        let ghost d = dag@;
        let ghost ev = self.events@;
        let ghost tm = self.times@;
        assert(self.ready_at@[id as int] == first_time(ev, tm, 0, id));
        let ready = match self.ready_at[id] {
            Some(t) => t,
            None => 0,
        };
        let started = match self.started_at[id] {
            Some(t) => t,
            None => 0,
        };
        let finished = match self.finished_at[id] {
            Some(t) => t,
            None => started,
        };
        let run = finished.saturating_sub(started);
        let deps = dag.node_deps(id);
        let mut parent: u64 = 0;
        let mut j: usize = 0;
        while j < deps.len()
            invariant
                d == dag@,
                d.wf(),
                id < d.len(),
                needed@.len() == d.len(),
                longest@.len() == d.len(),
                deps@.len() == d.deps(id as int).len(),
                forall|m: int| 0 <= m < deps@.len() ==> (#[trigger] deps@[m]).0 == d.deps(id as int)[m],
                j <= deps@.len(),
                parent == max_needed(longest@, needed@, d.deps(id as int).take(j as int)),
            decreases deps@.len() - j,
        {
            let y = deps[j].0;
            proof {
                assert(d.deps(id as int).take(j + 1).drop_last() =~= d.deps(id as int).take(j as int));
                assert(d.deps(id as int)[j as int] == y);
            }
            if needed[y] && longest[y] > parent {
                parent = longest[y];
            }
            j += 1;
        }
        assert(d.deps(id as int).take(deps@.len() as int) =~= d.deps(id as int));
        let lp = parent.saturating_add(run);
        longest.set(id, lp);
        let kind = match dag.node_kind(id) {
            NodeKind::Source(_) => TraceNodeKind::Source,
            NodeKind::Task(_) => TraceNodeKind::Task,
        };
        let key = dag.node_key(id).clone();
        assert(cloned::<K>(d.key(id as int), key));
        let nt = NodeTrace {
            node_id: NodeId(id),
            key,
            kind,
            deps: deps.clone(),
            ready_at: ready,
            started_at: started,
            finished_at: finished,
            run_duration: run,
            worker_id: self.worker_id[id],
        };
        assert(nt.deps@.map_values(|x: NodeId| x.0) =~= d.deps(id as int));
        nt
    }

    /// The trace of the run this observer watched: one entry per node that `needed` marks, in
    /// the order the nodes first started, with the wall time read now.
    pub fn finalize<K: Clone, O, F>(self, dag: &Dag<K, O, F>, needed: &[bool]) -> (r: ExecutionTrace<K>)
        requires
            dag@.wf(),
            key_model::<K>(),
            self.bound() == dag@.len(),
            needed@.len() == dag@.len(),
        ensures
            r.nodes@.len() == needed_ids(started_ids(self.log()), needed@).len(),
            r.executed_nodes == r.nodes@.len(),
            forall|k: int|
                0 <= k < r.nodes@.len() ==> describes(
                    #[trigger] r.nodes@[k],
                    dag@,
                    self.log(),
                    self.times(),
                    needed_ids(started_ids(self.log()), needed@)[k],
                ),
            r.critical_path_time == critical_after(
                dag@,
                needed@,
                self.log(),
                self.times(),
                needed_ids(started_ids(self.log()), needed@),
            ),
            r.max_frontier_width == max_width(self.log()),
            forall|p: int| 0 <= p < self.times().len() ==> #[trigger] self.times()[p] <= r.wall_time,
            log_respects_deps(dag@, self.log()) ==> r.critical_path_time <= r.wall_time,
            log_respects_deps(dag@, self.log()) && dag@.closed_under_deps(needed@) ==> critical_is_longest_chain(
                r,
                dag@,
            ),
            log_respects_deps(dag@, self.log()) && dag@.closed_under_deps(needed@) ==> dag@.is_topo_prefix(
                needed@,
                needed_ids(started_ids(self.log()), needed@),
            ),
    {
        let ghost d = dag@;
        let ghost ev = self.events@;
        let ghost tm = self.times@;
        let ghost resp = log_respects_deps(d, ev);
        let mut this = self;
        let wall_time = this.elapsed();
        let n = dag.node_count();
        let mut longest: Vec<u64> = Vec::with_capacity(n);
        for i in 0..n
            invariant
                longest@.len() == i,
                forall|m: int| 0 <= m < i ==> #[trigger] longest@[m] == 0u64,
        {
            longest.push(0);
        }
        let ghost order = started_ids(ev);
        proof {
            assert(longest@ =~= longest_after(d, needed@, ev, tm, Seq::empty()));
            lemma_started_ids(ev);
            assert(order.take(0) =~= Seq::<usize>::empty());
        }
        let mut nodes: Vec<NodeTrace<K>> = Vec::new();
        let mut critical: u64 = 0;
        let mut k: usize = 0;
        while k < this.execution_order.len()
            invariant
                d == dag@,
                d.wf(),
                key_model::<K>(),
                n == d.len(),
                needed@.len() == n,
                this.inv(),
                this.ready_at@.len() == n,
                longest@.len() == n,
                this.events@ == ev,
                this.times@ == tm,
                this.clock == wall_time,
                order == started_ids(ev),
                this.execution_order@.map_values(|x: NodeId| x.0) == order,
                order.no_duplicates(),
                forall|x: usize|
                    #[trigger] order.contains(x) <==> exists|p: int| 0 <= p < ev.len() && is_event_of(#[trigger] ev[p], 1, x),
                k <= order.len(),
                longest@ == longest_after(d, needed@, ev, tm, needed_ids(order.take(k as int), needed@)),
                critical == critical_after(d, needed@, ev, tm, needed_ids(order.take(k as int), needed@)),
                nodes@.len() == needed_ids(order.take(k as int), needed@).len(),
                forall|m: int|
                    0 <= m < nodes@.len() ==> describes(
                        #[trigger] nodes@[m],
                        d,
                        ev,
                        tm,
                        needed_ids(order.take(k as int), needed@)[m],
                    ),
                resp == log_respects_deps(d, ev),
                resp ==> forall|x: int| 0 <= x < n ==> #[trigger] longest@[x] <= finish_time(ev, tm, x as usize),
                resp ==> critical <= wall_time,
            decreases order.len() - k,
        {
            let id = this.execution_order[k].0;
            let ghost done = order.take(k as int);
            proof {
                assert(order[k as int] == id);
                assert(order.contains(id));
                let p = choose|p: int| 0 <= p < ev.len() && is_event_of(#[trigger] ev[p], 1, id);
                assert(ev[p] matches ObsEvent::Start { id: i2, .. } && i2 == id);
                assert(order.take(k + 1).drop_last() =~= done);
                assert(order.take(k + 1).last() == id);
            }
            if needed[id] {
                let ghost lp0 = longest@;
                let nt = this.visit(dag, needed, &mut longest, id);
                let lp = longest[id];
                if lp > critical {
                    critical = lp;
                }
                nodes.push(nt);
                proof {
                    let ids1 = needed_ids(order.take(k + 1), needed@);
                    assert(ids1 == needed_ids(done, needed@).push(id));
                    assert(ids1.drop_last() == needed_ids(done, needed@));
                    assert forall|m: int| 0 <= m < nodes@.len() implies describes(
                        #[trigger] nodes@[m],
                        d,
                        ev,
                        tm,
                        ids1[m],
                    ) by {
                        if m < nodes@.len() - 1 {
                            assert(ids1[m] == needed_ids(done, needed@)[m]);
                        }
                    }
                    if resp {
                        lemma_visit_bound(d, needed@, ev, tm, lp0, id, wall_time);
                    }
                }
            }
            k += 1;
        }
        proof {
            assert(order.take(order.len() as int) =~= order);
            if resp && d.closed_under_deps(needed@) {
                lemma_start_order_topological(d, needed@, ev);
            }
        }
        let r = ExecutionTrace {
            executed_nodes: nodes.len(),
            nodes,
            wall_time,
            critical_path_time: critical,
            max_frontier_width: this.max_frontier_width,
        };
        proof {
            if resp && d.closed_under_deps(needed@) {
                lemma_trace_critical(r, d, needed@, ev, tm);
            }
        }
        r
    }

    /// Nanoseconds since the start, never less than an earlier reading.
    fn elapsed(&mut self) -> (t: u64)
        ensures
            t >= old(self).clock,
            final(self).clock == t,
            final(self).started == old(self).started,
            final(self).ready_at == old(self).ready_at,
            final(self).started_at == old(self).started_at,
            final(self).finished_at == old(self).finished_at,
            final(self).worker_id == old(self).worker_id,
            final(self).execution_order == old(self).execution_order,
            final(self).max_frontier_width == old(self).max_frontier_width,
            final(self).events == old(self).events,
            final(self).times == old(self).times,
    {
        let d = instant_elapsed(&self.started);
        let nanos = duration_as_nanos(&d);
        let reading: u64 = if nanos > 0xFFFF_FFFF_FFFF_FFFFu128 {
            0xFFFF_FFFF_FFFF_FFFFu64
        } else {
            nanos as u64
        };
        let t = if reading < self.clock {
            self.clock
        } else {
            reading
        };
        self.clock = t;
        t
    }
}

impl ExecObserver for TraceObserver {
    open spec fn logs(&self) -> bool {
        true
    }

    closed spec fn log(&self) -> Seq<ObsEvent> {
        self.events@
    }

    /// A well-formed observer accepts the ids of the graph it was made for; any other accepts none.
    closed spec fn bound(&self) -> nat {
        if self.inv() {
            self.ready_at@.len()
        } else {
            0
        }
    }

    fn mark_ready(&mut self, id: NodeId, frontier_width: usize)
        ensures
            final(self).times().len() == old(self).times().len() + 1,
            final(self).times().drop_last() == old(self).times(),
    {
        let i = id.0;
        if self.ready_at[i].is_none() {
            let now = self.elapsed();
            self.ready_at.set(i, Some(now));
        }
        if frontier_width > self.max_frontier_width {
            self.max_frontier_width = frontier_width;
        }
        let ghost e = ObsEvent::Ready { id: i, width: frontier_width };
        let ghost ev0 = self.events@;
        let ghost tm0 = self.times@;
        self.events = Ghost(ev0.push(e));
        self.times = Ghost(tm0.push(self.clock));
        proof {
            lemma_push_event(ev0, tm0, e, self.clock);
            assert(self.execution_order@.map_values(|x: NodeId| x.0) == started_ids(self.events@));
        }
    }

    fn mark_start(&mut self, id: NodeId, worker_id: Option<usize>)
        ensures
            final(self).times().len() == old(self).times().len() + 1,
            final(self).times().drop_last() == old(self).times(),
    {
        let i = id.0;
        let ghost ev0 = self.events@;
        let ghost tm0 = self.times@;
        let ghost order0 = self.execution_order@;
        proof {
            lemma_first_time(ev0, tm0, 1, i);
            lemma_started_ids(ev0);
            assert(self.ready_at@[i as int] == first_time(ev0, tm0, 0, i));
        }
        if self.started_at[i].is_none() {
            let now = self.elapsed();
            self.started_at.set(i, Some(now));
            self.execution_order.push(id);
            assert(!started_ids(ev0).contains(i));
        } else {
            assert(started_ids(ev0).contains(i));
        }
        if self.worker_id[i].is_none() {
            self.worker_id.set(i, worker_id);
        }
        let ghost e = ObsEvent::Start { id: i, worker: worker_id };
        self.events = Ghost(ev0.push(e));
        self.times = Ghost(tm0.push(self.clock));
        proof {
            lemma_push_event(ev0, tm0, e, self.clock);
            assert(self.execution_order@.map_values(|x: NodeId| x.0) =~= started_ids(self.events@));
        }
    }

    fn mark_finish(&mut self, id: NodeId)
        ensures
            final(self).times().len() == old(self).times().len() + 1,
            final(self).times().drop_last() == old(self).times(),
    {
        let i = id.0;
        if self.finished_at[i].is_none() {
            let now = self.elapsed();
            self.finished_at.set(i, Some(now));
        }
        let ghost e = ObsEvent::Finish { id: i };
        let ghost ev0 = self.events@;
        let ghost tm0 = self.times@;
        self.events = Ghost(ev0.push(e));
        self.times = Ghost(tm0.push(self.clock));
        proof {
            lemma_push_event(ev0, tm0, e, self.clock);
            assert(self.execution_order@.map_values(|x: NodeId| x.0) == started_ids(self.events@));
        }
    }
}

/// How the summaries of a log change when one more notification, at time `t`, is appended.
proof fn lemma_push_event(ev: Seq<ObsEvent>, tm: Seq<u64>, e: ObsEvent, t: u64)
    requires
        tm.len() == ev.len(),
    ensures
        forall|kind: nat, i: usize|
            #[trigger] first_time(ev.push(e), tm.push(t), kind, i) == match first_time(ev, tm, kind, i) {
                Some(x) => Some(x),
                None => if is_event_of(e, kind, i) {
                    Some(t)
                } else {
                    None
                },
            },
        forall|i: usize|
            #[trigger] worker_of(ev.push(e), i) == if worker_of(ev, i) is Some {
                worker_of(ev, i)
            } else {
                match e {
                    ObsEvent::Start { id, worker } => if id == i {
                        worker
                    } else {
                        None
                    },
                    _ => None,
                }
            },
        started_ids(ev.push(e)) == match e {
            ObsEvent::Start { id, .. } => if started_ids(ev).contains(id) {
                started_ids(ev)
            } else {
                started_ids(ev).push(id)
            },
            _ => started_ids(ev),
        },
        max_width(ev.push(e)) == match e {
            ObsEvent::Ready { width, .. } => if width > max_width(ev) {
                width as nat
            } else {
                max_width(ev)
            },
            _ => max_width(ev),
        },
{
    assert(ev.push(e).drop_last() =~= ev);
    assert(tm.push(t).drop_last() =~= tm);
}

/// `first_time` names the time of the first notification of its kind for the node, and is
/// `None` exactly when there is none.
proof fn lemma_first_time(ev: Seq<ObsEvent>, tm: Seq<u64>, kind: nat, i: usize)
    requires
        tm.len() == ev.len(),
    ensures
        first_time(ev, tm, kind, i) is None <==> forall|q: int|
            0 <= q < ev.len() ==> !is_event_of(#[trigger] ev[q], kind, i),
        first_time(ev, tm, kind, i) is Some ==> exists|p: int|
            0 <= p < ev.len() && is_event_of(#[trigger] ev[p], kind, i) && tm[p] == first_time(ev, tm, kind, i)->0
                && forall|q: int| 0 <= q < p ==> !is_event_of(#[trigger] ev[q], kind, i),
    decreases ev.len(),
{
    if ev.len() > 0 {
        let ev1 = ev.drop_last();
        let tm1 = tm.drop_last();
        lemma_first_time(ev1, tm1, kind, i);
        if first_time(ev1, tm1, kind, i) is Some {
            let p = choose|p: int|
                0 <= p < ev1.len() && is_event_of(#[trigger] ev1[p], kind, i) && tm1[p] == first_time(
                    ev1,
                    tm1,
                    kind,
                    i,
                )->0 && forall|q: int| 0 <= q < p ==> !is_event_of(#[trigger] ev1[q], kind, i);
            assert(ev[p] == ev1[p]);
            assert forall|q: int| 0 <= q < p implies !is_event_of(#[trigger] ev[q], kind, i) by {
                assert(ev[q] == ev1[q]);
            }
            assert(!(forall|q: int| 0 <= q < ev.len() ==> !is_event_of(#[trigger] ev[q], kind, i)));
        } else {
            assert forall|q: int| 0 <= q < ev.len() - 1 implies !is_event_of(#[trigger] ev[q], kind, i) by {
                assert(ev[q] == ev1[q]);
            }
            if is_event_of(ev.last(), kind, i) {
                let p = ev.len() - 1;
                assert(is_event_of(ev[p], kind, i));
                assert(!(forall|q: int| 0 <= q < ev.len() ==> !is_event_of(#[trigger] ev[q], kind, i)));
            }
        }
    }
}

/// The nodes of `started_ids` are distinct, and they are exactly the nodes that some
/// notification starts.
proof fn lemma_started_ids(ev: Seq<ObsEvent>)
    ensures
        started_ids(ev).no_duplicates(),
        forall|x: usize|
            #[trigger] started_ids(ev).contains(x) <==> exists|p: int|
                0 <= p < ev.len() && is_event_of(#[trigger] ev[p], 1, x),
    decreases ev.len(),
{
    if ev.len() > 0 {
        let ev1 = ev.drop_last();
        lemma_started_ids(ev1);
        let prev = started_ids(ev1);
        assert forall|x: usize| #[trigger] started_ids(ev).contains(x) <==> exists|p: int|
            0 <= p < ev.len() && is_event_of(#[trigger] ev[p], 1, x) by {
            match ev.last() {
                ObsEvent::Start { id, .. } => {
                    if !prev.contains(id) {
                        let s1 = prev.push(id);
                        assert(s1[prev.len() as int] == id);
                        if s1.contains(x) {
                            let k = choose|k: int| 0 <= k < s1.len() && s1[k] == x;
                            if k < prev.len() {
                                assert(prev[k] == x);
                            }
                        }
                        if prev.contains(x) {
                            let k = choose|k: int| 0 <= k < prev.len() && prev[k] == x;
                            assert(s1[k] == x);
                        }
                    }
                },
                _ => {},
            }
            assert(started_ids(ev).contains(x) <==> (prev.contains(x) || is_event_of(ev.last(), 1, x)));
            if exists|p: int| 0 <= p < ev.len() && is_event_of(#[trigger] ev[p], 1, x) {
                let p = choose|p: int| 0 <= p < ev.len() && is_event_of(#[trigger] ev[p], 1, x);
                if p < ev.len() - 1 {
                    assert(ev1[p] == ev[p]);
                }
            }
            if prev.contains(x) {
                let p = choose|p: int| 0 <= p < ev1.len() && is_event_of(#[trigger] ev1[p], 1, x);
                assert(ev[p] == ev1[p]);
            }
            if is_event_of(ev.last(), 1, x) {
                assert(is_event_of(ev[ev.len() - 1], 1, x));
            }
        }
    }
}

/// Under a log in dependency order, a node's value after its visit stays within its finish
/// time, and no sum saturates.
proof fn lemma_visit_bound<K, O, F>(
    d: DagModel<K, O, F>,
    needed: Seq<bool>,
    ev: Seq<ObsEvent>,
    tm: Seq<u64>,
    lp: Seq<u64>,
    x: usize,
    clock: u64,
)
    requires
        d.wf(),
        x < d.len(),
        lp.len() == d.len(),
        tm.len() == ev.len(),
        forall|p: int, q: int| 0 <= p <= q < tm.len() ==> tm[p] <= tm[q],
        forall|p: int| 0 <= p < tm.len() ==> tm[p] <= clock,
        log_respects_deps(d, ev),
        exists|p: int| 0 <= p < ev.len() && is_event_of(#[trigger] ev[p], 1, x),
        forall|y: int| 0 <= y < d.len() ==> #[trigger] lp[y] <= finish_time(ev, tm, y as usize),
    ensures
        max_needed(lp, needed, d.deps(x as int)) + run_time(ev, tm, x) <= finish_time(ev, tm, x),
        finish_time(ev, tm, x) <= clock,
{
    lemma_start_le_finish(d, ev, tm, x);
    assert forall|j: int|
        0 <= j < d.deps(x as int).len() && needed[d.deps(x as int)[j] as int] implies lp[d.deps(
        x as int,
    )[j] as int] <= start_time(ev, tm, x) by {
        lemma_dep_finished(d, ev, tm, x, j);
    }
    lemma_max_needed_le(lp, needed, d.deps(x as int), start_time(ev, tm, x));
    lemma_time_le_clock(ev, tm, 1, x, clock);
    lemma_time_le_clock(ev, tm, 2, x, clock);
}

/// Every recorded time is at most `clock`.
proof fn lemma_time_le_clock(ev: Seq<ObsEvent>, tm: Seq<u64>, kind: nat, x: usize, clock: u64)
    requires
        tm.len() == ev.len(),
        forall|p: int| 0 <= p < tm.len() ==> tm[p] <= clock,
    ensures
        time_or(first_time(ev, tm, kind, x), 0) <= clock,
{
    lemma_first_time(ev, tm, kind, x);
}

/// In a log in dependency order, a node never finishes before it starts.
proof fn lemma_start_le_finish<K, O, F>(d: DagModel<K, O, F>, ev: Seq<ObsEvent>, tm: Seq<u64>, x: usize)
    requires
        tm.len() == ev.len(),
        forall|p: int, q: int| 0 <= p <= q < tm.len() ==> tm[p] <= tm[q],
        log_respects_deps(d, ev),
    ensures
        start_time(ev, tm, x) <= finish_time(ev, tm, x),
{
    lemma_first_time(ev, tm, 2, x);
    lemma_first_time(ev, tm, 1, x);
    if first_time(ev, tm, 2, x) is Some {
        let f = choose|p: int|
            0 <= p < ev.len() && is_event_of(#[trigger] ev[p], 2, x) && tm[p] == first_time(ev, tm, 2, x)->0
                && forall|q: int| 0 <= q < p ==> !is_event_of(#[trigger] ev[q], 2, x);
        assert(ev[f] == ObsEvent::Finish { id: x });
        assert(start_before(ev, x, f));
        let q = choose|q: int| 0 <= q < f && (#[trigger] ev[q] matches ObsEvent::Start { id, .. } && id == x);
        assert(is_event_of(ev[q], 1, x));
        let s = choose|p: int|
            0 <= p < ev.len() && is_event_of(#[trigger] ev[p], 1, x) && tm[p] == first_time(ev, tm, 1, x)->0
                && forall|q2: int| 0 <= q2 < p ==> !is_event_of(#[trigger] ev[q2], 1, x);
        assert(s <= q);
    }
}

/// In a log in dependency order, each dependency of a started node finished no later than
/// the node first started.
proof fn lemma_dep_finished<K, O, F>(d: DagModel<K, O, F>, ev: Seq<ObsEvent>, tm: Seq<u64>, x: usize, j: int)
    requires
        tm.len() == ev.len(),
        forall|p: int, q: int| 0 <= p <= q < tm.len() ==> tm[p] <= tm[q],
        log_respects_deps(d, ev),
        exists|p: int| 0 <= p < ev.len() && is_event_of(#[trigger] ev[p], 1, x),
        0 <= j < d.deps(x as int).len(),
    ensures
        finish_time(ev, tm, d.deps(x as int)[j]) <= start_time(ev, tm, x),
{
    let y = d.deps(x as int)[j];
    lemma_first_time(ev, tm, 1, x);
    let s = choose|p: int|
        0 <= p < ev.len() && is_event_of(#[trigger] ev[p], 1, x) && tm[p] == first_time(ev, tm, 1, x)->0
            && forall|q: int| 0 <= q < p ==> !is_event_of(#[trigger] ev[q], 1, x);
    assert(ev[s] matches ObsEvent::Start { id, .. } && id == x);
    assert(finish_before(ev, y, s));
    let q = choose|q: int| 0 <= q < s && #[trigger] ev[q] == ObsEvent::Finish { id: y };
    assert(is_event_of(ev[q], 2, y));
    lemma_first_time(ev, tm, 2, y);
    let f = choose|p: int|
        0 <= p < ev.len() && is_event_of(#[trigger] ev[p], 2, y) && tm[p] == first_time(ev, tm, 2, y)->0
            && forall|q2: int| 0 <= q2 < p ==> !is_event_of(#[trigger] ev[q2], 2, y);
    assert(f <= q);
}

/// A bound on every needed value among `deps` bounds their largest.
proof fn lemma_max_needed_le(lp: Seq<u64>, needed: Seq<bool>, deps: Seq<usize>, b: u64)
    requires
        forall|j: int| 0 <= j < deps.len() && needed[deps[j] as int] ==> lp[#[trigger] deps[j] as int] <= b,
    ensures
        max_needed(lp, needed, deps) <= b,
    decreases deps.len(),
{
    if deps.len() > 0 {
        let d2 = deps.drop_last();
        assert forall|j: int| 0 <= j < d2.len() && needed[d2[j] as int] implies lp[#[trigger] d2[j] as int] <= b by {
            assert(d2[j] == deps[j]);
        }
        lemma_max_needed_le(lp, needed, d2, b);
        assert(deps.last() == deps[deps.len() - 1]);
    }
}

/// Keeping the needed nodes of a list of needed nodes keeps them all.
pub proof fn lemma_needed_ids_all(ids: Seq<usize>, needed: Seq<bool>)
    requires
        forall|k: int| 0 <= k < ids.len() ==> #[trigger] needed[ids[k] as int],
    ensures
        needed_ids(ids, needed) == ids,
    decreases ids.len(),
{
    if ids.len() > 0 {
        let i2 = ids.drop_last();
        assert forall|k: int| 0 <= k < i2.len() implies #[trigger] needed[i2[k] as int] by {
            assert(i2[k] == ids[k]);
        }
        lemma_needed_ids_all(i2, needed);
        assert(needed[ids[ids.len() - 1] as int]);
        assert(i2.push(ids.last()) =~= ids);
    }
}

/// Where no start names a worker, no node has one.
pub proof fn lemma_worker_of_none(ev: Seq<ObsEvent>, i: usize)
    requires
        starts_without_worker(ev),
    ensures
        worker_of(ev, i) is None,
    decreases ev.len(),
{
    if ev.len() > 0 {
        let e2 = ev.drop_last();
        assert forall|p: int| 0 <= p < e2.len() implies !(#[trigger] e2[p] matches ObsEvent::Start {
            worker: Some(_),
            ..
        }) by {
            assert(e2[p] == ev[p]);
        }
        lemma_worker_of_none(e2, i);
        assert(!(ev[ev.len() - 1] matches ObsEvent::Start { worker: Some(_), .. }));
    }
}

/// What `finalize` reports of a run without workers that completed the needed nodes in the
/// order `ord`.
pub proof fn lemma_sequential_report<K, O, F>(
    t: ExecutionTrace<K>,
    d: DagModel<K, O, F>,
    needed: Seq<bool>,
    ord: Seq<usize>,
    ev: Seq<ObsEvent>,
    tm: Seq<u64>,
)
    requires
        tm.len() == ev.len(),
        forall|p: int, q: int| 0 <= p <= q < tm.len() ==> tm[p] <= tm[q],
        seq_events_ok(d, ord, ev),
        d.is_topo_order(needed, ord),
        t.nodes@.len() == needed_ids(started_ids(ev), needed).len(),
        t.executed_nodes == t.nodes@.len(),
        forall|k: int|
            0 <= k < t.nodes@.len() ==> describes(
                #[trigger] t.nodes@[k],
                d,
                ev,
                tm,
                needed_ids(started_ids(ev), needed)[k],
            ),
        log_respects_deps(d, ev) ==> t.critical_path_time <= t.wall_time,
        log_respects_deps(d, ev) && d.closed_under_deps(needed) ==> critical_is_longest_chain(t, d),
        d.closed_under_deps(needed),
        d.wf(),
        forall|p: int| 0 <= p < tm.len() ==> tm[p] <= t.wall_time,
        ready_before_start(ev),
    ensures
        reports_sequential_run(t, d, ord),
{
    lemma_timing(t, d, needed, ev, tm);
    lemma_needed_ids_all(ord, needed);
    assert forall|k: int| 0 <= k < ord.len() implies {
        let nt = #[trigger] t.nodes@[k];
        &&& nt.node_id == NodeId(ord[k])
        &&& nt.key == d.key(ord[k] as int)
        &&& nt.kind == trace_kind(d.nodes[ord[k] as int].kind)
        &&& nt.deps@.map_values(|x: NodeId| x.0) == d.deps(ord[k] as int)
        &&& nt.worker_id is None
        &&& nt.ready_at <= nt.started_at
        &&& nt.started_at <= nt.finished_at
    } by {
        lemma_worker_of_none(ev, ord[k]);
        lemma_started_ids(ev);
        assert(started_ids(ev).contains(ord[k]));
        lemma_ready_le_start(ev, tm, ord[k]);
        lemma_start_le_finish(d, ev, tm, ord[k]);
    }
}

/// `needed_ids` keeps exactly the needed members of its list, once each if the list has no
/// repetitions.
pub proof fn lemma_needed_ids_members(ids: Seq<usize>, needed: Seq<bool>)
    ensures
        forall|y: usize|
            #[trigger] needed_ids(ids, needed).contains(y) <==> ids.contains(y) && needed[y as int],
        ids.no_duplicates() ==> needed_ids(ids, needed).no_duplicates(),
    decreases ids.len(),
{
    if ids.len() > 0 {
        let i2 = ids.drop_last();
        let x = ids.last();
        lemma_needed_ids_members(i2, needed);
        let l0 = needed_ids(i2, needed);
        assert forall|y: usize| #[trigger] needed_ids(ids, needed).contains(y) <==> ids.contains(y) && needed[y as int] by {
            if ids.contains(y) {
                let k = choose|k: int| 0 <= k < ids.len() && ids[k] == y;
                if k < i2.len() {
                    assert(i2[k] == y);
                }
            }
            if i2.contains(y) {
                let k = choose|k: int| 0 <= k < i2.len() && i2[k] == y;
                assert(ids[k] == y);
            }
            if needed[x as int] {
                let l1 = l0.push(x);
                assert(l1[l0.len() as int] == x);
                if l1.contains(y) {
                    let k = choose|k: int| 0 <= k < l1.len() && l1[k] == y;
                    if k < l0.len() {
                        assert(l0[k] == y);
                    }
                }
                if l0.contains(y) {
                    let k = choose|k: int| 0 <= k < l0.len() && l0[k] == y;
                    assert(l1[k] == y);
                }
            }
            assert(ids[ids.len() - 1] == x);
        }
        if ids.no_duplicates() {
            assert(i2.no_duplicates()) by {
                assert forall|a: int, b: int| 0 <= a < i2.len() && 0 <= b < i2.len() && a != b implies i2[a] != i2[b] by {
                    assert(i2[a] == ids[a] && i2[b] == ids[b]);
                }
            }
            if needed[x as int] {
                assert(!i2.contains(x)) by {
                    if i2.contains(x) {
                        let k = choose|k: int| 0 <= k < i2.len() && i2[k] == x;
                        assert(ids[k] == ids[ids.len() - 1]);
                    }
                }
                assert(!l0.contains(x));
                let l1 = l0.push(x);
                assert forall|a: int, b: int| 0 <= a < l1.len() && 0 <= b < l1.len() && a != b implies l1[a] != l1[b] by {
                    if a < l0.len() && b < l0.len() {
                        assert(l1[a] == l0[a] && l1[b] == l0[b]);
                    } else if a < l0.len() {
                        assert(l1[a] == l0[a]);
                    } else if b < l0.len() {
                        assert(l1[b] == l0[b]);
                    }
                }
            }
        }
    }
}

/// A log in dependency order stays so when its last notification is dropped.
proof fn lemma_respects_prefix<K, O, F>(d: DagModel<K, O, F>, ev: Seq<ObsEvent>, e: ObsEvent)
    requires
        log_respects_deps(d, ev.push(e)),
    ensures
        log_respects_deps(d, ev),
{
    let l = ev.push(e);
    assert forall|p: int| 0 <= p < ev.len() implies match #[trigger] ev[p] {
        ObsEvent::Start { id, .. } => id < d.len() && forall|j: int|
            0 <= j < d.deps(id as int).len() ==> finish_before(ev, #[trigger] d.deps(id as int)[j], p),
        ObsEvent::Finish { id } => start_before(ev, id, p),
        ObsEvent::Ready { .. } => true,
    } by {
        assert(l[p] == ev[p]);
        match ev[p] {
            ObsEvent::Start { id, .. } => {
                assert forall|j: int| 0 <= j < d.deps(id as int).len() implies finish_before(
                    ev,
                    #[trigger] d.deps(id as int)[j],
                    p,
                ) by {
                    assert(finish_before(l, d.deps(id as int)[j], p));
                    let q = choose|q: int| 0 <= q < p && #[trigger] l[q] == ObsEvent::Finish { id: d.deps(id as int)[j] };
                    assert(ev[q] == l[q]);
                }
            },
            ObsEvent::Finish { id } => {
                assert(start_before(l, id, p));
                let q = choose|q: int| 0 <= q < p && (#[trigger] l[q] matches ObsEvent::Start { id: i2, .. } && i2 == id);
                assert(ev[q] == l[q]);
            },
            ObsEvent::Ready { .. } => {},
        }
    }
}

/// Under a log in dependency order, the needed nodes taken in the order they first started
/// list each node after all of its dependencies.
pub proof fn lemma_start_order_topological<K, O, F>(d: DagModel<K, O, F>, needed: Seq<bool>, ev: Seq<ObsEvent>)
    requires
        d.wf(),
        needed.len() == d.len(),
        d.closed_under_deps(needed),
        log_respects_deps(d, ev),
    ensures
        d.is_topo_prefix(needed, needed_ids(started_ids(ev), needed)),
    decreases ev.len(),
{
    lemma_started_ids(ev);
    lemma_needed_ids_members(started_ids(ev), needed);
    if ev.len() > 0 {
        let e0 = ev.drop_last();
        let e = ev.last();
        assert(e0.push(e) =~= ev);
        lemma_respects_prefix(d, e0, e);
        lemma_start_order_topological(d, needed, e0);
        lemma_started_ids(e0);
        let s0 = started_ids(e0);
        let l0 = needed_ids(s0, needed);
        lemma_needed_ids_members(s0, needed);
        match e {
            ObsEvent::Start { id: x, .. } => {
                if !s0.contains(x) && needed[x as int] {
                    assert(started_ids(ev) == s0.push(x));
                    assert(s0.push(x).drop_last() =~= s0);
                    let l1 = l0.push(x);
                    assert(needed_ids(started_ids(ev), needed) == l1);
                    let p0 = e0.len() as int;
                    assert(ev[p0] == e);
                    assert forall|j: int| 0 <= j < d.deps(x as int).len() implies l0.contains(
                        #[trigger] d.deps(x as int)[j],
                    ) by {
                        let y = d.deps(x as int)[j];
                        assert(finish_before(ev, y, p0));
                        let q = choose|q: int| 0 <= q < p0 && #[trigger] ev[q] == ObsEvent::Finish { id: y };
                        assert(start_before(ev, y, q));
                        let q2 = choose|q2: int| 0 <= q2 < q && (#[trigger] ev[q2] matches ObsEvent::Start { id, .. } && id == y);
                        assert(e0[q2] == ev[q2]);
                        assert(is_event_of(e0[q2], 1, y));
                        assert(s0.contains(y));
                        assert(needed[y as int]);
                    }
                    assert(!l0.contains(x));
                    assert forall|k: int, j: int|
                        0 <= k < l1.len() && 0 <= j < d.deps(l1[k] as int).len() implies l1.take(k).contains(
                        #[trigger] d.deps(l1[k] as int)[j],
                    ) by {
                        if k < l0.len() {
                            assert(l1[k] == l0[k]);
                            assert(l1.take(k) =~= l0.take(k));
                        } else {
                            assert(l1[k] == x);
                            assert(l1.take(k) =~= l0);
                        }
                    }
                    assert forall|k: int| 0 <= k < l1.len() implies #[trigger] l1[k] < d.len() && needed[l1[k] as int] by {
                        if k < l0.len() {
                            assert(l1[k] == l0[k]);
                        }
                    }
                } else {
                    assert(started_ids(ev) == s0 || started_ids(ev) == s0.push(x));
                    if !s0.contains(x) {
                        assert(s0.push(x).drop_last() =~= s0);
                        assert(needed_ids(s0.push(x), needed) == l0);
                    }
                }
            },
            _ => {
                assert(started_ids(ev) == s0);
            },
        }
    }
}

/// Where each start names a worker exactly for a task, a started task has a worker and a
/// source has none.
proof fn lemma_worker_of_kind<K, O, F>(d: DagModel<K, O, F>, ev: Seq<ObsEvent>, i: usize)
    requires
        starts_name_workers(d, ev),
        i < d.len(),
    ensures
        d.nodes[i as int].kind is Source ==> worker_of(ev, i) is None,
        d.nodes[i as int].kind is Task ==> (worker_of(ev, i) is Some <==> exists|p: int|
            0 <= p < ev.len() && is_event_of(#[trigger] ev[p], 1, i)),
    decreases ev.len(),
{
    if ev.len() > 0 {
        let e2 = ev.drop_last();
        assert forall|p: int| 0 <= p < e2.len() implies match #[trigger] e2[p] {
            ObsEvent::Start { id, worker } => id < d.len() && (worker is Some <==> d.nodes[id as int].kind is Task),
            _ => true,
        } by {
            assert(e2[p] == ev[p]);
        }
        lemma_worker_of_kind(d, e2, i);
        let last = ev[ev.len() - 1];
        assert(last == ev.last());
        if exists|p: int| 0 <= p < e2.len() && is_event_of(#[trigger] e2[p], 1, i) {
            let p = choose|p: int| 0 <= p < e2.len() && is_event_of(#[trigger] e2[p], 1, i);
            assert(ev[p] == e2[p]);
        }
        if exists|p: int| 0 <= p < ev.len() && is_event_of(#[trigger] ev[p], 1, i) {
            let p = choose|p: int| 0 <= p < ev.len() && is_event_of(#[trigger] ev[p], 1, i);
            if p < e2.len() {
                assert(e2[p] == ev[p]);
            }
        }
    }
}

/// What `finalize` reports of a bounded-parallelism run that completed the needed nodes, when
/// the observer saw exactly the run's notifications.
pub proof fn lemma_parallel_report<K, O, F>(
    t: ExecutionTrace<K>,
    d: DagModel<K, O, F>,
    needed: Seq<bool>,
    completed: Seq<usize>,
    ev: Seq<ObsEvent>,
    tm: Seq<u64>,
)
    requires
        d.wf(),
        needed.len() == d.len(),
        d.closed_under_deps(needed),
        tm.len() == ev.len(),
        forall|p: int, q: int| 0 <= p <= q < tm.len() ==> tm[p] <= tm[q],
        log_respects_deps(d, ev),
        starts_name_workers(d, ev),
        d.is_topo_order(needed, completed),
        forall|k: int| 0 <= k < completed.len() ==> finish_before(ev, #[trigger] completed[k], ev.len() as int),
        t.nodes@.len() == needed_ids(started_ids(ev), needed).len(),
        t.executed_nodes == t.nodes@.len(),
        forall|k: int|
            0 <= k < t.nodes@.len() ==> describes(
                #[trigger] t.nodes@[k],
                d,
                ev,
                tm,
                needed_ids(started_ids(ev), needed)[k],
            ),
        log_respects_deps(d, ev) ==> t.critical_path_time <= t.wall_time,
        log_respects_deps(d, ev) && d.closed_under_deps(needed) ==> critical_is_longest_chain(t, d),
        log_respects_deps(d, ev) && d.closed_under_deps(needed) ==> d.is_topo_prefix(
            needed,
            needed_ids(started_ids(ev), needed),
        ),
        forall|p: int| 0 <= p < tm.len() ==> tm[p] <= t.wall_time,
        ready_before_start(ev),
    ensures
        reports_parallel_run(t, d, needed),
{
    lemma_timing(t, d, needed, ev, tm);
    let ids = needed_ids(started_ids(ev), needed);
    let tids = t.nodes@.map_values(|nt: NodeTrace<K>| nt.node_id.0);
    assert(tids =~= ids) by {
        assert forall|k: int| 0 <= k < ids.len() implies tids[k] == ids[k] by {
            assert(describes(t.nodes@[k], d, ev, tm, ids[k]));
        }
    }
    lemma_started_ids(ev);
    lemma_needed_ids_members(started_ids(ev), needed);
    assert forall|i: int| 0 <= i < d.len() && needed[i] implies #[trigger] ids.contains(i as usize) by {
        assert(completed.contains(i as usize));
        let k = choose|k: int| 0 <= k < completed.len() && completed[k] == i as usize;
        assert(finish_before(ev, completed[k], ev.len() as int));
        let q = choose|q: int| 0 <= q < ev.len() && #[trigger] ev[q] == ObsEvent::Finish { id: i as usize };
        assert(start_before(ev, i as usize, q));
        let q2 = choose|q2: int| 0 <= q2 < q && (#[trigger] ev[q2] matches ObsEvent::Start { id, .. } && id == i as usize);
        assert(is_event_of(ev[q2], 1, i as usize));
        assert(started_ids(ev).contains(i as usize));
    }
    assert forall|k: int| 0 <= k < t.nodes@.len() implies {
        let nt = #[trigger] t.nodes@[k];
        &&& nt.key == d.key(nt.node_id.0 as int)
        &&& nt.kind == trace_kind(d.nodes[nt.node_id.0 as int].kind)
        &&& nt.deps@.map_values(|x: NodeId| x.0) == d.deps(nt.node_id.0 as int)
        &&& (nt.worker_id is Some <==> nt.kind == TraceNodeKind::Task)
        &&& nt.ready_at <= nt.started_at
        &&& nt.started_at <= nt.finished_at
    } by {
        let x = ids[k];
        assert(ids.contains(x));
        assert(started_ids(ev).contains(x));
        lemma_worker_of_kind(d, ev, x);
        lemma_ready_le_start(ev, tm, x);
        lemma_start_le_finish(d, ev, tm, x);
    }
}


/// Under a log in dependency order, the trace that `finalize` makes of it meets `timing_ok`.
proof fn lemma_timing<K, O, F>(
    t: ExecutionTrace<K>,
    d: DagModel<K, O, F>,
    needed: Seq<bool>,
    ev: Seq<ObsEvent>,
    tm: Seq<u64>,
)
    requires
        d.wf(),
        tm.len() == ev.len(),
        forall|p: int, q: int| 0 <= p <= q < tm.len() ==> tm[p] <= tm[q],
        forall|p: int| 0 <= p < tm.len() ==> tm[p] <= t.wall_time,
        log_respects_deps(d, ev),
        t.nodes@.len() == needed_ids(started_ids(ev), needed).len(),
        forall|k: int|
            0 <= k < t.nodes@.len() ==> describes(
                #[trigger] t.nodes@[k],
                d,
                ev,
                tm,
                needed_ids(started_ids(ev), needed)[k],
            ),
    ensures
        timing_ok(t, d),
{
    let ids = needed_ids(started_ids(ev), needed);
    lemma_started_ids(ev);
    lemma_needed_ids_members(started_ids(ev), needed);
    assert forall|k: int| 0 <= k < t.nodes@.len() implies (#[trigger] t.nodes@[k]).finished_at <= t.wall_time by {
        let x = ids[k];
        lemma_time_le_clock(ev, tm, 1, x, t.wall_time);
        lemma_time_le_clock(ev, tm, 2, x, t.wall_time);
    }
    assert forall|k: int, m: int|
        0 <= k < t.nodes@.len() && 0 <= m < t.nodes@.len() && d.deps(t.nodes@[k].node_id.0 as int).contains(
            t.nodes@[m].node_id.0,
        ) implies (#[trigger] t.nodes@[m]).finished_at <= (#[trigger] t.nodes@[k]).started_at by {
        let x = ids[k];
        let y = ids[m];
        assert(describes(t.nodes@[k], d, ev, tm, x));
        assert(describes(t.nodes@[m], d, ev, tm, y));
        assert(ids.contains(x));
        assert(started_ids(ev).contains(x));
        let j = choose|j: int| 0 <= j < d.deps(x as int).len() && d.deps(x as int)[j] == y;
        lemma_dep_finished(d, ev, tm, x, j);
    }
}


/// Where every start names a worker below `n`, so does every node's worker.
pub proof fn lemma_worker_of_below(ev: Seq<ObsEvent>, i: usize, n: nat)
    requires
        forall|p: int| 0 <= p < ev.len() ==> (#[trigger] ev[p] matches ObsEvent::Start { worker: Some(w), .. } ==> w < n),
    ensures
        worker_of(ev, i) matches Some(w) ==> w < n,
    decreases ev.len(),
{
    if ev.len() > 0 {
        let e2 = ev.drop_last();
        assert forall|p: int| 0 <= p < e2.len() implies (#[trigger] e2[p] matches ObsEvent::Start {
            worker: Some(w),
            ..
        } ==> w < n) by {
            assert(e2[p] == ev[p]);
        }
        lemma_worker_of_below(e2, i, n);
        assert(ev[ev.len() - 1] == ev.last());
    }
}


/// Some notification starts node `x`.
pub open spec fn started_in(ev: Seq<ObsEvent>, x: usize) -> bool {
    exists|p: int| 0 <= p < ev.len() && is_event_of(#[trigger] ev[p], 1, x)
}

/// The total run time of the nodes of `p`.
pub open spec fn chain_time(ev: Seq<ObsEvent>, tm: Seq<u64>, p: Seq<usize>) -> int
    decreases p.len(),
{
    if p.len() == 0 {
        0
    } else {
        run_time(ev, tm, p[0]) + chain_time(ev, tm, p.drop_first())
    }
}

/// After visiting a prefix of distinct nodes, a node keeps the value its own visit gave it,
/// and a node not visited yet has none.
proof fn lemma_longest_frame<K, O, F>(
    d: DagModel<K, O, F>,
    needed: Seq<bool>,
    ev: Seq<ObsEvent>,
    tm: Seq<u64>,
    ids: Seq<usize>,
    j: int,
)
    requires
        ids.no_duplicates(),
        forall|k: int| 0 <= k < ids.len() ==> #[trigger] ids[k] < d.len(),
        0 <= j <= ids.len(),
    ensures
        longest_after(d, needed, ev, tm, ids.take(j)).len() == d.len(),
        forall|k: int|
            0 <= k < j ==> longest_after(d, needed, ev, tm, ids.take(j))[#[trigger] ids[k] as int] == longest_after(
                d,
                needed,
                ev,
                tm,
                ids.take(k + 1),
            )[ids[k] as int],
    decreases j,
{
    if j > 0 {
        lemma_longest_frame(d, needed, ev, tm, ids, j - 1);
        assert(ids.take(j).drop_last() =~= ids.take(j - 1));
        assert(ids.take(j).last() == ids[j - 1]);
        assert forall|k: int| 0 <= k < j implies longest_after(d, needed, ev, tm, ids.take(j))[#[trigger] ids[k] as int]
            == longest_after(d, needed, ev, tm, ids.take(k + 1))[ids[k] as int] by {
            if k < j - 1 {
                assert(ids[k] != ids[j - 1]);
            }
        }
    }
}

/// The largest needed value among `deps` is at least the value of each needed node there.
proof fn lemma_max_needed_ge(lp: Seq<u64>, needed: Seq<bool>, deps: Seq<usize>, j: int)
    requires
        0 <= j < deps.len(),
        needed[deps[j] as int],
    ensures
        max_needed(lp, needed, deps) >= lp[deps[j] as int],
    decreases deps.len(),
{
    if j < deps.len() - 1 {
        lemma_max_needed_ge(lp, needed, deps.drop_last(), j);
        assert(deps.drop_last()[j] == deps[j]);
    }
}

/// Under a log in dependency order, no value of the visit exceeds its node's finish time.
proof fn lemma_longest_bounded<K, O, F>(
    d: DagModel<K, O, F>,
    needed: Seq<bool>,
    ev: Seq<ObsEvent>,
    tm: Seq<u64>,
    ids: Seq<usize>,
    j: int,
)
    requires
        d.wf(),
        tm.len() == ev.len(),
        forall|p: int, q: int| 0 <= p <= q < tm.len() ==> tm[p] <= tm[q],
        log_respects_deps(d, ev),
        forall|k: int| 0 <= k < ids.len() ==> #[trigger] ids[k] < d.len(),
        forall|k: int| 0 <= k < ids.len() ==> started_in(ev, #[trigger] ids[k]),
        0 <= j <= ids.len(),
    ensures
        longest_after(d, needed, ev, tm, ids.take(j)).len() == d.len(),
        forall|y: int| 0 <= y < d.len() ==> #[trigger] longest_after(d, needed, ev, tm, ids.take(j))[y] <= finish_time(ev, tm, y as usize),
        j > 0 ==> max_needed(longest_after(d, needed, ev, tm, ids.take(j - 1)), needed, d.deps(ids[j - 1] as int))
            + run_time(ev, tm, ids[j - 1]) <= finish_time(ev, tm, ids[j - 1]),
    decreases j,
{
    if j > 0 {
        lemma_longest_bounded(d, needed, ev, tm, ids, j - 1);
        assert(ids.take(j).drop_last() =~= ids.take(j - 1));
        assert(ids.take(j).last() == ids[j - 1]);
        let lp = longest_after(d, needed, ev, tm, ids.take(j - 1));
        let x = ids[j - 1];
        assert(started_in(ev, x));
        lemma_visit_bound(d, needed, ev, tm, lp, x, 0xFFFF_FFFF_FFFF_FFFFu64);
    }
}

/// The critical path is at least the value each visit gave its node.
proof fn lemma_critical_ge<K, O, F>(
    d: DagModel<K, O, F>,
    needed: Seq<bool>,
    ev: Seq<ObsEvent>,
    tm: Seq<u64>,
    ids: Seq<usize>,
    j: int,
)
    requires
        0 <= j <= ids.len(),
    ensures
        forall|k: int|
            0 <= k < j ==> critical_after(d, needed, ev, tm, ids.take(j)) >= longest_after(
                d,
                needed,
                ev,
                tm,
                #[trigger] ids.take(k + 1),
            )[ids[k] as int],
    decreases j,
{
    if j > 0 {
        lemma_critical_ge(d, needed, ev, tm, ids, j - 1);
        assert(ids.take(j).drop_last() =~= ids.take(j - 1));
        assert(ids.take(j).last() == ids[j - 1]);
    }
}

/// Under a log in dependency order, the critical path time is at least the total run time
/// along every chain of dependencies among the nodes reported: no chain of work that must run
/// one after another took longer than the critical path.
pub proof fn lemma_critical_path_covers_chains<K, O, F>(
    d: DagModel<K, O, F>,
    needed: Seq<bool>,
    ev: Seq<ObsEvent>,
    tm: Seq<u64>,
    p: Seq<usize>,
)
    requires
        d.wf(),
        needed.len() == d.len(),
        d.closed_under_deps(needed),
        tm.len() == ev.len(),
        forall|a: int, b: int| 0 <= a <= b < tm.len() ==> tm[a] <= tm[b],
        log_respects_deps(d, ev),
        d.is_dep_path(p),
        forall|i: int| 0 <= i < p.len() ==> needed_ids(started_ids(ev), needed).contains(#[trigger] p[i]),
    ensures
        chain_time(ev, tm, p) <= critical_after(d, needed, ev, tm, needed_ids(started_ids(ev), needed)),
{
    let ids = needed_ids(started_ids(ev), needed);
    lemma_started_ids(ev);
    lemma_needed_ids_members(started_ids(ev), needed);
    lemma_start_order_topological(d, needed, ev);
    assert(ids.take(ids.len() as int) =~= ids);
    assert forall|k: int| 0 <= k < ids.len() implies started_in(ev, #[trigger] ids[k]) by {
        assert(ids.contains(ids[k]));
        assert(started_ids(ev).contains(ids[k]));
    }
    lemma_longest_frame(d, needed, ev, tm, ids, ids.len() as int);
    lemma_longest_bounded(d, needed, ev, tm, ids, ids.len() as int);
    lemma_critical_ge(d, needed, ev, tm, ids, ids.len() as int);
    lemma_chain_le(d, needed, ev, tm, ids, p);
    let k0 = choose|k: int| 0 <= k < ids.len() && ids[k] == p[0];
    assert(ids.take(k0 + 1).len() > 0);
}

/// The largest needed value among `deps` is 0 or the value of one of its needed nodes.
proof fn lemma_max_needed_witness(lp: Seq<u64>, needed: Seq<bool>, deps: Seq<usize>)
    ensures
        max_needed(lp, needed, deps) == 0 || exists|j: int|
            0 <= j < deps.len() && needed[deps[j] as int] && max_needed(lp, needed, deps) == lp[#[trigger] deps[j] as int],
    decreases deps.len(),
{
    if deps.len() > 0 {
        lemma_max_needed_witness(lp, needed, deps.drop_last());
        let m = max_needed(lp, needed, deps.drop_last());
        if max_needed(lp, needed, deps) != 0 && max_needed(lp, needed, deps) == m {
            let j = choose|j: int|
                0 <= j < deps.drop_last().len() && needed[deps.drop_last()[j] as int] && m == lp[#[trigger] deps.drop_last()[j] as int];
            assert(deps.drop_last()[j] == deps[j]);
        } else if max_needed(lp, needed, deps) != 0 {
            assert(deps[deps.len() - 1] == deps.last());
        }
    }
}

/// The critical path is 0 or the value that the visit gave one node when it visited it.
proof fn lemma_critical_witness<K, O, F>(
    d: DagModel<K, O, F>,
    needed: Seq<bool>,
    ev: Seq<ObsEvent>,
    tm: Seq<u64>,
    ids: Seq<usize>,
)
    ensures
        critical_after(d, needed, ev, tm, ids) == 0 || exists|k: int|
            0 <= k < ids.len() && critical_after(d, needed, ev, tm, ids) == longest_after(
                d,
                needed,
                ev,
                tm,
                #[trigger] ids.take(k + 1),
            )[ids[k] as int],
    decreases ids.len(),
{
    if ids.len() > 0 {
        let pre = ids.drop_last();
        lemma_critical_witness(d, needed, ev, tm, pre);
        let c = critical_after(d, needed, ev, tm, pre);
        let last = ids.len() - 1;
        assert(ids.take(last + 1) =~= ids);
        if critical_after(d, needed, ev, tm, ids) != 0 && critical_after(d, needed, ev, tm, ids) == c {
            let k = choose|k: int|
                0 <= k < pre.len() && c == longest_after(d, needed, ev, tm, #[trigger] pre.take(k + 1))[pre[k] as int];
            assert(pre.take(k + 1) =~= ids.take(k + 1));
            assert(pre[k] == ids[k]);
        }
    }
}

/// Each reported node's final value in the visit is the total run time of some chain of
/// reported nodes that starts at it.
proof fn lemma_value_is_chain<K, O, F>(
    d: DagModel<K, O, F>,
    needed: Seq<bool>,
    ev: Seq<ObsEvent>,
    tm: Seq<u64>,
    ids: Seq<usize>,
    kx: int,
)
    requires
        d.wf(),
        needed.len() == d.len(),
        tm.len() == ev.len(),
        forall|a: int, b: int| 0 <= a <= b < tm.len() ==> tm[a] <= tm[b],
        log_respects_deps(d, ev),
        d.is_topo_prefix(needed, ids),
        forall|k: int| 0 <= k < ids.len() ==> started_in(ev, #[trigger] ids[k]),
        0 <= kx < ids.len(),
    ensures
        exists|p: Seq<usize>|
            d.is_dep_path(p) && p[0] == ids[kx] && (forall|i: int| 0 <= i < p.len() ==> ids.contains(#[trigger] p[i]))
                && chain_time(ev, tm, p) == longest_after(d, needed, ev, tm, ids)[ids[kx] as int],
    decreases kx,
{
    let x = ids[kx];
    let lp = longest_after(d, needed, ev, tm, ids.take(kx));
    let big_l = longest_after(d, needed, ev, tm, ids);
    lemma_final_value(d, needed, ev, tm, ids, kx);
    lemma_max_needed_witness(lp, needed, d.deps(x as int));
    assert(ids.contains(x));
    let single = seq![x];
    assert(single.drop_first().len() == 0);
    assert(chain_time(ev, tm, single) == run_time(ev, tm, x) + chain_time(ev, tm, single.drop_first()));
    if max_needed(lp, needed, d.deps(x as int)) == 0 {
        assert(d.is_dep_path(single));
        assert(forall|i: int| 0 <= i < single.len() ==> ids.contains(#[trigger] single[i]));
    } else {
        let j = choose|j: int|
            0 <= j < d.deps(x as int).len() && needed[d.deps(x as int)[j] as int] && max_needed(lp, needed, d.deps(x as int))
                == lp[#[trigger] d.deps(x as int)[j] as int];
        let y = d.deps(x as int)[j];
        assert(ids.take(kx).contains(y));
        let pre = ids.take(kx);
        let ky = choose|k: int| 0 <= k < pre.len() && #[trigger] pre[k] == y;
        assert(ids[ky] == y);
        // y holds its final value by the time x is visited
        lemma_longest_frame(d, needed, ev, tm, ids, kx);
        assert(ids.take(ids.len() as int) =~= ids);
        lemma_longest_frame(d, needed, ev, tm, ids, ids.len() as int);
        assert(lp[y as int] == big_l[y as int]);
        lemma_value_is_chain(d, needed, ev, tm, ids, ky);
        let py = choose|p: Seq<usize>|
            d.is_dep_path(p) && p[0] == ids[ky] && (forall|i: int| 0 <= i < p.len() ==> ids.contains(#[trigger] p[i]))
                && chain_time(ev, tm, p) == big_l[ids[ky] as int];
        let p = seq![x] + py;
        assert(p.drop_first() =~= py);
        assert(chain_time(ev, tm, p) == run_time(ev, tm, x) + chain_time(ev, tm, p.drop_first()));
        assert(d.is_dep_path(p)) by {
            assert forall|i: int| 0 <= i < p.len() implies #[trigger] p[i] < d.len() by {
                if i > 0 {
                    assert(p[i] == py[i - 1]);
                }
            }
            assert forall|i: int| 0 <= i < p.len() - 1 implies d.deps(#[trigger] p[i] as int).contains(p[i + 1]) by {
                if i == 0 {
                    assert(p[1] == py[0]);
                    assert(d.deps(x as int)[j] == y);
                } else {
                    assert(p[i] == py[i - 1] && p[i + 1] == py[i]);
                }
            }
        }
        assert forall|i: int| 0 <= i < p.len() implies ids.contains(#[trigger] p[i]) by {
            if i > 0 {
                assert(p[i] == py[i - 1]);
            }
        }
    }
}

/// Under a log in dependency order, the critical path time is the total run time of one
/// chain of dependencies among the nodes reported (the empty chain when it is 0): with
/// `lemma_critical_path_covers_chains`, it is the longest such chain's total, and no more.
pub proof fn lemma_critical_path_attained<K, O, F>(
    d: DagModel<K, O, F>,
    needed: Seq<bool>,
    ev: Seq<ObsEvent>,
    tm: Seq<u64>,
)
    requires
        d.wf(),
        needed.len() == d.len(),
        d.closed_under_deps(needed),
        tm.len() == ev.len(),
        forall|a: int, b: int| 0 <= a <= b < tm.len() ==> tm[a] <= tm[b],
        log_respects_deps(d, ev),
    ensures
        exists|p: Seq<usize>|
            (p.len() == 0 || d.is_dep_path(p)) && (forall|i: int|
                0 <= i < p.len() ==> needed_ids(started_ids(ev), needed).contains(#[trigger] p[i])) && chain_time(ev, tm, p)
                == critical_after(d, needed, ev, tm, needed_ids(started_ids(ev), needed)),
{
    let ids = needed_ids(started_ids(ev), needed);
    lemma_started_ids(ev);
    lemma_needed_ids_members(started_ids(ev), needed);
    lemma_start_order_topological(d, needed, ev);
    assert forall|k: int| 0 <= k < ids.len() implies started_in(ev, #[trigger] ids[k]) by {
        assert(ids.contains(ids[k]));
        assert(started_ids(ev).contains(ids[k]));
    }
    lemma_critical_witness(d, needed, ev, tm, ids);
    let c = critical_after(d, needed, ev, tm, ids);
    if c == 0 {
        let p = Seq::<usize>::empty();
        assert(chain_time(ev, tm, p) == 0);
        assert(forall|i: int| 0 <= i < p.len() ==> ids.contains(#[trigger] p[i]));
    } else {
        let k = choose|k: int| 0 <= k < ids.len() && c == longest_after(d, needed, ev, tm, #[trigger] ids.take(k + 1))[ids[k] as int];
        assert(ids.take(ids.len() as int) =~= ids);
        lemma_longest_frame(d, needed, ev, tm, ids, ids.len() as int);
        lemma_value_is_chain(d, needed, ev, tm, ids, k);
    }
}

/// `ks` picks entries of `t`, each of whose nodes depends on the node of the next one.
pub open spec fn trace_chain<K, O, F>(t: ExecutionTrace<K>, d: DagModel<K, O, F>, ks: Seq<int>) -> bool {
    &&& forall|i: int| 0 <= i < ks.len() ==> 0 <= #[trigger] ks[i] < t.nodes@.len()
    &&& forall|i: int| 0 <= i < ks.len() - 1 ==> #[trigger] trace_step(t, d, ks, i)
}

/// The node of entry `ks[i]` of `t` depends on the node of entry `ks[i + 1]`.
pub open spec fn trace_step<K, O, F>(t: ExecutionTrace<K>, d: DagModel<K, O, F>, ks: Seq<int>, i: int) -> bool {
    d.deps(t.nodes@[ks[i]].node_id.0 as int).contains(t.nodes@[ks[i + 1]].node_id.0)
}

/// The total run time of the entries `ks` of `t`.
pub open spec fn trace_chain_time<K>(t: ExecutionTrace<K>, ks: Seq<int>) -> int
    decreases ks.len(),
{
    if ks.len() == 0 {
        0
    } else {
        t.nodes@[ks[0]].run_duration + trace_chain_time(t, ks.drop_first())
    }
}

/// The critical path of `t` is the total run time of its longest chain of dependent entries:
/// no chain takes longer, and one takes exactly that long.
pub open spec fn critical_is_longest_chain<K, O, F>(t: ExecutionTrace<K>, d: DagModel<K, O, F>) -> bool {
    &&& forall|ks: Seq<int>| #[trigger] trace_chain(t, d, ks) ==> trace_chain_time(t, ks) <= t.critical_path_time
    &&& exists|ks: Seq<int>| #[trigger] trace_chain(t, d, ks) && trace_chain_time(t, ks) == t.critical_path_time
}

/// The run time of the entries `ks` is that of the nodes they describe.
proof fn lemma_chain_map<K, O, F>(
    t: ExecutionTrace<K>,
    d: DagModel<K, O, F>,
    ev: Seq<ObsEvent>,
    tm: Seq<u64>,
    ids: Seq<usize>,
    ks: Seq<int>,
)
    requires
        t.nodes@.len() == ids.len(),
        forall|k: int| 0 <= k < t.nodes@.len() ==> describes(#[trigger] t.nodes@[k], d, ev, tm, ids[k]),
        forall|i: int| 0 <= i < ks.len() ==> 0 <= #[trigger] ks[i] < t.nodes@.len(),
    ensures
        chain_time(ev, tm, Seq::new(ks.len(), |i: int| ids[ks[i]])) == trace_chain_time(t, ks),
    decreases ks.len(),
{
    if ks.len() > 0 {
        let ks2 = ks.drop_first();
        assert forall|i: int| 0 <= i < ks2.len() implies 0 <= #[trigger] ks2[i] < t.nodes@.len() by {
            assert(ks2[i] == ks[i + 1]);
        }
        lemma_chain_map(t, d, ev, tm, ids, ks2);
        let p = Seq::new(ks.len(), |i: int| ids[ks[i]]);
        assert(p.drop_first() =~= Seq::new(ks2.len(), |i: int| ids[ks2[i]]));
        assert(0 <= ks[0] < t.nodes@.len());
        assert(describes(t.nodes@[ks[0]], d, ev, tm, ids[ks[0]]));
    }
}

/// Under a log in dependency order, a trace whose critical path is the visit's value over the
/// reported nodes has that critical path as its longest chain's total.
proof fn lemma_trace_critical<K, O, F>(
    t: ExecutionTrace<K>,
    d: DagModel<K, O, F>,
    needed: Seq<bool>,
    ev: Seq<ObsEvent>,
    tm: Seq<u64>,
)
    requires
        d.wf(),
        needed.len() == d.len(),
        d.closed_under_deps(needed),
        tm.len() == ev.len(),
        forall|a: int, b: int| 0 <= a <= b < tm.len() ==> tm[a] <= tm[b],
        log_respects_deps(d, ev),
        t.nodes@.len() == needed_ids(started_ids(ev), needed).len(),
        forall|k: int|
            0 <= k < t.nodes@.len() ==> describes(#[trigger] t.nodes@[k], d, ev, tm, needed_ids(started_ids(ev), needed)[k]),
        t.critical_path_time == critical_after(d, needed, ev, tm, needed_ids(started_ids(ev), needed)),
    ensures
        critical_is_longest_chain(t, d),
{
    assert forall|ks: Seq<int>| #[trigger] trace_chain(t, d, ks) implies trace_chain_time(t, ks) <= t.critical_path_time by {
        lemma_trace_chain_le(t, d, needed, ev, tm, ks);
    }
    lemma_trace_chain_attained(t, d, needed, ev, tm);
}

/// No chain of entries takes longer than the critical path.
#[verifier::spinoff_prover]
proof fn lemma_trace_chain_le<K, O, F>(
    t: ExecutionTrace<K>,
    d: DagModel<K, O, F>,
    needed: Seq<bool>,
    ev: Seq<ObsEvent>,
    tm: Seq<u64>,
    ks: Seq<int>,
)
    requires
        d.wf(),
        needed.len() == d.len(),
        d.closed_under_deps(needed),
        tm.len() == ev.len(),
        forall|a: int, b: int| 0 <= a <= b < tm.len() ==> tm[a] <= tm[b],
        log_respects_deps(d, ev),
        t.nodes@.len() == needed_ids(started_ids(ev), needed).len(),
        forall|k: int|
            0 <= k < t.nodes@.len() ==> describes(#[trigger] t.nodes@[k], d, ev, tm, needed_ids(started_ids(ev), needed)[k]),
        t.critical_path_time == critical_after(d, needed, ev, tm, needed_ids(started_ids(ev), needed)),
        trace_chain(t, d, ks),
    ensures
        trace_chain_time(t, ks) <= t.critical_path_time,
{
    let ids = needed_ids(started_ids(ev), needed);
    lemma_start_order_topological(d, needed, ev);
    assert(d.is_topo_prefix(needed, ids));
    let p = Seq::new(ks.len(), |i: int| ids[ks[i]]);
    lemma_chain_map(t, d, ev, tm, ids, ks);
    if ks.len() > 0 {
        assert forall|i: int| 0 <= i < p.len() implies ids.contains(#[trigger] p[i]) by {
            assert(0 <= ks[i] < ids.len());
        }
        assert(d.is_dep_path(p)) by {
            assert forall|j: int| 0 <= j < p.len() implies #[trigger] p[j] < d.len() by {
                assert(0 <= ks[j] < ids.len());
                assert(p[j] == ids[ks[j]]);
            }
            assert forall|j: int| 0 <= j < p.len() - 1 implies d.deps(#[trigger] p[j] as int).contains(p[j + 1]) by {
                assert(trace_step(t, d, ks, j));
                assert(0 <= ks[j] < ids.len());
                assert(0 <= ks[j + 1] < ids.len());
                assert(describes(t.nodes@[ks[j]], d, ev, tm, ids[ks[j]]));
                assert(describes(t.nodes@[ks[j + 1]], d, ev, tm, ids[ks[j + 1]]));
            }
        }
        lemma_critical_path_covers_chains(d, needed, ev, tm, p);
    }
}

/// Entries at the positions of a chain of dependencies form a chain of entries.
#[verifier::spinoff_prover]
proof fn lemma_trace_chain_of_path<K, O, F>(
    t: ExecutionTrace<K>,
    d: DagModel<K, O, F>,
    ids: Seq<usize>,
    p: Seq<usize>,
    ks: Seq<int>,
)
    requires
        t.nodes@.len() == ids.len(),
        forall|k: int| 0 <= k < t.nodes@.len() ==> (#[trigger] t.nodes@[k]).node_id.0 == ids[k],
        forall|j: int| 0 <= j < p.len() - 1 ==> #[trigger] dep_step(d, p, j),
        ks.len() == p.len(),
        forall|i: int| 0 <= i < ks.len() ==> 0 <= #[trigger] ks[i] < ids.len() && ids[ks[i]] == p[i],
    ensures
        trace_chain(t, d, ks),
{
    assert forall|i: int| 0 <= i < ks.len() - 1 implies #[trigger] trace_step(t, d, ks, i) by {
        assert(dep_step(d, p, i));
        assert(0 <= ks[i] < ids.len() && ids[ks[i]] == p[i]);
        assert(0 <= ks[i + 1] < ids.len() && ids[ks[i + 1]] == p[i + 1]);
    }
}

/// Node `p[j]` depends on node `p[j + 1]`.
spec fn dep_step<K, O, F>(d: DagModel<K, O, F>, p: Seq<usize>, j: int) -> bool {
    d.deps(p[j] as int).contains(p[j + 1])
}

/// A chain of dependencies, step by step.
proof fn lemma_dep_steps<K, O, F>(d: DagModel<K, O, F>, p: Seq<usize>)
    requires
        p.len() == 0 || d.is_dep_path(p),
    ensures
        forall|j: int| 0 <= j < p.len() - 1 ==> #[trigger] dep_step(d, p, j),
{
    assert forall|j: int| 0 <= j < p.len() - 1 implies #[trigger] dep_step(d, p, j) by {
        assert(d.deps(p[j] as int).contains(p[j + 1]));
    }
}

/// Positions in `ids` of the members of `p`.
proof fn lemma_positions_of(ids: Seq<usize>, p: Seq<usize>) -> (ks: Seq<int>)
    requires
        forall|i: int| 0 <= i < p.len() ==> ids.contains(#[trigger] p[i]),
    ensures
        ks.len() == p.len(),
        forall|i: int| 0 <= i < ks.len() ==> 0 <= #[trigger] ks[i] < ids.len() && ids[ks[i]] == p[i],
{
    let ks = Seq::new(p.len(), |i: int| choose|k: int| 0 <= k < ids.len() && ids[k] == p[i]);
    assert forall|i: int| 0 <= i < ks.len() implies 0 <= #[trigger] ks[i] < ids.len() && ids[ks[i]] == p[i] by {
        assert(ids.contains(p[i]));
    }
    ks
}

/// Some chain of entries takes exactly as long as the critical path.
#[verifier::spinoff_prover]
proof fn lemma_trace_chain_attained<K, O, F>(
    t: ExecutionTrace<K>,
    d: DagModel<K, O, F>,
    needed: Seq<bool>,
    ev: Seq<ObsEvent>,
    tm: Seq<u64>,
)
    requires
        d.wf(),
        needed.len() == d.len(),
        d.closed_under_deps(needed),
        tm.len() == ev.len(),
        forall|a: int, b: int| 0 <= a <= b < tm.len() ==> tm[a] <= tm[b],
        log_respects_deps(d, ev),
        t.nodes@.len() == needed_ids(started_ids(ev), needed).len(),
        forall|k: int|
            0 <= k < t.nodes@.len() ==> describes(#[trigger] t.nodes@[k], d, ev, tm, needed_ids(started_ids(ev), needed)[k]),
        t.critical_path_time == critical_after(d, needed, ev, tm, needed_ids(started_ids(ev), needed)),
    ensures
        exists|ks: Seq<int>| #[trigger] trace_chain(t, d, ks) && trace_chain_time(t, ks) == t.critical_path_time,
{
    let ids = needed_ids(started_ids(ev), needed);
    lemma_critical_path_attained(d, needed, ev, tm);
    let p = choose|p: Seq<usize>|
        (p.len() == 0 || d.is_dep_path(p)) && (forall|i: int| 0 <= i < p.len() ==> ids.contains(#[trigger] p[i]))
            && chain_time(ev, tm, p) == critical_after(d, needed, ev, tm, ids);
    let ks = lemma_positions_of(ids, p);
    assert(Seq::new(ks.len(), |i: int| ids[ks[i]]) =~= p);
    lemma_chain_map(t, d, ev, tm, ids, ks);
    assert forall|k: int| 0 <= k < t.nodes@.len() implies (#[trigger] t.nodes@[k]).node_id.0 == ids[k] by {
        assert(describes(t.nodes@[k], d, ev, tm, ids[k]));
    }
    lemma_dep_steps(d, p);
    lemma_trace_chain_of_path(t, d, ids, p, ks);
}

/// Along a chain of reported nodes, the visit's final value of the chain's first node is at
/// least the chain's total run time.
#[verifier::spinoff_prover]
proof fn lemma_chain_le<K, O, F>(
    d: DagModel<K, O, F>,
    needed: Seq<bool>,
    ev: Seq<ObsEvent>,
    tm: Seq<u64>,
    ids: Seq<usize>,
    p: Seq<usize>,
)
    requires
        d.wf(),
        needed.len() == d.len(),
        tm.len() == ev.len(),
        forall|a: int, b: int| 0 <= a <= b < tm.len() ==> tm[a] <= tm[b],
        log_respects_deps(d, ev),
        d.is_topo_prefix(needed, ids),
        forall|k: int| 0 <= k < ids.len() ==> started_in(ev, #[trigger] ids[k]),
        d.is_dep_path(p),
        forall|i: int| 0 <= i < p.len() ==> ids.contains(#[trigger] p[i]),
    ensures
        chain_time(ev, tm, p) <= longest_after(d, needed, ev, tm, ids)[p[0] as int],
    decreases p.len(),
{
    let x = p[0];
    assert(ids.contains(x));
    let kx = choose|k: int| 0 <= k < ids.len() && ids[k] == x;
    let lpx = longest_after(d, needed, ev, tm, ids.take(kx));
    let big_l = longest_after(d, needed, ev, tm, ids);
    let a = max_needed(lpx, needed, d.deps(x as int));
    lemma_final_value(d, needed, ev, tm, ids, kx);
    if p.len() > 1 {
        let p2 = p.drop_first();
        assert(d.is_dep_path(p2)) by {
            assert forall|j: int| 0 <= j < p2.len() - 1 implies d.deps(#[trigger] p2[j] as int).contains(p2[j + 1]) by {
                assert(p2[j] == p[j + 1] && p2[j + 1] == p[j + 2]);
                assert(d.deps(p[j + 1] as int).contains(p[j + 2]));
            }
            assert forall|j: int| 0 <= j < p2.len() implies #[trigger] p2[j] < d.len() by {
                assert(p2[j] == p[j + 1]);
            }
        }
        assert forall|i: int| 0 <= i < p2.len() implies ids.contains(#[trigger] p2[i]) by {
            assert(p2[i] == p[i + 1]);
        }
        lemma_chain_le(d, needed, ev, tm, ids, p2);
        let y = p[1];
        assert(p2[0] == y);
        assert(d.deps(p[0] as int).contains(p[1]));
        let jy = choose|j: int| 0 <= j < d.deps(x as int).len() && d.deps(x as int)[j] == y;
        lemma_final_dep(d, needed, ev, tm, ids, kx, jy);
        assert(chain_time(ev, tm, p) == run_time(ev, tm, x) + chain_time(ev, tm, p2));
    } else {
        assert(p.drop_first().len() == 0);
        assert(chain_time(ev, tm, p) == run_time(ev, tm, x) + chain_time(ev, tm, p.drop_first()));
    }
}


/// The final value the visit gives a reported node is its own run time plus the largest
/// value among its needed dependencies when it was visited.
proof fn lemma_final_value<K, O, F>(
    d: DagModel<K, O, F>,
    needed: Seq<bool>,
    ev: Seq<ObsEvent>,
    tm: Seq<u64>,
    ids: Seq<usize>,
    kx: int,
)
    requires
        d.wf(),
        tm.len() == ev.len(),
        forall|a: int, b: int| 0 <= a <= b < tm.len() ==> tm[a] <= tm[b],
        log_respects_deps(d, ev),
        d.is_topo_prefix(needed, ids),
        forall|k: int| 0 <= k < ids.len() ==> started_in(ev, #[trigger] ids[k]),
        0 <= kx < ids.len(),
    ensures
        longest_after(d, needed, ev, tm, ids)[ids[kx] as int] == max_needed(
            longest_after(d, needed, ev, tm, ids.take(kx)),
            needed,
            d.deps(ids[kx] as int),
        ) + run_time(ev, tm, ids[kx]),
{
    let x = ids[kx];
    let lp = longest_after(d, needed, ev, tm, ids.take(kx));
    let a = max_needed(lp, needed, d.deps(x as int));
    assert(longest_after(d, needed, ev, tm, ids)[x as int] == longest_after(d, needed, ev, tm, ids.take(kx + 1))[x as int]) by {
        assert(ids.take(ids.len() as int) =~= ids);
        lemma_longest_frame(d, needed, ev, tm, ids, ids.len() as int);
    }
    assert(a + run_time(ev, tm, x) <= finish_time(ev, tm, x)) by {
        lemma_longest_bounded(d, needed, ev, tm, ids, kx + 1);
    }
    assert(longest_after(d, needed, ev, tm, ids.take(kx + 1)) == lp.update(x as int, sat_add(a, run_time(ev, tm, x)))) by {
        assert(ids.take(kx + 1).drop_last() =~= ids.take(kx));
        assert(ids.take(kx + 1).last() == x);
    }
    assert(lp.len() == d.len()) by {
        lemma_longest_frame(d, needed, ev, tm, ids, kx);
    }
    assert(x < d.len());
    assert(sat_add(a, run_time(ev, tm, x)) == a + run_time(ev, tm, x));
}

/// At the visit of a reported node, each of its dependencies already holds its final value,
/// so the largest needed value among them is at least that of each.
proof fn lemma_final_dep<K, O, F>(
    d: DagModel<K, O, F>,
    needed: Seq<bool>,
    ev: Seq<ObsEvent>,
    tm: Seq<u64>,
    ids: Seq<usize>,
    kx: int,
    jy: int,
)
    requires
        d.wf(),
        needed.len() == d.len(),
        d.is_topo_prefix(needed, ids),
        0 <= kx < ids.len(),
        0 <= jy < d.deps(ids[kx] as int).len(),
    ensures
        max_needed(longest_after(d, needed, ev, tm, ids.take(kx)), needed, d.deps(ids[kx] as int))
            >= longest_after(d, needed, ev, tm, ids)[d.deps(ids[kx] as int)[jy] as int],
{
    let x = ids[kx];
    let y = d.deps(x as int)[jy];
    assert(ids.take(kx).contains(d.deps(ids[kx] as int)[jy]));
    let pre = ids.take(kx);
    let ky = choose|k: int| 0 <= k < pre.len() && #[trigger] pre[k] == y;
    assert(ids[ky] == y);
    assert(needed[y as int]);
    lemma_max_needed_ge(longest_after(d, needed, ev, tm, ids.take(kx)), needed, d.deps(x as int), jy);
    lemma_longest_frame(d, needed, ev, tm, ids, kx);
    assert(ids.take(ids.len() as int) =~= ids);
    lemma_longest_frame(d, needed, ev, tm, ids, ids.len() as int);
}


/// Where each start follows a ready notification for its node, a started node became ready no
/// later than it started.
proof fn lemma_ready_le_start(ev: Seq<ObsEvent>, tm: Seq<u64>, x: usize)
    requires
        tm.len() == ev.len(),
        forall|p: int, q: int| 0 <= p <= q < tm.len() ==> tm[p] <= tm[q],
        ready_before_start(ev),
        exists|p: int| 0 <= p < ev.len() && is_event_of(#[trigger] ev[p], 1, x),
    ensures
        time_or(first_time(ev, tm, 0, x), 0) <= start_time(ev, tm, x),
{
    lemma_first_time(ev, tm, 1, x);
    lemma_first_time(ev, tm, 0, x);
    let s = choose|p: int|
        0 <= p < ev.len() && is_event_of(#[trigger] ev[p], 1, x) && tm[p] == first_time(ev, tm, 1, x)->0
            && forall|q: int| 0 <= q < p ==> !is_event_of(#[trigger] ev[q], 1, x);
    lemma_ready_before_start_def(ev);
    assert(ev[s] is Start);
    let q = choose|q: int| 0 <= q < s && (ev[q] is Ready && ev[q]->Ready_id == ev[s]->Start_id);
    assert(is_event_of(ev[q], 0, x));
    let r = choose|p: int|
        0 <= p < ev.len() && is_event_of(#[trigger] ev[p], 0, x) && tm[p] == first_time(ev, tm, 0, x)->0
            && forall|q2: int| 0 <= q2 < p ==> !is_event_of(#[trigger] ev[q2], 0, x);
    assert(r <= q);
}

} // verus!
