use std::sync::Arc;
use vstd::prelude::*;

use crate::exec::common::ready_events;
use crate::exec::counting::unresolved;
use crate::error::ExecError;
use crate::exec::observe::{
    finish_before, lemma_append_no_start, lemma_finish_before_extend, start_before, started_ids,
    starts_without_worker, ObsEvent,
};
use crate::graph::{DagModel, NodeKind};

verus! {

/// Every task of a node that `needed` marks accepts every argument slice with one entry per
/// dependency of its node.
pub open spec fn tasks_accept<K, O, E, F: Fn(&[Arc<O>]) -> Result<O, E>>(d: DagModel<K, O, F>, needed: Seq<bool>) -> bool {
    forall|i: int|
        0 <= i < d.len() && needed[i] ==> match #[trigger] d.nodes[i].kind {
            NodeKind::Task(f) => forall|s: &[Arc<O>]| s@.len() == d.deps(i).len() ==> #[trigger] f.requires((s,)),
            NodeKind::Source(_) => true,
        }
}

/// `args` holds the values computed for the dependencies of node `i`, in order.
pub open spec fn args_match<K, O, F>(
    d: DagModel<K, O, F>,
    vals: Seq<Option<Arc<O>>>,
    i: int,
    args: Seq<Arc<O>>,
) -> bool {
    &&& args.len() == d.deps(i).len()
    &&& forall|j: int| 0 <= j < args.len() ==> vals[#[trigger] d.deps(i)[j] as int] == Some(args[j])
}

/// The value of node `i` is what its kind produces: the source value itself, or an
/// `Ok` result of the task applied to the values of its dependencies.
pub open spec fn value_ok<K, O, E, F: Fn(&[Arc<O>]) -> Result<O, E>>(
    d: DagModel<K, O, F>,
    vals: Seq<Option<Arc<O>>>,
    i: int,
) -> bool {
    match vals[i] {
        None => false,
        Some(v) => match d.nodes[i].kind {
            NodeKind::Source(a) => v == a,
            NodeKind::Task(f) => exists|s: &[Arc<O>]|
                args_match(d, vals, i, s@) && #[trigger] f.ensures((s,), Ok::<O, E>(*v)),
        },
    }
}

/// `ord` is a run of needed nodes in dependency order, `vals` holds a correct value
/// for each node of `ord` and no value for any other node.
pub open spec fn executed<K, O, E, F: Fn(&[Arc<O>]) -> Result<O, E>>(
    d: DagModel<K, O, F>,
    needed: Seq<bool>,
    ord: Seq<usize>,
    vals: Seq<Option<Arc<O>>>,
) -> bool {
    &&& d.is_topo_prefix(needed, ord)
    &&& vals.len() == d.len()
    &&& forall|i: int| 0 <= i < d.len() ==> (#[trigger] vals[i] is Some <==> ord.contains(i as usize))
    &&& forall|k: int| 0 <= k < ord.len() ==> value_ok::<K, O, E, F>(d, vals, #[trigger] ord[k] as int)
}

/// `ord` is a run of needed nodes in dependency order in which each node got a value,
/// each source its own value; `vals` holds no value for any other node. (Tasks run
/// outside the scheduler, so their values are the ones reported back.)
pub open spec fn scheduled<K, O, F>(
    d: DagModel<K, O, F>,
    needed: Seq<bool>,
    ord: Seq<usize>,
    vals: Seq<Option<Arc<O>>>,
) -> bool {
    &&& d.is_topo_prefix(needed, ord)
    &&& vals.len() == d.len()
    &&& forall|i: int| 0 <= i < d.len() ==> (#[trigger] vals[i] is Some <==> ord.contains(i as usize))
    &&& forall|i: int|
        0 <= i < d.len() && vals[i] is Some ==> match #[trigger] d.nodes[i].kind {
            NodeKind::Source(a) => vals[i]->Some_0 == a,
            NodeKind::Task(_) => true,
        }
}

/// Node `x` is a needed task, ready after `ord`, whose call on the values of its
/// dependencies returned `Err(error)`.
pub open spec fn task_failed<K, O, E, F: Fn(&[Arc<O>]) -> Result<O, E>>(
    d: DagModel<K, O, F>,
    needed: Seq<bool>,
    ord: Seq<usize>,
    vals: Seq<Option<Arc<O>>>,
    x: int,
    error: E,
) -> bool {
    &&& 0 <= x < d.len()
    &&& needed[x]
    &&& !ord.contains(x as usize)
    &&& unresolved(d.deps(x), ord) == 0
    &&& match d.nodes[x].kind {
        NodeKind::Task(f) => exists|s: &[Arc<O>]|
            args_match(d, vals, x, s@) && #[trigger] f.ensures((s,), Err::<O, E>(error)),
        NodeKind::Source(_) => false,
    }
}

/// How a run that stopped early with `e` relates to the run `ord`: a task that failed, or
/// needed nodes left that all wait on one another.
pub open spec fn err_outcome<K, O, E, F: Fn(&[Arc<O>]) -> Result<O, E>>(
    d: DagModel<K, O, F>,
    needed: Seq<bool>,
    ord: Seq<usize>,
    vals: Seq<Option<Arc<O>>>,
    e: ExecError<K, E>,
) -> bool {
    match e {
        ExecError::TaskFailed { task, error } => exists|x: int|
            #[trigger] task_failed::<K, O, E, F>(d, needed, ord, vals, x, error) && task == d.key(x),
        ExecError::Cycle { remaining } => {
            &&& !d.is_topo_order(needed, ord)
            &&& d.rest_is_blocked(needed, ord)
            &&& remaining@ == remaining_keys(d, needed, ord, d.len() as int)
        },
        _ => false,
    }
}

/// What a run asked for `outs` returns: an error for an empty request or a key that names
/// no node; otherwise a run `ord` of the needed nodes in dependency order with correct
/// values `vals`, ending in success (every needed node ran, and each requested key maps to
/// the value of its node), in a failed task, or in a cycle.
pub open spec fn run_outcome<K, O, E, F: Fn(&[Arc<O>]) -> Result<O, E>>(
    d: DagModel<K, O, F>,
    outs: Seq<K>,
    r: Result<Map<K, Arc<O>>, ExecError<K, E>>,
) -> bool {
    if outs.len() == 0 {
        r matches Err(ExecError::InternalInvariant(m)) && m@ == "outputs must be non-empty"@
    } else if !d.all_present(outs) {
        exists|j: int|
            d.first_missing(outs, j) && r == Err::<Map<K, Arc<O>>, ExecError<K, E>>(
                ExecError::OutputMissing(outs[j]),
            )
    } else {
        let needed = d.needed_of(d.output_roots(outs));
        exists|ord: Seq<usize>, vals: Seq<Option<Arc<O>>>|
            #[trigger] executed::<K, O, E, F>(d, needed, ord, vals) && match r {
                Ok(m) => d.is_topo_order(needed, ord) && m == crate::exec::common::outputs_map(d, vals, outs),
                Err(e) => err_outcome::<K, O, E, F>(d, needed, ord, vals, e),
            }
    }
}

/// Setting the value of a node outside `ord` keeps the run `ord` correct.
pub proof fn lemma_executed_frame<K, O, E, F: Fn(&[Arc<O>]) -> Result<O, E>>(
    d: DagModel<K, O, F>,
    needed: Seq<bool>,
    ord: Seq<usize>,
    vals: Seq<Option<Arc<O>>>,
    x: usize,
    v: Arc<O>,
)
    requires
        executed::<K, O, E, F>(d, needed, ord, vals),
        x < d.len(),
        !ord.contains(x),
    ensures
        forall|k: int| 0 <= k < ord.len() ==> value_ok::<K, O, E, F>(d, vals.update(x as int, Some(v)), #[trigger] ord[k] as int),
{
    let vals2 = vals.update(x as int, Some(v));
    assert forall|k: int| 0 <= k < ord.len() implies value_ok::<K, O, E, F>(d, vals2, #[trigger] ord[k] as int) by {
        let i = ord[k] as int;
        assert(value_ok::<K, O, E, F>(d, vals, i));
        assert(i != x);
        assert forall|j: int| 0 <= j < d.deps(i).len() implies #[trigger] d.deps(i)[j] != x by {
            assert(ord.take(k).contains(d.deps(i)[j]));
            let t = choose|t: int| 0 <= t < ord.take(k).len() && ord.take(k)[t] == d.deps(i)[j];
            assert(ord[t] == d.deps(i)[j]);
        }
        match d.nodes[i].kind {
            NodeKind::Task(f) => {
                let v0 = vals[i]->Some_0;
                let s = choose|s: &[Arc<O>]| args_match(d, vals, i, s@) && #[trigger] f.ensures((s,), Ok::<O, E>(*v0));
                assert(args_match(d, vals2, i, s@));
            },
            NodeKind::Source(_) => {},
        }
    }
}

/// In `log`, each node starts only after all of its dependencies have finished, and
/// finishes only after it has started.
pub open spec fn log_respects_deps<K, O, F>(d: DagModel<K, O, F>, log: Seq<ObsEvent>) -> bool {
    forall|p: int|
        0 <= p < log.len() ==> match #[trigger] log[p] {
            ObsEvent::Start { id, .. } => id < d.len() && forall|j: int|
                0 <= j < d.deps(id as int).len() ==> finish_before(log, #[trigger] d.deps(id as int)[j], p),
            ObsEvent::Finish { id } => start_before(log, id, p),
            ObsEvent::Ready { .. } => true,
        }
}

/// An event that follows the order of dependencies after `log` keeps `log` in order.
pub proof fn lemma_respects_push<K, O, F>(d: DagModel<K, O, F>, log: Seq<ObsEvent>, e: ObsEvent)
    requires
        log_respects_deps(d, log),
        match e {
            ObsEvent::Start { id, .. } => id < d.len() && forall|j: int|
                0 <= j < d.deps(id as int).len() ==> finish_before(log, #[trigger] d.deps(id as int)[j], log.len() as int),
            ObsEvent::Finish { id } => start_before(log, id, log.len() as int),
            ObsEvent::Ready { .. } => true,
        },
    ensures
        log_respects_deps(d, log.push(e)),
{
    let l2 = log.push(e);
    lemma_append_no_start(log, Seq::<ObsEvent>::empty());
    assert forall|p: int| 0 <= p < l2.len() implies match #[trigger] l2[p] {
        ObsEvent::Start { id, .. } => id < d.len() && forall|j: int|
            0 <= j < d.deps(id as int).len() ==> finish_before(l2, #[trigger] d.deps(id as int)[j], p),
        ObsEvent::Finish { id } => start_before(l2, id, p),
        ObsEvent::Ready { .. } => true,
    } by {
        if p < log.len() {
            assert(l2[p] == log[p]);
            match log[p] {
                ObsEvent::Start { id, .. } => {
                    assert forall|j: int| 0 <= j < d.deps(id as int).len() implies finish_before(
                        l2,
                        #[trigger] d.deps(id as int)[j],
                        p,
                    ) by {
                        assert(finish_before(log, d.deps(id as int)[j], p));
                        let q = choose|q: int| 0 <= q < p && #[trigger] log[q] == ObsEvent::Finish { id: d.deps(id as int)[j] };
                        assert(l2[q] == log[q]);
                    }
                },
                ObsEvent::Finish { id } => {
                    assert(start_before(log, id, p));
                    let q = choose|q: int| 0 <= q < p && (#[trigger] log[q] matches ObsEvent::Start { id: i2, .. } && i2 == id);
                    assert(l2[q] == log[q]);
                },
                ObsEvent::Ready { .. } => {},
            }
        } else {
            assert(l2[p] == e);
            match e {
                ObsEvent::Start { id, .. } => {
                    assert forall|j: int| 0 <= j < d.deps(id as int).len() implies finish_before(
                        l2,
                        #[trigger] d.deps(id as int)[j],
                        p,
                    ) by {
                        assert(finish_before(log, d.deps(id as int)[j], log.len() as int));
                        let q = choose|q: int| 0 <= q < log.len() && #[trigger] log[q] == ObsEvent::Finish { id: d.deps(id as int)[j] };
                        assert(l2[q] == log[q]);
                    }
                },
                ObsEvent::Finish { id } => {
                    let q = choose|q: int| 0 <= q < log.len() && (#[trigger] log[q] matches ObsEvent::Start { id: i2, .. } && i2 == id);
                    assert(l2[q] == log[q]);
                },
                ObsEvent::Ready { .. } => {},
            }
        }
    }
}

/// Ready notifications keep a log in order.
pub proof fn lemma_respects_append_ready<K, O, F>(d: DagModel<K, O, F>, log: Seq<ObsEvent>, more: Seq<ObsEvent>)
    requires
        log_respects_deps(d, log),
        forall|k: int| 0 <= k < more.len() ==> #[trigger] more[k] is Ready,
    ensures
        log_respects_deps(d, log + more),
    decreases more.len(),
{
    if more.len() > 0 {
        let m2 = more.drop_last();
        lemma_respects_append_ready(d, log, m2);
        lemma_respects_push(d, log + m2, more.last());
        assert(log + more =~= (log + m2).push(more.last()));
    }
}

/// `evs` is the notification sequence of a run without workers that completed `ord`:
/// nodes first start in the order of `ord`, dependencies finish before starts, each node
/// of `ord` has finished, and no start names a worker.
pub open spec fn seq_events_ok<K, O, F>(d: DagModel<K, O, F>, ord: Seq<usize>, evs: Seq<ObsEvent>) -> bool {
    &&& started_ids(evs) == ord
    &&& log_respects_deps(d, evs)
    &&& forall|k: int| 0 <= k < ord.len() ==> finish_before(evs, #[trigger] ord[k], evs.len() as int)
    &&& starts_without_worker(evs)
}

/// Starting a node whose dependencies all completed.
pub proof fn lemma_events_start<K, O, F>(d: DagModel<K, O, F>, ord: Seq<usize>, evs: Seq<ObsEvent>, id: usize)
    requires
        seq_events_ok(d, ord, evs),
        id < d.len(),
        !ord.contains(id),
        forall|j: int| 0 <= j < d.deps(id as int).len() ==> ord.contains(#[trigger] d.deps(id as int)[j]),
    ensures
        started_ids(evs.push(ObsEvent::Start { id, worker: None })) == ord.push(id),
        log_respects_deps(d, evs.push(ObsEvent::Start { id, worker: None })),
        forall|k: int|
            0 <= k < ord.len() ==> finish_before(
                evs.push(ObsEvent::Start { id, worker: None }),
                #[trigger] ord[k],
                evs.len() + 1int,
            ),
        starts_without_worker(evs.push(ObsEvent::Start { id, worker: None })),
{
    let e = ObsEvent::Start { id, worker: None };
    assert forall|j: int| 0 <= j < d.deps(id as int).len() implies finish_before(
        evs,
        #[trigger] d.deps(id as int)[j],
        evs.len() as int,
    ) by {
        let t = choose|t: int| 0 <= t < ord.len() && ord[t] == d.deps(id as int)[j];
        assert(finish_before(evs, ord[t], evs.len() as int));
    }
    lemma_respects_push(d, evs, e);
    let evs1 = evs.push(e);
    assert(evs1.drop_last() =~= evs);
    assert forall|k: int| 0 <= k < ord.len() implies finish_before(evs1, #[trigger] ord[k], evs1.len() as int) by {
        lemma_finish_before_extend(evs, seq![e], ord[k], evs.len() as int, evs1.len() as int);
        assert(evs + seq![e] =~= evs1);
    }
    assert forall|p: int| 0 <= p < evs1.len() implies !(#[trigger] evs1[p] matches ObsEvent::Start {
        worker: Some(_),
        ..
    }) by {
        if p < evs.len() {
            assert(evs1[p] == evs[p]);
        }
    }
}

/// Finishing the node that just started.
pub proof fn lemma_events_finish<K, O, F>(d: DagModel<K, O, F>, ord: Seq<usize>, evs: Seq<ObsEvent>, id: usize)
    requires
        evs.len() > 0,
        evs.last() == (ObsEvent::Start { id, worker: None }),
        started_ids(evs) == ord.push(id),
        log_respects_deps(d, evs),
        forall|k: int| 0 <= k < ord.len() ==> finish_before(evs, #[trigger] ord[k], evs.len() as int),
        starts_without_worker(evs),
    ensures
        seq_events_ok(d, ord.push(id), evs.push(ObsEvent::Finish { id })),
{
    let e = ObsEvent::Finish { id };
    assert(evs[evs.len() - 1] matches ObsEvent::Start { id: i2, .. } && i2 == id);
    lemma_respects_push(d, evs, e);
    let evs2 = evs.push(e);
    assert(evs2.drop_last() =~= evs);
    let ord1 = ord.push(id);
    assert(evs2[evs.len() as int] == e);
    assert forall|k: int| 0 <= k < ord1.len() implies finish_before(evs2, #[trigger] ord1[k], evs2.len() as int) by {
        if k < ord.len() {
            assert(ord1[k] == ord[k]);
            lemma_finish_before_extend(evs, seq![e], ord[k], evs.len() as int, evs2.len() as int);
            assert(evs + seq![e] =~= evs2);
        }
    }
    assert forall|p: int| 0 <= p < evs2.len() implies !(#[trigger] evs2[p] matches ObsEvent::Start {
        worker: Some(_),
        ..
    }) by {
        if p < evs.len() {
            assert(evs2[p] == evs[p]);
        }
    }
}

/// Ready notifications keep the notification sequence of a run without workers.
pub proof fn lemma_events_ready<K, O, F>(d: DagModel<K, O, F>, ord: Seq<usize>, evs: Seq<ObsEvent>, more: Seq<ObsEvent>)
    requires
        seq_events_ok(d, ord, evs),
        forall|k: int| 0 <= k < more.len() ==> #[trigger] more[k] is Ready,
    ensures
        seq_events_ok(d, ord, evs + more),
{
    lemma_append_no_start(evs, more);
    lemma_respects_append_ready(d, evs, more);
    let evs3 = evs + more;
    assert forall|k: int| 0 <= k < ord.len() implies finish_before(evs3, #[trigger] ord[k], evs3.len() as int) by {
        lemma_finish_before_extend(evs, more, ord[k], evs.len() as int, evs3.len() as int);
    }
    assert forall|p: int| 0 <= p < evs3.len() implies !(#[trigger] evs3[p] matches ObsEvent::Start {
        worker: Some(_),
        ..
    }) by {
        if p < evs.len() {
            assert(evs3[p] == evs[p]);
        } else {
            assert(evs3[p] == more[p - evs.len()]);
        }
    }
}

/// The keys of the needed nodes below `m` that `ord` leaves out, in node order.
pub open spec fn remaining_keys<K, O, F>(
    d: DagModel<K, O, F>,
    needed: Seq<bool>,
    ord: Seq<usize>,
    m: int,
) -> Seq<K>
    decreases m,
{
    if m <= 0 {
        Seq::empty()
    } else if needed[m - 1] && !ord.contains((m - 1) as usize) {
        remaining_keys(d, needed, ord, m - 1).push(d.key(m - 1))
    } else {
        remaining_keys(d, needed, ord, m - 1)
    }
}


/// Each start in `log` names a node of `d`, on a worker exactly when the node is a task.
pub open spec fn starts_name_workers<K, O, F>(d: DagModel<K, O, F>, log: Seq<ObsEvent>) -> bool {
    forall|p: int|
        0 <= p < log.len() ==> match #[trigger] log[p] {
            ObsEvent::Start { id, worker } => id < d.len() && (worker is Some <==> d.nodes[id as int].kind is Task),
            _ => true,
        }
}

/// The notifications of a run that completed `done` and has the nodes `running` marks on
/// workers: they follow the order of dependencies, every completed node has finished,
/// every running node has started, and only tasks start on workers.
pub open spec fn run_log_ok<K, O, F>(d: DagModel<K, O, F>, log: Seq<ObsEvent>, done: Seq<usize>, running: Seq<bool>) -> bool {
    &&& log_respects_deps(d, log)
    &&& forall|k: int| 0 <= k < done.len() ==> finish_before(log, #[trigger] done[k], log.len() as int)
    &&& forall|i: int|
        0 <= i < running.len() && #[trigger] running[i] ==> start_before(log, i as usize, log.len() as int)
    &&& starts_name_workers(d, log)
}

/// Ready notifications keep the log of a run in order.
pub proof fn lemma_run_log_ready<K, O, F>(
    d: DagModel<K, O, F>,
    log: Seq<ObsEvent>,
    more: Seq<ObsEvent>,
    done: Seq<usize>,
    running: Seq<bool>,
)
    requires
        run_log_ok(d, log, done, running),
        forall|k: int| 0 <= k < more.len() ==> #[trigger] more[k] is Ready,
    ensures
        run_log_ok(d, log + more, done, running),
{
    lemma_append_no_start(log, more);
    lemma_respects_append_ready(d, log, more);
    let l2 = log + more;
    assert forall|k: int| 0 <= k < done.len() implies finish_before(l2, #[trigger] done[k], l2.len() as int) by {
        lemma_finish_before_extend(log, more, done[k], log.len() as int, l2.len() as int);
    }
    assert forall|i: int| 0 <= i < running.len() && #[trigger] running[i] implies start_before(
        l2,
        i as usize,
        l2.len() as int,
    ) by {
        let q = choose|q: int| 0 <= q < log.len() && (#[trigger] log[q] matches ObsEvent::Start { id, .. } && id == i as usize);
        assert(l2[q] == log[q]);
    }
    assert forall|p: int| 0 <= p < l2.len() implies match #[trigger] l2[p] {
        ObsEvent::Start { id, worker } => id < d.len() && (worker is Some <==> d.nodes[id as int].kind is Task),
        _ => true,
    } by {
        if p < log.len() {
            assert(l2[p] == log[p]);
        } else {
            assert(l2[p] == more[p - log.len()]);
        }
    }
}

/// Starting node `id`, whose dependencies have all completed, on a worker exactly when it
/// is a task, keeps the log of a run in order, and the node has started.
pub proof fn lemma_run_log_start<K, O, F>(
    d: DagModel<K, O, F>,
    log: Seq<ObsEvent>,
    done: Seq<usize>,
    running: Seq<bool>,
    id: usize,
    worker: Option<usize>,
)
    requires
        run_log_ok(d, log, done, running),
        id < d.len(),
        forall|j: int| 0 <= j < d.deps(id as int).len() ==> done.contains(#[trigger] d.deps(id as int)[j]),
        worker is Some <==> d.nodes[id as int].kind is Task,
    ensures
        log_respects_deps(d, log.push(ObsEvent::Start { id, worker })),
        forall|k: int|
            0 <= k < done.len() ==> finish_before(
                log.push(ObsEvent::Start { id, worker }),
                #[trigger] done[k],
                log.len() + 1int,
            ),
        forall|i: int|
            0 <= i < running.len() && #[trigger] running[i] ==> start_before(
                log.push(ObsEvent::Start { id, worker }),
                i as usize,
                log.len() + 1int,
            ),
        start_before(log.push(ObsEvent::Start { id, worker }), id, log.len() + 1int),
        starts_name_workers(d, log.push(ObsEvent::Start { id, worker })),
{
    let e = ObsEvent::Start { id, worker };
    let l2 = log.push(e);
    assert forall|j: int| 0 <= j < d.deps(id as int).len() implies finish_before(
        log,
        #[trigger] d.deps(id as int)[j],
        log.len() as int,
    ) by {
        let t = choose|t: int| 0 <= t < done.len() && done[t] == d.deps(id as int)[j];
        assert(finish_before(log, done[t], log.len() as int));
    }
    lemma_respects_push(d, log, e);
    assert forall|k: int| 0 <= k < done.len() implies finish_before(l2, #[trigger] done[k], log.len() + 1int) by {
        lemma_finish_before_extend(log, seq![e], done[k], log.len() as int, log.len() + 1int);
        assert(log + seq![e] =~= l2);
    }
    assert forall|i: int| 0 <= i < running.len() && #[trigger] running[i] implies start_before(
        l2,
        i as usize,
        log.len() + 1int,
    ) by {
        let q = choose|q: int| 0 <= q < log.len() && (#[trigger] log[q] matches ObsEvent::Start { id, .. } && id == i as usize);
        assert(l2[q] == log[q]);
    }
    assert(l2[log.len() as int] == e);
    assert forall|p: int| 0 <= p < l2.len() implies match #[trigger] l2[p] {
        ObsEvent::Start { id, worker } => id < d.len() && (worker is Some <==> d.nodes[id as int].kind is Task),
        _ => true,
    } by {
        if p < log.len() {
            assert(l2[p] == log[p]);
        }
    }
}

/// Finishing a node that has started keeps the log of a run in order, and the node has
/// finished.
pub proof fn lemma_run_log_finish<K, O, F>(
    d: DagModel<K, O, F>,
    log: Seq<ObsEvent>,
    done: Seq<usize>,
    running: Seq<bool>,
    id: usize,
)
    requires
        log_respects_deps(d, log),
        forall|k: int| 0 <= k < done.len() ==> finish_before(log, #[trigger] done[k], log.len() as int),
        forall|i: int|
            0 <= i < running.len() && #[trigger] running[i] ==> start_before(log, i as usize, log.len() as int),
        starts_name_workers(d, log),
        start_before(log, id, log.len() as int),
    ensures
        run_log_ok(d, log.push(ObsEvent::Finish { id }), done, running),
        finish_before(log.push(ObsEvent::Finish { id }), id, log.len() + 1int),
{
    let e = ObsEvent::Finish { id };
    let l2 = log.push(e);
    lemma_respects_push(d, log, e);
    assert forall|k: int| 0 <= k < done.len() implies finish_before(l2, #[trigger] done[k], l2.len() as int) by {
        lemma_finish_before_extend(log, seq![e], done[k], log.len() as int, l2.len() as int);
        assert(log + seq![e] =~= l2);
    }
    assert forall|i: int| 0 <= i < running.len() && #[trigger] running[i] implies start_before(
        l2,
        i as usize,
        l2.len() as int,
    ) by {
        let q = choose|q: int| 0 <= q < log.len() && (#[trigger] log[q] matches ObsEvent::Start { id, .. } && id == i as usize);
        assert(l2[q] == log[q]);
    }
    assert(l2[log.len() as int] == e);
    assert forall|p: int| 0 <= p < l2.len() implies match #[trigger] l2[p] {
        ObsEvent::Start { id, worker } => id < d.len() && (worker is Some <==> d.nodes[id as int].kind is Task),
        _ => true,
    } by {
        if p < log.len() {
            assert(l2[p] == log[p]);
        }
    }
}

/// `after` extends `before`, and an observer that logs received the same new notifications:
/// its log went from `obs_before` to `obs_after`.
pub open spec fn logged(
    before: Seq<ObsEvent>,
    after: Seq<ObsEvent>,
    logs: bool,
    obs_before: Seq<ObsEvent>,
    obs_after: Seq<ObsEvent>,
) -> bool {
    &&& before.is_prefix_of(after)
    &&& logs ==> obs_after == obs_before + after.skip(before.len() as int)
}

/// Appending the same notifications to the run's log and to the observer's keeps them in step.
pub proof fn lemma_logged_append(
    before: Seq<ObsEvent>,
    after: Seq<ObsEvent>,
    logs: bool,
    obs_before: Seq<ObsEvent>,
    obs_after: Seq<ObsEvent>,
    more: Seq<ObsEvent>,
)
    requires
        logged(before, after, logs, obs_before, obs_after),
    ensures
        logged(before, after + more, logs, obs_before, obs_after + more),
{
    assert((after + more).take(before.len() as int) =~= after.take(before.len() as int));
    assert((after + more).skip(before.len() as int) =~= after.skip(before.len() as int) + more);
    if logs {
        assert(obs_before + (after + more).skip(before.len() as int) =~= obs_after + more);
    }
}


/// Two steps in step make one.
pub proof fn lemma_logged_trans(
    a: Seq<ObsEvent>,
    b: Seq<ObsEvent>,
    c: Seq<ObsEvent>,
    logs: bool,
    o1: Seq<ObsEvent>,
    o2: Seq<ObsEvent>,
    o3: Seq<ObsEvent>,
)
    requires
        logged(a, b, logs, o1, o2),
        logged(b, c, logs, o2, o3),
    ensures
        logged(a, c, logs, o1, o3),
{
    assert(a =~= c.subrange(0, a.len() as int)) by {
        assert forall|i: int| 0 <= i < a.len() implies a[i] == c[i] by {
            assert(a[i] == b[i]);
            assert(b[i] == c[i]);
        }
    }
    if logs {
        assert(c.skip(a.len() as int) =~= b.skip(a.len() as int) + c.skip(b.len() as int)) by {
            assert forall|i: int| 0 <= i < c.len() - a.len() implies c.skip(a.len() as int)[i] == (b.skip(
                a.len() as int,
            ) + c.skip(b.len() as int))[i] by {
                if a.len() + i < b.len() {
                    assert(b[a.len() + i] == c[a.len() + i]);
                }
            }
        }
        assert(o3 =~= o1 + c.skip(a.len() as int));
    }
}

/// A log is in step with itself.
pub proof fn lemma_logged_refl(a: Seq<ObsEvent>, logs: bool, o: Seq<ObsEvent>)
    ensures
        logged(a, a, logs, o, o),
{
    assert(a =~= a.subrange(0, a.len() as int));
    assert(o + a.skip(a.len() as int) =~= o);
}


/// A node named by `remaining_keys` below `m` is a needed node that `ord` leaves out.
proof fn lemma_remaining_names_left_out<K, O, F>(d: DagModel<K, O, F>, needed: Seq<bool>, ord: Seq<usize>, m: int)
    requires
        remaining_keys(d, needed, ord, m).len() > 0,
    ensures
        exists|i: int| 0 <= i < m && needed[i] && !ord.contains(i as usize),
    decreases m,
{
    if m > 0 && !(needed[m - 1] && !ord.contains((m - 1) as usize)) {
        lemma_remaining_names_left_out(d, needed, ord, m - 1);
    }
}

/// A cycle report that names a node is sound: when the needed nodes left out of a
/// dependency-ordered run all wait on one another and the report names one of them, the
/// needed nodes have no topological order.
pub proof fn lemma_cycle_report_sound<K, O, F>(d: DagModel<K, O, F>, needed: Seq<bool>, ord: Seq<usize>, other: Seq<usize>)
    requires
        d.wf(),
        needed.len() == d.len(),
        d.is_topo_prefix(needed, ord),
        d.rest_is_blocked(needed, ord),
        remaining_keys(d, needed, ord, d.len() as int).len() > 0,
    ensures
        !d.is_topo_order(needed, other),
{
    lemma_remaining_names_left_out(d, needed, ord, d.len() as int);
    let i = choose|i: int| 0 <= i < d.len() && needed[i] && !ord.contains(i as usize);
    assert(!d.is_topo_order(needed, ord));
    d.lemma_blocked_has_no_order(needed, ord, other);
}


/// Every worker that a start in `log` names is below `n`.
pub closed spec fn workers_below(log: Seq<ObsEvent>, n: nat) -> bool {
    forall|p: int| 0 <= p < log.len() ==> (#[trigger] log[p] matches ObsEvent::Start { worker: Some(w), .. } ==> w < n)
}

/// What `workers_below` says, position by position.
pub proof fn lemma_workers_below_def(log: Seq<ObsEvent>, n: nat)
    ensures
        workers_below(log, n) <==> forall|p: int|
            0 <= p < log.len() ==> (#[trigger] log[p] matches ObsEvent::Start { worker: Some(w), .. } ==> w < n),
{
}

/// Appending notifications whose starts name workers below `n` keeps every worker below `n`.
pub proof fn lemma_workers_below_append(log: Seq<ObsEvent>, more: Seq<ObsEvent>, n: nat)
    requires
        workers_below(log, n),
        workers_below(more, n),
    ensures
        workers_below(log + more, n),
{
    assert forall|p: int| 0 <= p < (log + more).len() implies ((#[trigger] (log + more)[p]) matches ObsEvent::Start {
        worker: Some(w),
        ..
    } ==> w < n) by {
        if p < log.len() {
            assert((log + more)[p] == log[p]);
        } else {
            assert((log + more)[p] == more[p - log.len()]);
        }
    }
}


/// The nodes of the ready notifications in `log`, in order.
pub open spec fn ready_ids(log: Seq<ObsEvent>) -> Seq<usize>
    decreases log.len(),
{
    if log.len() == 0 {
        Seq::empty()
    } else {
        let prev = ready_ids(log.drop_last());
        match log.last() {
            ObsEvent::Ready { id, .. } => prev.push(id),
            _ => prev,
        }
    }
}

/// One more notification adds its node to the ready list exactly when it is a ready one.
pub proof fn lemma_ready_ids_push(log: Seq<ObsEvent>, e: ObsEvent)
    ensures
        ready_ids(log.push(e)) == match e {
            ObsEvent::Ready { id, .. } => ready_ids(log).push(id),
            _ => ready_ids(log),
        },
{
    assert(log.push(e).drop_last() =~= log);
}

/// Ready notifications for `rel` add `rel` to the ready list.
pub proof fn lemma_ready_ids_ready(log: Seq<ObsEvent>, rel: Seq<usize>, base: nat)
    ensures
        ready_ids(log + ready_events(rel, base)) == ready_ids(log) + rel,
    decreases rel.len(),
{
    if rel.len() == 0 {
        assert(log + ready_events(rel, base) =~= log);
        assert(ready_ids(log) + rel =~= ready_ids(log));
    } else {
        let r2 = rel.drop_last();
        lemma_ready_ids_ready(log, r2, base);
        let e = ObsEvent::Ready { id: rel.last(), width: (base + r2.len() + 1) as usize };
        assert(ready_events(rel, base) =~= ready_events(r2, base).push(e));
        assert(log + ready_events(rel, base) =~= (log + ready_events(r2, base)).push(e));
        lemma_ready_ids_push(log + ready_events(r2, base), e);
        assert(ready_ids(log) + rel =~= (ready_ids(log) + r2).push(rel.last()));
    }
}


/// The number of start notifications in `log`.
pub open spec fn count_start(log: Seq<ObsEvent>) -> nat
    decreases log.len(),
{
    if log.len() == 0 {
        0
    } else {
        count_start(log.drop_last()) + if log.last() is Start {
            1nat
        } else {
            0nat
        }
    }
}

/// The number of finish notifications in `log`.
pub open spec fn count_finish(log: Seq<ObsEvent>) -> nat
    decreases log.len(),
{
    if log.len() == 0 {
        0
    } else {
        count_finish(log.drop_last()) + if log.last() is Finish {
            1nat
        } else {
            0nat
        }
    }
}

/// `log` is the log of one first-in-first-out ready queue: each ready notification reports
/// the queue's length right after its node joined (ready nodes so far less nodes started),
/// and each start takes its node from a queue that is not empty.
pub closed spec fn queue_log_ok(log: Seq<ObsEvent>) -> bool {
    forall|p: int|
        0 <= p < log.len() ==> match #[trigger] log[p] {
            ObsEvent::Ready { width, .. } => width == (ready_ids(log.take(p + 1)).len() - count_start(
                log.take(p),
            )) as usize,
            ObsEvent::Start { .. } => ready_ids(log.take(p)).len() > count_start(log.take(p)),
            ObsEvent::Finish { .. } => true,
        }
}

/// What `queue_log_ok` says, position by position.
pub proof fn lemma_queue_log_def(log: Seq<ObsEvent>)
    ensures
        queue_log_ok(log) <==> forall|p: int|
            0 <= p < log.len() ==> match #[trigger] log[p] {
                ObsEvent::Ready { width, .. } => width == (ready_ids(log.take(p + 1)).len() - count_start(
                    log.take(p),
                )) as usize,
                ObsEvent::Start { .. } => ready_ids(log.take(p)).len() > count_start(log.take(p)),
                ObsEvent::Finish { .. } => true,
            },
{
}

/// An empty log is a queue log.
pub proof fn lemma_queue_log_empty()
    ensures
        queue_log_ok(Seq::empty()),
{
}

/// One more notification that meets the queue's rule keeps a queue log.
pub proof fn lemma_queue_push(log: Seq<ObsEvent>, e: ObsEvent)
    requires
        queue_log_ok(log),
        match e {
            ObsEvent::Ready { width, .. } => width == (ready_ids(log).len() + 1 - count_start(log)) as usize,
            ObsEvent::Start { .. } => ready_ids(log).len() > count_start(log),
            ObsEvent::Finish { .. } => true,
        },
    ensures
        queue_log_ok(log.push(e)),
        count_start(log.push(e)) == count_start(log) + if e is Start {
            1nat
        } else {
            0nat
        },
        count_finish(log.push(e)) == count_finish(log) + if e is Finish {
            1nat
        } else {
            0nat
        },
{
    let l2 = log.push(e);
    assert(l2.drop_last() =~= log);
    lemma_ready_ids_push(log, e);
    assert forall|p: int| 0 <= p < l2.len() implies match #[trigger] l2[p] {
        ObsEvent::Ready { width, .. } => width == (ready_ids(l2.take(p + 1)).len() - count_start(l2.take(p))) as usize,
        ObsEvent::Start { .. } => ready_ids(l2.take(p)).len() > count_start(l2.take(p)),
        ObsEvent::Finish { .. } => true,
    } by {
        if p < log.len() {
            assert(l2[p] == log[p]);
            assert(l2.take(p + 1) =~= log.take(p + 1));
            assert(l2.take(p) =~= log.take(p));
        } else {
            assert(l2[p] == e);
            assert(l2.take(p + 1) =~= l2);
            assert(l2.take(p) =~= log);
        }
    }
}

/// Ready notifications for `rel`, pushed onto a queue of `base` nodes, keep a queue log.
pub proof fn lemma_queue_ready(log: Seq<ObsEvent>, rel: Seq<usize>, base: nat)
    requires
        queue_log_ok(log),
        ready_ids(log).len() == count_start(log) + base,
    ensures
        queue_log_ok(log + ready_events(rel, base)),
        count_start(log + ready_events(rel, base)) == count_start(log),
        count_finish(log + ready_events(rel, base)) == count_finish(log),
    decreases rel.len(),
{
    if rel.len() == 0 {
        assert(log + ready_events(rel, base) =~= log);
    } else {
        let r2 = rel.drop_last();
        lemma_queue_ready(log, r2, base);
        let l1 = log + ready_events(r2, base);
        lemma_ready_ids_ready(log, r2, base);
        let e = ObsEvent::Ready { id: rel.last(), width: (base + r2.len() + 1) as usize };
        assert(ready_events(rel, base) =~= ready_events(r2, base).push(e));
        assert(log + ready_events(rel, base) =~= l1.push(e));
        lemma_queue_push(l1, e);
    }
}


/// Each ready notification in `log` comes after every dependency of its node has finished.
pub closed spec fn ready_after_deps<K, O, F>(d: DagModel<K, O, F>, log: Seq<ObsEvent>) -> bool {
    forall|p: int, j: int|
        0 <= p < log.len() && (#[trigger] log[p]) is Ready && 0 <= j < d.deps(log[p]->Ready_id as int).len()
            ==> finish_before(log, #[trigger] d.deps(log[p]->Ready_id as int)[j], p)
}

/// What `ready_after_deps` says, position by position.
pub proof fn lemma_ready_after_deps_def<K, O, F>(d: DagModel<K, O, F>, log: Seq<ObsEvent>)
    ensures
        ready_after_deps(d, log) <==> forall|p: int, j: int|
            0 <= p < log.len() && (#[trigger] log[p]) is Ready && 0 <= j < d.deps(log[p]->Ready_id as int).len()
                ==> finish_before(log, #[trigger] d.deps(log[p]->Ready_id as int)[j], p),
{
}

/// A notification that is not a ready one keeps every ready notification after its
/// node's dependencies.
pub proof fn lemma_ready_after_deps_push<K, O, F>(d: DagModel<K, O, F>, log: Seq<ObsEvent>, e: ObsEvent)
    requires
        ready_after_deps(d, log),
        !(e is Ready),
    ensures
        ready_after_deps(d, log.push(e)),
{
    let l2 = log.push(e);
    assert forall|p: int, j: int|
        0 <= p < l2.len() && (#[trigger] l2[p]) is Ready && 0 <= j < d.deps(l2[p]->Ready_id as int).len()
            implies finish_before(l2, #[trigger] d.deps(l2[p]->Ready_id as int)[j], p) by {
        assert(p < log.len());
        assert(l2[p] == log[p]);
        let x = d.deps(log[p]->Ready_id as int)[j];
        assert(finish_before(log, x, p));
        let q = choose|q: int| 0 <= q < p && #[trigger] log[q] == ObsEvent::Finish { id: x };
        assert(l2[q] == log[q]);
    }
}

/// Ready notifications for nodes whose dependencies have all finished keep every ready
/// notification after its node's dependencies.
pub proof fn lemma_ready_after_deps_ready<K, O, F>(d: DagModel<K, O, F>, log: Seq<ObsEvent>, rel: Seq<usize>, base: nat)
    requires
        ready_after_deps(d, log),
        forall|k: int, j: int|
            0 <= k < rel.len() && 0 <= j < d.deps(rel[k] as int).len() ==> finish_before(
                log,
                #[trigger] d.deps(rel[k] as int)[j],
                log.len() as int,
            ),
    ensures
        ready_after_deps(d, log + ready_events(rel, base)),
{
    let more = ready_events(rel, base);
    let l2 = log + more;
    assert forall|p: int, j: int|
        0 <= p < l2.len() && (#[trigger] l2[p]) is Ready && 0 <= j < d.deps(l2[p]->Ready_id as int).len()
            implies finish_before(l2, #[trigger] d.deps(l2[p]->Ready_id as int)[j], p) by {
        if p < log.len() {
            assert(l2[p] == log[p]);
            let x = d.deps(log[p]->Ready_id as int)[j];
            assert(finish_before(log, x, p));
            let q = choose|q: int| 0 <= q < p && #[trigger] log[q] == ObsEvent::Finish { id: x };
            assert(l2[q] == log[q]);
        } else {
            let k = p - log.len();
            assert(l2[p] == more[k]);
            assert(more[k]->Ready_id == rel[k]);
            let x = d.deps(rel[k] as int)[j];
            assert(finish_before(log, x, log.len() as int));
            let q = choose|q: int| 0 <= q < log.len() && #[trigger] log[q] == ObsEvent::Finish { id: x };
            assert(l2[q] == log[q]);
        }
    }
}


/// Each start in `log` comes after a ready notification for its node.
pub closed spec fn ready_before_start(log: Seq<ObsEvent>) -> bool {
    forall|p: int|
        0 <= p < log.len() && (#[trigger] log[p]) is Start ==> exists|q: int|
            0 <= q < p && (log[q] is Ready && log[q]->Ready_id == log[p]->Start_id)
}

/// What `ready_before_start` says, position by position.
pub proof fn lemma_ready_before_start_def(log: Seq<ObsEvent>)
    ensures
        ready_before_start(log) <==> forall|p: int|
            0 <= p < log.len() && (#[trigger] log[p]) is Start ==> exists|q: int|
                0 <= q < p && (log[q] is Ready && log[q]->Ready_id == log[p]->Start_id),
{
}

/// A node is on the ready list only when some ready notification names it.
pub proof fn lemma_ready_ids_contains(log: Seq<ObsEvent>, x: usize)
    ensures
        ready_ids(log).contains(x) ==> exists|q: int| 0 <= q < log.len() && (log[q] is Ready && log[q]->Ready_id == x),
    decreases log.len(),
{
    if log.len() > 0 {
        let l2 = log.drop_last();
        lemma_ready_ids_contains(l2, x);
        if ready_ids(log).contains(x) {
            if ready_ids(l2).contains(x) {
                let q = choose|q: int| 0 <= q < l2.len() && (l2[q] is Ready && l2[q]->Ready_id == x);
                assert(log[q] == l2[q]);
            } else {
                match log.last() {
                    ObsEvent::Ready { id, .. } => {
                        let r = ready_ids(l2).push(id);
                        let k = choose|k: int| 0 <= k < r.len() && r[k] == x;
                        if k < ready_ids(l2).len() {
                            assert(ready_ids(l2)[k] == x);
                        }
                        assert(log[log.len() - 1] == log.last());
                    },
                    _ => {},
                }
            }
        }
    }
}

/// One more notification keeps every start after a ready notification for its node, if a
/// start it adds is of a node on the ready list.
pub proof fn lemma_ready_before_start_push(log: Seq<ObsEvent>, e: ObsEvent)
    requires
        ready_before_start(log),
        e is Start ==> ready_ids(log).contains(e->Start_id),
    ensures
        ready_before_start(log.push(e)),
{
    let l2 = log.push(e);
    assert forall|p: int| 0 <= p < l2.len() && (#[trigger] l2[p]) is Start implies exists|q: int|
        0 <= q < p && (l2[q] is Ready && l2[q]->Ready_id == l2[p]->Start_id) by {
        if p < log.len() {
            assert(l2[p] == log[p]);
            let q = choose|q: int| 0 <= q < p && (log[q] is Ready && log[q]->Ready_id == log[p]->Start_id);
            assert(l2[q] == log[q]);
        } else {
            assert(l2[p] == e);
            lemma_ready_ids_contains(log, e->Start_id);
            let q = choose|q: int| 0 <= q < log.len() && (log[q] is Ready && log[q]->Ready_id == e->Start_id);
            assert(l2[q] == log[q]);
        }
    }
}

/// Ready notifications keep every start after a ready notification for its node.
pub proof fn lemma_ready_before_start_ready(log: Seq<ObsEvent>, rel: Seq<usize>, base: nat)
    requires
        ready_before_start(log),
    ensures
        ready_before_start(log + ready_events(rel, base)),
{
    let more = ready_events(rel, base);
    let l2 = log + more;
    assert forall|p: int| 0 <= p < l2.len() && (#[trigger] l2[p]) is Start implies exists|q: int|
        0 <= q < p && (l2[q] is Ready && l2[q]->Ready_id == l2[p]->Start_id) by {
        if p < log.len() {
            assert(l2[p] == log[p]);
            let q = choose|q: int| 0 <= q < p && (log[q] is Ready && log[q]->Ready_id == log[p]->Start_id);
            assert(l2[q] == log[q]);
        } else {
            assert(l2[p] == more[p - log.len()]);
        }
    }
}

} // verus!
