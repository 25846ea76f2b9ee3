use std::collections::{HashMap, VecDeque};
use std::hash::Hash;
use std::sync::Arc;
use vstd::prelude::*;

use crate::error::ExecError;
use crate::exec::common::{
    arc_clone, build_kahn_metadata, collect_outputs, collect_remaining, mark_needed, release_dependents,
    seed_ready,
};
use crate::exec::counting::{
    count_pending, count_true, lemma_count_pending_empty, lemma_count_pending_push, lemma_count_pending_zero,
    lemma_unresolved_empty, lemma_unresolved_zero, unresolved,
};
use crate::exec::kahn::{dependents_ok, indeg_ok, lemma_complete_node, lemma_prefix_resolved};
use crate::exec::common::{initial_ready, ready_events};
use crate::exec::observe::{finish_before, lemma_append_no_start, started_ids, ExecObserver, ObsEvent};
use crate::exec::outcome::{
    args_match, err_outcome, executed, lemma_events_finish, lemma_events_ready, lemma_events_start,
    lemma_executed_frame, lemma_ready_ids_push, lemma_ready_ids_ready, lemma_respects_append_ready, ready_ids, count_start, count_finish, queue_log_ok, lemma_queue_log_empty, lemma_queue_push, lemma_queue_ready,
    lemma_ready_after_deps_def, lemma_ready_after_deps_push, lemma_ready_after_deps_ready, ready_after_deps,
    lemma_ready_before_start_def, lemma_ready_before_start_push, lemma_ready_before_start_ready, ready_before_start,
    remaining_keys, run_outcome, seq_events_ok, tasks_accept,
    value_ok,
};
use crate::graph::{key_model, Dag, DagModel, NodeId, NodeKind};
use crate::trace::{max_width, lemma_sequential_report, reports_sequential_run, TraceObserver, TracedExecution};

verus! {

/// Runs the needed subgraph once, in Kahn order, notifying `observer`.
#[verifier::rlimit(100)]
#[verifier::spinoff_prover]
pub(crate) fn execute<K: Eq + Hash + Clone, O, E, F: Fn(&[Arc<O>]) -> Result<O, E>, R: ExecObserver>(
    dag: &Dag<K, O, F>,
    out_keys: &[K],
    observer: &mut R,
) -> (r: Result<(Vec<Option<Arc<O>>>, Vec<bool>, Ghost<Seq<nat>>), ExecError<K, E>>)
    requires
        dag@.wf(),
        key_model::<K>(),
        tasks_accept::<K, O, E, F>(dag@, dag@.needed_of(dag@.output_roots(out_keys@))),
        old(observer).bound() >= dag@.len(),
    ensures
        final(observer).logs() == old(observer).logs(),
        final(observer).bound() == old(observer).bound(),
        out_keys@.len() == 0 || !dag@.all_present(out_keys@) ==> *final(observer) == *old(observer),
        out_keys@.len() == 0 ==> (r matches Err(ExecError::InternalInvariant(m)) && m@
            == "outputs must be non-empty"@),
        out_keys@.len() > 0 && !dag@.all_present(out_keys@) ==> exists|j: int|
            dag@.first_missing(out_keys@, j) && r == Err::<(Vec<Option<Arc<O>>>, Vec<bool>, Ghost<Seq<nat>>), ExecError<K, E>>(
                ExecError::OutputMissing(out_keys@[j]),
            ),
        out_keys@.len() > 0 && dag@.all_present(out_keys@) ==> exists|ord: Seq<usize>, vals: Seq<Option<Arc<O>>>|
            #[trigger] executed::<K, O, E, F>(
                dag@,
                dag@.needed_of(dag@.output_roots(out_keys@)),
                ord,
                vals,
            ) && match r {
                Ok(p) => p.0@ == vals && p.1@ == dag@.needed_of(dag@.output_roots(out_keys@)) && p.2@ == task_calls(dag@, ord)
                    && dag@.is_topo_order(dag@.needed_of(dag@.output_roots(out_keys@)), ord)
                    && exists|evs: Seq<ObsEvent>|
                    #[trigger] seq_events_ok(dag@, ord, evs) && ready_ids(evs) == ord && queue_log_ok(evs) && count_start(evs) == ord.len()
                        && count_finish(evs) == ord.len() && initial_ready(dag@, dag@.needed_of(dag@.output_roots(out_keys@)), dag@.len() as int).is_prefix_of(ready_ids(evs)) && ready_after_deps(dag@, evs) && ready_before_start(evs) && (old(observer).logs()
                        ==> final(observer).log() == old(observer).log() + evs),
                Err(e) => err_outcome::<K, O, E, F>(
                    dag@,
                    dag@.needed_of(dag@.output_roots(out_keys@)),
                    ord,
                    vals,
                    e,
                ) && exists|evs: Seq<ObsEvent>|
                    #[trigger] seq_events_ok(dag@, ord, evs) && ord.is_prefix_of(ready_ids(evs)) && queue_log_ok(evs) && count_start(evs) == ord.len()
                    && count_finish(evs) == ord.len() && initial_ready(dag@, dag@.needed_of(dag@.output_roots(out_keys@)), dag@.len() as int).is_prefix_of(ready_ids(evs)) && ready_after_deps(dag@, evs) && ready_before_start(evs) && (old(
                        observer,
                    ).logs() ==> match e {
                        ExecError::TaskFailed { task, .. } => exists|x: usize|
                            x < dag@.len() && dag@.key(x as int) == task && final(observer).log() == old(
                                observer,
                            ).log() + evs.push(ObsEvent::Start { id: x, worker: None }),
                        _ => final(observer).log() == old(observer).log() + evs,
                    }),
            },
{
    let ghost d = dag@;
    if out_keys.len() == 0 {
        return Err(ExecError::InternalInvariant("outputs must be non-empty"));
    }
    let needed = match mark_needed(dag, out_keys) {
        Ok(needed) => needed,
        Err(e) => {
            return Err(e);
        },
    };
    let ghost roots = d.output_roots(out_keys@);
    proof {
        d.lemma_needed_of_closed(roots);
    }
    let (dependents, mut indeg, needed_count) = build_kahn_metadata(dag, &needed);
    let n = dag.node_count();
    let ghost deps_model = dependents@.map_values(|v: Vec<usize>| v@);
    assert(dependents_ok(d, needed@, deps_model));

    // Values indexed by node
    let mut vals: Vec<Option<Arc<O>>> = Vec::with_capacity(n);
    for i in 0..n
        invariant
            vals@.len() == i,
            forall|k: int| 0 <= k < i ==> #[trigger] vals@[k] is None,
    {
        vals.push(None);
    }

    let ghost ord: Seq<usize> = Seq::empty();
    proof {
        assert forall|i: int| 0 <= i < n implies #[trigger] indeg@[i] == if needed@[i] {
            unresolved(d.deps(i), ord)
        } else {
            0
        } by {
            lemma_unresolved_empty(d.deps(i));
        }
    }

    // Seed: needed nodes with no dependencies
    let mut q = seed_ready(dag, &needed, &indeg, observer);
    let ghost mut evs = ready_events(q@, 0);
    let ghost seed = q@;
    proof {
        assert forall|k: int| 0 <= k < evs.len() implies #[trigger] evs[k] is Ready by {}
        lemma_append_no_start(Seq::empty(), evs);
        lemma_respects_append_ready(d, Seq::empty(), evs);
        assert(Seq::<ObsEvent>::empty() + evs =~= evs);
        assert(started_ids(Seq::<ObsEvent>::empty()) =~= Seq::<usize>::empty());
        assert(seq_events_ok(d, ord, evs));
        lemma_ready_ids_ready(Seq::empty(), q@, 0);
        lemma_queue_log_empty();
        lemma_queue_ready(Seq::empty(), q@, 0);
        assert(ready_ids(Seq::<ObsEvent>::empty()) =~= Seq::<usize>::empty());
        assert(ord + q@ =~= q@);
        assert(seed =~= ready_ids(evs).subrange(0, seed.len() as int));
        lemma_ready_after_deps_def(d, Seq::<ObsEvent>::empty());
        assert forall|k: int, j: int| 0 <= k < q@.len() && 0 <= j < d.deps(q@[k] as int).len() implies finish_before(
            Seq::<ObsEvent>::empty(),
            #[trigger] d.deps(q@[k] as int)[j],
            0,
        ) by {
            lemma_unresolved_empty(d.deps(q@[k] as int));
        }
        lemma_ready_after_deps_ready(d, Seq::<ObsEvent>::empty(), q@, 0);
        lemma_ready_before_start_def(Seq::<ObsEvent>::empty());
        lemma_ready_before_start_ready(Seq::<ObsEvent>::empty(), q@, 0);
    }

    let mut processed: usize = 0;
    proof {
        lemma_count_pending_empty(needed@, n as int);
        assert(needed@.take(n as int) =~= needed@);
    }
    let mut calls: Ghost<Seq<nat>> = Ghost(Seq::new(n as nat, |i: int| 0nat));
    assert(calls@ =~= task_calls(d, ord));

    while q.len() > 0
        invariant
            d == dag@,
            d.wf(),
            key_model::<K>(),
            tasks_accept::<K, O, E, F>(d, needed@),
            n == d.len(),
            needed@ == d.needed_of(roots),
            needed@.len() == n,
            d.closed_under_deps(needed@),
            deps_model == dependents@.map_values(|v: Vec<usize>| v@),
            dependents_ok(d, needed@, deps_model),
            indeg_ok(d, needed@, ord, indeg@),
            executed::<K, O, E, F>(d, needed@, ord, vals@),
            q@.no_duplicates(),
            forall|k: int|
                0 <= k < q@.len() ==> #[trigger] q@[k] < n && needed@[q@[k] as int] && !ord.contains(q@[k])
                    && unresolved(d.deps(q@[k] as int), ord) == 0,
            forall|v: int|
                0 <= v < n && needed@[v] && !ord.contains(v as usize) && #[trigger] unresolved(d.deps(v), ord)
                    == 0 ==> q@.contains(v as usize),
            out_keys@.len() > 0,
            d.all_present(out_keys@),
            roots == d.output_roots(out_keys@),
            processed == ord.len(),
            processed + count_pending(needed@, ord, n as int) == needed_count,
            observer.logs() == old(observer).logs(),
            observer.bound() == old(observer).bound(),
            observer.bound() >= n,
            seq_events_ok(d, ord, evs),
            ready_ids(evs) == ord + q@,
            queue_log_ok(evs),
            count_start(evs) == ord.len(),
            count_finish(evs) == ord.len(),
            seed == initial_ready(d, needed@, n as int),
            seed.is_prefix_of(ready_ids(evs)),
            ready_after_deps(d, evs),
            ready_before_start(evs),
            old(observer).logs() ==> observer.log() == old(observer).log() + evs,
            calls@ == task_calls(d, ord),
        decreases count_pending(needed@, ord, n as int),
    {
        let ghost q0 = q@;
        let id = q.pop_front().unwrap();
        assert(q@ =~= q0.drop_first());
        assert(q0[0] == id);
        proof {
            lemma_count_pending_push(needed@, ord, id, n as int);
            lemma_unresolved_zero(d.deps(id as int), ord);
        }
        processed += 1;
        let ghost evs_pre = evs;
        observer.mark_start(NodeId(id), None);
        proof {
            lemma_ready_ids_push(evs, ObsEvent::Start { id, worker: None });
            lemma_queue_push(evs, ObsEvent::Start { id, worker: None });
            lemma_ready_after_deps_push(d, evs, ObsEvent::Start { id, worker: None });
            assert((ord + q0)[ord.len() as int] == id);
            lemma_ready_before_start_push(evs, ObsEvent::Start { id, worker: None });
            lemma_events_start(d, ord, evs, id);
            if old(observer).logs() {
                assert(observer.log() =~= old(observer).log() + evs.push(ObsEvent::Start { id, worker: None }));
            }
            evs = evs.push(ObsEvent::Start { id, worker: None });
        }

        let ghost vals0 = vals@;
        match dag.node_kind(id) {
            NodeKind::Source(v) => {
                let a = arc_clone(v);
                vals.set(id, Some(a));
                proof {
                    lemma_executed_frame::<K, O, E, F>(d, needed@, ord, vals0, id, a);
                    lemma_task_calls_push(d, ord, id);
                }
            },
            NodeKind::Task(f) => {
                let deps = dag.node_deps(id);
                let mut args: Vec<Arc<O>> = Vec::with_capacity(deps.len());
                for j in 0..deps.len()
                    invariant
                        d == dag@,
                        d.wf(),
                        n == d.len(),
                        id < n,
                        vals@ == vals0,
                        executed::<K, O, E, F>(d, needed@, ord, vals@),
                        deps@.len() == d.deps(id as int).len(),
                        forall|j2: int| 0 <= j2 < deps@.len() ==> (#[trigger] deps@[j2]).0 == d.deps(id as int)[j2],
                        forall|j2: int| 0 <= j2 < d.deps(id as int).len() ==> ord.contains(#[trigger] d.deps(id as int)[j2]),
                        args@.len() == j,
                        forall|j2: int| 0 <= j2 < j ==> vals@[#[trigger] d.deps(id as int)[j2] as int] == Some(args@[j2]),
                {
                    let dep = deps[j].0;
                    assert(d.deps(id as int)[j as int] == dep);
                    assert(ord.contains(dep));
                    match &vals[dep] {
                        Some(v) => {
                            args.push(arc_clone(v));
                        },
                        None => {
                            return Err(ExecError::InternalInvariant("dep missing during exec"));
                        },
                    }
                }
                assert(args_match(d, vals@, id as int, args@));
                assert(d.nodes[id as int].kind == NodeKind::<O, F>::Task(*f));
                let s = args.as_slice();
                assert(f.requires((s,)));
                proof {
                    lemma_task_calls_push(d, ord, id);
                }
                match call_task(f, s, id, &mut calls) {
                    Ok(out) => {
                        let a = Arc::new(out);
                        vals.set(id, Some(a));
                        proof {
                            lemma_executed_frame::<K, O, E, F>(d, needed@, ord, vals0, id, a);
                            assert(args_match(d, vals@, id as int, s@));
                            assert(f.ensures((s,), Ok::<O, E>(out)));
                            assert(vals@[id as int] == Some(a));
                            assert(*a == out);
                            assert(f.ensures((s,), Ok::<O, E>(*a)));
                            assert(exists|s2: &[Arc<O>]| args_match(d, vals@, id as int, s2@) && #[trigger] f.ensures((s2,), Ok::<O, E>(*a)));
                            let kk = d.nodes[id as int].kind;
                            assert(kk is Task);
                            assert(kk->Task_0 == *f);
                            assert((*f).ensures((s,), Ok::<O, E>(*a)));
                            assert(vals@[id as int]->Some_0 == a);
                            assert((*f).ensures((s,), Ok::<O, E>(*(vals@[id as int]->Some_0))));
                            assert(value_ok::<K, O, E, F>(d, vals@, id as int));
                        }
                    },
                    Err(e) => {
                        let task = dag.node_key(id).clone();
                        assert(cloned::<K>(d.key(id as int), task));
                        proof {
                            assert(crate::exec::outcome::task_failed::<K, O, E, F>(d, needed@, ord, vals@, id as int, e));
                            assert(task == d.key(id as int));
                            assert(ExecError::<K, E>::TaskFailed { task, error: e } matches ExecError::TaskFailed { task: t2, error: e2 } && t2 == task && e2 == e);
                            assert(err_outcome::<K, O, E, F>(d, needed@, ord, vals@, ExecError::TaskFailed { task, error: e }));
                            assert(ord.is_prefix_of(ready_ids(evs_pre))) by {
                                assert(ord =~= (ord + q0).subrange(0, ord.len() as int));
                            }
                            assert(seq_events_ok(d, ord, evs_pre));
                        }
                        return Err(ExecError::TaskFailed { task, error: e });
                    },
                }
            },
        }

        observer.mark_finish(NodeId(id));
        proof {
            lemma_ready_ids_push(evs, ObsEvent::Finish { id });
            lemma_queue_push(evs, ObsEvent::Finish { id });
            lemma_ready_after_deps_push(d, evs, ObsEvent::Finish { id });
            lemma_ready_before_start_push(evs, ObsEvent::Finish { id });
            lemma_events_finish(d, ord, evs, id);
            if old(observer).logs() {
                assert(observer.log() =~= old(observer).log() + evs.push(ObsEvent::Finish { id }));
            }
            evs = evs.push(ObsEvent::Finish { id });
        }

        // Release dependents
        let ghost indeg0 = indeg@;
        let ghost qmid = q@;
        proof {
            assert forall|i: int| 0 <= i < dependents@.len() implies crate::exec::counting::occ(
                dependents@[id as int]@,
                i as usize,
            ) <= #[trigger] indeg@[i] by {
                assert(deps_model[id as int] == dependents@[id as int]@);
                assert(deps_model[id as int] == dependents@[id as int]@);
                if needed@[i] {
                    crate::exec::counting::lemma_unresolved_push(d.deps(i), ord, id);
                }
            }
            assert forall|k: int| 0 <= k < dependents@[id as int]@.len() implies #[trigger] dependents@[id as int]@[k]
                < dependents@.len() by {
                assert(deps_model[id as int] == dependents@[id as int]@);
            }
        }
        release_dependents(&dependents, &mut indeg, &mut q, id, observer);
        proof {
            assert(deps_model[id as int] == dependents@[id as int]@);
            lemma_complete_node(d, needed@, deps_model, ord, id, indeg0, indeg@);
            let rel = crate::exec::common::released(deps_model[id as int], indeg0, deps_model[id as int].len() as int);
            let ord1 = ord.push(id);
            assert(q@ == qmid + rel);
            // queue facts
            assert forall|k: int|
                0 <= k < q@.len() implies #[trigger] q@[k] < n && needed@[q@[k] as int] && !ord1.contains(q@[k])
                    && unresolved(d.deps(q@[k] as int), ord1) == 0 by {
                if k < qmid.len() {
                    assert(q@[k] == q0[k + 1]);
                    let y = q@[k];
                    crate::exec::counting::lemma_unresolved_push(d.deps(y as int), ord, id);
                    assert(q0[0] != q0[k + 1]);
                    assert(y != id);
                    if ord1.contains(y) {
                        let t = choose|t: int| 0 <= t < ord1.len() && ord1[t] == y;
                        if t < ord.len() {
                            assert(ord[t] == y);
                        }
                    }
                    assert(!ord1.contains(y));
                } else {
                    let y = q@[k];
                    assert(rel[k - qmid.len()] == y);
                    assert(rel.contains(y));
                    assert(y < n);
                    assert(rel.contains((y as int) as usize));
                    assert(needed@[y as int] && unresolved(d.deps(y as int), ord) > 0 && unresolved(d.deps(y as int), ord1) == 0);
                    crate::exec::kahn::lemma_unresolved_not_done(d, needed@, ord, y);
                    assert(y != id);
                    if ord1.contains(y) {
                        let t = choose|t: int| 0 <= t < ord1.len() && ord1[t] == y;
                        if t < ord.len() {
                            assert(ord[t] == y);
                        }
                    }
                    assert(!ord1.contains(y));
                }
            }
            assert(q@.no_duplicates()) by {
                assert forall|a: int, b: int| 0 <= a < q@.len() && 0 <= b < q@.len() && a != b implies q@[a] != q@[b] by {
                    if a < qmid.len() && b < qmid.len() {
                        assert(q@[a] == q0[a + 1] && q@[b] == q0[b + 1]);
                    } else if a >= qmid.len() && b >= qmid.len() {
                        assert(q@[a] == rel[a - qmid.len()] && q@[b] == rel[b - qmid.len()]);
                    } else if a < qmid.len() {
                        assert(q@[a] == q0[a + 1]);
                        assert(rel.contains(q@[b])) by { assert(rel[b - qmid.len()] == q@[b]); }
                        assert(unresolved(d.deps(q@[b] as int), ord) > 0);
                    } else {
                        assert(q@[b] == q0[b + 1]);
                        assert(rel.contains(q@[a])) by { assert(rel[a - qmid.len()] == q@[a]); }
                        assert(unresolved(d.deps(q@[a] as int), ord) > 0);
                    }
                }
            }
            assert forall|v: int|
                0 <= v < n && needed@[v] && !ord1.contains(v as usize) && #[trigger] unresolved(d.deps(v), ord1) == 0 implies q@.contains(
                v as usize,
            ) by {
                assert(ord1[ord.len() as int] == id);
                assert(v != id);
                assert(!ord.contains(v as usize)) by {
                    if ord.contains(v as usize) {
                        let t = choose|t: int| 0 <= t < ord.len() && ord[t] == v as usize;
                        assert(ord1[t] == v);
                    }
                }
                crate::exec::counting::lemma_unresolved_push(d.deps(v), ord, id);
                if unresolved(d.deps(v), ord) == 0 {
                    assert(q0.contains(v as usize));
                    let t = choose|t: int| 0 <= t < q0.len() && q0[t] == v as usize;
                    assert(t != 0);
                    assert(q@[t - 1] == v);
                } else {
                    assert(rel.contains(v as usize));
                    let t = choose|t: int| 0 <= t < rel.len() && rel[t] == v as usize;
                    assert(q@[qmid.len() + t] == v);
                }
            }
            assert(executed::<K, O, E, F>(d, needed@, ord1, vals@)) by {
                assert forall|i: int| 0 <= i < d.len() implies (#[trigger] vals@[i] is Some <==> ord1.contains(i as usize)) by {
                    if ord1.contains(i as usize) && i != id {
                        let t = choose|t: int| 0 <= t < ord1.len() && ord1[t] == i as usize;
                        assert(ord[t] == i);
                    }
                    if ord.contains(i as usize) {
                        let t = choose|t: int| 0 <= t < ord.len() && ord[t] == i as usize;
                        assert(ord1[t] == i);
                    }
                    if i == id {
                        assert(ord1[ord.len() as int] == id);
                    }
                }
                assert forall|k: int| 0 <= k < ord1.len() implies value_ok::<K, O, E, F>(d, vals@, #[trigger] ord1[k] as int) by {
                    if k < ord.len() {
                        assert(ord1[k] == ord[k]);
                    }
                }
            }
            let more = ready_events(rel, qmid.len());
            lemma_ready_ids_ready(evs, rel, qmid.len());
            assert(seed =~= (ready_ids(evs) + rel).subrange(0, seed.len() as int)) by {
                assert(seed =~= ready_ids(evs).subrange(0, seed.len() as int));
            }
            lemma_queue_ready(evs, rel, qmid.len());
            assert(ord + q0 =~= ord1 + qmid);
            assert(ord1 + q@ =~= ord1 + qmid + rel);
            assert forall|k: int| 0 <= k < more.len() implies #[trigger] more[k] is Ready by {}
            lemma_events_ready(d, ord1, evs, more);
            assert forall|k: int, j: int| 0 <= k < rel.len() && 0 <= j < d.deps(rel[k] as int).len() implies finish_before(
                evs,
                #[trigger] d.deps(rel[k] as int)[j],
                evs.len() as int,
            ) by {
                let y = rel[k];
                assert(q@[qmid.len() + k] == y);
                lemma_unresolved_zero(d.deps(y as int), ord1);
                let t = choose|t: int| 0 <= t < ord1.len() && ord1[t] == d.deps(y as int)[j];
                assert(finish_before(evs, ord1[t], evs.len() as int));
            }
            lemma_ready_after_deps_ready(d, evs, rel, qmid.len());
            lemma_ready_before_start_ready(evs, rel, qmid.len());
            let evs3 = evs + more;
            if old(observer).logs() {
                assert(observer.log() =~= old(observer).log() + evs3);
            }
            evs = evs3;
            ord = ord1;
        }
    }

    if processed != needed_count {
        proof {
            assert forall|i: int| 0 <= i < n && #[trigger] needed@[i] implies (indeg@[i] > 0 <==> !ord.contains(i as usize)) by {
                if ord.contains(i as usize) {
                    let t = choose|t: int| 0 <= t < ord.len() && ord[t] == i as usize;
                    lemma_prefix_resolved(d, needed@, ord, t);
                }
            }
        }
        let remaining = collect_remaining(dag, &needed, &indeg, Ghost(ord));
        proof {
            lemma_count_pending_zero(needed@, ord, n as int);
            assert forall|i: int| 0 <= i < d.len() && needed@[i] && !ord.contains(i as usize) implies exists|j: int|
                0 <= j < d.deps(i).len() && !ord.contains(#[trigger] d.deps(i)[j]) by {
                lemma_unresolved_zero(d.deps(i), ord);
            }
            assert(err_outcome::<K, O, E, F>(d, needed@, ord, vals@, ExecError::Cycle { remaining }));
            assert(ord.is_prefix_of(ready_ids(evs))) by {
                assert(ord =~= (ord + q@).subrange(0, ord.len() as int));
            }
        }
        return Err(ExecError::Cycle { remaining });
    }
    proof {
        lemma_count_pending_zero(needed@, ord, n as int);
        assert(d.is_topo_order(needed@, ord));
        assert(ord + q@ =~= ord);
    }
    Ok((vals, needed, calls))
}

/// One call for each task node of `ord`, none for any other node.
pub open spec fn task_calls<K, O, F>(d: DagModel<K, O, F>, ord: Seq<usize>) -> Seq<nat> {
    Seq::new(d.len(), |i: int| if ord.contains(i as usize) && d.nodes[i].kind is Task { 1nat } else { 0nat })
}

/// Running node `id`, not run before, adds its call if it is a task.
proof fn lemma_task_calls_push<K, O, F>(d: DagModel<K, O, F>, ord: Seq<usize>, id: usize)
    requires
        id < d.len(),
        d.len() <= usize::MAX,
        !ord.contains(id),
    ensures
        task_calls(d, ord)[id as int] == 0,
        task_calls(d, ord.push(id)) == if d.nodes[id as int].kind is Task {
            task_calls(d, ord).update(id as int, 1nat)
        } else {
            task_calls(d, ord)
        },
{
    let a = task_calls(d, ord.push(id));
    let b = if d.nodes[id as int].kind is Task {
        task_calls(d, ord).update(id as int, 1nat)
    } else {
        task_calls(d, ord)
    };
    assert forall|i: int| 0 <= i < d.len() implies a[i] == b[i] by {
        if i != id as int {
            assert(i as usize != id);
            if ord.push(id).contains(i as usize) {
                let t = choose|t: int| 0 <= t < ord.push(id).len() && ord.push(id)[t] == i as usize;
                assert(ord[t] == i as usize);
            }
            if ord.contains(i as usize) {
                let t = choose|t: int| 0 <= t < ord.len() && ord[t] == i as usize;
                assert(ord.push(id)[t] == i as usize);
            }
        } else {
            assert(ord.push(id)[ord.len() as int] == id);
        }
    }
    assert(a =~= b);
}

/// Calls the task `f` of node `id` on `s`. `calls` counts the task calls made per node; a
/// node's task is called at most once.
fn call_task<O, E, F: Fn(&[Arc<O>]) -> Result<O, E>>(
    f: &F,
    s: &[Arc<O>],
    id: usize,
    calls: &mut Ghost<Seq<nat>>,
) -> (r: Result<O, E>)
    requires
        f.requires((s,)),
        id < old(calls)@.len(),
        old(calls)@[id as int] == 0,
    ensures
        f.ensures((s,), r),
        final(calls)@ == old(calls)@.update(id as int, 1nat),
{
    let r = f(s);
    *calls = Ghost(calls@.update(id as int, 1nat));
    r
}

/// Computes only the requested outputs (and their transitive dependencies).
pub(crate) fn run<K: Eq + Hash + Clone, O, E, F: Fn(&[Arc<O>]) -> Result<O, E>>(
    dag: &Dag<K, O, F>,
    out_keys: Vec<K>,
) -> (r: Result<HashMap<K, Arc<O>>, ExecError<K, E>>)
    requires
        dag@.wf(),
        key_model::<K>(),
        tasks_accept::<K, O, E, F>(dag@, dag@.needed_of(dag@.output_roots(out_keys@))),
    ensures
        run_outcome::<K, O, E, F>(
            dag@,
            out_keys@,
            match r {
                Ok(m) => Ok(m@),
                Err(e) => Err(e),
            },
        ),
{
    let mut observer = crate::exec::observe::NoopObserver::new();
    let vals = match execute(dag, out_keys.as_slice(), &mut observer) {
        Ok((vals, _, _)) => vals,
        Err(e) => {
            return Err(e);
        },
    };
    finish_outputs(dag, out_keys.as_slice(), vals)
}

/// Collects the requested outputs after a successful run; they are all available.
pub(crate) fn finish_outputs<K: Eq + Hash + Clone, O, E, F: Fn(&[Arc<O>]) -> Result<O, E>>(
    dag: &Dag<K, O, F>,
    out_keys: &[K],
    vals: Vec<Option<Arc<O>>>,
) -> (r: Result<HashMap<K, Arc<O>>, ExecError<K, E>>)
    requires
        dag@.wf(),
        key_model::<K>(),
        out_keys@.len() > 0,
        dag@.all_present(out_keys@),
        exists|ord: Seq<usize>|
            #[trigger] executed::<K, O, E, F>(dag@, dag@.needed_of(dag@.output_roots(out_keys@)), ord, vals@)
                && dag@.is_topo_order(dag@.needed_of(dag@.output_roots(out_keys@)), ord),
    ensures
        r matches Ok(m) && m@ == crate::exec::common::outputs_map(dag@, vals@, out_keys@),
{
    let ghost d = dag@;
    let ghost needed = d.needed_of(d.output_roots(out_keys@));
    let ghost ord = choose|ord: Seq<usize>|
        #[trigger] executed::<K, O, E, F>(d, needed, ord, vals@) && d.is_topo_order(needed, ord);
    proof {
        assert forall|j: int| 0 <= j < out_keys@.len() implies #[trigger] crate::exec::common::output_available(
            d,
            vals@,
            out_keys@[j],
        ) by {
            let i = d.index[out_keys@[j]];
            assert(d.index.contains_key(out_keys@[j]));
            assert(d.output_roots(out_keys@).contains(i));
            let p = seq![i];
            assert(d.is_dep_path(p));
            assert(p.last() == i);
            assert(needed[i as int]);
            assert(ord.contains(i));
        }
    }
    collect_outputs(dag, out_keys, vals)
}


/// Computes the requested outputs as `run` does, and reports when each needed node became
/// ready, started and finished.
pub(crate) fn run_traced<K: Eq + Hash + Clone, O, E, F: Fn(&[Arc<O>]) -> Result<O, E>>(
    dag: &Dag<K, O, F>,
    out_keys: Vec<K>,
) -> (r: Result<TracedExecution<K, O>, ExecError<K, E>>)
    requires
        dag@.wf(),
        key_model::<K>(),
        tasks_accept::<K, O, E, F>(dag@, dag@.needed_of(dag@.output_roots(out_keys@))),
    ensures
        run_outcome::<K, O, E, F>(
            dag@,
            out_keys@,
            match r {
                Ok(t) => Ok(t.outputs@),
                Err(e) => Err(e),
            },
        ),
        r matches Ok(t) ==> exists|ord: Seq<usize>|
            dag@.is_topo_order(dag@.needed_of(dag@.output_roots(out_keys@)), ord)
                && #[trigger] reports_sequential_run(t.trace, dag@, ord) && exists|evs: Seq<ObsEvent>|
                #[trigger] seq_events_ok(dag@, ord, evs) && ready_ids(evs) == ord && queue_log_ok(evs) && count_start(evs) == ord.len()
                    && count_finish(evs) == ord.len()
                    && initial_ready(dag@, dag@.needed_of(dag@.output_roots(out_keys@)), dag@.len() as int).is_prefix_of(ord)
                    && t.trace.max_frontier_width == max_width(evs),
{
    let ghost d = dag@;
    let mut observer = TraceObserver::new(dag.node_count());
    let (vals, needed, _) = match execute(dag, out_keys.as_slice(), &mut observer) {
        Ok(p) => p,
        Err(e) => {
            return Err(e);
        },
    };
    let ghost ev = observer.log();
    let ghost tm = observer.times();
    proof {
        observer.lemma_times();
    }
    let outputs = match finish_outputs(dag, out_keys.as_slice(), vals) {
        Ok(m) => m,
        Err(e) => {
            return Err(e);
        },
    };
    let trace = observer.finalize(dag, needed.as_slice());
    proof {
        let needed_m = d.needed_of(d.output_roots(out_keys@));
        let (ord, vals_m) = choose|ord: Seq<usize>, vals_m: Seq<Option<Arc<O>>>|
            #[trigger] executed::<K, O, E, F>(d, needed_m, ord, vals_m) && vals_m == vals@
                && d.is_topo_order(needed_m, ord) && exists|evs: Seq<ObsEvent>|
                #[trigger] seq_events_ok(d, ord, evs) && ready_ids(evs) == ord && queue_log_ok(evs) && count_start(evs) == ord.len()
                    && count_finish(evs) == ord.len()
                    && initial_ready(d, needed_m, d.len() as int).is_prefix_of(ready_ids(evs))
                    && ready_before_start(evs)
                    && ev == Seq::<ObsEvent>::empty() + evs;
        let evs = choose|evs: Seq<ObsEvent>|
            #[trigger] seq_events_ok(d, ord, evs) && ready_ids(evs) == ord && queue_log_ok(evs) && count_start(evs) == ord.len()
                    && count_finish(evs) == ord.len()
                    && initial_ready(d, needed_m, d.len() as int).is_prefix_of(ready_ids(evs))
                    && ready_before_start(evs)
                && ev == Seq::<ObsEvent>::empty() + evs;
        assert(ev =~= evs);
        d.lemma_needed_of_closed(d.output_roots(out_keys@));
        lemma_sequential_report(trace, d, needed_m, ord, ev, tm);
        assert(reports_sequential_run(trace, d, ord));
    }
    let t = TracedExecution { outputs, trace };
    assert(t.trace == trace);
    Ok(t)
}

} // verus!
