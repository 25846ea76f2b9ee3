use std::collections::{HashMap, VecDeque};
use std::sync::Arc;
use std::hash::Hash;
use vstd::prelude::*;

use crate::error::ExecError;
use crate::exec::counting::{
    count_true, lemma_count_true_le, lemma_count_true_prefix, lemma_count_true_update, lemma_occ_push,
    lemma_occ_take, lemma_occ_take_le, lemma_unresolved_empty, occ, unresolved,
};
use crate::exec::kahn::indeg_ok;
use crate::exec::observe::{ExecObserver, ObsEvent};
use crate::graph::{key_model, Dag, DagModel, NodeId};

verus! {

/// Marks the nodes that the requested outputs need: the outputs and, transitively,
/// their dependencies.
#[verifier::rlimit(60)]
#[verifier::spinoff_prover]
pub(crate) fn mark_needed<K: Eq + Hash + Clone, O, F, E>(dag: &Dag<K, O, F>, outputs: &[K]) -> (r:
    Result<Vec<bool>, ExecError<K, E>>)
    requires
        dag@.wf(),
        key_model::<K>(),
    ensures
        match r {
            Ok(needed) => dag@.all_present(outputs@) && needed@ == dag@.needed_of(
                dag@.output_roots(outputs@),
            ),
            Err(e) => exists|j: int|
                dag@.first_missing(outputs@, j) && e == ExecError::<K, E>::OutputMissing(outputs@[j]),
        },
{
    let ghost d = dag@;
    let ghost roots = d.output_roots(outputs@);
    let n = dag.node_count();
    let mut needed: Vec<bool> = vec![false; n];
    let mut stack: Vec<usize> = Vec::new();

    for j in 0..outputs.len()
        invariant
            d == dag@,
            d.wf(),
            key_model::<K>(),
            n == d.len(),
            needed@ == Seq::new(n as nat, |i: int| false),
            stack@.len() == j,
            forall|j2: int| 0 <= j2 < j ==> #[trigger] d.index.contains_key(outputs@[j2]),
            forall|j2: int| 0 <= j2 < j ==> #[trigger] stack@[j2] == d.index[outputs@[j2]],
    {
        match dag.index_of(&outputs[j]) {
            Some(id) => {
                stack.push(id.0);
            },
            None => {
                let k = outputs[j].clone();
                assert(cloned::<K>(outputs@[j as int], k));
                assert(d.first_missing(outputs@, j as int));
                return Err(ExecError::OutputMissing(k));
            },
        }
    }

    proof {
        assert forall|s: int| 0 <= s < stack@.len() implies stack@[s] < n && d.reachable(
            roots,
            #[trigger] stack@[s],
        ) by {
            let p = seq![stack@[s]];
            assert(d.index.contains_key(outputs@[s]));
            assert(d.index[outputs@[s]] < d.len());
            assert(roots.contains(p[0]));
            assert(d.is_dep_path(p));
            assert(p.last() == stack@[s]);
        }
        assert forall|r: usize| #[trigger] roots.contains(r) implies needed@[r as int] || stack@.contains(r) by {
            let j = choose|j: int|
                0 <= j < outputs@.len() && #[trigger] d.index.contains_key(outputs@[j]) && d.index[outputs@[j]] == r;
            assert(stack@[j] == r);
        }
    }

    while stack.len() > 0
        invariant
            d == dag@,
            roots == d.output_roots(outputs@),
            d.wf(),
            n == d.len(),
            needed@.len() == n,
            forall|s: int| 0 <= s < stack@.len() ==> #[trigger] stack@[s] < n && d.reachable(roots, stack@[s]),
            forall|i: int| 0 <= i < n && #[trigger] needed@[i] ==> d.reachable(roots, i as usize),
            forall|i: int, j: int|
                0 <= i < n && needed@[i] && 0 <= j < d.deps(i).len() ==> needed@[#[trigger] d.deps(i)[j] as int]
                    || stack@.contains(d.deps(i)[j]),
            forall|r: usize| #[trigger] roots.contains(r) ==> needed@[r as int] || stack@.contains(r),
        decreases n - count_true(needed@), stack@.len(),
    {
        proof {
            lemma_count_true_le(needed@);
        }
        let ghost old_stack = stack@;
        let id = stack.pop().unwrap();
        assert(stack@ =~= old_stack.drop_last());
        if needed[id] {
            proof {
                assert forall|i: int, j: int|
                    0 <= i < n && needed@[i] && 0 <= j < d.deps(i).len() implies needed@[#[trigger] d.deps(i)[j] as int]
                        || stack@.contains(d.deps(i)[j]) by {
                    let x = d.deps(i)[j];
                    if !needed@[x as int] {
                        let k = choose|k: int| 0 <= k < old_stack.len() && old_stack[k] == x;
                        assert(k != old_stack.len() - 1);
                        assert(stack@[k] == x);
                    }
                }
                assert forall|r: usize| #[trigger] roots.contains(r) implies needed@[r as int] || stack@.contains(r) by {
                    if !needed@[r as int] {
                        let k = choose|k: int| 0 <= k < old_stack.len() && old_stack[k] == r;
                        assert(k != old_stack.len() - 1);
                        assert(stack@[k] == r);
                    }
                }
            }
            continue;
        }
        let ghost old_needed = needed@;
        assert(old_stack.last() == id);
        proof {
            lemma_count_true_update(needed@, id as int);
        }
        needed.set(id, true);
        proof {
            lemma_count_true_le(needed@);
        }
        let deps = dag.node_deps(id);
        let ghost pid = choose|p: Seq<usize>| d.is_dep_path(p) && roots.contains(p[0]) && p.last() == id;
        let ghost base = stack@;
        for k in 0..deps.len()
            invariant
                d == dag@,
                d.wf(),
                n == d.len(),
                id < n,
                deps@.len() == d.deps(id as int).len(),
                forall|j: int| 0 <= j < deps@.len() ==> (#[trigger] deps@[j]).0 == d.deps(id as int)[j],
                d.is_dep_path(pid) && roots.contains(pid[0]) && pid.last() == id,
                stack@.len() == base.len() + k,
                forall|s: int| 0 <= s < base.len() ==> stack@[s] == #[trigger] base[s],
                forall|j: int| 0 <= j < k ==> #[trigger] stack@[base.len() + j] == d.deps(id as int)[j],
                forall|s: int| 0 <= s < stack@.len() ==> #[trigger] stack@[s] < n && d.reachable(roots, stack@[s]),
        {
            let dep = deps[k].0;
            proof {
                let q = pid.push(dep);
                assert(d.deps(id as int)[k as int] == dep);
                assert(d.deps(id as int).contains(dep));
                assert(q.last() == dep);
                assert(q[0] == pid[0]);
                assert(d.is_dep_path(q)) by {
                    assert forall|j: int| 0 <= j < q.len() - 1 implies d.deps(#[trigger] q[j] as int).contains(q[j + 1]) by {
                        if j < pid.len() - 1 {
                            assert(q[j] == pid[j] && q[j + 1] == pid[j + 1]);
                        } else {
                            assert(q[j] == id);
                        }
                    }
                    assert forall|j: int| 0 <= j < q.len() implies #[trigger] q[j] < d.len() by {
                        if j < pid.len() {
                            assert(q[j] == pid[j]);
                        }
                    }
                }
                assert(d.reachable(roots, dep));
            }
            stack.push(dep);
        }
        proof {
            assert forall|i: int, j: int|
                0 <= i < n && needed@[i] && 0 <= j < d.deps(i).len() implies needed@[#[trigger] d.deps(i)[j] as int]
                    || stack@.contains(d.deps(i)[j]) by {
                let x = d.deps(i)[j];
                if i == id {
                    assert(stack@[base.len() + j] == x);
                } else if !needed@[x as int] {
                    assert(old_needed[i]);
                    let k = choose|k: int| 0 <= k < old_stack.len() && old_stack[k] == x;
                    assert(needed@[id as int]);
                    assert(old_stack.last() == id);
                    assert(k != old_stack.len() - 1);
                    assert(base[k] == old_stack[k]);
                    assert(stack@[k] == x);
                }
            }
            assert forall|r: usize| #[trigger] roots.contains(r) implies needed@[r as int] || stack@.contains(r) by {
                if !needed@[r as int] {
                    let jr = choose|j: int|
                        0 <= j < outputs@.len() && #[trigger] d.index.contains_key(outputs@[j]) && d.index[outputs@[j]] == r;
                    assert(d.index_exact());
                    assert(d.index.contains_key(outputs@[jr]));
                    assert(d.index[outputs@[jr]] < d.len());
                    assert(r < n);
                    assert(needed@ == old_needed.update(id as int, true));
                    assert(!old_needed[r as int]);
                    assert(old_stack.contains(r));
                    let k = choose|k: int| 0 <= k < old_stack.len() && old_stack[k] == r;
                    assert(needed@[id as int]);
                    assert(old_stack.last() == id);
                    assert(k != old_stack.len() - 1);
                    assert(base[k] == old_stack[k]);
                    assert(stack@[k] == r);
                }
            }
            assert forall|i: int| 0 <= i < n && #[trigger] needed@[i] implies d.reachable(roots, i as usize) by {
                if i == id {
                }
            }
        }
    }

    proof {
        assert(d.closed_under_deps(needed@)) by {
            assert forall|i: int, j: int|
                0 <= i < d.len() && needed@[i] && 0 <= j < d.deps(i).len() implies #[trigger] needed@[d.deps(i)[j] as int] by {
                assert(!stack@.contains(d.deps(i)[j]));
            }
        }
        assert forall|r: usize| roots.contains(r) && r < d.len() implies #[trigger] needed@[r as int] by {
            assert(!stack@.contains(r));
        }
        assert forall|i: int| 0 <= i < n implies #[trigger] needed@[i] == d.needed_of(roots)[i] by {
            if d.reachable(roots, i as usize) {
                let p = choose|p: Seq<usize>| d.is_dep_path(p) && roots.contains(p[0]) && p.last() == i as usize;
                d.lemma_closed_contains_reachable(roots, needed@, p);
            }
        }
        assert(needed@ =~= d.needed_of(roots));
    }
    Ok(needed)
}

/// Another handle on the value that `a` points to.
///
/// Trusted: `Arc::clone` of std, documented to make a new pointer to the same allocation;
/// the contract claims that the clone holds the same value.
#[verifier::external_body]
pub(crate) fn arc_clone<T>(a: &Arc<T>) -> (r: Arc<T>)
    ensures
        r == *a,
{
    Arc::clone(a)
}

/// The output key `k` names a node whose value was computed.
pub open spec fn output_available<K, O, F>(d: DagModel<K, O, F>, vals: Seq<Option<Arc<O>>>, k: K) -> bool {
    d.index.contains_key(k) && vals[d.index[k] as int] is Some
}

/// `outs[j]` is the first requested key that names no computed value.
pub open spec fn first_unavailable<K, O, F>(
    d: DagModel<K, O, F>,
    vals: Seq<Option<Arc<O>>>,
    outs: Seq<K>,
    j: int,
) -> bool {
    &&& 0 <= j < outs.len()
    &&& !output_available(d, vals, outs[j])
    &&& forall|j2: int| 0 <= j2 < j ==> #[trigger] output_available(d, vals, outs[j2])
}

/// Each requested key, mapped to the value computed for the node it names.
pub open spec fn outputs_map<K, O, F>(d: DagModel<K, O, F>, vals: Seq<Option<Arc<O>>>, outs: Seq<K>) -> Map<
    K,
    Arc<O>,
> {
    Map::new(|k: K| outs.contains(k), |k: K| vals[d.index[k] as int]->Some_0)
}

/// Collects the value of each requested key.
pub(crate) fn collect_outputs<K: Eq + Hash + Clone, O, F, E>(
    dag: &Dag<K, O, F>,
    out_keys: &[K],
    vals: Vec<Option<Arc<O>>>,
) -> (r: Result<HashMap<K, Arc<O>>, ExecError<K, E>>)
    requires
        dag@.wf(),
        key_model::<K>(),
        vals@.len() == dag@.len(),
    ensures
        match r {
            Ok(m) => (forall|j: int| 0 <= j < out_keys@.len() ==> #[trigger] output_available(dag@, vals@, out_keys@[j]))
                && m@ == outputs_map(dag@, vals@, out_keys@),
            Err(e) => exists|j: int|
                first_unavailable(dag@, vals@, out_keys@, j) && e == ExecError::<K, E>::OutputMissing(out_keys@[j]),
        },
{
    let ghost d = dag@;
    let mut out: HashMap<K, Arc<O>> = HashMap::with_capacity(out_keys.len());
    for j in 0..out_keys.len()
        invariant
            d == dag@,
            d.wf(),
            key_model::<K>(),
            vals@.len() == d.len(),
            forall|j2: int| 0 <= j2 < j ==> #[trigger] output_available(d, vals@, out_keys@[j2]),
            out@ == outputs_map(d, vals@, out_keys@.take(j as int)),
    {
        let k = &out_keys[j];
        let id = match dag.index_of(k) {
            Some(id) => id,
            None => {
                let missing = k.clone();
                assert(cloned::<K>(*k, missing));
                assert(first_unavailable(d, vals@, out_keys@, j as int));
                return Err(ExecError::OutputMissing(missing));
            },
        };
        match &vals[id.0] {
            Some(v) => {
                let k2 = k.clone();
                assert(cloned::<K>(*k, k2));
                out.insert(k2, arc_clone(v));
                proof {
                    assert(out_keys@.take(j + 1) =~= out_keys@.take(j as int).push(*k));
                    let pre = out_keys@.take(j as int);
                    let post = pre.push(*k);
                    assert forall|k3: K| #[trigger] post.contains(k3) <==> (pre.contains(k3) || k3 == *k) by {
                        if post.contains(k3) && k3 != *k {
                            let t = choose|t: int| 0 <= t < post.len() && #[trigger] post[t] == k3;
                            assert(pre[t] == k3);
                        }
                        if pre.contains(k3) {
                            let t = choose|t: int| 0 <= t < pre.len() && #[trigger] pre[t] == k3;
                            assert(post[t] == k3);
                        }
                        if k3 == *k {
                            assert(post[pre.len() as int] == k3);
                        }
                    }
                    assert(out@ =~= outputs_map(d, vals@, out_keys@.take(j + 1)));
                }
            },
            None => {
                let missing = k.clone();
                assert(cloned::<K>(*k, missing));
                assert(first_unavailable(d, vals@, out_keys@, j as int));
                return Err(ExecError::OutputMissing(missing));
            },
        }
    }
    proof {
        assert(out_keys@.take(out_keys@.len() as int) =~= out_keys@);
    }
    Ok(out)
}

/// The needed nodes below `m` that depend on `x`, in ascending order, each listed once per
/// dependency it has on `x`.
pub open spec fn dependents_list<K, O, F>(d: DagModel<K, O, F>, needed: Seq<bool>, x: usize, m: int) -> Seq<usize>
    decreases m,
{
    if m <= 0 {
        Seq::empty()
    } else {
        let prev = dependents_list(d, needed, x, m - 1);
        if needed[m - 1] {
            prev + Seq::new(occ(d.deps(m - 1), x), |t: int| (m - 1) as usize)
        } else {
            prev
        }
    }
}

/// For each node `x`, the needed nodes that depend on `x`, in ascending order (a node once per
/// such dependency);
/// for each needed node, its number of dependencies; and the number of needed nodes.
#[verifier::rlimit(40)]
pub(crate) fn build_kahn_metadata<K, O, F>(dag: &Dag<K, O, F>, needed: &[bool]) -> (r: (
    Vec<Vec<usize>>,
    Vec<usize>,
    usize,
))
    requires
        dag@.wf(),
        needed@.len() == dag@.len(),
    ensures
        r.0@.len() == dag@.len(),
        r.1@.len() == dag@.len(),
        forall|x: int, k: int|
            0 <= x < dag@.len() && 0 <= k < r.0@[x]@.len() ==> #[trigger] r.0@[x]@[k] < dag@.len()
                && needed@[r.0@[x]@[k] as int],
        forall|x: int, i: int|
            0 <= x < dag@.len() && 0 <= i < dag@.len() ==> #[trigger] occ(r.0@[x]@, i as usize) == if needed@[i] {
                occ(dag@.deps(i), x as usize)
            } else {
                0
            },
        forall|i: int|
            0 <= i < dag@.len() ==> #[trigger] r.1@[i] == if needed@[i] {
                dag@.deps(i).len()
            } else {
                0
            },
        r.2 == count_true(needed@),
        forall|x: int| 0 <= x < dag@.len() ==> #[trigger] r.0@[x]@ == dependents_list(dag@, needed@, x as usize, dag@.len() as int),
{
    let ghost d = dag@;
    let n = dag.node_count();
    let mut dependents: Vec<Vec<usize>> = Vec::with_capacity(n);
    for x in 0..n
        invariant
            dependents@.len() == x,
            forall|y: int| 0 <= y < x ==> (#[trigger] dependents@[y])@.len() == 0,
    {
        dependents.push(Vec::new());
    }
    let mut indeg: Vec<usize> = vec![0; n];
    let mut needed_count: usize = 0;
    for i in 0..n
        invariant
            d == dag@,
            d.wf(),
            n == d.len(),
            needed@.len() == n,
            dependents@.len() == n,
            indeg@.len() == n,
            forall|x: int, k: int|
                0 <= x < n && 0 <= k < dependents@[x]@.len() ==> #[trigger] dependents@[x]@[k] < i
                    && needed@[dependents@[x]@[k] as int],
            forall|x: int, v: int|
                0 <= x < n && 0 <= v < n ==> #[trigger] occ(dependents@[x]@, v as usize) == if v < i
                    && needed@[v] {
                    occ(d.deps(v), x as usize)
                } else {
                    0
                },
            forall|v: int|
                0 <= v < n ==> #[trigger] indeg@[v] == if v < i && needed@[v] {
                    d.deps(v).len()
                } else {
                    0
                },
            needed_count == count_true(needed@.take(i as int)),
            forall|x: int| 0 <= x < n ==> #[trigger] dependents@[x]@ == dependents_list(d, needed@, x as usize, i as int),
    {
        proof {
            lemma_count_true_prefix(needed@, i as int);
            lemma_count_true_le(needed@.take(i as int));
        }
        if needed[i] {
            needed_count += 1;
            let deps = dag.node_deps(i);
            indeg.set(i, deps.len());
            proof {
                assert forall|x: int| 0 <= x < n implies #[trigger] dependents@[x]@ == dependents_list(
                    d,
                    needed@,
                    x as usize,
                    i as int,
                ) + Seq::new(occ(d.deps(i as int).take(0), x as usize), |t: int| i) by {
                    assert(d.deps(i as int).take(0) =~= Seq::<usize>::empty());
                    assert(dependents@[x]@ =~= dependents_list(d, needed@, x as usize, i as int) + Seq::new(
                        occ(d.deps(i as int).take(0), x as usize),
                        |t: int| i,
                    ));
                }
            }
            for j in 0..deps.len()
                invariant
                    d == dag@,
                    d.wf(),
                    n == d.len(),
                    i < n,
                    needed@.len() == n,
                    needed@[i as int],
                    deps@.len() == d.deps(i as int).len(),
                    forall|j2: int| 0 <= j2 < deps@.len() ==> (#[trigger] deps@[j2]).0 == d.deps(i as int)[j2],
                    dependents@.len() == n,
                    forall|x: int, k: int|
                        0 <= x < n && 0 <= k < dependents@[x]@.len() ==> #[trigger] dependents@[x]@[k] <= i
                            && needed@[dependents@[x]@[k] as int],
                    forall|x: int, v: int|
                        0 <= x < n && 0 <= v < n ==> #[trigger] occ(dependents@[x]@, v as usize) == if v < i
                            && needed@[v] {
                            occ(d.deps(v), x as usize)
                        } else if v == i {
                            occ(d.deps(v).take(j as int), x as usize)
                        } else {
                            0
                        },
                    forall|x: int|
                        0 <= x < n ==> #[trigger] dependents@[x]@ == dependents_list(d, needed@, x as usize, i as int)
                            + Seq::new(occ(d.deps(i as int).take(j as int), x as usize), |t: int| i),
            {
                let dep = deps[j].0;
                proof {
                    assert(d.deps(i as int)[j as int] == dep);
                    assert(dep < n);
                }
                let ghost before = dependents@;
                dependents[dep].push(i);
                proof {
                    assert forall|x: int, v: int|
                        0 <= x < n && 0 <= v < n implies #[trigger] occ(dependents@[x]@, v as usize) == if v < i
                            && needed@[v] {
                            occ(d.deps(v), x as usize)
                        } else if v == i {
                            occ(d.deps(v).take(j + 1), x as usize)
                        } else {
                            0
                        } by {
                        lemma_occ_take(d.deps(i as int), j as int, x as usize);
                        if x == dep {
                            lemma_occ_push(before[x]@, i, v as usize);
                        } else {
                            assert(dependents@[x] == before[x]);
                        }
                    }
                    assert forall|x: int|
                        0 <= x < n implies #[trigger] dependents@[x]@ == dependents_list(d, needed@, x as usize, i as int)
                            + Seq::new(occ(d.deps(i as int).take(j + 1), x as usize), |t: int| i) by {
                        lemma_occ_take(d.deps(i as int), j as int, x as usize);
                        if x == dep {
                            assert(dependents@[x]@ == before[x]@.push(i));
                            assert(Seq::new(occ(d.deps(i as int).take(j + 1), x as usize), |t: int| i) =~= Seq::new(
                                occ(d.deps(i as int).take(j as int), x as usize),
                                |t: int| i,
                            ).push(i));
                            assert(dependents@[x]@ =~= dependents_list(d, needed@, x as usize, i as int) + Seq::new(
                                occ(d.deps(i as int).take(j + 1), x as usize),
                                |t: int| i,
                            ));
                        } else {
                            assert(dependents@[x] == before[x]);
                        }
                    }
                    assert forall|x: int, k: int|
                        0 <= x < n && 0 <= k < dependents@[x]@.len() implies #[trigger] dependents@[x]@[k] <= i
                            && needed@[dependents@[x]@[k] as int] by {
                        if x == dep && k == before[x]@.len() {
                        } else {
                            assert(dependents@[x]@[k] == before[x]@[k]);
                        }
                    }
                }
            }
            proof {
                assert(d.deps(i as int).take(deps@.len() as int) =~= d.deps(i as int));
            }
        }
        proof {
            assert forall|x: int| 0 <= x < n implies #[trigger] dependents@[x]@ == dependents_list(
                d,
                needed@,
                x as usize,
                i + 1,
            ) by {
                if !needed@[i as int] {
                    assert(dependents_list(d, needed@, x as usize, i + 1) == dependents_list(d, needed@, x as usize, i as int));
                }
            }
        }
    }
    proof {
        assert(needed@.take(n as int) =~= needed@);
    }
    (dependents, indeg, needed_count)
}

/// The needed nodes below `m` that have no dependencies, in ascending order.
pub open spec fn initial_ready<K, O, F>(d: DagModel<K, O, F>, needed: Seq<bool>, m: int) -> Seq<usize>
    decreases m,
{
    if m <= 0 {
        Seq::empty()
    } else if needed[m - 1] && d.deps(m - 1).len() == 0 {
        initial_ready(d, needed, m - 1).push((m - 1) as usize)
    } else {
        initial_ready(d, needed, m - 1)
    }
}

/// The needed nodes without dependencies, in node order: the first ready nodes.
pub(crate) fn seed_ready<K, O, F, R: ExecObserver>(
    dag: &Dag<K, O, F>,
    needed: &Vec<bool>,
    indeg: &Vec<usize>,
    observer: &mut R,
) -> (q: VecDeque<usize>)
    requires
        dag@.wf(),
        needed@.len() == dag@.len(),
        indeg_ok(dag@, needed@, Seq::empty(), indeg@),
        old(observer).bound() >= dag@.len(),
    ensures
        final(observer).bound() == old(observer).bound(),
        q@.no_duplicates(),
        forall|k: int|
            0 <= k < q@.len() ==> #[trigger] q@[k] < dag@.len() && needed@[q@[k] as int] && unresolved(
                dag@.deps(q@[k] as int),
                Seq::empty(),
            ) == 0,
        forall|v: int|
            0 <= v < dag@.len() && needed@[v] && #[trigger] unresolved(dag@.deps(v), Seq::empty()) == 0 ==> q@.contains(
                v as usize,
            ),
        final(observer).logs() == old(observer).logs(),
        old(observer).logs() ==> final(observer).log() == old(observer).log() + ready_events(q@, 0),
        q@ == initial_ready(dag@, needed@, dag@.len() as int),
{
    let ghost d = dag@;
    let ghost ord = Seq::<usize>::empty();
    let n = dag.node_count();
    let mut q: VecDeque<usize> = VecDeque::new();
    for i in 0..n
        invariant
            d == dag@,
            d.wf(),
            n == d.len(),
            needed@.len() == n,
            ord == Seq::<usize>::empty(),
            indeg_ok(d, needed@, ord, indeg@),
            observer.bound() == old(observer).bound(),
            observer.bound() >= n,
            old(observer).logs() ==> observer.log() == old(observer).log() + ready_events(q@, 0),
            q@.no_duplicates(),
            forall|k: int| 0 <= k < q@.len() ==> #[trigger] q@[k] < i,
            forall|k: int|
                0 <= k < q@.len() ==> needed@[#[trigger] q@[k] as int] && unresolved(d.deps(q@[k] as int), ord) == 0,
            forall|v: int|
                0 <= v < i && needed@[v] && #[trigger] unresolved(d.deps(v), ord) == 0 ==> q@.contains(v as usize),
            observer.logs() == old(observer).logs(),
            q@ == initial_ready(d, needed@, i as int),
    {
        proof {
            lemma_unresolved_empty(d.deps(i as int));
            assert(indeg@[i as int] == if needed@[i as int] { unresolved(d.deps(i as int), ord) } else { 0 });
        }
        if needed[i] && indeg[i] == 0 {
            let ghost q0 = q@;
            q.push_back(i);
            observer.mark_ready(NodeId(i), q.len());
            proof {
                if old(observer).logs() {
                    assert(ready_events(q@, 0) =~= ready_events(q0, 0).push(ObsEvent::Ready { id: i, width: q@.len() as usize }));
                    assert(observer.log() =~= old(observer).log() + ready_events(q@, 0));
                }
                assert forall|v: int|
                    0 <= v < i + 1 && needed@[v] && #[trigger] unresolved(d.deps(v), ord) == 0 implies q@.contains(
                    v as usize,
                ) by {
                    if v == i {
                        assert(q@[q0.len() as int] == i);
                    } else {
                        let t = choose|t: int| 0 <= t < q0.len() && q0[t] == v as usize;
                        assert(q@[t] == v);
                    }
                }
            }
        } else {
            proof {
                assert forall|v: int|
                    0 <= v < i + 1 && needed@[v] && #[trigger] unresolved(d.deps(v), ord) == 0 implies q@.contains(
                    v as usize,
                ) by {
                    if v == i {
                        assert(indeg@[v] == unresolved(d.deps(v), ord));
                    }
                }
            }
        }
    }
    q
}

/// The keys of the needed nodes that still wait on a dependency, in node order.
pub(crate) fn collect_remaining<K: Clone, O, F>(
    dag: &Dag<K, O, F>,
    needed: &Vec<bool>,
    indeg: &Vec<usize>,
    Ghost(done): Ghost<Seq<usize>>,
) -> (remaining: Vec<K>)
    requires
        dag@.wf(),
        key_model::<K>(),
        needed@.len() == dag@.len(),
        indeg@.len() == dag@.len(),
        forall|i: int|
            0 <= i < dag@.len() && #[trigger] needed@[i] ==> (indeg@[i] > 0 <==> !done.contains(i as usize)),
    ensures
        remaining@ == crate::exec::outcome::remaining_keys(dag@, needed@, done, dag@.len() as int),
{
    let ghost d = dag@;
    let n = dag.node_count();
    let mut remaining: Vec<K> = Vec::new();
    for i in 0..n
        invariant
            d == dag@,
            d.wf(),
            key_model::<K>(),
            n == d.len(),
            needed@.len() == n,
            indeg@.len() == n,
            forall|v: int| 0 <= v < n && #[trigger] needed@[v] ==> (indeg@[v] > 0 <==> !done.contains(v as usize)),
            remaining@ == crate::exec::outcome::remaining_keys(d, needed@, done, i as int),
    {
        if needed[i] && indeg[i] > 0 {
            let k = dag.node_key(i).clone();
            assert(cloned::<K>(d.key(i as int), k));
            remaining.push(k);
        }
    }
    remaining
}

/// The nodes of `ds[..k]` whose in-degree reaches zero there, in the order it happens:
/// a node is released at its last occurrence, if its count of occurrences equals its in-degree.
pub open spec fn released(ds: Seq<usize>, indeg: Seq<usize>, k: int) -> Seq<usize>
    decreases k,
{
    if k <= 0 {
        Seq::empty()
    } else if indeg[ds[k - 1] as int] == occ(ds.take(k), ds[k - 1]) {
        released(ds, indeg, k - 1).push(ds[k - 1])
    } else {
        released(ds, indeg, k - 1)
    }
}

/// The ready notifications for `rel`, pushed one by one onto a queue that held `base` nodes.
pub open spec fn ready_events(rel: Seq<usize>, base: nat) -> Seq<ObsEvent> {
    Seq::new(rel.len(), |m: int| ObsEvent::Ready { id: rel[m], width: (base + m + 1) as usize })
}

/// Completes node `from`: lowers the in-degree of each dependent, once per dependency
/// on `from`, and queues each dependent whose in-degree reaches zero.
pub(crate) fn release_dependents<R: ExecObserver>(
    dependents: &Vec<Vec<usize>>,
    indeg: &mut Vec<usize>,
    ready: &mut VecDeque<usize>,
    from: usize,
    observer: &mut R,
)
    requires
        from < dependents@.len(),
        old(indeg)@.len() == dependents@.len(),
        forall|k: int|
            0 <= k < dependents@[from as int]@.len() ==> #[trigger] dependents@[from as int]@[k]
                < dependents@.len(),
        forall|i: int|
            0 <= i < dependents@.len() ==> occ(dependents@[from as int]@, i as usize)
                <= #[trigger] old(indeg)@[i],
        old(observer).bound() >= dependents@.len(),
    ensures
        final(observer).bound() == old(observer).bound(),
        final(indeg)@.len() == old(indeg)@.len(),
        forall|i: int|
            0 <= i < dependents@.len() ==> #[trigger] final(indeg)@[i] == old(indeg)@[i] - occ(
                dependents@[from as int]@,
                i as usize,
            ),
        final(ready)@ == old(ready)@ + released(
            dependents@[from as int]@,
            old(indeg)@,
            dependents@[from as int]@.len() as int,
        ),
        final(observer).logs() == old(observer).logs(),
        old(observer).logs() ==> final(observer).log() == old(observer).log() + ready_events(
            released(dependents@[from as int]@, old(indeg)@, dependents@[from as int]@.len() as int),
            old(ready)@.len(),
        ),
{
    let ds = &dependents[from];
    let ghost n = dependents@.len();
    let n_nodes = dependents.len();
    assert(n_nodes == n);
    let ghost indeg0 = indeg@;
    let ghost ready0 = ready@;
    let ghost log0 = observer.log();
    for k in 0..ds.len()
        invariant
            ds@ == dependents@[from as int]@,
            n == dependents@.len(),
            n <= usize::MAX,
            indeg@.len() == n,
            indeg0.len() == n,
            forall|k2: int| 0 <= k2 < ds@.len() ==> #[trigger] ds@[k2] < n,
            forall|i: int| 0 <= i < n ==> occ(ds@, i as usize) <= #[trigger] indeg0[i],
            forall|i: int| 0 <= i < n ==> #[trigger] indeg@[i] == indeg0[i] - occ(ds@.take(k as int), i as usize),
            ready@ == ready0 + released(ds@, indeg0, k as int),
            released(ds@, indeg0, k as int).len() <= k,
            observer.logs() == old(observer).logs(),
            observer.bound() == old(observer).bound(),
            observer.bound() >= n,
            log0 == old(observer).log(),
            old(observer).logs() ==> observer.log() == log0 + ready_events(released(ds@, indeg0, k as int), ready0.len()),
    {
        let dst = ds[k];
        proof {
            lemma_occ_take(ds@, k as int, dst);
            lemma_occ_take_le(ds@, k as int + 1, dst);
        }
        let ghost ind_before = indeg@;
        indeg.set(dst, indeg[dst] - 1);
        assert(indeg@ == ind_before.update(dst as int, (ind_before[dst as int] - 1) as usize));
        let ghost rel = released(ds@, indeg0, k as int);
        if indeg[dst] == 0 {
            ready.push_back(dst);
            observer.mark_ready(NodeId(dst), ready.len());
            proof {
                assert(released(ds@, indeg0, k + 1) == rel.push(dst));
                assert(ready@ =~= ready0 + rel.push(dst));
                if old(observer).logs() {
                    assert(observer.log() =~= log0 + ready_events(rel.push(dst), ready0.len()));
                }
            }
        } else {
            proof {
                assert(released(ds@, indeg0, k + 1) == rel);
            }
        }
        proof {
            assert forall|i: int| 0 <= i < n implies #[trigger] indeg@[i] == indeg0[i] - occ(
                ds@.take(k + 1),
                i as usize,
            ) by {
                lemma_occ_take(ds@, k as int, i as usize);
                if i != dst {
                    assert(indeg@[i] == ind_before[i]);
                }
            }
        }
    }
    proof {
        assert(ds@.take(ds@.len() as int) =~= ds@);
    }
}

} // verus!
