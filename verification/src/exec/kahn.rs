use vstd::prelude::*;

use crate::exec::common::released;
use crate::exec::counting::{
    lemma_occ_take, lemma_occ_take_le, lemma_occ_zero, lemma_unresolved_push, lemma_unresolved_zero, occ,
    unresolved,
};
use crate::graph::DagModel;

verus! {

/// `dependents[x]` lists each needed node once per dependency it has on `x`.
pub open spec fn dependents_ok<K, O, F>(d: DagModel<K, O, F>, needed: Seq<bool>, dependents: Seq<Seq<usize>>) -> bool {
    &&& dependents.len() == d.len()
    &&& forall|x: int, k: int|
        0 <= x < d.len() && 0 <= k < dependents[x].len() ==> #[trigger] dependents[x][k] < d.len()
            && needed[dependents[x][k] as int]
    &&& forall|x: int, i: int|
        0 <= x < d.len() && 0 <= i < d.len() ==> #[trigger] occ(dependents[x], i as usize) == if needed[i] {
            occ(d.deps(i), x as usize)
        } else {
            0
        }
}

/// `indeg[i]` counts the dependencies of needed node `i` that `done` does not hold.
pub open spec fn indeg_ok<K, O, F>(d: DagModel<K, O, F>, needed: Seq<bool>, done: Seq<usize>, indeg: Seq<usize>) -> bool {
    &&& indeg.len() == d.len()
    &&& forall|i: int|
        0 <= i < d.len() ==> #[trigger] indeg[i] == if needed[i] {
            unresolved(d.deps(i), done)
        } else {
            0
        }
}

/// Every node of a topological prefix has all of its dependencies in the prefix.
pub proof fn lemma_prefix_resolved<K, O, F>(d: DagModel<K, O, F>, needed: Seq<bool>, ord: Seq<usize>, k: int)
    requires
        d.is_topo_prefix(needed, ord),
        0 <= k < ord.len(),
    ensures
        unresolved(d.deps(ord[k] as int), ord) == 0,
{
    let x = ord[k] as int;
    assert forall|j: int| 0 <= j < d.deps(x).len() implies ord.contains(#[trigger] d.deps(x)[j]) by {
        assert(ord.take(k).contains(d.deps(x)[j]));
        let t = choose|t: int| 0 <= t < ord.take(k).len() && ord.take(k)[t] == d.deps(x)[j];
        assert(ord[t] == d.deps(x)[j]);
    }
    lemma_unresolved_zero(d.deps(x), ord);
}

/// A node with unresolved dependencies is not in a topological prefix.
pub proof fn lemma_unresolved_not_done<K, O, F>(d: DagModel<K, O, F>, needed: Seq<bool>, ord: Seq<usize>, i: usize)
    requires
        d.is_topo_prefix(needed, ord),
        unresolved(d.deps(i as int), ord) > 0,
    ensures
        !ord.contains(i),
{
    if ord.contains(i) {
        let k = choose|k: int| 0 <= k < ord.len() && ord[k] == i;
        lemma_prefix_resolved(d, needed, ord, k);
    }
}

/// Membership in `released`: a node is released exactly when its occurrences in
/// `ds[..k]` reach its in-degree; and no node is released twice.
pub proof fn lemma_released(ds: Seq<usize>, ind: Seq<usize>, k: int)
    requires
        0 <= k <= ds.len(),
        ind.len() <= usize::MAX,
        forall|t: int| 0 <= t < ds.len() ==> #[trigger] ds[t] < ind.len(),
        forall|r: int| 0 <= r < ind.len() ==> occ(ds, r as usize) <= #[trigger] ind[r],
    ensures
        released(ds, ind, k).no_duplicates(),
        forall|t: int| 0 <= t < released(ds, ind, k).len() ==> #[trigger] released(ds, ind, k)[t] < ind.len(),
        forall|r: int|
            0 <= r < ind.len() ==> (#[trigger] released(ds, ind, k).contains(r as usize) <==> (occ(
                ds.take(k),
                r as usize,
            ) > 0 && occ(ds.take(k), r as usize) == ind[r])),
    decreases k,
{
    if k == 0 {
        assert(ds.take(0) =~= Seq::<usize>::empty());
        assert forall|r: int| 0 <= r < ind.len() implies #[trigger] occ(ds.take(0), r as usize) == 0 by {
        }
    } else {
        lemma_released(ds, ind, k - 1);
        let prev = released(ds, ind, k - 1);
        let y = ds[k - 1];
        lemma_occ_take(ds, k - 1, y);
        lemma_occ_take_le(ds, k, y);
        assert forall|r: int| 0 <= r < ind.len() implies #[trigger] occ(ds.take(k), r as usize) == occ(ds.take(k - 1), r as usize)
            + if y == r as usize {
            1nat
        } else {
            0nat
        } by {
            lemma_occ_take(ds, k - 1, r as usize);
        }
        if ind[y as int] == occ(ds.take(k), y) {
            let cur = prev.push(y);
            assert(released(ds, ind, k) == cur);
            assert(!prev.contains(y));
            assert forall|r: int| 0 <= r < ind.len() implies (#[trigger] cur.contains(r as usize) <==> (occ(
                ds.take(k),
                r as usize,
            ) > 0 && occ(ds.take(k), r as usize) == ind[r])) by {
                if cur.contains(r as usize) && r as usize != y {
                    let t = choose|t: int| 0 <= t < cur.len() && #[trigger] cur[t] == r as usize;
                    assert(prev[t] == r as usize);
                }
                if prev.contains(r as usize) {
                    let t = choose|t: int| 0 <= t < prev.len() && #[trigger] prev[t] == r as usize;
                    assert(cur[t] == r as usize);
                }
                if r as usize == y {
                    assert(cur[prev.len() as int] == y);
                }
            }
            assert forall|a: int, b: int| 0 <= a < cur.len() && 0 <= b < cur.len() && a != b implies cur[a]
                != cur[b] by {
                if a < prev.len() && b < prev.len() {
                } else if a == prev.len() {
                    assert(prev.contains(cur[b]));
                } else {
                    assert(prev.contains(cur[a]));
                }
            }
        } else {
            assert(released(ds, ind, k) == prev);
        }
    }
}

/// Completing node `x` after `ord`: the prefix grows, the in-degrees follow, and the
/// nodes that become ready are exactly those released by `x`.
pub proof fn lemma_complete_node<K, O, F>(
    d: DagModel<K, O, F>,
    needed: Seq<bool>,
    dependents: Seq<Seq<usize>>,
    ord: Seq<usize>,
    x: usize,
    indeg_old: Seq<usize>,
    indeg_new: Seq<usize>,
)
    requires
        d.wf(),
        d.len() <= usize::MAX,
        needed.len() == d.len(),
        d.closed_under_deps(needed),
        dependents_ok(d, needed, dependents),
        indeg_ok(d, needed, ord, indeg_old),
        d.is_topo_prefix(needed, ord),
        x < d.len(),
        needed[x as int],
        !ord.contains(x),
        unresolved(d.deps(x as int), ord) == 0,
        indeg_new.len() == d.len(),
        forall|i: int| 0 <= i < d.len() ==> #[trigger] indeg_new[i] == indeg_old[i] - occ(dependents[x as int], i as usize),
    ensures
        d.is_topo_prefix(needed, ord.push(x)),
        indeg_ok(d, needed, ord.push(x), indeg_new),
        released(dependents[x as int], indeg_old, dependents[x as int].len() as int).no_duplicates(),
        forall|t: int|
            0 <= t < released(dependents[x as int], indeg_old, dependents[x as int].len() as int).len() ==> #[trigger] released(
                dependents[x as int],
                indeg_old,
                dependents[x as int].len() as int,
            )[t] < d.len(),
        forall|i: int|
            0 <= i < d.len() ==> (#[trigger] released(dependents[x as int], indeg_old, dependents[x as int].len() as int).contains(
                i as usize,
            ) <==> (needed[i] && unresolved(d.deps(i), ord) > 0 && unresolved(d.deps(i), ord.push(x)) == 0)),
{
    let ds = dependents[x as int];
    let ordx = ord.push(x);
    assert forall|i: int| 0 <= i < d.len() implies #[trigger] unresolved(d.deps(i), ord) == unresolved(d.deps(i), ordx)
        + occ(d.deps(i), x) by {
        lemma_unresolved_push(d.deps(i), ord, x);
    }
    lemma_unresolved_zero(d.deps(x as int), ord);
    // the prefix grows
    assert(d.is_topo_prefix(needed, ordx)) by {
        assert forall|k: int, j: int|
            0 <= k < ordx.len() && 0 <= j < d.deps(ordx[k] as int).len() implies ordx.take(k).contains(
            #[trigger] d.deps(ordx[k] as int)[j],
        ) by {
            if k < ord.len() {
                assert(ordx.take(k) =~= ord.take(k));
                assert(ordx[k] == ord[k]);
            } else {
                assert(ordx.take(k) =~= ord);
                assert(ord.contains(d.deps(x as int)[j]));
            }
        }
        assert forall|a: int, b: int| 0 <= a < ordx.len() && 0 <= b < ordx.len() && a != b implies ordx[a]
            != ordx[b] by {
            if a == ord.len() {
                assert(ord[b] == ordx[b]);
            } else if b == ord.len() {
                assert(ord[a] == ordx[a]);
            }
        }
    }
    // in-degrees
    assert forall|i: int| 0 <= i < d.len() implies #[trigger] indeg_new[i] == if needed[i] {
        unresolved(d.deps(i), ordx)
    } else {
        0
    } by {
        assert(occ(dependents[x as int], i as usize) == if needed[i] {
            occ(d.deps(i), x)
        } else {
            0
        });
    }
    // released nodes
    assert forall|r: int| 0 <= r < indeg_old.len() implies occ(ds, r as usize) <= #[trigger] indeg_old[r] by {
        assert(occ(dependents[x as int], r as usize) == if needed[r] {
            occ(d.deps(r), x)
        } else {
            0
        });
    }
    assert forall|t: int| 0 <= t < ds.len() implies #[trigger] ds[t] < indeg_old.len() by {
        assert(dependents[x as int][t] < d.len());
    }
    lemma_released(ds, indeg_old, ds.len() as int);
    assert(ds.take(ds.len() as int) =~= ds);
    assert forall|i: int| 0 <= i < d.len() implies (#[trigger] released(ds, indeg_old, ds.len() as int).contains(
        i as usize,
    ) <==> (needed[i] && unresolved(d.deps(i), ord) > 0 && unresolved(d.deps(i), ordx) == 0)) by {
        assert(occ(dependents[x as int], i as usize) == if needed[i] {
            occ(d.deps(i), x)
        } else {
            0
        });
    }
}

} // verus!
