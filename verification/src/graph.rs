use std::collections::HashMap;
use std::sync::Arc;
use vstd::prelude::*;
use vstd::std_specs::hash::obeys_key_model;

verus! {

broadcast use vstd::std_specs::hash::group_hash_axioms;

/// Keys behave as the hash table model expects: hashing is deterministic, `==` is
/// identity, and a clone equals the value it was made from.
pub open spec fn key_model<K: Clone>() -> bool {
    &&& obeys_key_model::<K>()
    &&& forall|a: K, b: K| #[trigger] cloned::<K>(a, b) ==> a == b
}

/// Dense node identifier used internally in the compiled DAG.
#[derive(Debug, Copy, Clone, PartialEq, Eq, Hash, Structural)]
pub struct NodeId(pub usize);

/// Executor configuration for the parallel scheduler.
#[derive(Debug, Clone, Copy)]
pub struct ExecutorConfig {
    pub max_workers: usize,
    pub max_in_flight: usize,
    /// Per-worker buffered tasks (not counting the running task).
    pub worker_queue_cap: usize,
}

impl ExecutorConfig {
    /// The default shape of a configuration for `max_workers` workers:
    /// twice as many tasks in flight as workers, and two buffered tasks per worker.
    pub fn with_workers(max_workers: usize) -> (cfg: Self)
        requires
            max_workers <= usize::MAX / 2,
        ensures
            cfg.max_workers == max_workers,
            cfg.max_in_flight == 2 * max_workers,
            cfg.worker_queue_cap == 2,
    {
        ExecutorConfig { max_workers, max_in_flight: max_workers * 2, worker_queue_cap: 2 }
    }
}

/// The most tasks a run can have in flight under `cfg`: `max_in_flight`, or the workers'
/// physical capacity `max_workers * (worker_queue_cap + 1)` (saturating) if that is lower.
pub open spec fn effective_cap(cfg: ExecutorConfig) -> nat {
    let per_worker: int = if cfg.worker_queue_cap == usize::MAX {
        usize::MAX as int
    } else {
        cfg.worker_queue_cap + 1
    };
    let physical: int = if cfg.max_workers * per_worker > usize::MAX {
        usize::MAX as int
    } else {
        cfg.max_workers * per_worker
    };
    if cfg.max_in_flight < physical {
        cfg.max_in_flight as nat
    } else {
        physical as nat
    }
}

/// What a node produces: a fixed value, or the result of a task function
/// applied to the values of its dependencies.
pub enum NodeKind<O, F> {
    Source(Arc<O>),
    Task(F),
}

pub struct Node<K, O, F> {
    pub key: K,
    pub deps: Vec<NodeId>,
    pub kind: NodeKind<O, F>,
}

/// Mathematical model of one node: its key, the indices of its dependencies
/// (in declaration order, repetitions kept) and its kind.
#[verifier::reject_recursive_types(K)]
pub struct NodeModel<K, O, F> {
    pub key: K,
    pub deps: Seq<usize>,
    pub kind: NodeKind<O, F>,
}

/// Mathematical model of a compiled DAG.
#[verifier::reject_recursive_types(K)]
pub struct DagModel<K, O, F> {
    pub nodes: Seq<NodeModel<K, O, F>>,
    pub index: Map<K, usize>,
}

pub open spec fn node_model<K, O, F>(n: Node<K, O, F>) -> NodeModel<K, O, F> {
    NodeModel { key: n.key, deps: n.deps@.map_values(|d: NodeId| d.0), kind: n.kind }
}

/// A compiled DAG: nodes indexed densely and accessible by key.
pub struct Dag<K, O, F> {
    pub(crate) nodes: Vec<Node<K, O, F>>,
    pub(crate) index: HashMap<K, NodeId>,
}

impl<K, O, F> View for Dag<K, O, F> {
    type V = DagModel<K, O, F>;

    closed spec fn view(&self) -> DagModel<K, O, F> {
        DagModel {
            nodes: self.nodes@.map_values(|n: Node<K, O, F>| node_model(n)),
            index: self.index@.map_values(|id: NodeId| id.0),
        }
    }
}

impl<K, O, F> DagModel<K, O, F> {
    pub open spec fn len(self) -> nat {
        self.nodes.len()
    }

    pub open spec fn deps(self, i: int) -> Seq<usize> {
        self.nodes[i].deps
    }

    pub open spec fn key(self, i: int) -> K {
        self.nodes[i].key
    }

    /// Every dependency names a node of the graph.
    pub open spec fn deps_in_range(self) -> bool {
        forall|i: int, j: int|
            0 <= i < self.len() && 0 <= j < self.deps(i).len() ==> #[trigger] self.deps(i)[j]
                < self.len()
    }

    /// The index maps each node's key to that node, and nothing else.
    pub open spec fn index_exact(self) -> bool {
        &&& forall|i: int|
            0 <= i < self.len() ==> #[trigger] self.index.contains_key(self.nodes[i].key)
                && self.index[self.nodes[i].key] == i
        &&& forall|k: K| #[trigger]
            self.index.contains_key(k) ==> self.index[k] < self.len() && self.nodes[self.index[k] as int].key
                == k
    }

    /// Well-formedness of a compiled DAG.
    pub open spec fn wf(self) -> bool {
        &&& 0 < self.len() <= usize::MAX
        &&& self.deps_in_range()
        &&& self.index_exact()
    }

    /// The nodes named by the keys in `outs` (keys absent from the graph name nothing).
    pub open spec fn output_roots(self, outs: Seq<K>) -> Set<usize> {
        Set::new(
            |i: usize|
                exists|j: int|
                    0 <= j < outs.len() && #[trigger] self.index.contains_key(outs[j]) && self.index[outs[j]]
                        == i,
        )
    }

    /// Every key in `outs` names a node.
    pub open spec fn all_present(self, outs: Seq<K>) -> bool {
        forall|j: int| 0 <= j < outs.len() ==> #[trigger] self.index.contains_key(outs[j])
    }

    /// `outs[j]` is the first key of `outs` that names no node.
    pub open spec fn first_missing(self, outs: Seq<K>, j: int) -> bool {
        &&& 0 <= j < outs.len()
        &&& !self.index.contains_key(outs[j])
        &&& forall|j2: int| 0 <= j2 < j ==> #[trigger] self.index.contains_key(outs[j2])
    }

    /// The nodes reachable from `roots`, as a mark per node.
    pub open spec fn needed_of(self, roots: Set<usize>) -> Seq<bool> {
        Seq::new(self.len(), |i: int| self.reachable(roots, i as usize))
    }

    /// `p` is a walk that follows dependency edges: each step goes from a node to one of its deps.
    pub open spec fn is_dep_path(self, p: Seq<usize>) -> bool {
        &&& p.len() > 0
        &&& forall|j: int| 0 <= j < p.len() ==> #[trigger] p[j] < self.len()
        &&& forall|j: int| 0 <= j < p.len() - 1 ==> self.deps(#[trigger] p[j] as int).contains(p[j + 1])
    }

    /// Node `i` is reachable from one of `roots` by following dependencies.
    pub open spec fn reachable(self, roots: Set<usize>, i: usize) -> bool {
        exists|p: Seq<usize>|
            #![trigger self.is_dep_path(p), p.last()]
            self.is_dep_path(p) && roots.contains(p[0]) && p.last() == i
    }

    /// `needed` is closed under dependencies.
    pub open spec fn closed_under_deps(self, needed: Seq<bool>) -> bool {
        forall|i: int, j: int|
            0 <= i < self.len() && needed[i] && 0 <= j < self.deps(i).len() ==> #[trigger] needed[self.deps(i)[j] as int]
    }

    /// `ord` lists distinct needed nodes, each after all of its dependencies.
    pub open spec fn is_topo_prefix(self, needed: Seq<bool>, ord: Seq<usize>) -> bool {
        &&& ord.no_duplicates()
        &&& forall|k: int| 0 <= k < ord.len() ==> #[trigger] ord[k] < self.len() && needed[ord[k] as int]
        &&& forall|k: int, j: int|
            0 <= k < ord.len() && 0 <= j < self.deps(ord[k] as int).len() ==> ord.take(k).contains(
                #[trigger] self.deps(ord[k] as int)[j],
            )
    }

    /// `ord` is a topological order of all the needed nodes.
    pub open spec fn is_topo_order(self, needed: Seq<bool>, ord: Seq<usize>) -> bool {
        &&& self.is_topo_prefix(needed, ord)
        &&& forall|i: int| 0 <= i < self.len() && needed[i] ==> #[trigger] ord.contains(i as usize)
    }

    /// Every needed node that `ord` leaves out waits on a dependency that `ord` leaves out too.
    pub open spec fn rest_is_blocked(self, needed: Seq<bool>, ord: Seq<usize>) -> bool {
        forall|i: int|
            0 <= i < self.len() && needed[i] && !ord.contains(i as usize) ==> exists|j: int|
                0 <= j < self.deps(i).len() && !ord.contains(#[trigger] self.deps(i)[j])
    }
}

impl<K, O, F> DagModel<K, O, F> {
    /// A mark set that holds the roots and is closed under dependencies holds every
    /// node reachable from the roots.
    pub proof fn lemma_closed_contains_reachable(
        self,
        roots: Set<usize>,
        needed: Seq<bool>,
        p: Seq<usize>,
    )
        requires
            needed.len() == self.len(),
            self.closed_under_deps(needed),
            forall|r: usize| roots.contains(r) && r < self.len() ==> #[trigger] needed[r as int],
            self.is_dep_path(p),
            roots.contains(p[0]),
        ensures
            needed[p.last() as int],
        decreases p.len(),
    {
        if p.len() > 1 {
            let q = p.drop_last();
            assert(self.is_dep_path(q)) by {
                assert forall|j: int| 0 <= j < q.len() - 1 implies self.deps(#[trigger] q[j] as int).contains(q[j + 1]) by {
                    assert(q[j] == p[j] && q[j + 1] == p[j + 1]);
                    assert(self.deps(p[j] as int).contains(p[j + 1]));
                }
                assert forall|j: int| 0 <= j < q.len() implies #[trigger] q[j] < self.len() by {
                    assert(q[j] == p[j]);
                }
            }
            self.lemma_closed_contains_reachable(roots, needed, q);
            let a = p[p.len() - 2];
            assert(self.deps(a as int).contains(p.last()));
            let j = choose|j: int| 0 <= j < self.deps(a as int).len() && self.deps(a as int)[j] == p.last();
            assert(needed[self.deps(a as int)[j] as int]);
        } else {
            assert(p[0] < self.len());
        }
    }
}

impl<K, O, F> DagModel<K, O, F> {
    /// When the needed nodes that a dependency-ordered run `ord` leaves out all wait on one
    /// another, the needed nodes have no topological order at all: they hold a cycle. So a
    /// run that stops there reports a cycle only where there is one.
    pub proof fn lemma_blocked_has_no_order(self, needed: Seq<bool>, ord: Seq<usize>, other: Seq<usize>)
        requires
            self.wf(),
            needed.len() == self.len(),
            self.is_topo_prefix(needed, ord),
            !self.is_topo_order(needed, ord),
            self.rest_is_blocked(needed, ord),
        ensures
            !self.is_topo_order(needed, other),
    {
        if self.is_topo_order(needed, other) {
            let i = choose|i: int| 0 <= i < self.len() && needed[i] && !#[trigger] ord.contains(i as usize);
            assert(other.contains(i as usize));
            let k = choose|k: int| 0 <= k < other.len() && other[k] == i as usize;
            self.lemma_order_within(needed, ord, other, other.len() as int);
            assert(ord.contains(other[k]));
        }
    }

    /// Every node of a dependency-ordered `other`, up to `k`, is in `ord` when every needed
    /// node that `ord` leaves out waits on another that it leaves out.
    proof fn lemma_order_within(self, needed: Seq<bool>, ord: Seq<usize>, other: Seq<usize>, k: int)
        requires
            self.wf(),
            needed.len() == self.len(),
            self.is_topo_prefix(needed, other),
            self.rest_is_blocked(needed, ord),
            0 <= k <= other.len(),
        ensures
            forall|m: int| 0 <= m < k ==> ord.contains(#[trigger] other[m]),
        decreases k,
    {
        if k > 0 {
            self.lemma_order_within(needed, ord, other, k - 1);
            let x = other[k - 1];
            if !ord.contains(x) {
                assert(needed[x as int] && x < self.len());
                let j = choose|j: int| 0 <= j < self.deps(x as int).len() && !ord.contains(#[trigger] self.deps(x as int)[j]);
                let y = self.deps(x as int)[j];
                let pre = other.take(k - 1);
                assert(pre.contains(y));
                let m = choose|m: int| 0 <= m < pre.len() && #[trigger] pre[m] == y;
                assert(other[m] == y);
            }
        }
    }

    /// The set of nodes reachable from `roots` is closed under dependencies.
    pub proof fn lemma_needed_of_closed(self, roots: Set<usize>)
        requires
            self.wf(),
        ensures
            self.closed_under_deps(self.needed_of(roots)),
            self.needed_of(roots).len() == self.len(),
    {
        let needed = self.needed_of(roots);
        assert forall|i: int, j: int|
            0 <= i < self.len() && needed[i] && 0 <= j < self.deps(i).len() implies #[trigger] needed[self.deps(
            i,
        )[j] as int] by {
            let p = choose|p: Seq<usize>| self.is_dep_path(p) && roots.contains(p[0]) && p.last() == i as usize;
            let x = self.deps(i)[j];
            let q = p.push(x);
            assert(self.deps(i).contains(x));
            assert(self.is_dep_path(q)) by {
                assert forall|t: int| 0 <= t < q.len() - 1 implies self.deps(#[trigger] q[t] as int).contains(q[t + 1]) by {
                    if t < p.len() - 1 {
                        assert(q[t] == p[t] && q[t + 1] == p[t + 1]);
                    } else {
                        assert(q[t] == i);
                    }
                }
                assert forall|t: int| 0 <= t < q.len() implies #[trigger] q[t] < self.len() by {
                    if t < p.len() {
                        assert(q[t] == p[t]);
                    }
                }
            }
            assert(q.last() == x && q[0] == p[0]);
        }
    }
}

impl<K, O, F> Dag<K, O, F> {
    pub(crate) fn from_parts(nodes: Vec<Node<K, O, F>>, index: HashMap<K, NodeId>) -> (d: Self)
        ensures
            d@.nodes == nodes@.map_values(|n: Node<K, O, F>| node_model(n)),
            d@.index == index@.map_values(|id: NodeId| id.0),
    {
        Dag { nodes, index }
    }

    /// The node that `key` names, if any.
    pub fn index_of(&self, key: &K) -> (r: Option<NodeId>)
        where
            K: Eq + std::hash::Hash + Clone,
        requires
            key_model::<K>(),
        ensures
            match r {
                Some(id) => self@.index.contains_key(*key) && id.0 == self@.index[*key],
                None => !self@.index.contains_key(*key),
            },
    {
        match self.index.get(key) {
            Some(id) => Some(*id),
            None => None,
        }
    }

    /// Number of nodes.
    pub fn node_count(&self) -> (n: usize)
        ensures
            n == self@.len(),
    {
        self.nodes.len()
    }

    /// The key of node `i`.
    pub fn node_key(&self, i: usize) -> (k: &K)
        requires
            i < self@.len(),
        ensures
            *k == self@.key(i as int),
    {
        &self.nodes[i].key
    }

    /// The dependencies of node `i`, in declaration order.
    pub fn node_deps(&self, i: usize) -> (d: &Vec<NodeId>)
        requires
            i < self@.len(),
        ensures
            d@.len() == self@.deps(i as int).len(),
            forall|j: int| 0 <= j < d@.len() ==> (#[trigger] d@[j]).0 == self@.deps(i as int)[j],
    {
        &self.nodes[i].deps
    }

    /// What node `i` produces.
    pub fn node_kind(&self, i: usize) -> (kind: &NodeKind<O, F>)
        requires
            i < self@.len(),
        ensures
            *kind == self@.nodes[i as int].kind,
    {
        &self.nodes[i].kind
    }
}

} // verus!
