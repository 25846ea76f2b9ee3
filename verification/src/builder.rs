use std::collections::HashMap;
use std::hash::Hash;
use std::sync::Arc;
use vstd::prelude::*;

use crate::error::BuildError;
use crate::graph::{key_model, node_model, Dag, Node, NodeId, NodeKind};

verus! {

broadcast use vstd::std_specs::hash::group_hash_axioms;

/// Collects sources and tasks by key, then compiles them into a `Dag`.
pub struct DagBuilder<K, O, F> {
    index: HashMap<K, usize>,
    staging: Vec<StagedNode<K, O, F>>,
}

struct StagedNode<K, O, F> {
    key: K,
    deps: Vec<K>,
    kind: NodeKind<O, F>,
}

/// Model of a node that was added but not yet compiled: dependencies are still keys.
#[verifier::reject_recursive_types(K)]
pub struct StagedModel<K, O, F> {
    pub key: K,
    pub deps: Seq<K>,
    pub kind: NodeKind<O, F>,
}

/// Model of a builder: the staged nodes in insertion order, and the position of each key.
#[verifier::reject_recursive_types(K)]
pub struct BuilderModel<K, O, F> {
    pub staged: Seq<StagedModel<K, O, F>>,
    pub index: Map<K, usize>,
}

spec fn staged_model<K, O, F>(n: StagedNode<K, O, F>) -> StagedModel<K, O, F> {
    StagedModel { key: n.key, deps: n.deps@, kind: n.kind }
}

impl<K, O, F> View for DagBuilder<K, O, F> {
    type V = BuilderModel<K, O, F>;

    closed spec fn view(&self) -> BuilderModel<K, O, F> {
        BuilderModel {
            staged: self.staging@.map_values(|n: StagedNode<K, O, F>| staged_model(n)),
            index: self.index@,
        }
    }
}

impl<K, O, F> BuilderModel<K, O, F> {
    pub open spec fn len(self) -> nat {
        self.staged.len()
    }

    /// The index maps each staged key to its position, and nothing else.
    pub open spec fn wf(self) -> bool {
        &&& forall|i: int|
            0 <= i < self.len() ==> #[trigger] self.index.contains_key(self.staged[i].key)
                && self.index[self.staged[i].key] == i
        &&& forall|k: K| #[trigger]
            self.index.contains_key(k) ==> self.index[k] < self.len() && self.staged[self.index[k] as int].key
                == k
    }

    /// Dependency `j` of staged node `i` names a staged key.
    pub open spec fn resolves(self, i: int, j: int) -> bool {
        self.index.contains_key(self.staged[i].deps[j])
    }

    /// Every dependency of every staged node names a staged key.
    pub open spec fn all_resolve(self) -> bool {
        forall|i: int, j: int|
            0 <= i < self.len() && 0 <= j < self.staged[i].deps.len() ==> #[trigger] self.resolves(i, j)
    }

    /// Dependency `j` of node `i` is the first unresolved one, nodes in insertion order
    /// and each node's dependencies in declaration order.
    pub open spec fn first_unresolved(self, i: int, j: int) -> bool {
        &&& 0 <= i < self.len()
        &&& 0 <= j < self.staged[i].deps.len()
        &&& !self.resolves(i, j)
        &&& forall|i2: int, j2: int|
            0 <= i2 < i && 0 <= j2 < self.staged[i2].deps.len() ==> #[trigger] self.resolves(i2, j2)
        &&& forall|j2: int| 0 <= j2 < j ==> #[trigger] self.resolves(i, j2)
    }

    /// `d` is this builder compiled: same nodes in the same order, dependency keys
    /// replaced by the positions of the nodes they name.
    pub open spec fn compiles_to(self, d: crate::graph::DagModel<K, O, F>) -> bool {
        &&& d.len() == self.len()
        &&& d.index == self.index
        &&& forall|i: int|
            0 <= i < self.len() ==> {
                &&& (#[trigger] d.nodes[i]).key == self.staged[i].key
                &&& d.nodes[i].kind == self.staged[i].kind
                &&& d.nodes[i].deps.len() == self.staged[i].deps.len()
                &&& forall|j: int|
                    0 <= j < self.staged[i].deps.len() ==> d.nodes[i].deps[j] == self.index[
                        #[trigger] self.staged[i].deps[j]]
            }
    }
}

impl<K: Eq + Hash + Clone, O, F> Default for DagBuilder<K, O, F> {
    /// An empty builder, as `new` makes.
    fn default() -> (b: Self)
        ensures
            b@.staged.len() == 0,
            b@.index == Map::<K, usize>::empty(),
    {
        Self::new()
    }
}

impl<K: Eq + Hash + Clone, O, F> DagBuilder<K, O, F> {
    /// An empty builder.
    pub fn new() -> (b: Self)
        ensures
            b@.staged.len() == 0,
            b@.index == Map::<K, usize>::empty(),
    {
        DagBuilder { index: HashMap::new(), staging: Vec::new() }
    }

    /// Adds a node that produces `value`.
    pub fn add_source(&mut self, key: K, value: O) -> (r: Result<(), BuildError<K>>)
        requires
            old(self)@.wf(),
            key_model::<K>(),
        ensures
            final(self)@.wf(),
            old(self)@.index.contains_key(key) ==> r == Err::<(), BuildError<K>>(
                BuildError::DuplicateKey(key),
            ) && final(self)@ == old(self)@,
            !old(self)@.index.contains_key(key) ==> r is Ok && final(self)@.staged == old(
                self,
            )@.staged.push(
                StagedModel { key, deps: Seq::empty(), kind: NodeKind::Source(Arc::new(value)) },
            ),
    {
        self.insert_node(key, Vec::new(), NodeKind::Source(Arc::new(value)))
    }

    /// Adds a node that applies `f` to the values of `deps`, in that order.
    pub fn add_task(&mut self, key: K, deps: Vec<K>, f: F) -> (r: Result<(), BuildError<K>>)
        requires
            old(self)@.wf(),
            key_model::<K>(),
        ensures
            final(self)@.wf(),
            old(self)@.index.contains_key(key) ==> r == Err::<(), BuildError<K>>(
                BuildError::DuplicateKey(key),
            ) && final(self)@ == old(self)@,
            !old(self)@.index.contains_key(key) ==> r is Ok && final(self)@.staged == old(
                self,
            )@.staged.push(StagedModel { key, deps: deps@, kind: NodeKind::Task(f) }),
    {
        self.insert_node(key, deps, NodeKind::Task(f))
    }

    fn insert_node(&mut self, key: K, deps: Vec<K>, kind: NodeKind<O, F>) -> (r: Result<
        (),
        BuildError<K>,
    >)
        requires
            old(self)@.wf(),
            key_model::<K>(),
        ensures
            final(self)@.wf(),
            old(self)@.index.contains_key(key) ==> r == Err::<(), BuildError<K>>(
                BuildError::DuplicateKey(key),
            ) && final(self)@ == old(self)@,
            !old(self)@.index.contains_key(key) ==> r is Ok && final(self)@.staged == old(
                self,
            )@.staged.push(StagedModel { key, deps: deps@, kind }),
    {
        if self.index.contains_key(&key) {
            return Err(BuildError::DuplicateKey(key));
        }
        let idx = self.staging.len();
        let k2 = key.clone();
        assert(cloned::<K>(key, k2));
        self.index.insert(k2, idx);
        self.staging.push(StagedNode { key, deps, kind });
        proof {
            let m = self@;
            let o = old(self)@;
            assert(m.staged =~= o.staged.push(StagedModel { key, deps: deps@, kind }));
            assert forall|i: int| 0 <= i < m.len() implies #[trigger] m.index.contains_key(
                m.staged[i].key,
            ) && m.index[m.staged[i].key] == i by {
                if i < o.len() {
                    assert(o.index.contains_key(o.staged[i].key));
                }
            }
        }
        Ok(())
    }

    /// Compiles the staged nodes into a `Dag`, resolving each dependency key to the node it names.
    #[verifier::loop_isolation(false)]
    pub fn build(self) -> (r: Result<Dag<K, O, F>, BuildError<K>>)
        requires
            self@.wf(),
            key_model::<K>(),
        ensures
            self@.len() == 0 <==> r == Err::<Dag<K, O, F>, BuildError<K>>(BuildError::EmptyGraph),
            self@.len() > 0 && self@.all_resolve() <==> r is Ok,
            r matches Ok(d) ==> self@.compiles_to(d@) && d@.wf(),
            r matches Err(BuildError::MissingDependency { task, missing }) ==> exists|i: int, j: int|
                self@.first_unresolved(i, j) && task == self@.staged[i].key && missing
                    == self@.staged[i].deps[j],
            r matches Err(e) ==> (e is EmptyGraph || e is MissingDependency),
    {
        let ghost b = self@;
        if self.staging.len() == 0 {
            return Err(BuildError::EmptyGraph);
        }
        let n = self.staging.len();
        // Assign dense NodeId
        let mut key_to_id: HashMap<K, NodeId> = HashMap::with_capacity(n);
        for i in 0..n
            invariant
                n == self.staging@.len(),
                b == self@,
                b.wf(),
                key_model::<K>(),
                forall|k: K| #[trigger]
                    key_to_id@.contains_key(k) <==> (b.index.contains_key(k) && b.index[k] < i),
                forall|k: K| #[trigger] key_to_id@.contains_key(k) ==> key_to_id@[k].0 == b.index[k],
        {
            let k2 = self.staging[i].key.clone();
            assert(cloned::<K>(self.staging@[i as int].key, k2));
            assert(b.staged[i as int].key == self.staging@[i as int].key);
            assert(b.index.contains_key(b.staged[i as int].key));
            key_to_id.insert(k2, NodeId(i));
            assert forall|k: K| #[trigger]
                key_to_id@.contains_key(k) <==> (b.index.contains_key(k) && b.index[k] < i + 1) by {
                if b.index.contains_key(k) && b.index[k] == i {
                    assert(b.staged[b.index[k] as int].key == k);
                }
            }
        }
        proof {
            assert(key_to_id@.map_values(|id: NodeId| id.0) =~= b.index);
        }
        // Resolve deps to NodeId with missing-dep validation
        let mut nodes: Vec<Node<K, O, F>> = Vec::with_capacity(n);
        let ghost kmap = key_to_id@;
        let staging = self.staging;
        let ghost st = staging@;
        for sn in it: staging
            invariant
                st == staging@,
                n == st.len(),
                b.len() == n,
                b.wf(),
                b.staged == st.map_values(|x: StagedNode<K, O, F>| staged_model(x)),
                key_model::<K>(),
                key_to_id@ == kmap,
                forall|k: K| #[trigger] kmap.contains_key(k) <==> b.index.contains_key(k),
                forall|k: K| #[trigger] kmap.contains_key(k) ==> kmap[k].0 == b.index[k],
                it.seq() == st,
                nodes@.len() == it.index(),
                forall|i2: int, j2: int|
                    0 <= i2 < it.index() && 0 <= j2 < b.staged[i2].deps.len() ==> #[trigger] b.resolves(i2, j2),
                forall|i2: int| 0 <= i2 < it.index() ==> {
                    &&& (#[trigger] node_model(nodes@[i2])).key == b.staged[i2].key
                    &&& node_model(nodes@[i2]).kind == b.staged[i2].kind
                    &&& node_model(nodes@[i2]).deps.len() == b.staged[i2].deps.len()
                    &&& forall|j: int|
                        0 <= j < b.staged[i2].deps.len() ==> node_model(nodes@[i2]).deps[j] == b.index[
                            #[trigger] b.staged[i2].deps[j]]
                },
        {
            let ghost i = it.index();
            let mut dep_ids: Vec<NodeId> = Vec::with_capacity(sn.deps.len());
            for j in 0..sn.deps.len()
                invariant
                    sn == st[i],
                    0 <= i < n,
                    b.staged[i].deps == sn.deps@,
                    key_model::<K>(),
                    key_to_id@ == kmap,
                    forall|k: K| #[trigger] kmap.contains_key(k) <==> b.index.contains_key(k),
                    forall|k: K| #[trigger] kmap.contains_key(k) ==> kmap[k].0 == b.index[k],
                    dep_ids@.len() == j,
                    forall|j2: int| 0 <= j2 < j ==> #[trigger] b.resolves(i, j2),
                    forall|j2: int| 0 <= j2 < j ==> (#[trigger] dep_ids@[j2]).0 == b.index[b.staged[i].deps[j2]],
            {
                match key_to_id.get(&sn.deps[j]) {
                    Some(id) => {
                        dep_ids.push(*id);
                    },
                    None => {
                        let task = sn.key.clone();
                        let missing = sn.deps[j].clone();
                        assert(cloned::<K>(sn.key, task));
                        assert(cloned::<K>(sn.deps@[j as int], missing));
                        assert(b.first_unresolved(i, j as int));
                        return Err(BuildError::MissingDependency { task, missing });
                    },
                }
            }
            let ghost dm = dep_ids@.map_values(|d: NodeId| d.0);
            let node = Node { key: sn.key, deps: dep_ids, kind: sn.kind };
            assert(node_model(node).deps =~= dm);
            nodes.push(node);
        }
        let dag = Dag::from_parts(nodes, key_to_id);
        proof {
            assert(dag@.index =~= b.index);
            let d = dag@;
            assert(nodes@.len() == n);
            assert forall|i: int| 0 <= i < n implies #[trigger] d.nodes[i] == node_model(nodes@[i]) by {}
            assert forall|i: int, j: int|
                0 <= i < d.len() && 0 <= j < d.deps(i).len() implies #[trigger] d.deps(i)[j] < d.len() by {
                assert(d.nodes[i] == node_model(nodes@[i]));
                assert(b.resolves(i, j));
                assert(b.index.contains_key(b.staged[i].deps[j]));
            }
            assert(d.deps_in_range());
            assert(d.index_exact());
            assert(d.len() == b.len());
            assert(d.index == b.index);
            assert(b.compiles_to(d));
            assert(b.all_resolve());
        }
        Ok(dag)
    }
}

} // verus!
