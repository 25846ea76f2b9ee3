use vstd::prelude::*;
use vstd::std_specs::convert::FromSpecImpl;

verus! {

/// Why a `DagBuilder` refused a node or a graph.
#[derive(Debug, Clone, PartialEq, Eq)]
pub enum BuildError<K> {
    DuplicateKey(K),
    MissingKey(K),
    MissingDependency { task: K, missing: K },
    EmptyGraph,
}

/// Why an execution did not produce its outputs.
#[derive(Debug)]
pub enum ExecError<K, E> {
    Build(BuildError<K>),
    Cycle { remaining: Vec<K> },
    TaskFailed { task: K, error: E },
    OutputMissing(K),
    InternalInvariant(&'static str),
}

impl<K, E> From<BuildError<K>> for ExecError<K, E> {
    fn from(e: BuildError<K>) -> (r: Self) {
        ExecError::Build(e)
    }
}

impl<K, E> FromSpecImpl<BuildError<K>> for ExecError<K, E> {
    open spec fn obeys_from_spec() -> bool {
        true
    }

    open spec fn from_spec(e: BuildError<K>) -> Self {
        ExecError::Build(e)
    }
}

} // verus!
