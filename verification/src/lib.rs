use vstd::prelude::*;

mod builder;
mod error;
mod exec;
mod graph;
mod trace;

pub use builder::{BuilderModel, DagBuilder, StagedModel};
pub use exec::observe::{ExecObserver, NoopObserver, ObsEvent};
pub use exec::parallel::{ParallelRun, Phase, Step};
pub use exec::Executor;
pub use error::{BuildError, ExecError};
pub use graph::{Dag, DagModel, ExecutorConfig, Node, NodeId, NodeKind, NodeModel};
pub use trace::{ExecutionTrace, NodeTrace, TraceNodeKind, TraceObserver, TracedExecution};

verus! {

} // verus!
