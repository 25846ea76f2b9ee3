# dag_exec

A DAG executor for CPU-heavy pipelines: it computes only the requested outputs (pruning
the rest of the graph), runs them in dependency order, detects cycles in the part of the
graph it needs, and bounds the work in flight when tasks run on a worker pool. The
scheduling decisions (what runs, when, with which inputs, and what a run returns) are
verified with Verus; the worker pool that carries tasks to threads and results back is
ordinary Rust in `app/`, and the parallel results are proved correct for drivers that
report each task's own result.

## Layout

- `src/builder.rs`: `DagBuilder`, which stages keyed sources and tasks and compiles them
  into a `Dag` (duplicate keys, missing dependencies and empty graphs are refused).
- `src/graph.rs`: the compiled `Dag`, its mathematical model `DagModel` (reachability,
  dependency closure, topological orders) and `ExecutorConfig`.
- `src/exec/sequential.rs`: Kahn-order execution of the needed subgraph.
- `src/exec/parallel.rs`: `ParallelRun`, the bounded-parallelism scheduler as a state
  machine: it tells a driver which task to hand to a worker, when to wait for a result and
  when the run is over, and keeps the number of tasks in flight under its cap.
- `src/exec/common.rs`, `kahn.rs`, `counting.rs`, `outcome.rs`, `observe.rs`: the shared
  pieces (needed-node marking, in-degrees, dependents, output collection), the
  specifications of a correct run, and the notifications a scheduler sends its observer.
- `src/trace.rs`: `TraceObserver`, which times the notifications, and the execution trace
  with its critical path.
- `app/lib.rs`: the worker pool (threads and channels) that drives a `ParallelRun`, the
  default configuration from the number of cores, and error types that implement
  `Display` and `std::error::Error`.
- `tests/`: scenario tests of the library.
