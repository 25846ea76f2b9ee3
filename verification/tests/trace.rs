use std::collections::{HashMap, VecDeque};
use std::sync::{
    Arc,
    atomic::{AtomicUsize, Ordering},
};

use dag_exec::{
    Dag, DagBuilder, ExecError, ExecObserver, ExecutionTrace, Executor, ExecutorConfig, NodeId, NodeKind, Step,
    TraceNodeKind, TraceObserver, TracedExecution,
};

type Task = Box<dyn Fn(&[Arc<i32>]) -> Result<i32, &'static str> + Send + Sync>;
type Traced = Result<TracedExecution<String, i32>, ExecError<String, &'static str>>;

fn build_add_chain_dag(counter_d: Arc<AtomicUsize>) -> Dag<String, i32, Task> {
    // a=1, b=2, c=a+b, d=c+b (d increments counter when executed)
    let mut b = DagBuilder::<String, i32, Task>::new();
    b.add_source("a".into(), 1).unwrap();
    b.add_source("b".into(), 2).unwrap();

    b.add_task(
        "c".into(),
        vec!["a".into(), "b".into()],
        Box::new(|xs: &[Arc<i32>]| Ok(*xs[0] + *xs[1])),
    )
    .unwrap();

    b.add_task(
        "d".into(),
        vec!["c".into(), "b".into()],
        Box::new(move |xs: &[Arc<i32>]| {
            counter_d.fetch_add(1, Ordering::SeqCst);
            Ok(*xs[0] + *xs[1])
        }),
    )
    .unwrap();

    b.build().unwrap()
}

fn default_config() -> ExecutorConfig {
    ExecutorConfig::with_workers(4)
}

/// Drives the parallel scheduler with in-process workers and a tracing observer.
fn run_parallel_traced(exec: &Executor, dag: &Dag<String, i32, Task>, outputs: Vec<String>) -> Traced {
    let mut obs = TraceObserver::new(dag.node_count());
    let mut run = exec.start_parallel::<String, i32, &'static str, Task, TraceObserver>(dag, &outputs, &mut obs)?;
    let per_worker = exec.cfg().worker_queue_cap + 1;
    let mut queues: Vec<VecDeque<(usize, Vec<Arc<i32>>)>> =
        (0..run.workers()).map(|_| VecDeque::new()).collect();
    let mut arrival: VecDeque<usize> = VecDeque::new();
    loop {
        match run.next::<String, &'static str, Task, TraceObserver>(dag, &mut obs)? {
            Step::Dispatch { id, args } => {
                let mut task = Some((id, args));
                for _ in 0..queues.len() {
                    let w = run.next_worker_slot(dag);
                    if queues[w].len() < per_worker {
                        queues[w].push_back(task.take().unwrap());
                        arrival.push_back(w);
                        run.dispatched(dag, w, &mut obs);
                        break;
                    }
                }
                if let Some((_, args)) = task {
                    assert!(run.in_flight() > 0);
                    run.all_full(dag, args);
                }
            }
            Step::Wait => {
                let w = arrival.pop_front().unwrap();
                let (id, args) = queues[w].pop_front().unwrap();
                let result = match dag.node_kind(id) {
                    NodeKind::Task(f) => f(&args),
                    NodeKind::Source(_) => unreachable!(),
                };
                assert!(run.is_running(id));
                run.complete(dag, id, result, &mut obs)?;
            }
            Step::Done => break,
        }
    }
    run.into_traced(dag, &outputs, obs)
}

fn position_of(trace: &ExecutionTrace<String>) -> HashMap<NodeId, usize> {
    trace.nodes.iter().enumerate().map(|(i, n)| (n.node_id, i)).collect()
}

#[test]
fn sequential_traced_matches_untraced_output() {
    let dag = build_add_chain_dag(Arc::new(AtomicUsize::new(0)));
    let exec = Executor::new(default_config());

    let plain = exec.run_sequential(&dag, vec!["d".into()]).unwrap();
    let traced = exec.run_sequential_traced(&dag, vec!["d".into()]).unwrap();

    assert_eq!(*plain["d"], *traced.outputs["d"]);
    assert_eq!(traced.trace.executed_nodes, 4);
    assert_eq!(traced.trace.nodes.len(), 4);
    assert!(traced.trace.nodes.iter().all(|node| node.worker_id.is_none()));
}

#[test]
fn sequential_trace_pruned_subgraph() {
    let counter = Arc::new(AtomicUsize::new(0));
    let dag = build_add_chain_dag(Arc::clone(&counter));
    let exec = Executor::new(default_config());

    let result = exec.run_sequential_traced(&dag, vec!["c".into()]).unwrap();

    assert_eq!(*result.outputs["c"], 3);
    assert_eq!(counter.load(Ordering::SeqCst), 0);
    assert_eq!(result.trace.executed_nodes, 3);

    let mut keys = result.trace.nodes.iter().map(|node| node.key.as_str()).collect::<Vec<_>>();
    keys.sort_unstable();

    assert_eq!(keys, vec!["a", "b", "c"]);
}

#[test]
fn trace_critical_path_le_wall_time() {
    let dag = build_add_chain_dag(Arc::new(AtomicUsize::new(0)));
    let exec = Executor::new(default_config());
    let result = exec.run_sequential_traced(&dag, vec!["d".into()]).unwrap();
    // Critical path can never exceed wall time
    assert!(result.trace.critical_path_time <= result.trace.wall_time);
}

#[test]
fn parallel_trace_worker_ids_present() {
    let dag = build_add_chain_dag(Arc::new(AtomicUsize::new(0)));
    let mut cfg = default_config();
    cfg.max_workers = 2;

    let exec = Executor::new(cfg);
    let result = run_parallel_traced(&exec, &dag, vec!["d".into()]).unwrap();

    // Task nodes should have a worker_id; source nodes won't
    let task_nodes: Vec<_> = result
        .trace
        .nodes
        .iter()
        .filter(|n| matches!(n.kind, TraceNodeKind::Task))
        .collect();

    assert!(!task_nodes.is_empty());
    assert!(task_nodes.iter().all(|n| n.worker_id.is_some()));
}

#[test]
fn trace_ordering_is_topological() {
    let dag = build_add_chain_dag(Arc::new(AtomicUsize::new(0)));
    let exec = Executor::new(default_config());
    let result = exec.run_sequential_traced(&dag, vec!["d".into()]).unwrap();

    // For each node, all its deps must appear earlier in the trace
    let position = position_of(&result.trace);

    for node in &result.trace.nodes {
        for dep in &node.deps {
            assert!(position[dep] < position[&node.node_id]);
        }
    }
}

#[test]
fn parallel_trace_matches_outputs_and_order() {
    let dag = build_add_chain_dag(Arc::new(AtomicUsize::new(0)));
    let mut cfg = default_config();
    cfg.max_workers = 2;
    let exec = Executor::new(cfg);
    let result = run_parallel_traced(&exec, &dag, vec!["d".into()]).unwrap();

    assert_eq!(*result.outputs["d"], 5);
    assert_eq!(result.trace.executed_nodes, 4);
    assert!(result.trace.critical_path_time <= result.trace.wall_time);
    let position = position_of(&result.trace);
    for node in &result.trace.nodes {
        for dep in &node.deps {
            assert!(position[dep] < position[&node.node_id]);
        }
        if node.kind == TraceNodeKind::Source {
            assert!(node.worker_id.is_none());
        }
    }
}

#[test]
fn trace_entries_are_consistent() {
    let dag = build_add_chain_dag(Arc::new(AtomicUsize::new(0)));
    let exec = Executor::new(default_config());
    let result = exec.run_sequential_traced(&dag, vec!["d".into()]).unwrap();
    let trace = &result.trace;

    assert!(trace.max_frontier_width >= 1);
    let kinds: Vec<(String, TraceNodeKind)> = trace.nodes.iter().map(|n| (n.key.clone(), n.kind)).collect();
    for (key, kind) in kinds {
        let expected = if key == "a" || key == "b" { TraceNodeKind::Source } else { TraceNodeKind::Task };
        assert_eq!(kind, expected);
    }
    for node in &trace.nodes {
        assert!(node.ready_at <= node.started_at);
        assert!(node.started_at <= node.finished_at);
        assert_eq!(node.run_duration, node.finished_at - node.started_at);
        assert!(node.finished_at <= trace.wall_time);
    }
    let d = trace.nodes.iter().find(|n| n.key == "d").unwrap();
    assert_eq!(d.deps.len(), 2);
}

#[test]
fn parallel_trace_entries_are_consistent() {
    let dag = build_add_chain_dag(Arc::new(AtomicUsize::new(0)));
    let mut cfg = default_config();
    cfg.max_workers = 2;
    let exec = Executor::new(cfg);
    let result = run_parallel_traced(&exec, &dag, vec!["d".into()]).unwrap();
    for node in &result.trace.nodes {
        assert!(node.ready_at <= node.started_at);
        assert!(node.started_at <= node.finished_at);
        assert!(node.finished_at <= result.trace.wall_time);
    }
}

#[test]
fn observer_keeps_first_notifications() {
    let dag = build_add_chain_dag(Arc::new(AtomicUsize::new(0)));
    let mut obs = TraceObserver::new(dag.node_count());
    obs.mark_ready(NodeId(0), 1);
    obs.mark_ready(NodeId(1), 3);
    obs.mark_start(NodeId(1), Some(7));
    obs.mark_start(NodeId(1), Some(9));
    obs.mark_finish(NodeId(1));
    obs.mark_start(NodeId(0), None);
    obs.mark_start(NodeId(0), Some(4));
    obs.mark_finish(NodeId(0));
    let needed = vec![true, true, false, false];
    let trace = obs.finalize(&dag, &needed);

    assert_eq!(trace.max_frontier_width, 3);
    assert_eq!(trace.executed_nodes, 2);
    assert_eq!(trace.nodes[0].node_id, NodeId(1));
    assert_eq!(trace.nodes[0].worker_id, Some(7));
    assert_eq!(trace.nodes[1].node_id, NodeId(0));
    assert_eq!(trace.nodes[1].worker_id, Some(4));
    assert_eq!(trace.nodes[1].kind, TraceNodeKind::Source);
    assert!(trace.critical_path_time <= trace.wall_time);
}

#[test]
fn observer_leaves_out_nodes_not_needed() {
    let dag = build_add_chain_dag(Arc::new(AtomicUsize::new(0)));
    let mut obs = TraceObserver::new(dag.node_count());
    obs.mark_start(NodeId(2), None);
    obs.mark_finish(NodeId(2));
    obs.mark_start(NodeId(3), None);
    let needed = vec![false, false, false, true];
    let trace = obs.finalize(&dag, &needed);

    assert_eq!(trace.executed_nodes, 1);
    assert_eq!(trace.nodes[0].key, "d");
    // A node that never finished is reported as finishing when it started.
    assert_eq!(trace.nodes[0].finished_at, trace.nodes[0].started_at);
    assert_eq!(trace.nodes[0].run_duration, 0);
    assert_eq!(trace.nodes[0].ready_at, 0);
}
