use std::collections::VecDeque;
use std::sync::Arc;

use dag_exec::{
    BuildError, Dag, DagBuilder, ExecError, Executor, ExecutorConfig, NodeId, NodeKind, NoopObserver, Step,
};

type Task = Box<dyn Fn(&[Arc<i32>]) -> Result<i32, &'static str> + Send + Sync>;

fn add(xs: &[Arc<i32>]) -> Result<i32, &'static str> {
    Ok(xs.iter().map(|x| **x).sum())
}

fn chain() -> Dag<String, i32, Task> {
    let mut b = DagBuilder::<String, i32, Task>::new();
    b.add_source("a".into(), 1).unwrap();
    b.add_source("b".into(), 2).unwrap();
    b.add_task("c".into(), vec!["a".into(), "b".into()], Box::new(add)).unwrap();
    b.add_task("d".into(), vec!["c".into(), "b".into()], Box::new(add)).unwrap();
    b.build().unwrap()
}

/// Runs the parallel scheduler with in-process workers and reports the most tasks that were
/// in flight at once.
fn drive(
    exec: &Executor,
    dag: &Dag<String, i32, Task>,
    outputs: Vec<String>,
) -> (Result<Vec<(String, i32)>, ExecError<String, &'static str>>, usize) {
    let mut obs = NoopObserver::new();
    let mut most = 0usize;
    let mut run = match exec.start_parallel::<String, i32, &'static str, Task, NoopObserver>(dag, &outputs, &mut obs) {
        Ok(run) => run,
        Err(e) => return (Err(e), most),
    };
    let per_worker = exec.cfg().worker_queue_cap + 1;
    let mut queues: Vec<VecDeque<(usize, Vec<Arc<i32>>)>> = (0..run.workers()).map(|_| VecDeque::new()).collect();
    let mut arrival: VecDeque<usize> = VecDeque::new();
    loop {
        let step = match run.next::<String, &'static str, Task, NoopObserver>(dag, &mut obs) {
            Ok(step) => step,
            Err(e) => return (Err(e), most),
        };
        match step {
            Step::Dispatch { id, args } => {
                let mut task = Some((id, args));
                for _ in 0..queues.len() {
                    let w = run.next_worker_slot(dag);
                    if queues[w].len() < per_worker {
                        queues[w].push_back(task.take().unwrap());
                        arrival.push_back(w);
                        run.dispatched(dag, w, &mut obs);
                        break;
                    }
                }
                if let Some((_, args)) = task {
                    assert!(run.in_flight() > 0);
                    run.all_full(dag, args);
                }
                most = most.max(run.in_flight());
            }
            Step::Wait => {
                let w = arrival.pop_front().unwrap();
                let (id, args) = queues[w].pop_front().unwrap();
                let result = match dag.node_kind(id) {
                    NodeKind::Task(f) => f(&args),
                    NodeKind::Source(_) => unreachable!(),
                };
                assert!(run.is_running(id));
                if let Err(e) = run.complete(dag, id, result, &mut obs) {
                    return (Err(e), most);
                }
            }
            Step::Done => break,
        }
    }
    match run.into_outputs(dag, &outputs) {
        Ok(m) => {
            let mut v: Vec<(String, i32)> = m.into_iter().map(|(k, x)| (k, *x)).collect();
            v.sort();
            (Ok(v), most)
        }
        Err(e) => (Err(e), most),
    }
}

#[test]
fn builder_rejects_duplicate_key() {
    let mut b = DagBuilder::<String, i32, Task>::new();
    b.add_source("a".into(), 1).unwrap();
    assert_eq!(b.add_source("a".into(), 2), Err(BuildError::DuplicateKey("a".to_string())));
    assert_eq!(
        b.add_task("a".into(), vec![], Box::new(add)),
        Err(BuildError::DuplicateKey("a".to_string()))
    );
    // The refused nodes left the builder as it was.
    let dag = b.build().unwrap();
    assert_eq!(dag.node_count(), 1);
}

#[test]
fn builder_reports_first_missing_dependency() {
    let mut b = DagBuilder::<String, i32, Task>::new();
    b.add_source("a".into(), 1).unwrap();
    b.add_task("c".into(), vec!["a".into(), "x".into(), "y".into()], Box::new(add)).unwrap();
    b.add_task("d".into(), vec!["z".into()], Box::new(add)).unwrap();
    match b.build() {
        Err(BuildError::MissingDependency { task, missing }) => {
            assert_eq!(task, "c");
            assert_eq!(missing, "x");
        }
        _ => panic!("expected a missing dependency"),
    }
}

#[test]
fn builder_rejects_empty_graph() {
    let b = DagBuilder::<String, i32, Task>::new();
    assert!(matches!(b.build(), Err(BuildError::EmptyGraph)));
    let b = DagBuilder::<String, i32, Task>::default();
    assert!(matches!(b.build(), Err(BuildError::EmptyGraph)));
}

#[test]
fn built_dag_keeps_keys_deps_and_kinds() {
    let dag = chain();
    assert_eq!(dag.node_count(), 4);
    assert_eq!(dag.index_of(&"c".to_string()), Some(NodeId(2)));
    assert_eq!(dag.index_of(&"zz".to_string()), None);
    assert_eq!(dag.node_key(3), "d");
    assert_eq!(dag.node_deps(3), &vec![NodeId(2), NodeId(1)]);
    assert!(matches!(dag.node_kind(0), NodeKind::Source(v) if **v == 1));
    assert!(matches!(dag.node_kind(2), NodeKind::Task(_)));
}

#[test]
fn build_error_converts_to_exec_error() {
    let e: ExecError<String, &'static str> = ExecError::from(BuildError::MissingKey("k".to_string()));
    assert!(matches!(e, ExecError::Build(BuildError::MissingKey(k)) if k == "k"));
}

#[test]
fn config_with_workers_shape() {
    let cfg = ExecutorConfig::with_workers(3);
    assert_eq!(cfg.max_workers, 3);
    assert_eq!(cfg.max_in_flight, 6);
    assert_eq!(cfg.worker_queue_cap, 2);
    let exec = Executor::new(cfg);
    assert_eq!(exec.cfg().max_in_flight, 6);
}

#[test]
fn sequential_rejects_empty_request() {
    let dag = chain();
    let exec = Executor::new(ExecutorConfig::with_workers(2));
    let err = exec.run_sequential(&dag, vec![]).unwrap_err();
    assert!(matches!(err, ExecError::InternalInvariant(m) if m == "outputs must be non-empty"));
}

#[test]
fn sequential_reports_first_missing_output() {
    let dag = chain();
    let exec = Executor::new(ExecutorConfig::with_workers(2));
    let err = exec.run_sequential(&dag, vec!["a".into(), "zz".into(), "yy".into()]).unwrap_err();
    assert!(matches!(err, ExecError::OutputMissing(k) if k == "zz"));
    let err = exec.run_sequential_traced(&dag, vec!["yy".into()]).unwrap_err();
    assert!(matches!(err, ExecError::OutputMissing(k) if k == "yy"));
}

#[test]
fn sequential_returns_each_requested_key() {
    let dag = chain();
    let exec = Executor::new(ExecutorConfig::with_workers(2));
    let out = exec.run_sequential(&dag, vec!["d".into(), "a".into(), "d".into()]).unwrap();
    assert_eq!(out.len(), 2);
    assert_eq!(*out["d"], 5);
    assert_eq!(*out["a"], 1);
}

#[test]
fn cycle_lists_every_blocked_needed_node_in_node_order() {
    let mut b = DagBuilder::<String, i32, Task>::new();
    b.add_source("s".into(), 7).unwrap();
    b.add_task("x".into(), vec!["y".into(), "s".into()], Box::new(add)).unwrap();
    b.add_task("y".into(), vec!["x".into()], Box::new(add)).unwrap();
    b.add_task("z".into(), vec!["x".into()], Box::new(add)).unwrap();
    b.add_task("w".into(), vec!["s".into()], Box::new(add)).unwrap();
    let dag = b.build().unwrap();
    let exec = Executor::new(ExecutorConfig::with_workers(2));
    match exec.run_sequential(&dag, vec!["z".into(), "w".into()]).unwrap_err() {
        ExecError::Cycle { remaining } => assert_eq!(remaining, vec!["x", "y", "z"]),
        e => panic!("unexpected err: {e:?}"),
    }
    match drive(&exec, &dag, vec!["z".into(), "w".into()]).0.unwrap_err() {
        ExecError::Cycle { remaining } => assert_eq!(remaining, vec!["x", "y", "z"]),
        e => panic!("unexpected err: {e:?}"),
    }
}

#[test]
fn parallel_rejects_bad_configuration() {
    let dag = chain();
    let cases = [
        (ExecutorConfig { max_workers: 0, max_in_flight: 4, worker_queue_cap: 2 }, "max_workers must be > 0"),
        (ExecutorConfig { max_workers: 2, max_in_flight: 0, worker_queue_cap: 2 }, "max_in_flight must be > 0"),
        (ExecutorConfig { max_workers: 2, max_in_flight: 4, worker_queue_cap: 0 }, "worker_queue_cap must be > 0"),
    ];
    for (cfg, msg) in cases {
        let exec = Executor::new(cfg);
        let err = drive(&exec, &dag, vec!["d".into()]).0.unwrap_err();
        assert!(matches!(err, ExecError::InternalInvariant(m) if m == msg));
    }
    let exec = Executor::new(ExecutorConfig::with_workers(2));
    let err = drive(&exec, &dag, vec![]).0.unwrap_err();
    assert!(matches!(err, ExecError::InternalInvariant(m) if m == "outputs must be non-empty"));
    let err = drive(&exec, &dag, vec!["d".into(), "q".into()]).0.unwrap_err();
    assert!(matches!(err, ExecError::OutputMissing(k) if k == "q"));
}

#[test]
fn parallel_in_flight_stays_within_cap() {
    let mut b = DagBuilder::<String, i32, Task>::new();
    b.add_source("src".into(), 1).unwrap();
    let n_tasks = 16;
    for i in 0..n_tasks {
        b.add_task(format!("t{i}"), vec!["src".into()], Box::new(add)).unwrap();
    }
    let dag = b.build().unwrap();
    let cfg = ExecutorConfig { max_workers: 8, worker_queue_cap: 1, max_in_flight: 2 };
    let exec = Executor::new(cfg);
    let outs = (0..n_tasks).map(|i| format!("t{i}")).collect::<Vec<_>>();
    let (out, most) = drive(&exec, &dag, outs);
    assert_eq!(out.unwrap().len(), n_tasks);
    assert!(most <= 2);
    assert!(most >= 1);

    // The workers' room bounds it too: one worker with one buffered task holds two.
    let cfg = ExecutorConfig { max_workers: 1, worker_queue_cap: 1, max_in_flight: 10 };
    let exec = Executor::new(cfg);
    let outs = (0..n_tasks).map(|i| format!("t{i}")).collect::<Vec<_>>();
    let (out, most) = drive(&exec, &dag, outs);
    assert_eq!(out.unwrap().len(), n_tasks);
    assert_eq!(most, 2);
}

#[test]
fn parallel_request_of_sources_only_computes_them() {
    // Every needed node is a source: the scheduler completes them all without a worker and
    // reports the run done.
    let dag = chain();
    let exec = Executor::new(ExecutorConfig::with_workers(2));
    let (out, most) = drive(&exec, &dag, vec!["a".into(), "b".into()]);
    assert_eq!(out.unwrap(), vec![("a".to_string(), 1), ("b".to_string(), 2)]);
    assert_eq!(most, 0);
    let out = exec.run_sequential(&dag, vec!["a".into()]).unwrap();
    assert_eq!(*out["a"], 1);
}

#[test]
fn parallel_matches_sequential_on_wide_graph() {
    let mut b = DagBuilder::<String, i32, Task>::new();
    b.add_source("s".into(), 2).unwrap();
    for i in 0..10 {
        b.add_task(format!("m{i}"), vec!["s".into()], Box::new(move |xs: &[Arc<i32>]| Ok(*xs[0] * (i + 1)))).unwrap();
    }
    let deps = (0..10).map(|i| format!("m{i}")).collect::<Vec<_>>();
    b.add_task("sum".into(), deps, Box::new(add)).unwrap();
    let dag = b.build().unwrap();
    let exec = Executor::new(ExecutorConfig { max_workers: 3, worker_queue_cap: 1, max_in_flight: 4 });
    let (par, most) = drive(&exec, &dag, vec!["sum".into(), "m9".into()]);
    let par = par.unwrap();
    assert_eq!(par, vec![("m9".to_string(), 20), ("sum".to_string(), 110)]);
    assert!(most <= 4);
    let seq = exec.run_sequential(&dag, vec!["sum".into(), "m9".into()]).unwrap();
    assert_eq!(*seq["sum"], 110);
    assert_eq!(*seq["m9"], 20);
}
