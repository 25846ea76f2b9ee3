use std::collections::{HashMap, VecDeque};
use std::sync::{
    Arc,
    atomic::{AtomicUsize, Ordering},
};

use dag_exec::{
    Dag, DagBuilder, ExecError, Executor, ExecutorConfig, NodeKind, NoopObserver, Step,
};

type Task = Box<dyn Fn(&[Arc<i32>]) -> Result<i32, &'static str> + Send + Sync>;
type Outputs = Result<HashMap<String, Arc<i32>>, ExecError<String, &'static str>>;

fn build_add_chain_dag(counter_d: Arc<AtomicUsize>) -> Dag<String, i32, Task> {
    // a=1, b=2, c=a+b, d=c+b (d increments counter when executed)
    let mut b = DagBuilder::<String, i32, Task>::new();
    b.add_source("a".into(), 1).unwrap();
    b.add_source("b".into(), 2).unwrap();

    b.add_task(
        "c".into(),
        vec!["a".into(), "b".into()],
        Box::new(|xs: &[Arc<i32>]| Ok(*xs[0] + *xs[1])),
    )
    .unwrap();

    b.add_task(
        "d".into(),
        vec!["c".into(), "b".into()],
        Box::new(move |xs: &[Arc<i32>]| {
            counter_d.fetch_add(1, Ordering::SeqCst);
            Ok(*xs[0] + *xs[1])
        }),
    )
    .unwrap();

    b.build().unwrap()
}

fn build_cycle_dag() -> Dag<String, i32, Task> {
    let mut b = DagBuilder::<String, i32, Task>::new();
    b.add_task("a".into(), vec!["b".into()], Box::new(|_xs: &[Arc<i32>]| Ok(1)))
        .unwrap();
    b.add_task("b".into(), vec!["a".into()], Box::new(|_xs: &[Arc<i32>]| Ok(1)))
        .unwrap();
    b.build().unwrap()
}

fn build_failing_dag() -> Dag<String, i32, Task> {
    let mut b = DagBuilder::<String, i32, Task>::new();
    b.add_source("a".into(), 1).unwrap();
    b.add_task("c".into(), vec!["a".into()], Box::new(|_xs: &[Arc<i32>]| Err("boom")))
        .unwrap();
    b.build().unwrap()
}

fn parallel_config() -> ExecutorConfig {
    let mut cfg = ExecutorConfig::with_workers(4);
    cfg.max_workers = cfg.max_workers.max(2);
    cfg
}

/// Drives the parallel scheduler with in-process workers: each worker holds a bounded
/// queue, and a task runs when the scheduler waits for a result.
fn run_parallel(exec: &Executor, dag: &Dag<String, i32, Task>, outputs: Vec<String>) -> Outputs {
    let mut obs = NoopObserver::new();
    let mut run = exec.start_parallel::<String, i32, &'static str, Task, NoopObserver>(dag, &outputs, &mut obs)?;
    let per_worker = exec.cfg().worker_queue_cap + 1;
    let mut queues: Vec<VecDeque<(usize, Vec<Arc<i32>>)>> =
        (0..run.workers()).map(|_| VecDeque::new()).collect();
    let mut arrival: VecDeque<usize> = VecDeque::new();
    loop {
        match run.next::<String, &'static str, Task, NoopObserver>(dag, &mut obs)? {
            Step::Dispatch { id, args } => {
                let mut task = Some((id, args));
                for _ in 0..queues.len() {
                    let w = run.next_worker_slot(dag);
                    if queues[w].len() < per_worker {
                        queues[w].push_back(task.take().unwrap());
                        arrival.push_back(w);
                        run.dispatched(dag, w, &mut obs);
                        break;
                    }
                }
                if let Some((_, args)) = task {
                    assert!(run.in_flight() > 0);
                    run.all_full(dag, args);
                }
            }
            Step::Wait => {
                let w = arrival.pop_front().unwrap();
                let (id, args) = queues[w].pop_front().unwrap();
                let result = match dag.node_kind(id) {
                    NodeKind::Task(f) => f(&args),
                    NodeKind::Source(_) => unreachable!(),
                };
                assert!(run.is_running(id));
                run.complete(dag, id, result, &mut obs)?;
            }
            Step::Done => break,
        }
    }
    run.into_outputs(dag, &outputs)
}

fn run_sequential(exec: &Executor, dag: &Dag<String, i32, Task>, outputs: Vec<String>) -> Outputs {
    exec.run_sequential(dag, outputs)
}

#[test]
fn parallel_correctness() {
    let counter_d = Arc::new(AtomicUsize::new(0));
    let dag = build_add_chain_dag(Arc::clone(&counter_d));

    let exec = Executor::new(parallel_config());
    let out = run_parallel(&exec, &dag, vec!["d".into()]).unwrap();

    assert_eq!(*out["d"], 5);
    assert_eq!(counter_d.load(Ordering::SeqCst), 1);
}

#[test]
fn parallel_matches_sequential_on_simple_dag() {
    let counter_d = Arc::new(AtomicUsize::new(0));
    let dag = build_add_chain_dag(Arc::clone(&counter_d));

    let exec_seq = Executor::new(ExecutorConfig::with_workers(4));
    let exec_par = Executor::new(parallel_config());

    let out_seq = run_sequential(&exec_seq, &dag, vec!["d".into(), "c".into()]).unwrap();
    let out_par = run_parallel(&exec_par, &dag, vec!["d".into(), "c".into()]).unwrap();

    assert_eq!(*out_seq["c"], *out_par["c"]);
    assert_eq!(*out_seq["d"], *out_par["d"]);
}

#[test]
fn parallel_prunes_unused_subgraph() {
    let counter_d = Arc::new(AtomicUsize::new(0));
    let dag = build_add_chain_dag(Arc::clone(&counter_d));

    let exec = Executor::new(parallel_config());
    let out = run_parallel(&exec, &dag, vec!["c".into()]).unwrap();

    assert_eq!(*out["c"], 3);
    assert_eq!(counter_d.load(Ordering::SeqCst), 0);
}

#[test]
fn parallel_detects_cycle() {
    let dag = build_cycle_dag();

    let exec = Executor::new(parallel_config());
    let err = run_parallel(&exec, &dag, vec!["a".into()]).unwrap_err();

    match err {
        ExecError::Cycle { remaining } => assert!(!remaining.is_empty()),
        _ => panic!("unexpected err: {err:?}"),
    }
}

#[test]
fn parallel_propagates_task_failure() {
    let dag = build_failing_dag();

    let exec = Executor::new(parallel_config());
    let err = run_parallel(&exec, &dag, vec!["c".into()]).unwrap_err();

    match err {
        ExecError::TaskFailed { task, .. } => assert_eq!(task, "c"),
        _ => panic!("unexpected err: {err:?}"),
    }
}

#[test]
fn parallel_no_hang_on_task_failure_repeat() {
    let dag = build_failing_dag();
    let exec = Executor::new(parallel_config());

    for _ in 0..100 {
        let err = run_parallel(&exec, &dag, vec!["c".into()]).unwrap_err();
        match err {
            ExecError::TaskFailed { task, .. } => assert_eq!(task, "c"),
            _ => panic!("unexpected err: {err:?}"),
        }
    }
}

#[test]
fn parallel_dispatches_up_to_cap_before_waiting() {
    // Four tasks ready at once; with a cap of two, exactly two are handed out before the
    // scheduler waits for a result.
    let mut b = DagBuilder::<String, i32, Task>::new();
    b.add_source("s".into(), 1).unwrap();
    for k in ["t1", "t2", "t3", "t4"] {
        b.add_task(k.into(), vec!["s".into()], Box::new(|xs: &[Arc<i32>]| Ok(*xs[0] + 1)))
            .unwrap();
    }
    let dag = b.build().unwrap();
    let cfg = ExecutorConfig { max_workers: 4, max_in_flight: 2, worker_queue_cap: 4 };
    let exec = Executor::new(cfg);
    let outputs: Vec<String> = ["t1", "t2", "t3", "t4"].iter().map(|k| k.to_string()).collect();
    let mut obs = NoopObserver::new();
    let mut run = exec
        .start_parallel::<String, i32, &'static str, Task, NoopObserver>(&dag, &outputs, &mut obs)
        .unwrap();
    let mut handed_out = 0;
    loop {
        match run.next::<String, &'static str, Task, NoopObserver>(&dag, &mut obs).unwrap() {
            Step::Dispatch { .. } => {
                let w = run.next_worker_slot(&dag);
                run.dispatched(&dag, w, &mut obs);
                handed_out += 1;
            }
            Step::Wait => break,
            Step::Done => panic!("finished without running the tasks"),
        }
    }
    assert_eq!(handed_out, 2);
    assert_eq!(run.in_flight(), 2);
}
