use std::sync::{
    Arc,
    atomic::{AtomicUsize, Ordering},
};

use dag_exec::{Dag, DagBuilder, ExecError, Executor, ExecutorConfig};

type Task = Box<dyn Fn(&[Arc<i32>]) -> Result<i32, &'static str> + Send + Sync>;

fn build_add_chain_dag(counter_d: Arc<AtomicUsize>) -> Dag<String, i32, Task> {
    // a=1, b=2, c=a+b, d=c+b (d increments counter when executed)
    let mut b = DagBuilder::<String, i32, Task>::new();
    b.add_source("a".into(), 1).unwrap();
    b.add_source("b".into(), 2).unwrap();

    b.add_task(
        "c".into(),
        vec!["a".into(), "b".into()],
        Box::new(|xs: &[Arc<i32>]| Ok(*xs[0] + *xs[1])),
    )
    .unwrap();

    b.add_task(
        "d".into(),
        vec!["c".into(), "b".into()],
        Box::new(move |xs: &[Arc<i32>]| {
            counter_d.fetch_add(1, Ordering::SeqCst);
            Ok(*xs[0] + *xs[1])
        }),
    )
    .unwrap();

    b.build().unwrap()
}

fn build_cycle_dag() -> Dag<String, i32, Task> {
    let mut b = DagBuilder::<String, i32, Task>::new();
    b.add_task("a".into(), vec!["b".into()], Box::new(|_xs: &[Arc<i32>]| Ok(1)))
        .unwrap();
    b.add_task("b".into(), vec!["a".into()], Box::new(|_xs: &[Arc<i32>]| Ok(1)))
        .unwrap();
    b.build().unwrap()
}

fn build_failing_dag() -> Dag<String, i32, Task> {
    let mut b = DagBuilder::<String, i32, Task>::new();
    b.add_source("a".into(), 1).unwrap();
    b.add_task("c".into(), vec!["a".into()], Box::new(|_xs: &[Arc<i32>]| Err("boom")))
        .unwrap();
    b.build().unwrap()
}

#[test]
fn sequential_correctness() {
    let counter_d = Arc::new(AtomicUsize::new(0));
    let dag = build_add_chain_dag(Arc::clone(&counter_d));

    let exec = Executor::new(ExecutorConfig::with_workers(4));
    let out = exec.run_sequential(&dag, vec!["d".into()]).unwrap();

    assert_eq!(*out["d"], 5);
    assert_eq!(counter_d.load(Ordering::SeqCst), 1);
}

#[test]
fn sequential_prunes_unused_subgraph() {
    let counter_d = Arc::new(AtomicUsize::new(0));
    let dag = build_add_chain_dag(Arc::clone(&counter_d));

    let exec = Executor::new(ExecutorConfig::with_workers(4));
    let out = exec.run_sequential(&dag, vec!["c".into()]).unwrap();

    assert_eq!(*out["c"], 3);
    // d is not needed to compute c
    assert_eq!(counter_d.load(Ordering::SeqCst), 0);
}

#[test]
fn sequential_detects_cycle() {
    let dag = build_cycle_dag();
    let exec = Executor::new(ExecutorConfig::with_workers(4));

    let err = exec.run_sequential(&dag, vec!["a".into()]).unwrap_err();
    match err {
        ExecError::Cycle { remaining } => assert!(!remaining.is_empty()),
        _ => panic!("unexpected err: {err:?}"),
    }
}

#[test]
fn sequential_propagates_task_failure() {
    let dag = build_failing_dag();
    let exec = Executor::new(ExecutorConfig::with_workers(4));

    let err = exec.run_sequential(&dag, vec!["c".into()]).unwrap_err();
    match err {
        ExecError::TaskFailed { task, .. } => assert_eq!(task, "c"),
        _ => panic!("unexpected err: {err:?}"),
    }
}
