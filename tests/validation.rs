use std::collections::HashMap;

use taskflow::flow::FlowJob;
use taskflow::graph::{validate_graph, GraphError};
use taskflow::task::{EchoTaskJob, Task};

fn deps_of(entries: &[(usize, Vec<usize>)]) -> HashMap<usize, Vec<usize>> {
    let mut d: HashMap<usize, Vec<usize>> = HashMap::new();
    for (k, v) in entries {
        d.insert(*k, v.clone());
    }
    d
}

#[test]
fn valid_chain_accepted() {
    let d = deps_of(&[(0, vec![]), (1, vec![0]), (2, vec![1, 0])]);
    assert_eq!(validate_graph(&d, 3), Ok(()));
}

#[test]
fn missing_entry_reported_least_first() {
    let d = deps_of(&[(0, vec![]), (3, vec![])]);
    assert_eq!(validate_graph(&d, 4), Err(GraphError::MissingEntry(1)));
}

#[test]
fn dangling_dependency_reported() {
    let d = deps_of(&[(0, vec![]), (1, vec![0, 9, 7]), (2, vec![8])]);
    assert_eq!(
        validate_graph(&d, 3),
        Err(GraphError::DanglingDependency { task: 1, dependency: 9 })
    );
}

#[test]
fn unknown_entry_reported() {
    let d = deps_of(&[(0, vec![]), (5, vec![0])]);
    assert_eq!(validate_graph(&d, 1), Err(GraphError::UnknownEntry));
}

#[test]
fn two_cycle_rejected() {
    let d = deps_of(&[(0, vec![1]), (1, vec![0])]);
    assert_eq!(validate_graph(&d, 2), Err(GraphError::Cycle));
}

#[test]
fn self_loop_rejected() {
    let d = deps_of(&[(0, vec![]), (1, vec![1])]);
    assert_eq!(validate_graph(&d, 2), Err(GraphError::Cycle));
}

#[test]
fn task_behind_cycle_rejected() {
    let d = deps_of(&[(0, vec![]), (1, vec![2]), (2, vec![3]), (3, vec![1]), (4, vec![0])]);
    assert_eq!(validate_graph(&d, 5), Err(GraphError::Cycle));
}

#[test]
fn diamond_accepted() {
    let d = deps_of(&[(3, vec![1, 2]), (1, vec![0]), (2, vec![0]), (0, vec![])]);
    assert_eq!(validate_graph(&d, 4), Ok(()));
}

#[test]
fn flow_validate_reports_cycle() {
    let tasks = vec![Task::Echo(EchoTaskJob::new("a")), Task::Echo(EchoTaskJob::new("b"))];
    let flow = FlowJob::new(tasks, deps_of(&[(0, vec![1]), (1, vec![0])]));
    assert_eq!(flow.validate(), Err(GraphError::Cycle));
}

#[test]
fn flow_validate_reports_missing_entry() {
    let tasks = vec![Task::Echo(EchoTaskJob::new("a")), Task::Echo(EchoTaskJob::new("b"))];
    let flow = FlowJob::new(tasks, deps_of(&[(0, vec![])]));
    assert_eq!(flow.validate(), Err(GraphError::MissingEntry(1)));
}
