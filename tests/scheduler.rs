use std::collections::HashMap;

use taskflow::flow::FlowJob;
use taskflow::status::TaskStatus;
use taskflow::task::{EchoTaskJob, SleepTaskJob, Task, TaskJob};

fn chain_of_three() -> FlowJob {
    let tasks = vec![
        Task::Echo(EchoTaskJob::new("Hello")),
        Task::Sleep(SleepTaskJob::new(3000)),
        Task::Echo(EchoTaskJob::new("World")),
    ];
    let mut deps: HashMap<usize, Vec<usize>> = HashMap::new();
    deps.insert(0, vec![]);
    deps.insert(1, vec![0]);
    deps.insert(2, vec![1]);
    FlowJob::new(tasks, deps)
}

#[test]
fn chain_runs_in_dependency_order() {
    let mut flow = chain_of_three();
    assert_eq!(flow.validate(), Ok(()));

    let r = flow.step(0);
    assert!(!r.finished);
    assert_eq!(r.started, vec![0]);
    assert!(r.changed);
    assert_eq!(flow.status(0), TaskStatus::Done);
    assert_eq!(flow.status(1), TaskStatus::Pending);

    let r = flow.step(0);
    assert_eq!(r.started, vec![1]);
    assert_eq!(flow.status(1), TaskStatus::Running);
    assert_eq!(flow.status(2), TaskStatus::Pending);

    for now in [0u64, 1000, 2999] {
        let r = flow.step(now);
        assert!(!r.finished);
        assert!(r.started.is_empty());
        assert!(!r.changed);
        assert_eq!(flow.status(1), TaskStatus::Running);
        assert_eq!(flow.status(2), TaskStatus::Pending);
    }

    let r = flow.step(3000);
    assert!(!r.finished);
    assert_eq!(r.started, vec![2]);
    assert_eq!(flow.status(1), TaskStatus::Done);
    assert_eq!(flow.status(2), TaskStatus::Done);

    let r = flow.step(3000);
    assert!(r.finished);
    assert!(r.started.is_empty());
    assert!(flow.all_done());
}

#[test]
fn chain_settles_between_wakeups() {
    let mut flow = chain_of_three();
    assert_eq!(flow.next_wakeup(), None);

    let r = flow.run_until_idle(10);
    assert!(!r.finished);
    assert_eq!(r.started, vec![0, 1]);
    assert_eq!(flow.next_wakeup(), Some(3010));

    let r = flow.run_until_idle(3009);
    assert!(!r.finished);
    assert!(r.started.is_empty());

    let r = flow.run_until_idle(3010);
    assert!(r.finished);
    assert_eq!(r.started, vec![2]);
    assert_eq!(flow.next_wakeup(), None);
    assert!(flow.all_done());
}

#[test]
fn echo_messages_are_reported() {
    let flow = chain_of_three();
    assert_eq!(flow.task(0).message(), Some("Hello"));
    assert_eq!(flow.task(1).message(), None);
    assert_eq!(flow.task(2).message(), Some("World"));
    assert_eq!(flow.len(), 3);
}

#[test]
fn task_without_entry_never_starts() {
    let tasks = vec![Task::Echo(EchoTaskJob::new("a")), Task::Echo(EchoTaskJob::new("b"))];
    let mut deps: HashMap<usize, Vec<usize>> = HashMap::new();
    deps.insert(0, vec![]);
    let mut flow = FlowJob::new(tasks, deps);
    for now in 0u64..50 {
        let r = flow.step(now * 1000);
        assert!(!r.finished);
    }
    assert_eq!(flow.status(0), TaskStatus::Done);
    assert_eq!(flow.status(1), TaskStatus::Pending);
    let r = flow.run_until_idle(1_000_000);
    assert!(!r.finished);
    assert!(r.started.is_empty());
    assert_eq!(flow.next_wakeup(), None);
}

#[test]
fn cycle_never_starts() {
    let tasks = vec![Task::Echo(EchoTaskJob::new("a")), Task::Echo(EchoTaskJob::new("b"))];
    let mut deps: HashMap<usize, Vec<usize>> = HashMap::new();
    deps.insert(0, vec![1]);
    deps.insert(1, vec![0]);
    let mut flow = FlowJob::new(tasks, deps);
    for now in 0u64..50 {
        let r = flow.step(now);
        assert!(!r.finished);
        assert!(r.started.is_empty());
    }
    assert_eq!(flow.status(0), TaskStatus::Pending);
    assert_eq!(flow.status(1), TaskStatus::Pending);
}

#[test]
fn dangling_prerequisite_never_satisfied() {
    let tasks = vec![Task::Echo(EchoTaskJob::new("a"))];
    let mut deps: HashMap<usize, Vec<usize>> = HashMap::new();
    deps.insert(0, vec![4]);
    let mut flow = FlowJob::new(tasks, deps);
    let r = flow.run_until_idle(0);
    assert!(!r.finished);
    assert_eq!(flow.status(0), TaskStatus::Pending);
}

#[test]
fn independent_tasks_start_together() {
    let tasks = vec![
        Task::Sleep(SleepTaskJob::new(5)),
        Task::Echo(EchoTaskJob::new("x")),
        Task::Echo(EchoTaskJob::new("y")),
    ];
    let mut deps: HashMap<usize, Vec<usize>> = HashMap::new();
    deps.insert(0, vec![]);
    deps.insert(1, vec![]);
    deps.insert(2, vec![0, 1]);
    let mut flow = FlowJob::new(tasks, deps);
    let r = flow.step(100);
    assert_eq!(r.started, vec![0, 1]);
    assert_eq!(flow.status(0), TaskStatus::Running);
    assert_eq!(flow.status(1), TaskStatus::Done);
    assert_eq!(flow.status(2), TaskStatus::Pending);
    // task 2 waits for both prerequisites
    let r = flow.step(104);
    assert!(r.started.is_empty());
    let r = flow.step(105);
    assert_eq!(r.started, vec![2]);
    assert!(flow.all_done());
}

#[test]
fn empty_flow_is_finished() {
    let mut flow = FlowJob::new(vec![], HashMap::new());
    assert_eq!(flow.validate(), Ok(()));
    let r = flow.step(0);
    assert!(r.finished);
    assert!(!r.changed);
    let r = flow.run_until_idle(0);
    assert!(r.finished);
}

#[test]
fn zero_length_sleep_finishes_on_next_poll() {
    let mut flow = FlowJob::new(vec![Task::Sleep(SleepTaskJob::new(0))], {
        let mut d: HashMap<usize, Vec<usize>> = HashMap::new();
        d.insert(0, vec![]);
        d
    });
    let r = flow.run_until_idle(7);
    assert!(r.finished);
    assert_eq!(r.started, vec![0]);
}
