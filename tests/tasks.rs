use taskflow::status::TaskStatus;
use taskflow::task::{EchoTaskJob, SleepTaskJob, Task, TaskJob};

#[test]
fn echo_finishes_when_run() {
    let mut t = EchoTaskJob::new("Hello");
    assert_eq!(t.get_status(), TaskStatus::Pending);
    assert_eq!(t.value(), "Hello");
    t.poll(100);
    assert_eq!(t.get_status(), TaskStatus::Pending);
    t.run(0);
    assert_eq!(t.get_status(), TaskStatus::Done);
}

#[test]
fn sleep_runs_for_its_duration() {
    let mut t = SleepTaskJob::new(3);
    assert_eq!(t.get_status(), TaskStatus::Pending);
    assert_eq!(t.wake_time(), None);
    t.poll(1_000);
    assert_eq!(t.get_status(), TaskStatus::Pending);
    t.run(10);
    assert_eq!(t.get_status(), TaskStatus::Running);
    assert_eq!(t.wake_time(), Some(13));
    t.poll(12);
    assert_eq!(t.get_status(), TaskStatus::Running);
    t.poll(9);
    assert_eq!(t.get_status(), TaskStatus::Running);
    t.poll(13);
    assert_eq!(t.get_status(), TaskStatus::Done);
    assert_eq!(t.wake_time(), None);
}

#[test]
fn polling_done_task_keeps_it_done() {
    let mut t = Task::Sleep(SleepTaskJob::new(1));
    t.run(0);
    t.poll(1);
    assert_eq!(t.get_status(), TaskStatus::Done);
    for now in [0u64, 1, 2, 500, u64::MAX] {
        t.poll(now);
        assert_eq!(t.get_status(), TaskStatus::Done);
    }
    let mut e = Task::Echo(EchoTaskJob::new("z"));
    e.run(0);
    for now in 0u64..10 {
        e.poll(now);
        assert_eq!(e.get_status(), TaskStatus::Done);
    }
}

#[test]
fn wake_time_saturates_at_clock_limit() {
    let mut t = Task::Sleep(SleepTaskJob::new(u64::MAX));
    t.run(5);
    assert_eq!(t.wake_time(), Some(u64::MAX));
    t.poll(u64::MAX);
    assert_eq!(t.get_status(), TaskStatus::Running);
}

#[test]
fn status_is_done_only_for_done() {
    assert!(TaskStatus::Done.is_done());
    assert!(!TaskStatus::Running.is_done());
    assert!(!TaskStatus::Pending.is_done());
}
