use vstd::prelude::*;

use crate::status::TaskStatus;

verus! {

/// What every kind of task offers to the scheduler: start it, give it a chance
/// to notice that its work is over, and report its status.
///
/// Time is a caller-supplied reading `now` of a monotonic clock; durations are
/// in the same unit as that reading.
pub trait TaskJob {
    /// The status the task reports.
    spec fn current_status(&self) -> TaskStatus;

    /// Starts the task. A task that finishes at once reports `Done` afterwards;
    /// any other reports `Running`.
    fn run(&mut self, now: u64)
        requires
            old(self).current_status() == TaskStatus::Pending,
        ensures
            final(self).current_status() != TaskStatus::Pending,
    ;

    fn get_status(&self) -> (r: TaskStatus)
        ensures
            r == self.current_status(),
    ;

    /// Re-examines a running task. Outside `Running` this leaves the status
    /// alone; a running task either keeps running or becomes `Done`.
    fn poll(&mut self, now: u64)
        ensures
            old(self).current_status() != TaskStatus::Running ==> final(self).current_status()
                == old(self).current_status(),
            old(self).current_status() == TaskStatus::Running ==> final(self).current_status()
                != TaskStatus::Pending,
    ;
}

/// Abstract state of an [`EchoTaskJob`].
pub struct EchoState {
    pub status: TaskStatus,
    pub value: Seq<char>,
}

/// Abstract state of a [`SleepTaskJob`].
pub struct SleepState {
    pub status: TaskStatus,
    /// How long the task runs once started.
    pub duration: u64,
    /// The clock reading at which the task was started.
    pub start: Option<u64>,
}

impl EchoState {
    /// An echo task never rests in `Running`: its work is done inside `run`.
    pub open spec fn wf(self) -> bool {
        self.status != TaskStatus::Running
    }

    pub open spec fn started(self) -> EchoState {
        EchoState { status: TaskStatus::Done, ..self }
    }
}

impl SleepState {
    /// A sleep task has a start time exactly when it has left `Pending`.
    pub open spec fn wf(self) -> bool {
        (self.status == TaskStatus::Pending) == (self.start is None)
    }

    /// The clock reading from which on the task counts as finished.
    pub open spec fn deadline(self) -> int {
        match self.start {
            Some(s) => s + self.duration,
            None => 0,
        }
    }

    /// Whether a poll at `now` finds a running task's duration elapsed since
    /// its start.
    pub open spec fn elapsed_at(self, now: u64) -> bool {
        self.status == TaskStatus::Running && self.start is Some && now >= self.deadline()
    }

    /// A running task with a start time: a later poll may finish it.
    pub open spec fn waiting(self) -> bool {
        self.status == TaskStatus::Running && self.start is Some
    }

    /// The deadline as a clock reading, or the clock's last reading where the
    /// deadline lies beyond it.
    pub open spec fn wake_time(self) -> u64 {
        if self.deadline() <= u64::MAX {
            self.deadline() as u64
        } else {
            u64::MAX
        }
    }

    pub open spec fn started(self, now: u64) -> SleepState {
        SleepState { status: TaskStatus::Running, start: Some(now), ..self }
    }

    pub open spec fn polled(self, now: u64) -> SleepState {
        if self.elapsed_at(now) {
            SleepState { status: TaskStatus::Done, ..self }
        } else {
            self
        }
    }
}

/// A task that finishes inside `run`; its message is what it reports on
/// finishing.
pub struct EchoTaskJob {
    status: TaskStatus,
    value: String,
}

impl View for EchoTaskJob {
    type V = EchoState;

    closed spec fn view(&self) -> EchoState {
        EchoState { status: self.status, value: self.value@ }
    }
}

impl EchoTaskJob {
    pub fn new(value: &str) -> (r: Self)
        ensures
            r@ == (EchoState { status: TaskStatus::Pending, value: value@ }),
    {
        EchoTaskJob { status: TaskStatus::Pending, value: value.to_string() }
    }

    /// The message the task reports when it runs.
    pub fn value(&self) -> (r: &str)
        ensures
            r@ == self@.value,
    {
        self.value.as_str()
    }
}

impl TaskJob for EchoTaskJob {
    open spec fn current_status(&self) -> TaskStatus {
        self@.status
    }

    fn run(&mut self, now: u64)
        ensures
            final(self)@ == old(self)@.started(),
    {
        self.status = TaskStatus::Running;
        self.status = TaskStatus::Done;
    }

    fn get_status(&self) -> (r: TaskStatus) {
        self.status
    }

    fn poll(&mut self, now: u64)
        ensures
            final(self)@ == old(self)@,
    {
    }
}

/// A task that finishes once a fixed duration has passed since it was started,
/// which a poll discovers.
pub struct SleepTaskJob {
    status: TaskStatus,
    duration: u64,
    start: Option<u64>,
}

impl View for SleepTaskJob {
    type V = SleepState;

    closed spec fn view(&self) -> SleepState {
        SleepState { status: self.status, duration: self.duration, start: self.start }
    }
}

impl SleepTaskJob {
    /// A pending task that runs for `value` clock units once started.
    pub fn new(value: u64) -> (r: Self)
        ensures
            r@ == (SleepState { status: TaskStatus::Pending, duration: value, start: None }),
    {
        SleepTaskJob { status: TaskStatus::Pending, duration: value, start: None }
    }
}

impl SleepTaskJob {
    /// When a running task should next be polled: see [`SleepState::wake_time`].
    pub fn wake_time(&self) -> (r: Option<u64>)
        ensures
            r == if self@.waiting() {
                Some(self@.wake_time())
            } else {
                None::<u64>
            },
    {
        if self.status == TaskStatus::Running {
            match self.start {
                Some(start) => {
                    if start <= u64::MAX - self.duration {
                        Some(start + self.duration)
                    } else {
                        Some(u64::MAX)
                    }
                },
                None => None,
            }
        } else {
            None
        }
    }
}

impl TaskJob for SleepTaskJob {
    open spec fn current_status(&self) -> TaskStatus {
        self@.status
    }

    fn run(&mut self, now: u64)
        ensures
            final(self)@ == old(self)@.started(now),
    {
        self.status = TaskStatus::Running;
        self.start = Some(now);
    }

    fn get_status(&self) -> (r: TaskStatus) {
        self.status
    }

    fn poll(&mut self, now: u64)
        ensures
            final(self)@ == old(self)@.polled(now),
    {
        if self.status == TaskStatus::Running {
            if let Some(start) = self.start {
                if now >= start && now - start >= self.duration {
                    self.status = TaskStatus::Done;
                }
            }
        }
    }
}

/// Abstract state of a [`Task`].
pub enum TaskState {
    Echo(EchoState),
    Sleep(SleepState),
}

impl TaskState {
    pub open spec fn status(self) -> TaskStatus {
        match self {
            TaskState::Echo(e) => e.status,
            TaskState::Sleep(s) => s.status,
        }
    }

    pub open spec fn wf(self) -> bool {
        match self {
            TaskState::Echo(e) => e.wf(),
            TaskState::Sleep(s) => s.wf(),
        }
    }

    /// The state after `run` at clock reading `now`.
    pub open spec fn started(self, now: u64) -> TaskState {
        match self {
            TaskState::Echo(e) => TaskState::Echo(e.started()),
            TaskState::Sleep(s) => TaskState::Sleep(s.started(now)),
        }
    }

    /// The state after `poll` at clock reading `now`.
    pub open spec fn polled(self, now: u64) -> TaskState {
        match self {
            TaskState::Echo(e) => self,
            TaskState::Sleep(s) => TaskState::Sleep(s.polled(now)),
        }
    }

    /// A running sleep task, which only a later clock reading can finish.
    pub open spec fn waiting(self) -> bool {
        match self {
            TaskState::Echo(e) => false,
            TaskState::Sleep(s) => s.waiting(),
        }
    }

    pub open spec fn deadline(self) -> int {
        match self {
            TaskState::Echo(e) => 0,
            TaskState::Sleep(s) => s.deadline(),
        }
    }

    pub open spec fn wake_time(self) -> u64 {
        match self {
            TaskState::Echo(e) => 0,
            TaskState::Sleep(s) => s.wake_time(),
        }
    }

    /// Whether a poll at `now` moves the task from `Running` to `Done`.
    pub open spec fn elapsed_at(self, now: u64) -> bool {
        match self {
            TaskState::Echo(e) => false,
            TaskState::Sleep(s) => s.elapsed_at(now),
        }
    }
}

/// The kinds of task the scheduler runs.
pub enum Task {
    Echo(EchoTaskJob),
    Sleep(SleepTaskJob),
}

impl View for Task {
    type V = TaskState;

    open spec fn view(&self) -> TaskState {
        match self {
            Task::Echo(e) => TaskState::Echo(e@),
            Task::Sleep(s) => TaskState::Sleep(s@),
        }
    }
}

impl Task {
    /// The message an echo task reports when it runs; `None` for other kinds.
    pub fn message(&self) -> (r: Option<&str>)
        ensures
            match self@ {
                TaskState::Echo(e) => r is Some && r->0@ == e.value,
                TaskState::Sleep(_) => r is None,
            },
    {
        match self {
            Task::Echo(e) => Some(e.value()),
            Task::Sleep(_) => None,
        }
    }
}

impl Task {
    /// When the task should next be polled; `None` unless it is a running
    /// sleep task.
    pub fn wake_time(&self) -> (r: Option<u64>)
        ensures
            r == if self@.waiting() {
                Some(self@.wake_time())
            } else {
                None::<u64>
            },
    {
        match self {
            Task::Echo(_) => None,
            Task::Sleep(s) => s.wake_time(),
        }
    }
}

impl TaskJob for Task {
    open spec fn current_status(&self) -> TaskStatus {
        self@.status()
    }

    fn run(&mut self, now: u64)
        ensures
            final(self)@ == old(self)@.started(now),
    {
        match self {
            Task::Echo(e) => e.run(now),
            Task::Sleep(s) => s.run(now),
        }
    }

    fn get_status(&self) -> (r: TaskStatus) {
        match self {
            Task::Echo(e) => e.get_status(),
            Task::Sleep(s) => s.get_status(),
        }
    }

    fn poll(&mut self, now: u64)
        ensures
            final(self)@ == old(self)@.polled(now),
    {
        match self {
            Task::Echo(e) => e.poll(now),
            Task::Sleep(s) => s.poll(now),
        }
    }
}

} // verus!
