use vstd::prelude::*;

verus! {

/// The lifecycle of a task: `Pending`, then `Running`, then `Done`.
#[derive(Clone, Copy, Debug, PartialEq, Eq, Structural)]
pub enum TaskStatus {
    Pending,
    Running,
    Done,
}

impl TaskStatus {
    /// Position of the status along the lifecycle.
    pub open spec fn rank(self) -> nat {
        match self {
            TaskStatus::Pending => 0,
            TaskStatus::Running => 1,
            TaskStatus::Done => 2,
        }
    }

    /// Whether a task may be observed at `self` and later at `next`.
    pub open spec fn may_become(self, next: TaskStatus) -> bool {
        self.rank() <= next.rank()
    }

    pub fn is_done(&self) -> (r: bool)
        ensures
            r == (*self == TaskStatus::Done),
    {
        matches!(self, TaskStatus::Done)
    }
}

} // verus!
