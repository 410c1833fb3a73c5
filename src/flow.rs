use std::collections::HashMap;
use vstd::prelude::*;

use crate::graph::{validate_graph, validation, GraphError};
use crate::model::{
    all_done, lemma_next_wakeup, lemma_ready_upto, lemma_stable_polled, lemma_step_progress, lemma_stepped_forward, next_wakeup_of,
    polled_all, prerequisites_done, ready, ready_upto, remaining, settle, settle_started, stepped,
};
use crate::status::TaskStatus;
use crate::task::{Task, TaskJob, TaskState};

verus! {

/// The abstract states of a sequence of tasks.
pub open spec fn states(tasks: Seq<Task>) -> Seq<TaskState> {
    Seq::new(tasks.len(), |i: int| tasks[i]@)
}

/// Abstract state of a [`FlowJob`].
pub struct FlowState {
    pub tasks: Seq<TaskState>,
    pub deps: Map<usize, Vec<usize>>,
}

/// What one iteration of the scheduler loop did.
pub struct StepReport {
    /// Every task reported `Done` in the poll phase of the iteration.
    pub finished: bool,
    /// The tasks started in the dispatch phase, in increasing order.
    pub started: Vec<usize>,
    /// The iteration changed some task's status.
    pub changed: bool,
}

/// What [`FlowJob::run_until_idle`] did.
pub struct RunReport {
    /// Every task is `Done`: the run is over.
    pub finished: bool,
    /// The tasks started, in the order in which they were started.
    pub started: Vec<usize>,
}

/// A set of tasks, identified by position, and the dependency map that orders
/// them. It owns both for the duration of a run.
pub struct FlowJob {
    task_jobs: Vec<Task>,
    dependencies: HashMap<usize, Vec<usize>>,
}

impl View for FlowJob {
    type V = FlowState;

    closed spec fn view(&self) -> FlowState {
        FlowState { tasks: states(self.task_jobs@), deps: self.dependencies@ }
    }
}

impl FlowJob {
    pub fn new(task_jobs: Vec<Task>, dependencies: HashMap<usize, Vec<usize>>) -> (r: FlowJob)
        ensures
            r@.tasks == states(task_jobs@),
            r@.deps == dependencies@,
    {
        FlowJob { task_jobs, dependencies }
    }

    /// Checks the dependency graph before a run: see [`validate_graph`].
    pub fn validate(&self) -> (r: Result<(), GraphError>)
        ensures
            validation(self@.deps, self@.tasks.len(), r),
    {
        validate_graph(&self.dependencies, self.task_jobs.len())
    }

    /// The number of tasks.
    pub fn len(&self) -> (r: usize)
        ensures
            r == self@.tasks.len(),
    {
        self.task_jobs.len()
    }

    /// The task with identifier `id`.
    pub fn task(&self, id: usize) -> (r: &Task)
        requires
            id < self@.tasks.len(),
        ensures
            r@ == self@.tasks[id as int],
    {
        &self.task_jobs[id]
    }

    /// The status that task `id` reports.
    pub fn status(&self, id: usize) -> (r: TaskStatus)
        requires
            id < self@.tasks.len(),
        ensures
            r == self@.tasks[id as int].status(),
    {
        self.task_jobs[id].get_status()
    }

    /// Whether every task reports `Done`.
    pub fn all_done(&self) -> (r: bool)
        ensures
            r == all_done(self@.tasks),
    {
        let mut i: usize = 0;
        while i < self.task_jobs.len()
            invariant
                i <= self.task_jobs@.len(),
                forall|j: int| 0 <= j < i ==> #[trigger] self@.tasks[j].status() == TaskStatus::Done,
            decreases self.task_jobs.len() - i,
        {
            assert(self@.tasks[i as int] == self.task_jobs@[i as int]@);
            if self.task_jobs[i].get_status() != TaskStatus::Done {
                return false;
            }
            i = i + 1;
        }
        true
    }

    /// The earliest clock reading at which a running task may finish; `None`
    /// when no task is waiting on the clock. A driver that has settled the
    /// tasks at some reading need not look again before this one.
    pub fn next_wakeup(&self) -> (r: Option<u64>)
        ensures
            r == next_wakeup_of(self@.tasks),
            r is None <==> forall|i: int|
                0 <= i < self@.tasks.len() ==> !#[trigger] self@.tasks[i].waiting(),
            r is Some ==> exists|i: int|
                0 <= i < self@.tasks.len() && #[trigger] self@.tasks[i].waiting()
                    && self@.tasks[i].wake_time() == r->0,
            r is Some ==> forall|i: int|
                0 <= i < self@.tasks.len() && #[trigger] self@.tasks[i].waiting() ==> r->0
                    <= self@.tasks[i].wake_time(),
    {
        proof {
            lemma_next_wakeup(self@.tasks);
        }
        let mut best: Option<u64> = None;
        let mut i: usize = 0;
        while i < self.task_jobs.len()
            invariant
                i <= self.task_jobs@.len(),
                best == next_wakeup_of(self@.tasks.subrange(0, i as int)),
            decreases self.task_jobs.len() - i,
        {
            let w = self.task_jobs[i].wake_time();
            proof {
                let s = self@.tasks.subrange(0, i + 1);
                assert(s.drop_last() =~= self@.tasks.subrange(0, i as int));
                assert(s.last() == self.task_jobs@[i as int]@);
            }
            match w {
                Some(t) => {
                    match best {
                        Some(b) => {
                            if t < b {
                                best = Some(t);
                            }
                        },
                        None => {
                            best = Some(t);
                        },
                    }
                },
                None => {},
            }
            i = i + 1;
        }
        proof {
            assert(self@.tasks.subrange(0, self@.tasks.len() as int) =~= self@.tasks);
        }
        best
    }

    /// Runs scheduler iterations at clock reading `now` until one changes
    /// nothing: every task that can start or finish at `now` has done so.
    pub fn run_until_idle(&mut self, now: u64) -> (r: RunReport)
        ensures
            final(self)@.deps == old(self)@.deps,
            final(self)@.tasks == settle(old(self)@.tasks, old(self)@.deps, now),
            r.started@ == settle_started(old(self)@.tasks, old(self)@.deps, now),
            r.finished == all_done(final(self)@.tasks),
    {
        let ghost tasks0 = self@.tasks;
        let ghost deps = self@.deps;
        let mut all: Vec<usize> = Vec::new();
        loop
            invariant
                tasks0 == old(self)@.tasks,
                deps == old(self)@.deps,
                self@.deps == deps,
                self@.tasks.len() == self.task_jobs@.len(),
                settle(self@.tasks, deps, now) == settle(tasks0, deps, now),
                all@ + settle_started(self@.tasks, deps, now) == settle_started(tasks0, deps, now),
            decreases remaining(self@.tasks),
        {
            let ghost before = self@.tasks;
            // the length of a vector fits in usize
            let _len = self.task_jobs.len();
            let mut report = self.step(now);
            proof {
                lemma_step_progress(before, deps, now);
                assert(self@.tasks.len() == self.task_jobs@.len());
            }
            let ghost step_started = report.started@;
            all.append(&mut report.started);
            if !report.changed {
                proof {
                    lemma_stable_polled(before, deps, now);
                    assert(settle(before, deps, now) == before);
                    assert(all@ =~= settle_started(tasks0, deps, now)) by {
                        assert(settle_started(before, deps, now) == step_started);
                    }
                }
                return RunReport { finished: report.finished, started: all };
            }
            proof {
                assert(settle_started(before, deps, now) == step_started + settle_started(
                    self@.tasks,
                    deps,
                    now,
                ));
                assert(all@ + settle_started(self@.tasks, deps, now) =~= (all@.subrange(
                    0,
                    all@.len() - step_started.len(),
                ) + step_started) + settle_started(self@.tasks, deps, now));
            }
        }
    }

    /// One iteration of the scheduler loop at clock reading `now`: poll every
    /// task, collect the pending tasks whose prerequisites are all done, then
    /// start them.
    pub fn step(&mut self, now: u64) -> (r: StepReport)
        ensures
            final(self)@.deps == old(self)@.deps,
            final(self)@.tasks == stepped(old(self)@.tasks, old(self)@.deps, now),
            r.finished == all_done(polled_all(old(self)@.tasks, now)),
            r.started@ == ready_upto(
                polled_all(old(self)@.tasks, now),
                old(self)@.deps,
                old(self)@.tasks.len(),
            ),
            r.changed == (remaining(final(self)@.tasks) < remaining(old(self)@.tasks)),
            forall|x: int|
                0 <= x < r.started@.len() ==> prerequisites_done(
                    polled_all(old(self)@.tasks, now),
                    old(self)@.deps,
                    #[trigger] r.started@[x],
                ),
            forall|i: int|
                0 <= i < old(self)@.tasks.len() ==> #[trigger] old(self)@.tasks[i].status().may_become(
                    final(self)@.tasks[i].status(),
                ),
            forall|i: int|
                0 <= i < old(self)@.tasks.len() && old(self)@.tasks[i].status()
                    == TaskStatus::Pending && final(self)@.tasks[i].status()
                    != TaskStatus::Pending ==> r.started@.contains(i as usize),
    {
        let n = self.task_jobs.len();
        let ghost tasks0 = self@.tasks;
        let ghost deps = self@.deps;
        let ghost p = polled_all(tasks0, now);
        let mut changed = false;
        let mut i: usize = 0;
        while i < n
            invariant
                i <= n,
                n == self.task_jobs@.len(),
                n == tasks0.len(),
                p == polled_all(tasks0, now),
                self.dependencies@ == deps,
                forall|j: int| 0 <= j < i ==> #[trigger] self.task_jobs@[j]@ == p[j],
                forall|j: int| i <= j < n ==> #[trigger] self.task_jobs@[j]@ == tasks0[j],
                changed == exists|j: int| 0 <= j < i && #[trigger] p[j] != tasks0[j],
            decreases n - i,
        {
            let before = self.task_jobs[i].get_status();
            self.task_jobs[i].poll(now);
            let after = self.task_jobs[i].get_status();
            if before != after {
                changed = true;
            }
            proof {
                assert(self.task_jobs@[i as int]@ == p[i as int]);
                assert(p[i as int] != tasks0[i as int] <==> before != after);
            }
            i = i + 1;
        }
        proof {
            assert(states(self.task_jobs@) =~= p);
        }
        let mut started: Vec<usize> = Vec::new();
        let mut finished = true;
        let mut i: usize = 0;
        while i < n
            invariant
                i <= n,
                n == self.task_jobs@.len(),
                n == p.len(),
                self.dependencies@ == deps,
                states(self.task_jobs@) == p,
                started@ == ready_upto(p, deps, i as nat),
                finished == forall|j: int| 0 <= j < i ==> #[trigger] p[j].status() == TaskStatus::Done,
            decreases n - i,
        {
            let status = self.task_jobs[i].get_status();
            assert(status == p[i as int].status()) by {
                assert(states(self.task_jobs@)[i as int] == self.task_jobs@[i as int]@);
            }
            if status != TaskStatus::Done {
                finished = false;
            }
            if status == TaskStatus::Pending {
                if let Some(list) = self.dependencies.get(&i) {
                    let mut all_deps_done = true;
                    let mut k: usize = 0;
                    while k < list.len()
                        invariant
                            k <= list@.len(),
                            n == self.task_jobs@.len(),
                            states(self.task_jobs@) == p,
                            deps.contains_key(i),
                            *list == deps[i],
                            all_deps_done == forall|k2: int|
                                0 <= k2 < k ==> #[trigger] list@[k2] < n && p[list@[k2] as int].status()
                                    == TaskStatus::Done,
                        decreases list.len() - k,
                    {
                        let d = list[k];
                        if d >= n {
                            all_deps_done = false;
                        } else {
                            assert(states(self.task_jobs@)[d as int] == self.task_jobs@[d as int]@);
                            if self.task_jobs[d].get_status() != TaskStatus::Done {
                                all_deps_done = false;
                            }
                        }
                        k = k + 1;
                    }
                    if all_deps_done {
                        started.push(i);
                    }
                }
            }
            i = i + 1;
        }
        proof {
            assert(finished == all_done(p));
            lemma_ready_upto(p, deps, n as nat);
        }
        let ghost target = stepped(tasks0, deps, now);
        let mut x: usize = 0;
        while x < started.len()
            invariant
                x <= started@.len(),
                n == self.task_jobs@.len(),
                self.dependencies@ == deps,
                started@ == ready_upto(p, deps, n as nat),
                forall|y: usize| started@.contains(y) <==> y < n && ready(p, deps, y),
                forall|a: int, b: int| 0 <= a < b < started@.len() ==> started@[a] < started@[b],
                forall|j: int|
                    0 <= j < n ==> #[trigger] self.task_jobs@[j]@ == if started@.subrange(
                        0,
                        x as int,
                    ).contains(j as usize) {
                        p[j].started(now)
                    } else {
                        p[j]
                    },
            decreases started.len() - x,
        {
            let id = started[x];
            proof {
                assert(started@.contains(id));
                assert(!started@.subrange(0, x as int).contains(id)) by {
                    if started@.subrange(0, x as int).contains(id) {
                        let a = choose|a: int| 0 <= a < x && #[trigger] started@.subrange(0, x as int)[a] == id;
                        assert(started@[a] < started@[x as int]);
                    }
                }
            }
            self.task_jobs[id].run(now);
            proof {
                assert forall|j: int| 0 <= j < n implies #[trigger] self.task_jobs@[j]@ == if started@.subrange(
                    0,
                    x + 1,
                ).contains(j as usize) {
                    p[j].started(now)
                } else {
                    p[j]
                } by {
                    let s0 = started@.subrange(0, x as int);
                    let s1 = started@.subrange(0, x + 1);
                    assert(s1 =~= s0.push(id));
                    if s1.contains(j as usize) && j as usize != id {
                        let a = choose|a: int| 0 <= a < s1.len() && #[trigger] s1[a] == j as usize;
                        assert(s0[a] == j as usize);
                    }
                    if s0.contains(j as usize) {
                        let a = choose|a: int| 0 <= a < s0.len() && #[trigger] s0[a] == j as usize;
                        assert(s1[a] == j as usize);
                    }
                    if j as usize == id {
                        assert(s1[x as int] == id);
                    }
                }
            }
            x = x + 1;
        }
        proof {
            assert(started@.subrange(0, started@.len() as int) =~= started@);
            assert(states(self.task_jobs@) =~= target);
            lemma_step_progress(tasks0, deps, now);
            lemma_stepped_forward(tasks0, deps, now);
            assert forall|x: int| 0 <= x < started@.len() implies prerequisites_done(
                p,
                deps,
                #[trigger] started@[x],
            ) by {
                assert(started@.contains(started@[x]));
            }
            if changed {
                let j = choose|j: int| 0 <= j < n && #[trigger] p[j] != tasks0[j];
                assert(target[j] != tasks0[j]);
            }
            if started@.len() > 0 {
                assert(started@.contains(started@[0]));
                assert(target[started@[0] as int] != tasks0[started@[0] as int]);
            }
            if target != tasks0 && !changed {
                if forall|j: int| 0 <= j < n ==> target[j] == tasks0[j] {
                    assert(target =~= tasks0);
                }
                let j = choose|j: int| 0 <= j < n && target[j] != tasks0[j];
                assert(p[j] == tasks0[j]);
                assert(started@.contains(j as usize));
            }
        }
        let changed = changed || started.len() > 0;
        StepReport { finished, started, changed }
    }
}

} // verus!
