use vstd::prelude::*;

use crate::status::TaskStatus;
use crate::task::TaskState;

verus! {

/// Every task's state is well formed.
pub open spec fn all_wf(tasks: Seq<TaskState>) -> bool {
    forall|i: int| 0 <= i < tasks.len() ==> #[trigger] tasks[i].wf()
}

/// Every task reports `Done`.
pub open spec fn all_done(tasks: Seq<TaskState>) -> bool {
    forall|i: int| 0 <= i < tasks.len() ==> #[trigger] tasks[i].status() == TaskStatus::Done
}

/// The poll phase: every task is polled once at clock reading `now`.
pub open spec fn polled_all(tasks: Seq<TaskState>, now: u64) -> Seq<TaskState> {
    Seq::new(tasks.len(), |i: int| tasks[i].polled(now))
}

/// Every prerequisite of task `i` is a task that reports `Done`.
pub open spec fn prerequisites_done(
    tasks: Seq<TaskState>,
    deps: Map<usize, Vec<usize>>,
    i: usize,
) -> bool {
    forall|k: int|
        0 <= k < deps[i]@.len() ==> #[trigger] deps[i]@[k] < tasks.len() && tasks[deps[i]@[k] as int].status()
            == TaskStatus::Done
}

/// Task `i` is pending, has an entry in the dependency map, and all of its
/// prerequisites are done.
pub open spec fn ready(tasks: Seq<TaskState>, deps: Map<usize, Vec<usize>>, i: usize) -> bool {
    &&& i < tasks.len()
    &&& tasks[i as int].status() == TaskStatus::Pending
    &&& deps.contains_key(i)
    &&& prerequisites_done(tasks, deps, i)
}

/// The ready tasks among `0..k`, in increasing order.
pub open spec fn ready_upto(tasks: Seq<TaskState>, deps: Map<usize, Vec<usize>>, k: nat) -> Seq<
    usize,
>
    decreases k,
{
    if k == 0 {
        Seq::empty()
    } else {
        let rest = ready_upto(tasks, deps, (k - 1) as nat);
        if ready(tasks, deps, (k - 1) as usize) {
            rest.push((k - 1) as usize)
        } else {
            rest
        }
    }
}

/// The dispatch phase: every ready task is started at clock reading `now`.
pub open spec fn dispatched(tasks: Seq<TaskState>, deps: Map<usize, Vec<usize>>, now: u64) -> Seq<
    TaskState,
> {
    Seq::new(
        tasks.len(),
        |i: int|
            if ready(tasks, deps, i as usize) {
                tasks[i].started(now)
            } else {
                tasks[i]
            },
    )
}

/// One iteration of the scheduler loop at clock reading `now`.
pub open spec fn stepped(tasks: Seq<TaskState>, deps: Map<usize, Vec<usize>>, now: u64) -> Seq<
    TaskState,
> {
    dispatched(polled_all(tasks, now), deps, now)
}

/// Work left: two units for a pending task, one for a running one.
pub open spec fn remaining(tasks: Seq<TaskState>) -> nat
    decreases tasks.len(),
{
    if tasks.len() == 0 {
        0
    } else {
        remaining(tasks.drop_last()) + (2 - tasks.last().status().rank()) as nat
    }
}

/// Iterations at one clock reading `now`, for as long as each one changes
/// something.
pub open spec fn settle(tasks: Seq<TaskState>, deps: Map<usize, Vec<usize>>, now: u64) -> Seq<
    TaskState,
>
    decreases remaining(tasks),
{
    let next = stepped(tasks, deps, now);
    if remaining(next) < remaining(tasks) {
        settle(next, deps, now)
    } else {
        tasks
    }
}

/// The tasks started by [`settle`], in the order in which it starts them.
pub open spec fn settle_started(tasks: Seq<TaskState>, deps: Map<usize, Vec<usize>>, now: u64) -> Seq<
    usize,
>
    decreases remaining(tasks),
{
    let next = stepped(tasks, deps, now);
    let started = ready_upto(polled_all(tasks, now), deps, tasks.len());
    if remaining(next) < remaining(tasks) {
        started + settle_started(next, deps, now)
    } else {
        started
    }
}

pub proof fn lemma_ready_upto(tasks: Seq<TaskState>, deps: Map<usize, Vec<usize>>, k: nat)
    requires
        k <= usize::MAX,
    ensures
        forall|x: usize| ready_upto(tasks, deps, k).contains(x) <==> x < k && ready(tasks, deps, x),
        forall|a: int, b: int|
            0 <= a < b < ready_upto(tasks, deps, k).len() ==> ready_upto(tasks, deps, k)[a]
                < ready_upto(tasks, deps, k)[b],
        forall|a: int| 0 <= a < ready_upto(tasks, deps, k).len() ==> ready_upto(tasks, deps, k)[a] < k,
    decreases k,
{
    if k > 0 {
        lemma_ready_upto(tasks, deps, (k - 1) as nat);
        let rest = ready_upto(tasks, deps, (k - 1) as nat);
        if ready(tasks, deps, (k - 1) as usize) {
            assert forall|x: usize| rest.push((k - 1) as usize).contains(x) <==> x < k && ready(tasks, deps, x) by {
                if x == k - 1 {
                    assert(rest.push((k - 1) as usize)[rest.len() as int] == x);
                }
                let pushed = rest.push((k - 1) as usize);
                if pushed.contains(x) && x != k - 1 {
                    let j = choose|j: int| 0 <= j < pushed.len() && #[trigger] pushed[j] == x;
                    assert(rest[j] == x);
                }
                if rest.contains(x) {
                    let j = choose|j: int| 0 <= j < rest.len() && #[trigger] rest[j] == x;
                    assert(pushed[j] == x);
                }
            }
            let pushed = rest.push((k - 1) as usize);
            assert forall|a: int, b: int| 0 <= a < b < pushed.len() implies pushed[a] < pushed[b] by {
                if b == rest.len() {
                    assert(rest[a] < k - 1);
                } else {
                    assert(rest[a] < rest[b]);
                }
            }
        }
    }
}

/// Each step moves every task forward or leaves it as it was.
pub proof fn lemma_stepped_forward(tasks: Seq<TaskState>, deps: Map<usize, Vec<usize>>, now: u64)
    requires
        tasks.len() <= usize::MAX,
    ensures
        stepped(tasks, deps, now).len() == tasks.len(),
        forall|i: int|
            0 <= i < tasks.len() ==> #[trigger] stepped(tasks, deps, now)[i] == tasks[i]
                || tasks[i].status().rank() < stepped(tasks, deps, now)[i].status().rank(),
{
    let p = polled_all(tasks, now);
    assert forall|i: int| 0 <= i < tasks.len() implies #[trigger] stepped(tasks, deps, now)[i]
        == tasks[i] || tasks[i].status().rank() < stepped(tasks, deps, now)[i].status().rank() by {
        if ready(p, deps, i as usize) {
            assert(p[i] == tasks[i]);
        }
    }
}

proof fn lemma_remaining_forward(a: Seq<TaskState>, b: Seq<TaskState>)
    requires
        a.len() == b.len(),
        forall|i: int| 0 <= i < a.len() ==> #[trigger] a[i].status().rank() <= b[i].status().rank(),
    ensures
        remaining(b) <= remaining(a),
        remaining(b) == remaining(a) ==> forall|i: int|
            0 <= i < a.len() ==> #[trigger] a[i].status().rank() == b[i].status().rank(),
    decreases a.len(),
{
    if a.len() > 0 {
        let n = a.len() - 1;
        assert forall|i: int| 0 <= i < n implies #[trigger] a.drop_last()[i].status().rank()
            <= b.drop_last()[i].status().rank() by {
            assert(a[i].status().rank() <= b[i].status().rank());
        }
        lemma_remaining_forward(a.drop_last(), b.drop_last());
        assert(a.last().status().rank() <= b.last().status().rank());
        if remaining(b) == remaining(a) {
            assert forall|i: int| 0 <= i < a.len() implies #[trigger] a[i].status().rank()
                == b[i].status().rank() by {
                if i < n {
                    assert(a.drop_last()[i] == a[i]);
                    assert(b.drop_last()[i] == b[i]);
                }
            }
        }
    }
}

/// A step either leaves strictly less work or changes nothing.
pub proof fn lemma_step_progress(tasks: Seq<TaskState>, deps: Map<usize, Vec<usize>>, now: u64)
    requires
        tasks.len() <= usize::MAX,
    ensures
        remaining(stepped(tasks, deps, now)) <= remaining(tasks),
        remaining(stepped(tasks, deps, now)) == remaining(tasks) ==> stepped(tasks, deps, now)
            == tasks,
{
    let next = stepped(tasks, deps, now);
    lemma_stepped_forward(tasks, deps, now);
    assert forall|i: int| 0 <= i < tasks.len() implies #[trigger] tasks[i].status().rank()
        <= next[i].status().rank() by {
        assert(next[i] == tasks[i] || tasks[i].status().rank() < next[i].status().rank());
    }
    lemma_remaining_forward(tasks, next);
    if remaining(next) == remaining(tasks) {
        assert forall|i: int| 0 <= i < tasks.len() implies next[i] == tasks[i] by {
            assert(tasks[i].status().rank() == next[i].status().rank());
            assert(next[i] == tasks[i] || tasks[i].status().rank() < next[i].status().rank());
        }
        assert(next =~= tasks);
    }
}

/// A state that a step leaves unchanged is also unchanged by the poll phase.
pub proof fn lemma_stable_polled(tasks: Seq<TaskState>, deps: Map<usize, Vec<usize>>, now: u64)
    requires
        tasks.len() <= usize::MAX,
        stepped(tasks, deps, now) == tasks,
    ensures
        polled_all(tasks, now) == tasks,
{
    let p = polled_all(tasks, now);
    assert forall|j: int| 0 <= j < tasks.len() implies p[j] == tasks[j] by {
        if p[j] != tasks[j] {
            assert(!ready(p, deps, j as usize));
            assert(stepped(tasks, deps, now)[j] == p[j]);
        }
    }
    assert(p =~= tasks);
}

/// The earliest wake time among the waiting tasks, if any waits.
pub open spec fn next_wakeup_of(tasks: Seq<TaskState>) -> Option<u64>
    decreases tasks.len(),
{
    if tasks.len() == 0 {
        None
    } else {
        let rest = next_wakeup_of(tasks.drop_last());
        let t = tasks.last();
        if !t.waiting() {
            rest
        } else {
            match rest {
                Some(w) => if t.wake_time() < w {
                    Some(t.wake_time())
                } else {
                    Some(w)
                },
                None => Some(t.wake_time()),
            }
        }
    }
}

/// The earliest wake time is `None` exactly when no task waits; otherwise it
/// is the wake time of a waiting task and no later than any other.
pub proof fn lemma_next_wakeup(tasks: Seq<TaskState>)
    ensures
        next_wakeup_of(tasks) is None <==> forall|i: int|
            0 <= i < tasks.len() ==> !#[trigger] tasks[i].waiting(),
        next_wakeup_of(tasks) is Some ==> exists|i: int|
            0 <= i < tasks.len() && #[trigger] tasks[i].waiting() && tasks[i].wake_time()
                == next_wakeup_of(tasks)->0,
        next_wakeup_of(tasks) is Some ==> forall|i: int|
            0 <= i < tasks.len() && #[trigger] tasks[i].waiting() ==> next_wakeup_of(tasks)->0
                <= tasks[i].wake_time(),
    decreases tasks.len(),
{
    if tasks.len() > 0 {
        let init = tasks.drop_last();
        lemma_next_wakeup(init);
        let last = tasks.len() - 1;
        assert forall|i: int| 0 <= i < last implies #[trigger] init[i] == tasks[i] by {}
        if next_wakeup_of(init) is Some {
            let j = choose|j: int|
                0 <= j < init.len() && #[trigger] init[j].waiting() && init[j].wake_time()
                    == next_wakeup_of(init)->0;
            assert(tasks[j] == init[j]);
        }
        if next_wakeup_of(tasks) is None {
            assert forall|i: int| 0 <= i < tasks.len() implies !#[trigger] tasks[i].waiting() by {
                if i < last {
                    assert(!init[i].waiting());
                }
            }
        }
        if next_wakeup_of(tasks) is Some {
            assert forall|i: int| 0 <= i < tasks.len() && #[trigger] tasks[i].waiting() implies next_wakeup_of(tasks)->0
                <= tasks[i].wake_time() by {
                if i < last {
                    assert(init[i].waiting());
                }
            }
        }
    }
}

} // verus!
