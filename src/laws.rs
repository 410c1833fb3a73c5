use vstd::prelude::*;

use crate::graph::{dangles, has_entries, ranked_by, valid_graph};
use crate::model::{
    all_done, all_wf, dispatched, lemma_stable_polled, lemma_step_progress, next_wakeup_of,
    polled_all, ready, remaining, settle, stepped,
};
use crate::status::TaskStatus;
use crate::task::TaskState;

verus! {

/// No work is left exactly when every task is done.
pub proof fn lemma_remaining_zero(tasks: Seq<TaskState>)
    ensures
        remaining(tasks) == 0 <==> all_done(tasks),
    decreases tasks.len(),
{
    if tasks.len() > 0 {
        lemma_remaining_zero(tasks.drop_last());
        if all_done(tasks) {
            assert forall|i: int| 0 <= i < tasks.len() - 1 implies #[trigger] tasks.drop_last()[i].status()
                == TaskStatus::Done by {
                assert(tasks[i].status() == TaskStatus::Done);
            }
        }
        if remaining(tasks) == 0 {
            assert forall|i: int| 0 <= i < tasks.len() implies #[trigger] tasks[i].status()
                == TaskStatus::Done by {
                if i < tasks.len() - 1 {
                    assert(tasks.drop_last()[i] == tasks[i]);
                }
            }
        }
    }
}

/// A step keeps every task well formed.
pub proof fn lemma_step_wf(tasks: Seq<TaskState>, deps: Map<usize, Vec<usize>>, now: u64)
    requires
        all_wf(tasks),
    ensures
        all_wf(stepped(tasks, deps, now)),
{
    let p = polled_all(tasks, now);
    assert(all_wf(p)) by {
        assert forall|i: int| 0 <= i < p.len() implies #[trigger] p[i].wf() by {
            assert(tasks[i].wf());
        }
    }
    let next = stepped(tasks, deps, now);
    assert forall|i: int| 0 <= i < next.len() implies #[trigger] next[i].wf() by {
        assert(p[i].wf());
    }
}

/// Settling keeps every task well formed, leaves no more work than it found,
/// and ends in a state that a further step at the same reading leaves alone.
pub proof fn lemma_settle(tasks: Seq<TaskState>, deps: Map<usize, Vec<usize>>, now: u64)
    requires
        tasks.len() <= usize::MAX,
    ensures
        settle(tasks, deps, now).len() == tasks.len(),
        all_wf(tasks) ==> all_wf(settle(tasks, deps, now)),
        remaining(settle(tasks, deps, now)) <= remaining(tasks),
        stepped(settle(tasks, deps, now), deps, now) == settle(tasks, deps, now),
    decreases remaining(tasks),
{
    let next = stepped(tasks, deps, now);
    lemma_step_progress(tasks, deps, now);
    if remaining(next) < remaining(tasks) {
        if all_wf(tasks) {
            lemma_step_wf(tasks, deps, now);
        }
        lemma_settle(next, deps, now);
    }
}

/// Where no task runs and the graph is acyclic and fully referenced, a task
/// that is not done leads, through prerequisites that are not done, to a
/// ready task.
proof fn lemma_find_ready(
    tasks: Seq<TaskState>,
    deps: Map<usize, Vec<usize>>,
    rank: Seq<nat>,
    u: usize,
)
    requires
        tasks.len() <= usize::MAX,
        has_entries(deps, tasks.len()),
        forall|i: usize| i < tasks.len() ==> !#[trigger] dangles(deps, tasks.len(), i),
        ranked_by(deps, tasks.len(), rank),
        forall|i: int| 0 <= i < tasks.len() ==> #[trigger] tasks[i].status() != TaskStatus::Running,
        u < tasks.len(),
        tasks[u as int].status() == TaskStatus::Pending,
    ensures
        exists|v: usize| ready(tasks, deps, v),
    decreases rank[u as int],
{
    assert(deps.contains_key(u));
    if !ready(tasks, deps, u) {
        let k = choose|k: int|
            0 <= k < deps[u]@.len() && !(#[trigger] deps[u]@[k] < tasks.len() && tasks[deps[u]@[k] as int].status()
                == TaskStatus::Done);
        assert(!dangles(deps, tasks.len(), u));
        let d = deps[u]@[k];
        assert(rank[d as int] < rank[u as int]);
        assert(tasks[d as int].status() != TaskStatus::Running);
        lemma_find_ready(tasks, deps, rank, d);
    } else {
        assert(ready(tasks, deps, u));
    }
}

/// The run finishes on every acyclic, fully referenced graph. Settling at a
/// clock reading `now` leaves either every task done (no work left), or some
/// running task whose deadline lies after `now`; and once the clock has reached
/// the deadline of a running task, settling again leaves strictly less work.
/// The work left is a natural number, so a driver that settles the tasks at
/// each wakeup finishes.
pub proof fn lemma_run_finishes(
    tasks: Seq<TaskState>,
    deps: Map<usize, Vec<usize>>,
    now: u64,
    later: u64,
)
    requires
        tasks.len() <= usize::MAX,
        all_wf(tasks),
        valid_graph(deps, tasks.len()),
    ensures
        all_done(settle(tasks, deps, now)) <==> remaining(settle(tasks, deps, now)) == 0,
        all_done(settle(tasks, deps, now)) || exists|i: int|
            0 <= i < tasks.len() && #[trigger] settle(tasks, deps, now)[i].waiting()
                && settle(tasks, deps, now)[i].deadline() > now,
        forall|i: int|
            0 <= i < tasks.len() && #[trigger] settle(tasks, deps, now)[i].waiting() && settle(
                tasks,
                deps,
                now,
            )[i].deadline() <= later ==> remaining(settle(settle(tasks, deps, now), deps, later))
                < remaining(settle(tasks, deps, now)),
{
    let s = settle(tasks, deps, now);
    lemma_settle(tasks, deps, now);
    lemma_remaining_zero(s);
    lemma_stable_polled(s, deps, now);
    let n = tasks.len();
    if !all_done(s) {
        if !exists|i: int| 0 <= i < n && #[trigger] s[i].waiting() && s[i].deadline() > now {
            assert forall|i: int| 0 <= i < n implies #[trigger] s[i].status() != TaskStatus::Running by {
                assert(s[i].wf());
                if s[i].status() == TaskStatus::Running {
                    assert(s[i].waiting());
                    assert(s[i].elapsed_at(now));
                    assert(polled_all(s, now)[i] != s[i]);
                }
            }
            let j = choose|j: int| 0 <= j < n && #[trigger] s[j].status() != TaskStatus::Done;
            let rank = choose|rank: Seq<nat>| ranked_by(deps, n, rank);
            lemma_find_ready(s, deps, rank, j as usize);
            let v = choose|v: usize| ready(s, deps, v);
            assert(ready(polled_all(s, now), deps, v));
            assert(stepped(s, deps, now)[v as int].status() != TaskStatus::Pending);
        }
    }
    assert forall|i: int|
        0 <= i < n && #[trigger] s[i].waiting() && s[i].deadline() <= later implies remaining(
        settle(s, deps, later),
    ) < remaining(s) by {
        lemma_step_progress(s, deps, later);
        let next = stepped(s, deps, later);
        assert(polled_all(s, later)[i].status() == TaskStatus::Done);
        assert(next[i] != s[i]);
        assert(remaining(next) < remaining(s));
        lemma_settle(next, deps, later);
        assert(settle(s, deps, later) == settle(next, deps, later));
    }
}

/// Starts the tasks `ids`, one after another, at clock reading `now`.
pub open spec fn start_each(tasks: Seq<TaskState>, ids: Seq<usize>, now: u64) -> Seq<TaskState>
    decreases ids.len(),
{
    if ids.len() == 0 {
        tasks
    } else {
        let t = start_each(tasks, ids.drop_last(), now);
        let id = ids.last();
        if id < t.len() {
            t.update(id as int, t[id as int].started(now))
        } else {
            t
        }
    }
}

proof fn lemma_start_each(tasks: Seq<TaskState>, ids: Seq<usize>, now: u64)
    requires
        ids.no_duplicates(),
    ensures
        start_each(tasks, ids, now) == Seq::new(
            tasks.len(),
            |i: int|
                if ids.contains(i as usize) && i <= usize::MAX {
                    tasks[i].started(now)
                } else {
                    tasks[i]
                },
        ),
    decreases ids.len(),
{
    let target = Seq::new(
        tasks.len(),
        |i: int|
            if ids.contains(i as usize) && i <= usize::MAX {
                tasks[i].started(now)
            } else {
                tasks[i]
            },
    );
    if ids.len() == 0 {
        assert(start_each(tasks, ids, now) =~= target);
    } else {
        let init = ids.drop_last();
        assert(init.no_duplicates());
        lemma_start_each(tasks, init, now);
        let id = ids.last();
        assert(!init.contains(id));
        assert forall|i: int| 0 <= i < tasks.len() implies #[trigger] start_each(tasks, ids, now)[i]
            == target[i] by {
            if i <= usize::MAX {
                if init.contains(i as usize) {
                    let a = choose|a: int| 0 <= a < init.len() && #[trigger] init[a] == i as usize;
                    assert(ids[a] == i as usize);
                }
                if ids.contains(i as usize) && i as usize != id {
                    let a = choose|a: int| 0 <= a < ids.len() && #[trigger] ids[a] == i as usize;
                    assert(init[a] == i as usize);
                }
                if i as usize == id {
                    assert(ids[ids.len() - 1] == id);
                }
            }
        }
        assert(start_each(tasks, ids, now) =~= target);
    }
}

/// The order in which the ready tasks are started does not matter: starting
/// them one after another in any order gives the state of the dispatch phase.
pub proof fn lemma_dispatch_order_irrelevant(
    tasks: Seq<TaskState>,
    deps: Map<usize, Vec<usize>>,
    now: u64,
    ids: Seq<usize>,
)
    requires
        tasks.len() <= usize::MAX,
        ids.no_duplicates(),
        forall|x: usize| ids.contains(x) <==> ready(tasks, deps, x),
    ensures
        start_each(tasks, ids, now) == dispatched(tasks, deps, now),
{
    lemma_start_each(tasks, ids, now);
    assert(start_each(tasks, ids, now) =~= dispatched(tasks, deps, now));
}

/// Polls the task at each of the clock readings `times`, in turn.
pub open spec fn polled_through(task: TaskState, times: Seq<u64>) -> TaskState
    decreases times.len(),
{
    if times.len() == 0 {
        task
    } else {
        polled_through(task, times.drop_last()).polled(times.last())
    }
}

/// Polling a done task, any number of times, leaves it done and unchanged.
pub proof fn lemma_done_stays_done(task: TaskState, times: Seq<u64>)
    requires
        task.status() == TaskStatus::Done,
    ensures
        polled_through(task, times) == task,
    decreases times.len(),
{
    if times.len() > 0 {
        lemma_done_stays_done(task, times.drop_last());
    }
}

} // verus!
