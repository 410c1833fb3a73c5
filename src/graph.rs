use std::collections::HashMap;
use vstd::prelude::*;

verus! {

/// Every task `0..n` has an entry in the dependency map.
pub open spec fn has_entries(deps: Map<usize, Vec<usize>>, n: nat) -> bool {
    forall|i: usize| i < n ==> #[trigger] deps.contains_key(i)
}

/// Task `i` lists a prerequisite that is not a task.
pub open spec fn dangles(deps: Map<usize, Vec<usize>>, n: nat, i: usize) -> bool {
    exists|k: int| 0 <= k < deps[i]@.len() && deps[i]@[k] >= n
}

/// Every prerequisite listed for a task `0..n` is itself a task.
pub open spec fn deps_in_range(deps: Map<usize, Vec<usize>>, n: nat) -> bool {
    forall|i: usize| i < n ==> !#[trigger] dangles(deps, n, i)
}

/// Every entry of the dependency map belongs to a task.
pub open spec fn no_extra_entries(deps: Map<usize, Vec<usize>>, n: nat) -> bool {
    forall|i: usize| #[trigger] deps.contains_key(i) ==> i < n
}

/// The map holds an entry for each task, for no other identifier, and names
/// only tasks as prerequisites.
pub open spec fn fully_referenced(deps: Map<usize, Vec<usize>>, n: nat) -> bool {
    &&& has_entries(deps, n)
    &&& deps_in_range(deps, n)
    &&& no_extra_entries(deps, n)
}

/// `rank` orders the tasks so that every prerequisite comes before the task
/// that waits for it.
pub open spec fn ranked_by(deps: Map<usize, Vec<usize>>, n: nat, rank: Seq<nat>) -> bool {
    &&& rank.len() == n
    &&& forall|i: usize, k: int|
        i < n && 0 <= k < deps[i]@.len() ==> #[trigger] deps[i]@[k] < n && rank[deps[i]@[k] as int]
            < rank[i as int]
}

/// The dependency relation among the tasks `0..n` has no cycle.
pub open spec fn acyclic(deps: Map<usize, Vec<usize>>, n: nat) -> bool {
    exists|rank: Seq<nat>| ranked_by(deps, n, rank)
}

/// A graph on which a run is owed to finish.
pub open spec fn valid_graph(deps: Map<usize, Vec<usize>>, n: nat) -> bool {
    fully_referenced(deps, n) && acyclic(deps, n)
}

/// Why a dependency graph is refused before a run.
#[derive(Clone, Copy, Debug, PartialEq, Eq, Structural)]
pub enum GraphError {
    /// The task has no entry in the dependency map, so it would never start.
    MissingEntry(usize),
    /// The task lists a prerequisite that is not a task.
    DanglingDependency { task: usize, dependency: usize },
    /// The dependency map holds an entry for an identifier that is not a task.
    UnknownEntry,
    /// Some tasks wait for each other in a cycle.
    Cycle,
}

/// What [`validate_graph`] reports on a graph of `n` tasks.
pub open spec fn validation(deps: Map<usize, Vec<usize>>, n: nat, r: Result<(), GraphError>) -> bool {
    match r {
        Ok(()) => valid_graph(deps, n),
        Err(GraphError::MissingEntry(i)) => {
            &&& i < n
            &&& !deps.contains_key(i)
            &&& forall|j: usize| j < i ==> #[trigger] deps.contains_key(j)
        },
        Err(GraphError::DanglingDependency { task, dependency }) => {
            &&& has_entries(deps, n)
            &&& task < n
            &&& forall|j: usize| j < task ==> !#[trigger] dangles(deps, n, j)
            &&& exists|k: int|
                0 <= k < deps[task]@.len() && deps[task]@[k] == dependency && dependency >= n
                    && forall|k2: int| 0 <= k2 < k ==> #[trigger] deps[task]@[k2] < n
        },
        Err(GraphError::UnknownEntry) => {
            &&& has_entries(deps, n)
            &&& deps_in_range(deps, n)
            &&& !no_extra_entries(deps, n)
        },
        Err(GraphError::Cycle) => fully_referenced(deps, n) && !acyclic(deps, n),
    }
}

/// Task `j` waits for a task that is not marked in `placed`.
pub open spec fn blocked(deps: Map<usize, Vec<usize>>, placed: Seq<bool>, j: usize) -> bool {
    exists|k: int| 0 <= k < deps[j]@.len() && !placed[#[trigger] deps[j]@[k] as int]
}

/// The identifiers below `n`.
pub open spec fn below(n: nat) -> Set<usize> {
    Set::new(|i: usize| i < n)
}

/// How many entries of `s` are `true`.
pub open spec fn count_true(s: Seq<bool>) -> nat
    decreases s.len(),
{
    if s.len() == 0 {
        0
    } else {
        count_true(s.drop_last()) + if s.last() {
            1nat
        } else {
            0nat
        }
    }
}

proof fn lemma_below_len(n: nat)
    requires
        n <= usize::MAX + 1,
    ensures
        below(n).finite(),
        below(n).len() == n,
    decreases n,
{
    if n == 0 {
        assert(below(0) =~= Set::empty());
    } else {
        lemma_below_len((n - 1) as nat);
        assert(below(n) =~= below((n - 1) as nat).insert((n - 1) as usize));
    }
}

proof fn lemma_count_bounds(s: Seq<bool>, i: int)
    requires
        0 <= i < s.len(),
    ensures
        count_true(s) <= s.len(),
        !s[i] ==> count_true(s) < s.len(),
        count_true(s.update(i, true)) == count_true(s) + if s[i] {
            0nat
        } else {
            1nat
        },
    decreases s.len(),
{
    let t = s.update(i, true);
    assert(t.drop_last() =~= if i == s.len() - 1 {
        s.drop_last()
    } else {
        s.drop_last().update(i, true)
    });
    if i < s.len() - 1 {
        lemma_count_bounds(s.drop_last(), i);
    } else if s.len() > 1 {
        lemma_count_bounds(s.drop_last(), 0);
    }
}

proof fn lemma_count_all(s: Seq<bool>)
    requires
        forall|i: int| 0 <= i < s.len() ==> s[i],
    ensures
        count_true(s) == s.len(),
    decreases s.len(),
{
    if s.len() > 0 {
        lemma_count_all(s.drop_last());
    }
}

/// No order of the tasks puts every prerequisite first when each unplaced task
/// waits for another unplaced one.
proof fn lemma_blocked_unranked(
    deps: Map<usize, Vec<usize>>,
    n: nat,
    placed: Seq<bool>,
    rank: Seq<nat>,
    u: usize,
)
    requires
        placed.len() == n,
        u < n,
        !placed[u as int],
        forall|j: usize| j < n && !placed[j as int] ==> #[trigger] blocked(deps, placed, j),
    ensures
        !ranked_by(deps, n, rank),
    decreases rank[u as int],
{
    if ranked_by(deps, n, rank) {
        assert(blocked(deps, placed, u));
        let k = choose|k: int| 0 <= k < deps[u]@.len() && !placed[#[trigger] deps[u]@[k] as int];
        let d = deps[u]@[k];
        lemma_blocked_unranked(deps, n, placed, rank, d);
    }
}

/// Checks that a run over tasks `0..n` with these dependencies is owed to
/// finish. The first problem found is reported: a missing entry (least task
/// first), then a prerequisite that is not a task (least task, first in its
/// list), then an entry that belongs to no task, then a cycle.
pub fn validate_graph(deps: &HashMap<usize, Vec<usize>>, n: usize) -> (r: Result<(), GraphError>)
    ensures
        validation(deps@, n as nat, r),
{
    let mut i: usize = 0;
    while i < n
        invariant
            i <= n,
            forall|j: usize| j < i ==> #[trigger] deps@.contains_key(j),
        decreases n - i,
    {
        if deps.get(&i).is_none() {
            return Err(GraphError::MissingEntry(i));
        }
        i = i + 1;
    }
    let mut i: usize = 0;
    while i < n
        invariant
            i <= n,
            has_entries(deps@, n as nat),
            forall|j: usize| j < i ==> !#[trigger] dangles(deps@, n as nat, j),
        decreases n - i,
    {
        assert(deps@.contains_key(i));
        let list = deps.get(&i).unwrap();
        let mut k: usize = 0;
        while k < list.len()
            invariant
                k <= list@.len(),
                i < n,
                deps@.contains_key(i),
                has_entries(deps@, n as nat),
                forall|j: usize| j < i ==> !#[trigger] dangles(deps@, n as nat, j),
                *list == deps@[i],
                forall|k2: int| 0 <= k2 < k ==> #[trigger] deps@[i]@[k2] < n,
            decreases list.len() - k,
        {
            if list[k] >= n {
                assert(deps@[i]@[k as int] == list[k as int]);
                assert(0 <= k < deps@[i]@.len() && deps@[i]@[k as int] == list[k as int]
                    && list[k as int] >= n && forall|k2: int|
                    0 <= k2 < k ==> #[trigger] deps@[i]@[k2] < n);
                return Err(GraphError::DanglingDependency { task: i, dependency: list[k] });
            }
            k = k + 1;
        }
        assert(!dangles(deps@, n as nat, i));
        i = i + 1;
    }
    proof {
        lemma_below_len(n as nat);
        assert(below(n as nat).subset_of(deps@.dom()));
        vstd::set_lib::lemma_len_subset(below(n as nat), deps@.dom());
    }
    if deps.len() != n {
        proof {
            if no_extra_entries(deps@, n as nat) {
                assert(deps@.dom().subset_of(below(n as nat)));
                vstd::set_lib::lemma_len_subset(deps@.dom(), below(n as nat));
            }
        }
        return Err(GraphError::UnknownEntry);
    }
    proof {
        assert forall|x: usize| #[trigger] deps@.contains_key(x) implies x < n by {
            if x >= n {
                assert(below(n as nat).insert(x).subset_of(deps@.dom()));
                vstd::set_lib::lemma_len_subset(below(n as nat).insert(x), deps@.dom());
            }
        }
    }
    order_tasks(deps, n)
}

/// Orders the tasks of a fully referenced graph, prerequisites first, and
/// reports `Cycle` where no such order exists.
fn order_tasks(deps: &HashMap<usize, Vec<usize>>, n: usize) -> (r: Result<(), GraphError>)
    requires
        fully_referenced(deps@, n as nat),
    ensures
        r is Ok <==> acyclic(deps@, n as nat),
        r is Err ==> r == Err::<(), GraphError>(GraphError::Cycle),
{
    let mut placed: Vec<bool> = Vec::new();
    let mut rank: Vec<usize> = Vec::new();
    let mut i: usize = 0;
    while i < n
        invariant
            i <= n,
            placed@.len() == i,
            rank@.len() == i,
            forall|j: int| 0 <= j < i ==> !placed@[j],
        decreases n - i,
    {
        placed.push(false);
        rank.push(0);
        i = i + 1;
    }
    let mut count: usize = 0;
    proof {
        lemma_count_zero(placed@);
    }
    loop
        invariant
            placed@.len() == n,
            rank@.len() == n,
            count == count_true(placed@),
            count <= n,
            fully_referenced(deps@, n as nat),
            forall|j: usize|
                j < n && #[trigger] placed@[j as int] ==> {
                    &&& rank@[j as int] < count
                    &&& forall|k: int|
                        0 <= k < deps@[j]@.len() ==> placed@[#[trigger] deps@[j]@[k] as int]
                            && rank@[deps@[j]@[k] as int] < rank@[j as int]
                },
        decreases n - count,
    {
        let ghost before = placed@;
        let start_count = count;
        let mut progress = false;
        let mut i: usize = 0;
        while i < n
            invariant
                i <= n,
                placed@.len() == n,
                rank@.len() == n,
                count == count_true(placed@),
                count <= n,
                start_count <= count,
                progress ==> start_count < count,
                !progress ==> placed@ == before,
                !progress ==> forall|j: usize|
                    j < i && !placed@[j as int] ==> #[trigger] blocked(deps@, placed@, j),
                fully_referenced(deps@, n as nat),
                forall|j: usize|
                    j < n && #[trigger] placed@[j as int] ==> {
                        &&& rank@[j as int] < count
                        &&& forall|k: int|
                            0 <= k < deps@[j]@.len() ==> placed@[#[trigger] deps@[j]@[k] as int]
                                && rank@[deps@[j]@[k] as int] < rank@[j as int]
                    },
            decreases n - i,
        {
            if !placed[i] {
                assert(deps@.contains_key(i));
                let list = deps.get(&i).unwrap();
                assert(!dangles(deps@, n as nat, i));
                let mut ready = true;
                let mut k: usize = 0;
                while k < list.len()
                    invariant
                        k <= list@.len(),
                        i < n,
                        placed@.len() == n,
                        *list == deps@[i],
                        forall|k2: int| 0 <= k2 < list@.len() ==> #[trigger] list@[k2] < n,
                        ready <==> forall|k2: int| 0 <= k2 < k ==> placed@[#[trigger] list@[k2] as int],
                    decreases list.len() - k,
                {
                    if !placed[list[k]] {
                        ready = false;
                    }
                    k = k + 1;
                }
                if ready {
                    proof {
                        lemma_count_bounds(placed@, i as int);
                    }
                    let ghost placed0 = placed@;
                    let ghost rank0 = rank@;
                    placed.set(i, true);
                    rank.set(i, count);
                    count = count + 1;
                    progress = true;
                    proof {
                        assert forall|j: usize| j < n && #[trigger] placed@[j as int] implies {
                            &&& rank@[j as int] < count
                            &&& forall|k: int|
                                0 <= k < deps@[j]@.len() ==> placed@[#[trigger] deps@[j]@[k] as int]
                                    && rank@[deps@[j]@[k] as int] < rank@[j as int]
                        } by {
                            if j != i {
                                assert(placed0[j as int]);
                                assert forall|k: int| 0 <= k < deps@[j]@.len() implies placed@[#[trigger] deps@[j]@[k] as int]
                                    && rank@[deps@[j]@[k] as int] < rank@[j as int] by {
                                    assert(!dangles(deps@, n as nat, j));
                                    assert(placed0[deps@[j]@[k] as int]);
                                    assert(deps@[j]@[k] != i);
                                    assert(rank@[deps@[j]@[k] as int] == rank0[deps@[j]@[k] as int]);
                                }
                            } else {
                                assert forall|k: int| 0 <= k < deps@[j]@.len() implies placed@[#[trigger] deps@[j]@[k] as int]
                                    && rank@[deps@[j]@[k] as int] < rank@[j as int] by {
                                    assert(placed0[list@[k] as int]);
                                }
                            }
                        }
                    }
                } else {
                    proof {
                        let k2 = choose|k2: int| 0 <= k2 < list@.len() && !placed@[#[trigger] list@[k2] as int];
                        assert(!placed@[deps@[i]@[k2] as int]);
                    }
                }
            }
            i = i + 1;
        }
        if count == n {
            proof {
                let r = Seq::new(n as nat, |j: int| rank@[j] as nat);
                assert forall|j: usize| j < n implies placed@[j as int] by {
                    if !placed@[j as int] {
                        lemma_count_bounds(placed@, j as int);
                    }
                }
                assert(ranked_by(deps@, n as nat, r)) by {
                    assert forall|j: usize, k: int| j < n && 0 <= k < deps@[j]@.len() implies #[trigger] deps@[j]@[k] < n && r[deps@[j]@[k] as int] < r[j as int] by {
                        assert(placed@[j as int]);
                        assert(!dangles(deps@, n as nat, j));
                    }
                }
            }
            return Ok(());
        }
        if !progress {
            proof {
                assert(exists|u: usize| u < n && !placed@[u as int]) by {
                    if forall|u: usize| u < n ==> placed@[u as int] {
                        assert forall|j: int| 0 <= j < placed@.len() implies placed@[j] by {
                            assert(placed@[(j as usize) as int]);
                        }
                        lemma_count_all(placed@);
                    }
                }
                assert forall|rk: Seq<nat>| !ranked_by(deps@, n as nat, rk) by {
                    let u = choose|u: usize| u < n && !placed@[u as int];
                    lemma_blocked_unranked(deps@, n as nat, placed@, rk, u);
                }
            }
            return Err(GraphError::Cycle);
        }
    }
}

proof fn lemma_count_zero(s: Seq<bool>)
    requires
        forall|i: int| 0 <= i < s.len() ==> !s[i],
    ensures
        count_true(s) == 0,
    decreases s.len(),
{
    if s.len() > 0 {
        lemma_count_zero(s.drop_last());
    }
}

} // verus!
