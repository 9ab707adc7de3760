//! The task graph as a mathematical value: a sequence of tasks with distinct
//! ids, and what readiness, progress and the mutations mean on it.

use vstd::prelude::*;
use crate::message::ChatResponseView;
use crate::task::{TaskStatus, TaskView};

verus! {

/// The graph as the contracts see it: the tasks in the order in which their
/// ids were first added.
pub type Graph = Seq<TaskView>;

/// No two tasks of the graph share an id.
pub open spec fn distinct_ids(g: Graph) -> bool {
    forall|i: int, j: int| 0 <= i < j < g.len() ==> (#[trigger] g[i]).id != (#[trigger] g[j]).id
}

/// Some task of the graph has the id `id`.
pub open spec fn has_task(g: Graph, id: Seq<char>) -> bool {
    exists|i: int| 0 <= i < g.len() && (#[trigger] g[i]).id == id
}

/// Where the task with the id `id` stands in the graph, if there is one.
pub open spec fn position(g: Graph, id: Seq<char>) -> Option<int> {
    if has_task(g, id) {
        Some(choose|i: int| 0 <= i < g.len() && (#[trigger] g[i]).id == id)
    } else {
        None
    }
}

/// The task with the id `id`, if there is one.
pub open spec fn lookup(g: Graph, id: Seq<char>) -> Option<TaskView> {
    match position(g, id) {
        Some(i) => Some(g[i]),
        None => None,
    }
}

/// The id `id` stands for a task of the graph that is completed.
pub open spec fn completed(g: Graph, id: Seq<char>) -> bool {
    exists|i: int|
        0 <= i < g.len() && (#[trigger] g[i]).id == id && g[i].status == TaskStatus::Completed
}

/// Each of the ids stands for a completed task of the graph.
pub open spec fn dependencies_completed(g: Graph, dependencies: Seq<Seq<char>>) -> bool {
    forall|k: int| 0 <= k < dependencies.len() ==> completed(g, #[trigger] dependencies[k])
}

/// A task is ready when it is pending and all it waits for is completed.
pub open spec fn is_ready(g: Graph, t: TaskView) -> bool {
    t.status == TaskStatus::Pending && dependencies_completed(g, t.dependencies)
}

/// Readiness in `g`, as a predicate on tasks.
pub open spec fn ready_in(g: Graph) -> spec_fn(TaskView) -> bool {
    |t: TaskView| is_ready(g, t)
}

/// The ready tasks of the graph, in the graph's order.
pub open spec fn ready_tasks(g: Graph) -> Seq<TaskView> {
    g.filter(ready_in(g))
}

/// Being pending, as a predicate on tasks.
pub open spec fn is_pending() -> spec_fn(TaskView) -> bool {
    |t: TaskView| t.status == TaskStatus::Pending
}

/// How many tasks of the graph are pending.
pub open spec fn pending_count(g: Graph) -> nat {
    g.filter(is_pending()).len()
}

/// Every task of the graph is completed or failed.
pub open spec fn all_terminal(g: Graph) -> bool {
    forall|i: int| 0 <= i < g.len() ==> (#[trigger] g[i]).status.terminal()
}

/// Some task of the graph is running.
pub open spec fn has_running(g: Graph) -> bool {
    exists|i: int| 0 <= i < g.len() && (#[trigger] g[i]).status == TaskStatus::Running
}

/// The graph after `t` was added: `t` takes the place of the task with its
/// id, or comes last if there was none.
pub open spec fn upsert(g: Graph, t: TaskView) -> Graph {
    match position(g, t.id) {
        Some(i) => g.update(i, t),
        None => g.push(t),
    }
}

/// The graph without the task with the id `id`.
pub open spec fn without(g: Graph, id: Seq<char>) -> Graph {
    match position(g, id) {
        Some(i) => g.remove(i),
        None => g,
    }
}

/// What a status update makes of one task. A task that is completed or failed
/// stays as it is. A result is kept only with the status `Completed`.
pub open spec fn updated(
    t: TaskView,
    status: TaskStatus,
    result: Option<ChatResponseView>,
) -> TaskView {
    if t.status.terminal() {
        t
    } else if status == TaskStatus::Completed {
        t.with_state(status, result)
    } else {
        t.with_state(status, None)
    }
}

/// The graph after a status update of the task with the id `id`. An id that
/// stands for no task changes nothing.
pub open spec fn with_status(
    g: Graph,
    id: Seq<char>,
    status: TaskStatus,
    result: Option<ChatResponseView>,
) -> Graph {
    match position(g, id) {
        Some(i) => g.update(i, updated(g[i], status, result)),
        None => g,
    }
}

/// With distinct ids, the position of an id is the one index that holds it.
pub proof fn lemma_position_is(g: Graph, id: Seq<char>, i: int)
    requires
        distinct_ids(g),
        0 <= i < g.len(),
        g[i].id == id,
    ensures
        position(g, id) == Some(i),
        lookup(g, id) == Some(g[i]),
{
    let j = choose|j: int| 0 <= j < g.len() && (#[trigger] g[j]).id == id;
    if j < i {
        assert(g[j].id != g[i].id);
    } else if i < j {
        assert(g[i].id != g[j].id);
    }
}

/// An id that no task holds has no position.
pub proof fn lemma_position_none(g: Graph, id: Seq<char>)
    requires
        forall|j: int| 0 <= j < g.len() ==> (#[trigger] g[j]).id != id,
    ensures
        position(g, id) is None,
        lookup(g, id) is None,
{
}

/// The position of an id, where there is one, holds it.
pub proof fn lemma_position_holds(g: Graph, id: Seq<char>)
    ensures
        match position(g, id) {
            Some(i) => 0 <= i < g.len() && g[i].id == id,
            None => forall|j: int| 0 <= j < g.len() ==> (#[trigger] g[j]).id != id,
        },
{
}

/// Adding a task keeps the ids distinct.
pub proof fn lemma_upsert_distinct(g: Graph, t: TaskView)
    requires
        distinct_ids(g),
    ensures
        distinct_ids(upsert(g, t)),
{
    lemma_position_holds(g, t.id);
    let h = upsert(g, t);
    assert forall|i: int, j: int|
        0 <= i < j < h.len() implies (#[trigger] h[i]).id != (#[trigger] h[j]).id by {
        match position(g, t.id) {
            Some(p) => {
                assert(g[i].id != g[j].id);
                if i == p {
                    assert(g[p].id != g[j].id);
                } else if j == p {
                    assert(g[i].id != g[p].id);
                }
            },
            None => {
                if j < g.len() {
                    assert(g[i].id != g[j].id);
                } else {
                    assert(g[i].id != t.id);
                }
            },
        }
    }
}

/// Removing a task keeps the ids distinct.
pub proof fn lemma_without_distinct(g: Graph, id: Seq<char>)
    requires
        distinct_ids(g),
    ensures
        distinct_ids(without(g, id)),
{
    lemma_position_holds(g, id);
    let h = without(g, id);
    assert forall|i: int, j: int|
        0 <= i < j < h.len() implies (#[trigger] h[i]).id != (#[trigger] h[j]).id by {
        match position(g, id) {
            Some(p) => {
                let a = if i < p { i } else { i + 1 };
                let b = if j < p { j } else { j + 1 };
                assert(h[i] == g[a]);
                assert(h[j] == g[b]);
                assert(g[a].id != g[b].id);
            },
            None => {
                assert(g[i].id != g[j].id);
            },
        }
    }
}

/// A status update changes no id, so the ids stay distinct.
pub proof fn lemma_with_status_distinct(
    g: Graph,
    id: Seq<char>,
    status: TaskStatus,
    result: Option<ChatResponseView>,
)
    requires
        distinct_ids(g),
    ensures
        distinct_ids(with_status(g, id, status, result)),
        with_status(g, id, status, result).len() == g.len(),
        forall|i: int|
            0 <= i < g.len() ==> (#[trigger] with_status(g, id, status, result)[i]).id == g[i].id,
{
    lemma_position_holds(g, id);
    let h = with_status(g, id, status, result);
    assert forall|i: int| 0 <= i < g.len() implies (#[trigger] h[i]).id == g[i].id by {}
    assert forall|i: int, j: int|
        0 <= i < j < h.len() implies (#[trigger] h[i]).id != (#[trigger] h[j]).id by {
        assert(g[i].id != g[j].id);
        assert(h[i].id == g[i].id);
        assert(h[j].id == g[j].id);
    }
}

/// A task is among the ready tasks exactly if it is a task of the graph and
/// is ready.
pub proof fn lemma_ready_membership(g: Graph)
    ensures
        forall|t: TaskView| ready_tasks(g).contains(t) <==> g.contains(t) && is_ready(g, t),
{
    let r = ready_tasks(g);
    assert forall|t: TaskView| r.contains(t) <==> g.contains(t) && is_ready(g, t) by {
        if r.contains(t) {
            let k = choose|k: int| 0 <= k < r.len() && r[k] == t;
            g.lemma_filter_pred(ready_in(g), k);
            g.lemma_filter_contains_rev(ready_in(g), t);
        }
        if g.contains(t) && is_ready(g, t) {
            let i = choose|i: int| 0 <= i < g.len() && g[i] == t;
            g.lemma_filter_contains(ready_in(g), i);
        }
    }
}

} // verus!
