//! The execution order: a listing of the graph's ids that puts what a task
//! waits for before the task, as far as the dependencies allow it. The order
//! is for display. Which task can start is decided from the statuses alone.

use vstd::prelude::*;
use crate::model::{
    Graph, distinct_ids, has_task, lemma_position_holds, lemma_position_is, position,
};
use crate::task::TaskView;

verus! {

/// How many tasks of the graph have an id that is not on the path.
pub open spec fn off_path(g: Graph, path: Seq<Seq<char>>) -> nat
    decreases g.len(),
{
    if g.len() == 0 {
        0
    } else if path.contains(g.last().id) {
        off_path(g.drop_last(), path)
    } else {
        off_path(g.drop_last(), path) + 1
    }
}

/// A longer path leaves no more tasks off the path.
pub proof fn lemma_off_path_monotone(g: Graph, path: Seq<Seq<char>>, id: Seq<char>)
    ensures
        off_path(g, path.push(id)) <= off_path(g, path),
    decreases g.len(),
{
    if g.len() > 0 {
        lemma_off_path_monotone(g.drop_last(), path, id);
        if path.contains(g.last().id) {
            let p = choose|p: int| 0 <= p < path.len() && path[p] == g.last().id;
            assert(path.push(id)[p] == g.last().id);
        }
    }
}

/// A path that takes in the id of a task leaves fewer tasks off the path.
pub proof fn lemma_off_path_drops(g: Graph, path: Seq<Seq<char>>, at: int)
    requires
        0 <= at < g.len(),
        !path.contains(g[at].id),
    ensures
        off_path(g, path.push(g[at].id)) < off_path(g, path),
    decreases g.len(),
{
    let id = g[at].id;
    if at == g.len() - 1 {
        lemma_off_path_monotone(g.drop_last(), path, id);
        assert(path.push(id)[path.len() as int] == id);
    } else {
        assert(g.drop_last()[at] == g[at]);
        lemma_off_path_drops(g.drop_last(), path, at);
        if path.contains(g.last().id) {
            let p = choose|p: int| 0 <= p < path.len() && path[p] == g.last().id;
            assert(path.push(id)[p] == g.last().id);
        }
    }
}

/// The order after a visit to `id`. An id that is listed, or that is on the
/// path of the visits that are under way, is passed by. Of any other id,
/// what its task waits for is visited first, then the id is listed. An id
/// that no task has is listed as it is.
pub open spec fn visit(
    g: Graph,
    id: Seq<char>,
    path: Seq<Seq<char>>,
    order: Seq<Seq<char>>,
) -> Seq<Seq<char>>
    decreases off_path(g, path), 0nat,
{
    if path.contains(id) || order.contains(id) {
        order
    } else {
        match position(g, id) {
            None => order.push(id),
            Some(i) => {
                proof {
                    lemma_position_holds(g, id);
                    lemma_off_path_drops(g, path, i);
                }
                visit_each(g, g[i].dependencies, path.push(id), order).push(id)
            },
        }
    }
}

/// The order after a visit to each of the ids, one after the other.
pub open spec fn visit_each(
    g: Graph,
    ids: Seq<Seq<char>>,
    path: Seq<Seq<char>>,
    order: Seq<Seq<char>>,
) -> Seq<Seq<char>>
    decreases off_path(g, path), ids.len() + 1,
{
    if ids.len() == 0 {
        order
    } else {
        visit_each(g, ids.drop_first(), path, visit(g, ids.first(), path, order))
    }
}

/// The ids of the tasks, in the graph's order.
pub open spec fn ids_of(g: Graph) -> Seq<Seq<char>> {
    g.map_values(|t: TaskView| t.id)
}

/// The execution order of a graph: the order after a visit to each of its
/// tasks, in the graph's order.
pub open spec fn execution_order_of(g: Graph) -> Seq<Seq<char>> {
    visit_each(g, ids_of(g), Seq::empty(), Seq::empty())
}

/// Some task of the graph names `id` among its dependencies.
pub open spec fn names_dependency(g: Graph, id: Seq<char>) -> bool {
    exists|i: int, m: int|
        0 <= i < g.len() && 0 <= m < g[i].dependencies.len() && #[trigger] g[i].dependencies[m]
            == id
}

/// `first` stands before `second` in the order.
pub open spec fn precedes(order: Seq<Seq<char>>, first: Seq<char>, second: Seq<char>) -> bool {
    exists|p: int, q: int|
        0 <= p < q < order.len() && #[trigger] order[p] == first && #[trigger] order[q] == second
}

/// The task at `path[s]` names the task at `path[s + 1]` among its
/// dependencies.
pub open spec fn waits_for_next(g: Graph, path: Seq<int>, s: int) -> bool {
    g[path[s]].dependencies.contains(g[path[s + 1]].id)
}

/// The indices are tasks of the graph, each of which waits for the next.
pub open spec fn chain(g: Graph, path: Seq<int>) -> bool {
    &&& path.len() > 0
    &&& forall|s: int| 0 <= s < path.len() ==> 0 <= #[trigger] path[s] < g.len()
    &&& forall|s: int| 0 <= s < path.len() - 1 ==> #[trigger] waits_for_next(g, path, s)
}

/// The task at `from` is the task at `to`, or waits for it, directly or
/// through other tasks.
pub open spec fn depends_on(g: Graph, from: int, to: int) -> bool {
    exists|path: Seq<int>| #[trigger] chain(g, path) && path.first() == from && path.last() == to
}

/// The dependency `m` of the task at `i` closes a cycle: it stands for a
/// task that waits in turn for the task at `i`.
pub open spec fn closes_cycle(g: Graph, i: int, m: int) -> bool {
    exists|j: int|
        0 <= j < g.len() && (#[trigger] g[j]).id == g[i].dependencies[m] && depends_on(g, j, i)
}

/// The dependency `m` of the task at `i` stands before the task in the
/// order, unless it closes a cycle.
pub open spec fn dependency_first(g: Graph, order: Seq<Seq<char>>, i: int, m: int) -> bool {
    precedes(order, g[i].dependencies[m], g[i].id) || closes_cycle(g, i, m)
}

/// An id of the order is the id of a task, or one that a task waits for.
pub open spec fn known_id(g: Graph, id: Seq<char>) -> bool {
    has_task(g, id) || names_dependency(g, id)
}

/// What holds of the execution order of a graph. It lists every id once:
/// the ids of the tasks, and the ids that tasks wait for although no task
/// has them. Each task stands behind what it waits for, except where that
/// waits in turn for the task.
pub open spec fn valid_order(g: Graph, order: Seq<Seq<char>>) -> bool {
    &&& order.no_duplicates()
    &&& forall|i: int| 0 <= i < g.len() ==> order.contains((#[trigger] g[i]).id)
    &&& forall|p: int| 0 <= p < order.len() ==> known_id(g, #[trigger] order[p])
    &&& forall|i: int, m: int|
        0 <= i < g.len() && 0 <= m < g[i].dependencies.len() ==> #[trigger] dependency_first(
            g,
            order,
            i,
            m,
        )
}

/// The graphs hold tasks with the same ids and dependencies, in the same
/// order.
pub open spec fn same_structure(a: Graph, b: Graph) -> bool {
    &&& a.len() == b.len()
    &&& forall|i: int|
        0 <= i < a.len() ==> (#[trigger] b[i]).id == a[i].id && b[i].dependencies
            == a[i].dependencies
}

/// A visit comes out the same in every graph with the same ids and
/// dependencies.
pub proof fn lemma_visit_same_structure(
    a: Graph,
    b: Graph,
    id: Seq<char>,
    path: Seq<Seq<char>>,
    order: Seq<Seq<char>>,
)
    requires
        distinct_ids(a),
        same_structure(a, b),
    ensures
        visit(a, id, path, order) == visit(b, id, path, order),
    decreases off_path(a, path), 0nat,
{
    if !(path.contains(id) || order.contains(id)) {
        lemma_position_holds(a, id);
        lemma_position_holds(b, id);
        match position(a, id) {
            None => {
                if position(b, id) is Some {
                    let i = position(b, id).unwrap();
                    assert(a[i].id == id);
                }
            },
            Some(i) => {
                assert forall|x: int, y: int| 0 <= x < y < b.len() implies (#[trigger] b[x]).id != (
                #[trigger] b[y]).id by {
                    assert(a[x].id != a[y].id);
                }
                assert(b[i].id == id);
                lemma_position_is(b, id, i);
                lemma_off_path_drops(a, path, i);
                lemma_visit_each_same_structure(a, b, a[i].dependencies, path.push(id), order);
            },
        }
    }
}

/// Visits to each of some ids come out the same in every graph with the same
/// ids and dependencies.
pub proof fn lemma_visit_each_same_structure(
    a: Graph,
    b: Graph,
    ids: Seq<Seq<char>>,
    path: Seq<Seq<char>>,
    order: Seq<Seq<char>>,
)
    requires
        distinct_ids(a),
        same_structure(a, b),
    ensures
        visit_each(a, ids, path, order) == visit_each(b, ids, path, order),
    decreases off_path(a, path), ids.len() + 1,
{
    if ids.len() > 0 {
        lemma_visit_same_structure(a, b, ids.first(), path, order);
        let visited = visit(a, ids.first(), path, order);
        lemma_visit_each_same_structure(a, b, ids.drop_first(), path, visited);
    }
}

/// The execution order depends on the ids and the dependencies alone.
pub proof fn lemma_order_same_structure(a: Graph, b: Graph)
    requires
        distinct_ids(a),
        same_structure(a, b),
    ensures
        execution_order_of(a) == execution_order_of(b),
{
    assert(ids_of(a) =~= ids_of(b));
    lemma_visit_each_same_structure(a, b, ids_of(a), Seq::empty(), Seq::empty());
}

} // verus!
