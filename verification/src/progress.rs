//! How a task graph moves while a workflow runs: what a round changes, what
//! it leaves alone, and why a run comes to an end.

use vstd::prelude::*;
use crate::model::{
    Graph, completed, dependencies_completed, distinct_ids, is_pending, is_ready,
    lemma_position_is, lookup, pending_count, ready_in, ready_tasks,
};
use crate::task::TaskStatus;
use crate::workflow::{after_dispatch, context_of};

verus! {

/// `b` holds the tasks of `a` in the same order; only their status and
/// result may differ.
pub open spec fn same_tasks(a: Graph, b: Graph) -> bool {
    &&& a.len() == b.len()
    &&& forall|i: int|
        0 <= i < a.len() ==> (#[trigger] b[i]) == a[i].with_state(b[i].status, b[i].result)
}

/// `b` came from `a` by steps that leave completed and failed tasks alone.
pub open spec fn keeps_terminal(a: Graph, b: Graph) -> bool {
    &&& same_tasks(a, b)
    &&& forall|i: int| 0 <= i < a.len() && (#[trigger] a[i]).status.terminal() ==> b[i] == a[i]
}

/// Whoever is pending in `b` was pending in `a`.
pub open spec fn no_new_pending(a: Graph, b: Graph) -> bool {
    &&& a.len() == b.len()
    &&& forall|i: int|
        0 <= i < a.len() && (#[trigger] b[i]).status == TaskStatus::Pending ==> a[i].status
            == TaskStatus::Pending
}

/// Where no task becomes pending, the number of pending tasks does not grow.
pub proof fn lemma_pending_monotone(a: Graph, b: Graph)
    requires
        no_new_pending(a, b),
    ensures
        pending_count(b) <= pending_count(a),
    decreases a.len(),
{
    if a.len() == 0 {
        b.lemma_filter_len(is_pending());
    } else {
        let a0 = a.drop_last();
        let b0 = b.drop_last();
        assert forall|i: int|
            0 <= i < a0.len() && (#[trigger] b0[i]).status == TaskStatus::Pending
            implies a0[i].status
            == TaskStatus::Pending by {
            assert(b[i].status == TaskStatus::Pending);
        }
        lemma_pending_monotone(a0, b0);
        assert(a =~= a0.push(a.last()));
        assert(b =~= b0.push(b.last()));
        a0.lemma_filter_push(a.last(), is_pending());
        b0.lemma_filter_push(b.last(), is_pending());
        assert(b[b.len() - 1].status == TaskStatus::Pending ==> a[a.len() - 1].status
            == TaskStatus::Pending);
    }
}

/// Where no task becomes pending and one stops being pending, the number of
/// pending tasks drops.
pub proof fn lemma_pending_drops(a: Graph, b: Graph, at: int)
    requires
        no_new_pending(a, b),
        0 <= at < a.len(),
        a[at].status == TaskStatus::Pending,
        b[at].status != TaskStatus::Pending,
    ensures
        pending_count(b) < pending_count(a),
    decreases a.len(),
{
    let a0 = a.drop_last();
    let b0 = b.drop_last();
    assert forall|i: int|
        0 <= i < a0.len() && (#[trigger] b0[i]).status == TaskStatus::Pending implies a0[i].status
        == TaskStatus::Pending by {
        assert(b[i].status == TaskStatus::Pending);
    }
    assert(a =~= a0.push(a.last()));
    assert(b =~= b0.push(b.last()));
    a0.lemma_filter_push(a.last(), is_pending());
    b0.lemma_filter_push(b.last(), is_pending());
    assert(b[b.len() - 1].status == TaskStatus::Pending ==> a[a.len() - 1].status
        == TaskStatus::Pending);
    if at == a.len() - 1 {
        lemma_pending_monotone(a0, b0);
    } else {
        assert(a0[at] == a[at]);
        assert(b0[at] == b[at]);
        lemma_pending_drops(a0, b0, at);
    }
}

/// A graph with a pending task is not all completed or failed, and a graph
/// that counts a pending task has one.
pub proof fn lemma_pending_witness(g: Graph)
    ensures
        pending_count(g) > 0 <==> exists|i: int|
            0 <= i < g.len() && (#[trigger] g[i]).status == TaskStatus::Pending,
    decreases g.len(),
{
    if g.len() == 0 {
        g.lemma_filter_len(is_pending());
    } else {
        let g0 = g.drop_last();
        lemma_pending_witness(g0);
        assert(g =~= g0.push(g.last()));
        g0.lemma_filter_push(g.last(), is_pending());
        if pending_count(g) > 0 {
            if g.last().status == TaskStatus::Pending {
                assert(g[g.len() - 1].status == TaskStatus::Pending);
            } else {
                let i = choose|i: int|
                    0 <= i < g0.len() && (#[trigger] g0[i]).status == TaskStatus::Pending;
                assert(g[i].status == TaskStatus::Pending);
            }
        }
        if exists|i: int| 0 <= i < g.len() && (#[trigger] g[i]).status == TaskStatus::Pending {
            let i = choose|i: int|
                0 <= i < g.len() && (#[trigger] g[i]).status == TaskStatus::Pending;
            if i < g.len() - 1 {
                assert(g0[i].status == TaskStatus::Pending);
            }
        }
    }
}

/// A completed task stays completed where completed and failed tasks are
/// left alone.
pub proof fn lemma_completed_stable(a: Graph, b: Graph, id: Seq<char>)
    requires
        keeps_terminal(a, b),
        completed(a, id),
    ensures
        completed(b, id),
{
    let i = choose|i: int|
        0 <= i < a.len() && (#[trigger] a[i]).id == id && a[i].status == TaskStatus::Completed;
    assert(b[i] == a[i]);
}

/// Completed dependencies stay completed where completed and failed tasks
/// are left alone.
pub proof fn lemma_dependencies_stable(a: Graph, b: Graph, dependencies: Seq<Seq<char>>)
    requires
        keeps_terminal(a, b),
        dependencies_completed(a, dependencies),
    ensures
        dependencies_completed(b, dependencies),
{
    assert forall|k: int|
        0 <= k < dependencies.len() implies completed(b, #[trigger] dependencies[k]) by {
        lemma_completed_stable(a, b, dependencies[k]);
    }
}

/// The ids of a graph stay distinct where only status and result change.
pub proof fn lemma_same_tasks_distinct(a: Graph, b: Graph)
    requires
        same_tasks(a, b),
        distinct_ids(a),
    ensures
        distinct_ids(b),
{
    assert forall|i: int, j: int|
        0 <= i < j < b.len() implies (#[trigger] b[i]).id != (#[trigger] b[j]).id by {
        assert(a[i].id != a[j].id);
    }
}

/// The context of a task whose dependencies are completed stays what it is
/// where completed and failed tasks are left alone.
pub proof fn lemma_context_stable(a: Graph, b: Graph, dependencies: Seq<Seq<char>>)
    requires
        distinct_ids(a),
        keeps_terminal(a, b),
        dependencies_completed(a, dependencies),
    ensures
        context_of(a, dependencies) == context_of(b, dependencies),
{
    lemma_same_tasks_distinct(a, b);
    assert forall|id: Seq<char>|
        dependencies.contains(id) implies lookup(a, id) == lookup(b, id) by {
        let k = choose|k: int| 0 <= k < dependencies.len() && dependencies[k] == id;
        assert(completed(a, dependencies[k]));
        let i = choose|i: int|
            0 <= i < a.len() && (#[trigger] a[i]).id == id && a[i].status == TaskStatus::Completed;
        assert(b[i] == a[i]);
        lemma_position_is(a, id, i);
        lemma_position_is(b, id, i);
    }
    assert(context_of(a, dependencies) =~= context_of(b, dependencies));
}

/// Handing a round out leaves completed and failed tasks alone, makes no
/// task pending, and leaves no task ready.
pub proof fn lemma_after_dispatch(g: Graph, registered: Set<Seq<char>>)
    ensures
        keeps_terminal(g, after_dispatch(g, registered)),
        no_new_pending(g, after_dispatch(g, registered)),
        ready_tasks(after_dispatch(g, registered)).len() == 0,
{
    let h = after_dispatch(g, registered);
    assert forall|i: int|
        0 <= i < g.len()
        implies (#[trigger] h[i]) == g[i].with_state(h[i].status, h[i].result) by {}
    assert(keeps_terminal(g, h));
    assert forall|i: int| 0 <= i < h.len() implies !is_ready(h, #[trigger] h[i]) by {
        if is_ready(h, h[i]) {
            assert(g[i].status == TaskStatus::Pending);
            assert forall|k: int| 0 <= k < g[i].dependencies.len() implies completed(
                g,
                #[trigger] g[i].dependencies[k],
            ) by {
                let d = g[i].dependencies[k];
                assert(completed(h, h[i].dependencies[k]));
                let j = choose|j: int|
                    0 <= j < h.len() && (#[trigger] h[j]).id == d && h[j].status
                        == TaskStatus::Completed;
                assert(g[j].id == d && g[j].status == TaskStatus::Completed);
            }
            assert(is_ready(g, g[i]));
        }
    }
    lemma_none_ready(h);
}

/// Where no task of a graph is ready, its sequence of ready tasks is empty.
pub proof fn lemma_none_ready(g: Graph)
    requires
        forall|i: int| 0 <= i < g.len() ==> !is_ready(g, #[trigger] g[i]),
    ensures
        ready_tasks(g).len() == 0,
{
    let r = ready_tasks(g);
    if r.len() > 0 {
        g.lemma_filter_pred(ready_in(g), 0);
        assert(r.contains(r[0]));
        g.lemma_filter_contains_rev(ready_in(g), r[0]);
        let i = choose|i: int| 0 <= i < g.len() && g[i] == r[0];
        assert(!is_ready(g, g[i]));
    }
}

} // verus!
