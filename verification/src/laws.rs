//! What holds of every task graph and of every run, stated over the
//! mathematical model and proved from it.

use vstd::prelude::*;
use crate::agent::{Agent, request_for};
use crate::error::AgentError;
use crate::message::{ChatResponse, ChatResponseView, Prompt, Role};
use crate::model::{
    Graph, all_terminal, completed, dependencies_completed, distinct_ids, is_pending, is_ready,
    lemma_position_holds, lemma_position_is, lemma_ready_membership, lookup, pending_count,
    position, ready_tasks, with_status,
};
use crate::order::{execution_order_of, valid_order};
use crate::progress::{
    keeps_terminal, lemma_after_dispatch, lemma_context_stable, lemma_dependencies_stable,
    lemma_none_ready, lemma_same_tasks_distinct,
};
use crate::run::{carried_out, ran, reply_answer, round_step, rounds, run_of};
use crate::task::{TaskStatus, TaskView, other_than, without_id};
use crate::traversal::lemma_execution_order_valid;
use crate::workflow::{
    AgentsView, after_dispatch, after_outcome, agent_for, answered, context_of, finished,
};

verus! {

/// A new task does not wait for itself, whatever ids it was given.
pub proof fn law_no_task_waits_for_itself(ids: Seq<Seq<char>>, own: Seq<char>)
    ensures
        !without_id(ids, own).contains(own),
{
    let kept = without_id(ids, own);
    if kept.contains(own) {
        let k = choose|k: int| 0 <= k < kept.len() && kept[k] == own;
        ids.lemma_filter_pred(other_than(own), k);
    }
}

/// A new task waits for all the ids that it was given, where its own id is
/// not among them.
pub proof fn law_other_dependencies_kept(ids: Seq<Seq<char>>, own: Seq<char>)
    requires
        !ids.contains(own),
    ensures
        without_id(ids, own) == ids,
    decreases ids.len(),
{
    if ids.len() > 0 {
        let rest = ids.drop_last();
        assert(ids[ids.len() - 1] != own);
        assert forall|k: int| 0 <= k < rest.len() implies rest[k] != own by {
            assert(ids[k] != own);
        }
        law_other_dependencies_kept(rest, own);
        assert(ids =~= rest.push(ids.last()));
        rest.lemma_filter_push(ids.last(), other_than(own));
    }
}

/// A task of the graph is among the ready tasks exactly if it is pending and
/// every id that it waits for stands for a completed task of the graph.
pub proof fn law_readiness(g: Graph, t: TaskView)
    ensures
        ready_tasks(g).contains(t) <==> {
            &&& g.contains(t)
            &&& t.status == TaskStatus::Pending
            &&& forall|m: int|
                0 <= m < t.dependencies.len() ==> completed(g, #[trigger] t.dependencies[m])
        },
{
    lemma_ready_membership(g);
}

/// A ready task that a round hands out is not pending afterwards, and right
/// after the round no task is ready at all: nothing is handed out twice.
pub proof fn law_round_leaves_none_ready(g: Graph, registered: Set<Seq<char>>, i: int)
    requires
        0 <= i < g.len(),
        is_ready(g, g[i]),
    ensures
        after_dispatch(g, registered)[i].status != TaskStatus::Pending,
        ready_tasks(after_dispatch(g, registered)).len() == 0,
{
    lemma_after_dispatch(g, registered);
}

/// One round leaves completed and failed tasks alone, and leaves every task
/// that was ready completed or failed.
pub proof fn lemma_round_settles<F: Fn(&Agent, &Prompt) -> Result<ChatResponse, AgentError>>(
    send: &F,
    agents: AgentsView,
    a: Graph,
    b: Graph,
)
    requires
        round_step(send, agents, a, b),
    ensures
        keeps_terminal(a, b),
        forall|i: int|
            0 <= i < a.len() && is_ready(a, a[i]) ==> (#[trigger] b[i]).status.terminal(),
        forall|i: int| 0 <= i < a.len() && !is_ready(a, a[i]) ==> (#[trigger] b[i]) == a[i],
{
    assert forall|i: int| 0 <= i < a.len() implies (#[trigger] b[i]) == a[i].with_state(
        b[i].status,
        b[i].result,
    ) && (is_ready(a, a[i]) ==> b[i].status.terminal()) && (!is_ready(a, a[i]) ==> b[i]
        == a[i]) by {
        assert(carried_out(send, agents, a, a[i], b[i]));
    }
}

/// Leaving completed and failed tasks alone carries over from step to step.
pub proof fn lemma_keeps_terminal_transitive(a: Graph, b: Graph, c: Graph)
    requires
        keeps_terminal(a, b),
        keeps_terminal(b, c),
    ensures
        keeps_terminal(a, c),
{
    assert forall|i: int| 0 <= i < a.len() implies (#[trigger] c[i]) == a[i].with_state(
        c[i].status,
        c[i].result,
    ) by {
        assert(b[i] == a[i].with_state(b[i].status, b[i].result));
    }
    assert forall|i: int|
        0 <= i < a.len() && (#[trigger] a[i]).status.terminal() implies c[i] == a[i] by {
        assert(b[i] == a[i]);
        assert(b[i].status.terminal());
    }
}

/// Every state of a run came from every earlier one by steps that leave
/// completed and failed tasks alone.
pub proof fn lemma_rounds_keep_terminal<F: Fn(&Agent, &Prompt) -> Result<ChatResponse, AgentError>>(
    send: &F,
    agents: AgentsView,
    states: Seq<Graph>,
    r: int,
    r2: int,
)
    requires
        rounds(send, agents, states),
        0 <= r <= r2 < states.len(),
    ensures
        keeps_terminal(states[r], states[r2]),
    decreases r2 - r,
{
    if r == r2 {
        let a = states[r];
        assert forall|i: int| 0 <= i < a.len() implies (#[trigger] a[i]) == a[i].with_state(
            a[i].status,
            a[i].result,
        ) by {}
    } else {
        lemma_rounds_keep_terminal(send, agents, states, r, r2 - 1);
        assert(round_step(send, agents, states[r2 - 1], states[r2 - 1 + 1]));
        lemma_round_settles(send, agents, states[r2 - 1], states[r2]);
        lemma_keeps_terminal_transitive(states[r], states[r2 - 1], states[r2]);
    }
}

/// A task that is ready at the beginning of one round of a run is completed
/// or failed at the beginning of every later round, so it is never ready,
/// and never handed out, again.
pub proof fn law_ready_once<F: Fn(&Agent, &Prompt) -> Result<ChatResponse, AgentError>>(
    send: &F,
    agents: AgentsView,
    states: Seq<Graph>,
    r: int,
    r2: int,
    i: int,
)
    requires
        rounds(send, agents, states),
        0 <= r < r2 < states.len(),
        0 <= i < states[r].len(),
        is_ready(states[r], states[r][i]),
    ensures
        states[r2][i].status.terminal(),
        !is_ready(states[r2], states[r2][i]),
{
    assert(round_step(send, agents, states[r], states[r + 1]));
    lemma_round_settles(send, agents, states[r], states[r + 1]);
    lemma_rounds_keep_terminal(send, agents, states, r + 1, r2);
}

/// A status update, whatever it asks for and whichever id it names, leaves
/// every completed and every failed task as it is.
pub proof fn law_update_keeps_terminal(
    g: Graph,
    id: Seq<char>,
    status: TaskStatus,
    result: Option<ChatResponseView>,
)
    ensures
        keeps_terminal(g, with_status(g, id, status, result)),
{
    lemma_position_holds(g, id);
    let h = with_status(g, id, status, result);
    assert forall|i: int| 0 <= i < g.len() implies (#[trigger] h[i]) == g[i].with_state(
        h[i].status,
        h[i].result,
    ) by {}
}

/// Writing an outcome back leaves every completed and every failed task as
/// it is.
pub proof fn law_outcome_keeps_terminal(g: Graph, id: Seq<char>, answer: Option<ChatResponseView>)
    ensures
        keeps_terminal(g, after_outcome(g, id, answer)),
{
    lemma_position_holds(g, id);
    let h = after_outcome(g, id, answer);
    assert forall|i: int| 0 <= i < g.len() implies (#[trigger] h[i]) == g[i].with_state(
        h[i].status,
        h[i].result,
    ) by {}
}

/// A status update changes no task but the one it names: a task that fails
/// takes no other task with it.
pub proof fn law_update_touches_one(
    g: Graph,
    id: Seq<char>,
    status: TaskStatus,
    result: Option<ChatResponseView>,
    i: int,
)
    requires
        0 <= i < g.len(),
        g[i].id != id,
    ensures
        with_status(g, id, status, result)[i] == g[i],
{
    lemma_position_holds(g, id);
}

/// An outcome that is written back changes no task but the one it names.
pub proof fn law_outcome_touches_one(
    g: Graph,
    id: Seq<char>,
    answer: Option<ChatResponseView>,
    i: int,
)
    requires
        0 <= i < g.len(),
        g[i].id != id,
    ensures
        after_outcome(g, id, answer)[i] == g[i],
{
    lemma_position_holds(g, id);
}

/// A task that waits for a failed task is not ready, now or after any steps
/// that leave completed and failed tasks alone.
pub proof fn law_failed_dependency_blocks(a: Graph, b: Graph, i: int, j: int, m: int)
    requires
        distinct_ids(a),
        keeps_terminal(a, b),
        0 <= i < a.len(),
        0 <= j < a.len(),
        0 <= m < a[i].dependencies.len(),
        a[i].dependencies[m] == a[j].id,
        a[j].status == TaskStatus::Failed,
    ensures
        !is_ready(b, b[i]),
{
    lemma_same_tasks_distinct(a, b);
    assert(b[j] == a[j]);
    assert(b[i].dependencies[m] == b[j].id);
    if completed(b, b[i].dependencies[m]) {
        let q = choose|q: int|
            0 <= q < b.len() && (#[trigger] b[q]).id == b[j].id && b[q].status
                == TaskStatus::Completed;
        if q < j {
            assert(b[q].id != b[j].id);
        } else if j < q {
            assert(b[j].id != b[q].id);
        }
    }
}

/// A task that waits for a failed task is, after every round of a run, what
/// it was when the run began.
pub proof fn law_blocked_stays_pending<F: Fn(&Agent, &Prompt) -> Result<ChatResponse, AgentError>>(
    send: &F,
    agents: AgentsView,
    states: Seq<Graph>,
    r: int,
    i: int,
    j: int,
    m: int,
)
    requires
        rounds(send, agents, states),
        0 <= r < states.len(),
        distinct_ids(states[0]),
        0 <= i < states[0].len(),
        0 <= j < states[0].len(),
        0 <= m < states[0][i].dependencies.len(),
        states[0][i].dependencies[m] == states[0][j].id,
        states[0][j].status == TaskStatus::Failed,
    ensures
        states[r][i] == states[0][i],
    decreases r,
{
    if r > 0 {
        law_blocked_stays_pending(send, agents, states, r - 1, i, j, m);
        lemma_rounds_keep_terminal(send, agents, states, 0, r - 1);
        law_failed_dependency_blocks(states[0], states[r - 1], i, j, m);
        assert(round_step(send, agents, states[r - 1], states[r - 1 + 1]));
        lemma_round_settles(send, agents, states[r - 1], states[r]);
    }
}

/// Why a task is `after` in the graph `g` that a run has reached, when the
/// run found it as `before`. Either the run did not touch it. Or it was
/// pending, all it waited for is completed, and it failed for want of a
/// registered agent, or its agent was sent its request, with the answers of
/// its dependencies as context, and the task is completed with the answer
/// that came back, or failed where an error came back.
pub open spec fn explained<F: Fn(&Agent, &Prompt) -> Result<ChatResponse, AgentError>>(
    send: &F,
    agents: AgentsView,
    g: Graph,
    before: TaskView,
    after: TaskView,
) -> bool {
    ||| after == before
    ||| {
        &&& before.status == TaskStatus::Pending
        &&& dependencies_completed(g, before.dependencies)
        &&& match agent_for(agents, before) {
            Some(agent) => exists|reply: Result<ChatResponse, AgentError>|
                #[trigger] ran(
                    send,
                    agent,
                    request_for(before, context_of(g, before.dependencies)),
                    reply,
                ) && after == finished(before, reply_answer(reply)),
            None => after == before.with_state(TaskStatus::Failed, None),
        }
    }
}

/// An explanation that holds in a graph holds in every graph that came from
/// it by steps that leave completed and failed tasks alone.
pub proof fn lemma_explained_stable<F: Fn(&Agent, &Prompt) -> Result<ChatResponse, AgentError>>(
    send: &F,
    agents: AgentsView,
    a: Graph,
    b: Graph,
    before: TaskView,
    after: TaskView,
)
    requires
        distinct_ids(a),
        keeps_terminal(a, b),
        explained(send, agents, a, before, after),
    ensures
        explained(send, agents, b, before, after),
{
    if after != before {
        lemma_dependencies_stable(a, b, before.dependencies);
        lemma_context_stable(a, b, before.dependencies);
    }
}

/// Every task is explained after every round of a run: what a run changes,
/// it changes for a reason that can still be read from the graph it leaves.
pub proof fn law_run_explains<F: Fn(&Agent, &Prompt) -> Result<ChatResponse, AgentError>>(
    send: &F,
    agents: AgentsView,
    states: Seq<Graph>,
    r: int,
    i: int,
)
    requires
        rounds(send, agents, states),
        distinct_ids(states[0]),
        0 <= r < states.len(),
        0 <= i < states[0].len(),
    ensures
        explained(send, agents, states[r], states[0][i], states[r][i]),
    decreases r,
{
    if r > 0 {
        let a = states[r - 1];
        let b = states[r];
        law_run_explains(send, agents, states, r - 1, i);
        lemma_rounds_keep_terminal(send, agents, states, 0, r - 1);
        lemma_same_tasks_distinct(states[0], a);
        assert(round_step(send, agents, states[r - 1], states[r - 1 + 1]));
        lemma_round_settles(send, agents, a, b);
        assert(carried_out(send, agents, a, a[i], b[i]));
        if is_ready(a, a[i]) {
            assert(a[i] == states[0][i]);
            lemma_dependencies_stable(a, b, a[i].dependencies);
            lemma_context_stable(a, b, a[i].dependencies);
        } else {
            lemma_explained_stable(send, agents, a, b, states[0][i], a[i]);
        }
    }
}

/// Where every task is pending, all of them count as pending.
pub proof fn lemma_all_pending(g: Graph)
    requires
        forall|i: int| 0 <= i < g.len() ==> (#[trigger] g[i]).status == TaskStatus::Pending,
    ensures
        pending_count(g) == g.len(),
    decreases g.len(),
{
    if g.len() == 0 {
        g.lemma_filter_len(is_pending());
    } else {
        let g0 = g.drop_last();
        assert forall|i: int|
            0 <= i < g0.len() implies (#[trigger] g0[i]).status == TaskStatus::Pending by {
            assert(g[i].status == TaskStatus::Pending);
        }
        lemma_all_pending(g0);
        assert(g =~= g0.push(g.last()));
        g0.lemma_filter_push(g.last(), is_pending());
        assert(g[g.len() - 1].status == TaskStatus::Pending);
    }
}

/// The task `t` waits for some task of the graph.
pub open spec fn waits_in_graph(g: Graph, t: TaskView) -> bool {
    exists|m: int, j: int|
        0 <= m < t.dependencies.len() && 0 <= j < g.len()
            && #[trigger] t.dependencies[m] == (#[trigger] g[j]).id
}

/// Where every task is pending and waits for a task of the graph, as the
/// tasks of a cycle do, no task is ready, every task counts as pending, and
/// the graph is not complete.
pub proof fn law_waiting_for_each_other(g: Graph)
    requires
        distinct_ids(g),
        g.len() > 0,
        forall|i: int| 0 <= i < g.len() ==> (#[trigger] g[i]).status == TaskStatus::Pending,
        forall|i: int| 0 <= i < g.len() ==> waits_in_graph(g, #[trigger] g[i]),
    ensures
        ready_tasks(g).len() == 0,
        pending_count(g) == g.len(),
        !all_terminal(g),
{
    lemma_all_pending(g);
    assert(!g[0].status.terminal());
    assert forall|i: int| 0 <= i < g.len() implies !is_ready(g, #[trigger] g[i]) by {
        assert(waits_in_graph(g, g[i]));
        let (m, j) = choose|m: int, j: int|
            0 <= m < g[i].dependencies.len() && 0 <= j < g.len()
                && #[trigger] g[i].dependencies[m] == (#[trigger] g[j]).id;
        if completed(g, g[i].dependencies[m]) {
            let q = choose|q: int|
                0 <= q < g.len() && (#[trigger] g[q]).id == g[j].id && g[q].status
                    == TaskStatus::Completed;
            assert(g[q].status == TaskStatus::Pending);
        }
    }
    lemma_none_ready(g);
}

/// A run that finds no task ready has no round: it leaves the graph as it
/// found it.
pub proof fn law_nothing_ready_nothing_runs<
    F: Fn(&Agent, &Prompt) -> Result<ChatResponse, AgentError>,
>(
    send: &F,
    agents: AgentsView,
    start: Graph,
    end: Graph,
)
    requires
        run_of(send, agents, start, end),
        ready_tasks(start).len() == 0,
    ensures
        end == start,
{
    let states = choose|states: Seq<Graph>|
        #[trigger] rounds(send, agents, states) && states.first() == start && states.last() == end;
    if states.len() > 1 {
        assert(round_step(send, agents, states[0int], states[0int + 1]));
    }
}

/// The execution order of a graph lists every id once: the ids of the tasks,
/// and the ids that tasks wait for although no task has them. Each task
/// stands behind what it waits for, except where that waits in turn for the
/// task, so that the graph has a cycle.
pub proof fn law_execution_order_valid(g: Graph)
    requires
        distinct_ids(g),
    ensures
        valid_order(g, execution_order_of(g)),
{
    lemma_execution_order_valid(g);
}

/// The context of a task holds, under the id of each task that it waits for
/// and that is completed with a result, that result as a turn of the
/// assistant, and it holds nothing else.
pub proof fn law_context_attributes_results(g: Graph, dependencies: Seq<Seq<char>>, id: Seq<char>)
    requires
        distinct_ids(g),
    ensures
        context_of(g, dependencies).contains_key(id) <==> dependencies.contains(id)
            && exists|j: int| 0 <= j < g.len() && completed_as(g, id, j),
        forall|j: int|
            0 <= j < g.len() && #[trigger] completed_as(g, id, j) && dependencies.contains(id)
                ==> context_of(g, dependencies)[id] == g[j].result.unwrap().as_messages(
                Role::Assistant,
            ),
{
    lemma_position_holds(g, id);
    assert forall|j: int| 0 <= j < g.len() && (#[trigger] g[j]).id == id implies lookup(g, id)
        == Some(g[j]) by {
        lemma_position_is(g, id, j);
    }
    if answered(g, id) {
        let p = position(g, id).unwrap();
        assert(completed_as(g, id, p));
    }
}

/// The task at `j` has the id `id` and is completed with a result.
pub open spec fn completed_as(g: Graph, id: Seq<char>, j: int) -> bool {
    g[j].id == id && g[j].status == TaskStatus::Completed && g[j].result is Some
}

} // verus!
