//! Running a workflow to its end, round after round.

use vstd::prelude::*;
use crate::agent::{Agent, AgentView, reply_of, request_for, sent};
use crate::error::AgentError;
use crate::message::{ChatResponse, ChatResponseView, Prompt, PromptView};
use crate::model::{
    Graph, all_terminal, distinct_ids, has_running, is_ready, lemma_position_is,
    lemma_ready_membership, pending_count, ready_tasks,
};
use crate::progress::{
    keeps_terminal, lemma_after_dispatch, lemma_none_ready, lemma_pending_drops,
    lemma_pending_witness, lemma_same_tasks_distinct, no_new_pending, same_tasks,
};
use crate::task::{TaskStatus, TaskView};
use crate::workflow::{
    AgentsView, Round, RunOutcome, Workflow, after_dispatch, agent_for, agents_view, answer_of,
    context_of, dispatch_of, finished, handed_out, plan,
};

verus! {

/// The answer that a reply carries, if it is a success.
pub open spec fn reply_answer(reply: Result<ChatResponse, AgentError>) -> Option<ChatResponseView> {
    match reply {
        Ok(response) => Some(response@),
        Err(_) => None,
    }
}

/// `send` was called for an agent of the value `agent` with a request of the
/// value `request` and came back with `reply`.
pub open spec fn ran<F: Fn(&Agent, &Prompt) -> Result<ChatResponse, AgentError>>(
    send: &F,
    agent: AgentView,
    request: PromptView,
    reply: Result<ChatResponse, AgentError>,
) -> bool {
    exists|a: Agent| a@ == agent && #[trigger] sent(send, a, request, reply)
}

/// What one round makes of one task: `before` is the task as the round found
/// it in the graph `found`. A task that was not ready is left alone. A ready
/// task fails for want of a registered agent; or its agent was sent its
/// request, with the answers of its dependencies as context, and the task is
/// completed with the answer that came back, or failed where an error came
/// back.
pub open spec fn carried_out<F: Fn(&Agent, &Prompt) -> Result<ChatResponse, AgentError>>(
    send: &F,
    agents: AgentsView,
    found: Graph,
    before: TaskView,
    after: TaskView,
) -> bool {
    if !is_ready(found, before) {
        after == before
    } else {
        match agent_for(agents, before) {
            None => after == before.with_state(TaskStatus::Failed, None),
            Some(agent) => exists|reply: Result<ChatResponse, AgentError>|
                #[trigger] ran(
                    send,
                    agent,
                    request_for(before, context_of(found, before.dependencies)),
                    reply,
                ) && after == finished(before, reply_answer(reply)),
        }
    }
}

/// One round takes the graph `a` to the graph `b`: some task of `a` is
/// ready, and every task is carried out as a round does.
pub open spec fn round_step<F: Fn(&Agent, &Prompt) -> Result<ChatResponse, AgentError>>(
    send: &F,
    agents: AgentsView,
    a: Graph,
    b: Graph,
) -> bool {
    &&& ready_tasks(a).len() > 0
    &&& b.len() == a.len()
    &&& forall|i: int| 0 <= i < a.len() ==> carried_out(send, agents, a, a[i], #[trigger] b[i])
}

/// The graphs are the states of a run between its rounds, the first state
/// first.
pub open spec fn rounds<F: Fn(&Agent, &Prompt) -> Result<ChatResponse, AgentError>>(
    send: &F,
    agents: AgentsView,
    states: Seq<Graph>,
) -> bool {
    &&& states.len() > 0
    &&& forall|r: int|
        0 <= r < states.len() - 1 ==> round_step(send, agents, #[trigger] states[r], states[r + 1])
}

/// Some number of rounds, one after the other, takes the graph `start` to
/// the graph `end`.
pub open spec fn run_of<F: Fn(&Agent, &Prompt) -> Result<ChatResponse, AgentError>>(
    send: &F,
    agents: AgentsView,
    start: Graph,
    end: Graph,
) -> bool {
    exists|states: Seq<Graph>|
        #[trigger] rounds(send, agents, states) && states.first() == start && states.last() == end
}

/// What holds of one task in the middle of a round: `before` is the task as
/// the round found it in the graph `found`, `now` is what it is after the
/// first `k` of the ready tasks `waiting` were carried out.
spec fn in_round<F: Fn(&Agent, &Prompt) -> Result<ChatResponse, AgentError>>(
    send: &F,
    agents: AgentsView,
    found: Graph,
    waiting: Seq<TaskView>,
    k: int,
    before: TaskView,
    now: TaskView,
) -> bool {
    if !is_ready(found, before) {
        now == before
    } else {
        match agent_for(agents, before) {
            None => now == before.with_state(TaskStatus::Failed, None),
            Some(agent) => if handed_out(waiting, k, before.id) {
                exists|reply: Result<ChatResponse, AgentError>|
                    #[trigger] ran(
                        send,
                        agent,
                        request_for(before, context_of(found, before.dependencies)),
                        reply,
                    ) && now == finished(before, reply_answer(reply))
            } else {
                now == before.with_state(TaskStatus::Running, None)
            },
        }
    }
}

/// Runs the workflow to its end. Round after round, every ready task is
/// started and carried out by the agent registered for it, which sends the
/// task's request through `send`; the outcomes are written back before the
/// next round begins. A task without a registered agent fails, and so does a
/// task whose agent comes back with an error; neither stops the others. The
/// run ends as `Completed` when every task is completed or failed, and as
/// `Deadlocked` when tasks are pending of which none can become ready.
///
/// The tasks of a round are carried out one after the other, in the graph's
/// order. Of a failure only the status `Failed` is kept: a caller that wants
/// the error keeps it in `send`. A caller that wants to stop between rounds,
/// or to carry the tasks of a round out at the same time, drives the rounds
/// itself with [`Workflow::next_round`] and [`Workflow::settle`].
///
/// No task may be running when the run begins: nobody would write back how
/// it ended. [`Workflow::run`] tests this first.
pub fn execute_workflow<F>(workflow: &mut Workflow, send: &F) -> (outcome: RunOutcome) where
    F: Fn(&Agent, &Prompt) -> Result<ChatResponse, AgentError>,

    requires
        forall|agent: &Agent, request: &Prompt| send.requires((agent, request)),
        !has_running(old(workflow).tasks@),
    ensures
        final(workflow).tasks.order() == old(workflow).tasks.order(),
        final(workflow).agents == old(workflow).agents,
        final(workflow).id == old(workflow).id,
        final(workflow).name == old(workflow).name,
        run_of(
            send,
            agents_view(old(workflow).agents@),
            old(workflow).tasks@,
            final(workflow).tasks@,
        ),
        !has_running(final(workflow).tasks@),
        ready_tasks(final(workflow).tasks@).len() == 0,
        outcome == RunOutcome::Completed <==> all_terminal(final(workflow).tasks@),
        outcome == RunOutcome::Deadlocked <==> pending_count(final(workflow).tasks@) > 0,
{
    let ghost start = workflow.tasks@;
    let ghost agents = agents_view(workflow.agents@);
    let ghost mut states: Seq<Graph> = seq![start];
    proof {
        use_type_invariant(&workflow.tasks);
        workflow.tasks.lemma_well_formed();
    }
    loop
        invariant
            rounds(send, agents, states),
            states.first() == start,
            states.last() == workflow.tasks@,
            workflow.tasks.order() == old(workflow).tasks.order(),
            workflow.agents == old(workflow).agents,
            workflow.id == old(workflow).id,
            workflow.name == old(workflow).name,
            start == old(workflow).tasks@,
            agents == agents_view(old(workflow).agents@),
            forall|agent: &Agent, request: &Prompt| send.requires((agent, request)),
            distinct_ids(start),
            same_tasks(start, workflow.tasks@),
            !has_running(workflow.tasks@),
        decreases pending_count(workflow.tasks@),
    {
        let ghost found = workflow.tasks@;
        proof {
            lemma_same_tasks_distinct(start, found);
            lemma_pending_witness(found);
        }
        match workflow.next_round() {
            Round::Completed => {
                proof {
                    assert forall|i: int|
                        0 <= i < found.len() implies !is_ready(found, #[trigger] found[i]) by {
                        assert(found[i].status.terminal());
                    }
                    lemma_none_ready(found);
                }
                return RunOutcome::Completed;
            },
            Round::Deadlocked => {
                proof {
                    let i = choose|i: int|
                        0 <= i < found.len() && (#[trigger] found[i]).status == TaskStatus::Pending;
                    assert(!found[i].status.terminal());
                }
                return RunOutcome::Deadlocked;
            },
            Round::Idle => {
                // An idle round finds a task running. None was running when
                // this round began, so the round is not idle.
                proof {
                    let i = choose|i: int|
                        0 <= i < found.len() && !(#[trigger] found[i]).status.terminal();
                    assert(found[i].status == TaskStatus::Running);
                    assert(false);
                }
                return RunOutcome::Completed;
            },
            Round::Dispatched(dispatches) => {
                let ghost waiting = ready_tasks(found);
                let ghost registered = workflow.agents@.dom();
                proof {
                    lemma_ready_membership(found);
                    lemma_after_dispatch(found, registered);
                    assert(dispatches.deep_view().len() == waiting.len());
                    let begun = after_dispatch(found, registered);
                    assert forall|i: int| 0 <= i < found.len() implies in_round(
                        send,
                        agents,
                        found,
                        waiting,
                        0,
                        found[i],
                        #[trigger] begun[i],
                    ) by {
                        assert(!handed_out(waiting, 0, found[i].id));
                    }
                }
                let mut k: usize = 0;
                while k < dispatches.len()
                    invariant
                        k <= dispatches.len(),
                        workflow.tasks.order() == old(workflow).tasks.order(),
                        workflow.agents == old(workflow).agents,
                        workflow.id == old(workflow).id,
                        workflow.name == old(workflow).name,
                        agents == agents_view(old(workflow).agents@),
                        forall|agent: &Agent, request: &Prompt| send.requires((agent, request)),
                        distinct_ids(found),
                        !has_running(found),
                        waiting == ready_tasks(found),
                        waiting.len() == dispatches.len(),
                        waiting.len() > 0,
                        dispatches.deep_view() == plan(found, agents),
                        forall|t: TaskView|
                            waiting.contains(t) <==> found.contains(t) && is_ready(found, t),
                        keeps_terminal(found, workflow.tasks@),
                        no_new_pending(found, workflow.tasks@),
                        forall|i: int|
                            0 <= i < found.len() ==> in_round(
                                send,
                                agents,
                                found,
                                waiting,
                                k as int,
                                found[i],
                                #[trigger] workflow.tasks@[i],
                            ),
                    decreases dispatches.len() - k,
                {
                    let ghost current = workflow.tasks@;
                    let ghost t = waiting[k as int];
                    let ghost p = choose|p: int| 0 <= p < found.len() && found[p] == t;
                    proof {
                        assert(dispatches.deep_view()[k as int] == dispatch_of(found, agents, t));
                        assert(waiting.contains(t));
                        assert(is_ready(found, found[p]));
                        lemma_same_tasks_distinct(found, current);
                        lemma_position_is(current, t.id, p);
                        let at = k as int;
                        assert(in_round(send, agents, found, waiting, at, found[p], current[p]));
                        assert forall|i: int| 0 <= i < found.len() && i != p implies handed_out(
                            waiting,
                            k as int + 1,
                            found[i].id,
                        ) == handed_out(waiting, k as int, found[i].id) by {
                            if i < p {
                                assert(found[i].id != found[p].id);
                            } else {
                                assert(found[p].id != found[i].id);
                            }
                            if handed_out(waiting, k as int + 1, found[i].id) {
                                let m = choose|m: int|
                                    0 <= m < k as int + 1 && m < waiting.len()
                                        && (#[trigger] waiting[m]).id == found[i].id;
                                assert(m < k);
                            }
                        }
                        assert(handed_out(waiting, k as int + 1, found[p].id)) by {
                            assert(waiting[k as int].id == found[p].id);
                        }
                    }
                    match &dispatches[k].agent {
                        Some(agent) => {
                            let task = &dispatches[k].task;
                            let context = &dispatches[k].context;
                            let outcome = agent.execute_task(task, context, send);
                            proof {
                                let request = request_for(t, context_of(found, t.dependencies));
                                let reply = reply_of(outcome);
                                assert(sent(send, *agent, request, reply));
                                assert(ran(send, agents[t.agent_id], request, reply));
                                assert(answer_of(outcome) == reply_answer(reply));
                            }
                            workflow.settle(dispatches[k].task.id.as_str(), outcome);
                        },
                        None => {},
                    }
                    proof {
                        let next = workflow.tasks@;
                        assert forall|i: int| 0 <= i < found.len() implies in_round(
                            send,
                            agents,
                            found,
                            waiting,
                            k as int + 1,
                            found[i],
                            #[trigger] next[i],
                        ) by {
                            let at = k as int;
                            let was = current[i];
                            assert(in_round(send, agents, found, waiting, at, found[i], was));
                        }
                    }
                    k += 1;
                }
                proof {
                    let end = workflow.tasks@;
                    lemma_same_tasks_distinct(found, end);
                    let first = choose|i: int| 0 <= i < found.len() && found[i] == waiting[0];
                    assert(waiting.contains(waiting[0]));
                    assert forall|i: int|
                        0 <= i < found.len() && is_ready(found, found[i]) implies handed_out(
                        waiting,
                        k as int,
                        found[i].id,
                    ) by {
                        assert(found.contains(found[i]));
                        assert(waiting.contains(found[i]));
                        let m = choose|m: int| 0 <= m < waiting.len() && waiting[m] == found[i];
                        assert(waiting[m].id == found[i].id);
                    }
                    assert forall|i: int|
                        0 <= i < end.len()
                        implies (#[trigger] end[i]).status != TaskStatus::Running by {
                        assert(in_round(send, agents, found, waiting, k as int, found[i], end[i]));
                        assert(found[i].status != TaskStatus::Running);
                    }
                    let at = k as int;
                    assert(in_round(send, agents, found, waiting, at, found[first], end[first]));
                    lemma_pending_drops(found, end, first);
                    assert forall|i: int| 0 <= i < found.len() implies carried_out(
                        send,
                        agents,
                        found,
                        found[i],
                        #[trigger] end[i],
                    ) by {
                        assert(in_round(send, agents, found, waiting, k as int, found[i], end[i]));
                    }
                    assert(round_step(send, agents, found, end));
                    let longer = states.push(end);
                    assert forall|r: int| 0 <= r < longer.len() - 1 implies round_step(
                        send,
                        agents,
                        #[trigger] longer[r],
                        longer[r + 1],
                    ) by {
                        if r < states.len() - 1 {
                            assert(round_step(send, agents, states[r], states[r + 1]));
                        }
                    }
                    states = longer;
                    assert forall|i: int|
                        0 <= i < start.len() implies (#[trigger] end[i]) == start[i].with_state(
                        end[i].status,
                        end[i].result,
                    ) by {
                        assert(found[i] == start[i].with_state(found[i].status, found[i].result));
                    }
                }
            },
        }
    }
}

impl Workflow {
    /// Runs the workflow to its end with [`execute_workflow`], unless a task
    /// is running already: then nothing is done, and the result is `None`.
    pub fn run<F>(&mut self, send: &F) -> (outcome: Option<RunOutcome>) where
        F: Fn(&Agent, &Prompt) -> Result<ChatResponse, AgentError>,

        requires
            forall|agent: &Agent, request: &Prompt| send.requires((agent, request)),
        ensures
            final(self).tasks.order() == old(self).tasks.order(),
            final(self).agents == old(self).agents,
            final(self).id == old(self).id,
            final(self).name == old(self).name,
            outcome is None <==> has_running(old(self).tasks@),
            outcome is None ==> final(self).tasks@ == old(self).tasks@,
            outcome matches Some(end) ==> {
                &&& run_of(
                    send,
                    agents_view(old(self).agents@),
                    old(self).tasks@,
                    final(self).tasks@,
                )
                &&& ready_tasks(final(self).tasks@).len() == 0
                &&& !has_running(final(self).tasks@)
                &&& end == RunOutcome::Completed <==> all_terminal(final(self).tasks@)
                &&& end == RunOutcome::Deadlocked <==> pending_count(final(self).tasks@) > 0
            },
    {
        if self.tasks.has_running() {
            None
        } else {
            Some(execute_workflow(self, send))
        }
    }
}

} // verus!
