//! The workflow: a task graph, the agents registered for it, and the rounds
//! in which the ready tasks are handed out and their outcomes written back.

use vstd::prelude::*;
use crate::agent::{Agent, AgentView, Context, ContextView, context_view};
use crate::error::AgentError;
use crate::ident::fresh_uuid;
use crate::message::{AgentResponse, ChatResponseView, Role};
use crate::model::{
    Graph, all_terminal, distinct_ids, is_ready, lemma_position_holds, lemma_position_is,
    lemma_ready_membership, lookup, pending_count, position, ready_tasks, upsert,
};
use crate::name_map::NameMap;
use crate::order::execution_order_of;
use crate::task::{Task, TaskStatus, TaskView};
use crate::task_list::TaskList;

verus! {

/// The task with the id `id` is in the graph, is completed and has a result.
pub open spec fn answered(g: Graph, id: Seq<char>) -> bool {
    lookup(g, id) matches Some(t) && t.status == TaskStatus::Completed && t.result is Some
}

/// The context of a task with the given dependencies: for each dependency
/// that is completed with a result, that result as a turn of the assistant.
/// A dependency that is missing, not completed or without a result adds
/// nothing.
pub open spec fn context_of(g: Graph, dependencies: Seq<Seq<char>>) -> ContextView {
    Map::new(
        |id: Seq<char>| dependencies.contains(id) && answered(g, id),
        |id: Seq<char>| lookup(g, id).unwrap().result.unwrap().as_messages(Role::Assistant),
    )
}

/// Collects for `task` what the tasks it waits for have answered.
pub fn build_context(tasks: &TaskList, task: &Task) -> (context: Context)
    ensures
        context_view(context@) == context_of(tasks@, task@.dependencies),
{
    let ghost g = tasks@;
    let ghost dependencies = task.dependencies.deep_view();
    let mut context: Context = NameMap::new();
    assert(context_view(context@) =~= context_of(g, dependencies.take(0)));
    let mut k: usize = 0;
    while k < task.dependencies.len()
        invariant
            k <= task.dependencies.len(),
            g == tasks@,
            dependencies == task.dependencies.deep_view(),
            context_view(context@) == context_of(g, dependencies.take(k as int)),
        decreases task.dependencies.len() - k,
    {
        let ghost id = dependencies[k as int];
        let ghost before = context@;
        let ghost shorter = dependencies.take(k as int);
        let ghost longer = dependencies.take(k as int + 1);
        proof {
            assert(longer =~= shorter.push(id));
            assert forall|other: Seq<char>|
                longer.contains(other) <==> (shorter.contains(other) || other
                == id) by {
                if shorter.contains(other) {
                    let j = choose|j: int| 0 <= j < shorter.len() && shorter[j] == other;
                    assert(longer[j] == other);
                }
                if other == id {
                    assert(longer[k as int] == other);
                }
            }
        }
        let answer = match tasks.get_task(task.dependencies[k].as_str()) {
            Some(dependency) => match dependency.status {
                TaskStatus::Completed => dependency.result.as_ref(),
                _ => None,
            },
            None => None,
        };
        match answer {
            Some(result) => {
                let messages = result.to_message(Role::Assistant);
                context.insert(task.dependencies[k].clone(), messages);
                proof {
                    assert(context_view(context@) =~= context_view(before).insert(
                        id,
                        messages.deep_view(),
                    ));
                    assert(answered(g, id));
                    assert(context_of(g, longer) =~= context_of(g, shorter).insert(
                        id,
                        messages.deep_view(),
                    ));
                }
            },
            None => {
                assert(!answered(g, id));
                assert(context_of(g, shorter) =~= context_of(g, longer));
            },
        }
        k += 1;
    }
    proof {
        assert(dependencies.take(k as int) =~= dependencies);
    }
    context
}

/// One ready task as it is handed out: the task as it was found, what its
/// dependencies answered, and the agent registered under its agent id.
/// Without such an agent there is nothing to carry out, and the task has
/// failed already.
#[derive(Debug)]
pub struct Dispatch {
    pub task: Task,
    pub context: Context,
    pub agent: Option<Agent>,
}

/// The mathematical value of a [`Dispatch`].
pub struct DispatchView {
    pub task: TaskView,
    pub context: ContextView,
    pub agent: Option<AgentView>,
}

impl View for Dispatch {
    type V = DispatchView;

    open spec fn view(&self) -> DispatchView {
        DispatchView {
            task: self.task@,
            context: context_view(self.context@),
            agent: self.agent.deep_view(),
        }
    }
}

impl DeepView for Dispatch {
    type V = DispatchView;

    open spec fn deep_view(&self) -> DispatchView {
        self.view()
    }
}

/// What a workflow does next.
#[derive(Debug)]
pub enum Round {
    /// Every task is completed or failed: the run is over.
    Completed,
    /// No task is ready although some are pending: the run cannot go on.
    Deadlocked,
    /// No task is ready and none is pending, but some are still running.
    Idle,
    /// These tasks were ready and have been started.
    Dispatched(Vec<Dispatch>),
}

/// How a run ended.
#[derive(Debug, Clone, Copy, PartialEq, Eq, Structural)]
pub enum RunOutcome {
    /// Every task is completed or failed.
    Completed,
    /// Tasks are left pending that can never become ready.
    Deadlocked,
}

/// The mathematical value of the registered agents, by name.
pub type AgentsView = Map<Seq<char>, AgentView>;

/// The value of a registry: each agent taken by its view.
pub open spec fn agents_view(agents: Map<Seq<char>, Agent>) -> AgentsView {
    agents.map_values(|agent: Agent| agent@)
}

/// The agent registered for a task, if there is one.
pub open spec fn agent_for(agents: AgentsView, t: TaskView) -> Option<AgentView> {
    if agents.contains_key(t.agent_id) {
        Some(agents[t.agent_id])
    } else {
        None
    }
}

/// What is handed out for the ready task `t`.
pub open spec fn dispatch_of(g: Graph, agents: AgentsView, t: TaskView) -> DispatchView {
    DispatchView { task: t, context: context_of(g, t.dependencies), agent: agent_for(agents, t) }
}

/// What a round hands out: one dispatch for each ready task, in the graph's
/// order.
pub open spec fn plan(g: Graph, agents: AgentsView) -> Seq<DispatchView> {
    ready_tasks(g).map_values(|t: TaskView| dispatch_of(g, agents, t))
}

/// A ready task after it was handed out: running where an agent is
/// registered for it, failed where none is.
pub open spec fn started(t: TaskView, bound: bool) -> TaskView {
    if bound {
        t.with_state(TaskStatus::Running, None)
    } else {
        t.with_state(TaskStatus::Failed, None)
    }
}

/// The graph after a round was handed out: the ready tasks are started, the
/// others are as they were.
pub open spec fn after_dispatch(g: Graph, registered: Set<Seq<char>>) -> Graph {
    Seq::new(
        g.len(),
        |i: int|
            if is_ready(g, g[i]) {
                started(g[i], registered.contains(g[i].agent_id))
            } else {
                g[i]
            },
    )
}

/// A task after its agent came back: completed with the answer, or failed
/// where there is none.
pub open spec fn finished(t: TaskView, answer: Option<ChatResponseView>) -> TaskView {
    match answer {
        Some(response) => t.with_state(TaskStatus::Completed, Some(response)),
        None => t.with_state(TaskStatus::Failed, None),
    }
}

/// The graph after the agent of the task with the id `id` came back. Only a
/// running task takes an outcome.
pub open spec fn after_outcome(g: Graph, id: Seq<char>, answer: Option<ChatResponseView>) -> Graph {
    match position(g, id) {
        Some(i) => if g[i].status == TaskStatus::Running {
            g.update(i, finished(g[i], answer))
        } else {
            g
        },
        None => g,
    }
}

/// The answer that an outcome carries, if it is a success.
pub open spec fn answer_of(outcome: Result<AgentResponse, AgentError>) -> Option<ChatResponseView> {
    match outcome {
        Ok(answer) => Some(answer.response@),
        Err(_) => None,
    }
}

/// A task graph with the agents that carry its tasks out.
#[derive(Debug)]
pub struct Workflow {
    pub id: String,
    pub name: String,
    pub tasks: TaskList,
    pub agents: NameMap<Agent>,
}

impl Clone for Workflow {
    fn clone(&self) -> (copy: Self)
        ensures
            copy.id == self.id,
            copy.name == self.name,
            copy.tasks@ == self.tasks@,
            copy.tasks.order() == self.tasks.order(),
            agents_view(copy.agents@) == agents_view(self.agents@),
    {
        let agents = self.agents.clone();
        proof {
            assert(agents_view(agents@) =~= agents_view(self.agents@));
        }
        Workflow { id: self.id.clone(), name: self.name.clone(), tasks: self.tasks.clone(), agents }
    }
}

impl Workflow {
    /// An empty workflow under a fresh id.
    pub fn new(name: String) -> (workflow: Self)
        ensures
            workflow.name == name,
            workflow.id@.len() == 36,
            workflow.tasks@ == Seq::<TaskView>::empty(),
            workflow.agents@ == Map::<Seq<char>, Agent>::empty(),
    {
        Workflow::with_id(fresh_uuid(), name)
    }

    /// An empty workflow under the given id.
    pub fn with_id(id: String, name: String) -> (workflow: Self)
        ensures
            workflow.id == id,
            workflow.name == name,
            workflow.tasks@ == Seq::<TaskView>::empty(),
            workflow.agents@ == Map::<Seq<char>, Agent>::empty(),
    {
        Workflow { id, name, tasks: TaskList::new(), agents: NameMap::new() }
    }

    /// Adds `task` to the graph. A task that had the same id is replaced.
    /// The task is considered from the next round on.
    pub fn add_task(&mut self, task: Task)
        ensures
            final(self).tasks@ == upsert(old(self).tasks@, task@),
            final(self).tasks.order() == execution_order_of(final(self).tasks@),
            final(self).agents == old(self).agents,
            final(self).id == old(self).id,
            final(self).name == old(self).name,
    {
        self.tasks.add_task(task);
    }

    /// Registers `agent` under `name`. An agent that was registered under the
    /// same name is replaced.
    pub fn add_agent(&mut self, name: &str, agent: Agent)
        ensures
            final(self).agents@ == old(self).agents@.insert(name@, agent),
            final(self).tasks == old(self).tasks,
            final(self).id == old(self).id,
            final(self).name == old(self).name,
    {
        self.agents.insert(name.to_owned(), agent);
    }

    /// Whether every task is completed or failed.
    pub fn is_complete(&self) -> (done: bool)
        ensures
            done == all_terminal(self.tasks@),
    {
        self.tasks.is_complete()
    }

    /// How many tasks are pending.
    pub fn pending_count(&self) -> (count: usize)
        ensures
            count == pending_count(self.tasks@),
    {
        self.tasks.pending_count()
    }

    /// Writes back how the agent of the task `task_id` came back: the task is
    /// completed with the answer, or failed. Only a running task takes an
    /// outcome: for any other task, and for an id that stands for no task,
    /// nothing changes.
    pub fn settle(&mut self, task_id: &str, outcome: Result<AgentResponse, AgentError>)
        ensures
            final(self).tasks@ == after_outcome(old(self).tasks@, task_id@, answer_of(outcome)),
            final(self).tasks.order() == old(self).tasks.order(),
            final(self).agents == old(self).agents,
            final(self).id == old(self).id,
            final(self).name == old(self).name,
    {
        let running = match self.tasks.get_task(task_id) {
            Some(task) => task.status == TaskStatus::Running,
            None => false,
        };
        proof {
            lemma_position_holds(self.tasks@, task_id@);
        }
        if running {
            match outcome {
                Ok(answer) => {
                    let result = Some(answer.response);
                    self.tasks.update_task_status(task_id, TaskStatus::Completed, result);
                },
                Err(_) => {
                    self.tasks.update_task_status(task_id, TaskStatus::Failed, None);
                },
            }
        }
    }

    /// What is handed out for `task`: its context and its agent.
    fn assign(&self, task: &Task) -> (dispatch: Dispatch)
        ensures
            dispatch@ == dispatch_of(self.tasks@, agents_view(self.agents@), task@),
    {
        let context = build_context(&self.tasks, task);
        let agent = match self.agents.get(task.agent_id.as_str()) {
            Some(agent) => Some(agent.clone()),
            None => None,
        };
        Dispatch { task: task.clone(), context, agent }
    }

    /// Decides what the workflow does next. Where tasks are ready, each of
    /// them is started, that is, set to `Running`, or to `Failed` where no
    /// agent is registered under its agent id, and handed out with its
    /// context. Otherwise nothing changes, and the result says why no task
    /// was handed out.
    pub fn next_round(&mut self) -> (round: Round)
        ensures
            final(self).tasks.order() == old(self).tasks.order(),
            final(self).agents == old(self).agents,
            final(self).id == old(self).id,
            final(self).name == old(self).name,
            match round {
                Round::Completed => {
                    &&& all_terminal(old(self).tasks@)
                    &&& final(self).tasks@ == old(self).tasks@
                },
                Round::Deadlocked => {
                    &&& !all_terminal(old(self).tasks@)
                    &&& ready_tasks(old(self).tasks@).len() == 0
                    &&& pending_count(old(self).tasks@) > 0
                    &&& final(self).tasks@ == old(self).tasks@
                },
                Round::Idle => {
                    &&& !all_terminal(old(self).tasks@)
                    &&& ready_tasks(old(self).tasks@).len() == 0
                    &&& pending_count(old(self).tasks@) == 0
                    &&& final(self).tasks@ == old(self).tasks@
                },
                Round::Dispatched(dispatches) => {
                    &&& ready_tasks(old(self).tasks@).len() > 0
                    &&& dispatches.deep_view() == plan(
                        old(self).tasks@,
                        agents_view(old(self).agents@),
                    )
                    &&& final(self).tasks@ == after_dispatch(
                        old(self).tasks@,
                        old(self).agents@.dom(),
                    )
                },
            },
    {
        if self.tasks.is_complete() {
            return Round::Completed;
        }
        let ready = self.tasks.get_ready_tasks();
        if ready.len() == 0 {
            if self.tasks.pending_count() > 0 {
                return Round::Deadlocked;
            }
            return Round::Idle;
        }
        let ghost g = self.tasks@;
        let ghost agents = agents_view(self.agents@);
        let ghost waiting = ready.deep_view();
        let mut dispatches: Vec<Dispatch> = Vec::new();
        let mut k: usize = 0;
        while k < ready.len()
            invariant
                k <= ready.len(),
                *self == *old(self),
                g == self.tasks@,
                agents == agents_view(self.agents@),
                waiting == ready.deep_view(),
                dispatches.len() == k,
                forall|j: int|
                    0 <= j < k ==>
                        (#[trigger] dispatches[j])@ == dispatch_of(g, agents, waiting[j]),
            decreases ready.len() - k,
        {
            let dispatch = self.assign(&ready[k]);
            dispatches.push(dispatch);
            k += 1;
        }
        assert(dispatches.deep_view() =~= plan(g, agents));
        proof {
            use_type_invariant(&self.tasks);
            self.tasks.lemma_well_formed();
            lemma_ready_membership(g);
        }
        let ghost registered = self.agents@.dom();
        let mut k: usize = 0;
        while k < ready.len()
            invariant
                k <= ready.len(),
                self.tasks.order() == old(self).tasks.order(),
                self.agents == old(self).agents,
                self.id == old(self).id,
                self.name == old(self).name,
                g == old(self).tasks@,
                distinct_ids(g),
                registered == old(self).agents@.dom(),
                agents == agents_view(old(self).agents@),
                waiting == ready.deep_view(),
                waiting == ready_tasks(g),
                dispatches.len() == ready.len(),
                forall|j: int|
                    0 <= j < dispatches.len() ==>
                        (#[trigger] dispatches[j])@ == dispatch_of(g, agents, waiting[j]),
                forall|t: TaskView| waiting.contains(t) <==> g.contains(t) && is_ready(g, t),
                self.tasks@.len() == g.len(),
                forall|i: int|
                    0 <= i < g.len() ==> (#[trigger] self.tasks@[i]) == partly_started(
                        g,
                        waiting,
                        k as int,
                        registered,
                        i,
                    ),
            decreases ready.len() - k,
        {
            let status = if dispatches[k].agent.is_some() {
                TaskStatus::Running
            } else {
                TaskStatus::Failed
            };
            let ghost current = self.tasks@;
            let ghost t = waiting[k as int];
            proof {
                assert(dispatches[k as int]@ == dispatch_of(g, agents, t));
                assert(dispatches[k as int].agent.is_some() == registered.contains(t.agent_id));
                assert(waiting.contains(t));
                let p = choose|p: int| 0 <= p < g.len() && g[p] == t;
                assert(is_ready(g, g[p]));
                assert forall|i: int, j: int|
                    0 <= i < j < current.len()
                    implies (#[trigger] current[i]).id != (#[trigger] current[j]).id by {
                    assert(g[i].id != g[j].id);
                }
                lemma_position_is(current, t.id, p);
                assert forall|i: int|
                    0 <= i < g.len() && i != p implies handed_out(waiting, k as int + 1, g[i].id)
                    == handed_out(waiting, k as int, g[i].id) by {
                    if i < p {
                        assert(g[i].id != g[p].id);
                    } else {
                        assert(g[p].id != g[i].id);
                    }
                    if handed_out(waiting, k as int + 1, g[i].id) {
                        let m = choose|m: int|
                            0 <= m < k as int + 1 && (#[trigger] waiting[m]).id == g[i].id;
                        assert(m < k);
                    }
                }
                assert(handed_out(waiting, k as int + 1, g[p].id)) by {
                    assert(waiting[k as int].id == g[p].id);
                }
            }
            self.tasks.update_task_status(ready[k].id.as_str(), status, None);
            k += 1;
        }
        proof {
            let end = self.tasks@;
            let target = after_dispatch(g, registered);
            assert forall|i: int| 0 <= i < g.len() implies end[i] == target[i] by {
                if is_ready(g, g[i]) {
                    assert(g.contains(g[i]));
                    assert(waiting.contains(g[i]));
                    let m = choose|m: int| 0 <= m < waiting.len() && waiting[m] == g[i];
                    assert(waiting[m].id == g[i].id);
                    assert(handed_out(waiting, k as int, g[i].id));
                }
                if handed_out(waiting, k as int, g[i].id) {
                    let m = choose|m: int|
                        0 <= m < k as int && (#[trigger] waiting[m]).id == g[i].id;
                    assert(waiting.contains(waiting[m]));
                    assert(g.contains(waiting[m]));
                    let p = choose|p: int| 0 <= p < g.len() && g[p] == waiting[m];
                    if p < i {
                        assert(g[p].id != g[i].id);
                    } else if i < p {
                        assert(g[i].id != g[p].id);
                    }
                    assert(is_ready(g, g[i]));
                }
            }
            assert(end =~= target);
        }
        Round::Dispatched(dispatches)
    }
}

/// The task at `i` while a round is being handed out: started if it is one
/// of the first `k` tasks of `waiting`, else as it was.
pub open spec fn partly_started(
    g: Graph,
    waiting: Seq<TaskView>,
    k: int,
    registered: Set<Seq<char>>,
    i: int,
) -> TaskView {
    if handed_out(waiting, k, g[i].id) {
        started(g[i], registered.contains(g[i].agent_id))
    } else {
        g[i]
    }
}

/// One of the first `k` tasks of `waiting` has the id `id`.
pub open spec fn handed_out(waiting: Seq<TaskView>, k: int, id: Seq<char>) -> bool {
    exists|m: int| 0 <= m < k && m < waiting.len() && (#[trigger] waiting[m]).id == id
}

} // verus!
