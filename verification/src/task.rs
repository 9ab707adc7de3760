//! A unit of work: what it waits for, who carries it out, and how far it is.

use vstd::prelude::*;
use crate::message::{ChatResponse, ChatResponseView, Prompt, PromptView};

verus! {

/// Where a task stands in its life: it starts `Pending`, is `Running` while an
/// agent works on it, and ends as `Completed` or `Failed`.
#[derive(Debug, Clone, Copy, PartialEq, Eq, Structural)]
pub enum TaskStatus {
    Pending,
    Running,
    Completed,
    Failed,
}

impl TaskStatus {
    /// A terminal status is never left again.
    pub open spec fn terminal(self) -> bool {
        self == TaskStatus::Completed || self == TaskStatus::Failed
    }

    /// Whether the status is `Completed` or `Failed`.
    pub fn is_terminal(&self) -> (r: bool)
        ensures
            r == self.terminal(),
    {
        match self {
            TaskStatus::Completed => true,
            TaskStatus::Failed => true,
            _ => false,
        }
    }
}

/// A unit of work in a workflow.
#[derive(Debug, PartialEq, Eq)]
pub struct Task {
    /// The name by which the workflow knows the task.
    pub id: String,
    /// The name under which the agent that carries it out is registered.
    pub agent_id: String,
    /// What is sent to the provider.
    pub prompt: Prompt,
    /// The ids of the tasks that must be completed first.
    pub dependencies: Vec<String>,
    pub status: TaskStatus,
    /// The answer, once the task is completed.
    pub result: Option<ChatResponse>,
}

/// The mathematical value of a [`Task`].
pub struct TaskView {
    pub id: Seq<char>,
    pub agent_id: Seq<char>,
    pub prompt: PromptView,
    pub dependencies: Seq<Seq<char>>,
    pub status: TaskStatus,
    pub result: Option<ChatResponseView>,
}

impl TaskView {
    /// The same task with another status and result.
    pub open spec fn with_state(
        self,
        status: TaskStatus,
        result: Option<ChatResponseView>,
    ) -> TaskView {
        TaskView { status, result, ..self }
    }
}

impl View for Task {
    type V = TaskView;

    open spec fn view(&self) -> TaskView {
        TaskView {
            id: self.id@,
            agent_id: self.agent_id@,
            prompt: self.prompt@,
            dependencies: self.dependencies.deep_view(),
            status: self.status,
            result: self.result.deep_view(),
        }
    }
}

impl DeepView for Task {
    type V = TaskView;

    open spec fn deep_view(&self) -> TaskView {
        self.view()
    }
}

/// A copy of an answer that may be absent.
fn clone_result(result: &Option<ChatResponse>) -> (copy: Option<ChatResponse>)
    ensures
        copy.deep_view() == result.deep_view(),
{
    match result {
        Some(response) => Some(response.clone()),
        None => None,
    }
}

/// Being another id than `own`, as a predicate on ids.
pub open spec fn other_than(own: Seq<char>) -> spec_fn(Seq<char>) -> bool {
    |id: Seq<char>| id != own
}

/// The ids in `ids` that differ from `own`, in their order.
pub open spec fn without_id(ids: Seq<Seq<char>>, own: Seq<char>) -> Seq<Seq<char>> {
    ids.filter(other_than(own))
}

impl Clone for Task {
    fn clone(&self) -> (copy: Self)
        ensures
            copy@ == self@,
    {
        let dependencies = self.dependencies.clone();
        assert(dependencies.deep_view() =~= self.dependencies.deep_view());
        Task {
            id: self.id.clone(),
            agent_id: self.agent_id.clone(),
            prompt: self.prompt.clone(),
            dependencies,
            status: self.status,
            result: clone_result(&self.result),
        }
    }
}

impl Task {
    /// A pending task without a result. A task cannot wait for itself: its
    /// own id is left out of its dependencies.
    pub fn new(id: &str, agent_id: &str, prompt: Prompt, dependencies: Vec<String>) -> (task: Self)
        ensures
            task@ == (TaskView {
                id: id@,
                agent_id: agent_id@,
                prompt: prompt@,
                dependencies: without_id(dependencies.deep_view(), id@),
                status: TaskStatus::Pending,
                result: None,
            }),
    {
        let own = id.to_owned();
        let ghost all = dependencies.deep_view();
        let mut kept: Vec<String> = Vec::new();
        let mut i: usize = 0;
        while i < dependencies.len()
            invariant
                i <= dependencies.len(),
                own@ == id@,
                all == dependencies.deep_view(),
                kept.deep_view() == all.take(i as int).filter(other_than(id@)),
            decreases dependencies.len() - i,
        {
            proof {
                assert(all.take(i as int + 1) =~= all.take(i as int).push(all[i as int]));
                all.take(i as int).lemma_filter_push(all[i as int], other_than(id@));
            }
            if dependencies[i] != own {
                let ghost before = kept.deep_view();
                kept.push(dependencies[i].clone());
                assert(kept.deep_view() =~= before.push(all[i as int]));
            }
            i += 1;
        }
        assert(all.take(i as int) =~= all);
        Task {
            id: own,
            agent_id: agent_id.to_owned(),
            prompt,
            dependencies: kept,
            status: TaskStatus::Pending,
            result: None,
        }
    }
}

} // verus!
