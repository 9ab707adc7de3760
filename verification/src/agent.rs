//! Agents: who carries a task out, and what is sent to the provider for it.

use vstd::prelude::*;
use crate::error::AgentError;
use crate::ident::fresh_uuid;
use crate::message::{AgentResponse, ChatResponse, Message, MessageView, Prompt, PromptView};
use crate::name_map::NameMap;
use crate::task::{Task, TaskView};

verus! {

/// The services that an agent can talk to.
#[derive(Debug, Clone, Copy, PartialEq, Eq, Structural)]
pub enum Provider {
    OpenAI,
}

/// What the tasks that a task waits for have answered: for each of their
/// ids, the answer as a conversation.
pub type Context = NameMap<Vec<Message>>;

/// The mathematical value of a [`Context`].
pub type ContextView = Map<Seq<char>, Seq<MessageView>>;

/// The value of a context: each conversation taken by its view.
pub open spec fn context_view(context: Map<Seq<char>, Vec<Message>>) -> ContextView {
    context.map_values(|messages: Vec<Message>| messages.deep_view())
}

/// The turns that the context holds for the dependencies, dependency after
/// dependency. A dependency without an entry adds nothing.
pub open spec fn context_turns(
    dependencies: Seq<Seq<char>>,
    context: ContextView,
) -> Seq<MessageView>
    decreases dependencies.len(),
{
    if dependencies.len() == 0 {
        Seq::empty()
    } else {
        let earlier = context_turns(dependencies.drop_last(), context);
        if context.contains_key(dependencies.last()) {
            earlier + context[dependencies.last()]
        } else {
            earlier
        }
    }
}

/// What is sent to the provider for a task: its own prompt, with the turns of
/// the context put in front of its user messages, the last turn first.
pub open spec fn request_for(task: TaskView, context: ContextView) -> PromptView {
    PromptView {
        system_message: task.prompt.system_message,
        user_message: context_turns(task.dependencies, context).reverse()
            + task.prompt.user_message,
    }
}

/// The prompt of `task`, with what its dependencies answered put in front.
pub fn build_request(task: &Task, context: &Context) -> (request: Prompt)
    ensures
        request@ == request_for(task@, context_view(context@)),
{
    let ghost turns = context_view(context@);
    let ghost dependencies = task.dependencies.deep_view();
    let ghost own = task.prompt.user_message.deep_view();
    let mut request = task.prompt.clone();
    let mut k: usize = 0;
    while k < task.dependencies.len()
        invariant
            k <= task.dependencies.len(),
            turns == context_view(context@),
            dependencies == task.dependencies.deep_view(),
            request@.system_message == task@.prompt.system_message,
            request@.user_message == context_turns(dependencies.take(k as int), turns).reverse()
                + own,
        decreases task.dependencies.len() - k,
    {
        let ghost earlier = context_turns(dependencies.take(k as int), turns);
        proof {
            assert(dependencies.take(k as int + 1).drop_last() =~= dependencies.take(k as int));
            assert(dependencies.take(k as int + 1).last() == dependencies[k as int]);
        }
        match context.get(task.dependencies[k].as_str()) {
            Some(messages) => {
                let ghost said = messages.deep_view();
                assert(turns[dependencies[k as int]] == said);
                let mut j: usize = 0;
                while j < messages.len()
                    invariant
                        j <= messages.len(),
                        said == messages.deep_view(),
                        request@.system_message == task@.prompt.system_message,
                        request@.user_message == (earlier + said.take(j as int)).reverse() + own,
                    decreases messages.len() - j,
                {
                    let ghost before = request.user_message.deep_view();
                    request.user_message.insert(0, messages[j].clone());
                    proof {
                        assert(request.user_message.deep_view() =~= seq![said[j as int]] + before);
                        let longer = earlier + said.take(j as int + 1);
                        let shorter = earlier + said.take(j as int);
                        assert(longer.reverse() =~= seq![said[j as int]] + shorter.reverse());
                        assert(request@.user_message =~= longer.reverse() + own);
                    }
                    j += 1;
                }
                proof {
                    assert(said.take(j as int) =~= said);
                }
            },
            None => {
                proof {
                    assert(earlier + Seq::<MessageView>::empty() =~= earlier);
                }
            },
        }
        k += 1;
    }
    proof {
        assert(dependencies.take(k as int) =~= dependencies);
    }
    request
}

/// One who carries tasks out by asking a provider.
#[derive(Debug, PartialEq, Eq)]
pub struct Agent {
    pub id: String,
    pub provider: Provider,
}

/// The mathematical value of an [`Agent`].
pub struct AgentView {
    pub id: Seq<char>,
    pub provider: Provider,
}

impl View for Agent {
    type V = AgentView;

    open spec fn view(&self) -> AgentView {
        AgentView { id: self.id@, provider: self.provider }
    }
}

impl DeepView for Agent {
    type V = AgentView;

    open spec fn deep_view(&self) -> AgentView {
        self.view()
    }
}

impl Clone for Agent {
    fn clone(&self) -> (copy: Self)
        ensures
            copy@ == self@,
    {
        Agent { id: self.id.clone(), provider: self.provider }
    }
}

impl Agent {
    /// An agent for `provider` under a fresh id.
    pub fn new(provider: Provider) -> (agent: Self)
        ensures
            agent.provider == provider,
            agent.id@.len() == 36,
    {
        Agent::with_id(fresh_uuid(), provider)
    }

    /// An agent for `provider` under the given id.
    pub fn with_id(id: String, provider: Provider) -> (agent: Self)
        ensures
            agent@ == (AgentView { id: id@, provider }),
    {
        Agent { id, provider }
    }

    /// Carries `task` out: sends its request, built from its prompt and
    /// `context`, through `send`, and attributes the answer to the task. An
    /// error of `send` is handed on as it is.
    pub fn execute_task<F>(&self, task: &Task, context: &Context, send: &F) -> (outcome: Result<
        AgentResponse,
        AgentError,
    >) where F: Fn(&Agent, &Prompt) -> Result<ChatResponse, AgentError>
        requires
            forall|agent: &Agent, request: &Prompt| send.requires((agent, request)),
        ensures
            sent(send, *self, request_for(task@, context_view(context@)), reply_of(outcome)),
            outcome matches Ok(answer) ==> answer.id@ == task.id@,
    {
        let request = build_request(task, context);
        let reply = send(self, &request);
        assert(send.ensures((self, &request), reply));
        match reply {
            Ok(response) => Ok(AgentResponse::new(task.id.clone(), response)),
            Err(error) => Err(error),
        }
    }
}

/// What the provider said, without the attribution to a task.
pub open spec fn reply_of(outcome: Result<AgentResponse, AgentError>) -> Result<
    ChatResponse,
    AgentError,
> {
    match outcome {
        Ok(answer) => Ok(answer.response),
        Err(error) => Err(error),
    }
}

/// `send` was called for `agent` with a request of the value `request` and
/// came back with `reply`.
pub open spec fn sent<F: Fn(&Agent, &Prompt) -> Result<ChatResponse, AgentError>>(
    send: &F,
    agent: Agent,
    request: PromptView,
    reply: Result<ChatResponse, AgentError>,
) -> bool {
    exists|prompt: Prompt| prompt@ == request && #[trigger] send.ensures((&agent, &prompt), reply)
}

} // verus!
