//! Conversation data: what a task sends to its provider and what comes back.

use vstd::prelude::*;

verus! {

/// Who speaks in one turn of a conversation.
#[derive(Debug, Clone, Copy, PartialEq, Eq, Structural)]
pub enum Role {
    User,
    Assistant,
    Developer,
    Tool,
}

/// One turn of a conversation.
#[derive(Debug, PartialEq, Eq)]
pub struct Message {
    pub role: Role,
    pub content: String,
}

/// The mathematical value of a [`Message`].
pub struct MessageView {
    pub role: Role,
    pub content: Seq<char>,
}

impl View for Message {
    type V = MessageView;

    open spec fn view(&self) -> MessageView {
        MessageView { role: self.role, content: self.content@ }
    }
}

impl DeepView for Message {
    type V = MessageView;

    open spec fn deep_view(&self) -> MessageView {
        self.view()
    }
}

impl Clone for Message {
    fn clone(&self) -> (copy: Self)
        ensures
            copy@ == self@,
    {
        Message { role: self.role, content: self.content.clone() }
    }
}

impl Message {
    /// A message with the given role and text.
    pub fn new(role: Role, content: &str) -> (message: Self)
        ensures
            message@ == (MessageView { role, content: content@ }),
    {
        Message { role, content: content.to_owned() }
    }
}

/// A copy of a list of messages, turn for turn.
fn clone_messages(messages: &Vec<Message>) -> (copy: Vec<Message>)
    ensures
        copy.deep_view() == messages.deep_view(),
{
    let mut copy: Vec<Message> = Vec::new();
    let mut i: usize = 0;
    while i < messages.len()
        invariant
            i <= messages.len(),
            copy.len() == i,
            forall|j: int| 0 <= j < i ==> copy[j]@ == messages[j]@,
        decreases messages.len() - i,
    {
        copy.push(messages[i].clone());
        i += 1;
    }
    assert(copy.deep_view() =~= messages.deep_view());
    copy
}

/// The payload of a task: the instructions for the provider and the
/// conversation so far.
#[derive(Debug, PartialEq, Eq)]
pub struct Prompt {
    pub system_message: Vec<Message>,
    pub user_message: Vec<Message>,
}

/// The mathematical value of a [`Prompt`].
pub struct PromptView {
    pub system_message: Seq<MessageView>,
    pub user_message: Seq<MessageView>,
}

impl View for Prompt {
    type V = PromptView;

    open spec fn view(&self) -> PromptView {
        PromptView {
            system_message: self.system_message.deep_view(),
            user_message: self.user_message.deep_view(),
        }
    }
}

impl DeepView for Prompt {
    type V = PromptView;

    open spec fn deep_view(&self) -> PromptView {
        self.view()
    }
}

impl Clone for Prompt {
    fn clone(&self) -> (copy: Self)
        ensures
            copy@ == self@,
    {
        Prompt {
            system_message: clone_messages(&self.system_message),
            user_message: clone_messages(&self.user_message),
        }
    }
}

impl Prompt {
    /// A prompt that holds one user message and no system message.
    pub fn new(text: &str) -> (prompt: Self)
        ensures
            prompt@.system_message == Seq::<MessageView>::empty(),
            prompt@.user_message == seq![MessageView { role: Role::User, content: text@ }],
    {
        let mut user_message: Vec<Message> = Vec::new();
        user_message.push(Message::new(Role::User, text));
        let prompt = Prompt { system_message: Vec::new(), user_message };
        assert(prompt@.system_message =~= Seq::<MessageView>::empty());
        assert(prompt@.user_message =~= seq![MessageView { role: Role::User, content: text@ }]);
        prompt
    }
}

/// What a provider answered to one request.
#[derive(Debug, PartialEq, Eq)]
pub struct ChatResponse {
    pub content: String,
}

/// The mathematical value of a [`ChatResponse`].
pub struct ChatResponseView {
    pub content: Seq<char>,
}

impl ChatResponseView {
    /// The answer as a conversation: one turn, spoken by `role`.
    pub open spec fn as_messages(self, role: Role) -> Seq<MessageView> {
        seq![MessageView { role, content: self.content }]
    }
}

impl View for ChatResponse {
    type V = ChatResponseView;

    open spec fn view(&self) -> ChatResponseView {
        ChatResponseView { content: self.content@ }
    }
}

impl DeepView for ChatResponse {
    type V = ChatResponseView;

    open spec fn deep_view(&self) -> ChatResponseView {
        self.view()
    }
}

impl Clone for ChatResponse {
    fn clone(&self) -> (copy: Self)
        ensures
            copy@ == self@,
    {
        ChatResponse { content: self.content.clone() }
    }
}

impl ChatResponse {
    /// An answer with the given text.
    pub fn new(content: &str) -> (response: Self)
        ensures
            response@.content == content@,
    {
        ChatResponse { content: content.to_owned() }
    }

    /// The answer as a conversation: one turn, spoken by `role`.
    pub fn to_message(&self, role: Role) -> (messages: Vec<Message>)
        ensures
            messages.deep_view() == self@.as_messages(role),
    {
        let mut messages: Vec<Message> = Vec::new();
        messages.push(Message { role, content: self.content.clone() });
        assert(messages.deep_view() =~= self@.as_messages(role));
        messages
    }
}

/// The answer to one task, with the id of the task it belongs to.
#[derive(Debug, PartialEq, Eq)]
pub struct AgentResponse {
    pub id: String,
    pub response: ChatResponse,
}

/// The mathematical value of an [`AgentResponse`].
pub struct AgentResponseView {
    pub id: Seq<char>,
    pub response: ChatResponseView,
}

impl View for AgentResponse {
    type V = AgentResponseView;

    open spec fn view(&self) -> AgentResponseView {
        AgentResponseView { id: self.id@, response: self.response@ }
    }
}

impl AgentResponse {
    /// Attributes `response` to the task `id`.
    pub fn new(id: String, response: ChatResponse) -> (answer: Self)
        ensures
            answer.id == id,
            answer.response == response,
    {
        AgentResponse { id, response }
    }
}

} // verus!
