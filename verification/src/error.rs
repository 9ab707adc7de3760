//! Why a call to a provider failed.

use vstd::prelude::*;

verus! {

/// The ways in which an agent can fail to obtain an answer from its provider.
/// The detail of a failure, where there is one, is carried as plain text or
/// as the HTTP status that the provider answered with.
#[derive(Debug, PartialEq, Eq)]
pub enum AgentError {
    /// A header value for the client could not be built.
    CreateHeaderValueError,
    /// A header name for the client could not be built.
    CreateHeaderNameError,
    /// The client itself could not be built.
    CreateClientError(String),
    /// The request did not reach the provider, or no answer came back.
    RequestError(String),
    /// The request could not be written out, or the answer could not be read.
    SerializationError(String),
    /// The provider answered with a status that is no success.
    ChatCompletionError(u16),
}

impl Clone for AgentError {
    fn clone(&self) -> (copy: Self)
        ensures
            copy == *self,
    {
        match self {
            AgentError::CreateHeaderValueError => AgentError::CreateHeaderValueError,
            AgentError::CreateHeaderNameError => AgentError::CreateHeaderNameError,
            AgentError::CreateClientError(detail) => AgentError::CreateClientError(detail.clone()),
            AgentError::RequestError(detail) => AgentError::RequestError(detail.clone()),
            AgentError::SerializationError(detail) => {
                AgentError::SerializationError(detail.clone())
            },
            AgentError::ChatCompletionError(status) => AgentError::ChatCompletionError(*status),
        }
    }
}

} // verus!
