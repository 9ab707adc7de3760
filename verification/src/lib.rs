//! Dependency-aware scheduling of tasks that are carried out by named agents.
//!
//! A [`Workflow`] holds a graph of tasks and the agents registered for them.
//! It is run in rounds: each round hands out the tasks whose dependencies are
//! completed, with what those dependencies answered, and the outcomes are
//! written back before the next round begins. [`execute_workflow`] runs all
//! rounds in the calling thread; [`Workflow::next_round`] and
//! [`Workflow::settle`] are the two halves of a round for a caller that
//! carries the tasks out by other means.

pub mod agent;
pub mod error;
mod ident;
pub mod laws;
pub mod message;
pub mod model;
pub mod name_map;
pub mod order;
pub mod progress;
pub mod run;
pub mod task;
pub mod task_list;
mod traversal;
pub mod workflow;

pub use crate::agent::{Agent, Context, Provider, build_request};
pub use crate::error::AgentError;
pub use crate::message::{AgentResponse, ChatResponse, Message, Prompt, Role};
pub use crate::name_map::NameMap;
pub use crate::run::execute_workflow;
pub use crate::task::{Task, TaskStatus};
pub use crate::task_list::TaskList;
pub use crate::workflow::{Dispatch, Round, RunOutcome, Workflow, build_context};
