use std::cell::RefCell;

use agent_workflow::{
    build_context, execute_workflow, Agent, AgentError, AgentResponse, ChatResponse, Dispatch,
    Message, Prompt, Provider, Role, Round, RunOutcome, Task, TaskStatus, Workflow,
};

fn task(id: &str, agent: &str, dependencies: &[&str]) -> Task {
    let dependencies: Vec<String> = dependencies.iter().map(|d| d.to_string()).collect();
    Task::new(id, agent, Prompt::new(id), dependencies)
}

fn workflow() -> Workflow {
    Workflow::with_id("w-1".to_string(), "test".to_string())
}

fn agent(id: &str) -> Agent {
    Agent::with_id(id.to_string(), Provider::OpenAI)
}

fn status(workflow: &Workflow, id: &str) -> TaskStatus {
    workflow.tasks.get_task(id).unwrap().status
}

fn result(workflow: &Workflow, id: &str) -> Option<String> {
    workflow.tasks.get_task(id).unwrap().result.as_ref().map(|r| r.content.clone())
}

fn dispatched(round: Round) -> Vec<Dispatch> {
    match round {
        Round::Dispatched(dispatches) => dispatches,
        other => panic!("expected a round of dispatches, got {:?}", other),
    }
}

fn ids(dispatches: &[Dispatch]) -> Vec<String> {
    dispatches.iter().map(|d| d.task.id.clone()).collect()
}

fn heard(request: &Prompt) -> Vec<String> {
    request.user_message.iter().map(|m| m.content.clone()).collect()
}

/// Answers with the texts of the context, joined, where there is a context,
/// and with "1" where there is none.
fn echo(_: &Agent, request: &Prompt) -> Result<ChatResponse, AgentError> {
    let mut turns = heard(request);
    turns.pop();
    if turns.is_empty() {
        Ok(ChatResponse::new("1"))
    } else {
        turns.reverse();
        Ok(ChatResponse::new(&turns.join("+")))
    }
}

fn ok(id: &str, text: &str) -> Result<AgentResponse, AgentError> {
    Ok(AgentResponse::new(id.to_string(), ChatResponse::new(text)))
}

#[test]
fn new_workflow_is_empty() {
    let w = Workflow::new("flow".to_string());
    assert_eq!(w.name, "flow");
    assert_eq!(w.id.chars().count(), 36);
    assert_eq!(w.tasks.len(), 0);
    assert_eq!(w.agents.len(), 0);
    assert!(w.is_complete());
    assert_eq!(w.pending_count(), 0);
    let other = Workflow::new("flow".to_string());
    assert_ne!(w.id, other.id);
}

#[test]
fn workflow_with_id_keeps_id_and_name() {
    let w = workflow();
    assert_eq!(w.id, "w-1");
    assert_eq!(w.name, "test");
}

#[test]
fn add_task_and_add_agent_register() {
    let mut w = workflow();
    w.add_task(task("a", "x", &[]));
    w.add_agent("x", agent("agent-x"));
    assert_eq!(w.pending_count(), 1);
    assert!(!w.is_complete());
    assert_eq!(w.agents.get("x").unwrap().id, "agent-x");
    w.add_agent("x", agent("agent-y"));
    assert_eq!(w.agents.len(), 1);
    assert_eq!(w.agents.get("x").unwrap().id, "agent-y");
}

#[test]
fn empty_workflow_completes_at_once() {
    let mut w = workflow();
    assert!(matches!(w.next_round(), Round::Completed));
    assert_eq!(execute_workflow(&mut w, &echo), RunOutcome::Completed);
    assert_eq!(w.run(&echo), Some(RunOutcome::Completed));
}

#[test]
fn context_holds_the_result_under_the_id_of_the_dependency() {
    let mut w = workflow();
    w.add_task(task("a", "x", &[]));
    w.add_task(task("b", "x", &["a"]));
    let b = w.tasks.get_task("b").unwrap().clone();
    assert_eq!(build_context(&w.tasks, &b).len(), 0);
    w.tasks.update_task_status("a", TaskStatus::Running, None);
    w.tasks.update_task_status("a", TaskStatus::Completed, Some(ChatResponse::new("R")));
    let context = build_context(&w.tasks, &b);
    assert_eq!(context.len(), 1);
    assert_eq!(context.get("a"), Some(&vec![Message::new(Role::Assistant, "R")]));
    assert_eq!(context.get("b"), None);
}

#[test]
fn context_skips_dependencies_without_a_result() {
    let mut w = workflow();
    w.add_task(task("a", "x", &[]));
    w.add_task(task("b", "x", &[]));
    w.add_task(task("c", "x", &["a", "b", "ghost"]));
    w.tasks.update_task_status("a", TaskStatus::Failed, None);
    w.tasks.update_task_status("b", TaskStatus::Completed, Some(ChatResponse::new("B")));
    let c = w.tasks.get_task("c").unwrap().clone();
    let context = build_context(&w.tasks, &c);
    assert_eq!(context.len(), 1);
    assert_eq!(context.get("b"), Some(&vec![Message::new(Role::Assistant, "B")]));
    assert!(!context.contains_key("a"));
    assert!(!context.contains_key("ghost"));
}

#[test]
fn context_ignores_results_of_tasks_that_are_not_completed() {
    let mut w = workflow();
    let mut stale = task("a", "x", &[]);
    stale.status = TaskStatus::Failed;
    stale.result = Some(ChatResponse::new("stale"));
    w.add_task(stale);
    let mut early = task("b", "x", &[]);
    early.result = Some(ChatResponse::new("early"));
    w.add_task(early);
    w.add_task(task("c", "x", &["a", "b"]));
    let c = w.tasks.get_task("c").unwrap().clone();
    assert_eq!(build_context(&w.tasks, &c).len(), 0);
}

#[test]
fn context_lists_a_dependency_named_twice_once() {
    let mut w = workflow();
    w.add_task(task("a", "x", &[]));
    w.add_task(task("b", "x", &["a", "a"]));
    w.tasks.update_task_status("a", TaskStatus::Completed, Some(ChatResponse::new("R")));
    let b = w.tasks.get_task("b").unwrap().clone();
    let context = build_context(&w.tasks, &b);
    assert_eq!(context.len(), 1);
    assert_eq!(context.get("a"), Some(&vec![Message::new(Role::Assistant, "R")]));
}

#[test]
fn round_starts_every_ready_task() {
    let mut w = workflow();
    w.add_agent("x", agent("agent-x"));
    w.add_task(task("a", "x", &[]));
    w.add_task(task("b", "x", &[]));
    w.add_task(task("c", "x", &["a"]));
    let dispatches = dispatched(w.next_round());
    assert_eq!(ids(&dispatches), vec!["a", "b"]);
    assert_eq!(dispatches[0].task.status, TaskStatus::Pending);
    assert_eq!(dispatches[0].agent.as_ref().unwrap().id, "agent-x");
    assert_eq!(dispatches[0].context.len(), 0);
    assert_eq!(status(&w, "a"), TaskStatus::Running);
    assert_eq!(status(&w, "b"), TaskStatus::Running);
    assert_eq!(status(&w, "c"), TaskStatus::Pending);
}

#[test]
fn no_task_is_handed_out_twice() {
    let mut w = workflow();
    w.add_agent("x", agent("agent-x"));
    w.add_task(task("a", "x", &[]));
    w.add_task(task("b", "x", &["a"]));
    let first = dispatched(w.next_round());
    assert_eq!(ids(&first), vec!["a"]);
    // Before the outcome of "a" is written back nothing is ready: "a" is
    // running, and "b" waits for it.
    assert!(matches!(w.next_round(), Round::Deadlocked));
    assert_eq!(status(&w, "a"), TaskStatus::Running);
    assert_eq!(status(&w, "b"), TaskStatus::Pending);
    w.settle("a", ok("a", "1"));
    let second = dispatched(w.next_round());
    assert_eq!(ids(&second), vec!["b"]);
    w.settle("b", ok("b", "2"));
    assert!(matches!(w.next_round(), Round::Completed));
}

#[test]
fn round_reports_deadlock_and_changes_nothing() {
    let mut w = workflow();
    w.add_agent("x", agent("agent-x"));
    w.add_task(task("a", "x", &["b"]));
    w.add_task(task("b", "x", &["a"]));
    assert!(matches!(w.next_round(), Round::Deadlocked));
    assert_eq!(w.pending_count(), 2);
    assert_eq!(status(&w, "a"), TaskStatus::Pending);
    assert_eq!(status(&w, "b"), TaskStatus::Pending);
}

#[test]
fn round_is_idle_while_tasks_run_elsewhere() {
    let mut w = workflow();
    w.add_agent("x", agent("agent-x"));
    w.add_task(task("a", "x", &[]));
    w.tasks.update_task_status("a", TaskStatus::Running, None);
    assert!(matches!(w.next_round(), Round::Idle));
    assert_eq!(status(&w, "a"), TaskStatus::Running);
    assert_eq!(w.run(&echo), None);
    assert_eq!(status(&w, "a"), TaskStatus::Running);
}

#[test]
fn settle_writes_success_and_failure() {
    let mut w = workflow();
    w.add_agent("x", agent("agent-x"));
    w.add_task(task("a", "x", &[]));
    w.add_task(task("b", "x", &[]));
    dispatched(w.next_round());
    w.settle("a", ok("a", "fine"));
    w.settle("b", Err(AgentError::RequestError("down".to_string())));
    assert_eq!(status(&w, "a"), TaskStatus::Completed);
    assert_eq!(result(&w, "a"), Some("fine".to_string()));
    assert_eq!(status(&w, "b"), TaskStatus::Failed);
    assert_eq!(result(&w, "b"), None);
}

#[test]
fn settle_takes_only_running_tasks() {
    let mut w = workflow();
    w.add_agent("x", agent("agent-x"));
    w.add_task(task("a", "x", &[]));
    w.settle("a", ok("a", "too early"));
    assert_eq!(status(&w, "a"), TaskStatus::Pending);
    assert_eq!(result(&w, "a"), None);
    w.settle("nobody", ok("nobody", "x"));
    assert_eq!(w.tasks.len(), 1);
    dispatched(w.next_round());
    w.settle("a", ok("a", "first"));
    w.settle("a", ok("a", "second"));
    w.settle("a", Err(AgentError::CreateHeaderNameError));
    assert_eq!(status(&w, "a"), TaskStatus::Completed);
    assert_eq!(result(&w, "a"), Some("first".to_string()));
}

#[test]
fn cycle_of_two_ends_deadlocked_with_two_pending() {
    let mut w = workflow();
    w.add_agent("x", agent("agent-x"));
    w.add_task(task("a", "x", &["b"]));
    w.add_task(task("b", "x", &["a"]));
    assert_eq!(execute_workflow(&mut w, &echo), RunOutcome::Deadlocked);
    assert_eq!(w.pending_count(), 2);
    assert!(!w.is_complete());
}

#[test]
fn three_tasks_run_in_three_rounds() {
    let mut w = workflow();
    w.add_agent("x", agent("agent-x"));
    w.add_task(task("a", "x", &[]));
    w.add_task(task("b", "x", &["a"]));
    w.add_task(task("c", "x", &["a", "b"]));
    let mut rounds: Vec<Vec<String>> = Vec::new();
    loop {
        match w.next_round() {
            Round::Dispatched(dispatches) => {
                rounds.push(ids(&dispatches));
                for d in dispatches {
                    let chosen = d.agent.as_ref().unwrap();
                    let outcome = chosen.execute_task(&d.task, &d.context, &echo);
                    w.settle(&d.task.id, outcome);
                }
            }
            Round::Completed => break,
            other => panic!("unexpected {:?}", other),
        }
    }
    assert_eq!(rounds, vec![vec!["a"], vec!["b"], vec!["c"]]);
    assert_eq!(status(&w, "a"), TaskStatus::Completed);
    assert_eq!(status(&w, "b"), TaskStatus::Completed);
    assert_eq!(status(&w, "c"), TaskStatus::Completed);
    assert_eq!(result(&w, "a"), Some("1".to_string()));
    assert_eq!(result(&w, "b"), Some("1".to_string()));
    assert_eq!(result(&w, "c"), Some("1+1".to_string()));
    assert!(w.is_complete());
}

#[test]
fn run_of_three_tasks_completes_with_upstream_results() {
    let mut w = workflow();
    w.add_agent("first", agent("agent-a"));
    w.add_agent("second", agent("agent-b"));
    w.add_agent("third", agent("agent-c"));
    w.add_task(task("a", "first", &[]));
    w.add_task(task("b", "second", &["a"]));
    w.add_task(task("c", "third", &["a", "b"]));
    let send = |by: &Agent, request: &Prompt| -> Result<ChatResponse, AgentError> {
        let mut context = heard(request);
        context.pop();
        context.reverse();
        match by.id.as_str() {
            "agent-a" => Ok(ChatResponse::new("1")),
            "agent-b" => Ok(ChatResponse::new(&format!("1+{}", context.join("")))),
            _ => Ok(ChatResponse::new(&context.join(","))),
        }
    };
    assert_eq!(execute_workflow(&mut w, &send), RunOutcome::Completed);
    assert_eq!(status(&w, "a"), TaskStatus::Completed);
    assert_eq!(status(&w, "b"), TaskStatus::Completed);
    assert_eq!(status(&w, "c"), TaskStatus::Completed);
    assert_eq!(result(&w, "a"), Some("1".to_string()));
    assert_eq!(result(&w, "b"), Some("1+1".to_string()));
    assert_eq!(result(&w, "c"), Some("1,1+1".to_string()));
    assert_eq!(w.pending_count(), 0);
}

#[test]
fn task_without_registered_agent_fails_alone() {
    let mut w = workflow();
    w.add_agent("x", agent("agent-x"));
    w.add_task(task("lost", "nobody", &[]));
    w.add_task(task("a", "x", &[]));
    w.add_task(task("b", "x", &["a"]));
    let dispatches = dispatched(w.next_round());
    assert_eq!(ids(&dispatches), vec!["lost", "a"]);
    assert!(dispatches[0].agent.is_none());
    assert!(dispatches[1].agent.is_some());
    assert_eq!(status(&w, "lost"), TaskStatus::Failed);
    assert_eq!(status(&w, "a"), TaskStatus::Running);
    w.settle("lost", ok("lost", "never"));
    w.settle("a", ok("a", "1"));
    assert_eq!(status(&w, "lost"), TaskStatus::Failed);
    assert_eq!(result(&w, "lost"), None);
    assert_eq!(execute_workflow(&mut w, &echo), RunOutcome::Completed);
    assert_eq!(status(&w, "a"), TaskStatus::Completed);
    assert_eq!(status(&w, "b"), TaskStatus::Completed);
    assert_eq!(status(&w, "lost"), TaskStatus::Failed);
}

#[test]
fn run_with_only_unregistered_agents_completes_with_failures() {
    let mut w = workflow();
    w.add_task(task("a", "nobody", &[]));
    w.add_task(task("b", "nobody", &[]));
    assert_eq!(execute_workflow(&mut w, &echo), RunOutcome::Completed);
    assert_eq!(status(&w, "a"), TaskStatus::Failed);
    assert_eq!(status(&w, "b"), TaskStatus::Failed);
}

#[test]
fn failure_blocks_dependents_and_nothing_else() {
    let mut w = workflow();
    w.add_agent("good", agent("agent-good"));
    w.add_agent("bad", agent("agent-bad"));
    w.add_task(task("a", "bad", &[]));
    w.add_task(task("b", "good", &[]));
    w.add_task(task("c", "good", &["a"]));
    w.add_task(task("d", "good", &["b"]));
    w.add_task(task("e", "good", &["c"]));
    let send = |by: &Agent, request: &Prompt| -> Result<ChatResponse, AgentError> {
        if by.id == "agent-bad" {
            Err(AgentError::ChatCompletionError(500))
        } else {
            echo(by, request)
        }
    };
    assert_eq!(execute_workflow(&mut w, &send), RunOutcome::Deadlocked);
    assert_eq!(status(&w, "a"), TaskStatus::Failed);
    assert_eq!(result(&w, "a"), None);
    assert_eq!(status(&w, "b"), TaskStatus::Completed);
    assert_eq!(status(&w, "c"), TaskStatus::Pending);
    assert_eq!(status(&w, "d"), TaskStatus::Completed);
    assert_eq!(status(&w, "e"), TaskStatus::Pending);
    assert_eq!(w.pending_count(), 2);
    assert_eq!(execute_workflow(&mut w, &send), RunOutcome::Deadlocked);
    assert_eq!(status(&w, "c"), TaskStatus::Pending);
}

#[test]
fn unknown_dependency_ends_deadlocked() {
    let mut w = workflow();
    w.add_agent("x", agent("agent-x"));
    w.add_task(task("a", "x", &[]));
    w.add_task(task("b", "x", &["ghost"]));
    assert_eq!(execute_workflow(&mut w, &echo), RunOutcome::Deadlocked);
    assert_eq!(status(&w, "a"), TaskStatus::Completed);
    assert_eq!(status(&w, "b"), TaskStatus::Pending);
    assert_eq!(w.pending_count(), 1);
}

#[test]
fn task_added_later_runs_in_a_later_round() {
    let mut w = workflow();
    w.add_agent("x", agent("agent-x"));
    w.add_task(task("a", "x", &[]));
    let first = dispatched(w.next_round());
    assert_eq!(ids(&first), vec!["a"]);
    w.add_task(task("b", "x", &["a"]));
    w.settle("a", ok("a", "1"));
    let second = dispatched(w.next_round());
    assert_eq!(ids(&second), vec!["b"]);
    assert_eq!(second[0].context.get("a"), Some(&vec![Message::new(Role::Assistant, "1")]));
    w.settle("b", ok("b", "2"));
    assert!(matches!(w.next_round(), Round::Completed));
}

#[test]
fn removed_dependency_leaves_the_dependent_pending() {
    let mut w = workflow();
    w.add_agent("x", agent("agent-x"));
    w.add_task(task("a", "x", &[]));
    w.add_task(task("b", "x", &["a"]));
    w.tasks.remove_task("a");
    assert_eq!(execute_workflow(&mut w, &echo), RunOutcome::Deadlocked);
    assert_eq!(status(&w, "b"), TaskStatus::Pending);
}

#[test]
fn second_run_changes_nothing() {
    let mut w = workflow();
    w.add_agent("x", agent("agent-x"));
    w.add_task(task("a", "x", &[]));
    w.add_task(task("b", "x", &["a"]));
    assert_eq!(execute_workflow(&mut w, &echo), RunOutcome::Completed);
    let first = (result(&w, "a"), result(&w, "b"));
    let never = |_: &Agent, _: &Prompt| -> Result<ChatResponse, AgentError> {
        panic!("no task is left to carry out")
    };
    assert_eq!(execute_workflow(&mut w, &never), RunOutcome::Completed);
    assert_eq!((result(&w, "a"), result(&w, "b")), first);
}

#[test]
fn every_task_is_sent_exactly_once() {
    let mut w = workflow();
    w.add_agent("x", agent("agent-x"));
    w.add_task(task("a", "x", &[]));
    w.add_task(task("b", "x", &["a"]));
    w.add_task(task("c", "x", &["a"]));
    w.add_task(task("d", "x", &["b", "c"]));
    let seen: RefCell<Vec<String>> = RefCell::new(Vec::new());
    let send = |_: &Agent, request: &Prompt| -> Result<ChatResponse, AgentError> {
        let own = request.user_message.last().unwrap().content.clone();
        seen.borrow_mut().push(own.clone());
        Ok(ChatResponse::new(&own))
    };
    assert_eq!(execute_workflow(&mut w, &send), RunOutcome::Completed);
    assert_eq!(seen.into_inner(), vec!["a", "b", "c", "d"]);
    assert_eq!(result(&w, "d"), Some("d".to_string()));
}

#[test]
fn one_agent_serves_many_tasks() {
    let mut w = workflow();
    w.add_agent("x", agent("agent-x"));
    for id in ["a", "b", "c", "d"] {
        w.add_task(task(id, "x", &[]));
    }
    let dispatches = dispatched(w.next_round());
    assert_eq!(dispatches.len(), 4);
    for d in &dispatches {
        assert_eq!(d.agent.as_ref().unwrap().id, "agent-x");
    }
}

#[test]
fn clone_of_workflow_runs_apart() {
    let mut w = workflow();
    w.add_agent("x", agent("agent-x"));
    w.add_task(task("a", "x", &[]));
    let mut copy = w.clone();
    assert_eq!(execute_workflow(&mut copy, &echo), RunOutcome::Completed);
    assert_eq!(status(&copy, "a"), TaskStatus::Completed);
    assert_eq!(status(&w, "a"), TaskStatus::Pending);
    assert_eq!(copy.id, w.id);
    assert_eq!(copy.name, w.name);
}
