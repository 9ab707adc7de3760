use agent_workflow::{
    execute_workflow, Agent, AgentError, ChatResponse, Prompt, Provider, RunOutcome, Task,
    TaskList, TaskStatus, Workflow,
};

/// A small generator of numbers that gives the same sequence on every run.
struct Numbers(u64);

impl Numbers {
    fn next(&mut self, below: usize) -> usize {
        self.0 = self.0.wrapping_mul(6364136223846793005).wrapping_add(1442695040888963407);
        ((self.0 >> 33) as usize) % below
    }
}

/// A graph of up to eight tasks "t0", "t1", ... with dependencies among them
/// and on ids that no task has.
fn graph(numbers: &mut Numbers) -> Vec<(String, String, Vec<String>)> {
    let count = 1 + numbers.next(8);
    let mut tasks = Vec::new();
    for i in 0..count {
        let mut dependencies = Vec::new();
        for _ in 0..numbers.next(4) {
            let pick = numbers.next(count + 1);
            if pick == count {
                dependencies.push("ghost".to_string());
            } else {
                dependencies.push(format!("t{}", pick));
            }
        }
        let agent = if numbers.next(5) == 0 { "nobody" } else { "x" };
        tasks.push((format!("t{}", i), agent.to_string(), dependencies));
    }
    tasks
}

fn list_of(tasks: &[(String, String, Vec<String>)]) -> TaskList {
    let mut list = TaskList::new();
    for (id, agent, dependencies) in tasks {
        list.add_task(Task::new(id, agent, Prompt::new(id), dependencies.clone()));
    }
    list
}

/// Whether the task `from` is the task `to` or waits for it, directly or
/// through other tasks.
fn reaches(list: &TaskList, from: &str, to: &str) -> bool {
    let mut seen: Vec<String> = Vec::new();
    let mut open = vec![from.to_string()];
    while let Some(id) = open.pop() {
        if id == to {
            return true;
        }
        if seen.contains(&id) {
            continue;
        }
        seen.push(id.clone());
        if let Some(task) = list.get_task(&id) {
            open.extend(task.dependencies.iter().cloned());
        }
    }
    false
}

#[test]
fn order_of_random_graphs_puts_dependencies_first() {
    let mut numbers = Numbers(7);
    for _ in 0..300 {
        let tasks = graph(&mut numbers);
        let list = list_of(&tasks);
        let order = list.execution_order();
        for (p, id) in order.iter().enumerate() {
            assert!(!order[..p].contains(id), "{} is listed twice in {:?}", id, order);
            let named = list.tasks().iter().any(|t| t.dependencies.contains(id));
            assert!(list.get_task(id).is_some() || named);
        }
        for task in list.tasks() {
            let own = order.iter().position(|x| x == &task.id).unwrap();
            for dependency in &task.dependencies {
                let other = order.iter().position(|x| x == dependency).unwrap();
                let cycle = list.get_task(dependency).is_some()
                    && reaches(&list, dependency, &task.id);
                assert!(other < own || cycle, "{:?} does not fit {:?}", order, tasks);
            }
        }
    }
}

#[test]
fn ready_tasks_of_random_graphs_are_the_pending_tasks_with_completed_dependencies() {
    let mut numbers = Numbers(11);
    for _ in 0..300 {
        let tasks = graph(&mut numbers);
        let mut list = list_of(&tasks);
        for (id, _, _) in &tasks {
            match numbers.next(4) {
                0 => list.update_task_status(id, TaskStatus::Running, None),
                1 => list.update_task_status(id, TaskStatus::Completed, None),
                2 => list.update_task_status(id, TaskStatus::Failed, None),
                _ => {}
            }
        }
        let ready: Vec<String> = list.get_ready_tasks().iter().map(|t| t.id.clone()).collect();
        let expected: Vec<String> = list
            .tasks()
            .iter()
            .filter(|t| {
                t.status == TaskStatus::Pending
                    && t.dependencies.iter().all(|d| {
                        list.get_task(d).map(|x| x.status == TaskStatus::Completed).unwrap_or(false)
                    })
            })
            .map(|t| t.id.clone())
            .collect();
        assert_eq!(ready, expected);
        let pending = list.tasks().iter().filter(|t| t.status == TaskStatus::Pending).count();
        assert_eq!(list.pending_count(), pending);
        let done = list.tasks().iter().all(|t| t.status.is_terminal());
        assert_eq!(list.is_complete(), done);
    }
}

#[test]
fn runs_of_random_graphs_end_completed_or_deadlocked() {
    let mut numbers = Numbers(13);
    for round in 0..300 {
        let tasks = graph(&mut numbers);
        let mut workflow = Workflow::with_id("w".to_string(), "random".to_string());
        workflow.add_agent("x", Agent::with_id("agent-x".to_string(), Provider::OpenAI));
        for (id, agent, dependencies) in &tasks {
            workflow.add_task(Task::new(id, agent, Prompt::new(id), dependencies.clone()));
        }
        let send = |_: &Agent, request: &Prompt| -> Result<ChatResponse, AgentError> {
            let own = request.user_message.last().unwrap().content.clone();
            if (own.len() + round) % 7 == 0 {
                Err(AgentError::ChatCompletionError(503))
            } else {
                Ok(ChatResponse::new(&own))
            }
        };
        let outcome = execute_workflow(&mut workflow, &send);
        let list = &workflow.tasks;
        assert!(!list.has_running());
        assert!(list.get_ready_tasks().is_empty());
        assert_eq!(outcome == RunOutcome::Completed, list.is_complete());
        assert_eq!(outcome == RunOutcome::Deadlocked, list.pending_count() > 0);
        for task in list.tasks() {
            let waits_only_for_completed = task.dependencies.iter().all(|d| {
                list.get_task(d).map(|x| x.status == TaskStatus::Completed).unwrap_or(false)
            });
            match task.status {
                TaskStatus::Completed => {
                    assert!(waits_only_for_completed);
                    assert_eq!(task.result, Some(ChatResponse::new(&task.id)));
                    assert_eq!(task.agent_id, "x");
                }
                TaskStatus::Failed => {
                    assert!(waits_only_for_completed);
                    assert_eq!(task.result, None);
                }
                TaskStatus::Pending => assert!(!waits_only_for_completed),
                TaskStatus::Running => panic!("{} is left running", task.id),
            }
        }
    }
}
