use agent_workflow::{ChatResponse, Prompt, Task, TaskList, TaskStatus};

fn task(id: &str, dependencies: &[&str]) -> Task {
    let dependencies: Vec<String> = dependencies.iter().map(|d| d.to_string()).collect();
    Task::new(id, "agent", Prompt::new("do it"), dependencies)
}

fn ids(tasks: &[Task]) -> Vec<String> {
    tasks.iter().map(|t| t.id.clone()).collect()
}

#[test]
fn new_list_is_empty_and_complete() {
    let list = TaskList::new();
    assert_eq!(list.len(), 0);
    assert!(list.is_complete());
    assert_eq!(list.pending_count(), 0);
    assert!(list.get_ready_tasks().is_empty());
    assert!(list.execution_order().is_empty());
    assert!(!list.has_running());
}

#[test]
fn new_task_is_pending_without_result() {
    let t = task("a", &["b", "c"]);
    assert_eq!(t.id, "a");
    assert_eq!(t.agent_id, "agent");
    assert_eq!(t.status, TaskStatus::Pending);
    assert_eq!(t.result, None);
    assert_eq!(t.dependencies, vec!["b".to_string(), "c".to_string()]);
}

#[test]
fn new_task_does_not_wait_for_itself() {
    let t = task("a", &["a", "b", "a"]);
    assert_eq!(t.dependencies, vec!["b".to_string()]);
}

#[test]
fn ready_tasks_wait_for_completed_dependencies() {
    let mut list = TaskList::new();
    list.add_task(task("a", &[]));
    list.add_task(task("b", &["a"]));
    let ready = list.get_ready_tasks();
    assert_eq!(ids(&ready), vec!["a"]);
    list.update_task_status("a", TaskStatus::Running, None);
    assert!(list.get_ready_tasks().is_empty());
    list.update_task_status("a", TaskStatus::Completed, Some(ChatResponse::new("1")));
    let ready = list.get_ready_tasks();
    assert_eq!(ids(&ready), vec!["b"]);
}

#[test]
fn ready_tasks_come_in_the_order_of_the_graph() {
    let mut list = TaskList::new();
    list.add_task(task("c", &[]));
    list.add_task(task("a", &[]));
    list.add_task(task("b", &["zzz"]));
    list.add_task(task("d", &[]));
    assert_eq!(ids(&list.get_ready_tasks()), vec!["c", "a", "d"]);
}

#[test]
fn task_with_unknown_dependency_is_never_ready() {
    let mut list = TaskList::new();
    list.add_task(task("a", &["ghost"]));
    assert!(list.get_ready_tasks().is_empty());
    assert_eq!(list.pending_count(), 1);
    assert!(!list.is_complete());
}

#[test]
fn failed_or_running_dependency_blocks_readiness() {
    let mut list = TaskList::new();
    list.add_task(task("a", &[]));
    list.add_task(task("b", &["a"]));
    list.update_task_status("a", TaskStatus::Running, None);
    assert!(list.get_ready_tasks().is_empty());
    list.update_task_status("a", TaskStatus::Failed, None);
    assert!(list.get_ready_tasks().is_empty());
    assert_eq!(list.get_task("b").unwrap().status, TaskStatus::Pending);
}

#[test]
fn every_dependency_must_be_completed() {
    let mut list = TaskList::new();
    list.add_task(task("a", &[]));
    list.add_task(task("b", &[]));
    list.add_task(task("c", &["a", "b"]));
    list.update_task_status("a", TaskStatus::Completed, Some(ChatResponse::new("1")));
    assert_eq!(ids(&list.get_ready_tasks()), vec!["b"]);
    list.update_task_status("b", TaskStatus::Completed, Some(ChatResponse::new("2")));
    assert_eq!(ids(&list.get_ready_tasks()), vec!["c"]);
}

#[test]
fn is_complete_counts_completed_and_failed() {
    let mut list = TaskList::new();
    list.add_task(task("a", &[]));
    list.add_task(task("b", &[]));
    assert!(!list.is_complete());
    list.update_task_status("a", TaskStatus::Completed, Some(ChatResponse::new("1")));
    assert!(!list.is_complete());
    list.update_task_status("b", TaskStatus::Running, None);
    assert!(!list.is_complete());
    list.update_task_status("b", TaskStatus::Failed, None);
    assert!(list.is_complete());
}

#[test]
fn pending_count_counts_only_pending() {
    let mut list = TaskList::new();
    list.add_task(task("a", &[]));
    list.add_task(task("b", &[]));
    list.add_task(task("c", &[]));
    list.add_task(task("d", &[]));
    assert_eq!(list.pending_count(), 4);
    list.update_task_status("a", TaskStatus::Running, None);
    assert_eq!(list.pending_count(), 3);
    list.update_task_status("b", TaskStatus::Completed, None);
    assert_eq!(list.pending_count(), 2);
    list.update_task_status("c", TaskStatus::Failed, None);
    assert_eq!(list.pending_count(), 1);
    assert!(list.has_running());
}

#[test]
fn add_task_replaces_a_task_with_the_same_id() {
    let mut list = TaskList::new();
    list.add_task(task("a", &[]));
    list.add_task(task("b", &[]));
    list.update_task_status("a", TaskStatus::Failed, None);
    list.add_task(task("a", &["b"]));
    assert_eq!(list.len(), 2);
    assert_eq!(ids(list.tasks()), vec!["a", "b"]);
    let a = list.get_task("a").unwrap();
    assert_eq!(a.status, TaskStatus::Pending);
    assert_eq!(a.dependencies, vec!["b".to_string()]);
}

#[test]
fn get_task_finds_by_id() {
    let mut list = TaskList::new();
    list.add_task(task("a", &[]));
    assert_eq!(list.get_task("a").unwrap().id, "a");
    assert!(list.get_task("b").is_none());
    assert!(list.get_task("").is_none());
}

#[test]
fn remove_task_does_not_cascade() {
    let mut list = TaskList::new();
    list.add_task(task("a", &[]));
    list.add_task(task("b", &["a"]));
    list.remove_task("a");
    assert_eq!(list.len(), 1);
    assert!(list.get_task("a").is_none());
    assert_eq!(list.get_task("b").unwrap().status, TaskStatus::Pending);
    assert!(list.get_ready_tasks().is_empty());
    list.remove_task("nobody");
    assert_eq!(list.len(), 1);
}

#[test]
fn update_of_unknown_id_changes_nothing() {
    let mut list = TaskList::new();
    list.add_task(task("a", &[]));
    list.update_task_status("b", TaskStatus::Completed, Some(ChatResponse::new("x")));
    assert_eq!(list.len(), 1);
    assert_eq!(list.get_task("a").unwrap().status, TaskStatus::Pending);
    assert_eq!(list.get_task("a").unwrap().result, None);
}

#[test]
fn completed_task_keeps_status_and_result() {
    let mut list = TaskList::new();
    list.add_task(task("a", &[]));
    list.update_task_status("a", TaskStatus::Completed, Some(ChatResponse::new("first")));
    list.update_task_status("a", TaskStatus::Failed, None);
    list.update_task_status("a", TaskStatus::Pending, None);
    list.update_task_status("a", TaskStatus::Running, None);
    list.update_task_status("a", TaskStatus::Completed, Some(ChatResponse::new("second")));
    let a = list.get_task("a").unwrap();
    assert_eq!(a.status, TaskStatus::Completed);
    assert_eq!(a.result, Some(ChatResponse::new("first")));
}

#[test]
fn failed_task_stays_failed() {
    let mut list = TaskList::new();
    list.add_task(task("a", &[]));
    list.update_task_status("a", TaskStatus::Failed, None);
    list.update_task_status("a", TaskStatus::Completed, Some(ChatResponse::new("late")));
    list.update_task_status("a", TaskStatus::Pending, None);
    let a = list.get_task("a").unwrap();
    assert_eq!(a.status, TaskStatus::Failed);
    assert_eq!(a.result, None);
}

#[test]
fn result_is_kept_only_when_completing() {
    let mut list = TaskList::new();
    list.add_task(task("a", &[]));
    list.update_task_status("a", TaskStatus::Running, Some(ChatResponse::new("early")));
    assert_eq!(list.get_task("a").unwrap().result, None);
    list.update_task_status("a", TaskStatus::Failed, Some(ChatResponse::new("ignored")));
    assert_eq!(list.get_task("a").unwrap().status, TaskStatus::Failed);
    assert_eq!(list.get_task("a").unwrap().result, None);
}

#[test]
fn failure_leaves_siblings_alone() {
    let mut list = TaskList::new();
    list.add_task(task("a", &[]));
    list.add_task(task("b", &[]));
    list.add_task(task("c", &["a"]));
    list.update_task_status("a", TaskStatus::Running, None);
    list.update_task_status("b", TaskStatus::Running, None);
    list.update_task_status("a", TaskStatus::Failed, None);
    assert_eq!(list.get_task("a").unwrap().status, TaskStatus::Failed);
    assert_eq!(list.get_task("b").unwrap().status, TaskStatus::Running);
    assert_eq!(list.get_task("c").unwrap().status, TaskStatus::Pending);
    list.update_task_status("b", TaskStatus::Completed, Some(ChatResponse::new("ok")));
    assert_eq!(list.get_task("b").unwrap().result, Some(ChatResponse::new("ok")));
    assert!(list.get_ready_tasks().is_empty());
}

#[test]
fn status_is_terminal_for_completed_and_failed() {
    assert!(!TaskStatus::Pending.is_terminal());
    assert!(!TaskStatus::Running.is_terminal());
    assert!(TaskStatus::Completed.is_terminal());
    assert!(TaskStatus::Failed.is_terminal());
}

#[test]
fn clone_of_list_is_independent() {
    let mut list = TaskList::new();
    list.add_task(task("a", &[]));
    list.add_task(task("b", &["a"]));
    let copy = list.clone();
    list.update_task_status("a", TaskStatus::Failed, None);
    assert_eq!(copy.get_task("a").unwrap().status, TaskStatus::Pending);
    assert_eq!(copy.execution_order(), list.execution_order());
    assert_eq!(ids(copy.tasks()), vec!["a", "b"]);
}
