use agent_workflow::{Prompt, Task, TaskList, TaskStatus};

fn task(id: &str, dependencies: &[&str]) -> Task {
    let dependencies: Vec<String> = dependencies.iter().map(|d| d.to_string()).collect();
    Task::new(id, "agent", Prompt::new("do it"), dependencies)
}

fn list_of(tasks: &[(&str, &[&str])]) -> TaskList {
    let mut list = TaskList::new();
    for (id, dependencies) in tasks {
        list.add_task(task(id, dependencies));
    }
    list
}

fn place(order: &[String], id: &str) -> usize {
    order.iter().position(|x| x == id).unwrap()
}

#[test]
fn order_of_a_chain_puts_dependencies_first() {
    let list = list_of(&[("c", &["b"]), ("b", &["a"]), ("a", &[])]);
    assert_eq!(list.execution_order(), &vec!["a".to_string(), "b".to_string(), "c".to_string()]);
}

#[test]
fn order_follows_the_graph_where_nothing_waits() {
    let list = list_of(&[("x", &[]), ("y", &[]), ("z", &[])]);
    assert_eq!(list.execution_order(), &vec!["x".to_string(), "y".to_string(), "z".to_string()]);
}

#[test]
fn order_of_a_diamond() {
    let list = list_of(&[("d", &["b", "c"]), ("b", &["a"]), ("c", &["a"]), ("a", &[])]);
    let order = list.execution_order();
    assert_eq!(order, &vec!["a".to_string(), "b".to_string(), "c".to_string(), "d".to_string()]);
    assert!(place(order, "a") < place(order, "b"));
    assert!(place(order, "a") < place(order, "c"));
    assert!(place(order, "b") < place(order, "d"));
    assert!(place(order, "c") < place(order, "d"));
}

#[test]
fn order_lists_unknown_dependencies_once() {
    let list = list_of(&[("a", &["ghost"]), ("b", &["ghost", "a"])]);
    assert_eq!(
        list.execution_order(),
        &vec!["ghost".to_string(), "a".to_string(), "b".to_string()]
    );
}

#[test]
fn order_tolerates_a_cycle_of_two() {
    let list = list_of(&[("a", &["b"]), ("b", &["a"])]);
    assert_eq!(list.execution_order(), &vec!["b".to_string(), "a".to_string()]);
}

#[test]
fn order_tolerates_a_cycle_with_a_tail() {
    let list = list_of(&[("a", &["b"]), ("b", &["c"]), ("c", &["a"]), ("d", &["a"])]);
    let order = list.execution_order();
    assert_eq!(order, &vec!["c".to_string(), "b".to_string(), "a".to_string(), "d".to_string()]);
    assert!(place(order, "a") < place(order, "d"));
}

#[test]
fn order_lists_every_id_once() {
    let list = list_of(&[
        ("a", &["b", "c"]),
        ("b", &["c", "x"]),
        ("c", &["a", "y"]),
        ("d", &[]),
        ("e", &["d", "a", "x"]),
    ]);
    let order = list.execution_order();
    let mut sorted = order.clone();
    sorted.sort();
    sorted.dedup();
    assert_eq!(sorted.len(), order.len());
    assert_eq!(sorted, vec!["a", "b", "c", "d", "e", "x", "y"]);
}

#[test]
fn order_is_computed_anew_when_tasks_change() {
    let mut list = list_of(&[("b", &["a"]), ("a", &[])]);
    assert_eq!(list.execution_order(), &vec!["a".to_string(), "b".to_string()]);
    list.add_task(task("c", &["b"]));
    assert_eq!(list.execution_order(), &vec!["a".to_string(), "b".to_string(), "c".to_string()]);
    list.remove_task("b");
    assert_eq!(list.execution_order(), &vec!["a".to_string(), "b".to_string(), "c".to_string()]);
    list.remove_task("c");
    assert_eq!(list.execution_order(), &vec!["a".to_string()]);
    list.add_task(task("a", &["z"]));
    assert_eq!(list.execution_order(), &vec!["z".to_string(), "a".to_string()]);
}

#[test]
fn order_does_not_change_with_statuses() {
    let mut list = list_of(&[("b", &["a"]), ("a", &[])]);
    let before = list.execution_order().clone();
    list.update_task_status("a", TaskStatus::Failed, None);
    assert_eq!(list.execution_order(), &before);
}

#[test]
fn order_of_a_long_chain_is_the_chain() {
    let mut list = TaskList::new();
    let count = 300;
    for i in (0..count).rev() {
        let id = format!("t{}", i);
        if i == 0 {
            list.add_task(task(&id, &[]));
        } else {
            let dependency = format!("t{}", i - 1);
            list.add_task(task(&id, &[dependency.as_str()]));
        }
    }
    let expected: Vec<String> = (0..count).map(|i| format!("t{}", i)).collect();
    assert_eq!(list.execution_order(), &expected);
}
