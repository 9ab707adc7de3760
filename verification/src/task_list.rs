//! The task graph: the tasks of a workflow by id, and the questions that
//! scheduling asks of them.

use vstd::prelude::*;
use crate::message::ChatResponse;
use crate::model::{
    Graph, all_terminal, completed, distinct_ids, has_running, is_pending, is_ready,
    lemma_position_holds, lemma_position_is, lemma_position_none, lemma_ready_membership,
    lemma_upsert_distinct, lemma_with_status_distinct, lemma_without_distinct, lookup,
    pending_count, position, ready_in, ready_tasks, updated, upsert, with_status, without,
};
use crate::order::{execution_order_of, ids_of, lemma_order_same_structure, valid_order};
use crate::task::{Task, TaskStatus, TaskView};
use crate::traversal::{execution_order, lemma_execution_order_valid};

verus! {

/// The tasks of a workflow, with an order in which they can be listed. No
/// two tasks share an id.
#[derive(Debug)]
pub struct TaskList {
    tasks: Vec<Task>,
    execution_order: Vec<String>,
}

impl View for TaskList {
    type V = Graph;

    closed spec fn view(&self) -> Graph {
        self.tasks.deep_view()
    }
}

impl Clone for TaskList {
    fn clone(&self) -> (copy: Self)
        ensures
            copy@ == self@,
            copy.order() == self.order(),
    {
        proof {
            use_type_invariant(self);
        }
        let mut tasks: Vec<Task> = Vec::new();
        let mut i: usize = 0;
        while i < self.tasks.len()
            invariant
                i <= self.tasks.len(),
                tasks.len() == i,
                forall|j: int| 0 <= j < i ==> (#[trigger] tasks[j])@ == self.tasks[j]@,
            decreases self.tasks.len() - i,
        {
            tasks.push(self.tasks[i].clone());
            i += 1;
        }
        let execution_order = self.execution_order.clone();
        assert(tasks.deep_view() =~= self.tasks.deep_view());
        assert(execution_order.deep_view() =~= self.execution_order.deep_view());
        TaskList { tasks, execution_order }
    }
}

impl TaskList {
    /// What holds of every task list: no two tasks share an id, and the
    /// execution order is that of the tasks as they are.
    #[verifier::type_invariant]
    pub closed spec fn well_formed(&self) -> bool {
        &&& distinct_ids(self.tasks.deep_view())
        &&& self.execution_order.deep_view() == execution_order_of(self.tasks.deep_view())
    }

    /// The execution order that the list holds.
    pub closed spec fn order(&self) -> Seq<Seq<char>> {
        self.execution_order.deep_view()
    }

    /// The ids of a task list are distinct, and the execution order that it
    /// holds is that of its tasks.
    pub proof fn lemma_well_formed(&self)
        requires
            self.well_formed(),
        ensures
            distinct_ids(self@),
            self.order() == execution_order_of(self@),
    {
    }

    /// An empty graph.
    pub fn new() -> (list: Self)
        ensures
            list@ == Seq::<TaskView>::empty(),
            list.order() == Seq::<Seq<char>>::empty(),
    {
        let tasks: Vec<Task> = Vec::new();
        let execution_order: Vec<String> = Vec::new();
        proof {
            assert(tasks.deep_view() =~= Seq::<TaskView>::empty());
            assert(execution_order.deep_view() =~= Seq::<Seq<char>>::empty());
            assert(ids_of(tasks.deep_view()) =~= Seq::<Seq<char>>::empty());
        }
        TaskList { tasks, execution_order }
    }

    /// The index of the task with the id `task_id`.
    fn find(&self, task_id: &str) -> (found: Option<usize>)
        ensures
            match found {
                Some(i) => position(self@, task_id@) == Some(i as int) && i < self.tasks.len(),
                None => position(self@, task_id@) is None,
            },
    {
        proof {
            use_type_invariant(self);
        }
        let wanted = task_id.to_owned();
        find_task(&self.tasks, &wanted)
    }

    /// Whether every task is completed or failed.
    pub fn is_complete(&self) -> (done: bool)
        ensures
            done == all_terminal(self@),
    {
        let mut i: usize = 0;
        while i < self.tasks.len()
            invariant
                i <= self.tasks.len(),
                forall|j: int| 0 <= j < i ==> (#[trigger] self@[j]).status.terminal(),
            decreases self.tasks.len() - i,
        {
            if !self.tasks[i].status.is_terminal() {
                assert(!self@[i as int].status.terminal());
                return false;
            }
            i += 1;
        }
        true
    }

    /// Whether some task is running.
    pub fn has_running(&self) -> (running: bool)
        ensures
            running == has_running(self@),
    {
        let mut i: usize = 0;
        while i < self.tasks.len()
            invariant
                i <= self.tasks.len(),
                forall|j: int| 0 <= j < i ==> (#[trigger] self@[j]).status != TaskStatus::Running,
            decreases self.tasks.len() - i,
        {
            if self.tasks[i].status == TaskStatus::Running {
                assert(self@[i as int].status == TaskStatus::Running);
                return true;
            }
            i += 1;
        }
        false
    }

    /// How many tasks there are.
    pub fn len(&self) -> (count: usize)
        ensures
            count == self@.len(),
    {
        self.tasks.len()
    }

    /// The task with the id `task_id`, if there is one.
    pub fn get_task(&self, task_id: &str) -> (task: Option<&Task>)
        ensures
            match task {
                Some(t) => lookup(self@, task_id@) == Some(t@),
                None => lookup(self@, task_id@) is None,
            },
    {
        match self.find(task_id) {
            Some(i) => Some(&self.tasks[i]),
            None => None,
        }
    }

    /// How many tasks are pending.
    pub fn pending_count(&self) -> (count: usize)
        ensures
            count == pending_count(self@),
    {
        let ghost g = self@;
        let mut count: usize = 0;
        let mut i: usize = 0;
        while i < self.tasks.len()
            invariant
                i <= self.tasks.len(),
                g == self@,
                count <= i,
                count == g.take(i as int).filter(is_pending()).len(),
            decreases self.tasks.len() - i,
        {
            proof {
                assert(g.take(i as int + 1) =~= g.take(i as int).push(g[i as int]));
                g.take(i as int).lemma_filter_push(g[i as int], is_pending());
            }
            if self.tasks[i].status == TaskStatus::Pending {
                count += 1;
            }
            i += 1;
        }
        assert(g.take(i as int) =~= g);
        count
    }

    /// Whether `dependency` is the id of a completed task.
    fn dependency_completed(&self, dependency: &String) -> (done: bool)
        ensures
            done == completed(self@, dependency@),
    {
        proof {
            use_type_invariant(self);
            lemma_position_holds(self@, dependency@);
        }
        match find_task(&self.tasks, dependency) {
            Some(i) => {
                let done = self.tasks[i].status == TaskStatus::Completed;
                proof {
                    if !done {
                        assert forall|j: int|
                            0 <= j < self@.len() && (#[trigger] self@[j]).id == dependency@
                            implies self@[j].status != TaskStatus::Completed by {
                            if j < i {
                                assert(self@[j].id != self@[i as int].id);
                            } else if i < j {
                                assert(self@[i as int].id != self@[j].id);
                            }
                        }
                    } else {
                        assert(self@[i as int].id == dependency@);
                    }
                }
                done
            },
            None => false,
        }
    }

    /// Whether the task at `index` is pending with all it waits for completed.
    fn ready_at(&self, index: usize) -> (ready: bool)
        requires
            index < self@.len(),
        ensures
            ready == is_ready(self@, self@[index as int]),
    {
        let task = &self.tasks[index];
        if task.status != TaskStatus::Pending {
            return false;
        }
        let ghost deps = self@[index as int].dependencies;
        let mut k: usize = 0;
        while k < task.dependencies.len()
            invariant
                k <= task.dependencies.len(),
                index < self.tasks.len(),
                task == &self.tasks[index as int],
                deps == task.dependencies.deep_view(),
                forall|m: int| 0 <= m < k ==> completed(self@, #[trigger] deps[m]),
            decreases task.dependencies.len() - k,
        {
            if !self.dependency_completed(&task.dependencies[k]) {
                assert(!completed(self@, deps[k as int]));
                return false;
            }
            k += 1;
        }
        true
    }

    /// The tasks that can start now: those that are pending and wait only for
    /// completed tasks. Computed from the present state at every call.
    pub fn get_ready_tasks(&self) -> (ready: Vec<Task>)
        ensures
            ready.deep_view() == ready_tasks(self@),
            forall|t: TaskView|
                ready.deep_view().contains(t) <==> self@.contains(t) && is_ready(self@, t),
    {
        let ghost g = self@;
        let mut ready: Vec<Task> = Vec::new();
        let mut i: usize = 0;
        while i < self.tasks.len()
            invariant
                i <= self.tasks.len(),
                g == self@,
                ready.deep_view() == g.take(i as int).filter(ready_in(g)),
            decreases self.tasks.len() - i,
        {
            proof {
                assert(g.take(i as int + 1) =~= g.take(i as int).push(g[i as int]));
                g.take(i as int).lemma_filter_push(g[i as int], ready_in(g));
            }
            if self.ready_at(i) {
                let ghost before = ready.deep_view();
                ready.push(self.tasks[i].clone());
                assert(ready.deep_view() =~= before.push(g[i as int]));
            }
            i += 1;
        }
        proof {
            assert(g.take(i as int) =~= g);
            lemma_ready_membership(g);
        }
        ready
    }

    /// Adds `task`. A task that had the same id is replaced. The execution
    /// order is computed anew.
    pub fn add_task(&mut self, task: Task)
        ensures
            final(self)@ == upsert(old(self)@, task@),
            final(self).order() == execution_order_of(final(self)@),
    {
        proof {
            use_type_invariant(&*self);
            lemma_upsert_distinct(self@, task@);
        }
        let found = find_task(&self.tasks, &task.id);
        let ghost g = self@;
        let mut taken = TaskList::new();
        std::mem::swap(self, &mut taken);
        let mut tasks = taken.tasks;
        match found {
            Some(i) => {
                tasks.set(i, task);
                assert(tasks.deep_view() =~= g.update(i as int, task@));
            },
            None => {
                tasks.push(task);
                assert(tasks.deep_view() =~= g.push(task@));
            },
        }
        let execution_order = execution_order(&tasks);
        *self = TaskList { tasks, execution_order };
    }

    /// Removes the task with the id `task_id`, if there is one. Tasks that
    /// wait for it are left as they are. The execution order is computed
    /// anew.
    pub fn remove_task(&mut self, task_id: &str)
        ensures
            final(self)@ == without(old(self)@, task_id@),
            final(self).order() == execution_order_of(final(self)@),
    {
        proof {
            use_type_invariant(&*self);
            lemma_without_distinct(self@, task_id@);
        }
        let found = self.find(task_id);
        let ghost g = self@;
        match found {
            Some(i) => {
                let mut taken = TaskList::new();
                std::mem::swap(self, &mut taken);
                let mut tasks = taken.tasks;
                tasks.remove(i);
                assert(tasks.deep_view() =~= g.remove(i as int));
                let execution_order = execution_order(&tasks);
                *self = TaskList { tasks, execution_order };
            },
            None => {},
        }
    }

    /// Sets the status of the task with the id `task_id`, and its result
    /// where the status is `Completed`. An id that stands for no task changes
    /// nothing, and so does an update of a task that is completed or failed.
    /// The execution order stays as it is.
    pub fn update_task_status(
        &mut self,
        task_id: &str,
        status: TaskStatus,
        result: Option<ChatResponse>,
    )
        ensures
            final(self)@ == with_status(old(self)@, task_id@, status, result.deep_view()),
            final(self).order() == old(self).order(),
    {
        proof {
            use_type_invariant(&*self);
            lemma_with_status_distinct(self@, task_id@, status, result.deep_view());
        }
        let found = self.find(task_id);
        let ghost g = self@;
        match found {
            Some(i) => {
                if !self.tasks[i].status.is_terminal() {
                    let mut taken = TaskList::new();
                    std::mem::swap(self, &mut taken);
                    let mut tasks = taken.tasks;
                    let execution_order = taken.execution_order;
                    tasks[i].status = status;
                    tasks[i].result = match status {
                        TaskStatus::Completed => result,
                        _ => None,
                    };
                    proof {
                        assert(tasks.deep_view() =~= g.update(
                            i as int,
                            updated(g[i as int], status, result.deep_view()),
                        ));
                        lemma_order_same_structure(g, tasks.deep_view());
                    }
                    *self = TaskList { tasks, execution_order };
                } else {
                    let ghost same = updated(g[i as int], status, result.deep_view());
                    assert(g =~= g.update(i as int, same));
                }
            },
            None => {},
        }
    }

    /// The tasks, in the order in which their ids were first added.
    pub fn tasks(&self) -> (tasks: &Vec<Task>)
        ensures
            tasks.deep_view() == self@,
    {
        &self.tasks
    }

    /// The execution order: every id once, and each task behind what it
    /// waits for, except where that waits in turn for the task.
    pub fn execution_order(&self) -> (order: &Vec<String>)
        ensures
            order.deep_view() == self.order(),
            order.deep_view() == execution_order_of(self@),
            valid_order(self@, order.deep_view()),
    {
        proof {
            use_type_invariant(self);
            lemma_execution_order_valid(self@);
        }
        &self.execution_order
    }
}

/// The index of the task with the id `task_id` among `tasks`.
pub(crate) fn find_task(tasks: &Vec<Task>, task_id: &String) -> (found: Option<usize>)
    requires
        distinct_ids(tasks.deep_view()),
    ensures
        match found {
            Some(i) => position(tasks.deep_view(), task_id@) == Some(i as int) && i < tasks.len(),
            None => position(tasks.deep_view(), task_id@) is None,
        },
{
    let ghost g = tasks.deep_view();
    let mut i: usize = 0;
    while i < tasks.len()
        invariant
            i <= tasks.len(),
            g == tasks.deep_view(),
            distinct_ids(g),
            forall|j: int| 0 <= j < i ==> (#[trigger] g[j]).id != task_id@,
        decreases tasks.len() - i,
    {
        if tasks[i].id == *task_id {
            proof {
                lemma_position_is(g, task_id@, i as int);
            }
            return Some(i);
        }
        i += 1;
    }
    proof {
        lemma_position_none(g, task_id@);
    }
    None
}

} // verus!
