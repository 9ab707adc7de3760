//! The depth-first walk that computes the execution order.

use vstd::prelude::*;
use crate::model::{
    Graph, distinct_ids, has_task, lemma_position_holds, lemma_position_is, position,
};
use crate::order::{
    chain, closes_cycle, dependency_first, depends_on, execution_order_of, ids_of, known_id,
    names_dependency, precedes, valid_order, visit, visit_each, waits_for_next,
};
use crate::task::Task;
use crate::task_list::find_task;

verus! {

/// How far the walk has come with one task.
#[derive(Debug, Clone, Copy, PartialEq, Eq, Structural)]
pub enum Mark {
    /// The walk has not reached the task.
    Untouched,
    /// The walk is among the dependencies of the task.
    Started,
    /// The task is listed.
    Done,
}

/// One task that the walk has started, and how many of its dependencies it
/// has looked at.
#[derive(Debug, Clone, Copy)]
pub struct Frame {
    pub task: usize,
    pub next: usize,
}

/// The mathematical value of a [`Frame`].
pub struct Step {
    pub task: int,
    pub next: int,
}

impl View for Frame {
    type V = Step;

    open spec fn view(&self) -> Step {
        Step { task: self.task as int, next: self.next as int }
    }
}

impl DeepView for Frame {
    type V = Step;

    open spec fn deep_view(&self) -> Step {
        self.view()
    }
}

/// Being untouched, as a predicate on marks.
pub open spec fn is_untouched() -> spec_fn(Mark) -> bool {
    |m: Mark| m == Mark::Untouched
}

/// How many tasks the walk has not reached.
pub open spec fn untouched(marks: Seq<Mark>) -> nat {
    marks.filter(is_untouched()).len()
}

/// How many dependencies of the task on top of the stack are left to look at.
pub open spec fn remaining(g: Graph, stack: Seq<Step>) -> int {
    if stack.len() == 0 {
        0
    } else {
        g[stack.last().task].dependencies.len() - stack.last().next
    }
}

/// Starting an untouched task leaves one untouched task less.
pub proof fn lemma_untouched_drops(marks: Seq<Mark>, at: int, mark: Mark)
    requires
        0 <= at < marks.len(),
        marks[at] == Mark::Untouched,
        mark != Mark::Untouched,
    ensures
        untouched(marks.update(at, mark)) < untouched(marks),
    decreases marks.len(),
{
    let after = marks.update(at, mark);
    let a0 = marks.drop_last();
    let b0 = after.drop_last();
    assert(marks =~= a0.push(marks.last()));
    assert(after =~= b0.push(after.last()));
    a0.lemma_filter_push(marks.last(), is_untouched());
    b0.lemma_filter_push(after.last(), is_untouched());
    if at == marks.len() - 1 {
        assert(a0 =~= b0);
    } else {
        assert(b0 =~= a0.update(at, mark));
        lemma_untouched_drops(a0, at, mark);
    }
}

/// Finishing a started task leaves the number of untouched tasks as it is.
pub proof fn lemma_untouched_same(marks: Seq<Mark>, at: int, mark: Mark)
    requires
        0 <= at < marks.len(),
        marks[at] != Mark::Untouched,
        mark != Mark::Untouched,
    ensures
        untouched(marks.update(at, mark)) == untouched(marks),
    decreases marks.len(),
{
    let after = marks.update(at, mark);
    let a0 = marks.drop_last();
    let b0 = after.drop_last();
    assert(marks =~= a0.push(marks.last()));
    assert(after =~= b0.push(after.last()));
    a0.lemma_filter_push(marks.last(), is_untouched());
    b0.lemma_filter_push(after.last(), is_untouched());
    if at == marks.len() - 1 {
        assert(a0 =~= b0);
    } else {
        assert(b0 =~= a0.update(at, mark));
        lemma_untouched_same(a0, at, mark);
    }
}

/// A frame names a started task of the graph and has not looked at more
/// dependencies than the task has.
pub open spec fn frame_ok(g: Graph, marks: Seq<Mark>, frame: Step) -> bool {
    &&& 0 <= frame.task < g.len()
    &&& 0 <= frame.next <= g[frame.task].dependencies.len()
    &&& marks[frame.task] == Mark::Started
}

/// The task at `i` is on the stack.
pub open spec fn on_stack(stack: Seq<Step>, i: int) -> bool {
    exists|s: int| 0 <= s < stack.len() && (#[trigger] stack[s]).task == i
}

/// The frame above `s` is for the dependency that the frame at `s` looked at
/// last.
pub open spec fn linked(g: Graph, stack: Seq<Step>, s: int) -> bool {
    &&& stack[s].next >= 1
    &&& g[stack[s].task].dependencies[stack[s].next - 1] == g[stack[s + 1].task].id
}

/// The dependency `m` of the frame at `s` is dealt with: it is listed, or it
/// closes a cycle, or the frame above is for it.
pub open spec fn seen(g: Graph, order: Seq<Seq<char>>, stack: Seq<Step>, s: int, m: int) -> bool {
    ||| order.contains(g[stack[s].task].dependencies[m])
    ||| closes_cycle(g, stack[s].task, m)
    ||| (s < stack.len() - 1 && m == stack[s].next - 1)
}

/// What holds at every step of the walk.
pub open spec fn walking(
    g: Graph,
    marks: Seq<Mark>,
    stack: Seq<Step>,
    order: Seq<Seq<char>>,
) -> bool {
    &&& marks.len() == g.len()
    &&& forall|s: int| 0 <= s < stack.len() ==> frame_ok(g, marks, #[trigger] stack[s])
    &&& forall|i: int|
        0 <= i < g.len() && (#[trigger] marks[i]) == Mark::Started ==> on_stack(stack, i)
    &&& forall|s: int| 0 <= s < stack.len() - 1 ==> #[trigger] linked(g, stack, s)
    &&& forall|s: int, t: int|
        0 <= s < t < stack.len() ==> (#[trigger] stack[s]).task != (#[trigger] stack[t]).task
    &&& order.no_duplicates()
    &&& forall|i: int|
        0 <= i < g.len() ==> ((#[trigger] marks[i]) == Mark::Done <==> order.contains(g[i].id))
    &&& forall|p: int| 0 <= p < order.len() ==> known_id(g, #[trigger] order[p])
    &&& forall|i: int, m: int|
        0 <= i < g.len() && 0 <= m < g[i].dependencies.len() && marks[i] == Mark::Done
            ==> #[trigger] dependency_first(g, order, i, m)
    &&& forall|s: int, m: int|
        0 <= s < stack.len() && 0 <= m < stack[s].next ==> #[trigger] seen(g, order, stack, s, m)
}

/// An id that is listed stays listed, and what stands before something stays
/// before it, when an id is added at the end.
pub proof fn lemma_push_keeps(order: Seq<Seq<char>>, id: Seq<char>)
    ensures
        forall|x: Seq<char>| order.contains(x) ==> #[trigger] order.push(id).contains(x),
        order.push(id).contains(id),
        forall|x: Seq<char>| #[trigger] order.push(id).contains(x) ==> order.contains(x) || x == id,
        forall|x: Seq<char>, y: Seq<char>|
            precedes(order, x, y) ==> #[trigger] precedes(order.push(id), x, y),
        forall|x: Seq<char>| order.contains(x) ==> #[trigger] precedes(order.push(id), x, id),
{
    let longer = order.push(id);
    assert forall|x: Seq<char>| order.contains(x) implies #[trigger] longer.contains(x) by {
        let p = choose|p: int| 0 <= p < order.len() && order[p] == x;
        assert(longer[p] == x);
    }
    assert(longer[order.len() as int] == id);
    assert forall|x: Seq<char>|
        #[trigger] longer.contains(x) implies order.contains(x) || x == id by {
        let p = choose|p: int| 0 <= p < longer.len() && longer[p] == x;
        if p < order.len() {
            assert(order[p] == x);
        }
    }
    assert forall|x: Seq<char>, y: Seq<char>|
        precedes(order, x, y) implies #[trigger] precedes(longer, x, y) by {
        let (p, q) = choose|p: int, q: int|
            0 <= p < q < order.len() && #[trigger] order[p] == x && #[trigger] order[q] == y;
        assert(longer[p] == x && longer[q] == y);
    }
    assert forall|x: Seq<char>| order.contains(x) implies #[trigger] precedes(longer, x, id) by {
        let p = choose|p: int| 0 <= p < order.len() && order[p] == x;
        assert(longer[p] == x && longer[order.len() as int] == id);
    }
}

/// The walk may begin: nothing is started, nothing is listed.
pub proof fn lemma_walk_begins(g: Graph, marks: Seq<Mark>)
    requires
        marks.len() == g.len(),
        forall|i: int| 0 <= i < marks.len() ==> (#[trigger] marks[i]) == Mark::Untouched,
    ensures
        walking(g, marks, Seq::<Step>::empty(), Seq::<Seq<char>>::empty()),
{
    let order = Seq::<Seq<char>>::empty();
    assert forall|i: int|
        0 <= i < g.len() implies ((#[trigger] marks[i]) == Mark::Done <==> order.contains(
        g[i].id,
    )) by {}
}

/// The walk starts on an untouched task while nothing else is started.
pub proof fn lemma_walk_starts(g: Graph, marks: Seq<Mark>, order: Seq<Seq<char>>, j: int)
    requires
        walking(g, marks, Seq::<Step>::empty(), order),
        0 <= j < g.len(),
        marks[j] == Mark::Untouched,
    ensures
        walking(g, marks.update(j, Mark::Started), seq![Step { task: j, next: 0 }], order),
{
    let marks2 = marks.update(j, Mark::Started);
    let stack = Seq::<Step>::empty();
    let stack2 = seq![Step { task: j, next: 0 }];
    assert forall|i: int|
        0 <= i < g.len() && (#[trigger] marks2[i]) == Mark::Started implies on_stack(
        stack2,
        i,
    ) by {
        if i == j {
            assert(stack2[0].task == i);
        } else {
            assert(marks[i] == Mark::Started);
            assert(on_stack(stack, i));
        }
    }
    assert forall|i: int|
        0 <= i < g.len() implies ((#[trigger] marks2[i]) == Mark::Done <==> order.contains(
        g[i].id,
    )) by {
        assert(marks[i] == Mark::Done <==> order.contains(g[i].id));
    }
    assert forall|i: int, m: int|
        0 <= i < g.len() && 0 <= m < g[i].dependencies.len() && marks2[i] == Mark::Done
        implies #[trigger] dependency_first(
        g,
        order,
        i,
        m,
    ) by {
        assert(marks[i] == Mark::Done);
    }
}

/// The dependency that the task on top looks at is an untouched task: the
/// walk starts on it.
pub proof fn lemma_walk_descends(
    g: Graph,
    marks: Seq<Mark>,
    stack: Seq<Step>,
    order: Seq<Seq<char>>,
    moved: Step,
    j: int,
)
    requires
        walking(g, marks, stack, order),
        stack.len() > 0,
        stack.last().next < g[stack.last().task].dependencies.len(),
        moved.task == stack.last().task,
        moved.next == stack.last().next + 1,
        0 <= j < g.len(),
        g[j].id == g[stack.last().task].dependencies[stack.last().next],
        marks[j] == Mark::Untouched,
    ensures
        walking(
            g,
            marks.update(j, Mark::Started),
            stack.update(stack.len() - 1, moved).push(Step { task: j, next: 0 }),
            order,
        ),
{
    let top = stack.len() - 1;
    let marks2 = marks.update(j, Mark::Started);
    let stack2 = stack.update(top, moved).push(Step { task: j, next: 0 });
    assert(frame_ok(g, marks, stack[top]));
    assert forall|s: int|
        0 <= s < stack2.len() implies frame_ok(g, marks2, #[trigger] stack2[s]) by {
        if s < stack.len() {
            assert(frame_ok(g, marks, stack[s]));
        }
    }
    assert forall|i: int|
        0 <= i < g.len() && (#[trigger] marks2[i]) == Mark::Started implies on_stack(
        stack2,
        i,
    ) by {
        if i == j {
            assert(stack2[stack.len() as int].task == i);
        } else {
            assert(marks[i] == Mark::Started);
            let s = choose|s: int| 0 <= s < stack.len() && (#[trigger] stack[s]).task == i;
            assert(stack2[s].task == i);
        }
    }
    assert forall|s: int| 0 <= s < stack2.len() - 1 implies #[trigger] linked(g, stack2, s) by {
        if s < top {
            assert(linked(g, stack, s));
        }
    }
    assert forall|s: int, t: int| 0 <= s < t < stack2.len() implies (#[trigger] stack2[s]).task != (
    #[trigger] stack2[t]).task by {
        if t < stack.len() {
            assert(stack[s].task != stack[t].task);
        } else {
            assert(frame_ok(g, marks, stack[s]));
        }
    }
    assert forall|i: int|
        0 <= i < g.len() implies ((#[trigger] marks2[i]) == Mark::Done <==> order.contains(
        g[i].id,
    )) by {
        assert(marks[i] == Mark::Done <==> order.contains(g[i].id));
    }
    assert forall|i: int, m: int|
        0 <= i < g.len() && 0 <= m < g[i].dependencies.len() && marks2[i] == Mark::Done
        implies #[trigger] dependency_first(
        g,
        order,
        i,
        m,
    ) by {
        assert(marks[i] == Mark::Done);
    }
    assert forall|s: int, m: int|
        0 <= s < stack2.len() && 0 <= m < stack2[s].next implies #[trigger] seen(
        g,
        order,
        stack2,
        s,
        m,
    ) by {
        if s < top || (s == top && m < stack[top].next) {
            assert(seen(g, order, stack, s, m));
        }
    }
}

/// The task on top of the stack has looked at one more dependency, and that
/// dependency is listed or closes a cycle.
pub proof fn lemma_walk_moves_on(
    g: Graph,
    marks: Seq<Mark>,
    stack: Seq<Step>,
    order: Seq<Seq<char>>,
    moved: Step,
)
    requires
        walking(g, marks, stack, order),
        stack.len() > 0,
        stack.last().next < g[stack.last().task].dependencies.len(),
        moved.task == stack.last().task,
        moved.next == stack.last().next + 1,
        order.contains(g[stack.last().task].dependencies[stack.last().next])
            || closes_cycle(g, stack.last().task, stack.last().next),
    ensures
        walking(g, marks, stack.update(stack.len() - 1, moved), order),
{
    let top = stack.len() - 1;
    let stack2 = stack.update(top, moved);
    assert(frame_ok(g, marks, stack[top]));
    assert forall|s: int|
        0 <= s < stack2.len() implies frame_ok(g, marks, #[trigger] stack2[s]) by {
        assert(frame_ok(g, marks, stack[s]));
    }
    assert forall|i: int|
        0 <= i < g.len() && (#[trigger] marks[i]) == Mark::Started implies on_stack(
        stack2,
        i,
    ) by {
        let s = choose|s: int| 0 <= s < stack.len() && (#[trigger] stack[s]).task == i;
        assert(stack2[s].task == i);
    }
    assert forall|s: int| 0 <= s < stack2.len() - 1 implies #[trigger] linked(g, stack2, s) by {
        assert(linked(g, stack, s));
    }
    assert forall|s: int, t: int| 0 <= s < t < stack2.len() implies (#[trigger] stack2[s]).task != (
    #[trigger] stack2[t]).task by {
        assert(stack[s].task != stack[t].task);
    }
    assert forall|s: int, m: int|
        0 <= s < stack2.len() && 0 <= m < stack2[s].next implies #[trigger] seen(
        g,
        order,
        stack2,
        s,
        m,
    ) by {
        if s < top || m < stack[top].next {
            assert(seen(g, order, stack, s, m));
        }
    }
}

/// An id that no task has, and that a task waits for, is listed.
pub proof fn lemma_walk_lists_stranger(
    g: Graph,
    marks: Seq<Mark>,
    stack: Seq<Step>,
    order: Seq<Seq<char>>,
    id: Seq<char>,
)
    requires
        walking(g, marks, stack, order),
        !has_task(g, id),
        names_dependency(g, id),
        !order.contains(id),
    ensures
        walking(g, marks, stack, order.push(id)),
{
    let order2 = order.push(id);
    lemma_push_keeps(order, id);
    assert forall|s: int| 0 <= s < stack.len() - 1 implies #[trigger] linked(g, stack, s) by {}
    assert forall|i: int|
        0 <= i < g.len() implies ((#[trigger] marks[i]) == Mark::Done <==> order2.contains(
        g[i].id,
    )) by {
        assert(marks[i] == Mark::Done <==> order.contains(g[i].id));
        assert(g[i].id != id);
    }
    assert forall|p: int| 0 <= p < order2.len() implies known_id(g, #[trigger] order2[p]) by {
        if p < order.len() {
            assert(known_id(g, order[p]));
        }
    }
    assert forall|i: int, m: int|
        0 <= i < g.len() && 0 <= m < g[i].dependencies.len() && marks[i] == Mark::Done
        implies #[trigger] dependency_first(
        g,
        order2,
        i,
        m,
    ) by {
        assert(dependency_first(g, order, i, m));
    }
    assert forall|s: int, m: int|
        0 <= s < stack.len() && 0 <= m < stack[s].next implies #[trigger] seen(
        g,
        order2,
        stack,
        s,
        m,
    ) by {
        assert(seen(g, order, stack, s, m));
    }
}

/// The dependency that the task on top looks at is a started task: it waits
/// in turn for the task on top, so it closes a cycle.
pub proof fn lemma_walk_meets_cycle(
    g: Graph,
    marks: Seq<Mark>,
    stack: Seq<Step>,
    order: Seq<Seq<char>>,
    j: int,
)
    requires
        walking(g, marks, stack, order),
        stack.len() > 0,
        stack.last().next < g[stack.last().task].dependencies.len(),
        0 <= j < g.len(),
        g[j].id == g[stack.last().task].dependencies[stack.last().next],
        marks[j] == Mark::Started,
    ensures
        closes_cycle(g, stack.last().task, stack.last().next),
{
    let top = stack.len() - 1;
    let s0 = choose|s: int| 0 <= s < stack.len() && (#[trigger] stack[s]).task == j;
    let path = Seq::new((top - s0 + 1) as nat, |x: int| stack[s0 + x].task);
    assert forall|s: int| 0 <= s < path.len() implies 0 <= #[trigger] path[s] < g.len() by {
        assert(frame_ok(g, marks, stack[s0 + s]));
    }
    assert forall|s: int| 0 <= s < path.len() - 1 implies #[trigger] waits_for_next(g, path, s) by {
        assert(linked(g, stack, s0 + s));
        assert(frame_ok(g, marks, stack[s0 + s]));
        let task = g[stack[s0 + s].task];
        assert(task.dependencies[stack[s0 + s].next - 1] == g[path[s + 1]].id);
    }
    assert(chain(g, path));
    assert(path.first() == j && path.last() == stack.last().task);
    assert(depends_on(g, j, stack.last().task));
}

/// The task on top has looked at all its dependencies: it leaves the stack
/// and is listed.
pub proof fn lemma_walk_finishes(
    g: Graph,
    marks: Seq<Mark>,
    stack: Seq<Step>,
    order: Seq<Seq<char>>,
)
    requires
        distinct_ids(g),
        walking(g, marks, stack, order),
        stack.len() > 0,
        stack.last().next == g[stack.last().task].dependencies.len(),
    ensures
        walking(
            g,
            marks.update(stack.last().task, Mark::Done),
            stack.drop_last(),
            order.push(g[stack.last().task].id),
        ),
{
    let top = stack.len() - 1;
    let done = stack.last().task;
    let id = g[done].id;
    let marks2 = marks.update(done, Mark::Done);
    let stack2 = stack.drop_last();
    let order2 = order.push(id);
    lemma_push_keeps(order, id);
    assert(frame_ok(g, marks, stack[top]));
    assert(!order.contains(id));
    assert forall|s: int|
        0 <= s < stack2.len() implies frame_ok(g, marks2, #[trigger] stack2[s]) by {
        assert(frame_ok(g, marks, stack[s]));
        assert(stack[s].task != stack[top].task);
    }
    assert forall|i: int|
        0 <= i < g.len() && (#[trigger] marks2[i]) == Mark::Started implies on_stack(
        stack2,
        i,
    ) by {
        assert(marks[i] == Mark::Started);
        let s = choose|s: int| 0 <= s < stack.len() && (#[trigger] stack[s]).task == i;
        assert(stack2[s].task == i);
    }
    assert forall|s: int| 0 <= s < stack2.len() - 1 implies #[trigger] linked(g, stack2, s) by {
        assert(linked(g, stack, s));
    }
    assert forall|s: int, t: int| 0 <= s < t < stack2.len() implies (#[trigger] stack2[s]).task != (
    #[trigger] stack2[t]).task by {
        assert(stack[s].task != stack[t].task);
    }
    assert forall|i: int|
        0 <= i < g.len() implies ((#[trigger] marks2[i]) == Mark::Done <==> order2.contains(
        g[i].id,
    )) by {
        assert(marks[i] == Mark::Done <==> order.contains(g[i].id));
        if i < done {
            assert(g[i].id != g[done].id);
        } else if done < i {
            assert(g[done].id != g[i].id);
        }
    }
    assert forall|p: int| 0 <= p < order2.len() implies known_id(g, #[trigger] order2[p]) by {
        if p < order.len() {
            assert(known_id(g, order[p]));
        } else {
            assert(g[done].id == order2[p]);
        }
    }
    assert forall|i: int, m: int|
        0 <= i < g.len() && 0 <= m < g[i].dependencies.len() && marks2[i] == Mark::Done
        implies #[trigger] dependency_first(
        g,
        order2,
        i,
        m,
    ) by {
        if i == done {
            assert(seen(g, order, stack, top, m));
        } else {
            assert(dependency_first(g, order, i, m));
        }
    }
    assert forall|s: int, m: int|
        0 <= s < stack2.len() && 0 <= m < stack2[s].next implies #[trigger] seen(
        g,
        order2,
        stack2,
        s,
        m,
    ) by {
        assert(seen(g, order, stack, s, m));
        if s == stack2.len() - 1 && m == stack[s].next - 1 {
            assert(linked(g, stack, s));
        }
    }
}

/// When the walk has come through, what it listed is the execution order.
pub proof fn lemma_walk_ends(g: Graph, marks: Seq<Mark>, order: Seq<Seq<char>>)
    requires
        walking(g, marks, Seq::<Step>::empty(), order),
        forall|i: int| 0 <= i < g.len() ==> (#[trigger] marks[i]) != Mark::Untouched,
    ensures
        valid_order(g, order),
{
    let stack = Seq::<Step>::empty();
    assert forall|i: int| 0 <= i < g.len() implies (#[trigger] marks[i]) == Mark::Done by {
        if marks[i] == Mark::Started {
            assert(on_stack(stack, i));
        }
    }
    assert forall|i: int| 0 <= i < g.len() implies order.contains((#[trigger] g[i]).id) by {
        assert(marks[i] == Mark::Done);
    }
    assert forall|i: int, m: int|
        0 <= i < g.len() && 0 <= m < g[i].dependencies.len() implies #[trigger] dependency_first(
        g,
        order,
        i,
        m,
    ) by {
        assert(marks[i] == Mark::Done);
    }
}

/// The ids of the started tasks, the one started first first.
pub open spec fn path_of(g: Graph, stack: Seq<Step>) -> Seq<Seq<char>> {
    Seq::new(stack.len(), |s: int| g[stack[s].task].id)
}

/// The order that the walk will have listed when it has come through all the
/// tasks on the stack.
pub open spec fn resume(g: Graph, stack: Seq<Step>, order: Seq<Seq<char>>) -> Seq<Seq<char>>
    decreases stack.len(),
{
    if stack.len() == 0 {
        order
    } else {
        let task = g[stack.last().task];
        let left = task.dependencies.skip(stack.last().next);
        resume(g, stack.drop_last(), visit_each(g, left, path_of(g, stack), order).push(task.id))
    }
}

/// A started task is on the path, a listed task is in the order, and the
/// other way round.
pub proof fn lemma_walk_marks(
    g: Graph,
    marks: Seq<Mark>,
    stack: Seq<Step>,
    order: Seq<Seq<char>>,
    j: int,
)
    requires
        distinct_ids(g),
        walking(g, marks, stack, order),
        0 <= j < g.len(),
    ensures
        marks[j] == Mark::Started <==> path_of(g, stack).contains(g[j].id),
        marks[j] == Mark::Done <==> order.contains(g[j].id),
{
    let path = path_of(g, stack);
    if marks[j] == Mark::Started {
        let s = choose|s: int| 0 <= s < stack.len() && (#[trigger] stack[s]).task == j;
        assert(path[s] == g[j].id);
    }
    if path.contains(g[j].id) {
        let s = choose|s: int| 0 <= s < path.len() && path[s] == g[j].id;
        assert(frame_ok(g, marks, stack[s]));
        let i = stack[s].task;
        if i < j {
            assert(g[i].id != g[j].id);
        } else if j < i {
            assert(g[j].id != g[i].id);
        }
    }
}

/// An id that no task has is not on the path.
pub proof fn lemma_stranger_off_path(
    g: Graph,
    marks: Seq<Mark>,
    stack: Seq<Step>,
    order: Seq<Seq<char>>,
    id: Seq<char>,
)
    requires
        walking(g, marks, stack, order),
        !has_task(g, id),
    ensures
        !path_of(g, stack).contains(id),
{
    let path = path_of(g, stack);
    if path.contains(id) {
        let s = choose|s: int| 0 <= s < path.len() && path[s] == id;
        assert(frame_ok(g, marks, stack[s]));
        assert(g[stack[s].task].id == id);
    }
}

/// The walk from a task that it has just started is the visit to that task.
pub proof fn lemma_resume_starts(g: Graph, order: Seq<Seq<char>>, j: int)
    requires
        distinct_ids(g),
        0 <= j < g.len(),
        !order.contains(g[j].id),
    ensures
        resume(g, seq![Step { task: j, next: 0 }], order) == visit(
            g,
            g[j].id,
            Seq::empty(),
            order,
        ),
{
    let id = g[j].id;
    let stack = seq![Step { task: j, next: 0 }];
    let none = Seq::<Seq<char>>::empty();
    lemma_position_is(g, id, j);
    assert(g[j].dependencies.skip(0) =~= g[j].dependencies);
    assert(path_of(g, stack) =~= none.push(id));
    assert(stack.drop_last() =~= Seq::<Step>::empty());
    let listed = visit_each(g, g[j].dependencies, none.push(id), order).push(id);
    assert(resume(g, stack.drop_last(), listed) == listed);
}

/// The task on top has looked at all its dependencies: what is left of the
/// walk is to list it, and the walk below it.
pub proof fn lemma_resume_finishes(g: Graph, stack: Seq<Step>, order: Seq<Seq<char>>)
    requires
        stack.len() > 0,
        stack.last().next == g[stack.last().task].dependencies.len(),
    ensures
        resume(g, stack, order) == resume(
            g,
            stack.drop_last(),
            order.push(g[stack.last().task].id),
        ),
{
    let task = g[stack.last().task];
    let left = task.dependencies.skip(stack.last().next);
    assert(left.len() == 0);
}

/// The task on top looks at one more dependency: what is left of the walk
/// is what is left after the visit to that dependency.
pub proof fn lemma_resume_moves_on(g: Graph, stack: Seq<Step>, order: Seq<Seq<char>>, moved: Step)
    requires
        stack.len() > 0,
        0 <= stack.last().next < g[stack.last().task].dependencies.len(),
        moved.task == stack.last().task,
        moved.next == stack.last().next + 1,
    ensures
        resume(g, stack, order) == resume(
            g,
            stack.update(stack.len() - 1, moved),
            visit(
                g,
                g[stack.last().task].dependencies[stack.last().next],
                path_of(g, stack),
                order,
            ),
        ),
{
    let task = g[stack.last().task];
    let next = stack.last().next;
    let left = task.dependencies.skip(next);
    let stack2 = stack.update(stack.len() - 1, moved);
    assert(left.first() == task.dependencies[next]);
    assert(left.drop_first() =~= task.dependencies.skip(next + 1));
    assert(stack2.drop_last() =~= stack.drop_last());
    assert(path_of(g, stack2) =~= path_of(g, stack));
    assert(stack2.last() == moved);
}

/// The dependency that the task on top looks at is a task that is neither
/// started nor listed: what is left of the walk is the walk from that task.
pub proof fn lemma_resume_descends(
    g: Graph,
    stack: Seq<Step>,
    order: Seq<Seq<char>>,
    moved: Step,
    j: int,
)
    requires
        distinct_ids(g),
        stack.len() > 0,
        0 <= stack.last().next < g[stack.last().task].dependencies.len(),
        moved.task == stack.last().task,
        moved.next == stack.last().next + 1,
        0 <= j < g.len(),
        g[j].id == g[stack.last().task].dependencies[stack.last().next],
        !path_of(g, stack).contains(g[j].id),
        !order.contains(g[j].id),
    ensures
        resume(g, stack, order) == resume(
            g,
            stack.update(stack.len() - 1, moved).push(Step { task: j, next: 0 }),
            order,
        ),
{
    let id = g[j].id;
    let path = path_of(g, stack);
    let stack2 = stack.update(stack.len() - 1, moved);
    let stack3 = stack2.push(Step { task: j, next: 0 });
    lemma_resume_moves_on(g, stack, order, moved);
    lemma_position_is(g, id, j);
    assert(g[j].dependencies.skip(0) =~= g[j].dependencies);
    assert(path_of(g, stack3) =~= path.push(id));
    assert(stack3.drop_last() =~= stack2);
}

/// The walk, taken step by step from any of its states until nothing is
/// started any more: it lists what was left of it to list, and what held
/// at the state it was taken from holds at its end.
pub proof fn lemma_walk_through(
    g: Graph,
    marks: Seq<Mark>,
    stack: Seq<Step>,
    order: Seq<Seq<char>>,
) -> (end: (Seq<Mark>, Seq<Seq<char>>))
    requires
        distinct_ids(g),
        walking(g, marks, stack, order),
    ensures
        walking(g, end.0, Seq::<Step>::empty(), end.1),
        end.1 == resume(g, stack, order),
        forall|i: int|
            0 <= i < g.len() && marks[i] != Mark::Untouched ==> (#[trigger] end.0[i])
                != Mark::Untouched,
    decreases untouched(marks), stack.len(), remaining(g, stack),
{
    if stack.len() == 0 {
        assert(stack =~= Seq::<Step>::empty());
        (marks, order)
    } else {
        let top = stack.len() - 1;
        let frame = stack.last();
        assert(frame_ok(g, marks, stack[top]));
        let task = g[frame.task];
        if frame.next < task.dependencies.len() {
            let id = task.dependencies[frame.next];
            let moved = Step { task: frame.task, next: frame.next + 1 };
            lemma_position_holds(g, id);
            lemma_resume_moves_on(g, stack, order, moved);
            match position(g, id) {
                Some(j) => {
                    lemma_walk_marks(g, marks, stack, order, j);
                    if marks[j] == Mark::Untouched {
                        lemma_resume_descends(g, stack, order, moved, j);
                        lemma_walk_descends(g, marks, stack, order, moved, j);
                        lemma_untouched_drops(marks, j, Mark::Started);
                        lemma_walk_through(
                            g,
                            marks.update(j, Mark::Started),
                            stack.update(top, moved).push(Step { task: j, next: 0 }),
                            order,
                        )
                    } else {
                        if marks[j] == Mark::Started {
                            lemma_walk_meets_cycle(g, marks, stack, order, j);
                        }
                        lemma_walk_moves_on(g, marks, stack, order, moved);
                        lemma_walk_through(g, marks, stack.update(top, moved), order)
                    }
                },
                None => {
                    lemma_stranger_off_path(g, marks, stack, order, id);
                    if order.contains(id) {
                        lemma_walk_moves_on(g, marks, stack, order, moved);
                        lemma_walk_through(g, marks, stack.update(top, moved), order)
                    } else {
                        assert(names_dependency(g, id)) by {
                            assert(g[frame.task].dependencies[frame.next] == id);
                        }
                        lemma_walk_lists_stranger(g, marks, stack, order, id);
                        lemma_push_keeps(order, id);
                        lemma_walk_moves_on(g, marks, stack, order.push(id), moved);
                        lemma_walk_through(g, marks, stack.update(top, moved), order.push(id))
                    }
                },
            }
        } else {
            lemma_resume_finishes(g, stack, order);
            lemma_walk_finishes(g, marks, stack, order);
            lemma_untouched_same(marks, frame.task, Mark::Done);
            lemma_walk_through(
                g,
                marks.update(frame.task, Mark::Done),
                stack.drop_last(),
                order.push(task.id),
            )
        }
    }
}

/// The walk from each of the tasks from `root` on, in the graph's order,
/// ends with an execution order of the graph.
pub proof fn lemma_walk_all(g: Graph, marks: Seq<Mark>, order: Seq<Seq<char>>, root: int)
    requires
        distinct_ids(g),
        walking(g, marks, Seq::<Step>::empty(), order),
        0 <= root <= g.len(),
        forall|i: int| 0 <= i < root ==> (#[trigger] marks[i]) != Mark::Untouched,
    ensures
        valid_order(g, visit_each(g, ids_of(g).skip(root), Seq::empty(), order)),
    decreases g.len() - root,
{
    let none = Seq::<Seq<char>>::empty();
    let left = ids_of(g).skip(root);
    if root == g.len() {
        lemma_walk_ends(g, marks, order);
        assert(left.len() == 0);
    } else {
        assert(left.first() == g[root].id);
        assert(left.drop_first() =~= ids_of(g).skip(root + 1));
        lemma_walk_marks(g, marks, Seq::<Step>::empty(), order, root);
        if marks[root] == Mark::Untouched {
            let started = marks.update(root, Mark::Started);
            lemma_walk_starts(g, marks, order, root);
            lemma_resume_starts(g, order, root);
            let end = lemma_walk_through(g, started, seq![Step { task: root, next: 0 }], order);
            assert forall|i: int| 0 <= i < root + 1 implies (#[trigger] end.0[i])
                != Mark::Untouched by {
                assert(started[i] != Mark::Untouched);
            }
            lemma_walk_all(g, end.0, end.1, root + 1);
        } else {
            if marks[root] == Mark::Started {
                assert(on_stack(Seq::<Step>::empty(), root));
            }
            lemma_walk_all(g, marks, order, root + 1);
        }
    }
}

/// The execution order of a graph lists every id once, and each task behind
/// what it waits for, except where that waits in turn for the task.
pub proof fn lemma_execution_order_valid(g: Graph)
    requires
        distinct_ids(g),
    ensures
        valid_order(g, execution_order_of(g)),
{
    let marks = Seq::new(g.len(), |i: int| Mark::Untouched);
    lemma_walk_begins(g, marks);
    assert(ids_of(g).skip(0) =~= ids_of(g));
    lemma_walk_all(g, marks, Seq::empty(), 0);
}

/// Whether `name` is among `names`.
pub(crate) fn contains_name(names: &Vec<String>, name: &String) -> (held: bool)
    ensures
        held == names.deep_view().contains(name@),
{
    let ghost listed = names.deep_view();
    let mut i: usize = 0;
    while i < names.len()
        invariant
            i <= names.len(),
            listed == names.deep_view(),
            forall|j: int| 0 <= j < i ==> listed[j] != name@,
        decreases names.len() - i,
    {
        if names[i] == *name {
            assert(listed[i as int] == name@);
            return true;
        }
        i += 1;
    }
    false
}

/// The execution order of `tasks`. The walk goes through the tasks in their
/// order and, from each task that it has not reached yet, first through what
/// the task waits for. Where it comes back to a task that it has started,
/// it goes no further along that dependency, so a cycle does not stop it.
pub(crate) fn execution_order(tasks: &Vec<Task>) -> (order: Vec<String>)
    requires
        distinct_ids(tasks.deep_view()),
    ensures
        order.deep_view() == execution_order_of(tasks.deep_view()),
{
    let ghost g = tasks.deep_view();
    let ghost none = Seq::<Seq<char>>::empty();
    let count = tasks.len();
    let mut marks: Vec<Mark> = Vec::new();
    let mut i: usize = 0;
    while i < count
        invariant
            i <= count,
            marks.len() == i,
            forall|j: int| 0 <= j < i ==> (#[trigger] marks@[j]) == Mark::Untouched,
        decreases count - i,
    {
        marks.push(Mark::Untouched);
        i += 1;
    }
    let mut stack: Vec<Frame> = Vec::new();
    let mut order: Vec<String> = Vec::new();
    proof {
        lemma_walk_begins(g, marks@);
        assert(stack.deep_view() =~= Seq::<Step>::empty());
        assert(order.deep_view() =~= none);
        assert(ids_of(g).skip(0) =~= ids_of(g));
    }
    let mut root: usize = 0;
    while root < count
        invariant
            root <= count,
            count == tasks.len(),
            g == tasks.deep_view(),
            none == Seq::<Seq<char>>::empty(),
            distinct_ids(g),
            stack.len() == 0,
            walking(g, marks@, stack.deep_view(), order.deep_view()),
            forall|j: int| 0 <= j < root ==> (#[trigger] marks@[j]) != Mark::Untouched,
            visit_each(g, ids_of(g).skip(root as int), none, order.deep_view())
                == execution_order_of(g),
        decreases count - root,
    {
        let ghost target = visit(g, g[root as int].id, none, order.deep_view());
        proof {
            let left = ids_of(g).skip(root as int);
            assert(left.first() == g[root as int].id);
            assert(left.drop_first() =~= ids_of(g).skip(root as int + 1));
            assert(stack.deep_view() =~= Seq::<Step>::empty());
            lemma_walk_marks(g, marks@, stack.deep_view(), order.deep_view(), root as int);
        }
        if marks[root] == Mark::Untouched {
            proof {
                lemma_walk_starts(g, marks@, order.deep_view(), root as int);
                lemma_untouched_drops(marks@, root as int, Mark::Started);
                lemma_resume_starts(g, order.deep_view(), root as int);
            }
            marks.set(root, Mark::Started);
            stack.push(Frame { task: root, next: 0 });
            assert(stack.deep_view() =~= seq![Step { task: root as int, next: 0 }]);
            while stack.len() > 0
                invariant
                    root < count,
                    count == tasks.len(),
                    g == tasks.deep_view(),
                    distinct_ids(g),
                    walking(g, marks@, stack.deep_view(), order.deep_view()),
                    forall|j: int| 0 <= j <= root ==> (#[trigger] marks@[j]) != Mark::Untouched,
                    resume(g, stack.deep_view(), order.deep_view()) == target,
                decreases
                    untouched(marks@),
                    stack.deep_view().len(),
                    remaining(g, stack.deep_view()),
            {
                let top = stack.len() - 1;
                let frame = stack[top];
                let ghost listed = order.deep_view();
                let ghost steps = stack.deep_view();
                proof {
                    assert(frame_ok(g, marks@, steps[top as int]));
                    assert(steps.last() == frame@);
                }
                let task = &tasks[frame.task];
                if frame.next < task.dependencies.len() {
                    let dependency = &task.dependencies[frame.next];
                    let moved = Frame { task: frame.task, next: frame.next + 1 };
                    proof {
                        lemma_position_holds(g, dependency@);
                        assert(g[frame.task as int].dependencies[frame.next as int] == dependency@);
                    }
                    match find_task(tasks, dependency) {
                        Some(j) => {
                            match marks[j] {
                                Mark::Untouched => {
                                    let ghost below = steps.update(top as int, moved@);
                                    proof {
                                        let at = j as int;
                                        lemma_walk_marks(g, marks@, steps, listed, at);
                                        lemma_resume_descends(g, steps, listed, moved@, at);
                                        lemma_walk_descends(g, marks@, steps, listed, moved@, at);
                                        lemma_untouched_drops(marks@, at, Mark::Started);
                                    }
                                    stack.set(top, moved);
                                    marks.set(j, Mark::Started);
                                    stack.push(Frame { task: j, next: 0 });
                                    assert(stack.deep_view() =~= below.push(
                                        Step { task: j as int, next: 0 },
                                    ));
                                },
                                Mark::Started => {
                                    proof {
                                        lemma_walk_marks(g, marks@, steps, listed, j as int);
                                        lemma_resume_moves_on(g, steps, listed, moved@);
                                        lemma_walk_meets_cycle(g, marks@, steps, listed, j as int);
                                        lemma_walk_moves_on(g, marks@, steps, listed, moved@);
                                    }
                                    stack.set(top, moved);
                                    assert(stack.deep_view() =~= steps.update(top as int, moved@));
                                },
                                Mark::Done => {
                                    proof {
                                        lemma_walk_marks(g, marks@, steps, listed, j as int);
                                        lemma_resume_moves_on(g, steps, listed, moved@);
                                        lemma_walk_moves_on(g, marks@, steps, listed, moved@);
                                    }
                                    stack.set(top, moved);
                                    assert(stack.deep_view() =~= steps.update(top as int, moved@));
                                },
                            }
                        },
                        None => {
                            proof {
                                lemma_stranger_off_path(g, marks@, steps, listed, dependency@);
                                lemma_resume_moves_on(g, steps, listed, moved@);
                            }
                            if !contains_name(&order, dependency) {
                                proof {
                                    let id = dependency@;
                                    lemma_walk_lists_stranger(g, marks@, steps, listed, id);
                                    lemma_push_keeps(listed, dependency@);
                                }
                                order.push(dependency.clone());
                                assert(order.deep_view() =~= listed.push(dependency@));
                            }
                            proof {
                                lemma_walk_moves_on(g, marks@, steps, order.deep_view(), moved@);
                            }
                            stack.set(top, moved);
                            assert(stack.deep_view() =~= steps.update(top as int, moved@));
                        },
                    }
                } else {
                    proof {
                        lemma_resume_finishes(g, steps, listed);
                        lemma_walk_finishes(g, marks@, steps, listed);
                        lemma_untouched_same(marks@, frame.task as int, Mark::Done);
                    }
                    stack.pop();
                    marks.set(frame.task, Mark::Done);
                    order.push(task.id.clone());
                    proof {
                        assert(order.deep_view() =~= listed.push(g[frame.task as int].id));
                        assert(stack.deep_view() =~= steps.drop_last());
                    }
                }
            }
        }
        root += 1;
    }
    proof {
        assert(ids_of(g).skip(root as int).len() == 0);
    }
    order
}

} // verus!
