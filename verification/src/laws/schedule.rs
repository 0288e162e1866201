//! What access keeps.

use crate::consistency::{
    balanced, balanced_at, consistent, idles, lemma_linked_shape, lemma_unfinished_same,
    progressing, relies_on_children, roots_progress, weight,
};
use crate::graph::{lemma_same_shape, tally, Graph};
use crate::schedule::{
    asked_state, lemma_asked, lemma_only_asked, lemma_schedule, lemma_schedule_all, only_asked,
    schedule_all, schedule_step,
};
use crate::slot::TaskId;
use crate::task::{Node, TaskStateType};
use vstd::prelude::*;

verus! {

/// Being asked to make progress finishes nobody and changes no count.
proof fn lemma_asked_balanced(a: Graph, b: Graph, pending: spec_fn(TaskId) -> int)
    requires
        a.wf(),
        only_asked(a, b),
        balanced(a, pending),
    ensures
        balanced(b, pending),
{
    assert forall|p: TaskId| b.is_live(p) implies #[trigger] balanced_at(b, pending(p), p) by {
        let was = a.nodes[p as int];
        let node = b.nodes[p as int];
        assert(node == (Node { state_type: node.state_type, ..was }));
        assert(a.is_live(p));
        assert(balanced_at(a, pending(p), p));
        assert(a.node_wf(p));
        assert forall|i: int| 0 <= i < was.children.len() implies weight(
            a.nodes[#[trigger] was.children[i] as int].state_type,
        ) == weight(b.nodes[was.children[i] as int].state_type) by {
            assert(a.has(was.children[i]));
            let c = was.children[i] as int;
            assert(asked_state(a.nodes[c].state_type, b.nodes[c].state_type));
        }
        lemma_unfinished_same(a.nodes, b.nodes, was.children);
    }
}

/// A task that was asked to make progress does not idle, and neither do the children
/// that it relies on.
proof fn lemma_schedule_progress(g: Graph, t: TaskId, parents: Set<TaskId>)
    requires
        g.wf(),
        g.is_live(t),
        progressing(g, parents, Set::empty()),
    ensures
        progressing(schedule_step(g, t), parents, Set::empty()),
        !idles(schedule_step(g, t).state(t)),
    decreases tally(g.nodes, TaskStateType::SomeChildrenDirty), 0nat,
{
    let after = schedule_step(g, t);
    match g.state(t) {
        TaskStateType::Dirty => {
            assert forall|p: TaskId, i: int|
                #![trigger after.nodes[p as int].children[i]]
                after.is_live(p) && relies_on_children(after.state(p)) && !parents.contains(p)
                    && 0 <= i < after.nodes[p as int].children.len() implies !idles(
                after.state(after.nodes[p as int].children[i]),
            ) by {
                assert(g.node_wf(p));
                assert(g.has(g.nodes[p as int].children[i]));
            }
        },
        TaskStateType::SomeChildrenDirty => {
            let start = g.with_state(t, TaskStateType::SomeChildrenScheduled);
            let children = g.nodes[t as int].children;
            let more = parents.insert(t);
            lemma_asked(g, t);
            lemma_same_shape(g, start);
            assert(g.node_wf(t));
            assert forall|i: int| 0 <= i < children.len() implies start.is_live(
                #[trigger] children[i],
            ) && start.has(children[i]) by {
                assert(g.is_live(children[i]));
            }
            assert forall|p: TaskId, i: int|
                #![trigger start.nodes[p as int].children[i]]
                start.is_live(p) && relies_on_children(start.state(p)) && !more.contains(p) && 0
                    <= i < start.nodes[p as int].children.len() implies !idles(
                start.state(start.nodes[p as int].children[i]),
            ) by {
                assert(g.node_wf(p));
                assert(g.has(g.nodes[p as int].children[i]));
            }
            lemma_schedule_all_progress(start, children, more);
            lemma_schedule_all(start, children);
            assert(after.nodes[t as int].children == children);
            assert(after.state(t) is SomeChildrenScheduled);
            assert forall|p: TaskId, i: int|
                #![trigger after.nodes[p as int].children[i]]
                after.is_live(p) && relies_on_children(after.state(p)) && !parents.contains(p)
                    && 0 <= i < after.nodes[p as int].children.len() implies !idles(
                after.state(after.nodes[p as int].children[i]),
            ) by {
                if p == t {
                    assert(!idles(after.state(children[i])));
                }
            }
        },
        _ => {},
    }
}

proof fn lemma_schedule_all_progress(g: Graph, ids: Seq<TaskId>, parents: Set<TaskId>)
    requires
        g.wf(),
        forall|i: int| 0 <= i < ids.len() ==> g.is_live(#[trigger] ids[i]),
        progressing(g, parents, Set::empty()),
    ensures
        progressing(schedule_all(g, ids), parents, Set::empty()),
        forall|i: int|
            0 <= i < ids.len() ==> !idles(schedule_all(g, ids).state(#[trigger] ids[i])),
    decreases tally(g.nodes, TaskStateType::SomeChildrenDirty), ids.len(),
{
    if ids.len() > 0 {
        let first = schedule_step(g, ids[0]);
        let rest = ids.skip(1);
        assert(g.is_live(ids[0]));
        lemma_schedule(g, ids[0]);
        lemma_only_asked(g, first);
        lemma_schedule_progress(g, ids[0], parents);
        assert forall|i: int| 0 <= i < rest.len() implies first.is_live(#[trigger] rest[i])
            && first.has(rest[i]) by {
            assert(g.is_live(ids[i + 1]));
        }
        lemma_schedule_all_progress(first, rest, parents);
        lemma_schedule_all(first, rest);
        let last = schedule_all(first, rest);
        assert forall|i: int| 0 <= i < ids.len() implies !idles(
            last.state(#[trigger] ids[i]),
        ) by {
            if i == 0 {
                assert(last.nodes[ids[0] as int].state_type == last.state(ids[0]));
            } else {
                assert(ids[i] == rest[i - 1]);
            }
        }
    }
}

/// Asking a task to make progress keeps the graph consistent, up to the parents in
/// `parents`, and leaves no idle task behind.
pub(crate) proof fn lemma_schedule_kept(g: Graph, t: TaskId, parents: Set<TaskId>)
    requires
        g.wf(),
        g.is_live(t),
        crate::consistency::linked(g),
        balanced(g, |p: TaskId| 0int),
        progressing(g, parents, Set::empty()),
        roots_progress(g),
    ensures
        schedule_step(g, t).wf(),
        crate::consistency::linked(schedule_step(g, t)),
        balanced(schedule_step(g, t), |p: TaskId| 0int),
        progressing(schedule_step(g, t), parents, Set::empty()),
        roots_progress(schedule_step(g, t)),
        !idles(schedule_step(g, t).state(t)),
        only_asked(g, schedule_step(g, t)),
{
    let after = schedule_step(g, t);
    lemma_schedule(g, t);
    lemma_only_asked(g, after);
    lemma_linked_shape(g, after);
    lemma_asked_balanced(g, after, |p: TaskId| 0int);
    lemma_schedule_progress(g, t, parents);
    assert forall|x: TaskId|
        #![trigger after.nodes[x as int]]
        after.has(x) && after.is_root(x) implies !idles(after.state(x)) by {
        assert(g.nodes[x as int].ty == after.nodes[x as int].ty);
    }
}

/// Accessing a task keeps the graph consistent.
pub proof fn law_access_keeps_consistency(g: Graph, t: TaskId)
    requires
        consistent(g),
        g.is_live(t),
    ensures
        consistent(schedule_step(g, t)),
{
    lemma_schedule_kept(g, t, Set::empty());
}

/// After an access the task is done or on its way: it does not idle, and none of its
/// children does if it waits for them. A dirty task has been scheduled, and a task with
/// dirty children waits for them.
pub proof fn law_access_starts_progress(g: Graph, t: TaskId)
    requires
        consistent(g),
        g.is_live(t),
    ensures
        !idles(schedule_step(g, t).state(t)),
        g.state(t) is Dirty ==> schedule_step(g, t).state(t) is Scheduled,
        g.state(t) is Dirty ==> schedule_step(g, t).scheduled == g.scheduled.push(t),
        g.state(t) is SomeChildrenDirty ==> schedule_step(g, t).state(t) is SomeChildrenScheduled,
        schedule_step(g, t).state(t) is SomeChildrenScheduled ==> forall|i: int|
            0 <= i < g.nodes[t as int].children.len() ==> !idles(
                schedule_step(g, t).state(#[trigger] g.nodes[t as int].children[i]),
            ),
{
    let after = schedule_step(g, t);
    lemma_schedule_kept(g, t, Set::empty());
    assert(after.nodes[t as int].children == g.nodes[t as int].children);
    assert(after.is_live(t));
    if after.state(t) is SomeChildrenScheduled {
        assert forall|i: int| 0 <= i < g.nodes[t as int].children.len() implies !idles(
            after.state(#[trigger] g.nodes[t as int].children[i]),
        ) by {
            let c = after.nodes[t as int].children[i];
        }
    }
}

/// A second access changes nothing.
pub proof fn law_access_is_idempotent(g: Graph, t: TaskId)
    requires
        g.wf(),
        g.is_live(t),
    ensures
        schedule_step(schedule_step(g, t), t) == schedule_step(g, t),
{
    lemma_schedule(g, t);
    assert(asked_state(g.state(t), schedule_step(g, t).nodes[t as int].state_type));
    if g.state(t) is SomeChildrenDirty {
        let start = g.with_state(t, TaskStateType::SomeChildrenScheduled);
        let children = g.nodes[t as int].children;
        lemma_same_shape(g, start);
        assert(g.node_wf(t));
        assert forall|i: int| 0 <= i < children.len() implies start.has(#[trigger] children[i]) by {
            assert(g.has(children[i]));
        }
        lemma_schedule_all(start, children);
        assert(schedule_step(g, t).nodes[t as int].state_type is SomeChildrenScheduled);
    }
}

} // verus!
