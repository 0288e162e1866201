//! How far news spreads through the graph, and what decides where it leads.

use crate::consistency::{
    balanced_at, consistent, lemma_checks_pass, lemma_linked_shape, lemma_live_occurrences,
    lemma_occurrences_first, lemma_unfinished_none, lemma_unfinished_update, linked, signed, weight,
};
use crate::dirty::{
    child_dirty_step, invalidated, lemma_child_dirty, lemma_only_dirtied, lemma_tell_dirty,
    lemma_waiting, make_dirty_step, tell_dirty, waiting,
};
use crate::done::{
    child_done_step, lemma_child_done, lemma_completed, lemma_only_finished, lemma_tell_done,
    tell_done, waiting_tasks,
};
use crate::graph::{
    lemma_live_among, lemma_live_parents, lemma_same_shape, lemma_same_slots, same_shape, tally,
    unfinished, Graph,
};
use crate::laws::dirty::law_make_dirty_keeps_consistency;
use crate::laws::lifecycle::law_execution_completion_keeps_consistency;
use crate::laws::outcomes::law_hearing_of_a_dirty_child;
use crate::laws::shapes::law_unfinished_are_counted;
use crate::lifecycle::{execution_completed_step, linked_slot};
use crate::schedule::{
    lemma_asked, lemma_only_asked, lemma_schedule, lemma_schedule_all, schedule_all, schedule_step,
};
use crate::slot::{occurrences, SlotRef, TaskId};
use crate::task::{Node, TaskStateType};
use vstd::prelude::*;

verus! {

/// `tasks` holds the live parents of each of its members.
pub open spec fn closed_upwards(g: Graph, tasks: Set<TaskId>) -> bool {
    forall|x: TaskId, k: int|
        #![trigger g.nodes[x as int].parents[k]]
        tasks.contains(x) && g.has(x) && 0 <= k < g.nodes[x as int].parents.len() && g.is_live(
            g.nodes[x as int].parents[k],
        ) ==> tasks.contains(g.nodes[x as int].parents[k])
}

/// `tasks` holds the children of each of its members that has dirty children.
pub open spec fn closed_downwards(g: Graph, tasks: Set<TaskId>) -> bool {
    forall|x: TaskId, k: int|
        #![trigger g.nodes[x as int].children[k]]
        tasks.contains(x) && g.has(x) && g.nodes[x as int].state_type is SomeChildrenDirty && 0
            <= k < g.nodes[x as int].children.len() ==> tasks.contains(
            g.nodes[x as int].children[k],
        )
}

/// Outside of `tasks` nothing differs.
pub open spec fn same_outside(a: Graph, b: Graph, tasks: Set<TaskId>) -> bool {
    forall|x: TaskId|
        #![trigger b.nodes[x as int]]
        a.has(x) && !tasks.contains(x) ==> b.nodes[x as int] == a.nodes[x as int]
}

proof fn lemma_closed_kept(a: Graph, b: Graph, tasks: Set<TaskId>)
    requires
        a.wf(),
        same_shape(a, b),
        closed_upwards(a, tasks),
    ensures
        closed_upwards(b, tasks),
{
    assert forall|x: TaskId, k: int|
        #![trigger b.nodes[x as int].parents[k]]
        tasks.contains(x) && b.has(x) && 0 <= k < b.nodes[x as int].parents.len() && b.is_live(
            b.nodes[x as int].parents[k],
        ) implies tasks.contains(b.nodes[x as int].parents[k]) by {
        assert(b.nodes[x as int].parents == a.nodes[x as int].parents);
        let p = a.nodes[x as int].parents[k];
        assert(a.node_wf(x));
        assert(a.has(a.nodes[x as int].parents[k]));
        assert(b.nodes[p as int].alive == a.nodes[p as int].alive);
    }
}

proof fn lemma_live_parents_within(g: Graph, t: TaskId, tasks: Set<TaskId>)
    requires
        g.wf(),
        g.has(t),
        tasks.contains(t),
        closed_upwards(g, tasks),
    ensures
        forall|i: int|
            0 <= i < g.live_parents(t).len() ==> tasks.contains(#[trigger] g.live_parents(t)[i]),
{
    lemma_live_parents(g, t);
    lemma_live_among(g.nodes, g.nodes[t as int].parents);
    assert forall|i: int| 0 <= i < g.live_parents(t).len() implies tasks.contains(
        #[trigger] g.live_parents(t)[i],
    ) by {
        let parents = g.nodes[t as int].parents;
        let p = g.live_parents(t)[i];
        assert(g.is_live(g.live_parents(t)[i]));
        let k = choose|k: int| 0 <= k < parents.len() && parents[k] == p;
        assert(tasks.contains(g.nodes[t as int].parents[k]));
    }
}

proof fn lemma_child_dirty_within(g: Graph, t: TaskId, tasks: Set<TaskId>)
    requires
        g.wf(),
        g.has(t),
        tasks.contains(t),
        closed_upwards(g, tasks),
    ensures
        same_outside(g, child_dirty_step(g, t).graph, tasks),
    decreases tally(g.nodes, TaskStateType::Done), 0nat,
{
    if g.state(t) is Done {
        let start = waiting(g, t);
        lemma_waiting(g, t);
        lemma_same_shape(g, start);
        lemma_closed_kept(g, start, tasks);
        lemma_live_parents(start, t);
        lemma_live_parents_within(start, t, tasks);
        lemma_tell_dirty_within(start, start.live_parents(t), tasks);
        lemma_tell_dirty(start, start.live_parents(t));
    }
}

proof fn lemma_tell_dirty_within(g: Graph, ids: Seq<TaskId>, tasks: Set<TaskId>)
    requires
        g.wf(),
        forall|i: int|
            0 <= i < ids.len() ==> g.has(#[trigger] ids[i]) && tasks.contains(ids[i]),
        closed_upwards(g, tasks),
    ensures
        same_outside(g, tell_dirty(g, ids).graph, tasks),
    decreases tally(g.nodes, TaskStateType::Done), ids.len(),
{
    if ids.len() > 0 {
        let first = child_dirty_step(g, ids[0]);
        let rest = ids.skip(1);
        assert(g.has(ids[0]));
        lemma_child_dirty(g, ids[0]);
        lemma_only_dirtied(g, first.graph);
        lemma_child_dirty_within(g, ids[0], tasks);
        if first.result is Ok {
            lemma_closed_kept(g, first.graph, tasks);
            assert forall|i: int| 0 <= i < rest.len() implies first.graph.has(#[trigger] rest[i])
                && tasks.contains(rest[i]) by {
                assert(g.has(ids[i + 1]));
            }
            lemma_tell_dirty_within(first.graph, rest, tasks);
            let last = tell_dirty(first.graph, rest).graph;
            assert forall|x: TaskId|
                #![trigger last.nodes[x as int]]
                g.has(x) && !tasks.contains(x) implies last.nodes[x as int]
                == g.nodes[x as int] by {
                assert(first.graph.nodes[x as int] == g.nodes[x as int]);
            }
        }
    }
}

/// Invalidation changes nothing outside the task and its live ancestors.
pub proof fn law_invalidation_stays_among_ancestors(g: Graph, t: TaskId, tasks: Set<TaskId>)
    requires
        g.wf(),
        g.is_live(t),
        tasks.contains(t),
        closed_upwards(g, tasks),
    ensures
        same_outside(g, make_dirty_step(g, t).graph, tasks),
{
    if g.state(t) is Done {
        let start = invalidated(g, t);
        lemma_same_shape(g, start);
        lemma_closed_kept(g, start, tasks);
        lemma_live_parents(start, t);
        lemma_live_parents_within(start, t, tasks);
        lemma_tell_dirty_within(start, start.live_parents(t), tasks);
        lemma_tell_dirty(start, start.live_parents(t));
    }
}

proof fn lemma_child_done_within(g: Graph, t: TaskId, tasks: Set<TaskId>)
    requires
        g.wf(),
        g.has(t),
        tasks.contains(t),
        closed_upwards(g, tasks),
    ensures
        same_outside(g, child_done_step(g, t).graph, tasks),
    decreases waiting_tasks(g), 0nat,
{
    let node = g.nodes[t as int];
    if node.dirty == 1 && (node.state_type is SomeChildrenDirty
        || node.state_type is SomeChildrenScheduled) {
        let counted = g.with_dirty(t, 0);
        let start = counted.with_done(t);
        let ids = counted.live_parents(t);
        lemma_completed(g, t);
        lemma_same_shape(g, counted);
        lemma_same_shape(g, start);
        lemma_closed_kept(g, counted, tasks);
        lemma_closed_kept(g, start, tasks);
        lemma_live_parents(counted, t);
        lemma_live_parents_within(counted, t, tasks);
        assert forall|i: int| 0 <= i < ids.len() implies start.has(#[trigger] ids[i])
            && tasks.contains(ids[i]) by {
            assert(counted.is_live(ids[i]));
        }
        lemma_tell_done_within(start, ids, tasks);
        lemma_tell_done(start, ids);
    }
}

proof fn lemma_tell_done_within(g: Graph, ids: Seq<TaskId>, tasks: Set<TaskId>)
    requires
        g.wf(),
        forall|i: int|
            0 <= i < ids.len() ==> g.has(#[trigger] ids[i]) && tasks.contains(ids[i]),
        closed_upwards(g, tasks),
    ensures
        same_outside(g, tell_done(g, ids).graph, tasks),
    decreases waiting_tasks(g), ids.len(),
{
    if ids.len() > 0 {
        let first = child_done_step(g, ids[0]);
        let rest = ids.skip(1);
        assert(g.has(ids[0]));
        lemma_child_done(g, ids[0]);
        lemma_only_finished(g, first.graph);
        lemma_child_done_within(g, ids[0], tasks);
        if first.result is Ok {
            lemma_closed_kept(g, first.graph, tasks);
            assert forall|i: int| 0 <= i < rest.len() implies first.graph.has(#[trigger] rest[i])
                && tasks.contains(rest[i]) by {
                assert(g.has(ids[i + 1]));
            }
            lemma_tell_done_within(first.graph, rest, tasks);
            let last = tell_done(first.graph, rest).graph;
            assert forall|x: TaskId|
                #![trigger last.nodes[x as int]]
                g.has(x) && !tasks.contains(x) implies last.nodes[x as int]
                == g.nodes[x as int] by {
                assert(first.graph.nodes[x as int] == g.nodes[x as int]);
            }
        }
    }
}

/// The end of an execution changes nothing outside the task and its live ancestors.
pub proof fn law_completion_stays_among_ancestors(
    g: Graph,
    t: TaskId,
    result: SlotRef,
    tasks: Set<TaskId>,
)
    requires
        g.wf(),
        g.is_live(t),
        tasks.contains(t),
        closed_upwards(g, tasks),
    ensures
        same_outside(g, execution_completed_step(g, t, result).graph, tasks),
{
    let node = g.nodes[t as int];
    let after = execution_completed_step(g, t, result).graph;
    if crate::fault::audit(g, t) is Ok && node.state_type is InProgressLocally && node.dirty == 0 {
        let start = g.with_done(t).with_output(t, linked_slot(node.output, result));
        let ids = g.live_parents(t);
        lemma_same_slots(g, start);
        lemma_live_parents(g, t);
        lemma_live_parents_within(g, t, tasks);
        assert forall|x: TaskId, k: int|
            #![trigger start.nodes[x as int].parents[k]]
            tasks.contains(x) && start.has(x) && 0 <= k < start.nodes[x as int].parents.len()
                && start.is_live(start.nodes[x as int].parents[k]) implies tasks.contains(
            start.nodes[x as int].parents[k],
        ) by {
            let p = g.nodes[x as int].parents[k];
            assert(g.node_wf(x));
            assert(g.has(g.nodes[x as int].parents[k]));
        }
        assert forall|i: int| 0 <= i < ids.len() implies start.has(#[trigger] ids[i])
            && tasks.contains(ids[i]) by {
            assert(g.is_live(ids[i]));
        }
        lemma_tell_done_within(start, ids, tasks);
        assert forall|x: TaskId|
            #![trigger after.nodes[x as int]]
            g.has(x) && !tasks.contains(x) implies after.nodes[x as int] == g.nodes[x as int] by {
            assert(start.nodes[x as int] == g.nodes[x as int]);
        }
    }
}

/// An access changes nothing outside the task and what is below it through tasks with
/// dirty children.
pub proof fn law_access_stays_among_dirty_descendants(g: Graph, t: TaskId, tasks: Set<TaskId>)
    requires
        g.wf(),
        g.has(t),
        tasks.contains(t),
        closed_downwards(g, tasks),
    ensures
        same_outside(g, schedule_step(g, t), tasks),
    decreases tally(g.nodes, TaskStateType::SomeChildrenDirty), 0nat,
{
    if g.state(t) is SomeChildrenDirty {
        let start = g.with_state(t, TaskStateType::SomeChildrenScheduled);
        let children = g.nodes[t as int].children;
        lemma_asked(g, t);
        lemma_same_shape(g, start);
        assert(g.node_wf(t));
        assert forall|i: int| 0 <= i < children.len() implies start.has(#[trigger] children[i])
            && tasks.contains(children[i]) by {
            assert(g.has(children[i]));
            assert(tasks.contains(g.nodes[t as int].children[i]));
        }
        assert(closed_downwards(start, tasks)) by {
            assert forall|x: TaskId, k: int|
                #![trigger start.nodes[x as int].children[k]]
                tasks.contains(x) && start.has(x)
                    && start.nodes[x as int].state_type is SomeChildrenDirty && 0 <= k
                    < start.nodes[x as int].children.len() implies tasks.contains(
                start.nodes[x as int].children[k],
            ) by {
                assert(tasks.contains(g.nodes[x as int].children[k]));
            }
        }
        lemma_schedule_all_within(start, children, tasks);
        lemma_schedule_all(start, children);
    }
}

proof fn lemma_schedule_all_within(g: Graph, ids: Seq<TaskId>, tasks: Set<TaskId>)
    requires
        g.wf(),
        forall|i: int|
            0 <= i < ids.len() ==> g.has(#[trigger] ids[i]) && tasks.contains(ids[i]),
        closed_downwards(g, tasks),
    ensures
        same_outside(g, schedule_all(g, ids), tasks),
    decreases tally(g.nodes, TaskStateType::SomeChildrenDirty), ids.len(),
{
    if ids.len() > 0 {
        let first = schedule_step(g, ids[0]);
        let rest = ids.skip(1);
        assert(g.has(ids[0]));
        lemma_schedule(g, ids[0]);
        lemma_only_asked(g, first);
        law_access_stays_among_dirty_descendants(g, ids[0], tasks);
        assert forall|i: int| 0 <= i < rest.len() implies first.has(#[trigger] rest[i])
            && tasks.contains(rest[i]) by {
            assert(g.has(ids[i + 1]));
        }
        assert forall|x: TaskId, k: int|
            #![trigger first.nodes[x as int].children[k]]
            tasks.contains(x) && first.has(x)
                && first.nodes[x as int].state_type is SomeChildrenDirty && 0 <= k
                < first.nodes[x as int].children.len() implies tasks.contains(
            first.nodes[x as int].children[k],
        ) by {
            assert(first.nodes[x as int].children == g.nodes[x as int].children);
            assert(tasks.contains(g.nodes[x as int].children[k]));
        }
        lemma_schedule_all_within(first, rest, tasks);
        let last = schedule_all(first, rest);
        assert forall|x: TaskId|
            #![trigger last.nodes[x as int]]
            g.has(x) && !tasks.contains(x) implies last.nodes[x as int] == g.nodes[x as int] by {
            assert(first.nodes[x as int] == g.nodes[x as int]);
        }
    }
}

/// An access to a task whose children are all dirty queues them in their order.
pub proof fn law_dirty_children_are_queued_in_order(g: Graph, t: TaskId)
    requires
        g.wf(),
        g.is_live(t),
        g.state(t) is SomeChildrenDirty,
        g.nodes[t as int].children.no_duplicates(),
        forall|i: int|
            0 <= i < g.nodes[t as int].children.len() ==> g.state(
                #[trigger] g.nodes[t as int].children[i],
            ) is Dirty,
    ensures
        schedule_step(g, t).scheduled == g.scheduled + g.nodes[t as int].children,
{
    let start = g.with_state(t, TaskStateType::SomeChildrenScheduled);
    let children = g.nodes[t as int].children;
    lemma_same_shape(g, start);
    assert(g.node_wf(t));
    assert forall|i: int| 0 <= i < children.len() implies start.has(#[trigger] children[i])
        && start.state(children[i]) is Dirty by {
        assert(g.has(children[i]));
        assert(g.state(g.nodes[t as int].children[i]) is Dirty);
    }
    lemma_all_dirty(start, children);
}

proof fn lemma_all_dirty(g: Graph, ids: Seq<TaskId>)
    requires
        g.wf(),
        ids.no_duplicates(),
        forall|i: int|
            0 <= i < ids.len() ==> g.has(#[trigger] ids[i]) && g.state(ids[i]) is Dirty,
    ensures
        schedule_all(g, ids).scheduled == g.scheduled + ids,
    decreases ids.len(),
{
    if ids.len() == 0 {
        assert(g.scheduled + ids =~= g.scheduled);
    } else {
        let first = schedule_step(g, ids[0]);
        let rest = ids.skip(1);
        assert(g.has(ids[0]));
        lemma_schedule(g, ids[0]);
        lemma_only_asked(g, first);
        assert forall|i: int| 0 <= i < rest.len() implies first.has(#[trigger] rest[i])
            && first.state(rest[i]) is Dirty by {
            assert(rest[i] == ids[i + 1]);
            assert(g.has(ids[i + 1]));
            assert(ids[i + 1] != ids[0]);
        }
        lemma_all_dirty(first, rest);
        assert(g.scheduled.push(ids[0]) + rest =~= g.scheduled + ids);
    }
}

/// An access to a task with dirty children is an access to each of its children in turn,
/// the first one with all that is below it before the second.
pub proof fn law_access_asks_children_in_turn(g: Graph, t: TaskId)
    requires
        g.wf(),
        g.is_live(t),
        g.state(t) is SomeChildrenDirty,
    ensures
        schedule_step(g, t) == g.nodes[t as int].children.fold_left(
            g.with_state(t, TaskStateType::SomeChildrenScheduled),
            |asked: Graph, child: TaskId| schedule_step(asked, child),
        ),
{
    let start = g.with_state(t, TaskStateType::SomeChildrenScheduled);
    let children = g.nodes[t as int].children;
    let ask = |asked: Graph, child: TaskId| schedule_step(asked, child);
    lemma_same_shape(g, start);
    assert(g.node_wf(t));
    assert forall|i: int| 0 <= i < children.len() implies start.has(#[trigger] children[i]) by {
        assert(g.has(children[i]));
    }
    lemma_asked_in_turn(start, children, ask);
    children.lemma_fold_left_alt(start, ask);
}

proof fn lemma_asked_in_turn(
    g: Graph,
    ids: Seq<TaskId>,
    ask: spec_fn(Graph, TaskId) -> Graph,
)
    requires
        g.wf(),
        forall|i: int| 0 <= i < ids.len() ==> g.has(#[trigger] ids[i]),
        forall|h: Graph, x: TaskId| #[trigger] ask(h, x) == schedule_step(h, x),
    ensures
        schedule_all(g, ids) == ids.fold_left_alt(g, ask),
    decreases ids.len(),
{
    if ids.len() > 0 {
        let first = schedule_step(g, ids[0]);
        let rest = ids.skip(1);
        assert(g.has(ids[0]));
        lemma_schedule(g, ids[0]);
        lemma_only_asked(g, first);
        assert forall|i: int| 0 <= i < rest.len() implies first.has(#[trigger] rest[i]) by {
            assert(g.has(ids[i + 1]));
        }
        lemma_asked_in_turn(first, rest, ask);
        assert(ids.subrange(1, ids.len() as int) =~= rest);
        assert(ask(g, ids[0]) == first);
    }
}

/// Some live parent of `x` waits for its children with the goal to get everything up to
/// date.
pub open spec fn has_waiting_parent(g: Graph, x: TaskId) -> bool {
    exists|i: int|
        0 <= i < g.live_parents(x).len() && g.state(
            #[trigger] g.live_parents(x)[i],
        ) is SomeChildrenScheduled
}

/// Every task among `tasks` that waits for its children has a reason: it is a root, or a
/// live parent waits for it. Those in `undecided` are left out of account.
spec fn supported(g: Graph, tasks: Set<TaskId>, undecided: Set<TaskId>) -> bool {
    forall|x: TaskId| #[trigger]
        tasks.contains(x) && g.has(x) && !undecided.contains(x) && g.state(
            x,
        ) is SomeChildrenScheduled ==> g.is_root(x) || has_waiting_parent(g, x)
}

/// Every task among `tasks` that only has dirty children has no reason to wait for them.
spec fn unsupported(g: Graph, tasks: Set<TaskId>) -> bool {
    forall|x: TaskId| #[trigger]
        tasks.contains(x) && g.has(x) && g.state(x) is SomeChildrenDirty ==> !g.is_root(x) && (
        forall|i: int|
            0 <= i < g.live_parents(x).len() ==> settled_state(
                g.state(#[trigger] g.live_parents(x)[i]),
            ))
}

/// States that news of dirty children does not move, and that do not ask for progress.
spec fn settled_state(state: TaskStateType) -> bool {
    ||| state is Dirty
    ||| state is Scheduled
    ||| state is InProgressLocallyOutdated
    ||| state is SomeChildrenDirty
}

proof fn lemma_answers(g: Graph, ids: Seq<TaskId>)
    requires
        g.wf(),
        forall|i: int| 0 <= i < ids.len() ==> g.is_live(#[trigger] ids[i]),
        tell_dirty(g, ids).result is Ok,
    ensures
        tell_dirty(g, ids).result->Ok_0 ==> exists|i: int|
            0 <= i < ids.len() && tell_dirty(g, ids).graph.state(
                #[trigger] ids[i],
            ) is SomeChildrenScheduled,
        !tell_dirty(g, ids).result->Ok_0 ==> forall|i: int|
            0 <= i < ids.len() ==> settled_state(tell_dirty(g, ids).graph.state(#[trigger] ids[i])),
    decreases ids.len(),
{
    if ids.len() > 0 {
        let first = child_dirty_step(g, ids[0]);
        let rest = ids.skip(1);
        assert(g.is_live(ids[0]));
        lemma_child_dirty(g, ids[0]);
        lemma_only_dirtied(g, first.graph);
        law_hearing_of_a_dirty_child(g, ids[0]);
        assert forall|i: int| 0 <= i < rest.len() implies first.graph.is_live(#[trigger] rest[i])
            && first.graph.has(rest[i]) by {
            assert(g.is_live(ids[i + 1]));
        }
        lemma_answers(first.graph, rest);
        lemma_tell_dirty(first.graph, rest);
        let last = tell_dirty(first.graph, rest);
        assert(last.graph == tell_dirty(g, ids).graph);
        assert(last.graph.nodes[ids[0] as int].state_type == last.graph.state(ids[0]));
        if first.result->Ok_0 {
            assert(last.graph.state(ids[0]) is SomeChildrenScheduled);
        } else if last.result->Ok_0 {
            let k = choose|k: int|
                0 <= k < rest.len() && last.graph.state(
                    #[trigger] rest[k],
                ) is SomeChildrenScheduled;
            assert(ids[k + 1] == rest[k]);
        } else {
            assert forall|i: int| 0 <= i < ids.len() implies settled_state(
                last.graph.state(#[trigger] ids[i]),
            ) by {
                if i > 0 {
                    assert(ids[i] == rest[i - 1]);
                }
            }
        }
    }
}

/// What held of the reasons to wait keeps holding while more tasks hear of dirty children.
proof fn lemma_reasons_kept(a: Graph, b: Graph, x: TaskId)
    requires
        a.wf(),
        a.has(x),
        crate::dirty::only_dirtied(a, b),
    ensures
        b.has(x),
        a.live_parents(x) == b.live_parents(x),
        has_waiting_parent(a, x) ==> has_waiting_parent(b, x),
        (forall|i: int|
            0 <= i < a.live_parents(x).len() ==> settled_state(
                a.state(#[trigger] a.live_parents(x)[i]),
            )) ==> (forall|i: int|
            0 <= i < b.live_parents(x).len() ==> settled_state(
                b.state(#[trigger] b.live_parents(x)[i]),
            )),
        a.is_root(x) == b.is_root(x),
{
    lemma_only_dirtied(a, b);
    lemma_live_parents(a, x);
    let ids = a.live_parents(x);
    assert(a.live_parents(x) == b.live_parents(x));
    assert(a.nodes[x as int].ty == b.nodes[x as int].ty);
    assert forall|i: int|
        0 <= i < ids.len() && (settled_state(a.state(#[trigger] ids[i])) || a.state(
            ids[i],
        ) is SomeChildrenScheduled) implies b.state(ids[i]) == a.state(ids[i]) by {
        assert(a.is_live(a.live_parents(x)[i]));
        assert(b.nodes[ids[i] as int].state_type == b.state(ids[i]));
    }
    if has_waiting_parent(a, x) {
        let k = choose|k: int|
            0 <= k < a.live_parents(x).len() && a.state(
                #[trigger] a.live_parents(x)[k],
            ) is SomeChildrenScheduled;
        assert(b.state(b.live_parents(x)[k]) is SomeChildrenScheduled);
    }
    if forall|i: int|
        0 <= i < a.live_parents(x).len() ==> settled_state(
            a.state(#[trigger] a.live_parents(x)[i]),
        ) {
        assert forall|i: int| 0 <= i < b.live_parents(x).len() implies settled_state(
            b.state(#[trigger] b.live_parents(x)[i]),
        ) by {
            assert(settled_state(a.state(a.live_parents(x)[i])));
            assert(b.state(ids[i]) == a.state(ids[i]));
        }
    }
}

proof fn lemma_child_dirty_reasons(
    g: Graph,
    t: TaskId,
    tasks: Set<TaskId>,
    undecided: Set<TaskId>,
)
    requires
        g.wf(),
        g.is_live(t),
        child_dirty_step(g, t).result is Ok,
        supported(g, tasks, undecided),
        unsupported(g, tasks),
    ensures
        supported(child_dirty_step(g, t).graph, tasks, undecided),
        unsupported(child_dirty_step(g, t).graph, tasks),
        !child_dirty_step(g, t).result->Ok_0 ==> forall|x: TaskId|
            #![trigger child_dirty_step(g, t).graph.nodes[x as int]]
            g.has(x) && g.state(x) is Done && !(child_dirty_step(g, t).graph.state(x) is Done)
                ==> child_dirty_step(g, t).graph.state(x) is SomeChildrenDirty,
    decreases tally(g.nodes, TaskStateType::Done), 0nat,
{
    let after = child_dirty_step(g, t).graph;
    lemma_child_dirty(g, t);
    lemma_only_dirtied(g, after);
    if g.state(t) is Done {
        let start = waiting(g, t);
        let ids = start.live_parents(t);
        let more = undecided.insert(t);
        lemma_waiting(g, t);
        lemma_same_shape(g, start);
        lemma_live_parents(start, t);
        assert(crate::dirty::only_dirtied(g, start));
        assert(supported(start, tasks, more)) by {
            assert forall|x: TaskId| #[trigger]
                tasks.contains(x) && start.has(x) && !more.contains(x) && start.state(
                    x,
                ) is SomeChildrenScheduled implies start.is_root(x) || has_waiting_parent(
                start,
                x,
            ) by {
                lemma_reasons_kept(g, start, x);
            }
        }
        assert(unsupported(start, tasks)) by {
            assert forall|x: TaskId| #[trigger]
                tasks.contains(x) && start.has(x) && start.state(
                    x,
                ) is SomeChildrenDirty implies !start.is_root(x) && (forall|i: int|
                0 <= i < start.live_parents(x).len() ==> settled_state(
                    start.state(#[trigger] start.live_parents(x)[i]),
                )) by {
                lemma_reasons_kept(g, start, x);
            }
        }
        lemma_tell_dirty_reasons(start, ids, tasks, more);
        lemma_answers(start, ids);
        let told = tell_dirty(start, ids).graph;
        let wanted = tell_dirty(start, ids).result->Ok_0;
        lemma_tell_dirty(start, ids);
        lemma_only_dirtied(start, told);
        assert(told.live_parents(t) == ids);
        assert(told.nodes[t as int].state_type is SomeChildrenScheduled);
        lemma_same_shape(told, after);
        assert(after.live_parents(t) == ids);
        assert forall|x: TaskId| #[trigger]
            tasks.contains(x) && after.has(x) && !undecided.contains(x) && after.state(
                x,
            ) is SomeChildrenScheduled implies after.is_root(x) || has_waiting_parent(
            after,
            x,
        ) by {
            if x == t {
                if wanted {
                    let k = choose|k: int|
                        0 <= k < ids.len() && told.state(
                            #[trigger] ids[k],
                        ) is SomeChildrenScheduled;
                    assert(after.state(after.live_parents(t)[k]) is SomeChildrenScheduled);
                }
            } else {
                assert(told.nodes[x as int] == after.nodes[x as int]);
                assert(told.is_root(x) || has_waiting_parent(told, x));
                assert(told.live_parents(x) == after.live_parents(x));
                if !told.is_root(x) {
                    if g.state(x) is SomeChildrenScheduled {
                        lemma_reasons_kept(g, after, x);
                        assert(g.nodes[x as int].ty == after.nodes[x as int].ty);
                    } else {
                        assert(g.nodes[x as int].state_type is Done);
                        assert(start.nodes[x as int].state_type is Done);
                        assert(wanted);
                        assert(after == told);
                    }
                }
            }
        }
        assert forall|x: TaskId| #[trigger]
            tasks.contains(x) && after.has(x) && after.state(
                x,
            ) is SomeChildrenDirty implies !after.is_root(x) && (forall|i: int|
            0 <= i < after.live_parents(x).len() ==> settled_state(
                after.state(#[trigger] after.live_parents(x)[i]),
            )) by {
            if x == t {
                assert(!told.is_root(t));
                assert(!wanted);
                assert forall|i: int| 0 <= i < after.live_parents(t).len() implies settled_state(
                    after.state(#[trigger] after.live_parents(t)[i]),
                ) by {
                    assert(settled_state(told.state(ids[i])));
                }
            } else {
                assert(told.nodes[x as int] == after.nodes[x as int]);
                lemma_live_parents(told, x);
                assert(told.live_parents(x) == after.live_parents(x));
                assert forall|i: int| 0 <= i < after.live_parents(x).len() implies settled_state(
                    after.state(#[trigger] after.live_parents(x)[i]),
                ) by {
                    assert(told.is_live(told.live_parents(x)[i]));
                    assert(settled_state(told.state(told.live_parents(x)[i])));
                }
            }
        }
        if !child_dirty_step(g, t).result->Ok_0 {
            assert forall|x: TaskId|
                #![trigger after.nodes[x as int]]
                g.has(x) && g.state(x) is Done && !(after.state(x) is Done) implies after.state(
                x,
            ) is SomeChildrenDirty by {
                if x != t {
                    assert(start.nodes[x as int] == g.nodes[x as int]);
                    assert(told.nodes[x as int] == after.nodes[x as int]);
                }
            }
        }
    } else {
        assert forall|x: TaskId| #[trigger]
            tasks.contains(x) && after.has(x) && !undecided.contains(x) && after.state(
                x,
            ) is SomeChildrenScheduled implies after.is_root(x) || has_waiting_parent(
            after,
            x,
        ) by {
            lemma_reasons_kept(g, after, x);
        }
        assert forall|x: TaskId| #[trigger]
            tasks.contains(x) && after.has(x) && after.state(
                x,
            ) is SomeChildrenDirty implies !after.is_root(x) && (forall|i: int|
            0 <= i < after.live_parents(x).len() ==> settled_state(
                after.state(#[trigger] after.live_parents(x)[i]),
            )) by {
            lemma_reasons_kept(g, after, x);
        }
    }
}

proof fn lemma_tell_dirty_reasons(
    g: Graph,
    ids: Seq<TaskId>,
    tasks: Set<TaskId>,
    undecided: Set<TaskId>,
)
    requires
        g.wf(),
        forall|i: int| 0 <= i < ids.len() ==> g.is_live(#[trigger] ids[i]),
        tell_dirty(g, ids).result is Ok,
        supported(g, tasks, undecided),
        unsupported(g, tasks),
    ensures
        supported(tell_dirty(g, ids).graph, tasks, undecided),
        unsupported(tell_dirty(g, ids).graph, tasks),
        !tell_dirty(g, ids).result->Ok_0 ==> forall|x: TaskId|
            #![trigger tell_dirty(g, ids).graph.nodes[x as int]]
            g.has(x) && g.state(x) is Done && !(tell_dirty(g, ids).graph.state(x) is Done)
                ==> tell_dirty(g, ids).graph.state(x) is SomeChildrenDirty,
    decreases tally(g.nodes, TaskStateType::Done), ids.len(),
{
    if ids.len() > 0 {
        let first = child_dirty_step(g, ids[0]);
        let rest = ids.skip(1);
        assert(g.is_live(ids[0]));
        lemma_child_dirty(g, ids[0]);
        lemma_only_dirtied(g, first.graph);
        lemma_child_dirty_reasons(g, ids[0], tasks, undecided);
        assert forall|i: int| 0 <= i < rest.len() implies first.graph.is_live(#[trigger] rest[i])
            && first.graph.has(rest[i]) by {
            assert(g.is_live(ids[i + 1]));
        }
        lemma_tell_dirty_reasons(first.graph, rest, tasks, undecided);
        lemma_tell_dirty(first.graph, rest);
        let last = tell_dirty(first.graph, rest).graph;
        if !tell_dirty(g, ids).result->Ok_0 {
            assert forall|x: TaskId|
                #![trigger last.nodes[x as int]]
                g.has(x) && g.state(x) is Done && !(last.state(x) is Done) implies last.state(
                x,
            ) is SomeChildrenDirty by {
                assert(first.graph.nodes[x as int].state_type == first.graph.state(x));
            }
        }
    }
}

/// Who makes progress after a done task was invalidated is decided from above. The task
/// itself is scheduled exactly if it is a root or a live parent waits for it, and no live
/// parent is done or executes up to date any more. A task that was done and hears of it
/// waits for its children exactly if it is a root or a live parent waits for it; else it
/// only has dirty children.
pub proof fn law_progress_is_decided_from_above(g: Graph, t: TaskId, x: TaskId)
    requires
        g.wf(),
        g.is_live(t),
        g.state(t) is Done,
        make_dirty_step(g, t).result is Ok,
        g.has(x),
        x != t,
        g.state(x) is Done,
    ensures
        ({
            let after = make_dirty_step(g, t).graph;
            &&& after.state(t) is Scheduled <==> g.is_root(t) || has_waiting_parent(after, t)
            &&& after.state(x) is Done || after.state(x) is SomeChildrenScheduled || after.state(
                x,
            ) is SomeChildrenDirty
            &&& after.state(x) is SomeChildrenScheduled ==> g.is_root(x) || has_waiting_parent(
                after,
                x,
            )
            &&& after.state(x) is SomeChildrenDirty ==> !g.is_root(x) && !has_waiting_parent(
                after,
                x,
            )
        }),
{
    law_scheduled_from_above(g, t);
    let start = invalidated(g, t);
    let ids = start.live_parents(t);
    let tasks = Set::new(|p: TaskId| g.has(p) && p != t && g.state(p) is Done);
    lemma_same_shape(g, start);
    lemma_live_parents(start, t);
    lemma_tell_dirty_reasons(start, ids, tasks, Set::empty());
    lemma_tell_dirty(start, ids);
    let told = tell_dirty(start, ids).graph;
    let after = make_dirty_step(g, t).graph;
    lemma_only_dirtied(start, told);
    lemma_same_shape(told, after);
    assert(tasks.contains(x));
    assert(start.nodes[x as int] == g.nodes[x as int]);
    assert(told.nodes[x as int] == after.nodes[x as int]);
    assert(told.nodes[x as int].ty == g.nodes[x as int].ty);
    lemma_live_parents(told, x);
    assert(told.live_parents(x) == after.live_parents(x));
    assert(told.nodes[t as int].state_type == start.nodes[t as int].state_type);
    if has_waiting_parent(told, x) {
        let k = choose|k: int|
            0 <= k < told.live_parents(x).len() && told.state(
                #[trigger] told.live_parents(x)[k],
            ) is SomeChildrenScheduled;
        assert(told.is_live(told.live_parents(x)[k]));
        assert(after.state(after.live_parents(x)[k]) is SomeChildrenScheduled);
    }
    if after.state(x) is SomeChildrenDirty && has_waiting_parent(after, x) {
        let k = choose|k: int|
            0 <= k < after.live_parents(x).len() && after.state(
                #[trigger] after.live_parents(x)[k],
            ) is SomeChildrenScheduled;
        assert(told.is_live(told.live_parents(x)[k]));
        assert(settled_state(told.state(told.live_parents(x)[k])));
    }
}

/// A done task that was invalidated is scheduled exactly if it is a root or a live parent
/// waits for it. No live parent is done or executes up to date any more.
pub proof fn law_scheduled_from_above(g: Graph, t: TaskId)
    requires
        g.wf(),
        g.is_live(t),
        g.state(t) is Done,
        make_dirty_step(g, t).result is Ok,
    ensures
        ({
            let after = make_dirty_step(g, t).graph;
            &&& after.state(t) is Scheduled <==> g.is_root(t) || has_waiting_parent(after, t)
            &&& after.live_parents(t) == g.live_parents(t)
            &&& forall|i: int|
                0 <= i < g.live_parents(t).len() ==> !(after.state(
                    #[trigger] g.live_parents(t)[i],
                ) is Done) && !(after.state(g.live_parents(t)[i]) is InProgressLocally)
        }),
{
    let start = invalidated(g, t);
    let ids = start.live_parents(t);
    lemma_same_shape(g, start);
    lemma_live_parents(start, t);
    lemma_answers(start, ids);
    lemma_parents_left_done(start, ids);
    lemma_tell_dirty(start, ids);
    let told = tell_dirty(start, ids).graph;
    let wanted = tell_dirty(start, ids).result->Ok_0;
    let after = make_dirty_step(g, t).graph;
    lemma_only_dirtied(start, told);
    lemma_same_shape(told, after);
    assert(g.live_parents(t) == ids);
    assert(told.live_parents(t) == ids);
    assert(after.live_parents(t) == ids);
    assert(told.nodes[t as int].state_type == start.nodes[t as int].state_type);
    assert(told.nodes[t as int].ty == g.nodes[t as int].ty);
    if wanted {
        let k = choose|k: int|
            0 <= k < ids.len() && told.state(#[trigger] ids[k]) is SomeChildrenScheduled;
        assert(after.state(after.live_parents(t)[k]) is SomeChildrenScheduled);
    } else if has_waiting_parent(after, t) {
        let k = choose|k: int|
            0 <= k < after.live_parents(t).len() && after.state(
                #[trigger] after.live_parents(t)[k],
            ) is SomeChildrenScheduled;
        assert(settled_state(told.state(ids[k])));
    }
    assert forall|i: int| 0 <= i < g.live_parents(t).len() implies !(after.state(
        #[trigger] g.live_parents(t)[i],
    ) is Done) && !(after.state(g.live_parents(t)[i]) is InProgressLocally) by {
        assert(!(told.state(ids[i]) is Done));
    }
}

proof fn lemma_parents_left_done(g: Graph, ids: Seq<TaskId>)
    requires
        g.wf(),
        forall|i: int| 0 <= i < ids.len() ==> g.is_live(#[trigger] ids[i]),
        tell_dirty(g, ids).result is Ok,
    ensures
        forall|i: int|
            0 <= i < ids.len() ==> !(tell_dirty(g, ids).graph.state(#[trigger] ids[i]) is Done)
                && !(tell_dirty(g, ids).graph.state(ids[i]) is InProgressLocally),
    decreases ids.len(),
{
    if ids.len() > 0 {
        let first = child_dirty_step(g, ids[0]);
        let rest = ids.skip(1);
        assert(g.is_live(ids[0]));
        lemma_child_dirty(g, ids[0]);
        lemma_only_dirtied(g, first.graph);
        law_hearing_of_a_dirty_child(g, ids[0]);
        assert forall|i: int| 0 <= i < rest.len() implies first.graph.is_live(#[trigger] rest[i])
            && first.graph.has(rest[i]) by {
            assert(g.is_live(ids[i + 1]));
        }
        lemma_parents_left_done(first.graph, rest);
        lemma_tell_dirty(first.graph, rest);
        let last = tell_dirty(first.graph, rest).graph;
        assert forall|i: int| 0 <= i < ids.len() implies !(last.state(#[trigger] ids[i]) is Done)
            && !(last.state(ids[i]) is InProgressLocally) by {
            if i == 0 {
                assert(last.nodes[ids[0] as int].state_type == last.state(ids[0]));
            } else {
                assert(ids[i] == rest[i - 1]);
            }
        }
    }
}

/// In a consistent graph, exactly those tasks stay done through an invalidation whose
/// children all do.
pub proof fn law_invalidation_undoes_ancestors(g: Graph, t: TaskId, p: TaskId)
    requires
        consistent(g),
        g.is_live(t),
        g.is_live(p),
        p != t,
        g.state(p) is Done,
        make_dirty_step(g, t).result is Ok,
    ensures
        ({
            let after = make_dirty_step(g, t).graph;
            after.state(p) is Done <==> forall|i: int|
                0 <= i < g.nodes[p as int].children.len() ==> after.state(
                    #[trigger] g.nodes[p as int].children[i],
                ) is Done
        }),
{
    let after = make_dirty_step(g, t).graph;
    let none = |x: TaskId| 0int;
    law_make_dirty_keeps_consistency(g, t);
    crate::laws::outcomes::law_invalidation_changes_states_only(g, t, p);
    assert(after.is_live(p));
    assert(balanced_at(after, none(p), p));
    lemma_done_iff_children(after, p);
}

proof fn lemma_done_iff_children(g: Graph, p: TaskId)
    requires
        consistent(g),
        g.is_live(p),
        g.state(p) is Done || g.state(p) is SomeChildrenDirty || g.state(
            p,
        ) is SomeChildrenScheduled,
    ensures
        g.state(p) is Done <==> forall|i: int|
            0 <= i < g.nodes[p as int].children.len() ==> g.state(
                #[trigger] g.nodes[p as int].children[i],
            ) is Done,
{
    let none = |x: TaskId| 0int;
    let children = g.nodes[p as int].children;
    assert(balanced_at(g, none(p), p));
    lemma_unfinished_none(g.nodes, children);
    if g.state(p) is Done {
        assert forall|i: int| 0 <= i < children.len() implies g.state(
            #[trigger] g.nodes[p as int].children[i],
        ) is Done by {
            assert(g.nodes[children[i] as int].state_type is Done);
        }
    } else {
        let k = choose|k: int|
            0 <= k < children.len() && !(g.nodes[
                #[trigger] children[k] as int
            ].state_type is Done);
        assert(!(g.state(g.nodes[p as int].children[k]) is Done));
    }
}

/// In a consistent graph, a task that waited for its children is done after the end of an
/// execution exactly if all its children are done then.
pub proof fn law_completion_finishes_ancestors(g: Graph, t: TaskId, result: SlotRef, p: TaskId)
    requires
        consistent(g),
        g.is_live(t),
        g.is_live(p),
        g.state(p) is SomeChildrenDirty || g.state(p) is SomeChildrenScheduled,
        execution_completed_step(g, t, result).result is Ok,
    ensures
        ({
            let after = execution_completed_step(g, t, result).graph;
            after.state(p) is Done <==> forall|i: int|
                0 <= i < g.nodes[p as int].children.len() ==> after.state(
                    #[trigger] g.nodes[p as int].children[i],
                ) is Done
        }),
{
    let after = execution_completed_step(g, t, result).graph;
    law_execution_completion_keeps_consistency(g, t, result);
    crate::laws::outcomes::law_completion_links_the_result(g, t, result);
    crate::laws::outcomes::law_completion_changes_waiting_tasks_only(g, t, result, p);
    assert(after.is_live(p));
    lemma_done_iff_children(after, p);
}

/// Tasks that are out of date themselves are not touched by news of dirty children.
proof fn lemma_child_dirty_spares(g: Graph, t: TaskId, x: TaskId)
    requires
        g.wf(),
        g.has(t),
        g.has(x),
        g.state(x) is Dirty || g.state(x) is Scheduled || g.state(x) is InProgressLocallyOutdated,
    ensures
        child_dirty_step(g, t).graph.nodes[x as int] == g.nodes[x as int],
    decreases tally(g.nodes, TaskStateType::Done), 0nat,
{
    if g.state(t) is Done {
        let start = waiting(g, t);
        lemma_waiting(g, t);
        lemma_same_shape(g, start);
        lemma_live_parents(start, t);
        lemma_tell_dirty_spares(start, start.live_parents(t), x);
        lemma_tell_dirty(start, start.live_parents(t));
    }
}

proof fn lemma_tell_dirty_spares(g: Graph, ids: Seq<TaskId>, x: TaskId)
    requires
        g.wf(),
        forall|i: int| 0 <= i < ids.len() ==> g.has(#[trigger] ids[i]),
        g.has(x),
        g.state(x) is Dirty || g.state(x) is Scheduled || g.state(x) is InProgressLocallyOutdated,
    ensures
        tell_dirty(g, ids).graph.nodes[x as int] == g.nodes[x as int],
    decreases tally(g.nodes, TaskStateType::Done), ids.len(),
{
    if ids.len() > 0 {
        let first = child_dirty_step(g, ids[0]);
        let rest = ids.skip(1);
        assert(g.has(ids[0]));
        lemma_child_dirty(g, ids[0]);
        lemma_only_dirtied(g, first.graph);
        lemma_child_dirty_spares(g, ids[0], x);
        if first.result is Ok {
            assert forall|i: int| 0 <= i < rest.len() implies first.graph.has(
                #[trigger] rest[i],
            ) by {
                assert(g.has(ids[i + 1]));
            }
            lemma_tell_dirty_spares(first.graph, rest, x);
        }
    }
}

/// Invalidation leaves every other task as it is that is dirty, scheduled, or executes out
/// of date.
pub proof fn law_invalidation_spares_outdated_tasks(g: Graph, t: TaskId, x: TaskId)
    requires
        g.wf(),
        g.is_live(t),
        g.has(x),
        x != t,
        g.state(x) is Dirty || g.state(x) is Scheduled || g.state(x) is InProgressLocallyOutdated,
    ensures
        make_dirty_step(g, t).graph.nodes[x as int] == g.nodes[x as int],
{
    if g.state(t) is Done {
        let start = invalidated(g, t);
        lemma_same_shape(g, start);
        lemma_live_parents(start, t);
        lemma_tell_dirty_spares(start, start.live_parents(t), x);
        lemma_tell_dirty(start, start.live_parents(t));
    }
}

/// Invalidation leaves the count of the task as it is.
pub proof fn law_invalidation_keeps_own_count(g: Graph, t: TaskId)
    requires
        g.wf(),
        g.is_live(t),
    ensures
        make_dirty_step(g, t).graph.nodes[t as int].dirty == g.nodes[t as int].dirty,
{
    if g.state(t) is Done {
        let start = invalidated(g, t);
        lemma_same_shape(g, start);
        lemma_live_parents(start, t);
        lemma_tell_dirty_spares(start, start.live_parents(t), t);
        lemma_tell_dirty(start, start.live_parents(t));
    }
}

/// What happens to live tasks does not change those that are gone.
pub proof fn law_dead_tasks_stay(g: Graph, t: TaskId, result: SlotRef, x: TaskId)
    requires
        g.wf(),
        g.is_live(t),
        g.has(x),
        !g.is_live(x),
    ensures
        make_dirty_step(g, t).graph.nodes[x as int] == g.nodes[x as int],
        execution_completed_step(g, t, result).graph.nodes[x as int] == g.nodes[x as int],
        schedule_step(g, t).nodes[x as int] == g.nodes[x as int],
{
    let live = Set::new(|p: TaskId| g.is_live(p));
    assert(closed_downwards(g, live)) by {
        assert forall|p: TaskId, k: int|
            #![trigger g.nodes[p as int].children[k]]
            live.contains(p) && g.has(p) && g.nodes[p as int].state_type is SomeChildrenDirty && 0
                <= k < g.nodes[p as int].children.len() implies live.contains(
            g.nodes[p as int].children[k],
        ) by {
            assert(g.node_wf(p));
            assert(g.is_live(g.nodes[p as int].children[k]));
        }
    }
    law_invalidation_stays_among_ancestors(g, t, live);
    law_completion_stays_among_ancestors(g, t, result, live);
    law_access_stays_among_dirty_descendants(g, t, live);
    assert(!live.contains(x));
}

/// An access to a task with dirty children leaves none of its children dirty or with dirty
/// children only.
pub proof fn law_access_reaches_all_children(g: Graph, t: TaskId, i: int)
    requires
        g.wf(),
        g.is_live(t),
        g.state(t) is SomeChildrenDirty,
        0 <= i < g.nodes[t as int].children.len(),
    ensures
        ({
            let child = schedule_step(g, t).state(g.nodes[t as int].children[i]);
            !(child is Dirty) && !(child is SomeChildrenDirty)
        }),
{
    let start = g.with_state(t, TaskStateType::SomeChildrenScheduled);
    let children = g.nodes[t as int].children;
    lemma_same_shape(g, start);
    assert(g.node_wf(t));
    assert forall|k: int| 0 <= k < children.len() implies start.is_live(#[trigger] children[k])
        && start.has(children[k]) by {
        assert(g.is_live(children[k]));
    }
    lemma_all_asked(start, children, i);
}

proof fn lemma_all_asked(g: Graph, ids: Seq<TaskId>, i: int)
    requires
        g.wf(),
        forall|k: int| 0 <= k < ids.len() ==> g.is_live(#[trigger] ids[k]),
        0 <= i < ids.len(),
    ensures
        !(schedule_all(g, ids).state(ids[i]) is Dirty),
        !(schedule_all(g, ids).state(ids[i]) is SomeChildrenDirty),
    decreases ids.len(),
{
    let first = schedule_step(g, ids[0]);
    let rest = ids.skip(1);
    assert(g.is_live(ids[0]));
    assert(g.is_live(ids[i]));
    lemma_schedule(g, ids[0]);
    lemma_only_asked(g, first);
    crate::laws::outcomes::law_access_outcome(g, ids[0]);
    assert forall|k: int| 0 <= k < rest.len() implies first.is_live(#[trigger] rest[k])
        && first.has(rest[k]) by {
        assert(g.is_live(ids[k + 1]));
        assert(first.nodes[rest[k] as int].alive == g.nodes[rest[k] as int].alive);
    }
    lemma_schedule_all(first, rest);
    let last = schedule_all(first, rest);
    if i == 0 {
        assert(last.nodes[ids[0] as int].state_type == last.state(ids[0]));
    } else {
        assert(rest[i - 1] == ids[i]);
        lemma_all_asked(first, rest, i - 1);
    }
}

/// The count of `p` exceeds the number of its unfinished children by `base`, once it has
/// heard of `pending` more of them. That of a task that executes out of date does not fall
/// below zero.
spec fn offset_at(g: Graph, pending: int, base: int, p: TaskId) -> bool {
    let node = g.nodes[p as int];
    let count = unfinished(g.nodes, node.children) + base - pending;
    node.dirty == count || (node.state_type is InProgressLocallyOutdated && node.dirty == 0
        && count < 0)
}

spec fn offset(
    g: Graph,
    pending: spec_fn(TaskId) -> int,
    base: spec_fn(TaskId) -> int,
) -> bool {
    forall|p: TaskId| g.is_live(p) ==> #[trigger] offset_at(g, pending(p), base(p), p)
}

proof fn lemma_offset_changed(
    g: Graph,
    t: TaskId,
    node: Node,
    before: spec_fn(TaskId) -> int,
    after: spec_fn(TaskId) -> int,
    base: spec_fn(TaskId) -> int,
)
    requires
        g.wf(),
        g.is_live(t),
        linked(g),
        offset(g, before, base),
        node.children == g.nodes[t as int].children,
        node.parents == g.nodes[t as int].parents,
        node.alive == g.nodes[t as int].alive,
        node.state_type is InProgressLocallyOutdated
            == g.nodes[t as int].state_type is InProgressLocallyOutdated,
        ({
            let change = before(t) - after(t) + signed(
                weight(node.state_type) - weight(g.state(t)),
                occurrences(g.live_parents(t), t),
            );
            &&& node.dirty == g.nodes[t as int].dirty + change || (
            node.state_type is InProgressLocallyOutdated && g.nodes[t as int].dirty == 0
                && node.dirty == 0)
            &&& node.state_type is InProgressLocallyOutdated ==> change <= 0
        }),
        forall|x: TaskId|
            g.is_live(x) && x != t ==> #[trigger] after(x) == before(x) + signed(
                weight(node.state_type) - weight(g.state(t)),
                occurrences(g.live_parents(t), x),
            ),
    ensures
        offset(g.with_node(t, node), after, base),
{
    let changed = g.with_node(t, node);
    assert forall|x: TaskId| changed.is_live(x) implies #[trigger] offset_at(
        changed,
        after(x),
        base(x),
        x,
    ) by {
        assert(g.is_live(x));
        assert(offset_at(g, before(x), base(x), x));
        assert(g.node_wf(x));
        let children = g.nodes[x as int].children;
        assert forall|i: int| 0 <= i < children.len() implies #[trigger] children[i]
            < g.nodes.len() by {
            assert(g.has(children[i]));
        }
        lemma_unfinished_update(g.nodes, children, t, node);
        assert(occurrences(g.nodes[x as int].children, t) == occurrences(
            g.nodes[t as int].parents,
            x,
        ));
        lemma_live_occurrences(g.nodes, g.nodes[t as int].parents, x);
        if x != t {
            assert(changed.nodes[x as int] == g.nodes[x as int]);
            assert(after(x) == before(x) + signed(
                weight(node.state_type) - weight(g.state(t)),
                occurrences(g.live_parents(t), x),
            ));
        }
    }
}

spec fn heard(pending: spec_fn(TaskId) -> int, t: TaskId) -> spec_fn(TaskId) -> int {
    |x: TaskId|
        pending(x) + (if x == t {
            1int
        } else {
            0
        })
}

spec fn all_heard(pending: spec_fn(TaskId) -> int, ids: Seq<TaskId>) -> spec_fn(TaskId) -> int {
    |x: TaskId| pending(x) + occurrences(ids, x)
}

proof fn lemma_offset_same(
    g: Graph,
    before: spec_fn(TaskId) -> int,
    after: spec_fn(TaskId) -> int,
    base: spec_fn(TaskId) -> int,
)
    requires
        offset(g, before, base),
        forall|x: TaskId| g.is_live(x) ==> #[trigger] before(x) == after(x),
    ensures
        offset(g, after, base),
{
    assert forall|x: TaskId| g.is_live(x) implies #[trigger] offset_at(
        g,
        after(x),
        base(x),
        x,
    ) by {
        assert(offset_at(g, before(x), base(x), x));
        assert(before(x) == after(x));
    }
}

proof fn lemma_child_done_offset(
    g: Graph,
    t: TaskId,
    pending: spec_fn(TaskId) -> int,
    base: spec_fn(TaskId) -> int,
)
    requires
        g.wf(),
        g.is_live(t),
        linked(g),
        offset(g, pending, base),
        child_done_step(g, t).result is Ok,
    ensures
        offset(child_done_step(g, t).graph, heard(pending, t), base),
    decreases waiting_tasks(g), 0nat,
{
    let node = g.nodes[t as int];
    let after = heard(pending, t);
    let less = Node { dirty: (node.dirty - 1) as usize, ..node };
    let counted = g.with_node(t, less);
    if node.dirty == 0 {
        lemma_offset_changed(g, t, node, pending, after, base);
        assert(g.with_node(t, node) =~= g);
    } else if node.dirty == 1 && (node.state_type is SomeChildrenDirty
        || node.state_type is SomeChildrenScheduled) {
        let finished = Node {
            state_type: TaskStateType::Done,
            notified: node.notified.push(usize::MAX),
            ..less
        };
        let start = counted.with_done(t);
        let ids = counted.live_parents(t);
        let started = |x: TaskId| after(x) - occurrences(ids, x);
        assert(start =~= g.with_node(t, finished));
        lemma_completed(g, t);
        lemma_same_shape(g, counted);
        lemma_same_shape(g, start);
        lemma_linked_shape(g, start);
        assert(g.live_parents(t) == ids);
        lemma_live_parents(g, t);
        lemma_offset_changed(g, t, finished, pending, started, base);
        assert forall|i: int| 0 <= i < ids.len() implies start.is_live(#[trigger] ids[i]) by {
            assert(g.is_live(ids[i]));
        }
        lemma_tell_done_offset(start, ids, started, base);
        let told = tell_done(start, ids).graph;
        lemma_offset_same(told, all_heard(started, ids), after, base);
    } else {
        lemma_offset_changed(g, t, less, pending, after, base);
    }
}

proof fn lemma_tell_done_offset(
    g: Graph,
    ids: Seq<TaskId>,
    pending: spec_fn(TaskId) -> int,
    base: spec_fn(TaskId) -> int,
)
    requires
        g.wf(),
        forall|i: int| 0 <= i < ids.len() ==> g.is_live(#[trigger] ids[i]),
        linked(g),
        offset(g, pending, base),
        tell_done(g, ids).result is Ok,
    ensures
        offset(tell_done(g, ids).graph, all_heard(pending, ids), base),
    decreases waiting_tasks(g), ids.len(),
{
    if ids.len() == 0 {
        lemma_offset_same(g, pending, all_heard(pending, ids), base);
    } else {
        let first = child_done_step(g, ids[0]).graph;
        let rest = ids.skip(1);
        let once = heard(pending, ids[0]);
        assert(g.is_live(ids[0]));
        lemma_child_done(g, ids[0]);
        lemma_only_finished(g, first);
        lemma_linked_shape(g, first);
        lemma_child_done_offset(g, ids[0], pending, base);
        assert forall|i: int| 0 <= i < rest.len() implies first.is_live(#[trigger] rest[i]) by {
            assert(g.is_live(ids[i + 1]));
        }
        lemma_tell_done_offset(first, rest, once, base);
        let last = tell_done(g, ids).graph;
        assert forall|x: TaskId| last.is_live(x) implies #[trigger] all_heard(once, rest)(x)
            == all_heard(pending, ids)(x) by {
            lemma_occurrences_first(ids, x);
        }
        lemma_offset_same(last, all_heard(once, rest), all_heard(pending, ids), base);
    }
}

/// The end of an execution counts down, for each other live task, exactly as many children
/// as have become done, each as often as it is listed. Only the count of a task that
/// executes out of date stays at zero where it would fall below.
pub proof fn law_completion_counts_finished_children(
    g: Graph,
    t: TaskId,
    result: SlotRef,
    p: TaskId,
)
    requires
        consistent(g),
        g.is_live(t),
        g.is_live(p),
        p != t,
        execution_completed_step(g, t, result).result is Ok,
    ensures
        ({
            let after = execution_completed_step(g, t, result).graph;
            let children = g.nodes[p as int].children;
            let left = g.nodes[p as int].dirty - (children.filter(
                |c: TaskId| !(g.nodes[c as int].state_type is Done),
            ).len() - children.filter(
                |c: TaskId| !(after.nodes[c as int].state_type is Done),
            ).len());
            &&& left >= 0 ==> after.nodes[p as int].dirty == left
            &&& left < 0 ==> g.state(p) is InProgressLocallyOutdated && after.nodes[
                p as int
            ].dirty == 0
        }),
{
    let after = execution_completed_step(g, t, result).graph;
    let node = g.nodes[t as int];
    let children = g.nodes[p as int].children;
    law_unfinished_are_counted(g.nodes, children);
    law_unfinished_are_counted(after.nodes, children);
    lemma_checks_pass(g, t, |x: TaskId| 0int);
    crate::laws::outcomes::law_completion_changes_waiting_tasks_only(g, t, result, p);
    if node.state_type is InProgressLocally && node.dirty == 0 {
        let none = |x: TaskId| 0int;
        let base = |x: TaskId| g.nodes[x as int].dirty - unfinished(
            g.nodes,
            g.nodes[x as int].children,
        );
        let start = g.with_done(t).with_output(t, linked_slot(node.output, result));
        let finished = start.nodes[t as int];
        let ids = g.live_parents(t);
        let started = |x: TaskId| none(x) - occurrences(ids, x);
        assert(start =~= g.with_node(t, finished));
        lemma_same_slots(g, start);
        lemma_linked_shape(g, start);
        lemma_live_parents(g, t);
        assert forall|x: TaskId| g.is_live(x) implies #[trigger] offset_at(
            g,
            none(x),
            base(x),
            x,
        ) by {}
        lemma_offset_changed(g, t, finished, none, started, base);
        assert forall|i: int| 0 <= i < ids.len() implies start.is_live(#[trigger] ids[i]) by {
            assert(g.is_live(ids[i]));
        }
        lemma_tell_done_offset(start, ids, started, base);
        assert(after.is_live(p));
        assert(offset_at(after, all_heard(started, ids)(p), base(p), p));
        assert(after.nodes[p as int].children == children);
    } else {
        assert forall|i: int| 0 <= i < children.len() implies weight(
            g.nodes[#[trigger] children[i] as int].state_type,
        ) == weight(after.nodes[children[i] as int].state_type) by {
            assert(g.node_wf(p));
            assert(g.has(children[i]));
        }
        crate::consistency::lemma_unfinished_same(g.nodes, after.nodes, children);
    }
}

} // verus!
