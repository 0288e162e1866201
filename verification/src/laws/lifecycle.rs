//! What the life of a task keeps.

use crate::consistency::{
    balanced, balanced_at, consistent, covered, covered_at, idles, layered, lemma_checks_pass,
    lemma_cover_changed, lemma_layers_kept, lemma_linked_shape, lemma_node_changed,
    lemma_own_count, lemma_pending_same, lemma_states_kept, lemma_unfinished_none,
    lemma_unfinished_same, linked, progressing, relies_on_children, roots_progress, weight,
};
use crate::done::{lemma_only_finished, lemma_tell_done};
use crate::fault::audit;
use crate::graph::{lemma_live_parents, lemma_same_slots, unfinished, Graph};
use crate::laws::done::{
    all_heard, lemma_done_progress, lemma_parents_hear, lemma_tell_done_kept,
    lemma_tell_done_succeeds,
};
use crate::laws::schedule::lemma_schedule_kept;
use crate::lifecycle::{
    connect_parent_step, connected, executed_once_more, execution_completed_step,
    execution_started_step, holds, inserted, lemma_connected, lemma_inserted, lemma_released,
    lemma_restarted, linked_slot, releasable, released, restarted,
};
use crate::schedule::schedule_step;
use crate::slot::{
    lemma_occurrences_positive, lemma_occurrences_push, lemma_purged, occurrences, purged, SlotRef,
    TaskId, WeakSlotRef,
};
use crate::task::{new_node, TaskType};
use event_listener::EventListener;
use vstd::prelude::*;

verus! {

/// A graph without tasks is consistent.
pub proof fn law_empty_graph_is_consistent(g: Graph)
    requires
        g.nodes.len() == 0,
    ensures
        consistent(g),
{
}

/// In a consistent graph every live task's state agrees with those of its children, so
/// that no check of a task and its parents fails.
pub proof fn law_consistent_graph_passes_checks(g: Graph, t: TaskId)
    requires
        consistent(g),
        g.is_live(t),
    ensures
        g.state_ok(t),
        audit(g, t) is Ok,
{
    lemma_checks_pass(g, t, |p: TaskId| 0int);
}

/// `path` leads from each of its tasks to one of that task's children.
pub open spec fn is_path(g: Graph, path: Seq<TaskId>) -> bool {
    &&& path.len() > 0
    &&& forall|i: int|
        0 <= i < path.len() - 1 ==> g.nodes[#[trigger] path[i] as int].children.contains(
            path[i + 1],
        )
}

/// All descendants of a live task that is done are done.
pub proof fn law_descendants_of_done_are_done(g: Graph, path: Seq<TaskId>)
    requires
        consistent(g),
        is_path(g, path),
        g.is_live(path[0]),
        g.state(path[0]) is Done,
    ensures
        g.is_live(path.last()),
        g.state(path.last()) is Done,
    decreases path.len(),
{
    if path.len() > 1 {
        let rest = path.skip(1);
        let children = g.nodes[path[0] as int].children;
        lemma_checks_pass(g, path[0], |p: TaskId| 0int);
        assert(children.contains(path[1]));
        let k = choose|k: int| 0 <= k < children.len() && children[k] == path[1];
        assert(g.state(children[k]) is Done);
        assert(g.node_wf(path[0]));
        assert(g.is_live(children[k]));
        assert forall|i: int| 0 <= i < rest.len() - 1 implies g.nodes[
            #[trigger] rest[i] as int
        ].children.contains(rest[i + 1]) by {
            assert(rest[i] == path[i + 1]);
            assert(rest[i + 1] == path[i + 1 + 1]);
        }
        law_descendants_of_done_are_done(g, rest);
    }
}

/// A live task that waits for its children has one that is not done, and if they are
/// to make progress, that one does not idle.
pub proof fn law_waiting_task_has_unfinished_child(g: Graph, t: TaskId)
    requires
        consistent(g),
        g.is_live(t),
        g.state(t) is SomeChildrenDirty || g.state(t) is SomeChildrenScheduled,
    ensures
        exists|i: int|
            0 <= i < g.nodes[t as int].children.len() && !(g.state(
                #[trigger] g.nodes[t as int].children[i],
            ) is Done) && (g.state(t) is SomeChildrenScheduled ==> !idles(
                g.state(g.nodes[t as int].children[i]),
            )),
{
    let none = |p: TaskId| 0int;
    let children = g.nodes[t as int].children;
    assert(balanced_at(g, none(t), t));
    lemma_unfinished_none(g.nodes, children);
    let k = choose|k: int|
        0 <= k < children.len() && !(g.nodes[#[trigger] children[k] as int].state_type is Done);
    assert(!(g.state(g.nodes[t as int].children[k]) is Done));
}

/// A new task keeps the graph consistent.
pub proof fn law_insert_keeps_consistency(
    g: Graph,
    inputs: Seq<SlotRef>,
    ty: TaskType,
    listeners: Set<EventListener>,
)
    requires
        consistent(g),
        g.nodes.len() < usize::MAX,
    ensures
        consistent(inserted(g, new_node(inputs, ty, listeners))),
{
    let node = new_node(inputs, ty, listeners);
    let after = inserted(g, node);
    let none = |p: TaskId| 0int;
    let id = g.nodes.len() as TaskId;
    lemma_inserted(g, node);
    assert forall|x: TaskId| g.has(x) implies after.nodes[x as int] == g.nodes[x as int] by {}
    assert(after.nodes[id as int] == node);
    assert forall|p: TaskId, c: TaskId| after.is_live(p) && after.has(c) implies occurrences(
        after.nodes[p as int].children,
        c,
    ) == occurrences(after.nodes[c as int].parents, p) by {
        if p != id && c != id {
            assert(g.is_live(p));
            assert(occurrences(g.nodes[p as int].children, c) == occurrences(
                g.nodes[c as int].parents,
                p,
            ));
        } else if p != id {
            assert(g.node_wf(p));
            lemma_occurrences_positive(g.nodes[p as int].children, c);
            if g.nodes[p as int].children.contains(c) {
                let children = g.nodes[p as int].children;
                let k = choose|k: int| 0 <= k < children.len() && children[k] == c;
                assert(g.has(children[k]));
            }
        } else if c != id {
            assert(g.node_wf(c));
            lemma_occurrences_positive(g.nodes[c as int].parents, p);
            if g.nodes[c as int].parents.contains(p) {
                let parents = g.nodes[c as int].parents;
                let k = choose|k: int| 0 <= k < parents.len() && parents[k] == p;
                assert(g.has(parents[k]));
            }
        }
    }
    assert forall|p: TaskId| after.is_live(p) implies #[trigger] balanced_at(
        after,
        none(p),
        p,
    ) by {
        if p != id {
            assert(g.is_live(p));
            assert(balanced_at(g, none(p), p));
            assert(g.node_wf(p));
            let children = g.nodes[p as int].children;
            assert forall|i: int| 0 <= i < children.len() implies weight(
                g.nodes[#[trigger] children[i] as int].state_type,
            ) == weight(after.nodes[children[i] as int].state_type) by {
                assert(g.has(children[i]));
            }
            lemma_unfinished_same(g.nodes, after.nodes, children);
        }
    }
    assert forall|p: TaskId, i: int|
        #![trigger after.nodes[p as int].children[i]]
        after.is_live(p) && relies_on_children(after.state(p)) && 0 <= i
            < after.nodes[p as int].children.len() implies !idles(
        after.state(after.nodes[p as int].children[i]),
    ) by {
        assert(g.is_live(p));
        assert(g.node_wf(p));
        let c = g.nodes[p as int].children[i];
        assert(g.has(c));
    }
    assert forall|x: TaskId|
        #![trigger after.nodes[x as int]]
        after.has(x) && after.is_root(x) implies !idles(after.state(x)) by {
        if x != id {
            assert(g.has(x));
            assert(g.nodes[x as int] == after.nodes[x as int]);
        }
    }
}

/// Releasing a task that no other live task uses keeps the graph consistent.
pub proof fn law_release_keeps_consistency(g: Graph, t: TaskId)
    requires
        consistent(g),
        releasable(g, t),
    ensures
        consistent(released(g, t)),
{
    let after = released(g, t);
    let none = |p: TaskId| 0int;
    lemma_released(g, t);
    assert forall|p: TaskId, c: TaskId| after.is_live(p) && after.has(c) implies occurrences(
        after.nodes[p as int].children,
        c,
    ) == occurrences(after.nodes[c as int].parents, p) by {
        assert(g.is_live(p));
        assert(occurrences(g.nodes[p as int].children, c) == occurrences(
            g.nodes[c as int].parents,
            p,
        ));
    }
    assert forall|p: TaskId| after.is_live(p) implies #[trigger] balanced_at(
        after,
        none(p),
        p,
    ) by {
        assert(g.is_live(p));
        assert(balanced_at(g, none(p), p));
        assert(g.node_wf(p));
        let children = g.nodes[p as int].children;
        assert forall|i: int| 0 <= i < children.len() implies weight(
            g.nodes[#[trigger] children[i] as int].state_type,
        ) == weight(after.nodes[children[i] as int].state_type) by {
            assert(g.has(children[i]));
        }
        lemma_unfinished_same(g.nodes, after.nodes, children);
    }
    assert forall|p: TaskId, i: int|
        #![trigger after.nodes[p as int].children[i]]
        after.is_live(p) && relies_on_children(after.state(p)) && 0 <= i
            < after.nodes[p as int].children.len() implies !idles(
        after.state(after.nodes[p as int].children[i]),
    ) by {
        assert(g.is_live(p));
        assert(g.node_wf(p));
        let c = g.nodes[p as int].children[i];
        assert(g.has(c));
    }
}

/// What a live task holds stays alive when another task is released: its children, and
/// whatever its inputs and slots refer to.
pub proof fn law_release_spares_what_is_held(g: Graph, t: TaskId, holder: TaskId, held: TaskId)
    requires
        g.wf(),
        releasable(g, t),
        g.is_live(holder),
        holder != t,
        holds(g.nodes[holder as int], held),
        g.is_live(held),
    ensures
        released(g, t).is_live(held),
        released(g, t).is_live(holder),
        holds(released(g, t).nodes[holder as int], held),
{
    assert(!holds(g.nodes[holder as int], t));
}

/// What the start of an execution leaves of every task.
proof fn lemma_restarted_nodes(g: Graph, t: TaskId)
    requires
        g.wf(),
        g.has(t),
    ensures
        ({
            let after = restarted(executed_once_more(g, t), t);
            let children = g.nodes[t as int].children;
            &&& after.nodes.len() == g.nodes.len()
            &&& after.scheduled == g.scheduled
            &&& after.state(t) is InProgressLocally
            &&& after.nodes[t as int].dirty == 0
            &&& after.nodes[t as int].children.len() == 0
            &&& after.nodes[t as int].dependencies.len() == 0
            &&& forall|x: TaskId|
                g.has(x) ==> {
                    let node = #[trigger] after.nodes[x as int];
                    let was = g.nodes[x as int];
                    &&& node.alive == was.alive
                    &&& node.ty == was.ty
                    &&& node.parents == if children.contains(x) {
                        purged(was.parents, t)
                    } else {
                        was.parents
                    }
                    &&& x != t ==> node.state_type == was.state_type
                    &&& x != t ==> node.dirty == was.dirty
                    &&& x != t ==> node.children == was.children
                }
        }),
{
}

proof fn lemma_restarted_kept(g: Graph, t: TaskId)
    requires
        consistent(g),
        g.is_live(t),
        g.state(t) is Scheduled || g.state(t) is InProgressLocallyOutdated,
    ensures
        consistent(restarted(executed_once_more(g, t), t)),
{
    let none = |p: TaskId| 0int;
    let counted = executed_once_more(g, t);
    let after = restarted(counted, t);
    let children = g.nodes[t as int].children;
    lemma_same_slots(g, counted);
    lemma_restarted(counted, t);
    lemma_restarted_nodes(g, t);
    assert forall|p: TaskId, c: TaskId| after.is_live(p) && after.has(c) implies occurrences(
        after.nodes[p as int].children,
        c,
    ) == occurrences(after.nodes[c as int].parents, p) by {
        assert(g.is_live(p));
        assert(occurrences(g.nodes[p as int].children, c) == occurrences(
            g.nodes[c as int].parents,
            p,
        ));
        lemma_purged(g.nodes[c as int].parents, t, p);
        lemma_occurrences_positive(children, c);
    }
    assert forall|p: TaskId| after.is_live(p) implies #[trigger] balanced_at(
        after,
        none(p),
        p,
    ) by {
        assert(g.is_live(p));
        assert(balanced_at(g, none(p), p));
        assert(g.node_wf(p));
        if p != t {
            let own = g.nodes[p as int].children;
            assert forall|i: int| 0 <= i < own.len() implies weight(
                g.nodes[#[trigger] own[i] as int].state_type,
            ) == weight(after.nodes[own[i] as int].state_type) by {
                assert(g.has(own[i]));
                assert(after.nodes[own[i] as int].alive == g.nodes[own[i] as int].alive);
            }
            lemma_unfinished_same(g.nodes, after.nodes, own);
        }
    }
    assert forall|p: TaskId, i: int|
        #![trigger after.nodes[p as int].children[i]]
        after.is_live(p) && relies_on_children(after.state(p)) && 0 <= i
            < after.nodes[p as int].children.len() implies !idles(
        after.state(after.nodes[p as int].children[i]),
    ) by {
        assert(g.is_live(p));
        assert(g.node_wf(p));
        let c = g.nodes[p as int].children[i];
        assert(g.has(c));
        assert(after.nodes[c as int].alive == g.nodes[c as int].alive);
    }
    assert forall|x: TaskId|
        #![trigger after.nodes[x as int]]
        after.has(x) && after.is_root(x) implies !idles(after.state(x)) by {
        assert(g.nodes[x as int].ty == after.nodes[x as int].ty);
    }
}

/// Starting an execution keeps the graph consistent. It succeeds exactly for tasks that
/// are scheduled or went out of date while they executed, as long as their executions
/// can be counted.
pub proof fn law_execution_start(g: Graph, t: TaskId)
    requires
        consistent(g),
        g.is_live(t),
    ensures
        execution_started_step(g, t).result is Ok <==> g.nodes[t as int].executions < u32::MAX && (
        g.state(t) is Scheduled || g.state(t) is InProgressLocallyOutdated),
        execution_started_step(g, t).result is Ok ==> consistent(
            execution_started_step(g, t).graph,
        ),
{
    law_consistent_graph_passes_checks(g, t);
    if g.state(t) is Scheduled || g.state(t) is InProgressLocallyOutdated {
        let after = restarted(executed_once_more(g, t), t);
        lemma_restarted_kept(g, t);
        lemma_restarted_nodes(g, t);
        assert(after.nodes[t as int].alive == g.nodes[t as int].alive);
        law_consistent_graph_passes_checks(after, t);
    }
}

/// Once an execution has started, the task has no children and has read no slot, and
/// none of its former children has it as a parent.
pub proof fn law_execution_start_detaches(g: Graph, t: TaskId, child: TaskId)
    requires
        consistent(g),
        g.is_live(t),
        g.has(child),
        execution_started_step(g, t).result is Ok,
    ensures
        execution_started_step(g, t).graph.nodes[t as int].children.len() == 0,
        execution_started_step(g, t).graph.nodes[t as int].dependencies.len() == 0,
        !execution_started_step(g, t).graph.nodes[child as int].parents.contains(t),
{
    let after = restarted(executed_once_more(g, t), t);
    lemma_restarted_nodes(g, t);
    lemma_restarted_kept(g, t);
    assert(after.nodes[t as int].alive == g.nodes[t as int].alive);
    assert(occurrences(after.nodes[t as int].children, child) == occurrences(
        after.nodes[child as int].parents,
        t,
    ));
    lemma_occurrences_positive(after.nodes[t as int].children, child);
    lemma_occurrences_positive(after.nodes[child as int].parents, t);
}

/// Once an execution has started, its task is no longer among the readers of any slot
/// that its last execution has read from a live task.
pub proof fn law_execution_start_forgets_reads(g: Graph, t: TaskId, dep: WeakSlotRef)
    requires
        g.wf(),
        g.is_live(t),
        g.nodes[t as int].dependencies.contains(dep),
        g.is_live(dep.task()),
        g.has_slot(dep),
        execution_started_step(g, t).result is Ok,
    ensures
        match dep {
            WeakSlotRef::TaskOutput(owner) => !execution_started_step(
                g,
                t,
            ).graph.nodes[owner as int].output.dependents.contains(t),
            WeakSlotRef::TaskCreated(owner, index) => !execution_started_step(
                g,
                t,
            ).graph.nodes[owner as int].created[index as int].dependents.contains(t),
        },
{
    let after = execution_started_step(g, t).graph;
    match dep {
        WeakSlotRef::TaskOutput(owner) => {
            lemma_purged(g.nodes[owner as int].output.dependents, t, t);
        },
        WeakSlotRef::TaskCreated(owner, index) => {
            lemma_purged(g.nodes[owner as int].created[index as int].dependents, t, t);
        },
    }
}

/// Ending an execution keeps the graph consistent: the task becomes done only with all
/// its children done, and whoever waited for it hears of it.
pub proof fn law_execution_completion_keeps_consistency(g: Graph, t: TaskId, result: SlotRef)
    requires
        consistent(g),
        g.is_live(t),
        execution_completed_step(g, t, result).result is Ok,
    ensures
        consistent(execution_completed_step(g, t, result).graph),
{
    let none = |p: TaskId| 0int;
    let node = g.nodes[t as int];
    let after = execution_completed_step(g, t, result).graph;
    assert(balanced_at(g, none(t), t));
    if node.state_type is InProgressLocally && node.dirty == 0 {
        let start = g.with_done(t).with_output(t, linked_slot(node.output, result));
        let finished = start.nodes[t as int];
        let ids = g.live_parents(t);
        let started = |x: TaskId| -(occurrences(ids, x) as int);
        assert(start =~= g.with_node(t, finished));
        lemma_same_slots(g, start);
        lemma_linked_shape(g, start);
        lemma_live_parents(g, t);
        lemma_own_count(g, t, finished);
        lemma_node_changed(g, t, finished, none, started);
        assert(start.is_live(t));
        assert(balanced_at(start, started(t), t));
        lemma_done_progress(g, t, start, started(t));
        assert forall|i: int| 0 <= i < ids.len() implies start.is_live(#[trigger] ids[i]) by {
            assert(g.is_live(ids[i]));
        }
        lemma_tell_done_kept(start, ids, started);
        lemma_tell_done(start, ids);
        lemma_only_finished(start, after);
        lemma_linked_shape(start, after);
        lemma_pending_same(after, all_heard(started, ids), none);
    } else {
        let changed = after.nodes[t as int];
        assert(after.nodes =~= g.with_node(t, changed).nodes);
        lemma_same_slots(g, after);
        lemma_linked_shape(g, after);
        lemma_own_count(g, t, changed);
        lemma_node_changed(g, t, changed, none, none);
        assert forall|p: TaskId| after.is_live(p) implies #[trigger] balanced_at(
            after,
            none(p),
            p,
        ) by {
            assert(balanced_at(g.with_node(t, changed), none(p), p));
        }
        lemma_states_kept(g, after, Set::empty());
    }
}

/// Ending the execution of a task that executes succeeds in a consistent graph, if all
/// ways that lead up from the task to an ancestor have the same length, and none of them
/// has counted fewer unfinished children than it has. Those that went out of date while
/// they execute may have.
pub proof fn law_execution_completion_succeeds_in_layers(
    g: Graph,
    t: TaskId,
    result: SlotRef,
    ancestors: Set<TaskId>,
    height: spec_fn(TaskId) -> int,
)
    requires
        consistent(g),
        g.is_live(t),
        g.state(t) is InProgressLocally || g.state(t) is InProgressLocallyOutdated,
        ancestors.contains(t),
        layered(g, ancestors, height),
        covered(g, |p: TaskId| 0int, ancestors),
    ensures
        execution_completed_step(g, t, result).result is Ok,
{
    let none = |p: TaskId| 0int;
    let node = g.nodes[t as int];
    lemma_checks_pass(g, t, none);
    if node.state_type is InProgressLocally && node.dirty == 0 {
        let start = g.with_done(t).with_output(t, linked_slot(node.output, result));
        let finished = start.nodes[t as int];
        let ids = g.live_parents(t);
        let started = |x: TaskId| none(x) - occurrences(ids, x);
        assert(balanced_at(g, none(t), t));
        assert(covered_at(g, none(t), t));
        assert(start =~= g.with_node(t, finished));
        lemma_same_slots(g, start);
        lemma_linked_shape(g, start);
        lemma_layers_kept(g, start, ancestors, height);
        lemma_live_parents(g, t);
        lemma_own_count(g, t, finished);
        lemma_node_changed(g, t, finished, none, started);
        lemma_cover_changed(g, t, finished, none, started, ancestors);
        assert(start.is_live(t));
        assert(balanced_at(start, started(t), t));
        lemma_done_progress(g, t, start, started(t));
        lemma_parents_hear(g, t, none, ancestors, height);
        assert forall|i: int| 0 <= i < ids.len() implies start.is_live(#[trigger] ids[i]) by {
            assert(g.is_live(ids[i]));
        }
        lemma_tell_done_succeeds(start, ids, started, ancestors, height, height(t) + 1);
    }
}

/// The graph after `child` was connected to `parent`, up to `parent` relying on it.
proof fn lemma_connect_kept(g: Graph, child: TaskId, parent: TaskId)
    requires
        consistent(g),
        g.is_live(child),
        g.is_live(parent),
        child != parent,
        connect_parent_step(g, child, parent).result is Ok,
    ensures
        ({
            let after = connect_parent_step(g, child, parent).graph;
            &&& after.wf()
            &&& linked(after)
            &&& balanced(after, |p: TaskId| 0int)
            &&& progressing(after, set![parent], Set::empty())
            &&& roots_progress(after)
            &&& after.state(parent) == g.state(parent)
            &&& after.state(child) == g.state(child)
            &&& after.is_live(child)
            &&& after.nodes[parent as int].children == g.nodes[parent as int].children.push(child)
        }),
{
    let none = |p: TaskId| 0int;
    let joined = connected(g, child, parent);
    let after = connect_parent_step(g, child, parent).graph;
    lemma_connected(g, child, parent);
    lemma_same_slots(joined, after);
    let was = g.nodes[parent as int].children;
    let now = was.push(child);
    assert(after.nodes[parent as int].children == now);
    assert forall|p: TaskId, c: TaskId| after.is_live(p) && after.has(c) implies occurrences(
        after.nodes[p as int].children,
        c,
    ) == occurrences(after.nodes[c as int].parents, p) by {
        assert(g.is_live(p));
        assert(occurrences(g.nodes[p as int].children, c) == occurrences(
            g.nodes[c as int].parents,
            p,
        ));
        lemma_occurrences_push(was, child, c);
        lemma_occurrences_push(g.nodes[child as int].parents, parent, p);
    }
    assert forall|p: TaskId| after.is_live(p) implies #[trigger] balanced_at(
        after,
        none(p),
        p,
    ) by {
        assert(g.is_live(p));
        assert(balanced_at(g, none(p), p));
        assert(g.node_wf(p));
        let own = g.nodes[p as int].children;
        assert forall|i: int| 0 <= i < own.len() implies weight(
            g.nodes[#[trigger] own[i] as int].state_type,
        ) == weight(after.nodes[own[i] as int].state_type) by {
            assert(g.has(own[i]));
        }
        lemma_unfinished_same(g.nodes, after.nodes, own);
        if p == parent {
            assert(now.drop_last() =~= was);
            assert(unfinished(after.nodes, now) == unfinished(after.nodes, was) + (if after.state(
                child,
            ) is Done {
                0nat
            } else {
                1nat
            }));
        }
    }
    assert forall|p: TaskId, i: int|
        #![trigger after.nodes[p as int].children[i]]
        after.is_live(p) && relies_on_children(after.state(p)) && p != parent && 0 <= i
            < after.nodes[p as int].children.len() implies !idles(
        after.state(after.nodes[p as int].children[i]),
    ) by {
        assert(g.is_live(p));
        assert(g.node_wf(p));
        let c = g.nodes[p as int].children[i];
        assert(g.has(c));
    }
    assert forall|x: TaskId|
        #![trigger after.nodes[x as int]]
        after.has(x) && after.is_root(x) implies !idles(after.state(x)) by {
        assert(g.nodes[x as int].ty == after.nodes[x as int].ty);
    }
}

/// Connecting a child keeps the graph consistent, if a parent that relies on its children
/// gets one that does not idle.
pub proof fn law_connect_keeps_consistency(g: Graph, child: TaskId, parent: TaskId)
    requires
        consistent(g),
        g.is_live(child),
        g.is_live(parent),
        child != parent,
        relies_on_children(g.state(parent)) ==> !idles(g.state(child)),
        connect_parent_step(g, child, parent).result is Ok,
    ensures
        consistent(connect_parent_step(g, child, parent).graph),
{
    let after = connect_parent_step(g, child, parent).graph;
    lemma_connect_kept(g, child, parent);
    lemma_parent_progress(g, after, child, parent);
}

/// Connecting a child in a consistent graph succeeds exactly if the child is done, or if
/// the parent is not and can count it.
pub proof fn law_connect_succeeds(g: Graph, child: TaskId, parent: TaskId)
    requires
        consistent(g),
        g.is_live(child),
        g.is_live(parent),
        child != parent,
    ensures
        connect_parent_step(g, child, parent).result is Ok <==> g.state(child) is Done || (
        !(g.state(parent) is Done) && g.nodes[parent as int].dirty < usize::MAX),
{
    let children = g.nodes[child as int].children;
    let joined = connected(g, child, parent);
    let counted = joined.with_dirty(
        parent,
        (g.nodes[parent as int].dirty + 1) as usize,
    );
    lemma_checks_pass(g, child, |p: TaskId| 0int);
    assert(g.node_wf(child));
    assert forall|i: int| 0 <= i < children.len() implies g.nodes[
        #[trigger] children[i] as int
    ].state_type == joined.nodes[children[i] as int].state_type && g.nodes[
        children[i] as int
    ].state_type == counted.nodes[children[i] as int].state_type by {
        assert(g.has(children[i]));
    }
    lemma_unfinished_same(g.nodes, joined.nodes, children);
    lemma_unfinished_same(g.nodes, counted.nodes, children);
    assert(joined.nodes[child as int].children == children);
    assert(counted.nodes[child as int].children == children);
    if g.state(child) is Done {
        assert forall|i: int| 0 <= i < children.len() implies joined.state(
            #[trigger] children[i],
        ) is Done by {
            assert(g.state(children[i]) is Done);
        }
    }
}

/// A parent whose new child does not idle relies on no child that does.
proof fn lemma_parent_progress(g: Graph, after: Graph, child: TaskId, parent: TaskId)
    requires
        consistent(g),
        g.is_live(parent),
        after.nodes.len() == g.nodes.len(),
        forall|x: TaskId|
            #![trigger after.nodes[x as int]]
            g.has(x) ==> (idles(after.nodes[x as int].state_type) ==> idles(
                g.nodes[x as int].state_type,
            )),
        relies_on_children(after.state(parent)) ==> relies_on_children(g.state(parent)),
        after.nodes[parent as int].children == g.nodes[parent as int].children.push(child),
        relies_on_children(after.state(parent)) ==> !idles(after.state(child)),
        progressing(after, set![parent], Set::empty()),
    ensures
        progressing(after, Set::empty(), Set::empty()),
{
    let was = g.nodes[parent as int].children;
    assert forall|p: TaskId, i: int|
        #![trigger after.nodes[p as int].children[i]]
        after.is_live(p) && relies_on_children(after.state(p)) && 0 <= i
            < after.nodes[p as int].children.len() implies !idles(
        after.state(after.nodes[p as int].children[i]),
    ) by {
        if p == parent && i < was.len() {
            assert(g.node_wf(p));
            assert(g.has(was[i]));
            assert(!idles(g.state(g.nodes[p as int].children[i])));
            assert(after.nodes[was[i] as int].state_type == after.state(was[i]));
        }
    }
}

/// Connecting a child and then accessing it keeps the graph consistent, whatever state
/// the child was in.
pub proof fn law_connect_and_access_keeps_consistency(g: Graph, child: TaskId, parent: TaskId)
    requires
        consistent(g),
        g.is_live(child),
        g.is_live(parent),
        child != parent,
        connect_parent_step(g, child, parent).result is Ok,
    ensures
        consistent(schedule_step(connect_parent_step(g, child, parent).graph, child)),
{
    let joined = connect_parent_step(g, child, parent).graph;
    let after = schedule_step(joined, child);
    lemma_connect_kept(g, child, parent);
    if relies_on_children(g.state(parent)) {
        lemma_schedule_kept(joined, child, set![parent]);
        assert(after.nodes[parent as int].children == joined.nodes[parent as int].children);
        lemma_parent_progress(g, after, child, parent);
    } else {
        assert(progressing(joined, Set::empty(), Set::empty()));
        lemma_schedule_kept(joined, child, Set::empty());
    }
}

} // verus!
