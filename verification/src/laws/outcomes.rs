//! What each operation comes to, field by field.

use crate::dirty::{
    child_dirty_step, invalidated, lemma_child_dirty, lemma_only_dirtied, lemma_tell_dirty,
    make_dirty_step, tell_dirty, waiting,
};
use crate::done::{child_done_step, lemma_child_done, lemma_tell_done};
use crate::fault::Fault;
use crate::graph::{lemma_live_parents, lemma_same_shape, lemma_same_slots, Graph};
use crate::lifecycle::{
    connect_parent_step, execution_completed_step, execution_started_step,
};
use crate::schedule::{lemma_schedule, schedule_step};
use crate::slot::{
    lemma_purged, occurrences, purged, SlotContent, SlotRef, TaskId, WeakSlotRef,
};
use crate::task::{Node, TaskStateType};
use vstd::prelude::*;

verus! {

/// Two values of a task that differ at most in its state, its count and who was notified.
pub open spec fn same_task(was: Node, now: Node) -> bool {
    &&& now.inputs == was.inputs
    &&& now.ty == was.ty
    &&& now.alive == was.alive
    &&& now.parents == was.parents
    &&& now.children == was.children
    &&& now.output.content == was.output.content
    &&& now.output.dependents == was.output.dependents
    &&& now.created == was.created
    &&& now.listeners == was.listeners
    &&& now.executions == was.executions
    &&& now.dependencies == was.dependencies
    &&& now.previous == was.previous
}

/// Whatever state a live task is in, once it was invalidated its result counts as valid
/// only after another execution: the task is dirty, scheduled, or executes out of date.
/// A task that waited for its children is scheduled and queued; a root always is, unless
/// it executes.
pub proof fn law_invalidation_asks_for_execution(g: Graph, t: TaskId)
    requires
        g.wf(),
        g.is_live(t),
        make_dirty_step(g, t).result is Ok,
    ensures
        ({
            let after = make_dirty_step(g, t).graph;
            let was = g.nodes[t as int];
            let now = after.nodes[t as int];
            let queued = now.state_type is Scheduled && after.scheduled == g.scheduled.push(t);
            &&& now.state_type is Dirty || now.state_type is Scheduled
                || now.state_type is InProgressLocallyOutdated
            &&& was.state_type is Dirty || was.state_type is Scheduled
                || was.state_type is InProgressLocallyOutdated ==> after == g
            &&& was.state_type is InProgressLocally ==> now.state_type is InProgressLocallyOutdated
                && after.scheduled == g.scheduled
            &&& was.state_type is SomeChildrenScheduled ==> queued
            &&& was.state_type is SomeChildrenDirty || was.state_type is Done ==> {
                ||| queued
                ||| now.state_type is Dirty && !(was.ty is Root) && after.scheduled == g.scheduled
            }
            &&& was.state_type is SomeChildrenDirty && !(was.ty is Root)
                ==> now.state_type is Dirty
        }),
{
    if g.state(t) is Done {
        let start = invalidated(g, t);
        lemma_same_shape(g, start);
        lemma_live_parents(start, t);
        lemma_tell_dirty(start, start.live_parents(t));
        let told = tell_dirty(start, start.live_parents(t)).graph;
        assert(told.nodes[t as int].state_type == start.nodes[t as int].state_type);
        assert(told.nodes[t as int].ty == g.nodes[t as int].ty);
    }
}

/// Invalidation changes nothing but states and counts. A task other than the invalidated
/// one moves only from done to waiting for its children, or goes out of date while it
/// executes; unless the invalidated task was done, no other task changes at all.
pub proof fn law_invalidation_changes_states_only(g: Graph, t: TaskId, x: TaskId)
    requires
        g.wf(),
        g.is_live(t),
        g.has(x),
        make_dirty_step(g, t).result is Ok,
    ensures
        ({
            let after = make_dirty_step(g, t).graph;
            let was = g.nodes[x as int];
            let now = after.nodes[x as int];
            &&& after.nodes.len() == g.nodes.len()
            &&& same_task(was, now)
            &&& now.notified == was.notified
            &&& x != t && now.state_type != was.state_type ==> {
                ||| was.state_type is Done && now.state_type is SomeChildrenDirty
                ||| was.state_type is Done && now.state_type is SomeChildrenScheduled
                ||| was.state_type is InProgressLocally
                    && now.state_type is InProgressLocallyOutdated
            }
            &&& !(g.state(t) is Done) && x != t ==> now == was
            &&& !(g.state(t) is Done) ==> now.dirty == was.dirty
        }),
{
    if g.state(t) is Done {
        let start = invalidated(g, t);
        lemma_same_shape(g, start);
        lemma_live_parents(start, t);
        lemma_tell_dirty(start, start.live_parents(t));
        let told = tell_dirty(start, start.live_parents(t)).graph;
        assert(told.nodes[x as int].ty == start.nodes[x as int].ty);
    }
}

/// A task that hears that a child is no longer done counts it if it keeps count, and is
/// not done afterwards. It asks for progress exactly if it waits for its children with the
/// goal to get everything up to date.
pub proof fn law_hearing_of_a_dirty_child(g: Graph, t: TaskId)
    requires
        g.wf(),
        g.is_live(t),
        child_dirty_step(g, t).result is Ok,
    ensures
        ({
            let after = child_dirty_step(g, t).graph;
            let was = g.nodes[t as int];
            let now = after.nodes[t as int];
            &&& same_task(was, now)
            &&& after.scheduled == g.scheduled
            &&& child_dirty_step(g, t).result->Ok_0 <==> now.state_type is SomeChildrenScheduled
            &&& was.state_type is Dirty || was.state_type is Scheduled
                || was.state_type is InProgressLocallyOutdated ==> after == g
            &&& was.state_type is InProgressLocally ==> now.state_type is InProgressLocallyOutdated
                && now.dirty == was.dirty + 1
            &&& was.state_type is SomeChildrenDirty || was.state_type is SomeChildrenScheduled
                ==> now.state_type == was.state_type && now.dirty == was.dirty + 1
            &&& was.state_type is Done && was.ty is Root
                ==> now.state_type is SomeChildrenScheduled
            &&& was.state_type is Done ==> now.dirty > 0 && (
            now.state_type is SomeChildrenScheduled || now.state_type is SomeChildrenDirty)
        }),
{
    lemma_child_dirty(g, t);
    if g.state(t) is Done {
        let start = waiting(g, t);
        let ids = start.live_parents(t);
        lemma_same_shape(g, start);
        lemma_live_parents(start, t);
        lemma_tell_dirty(start, ids);
        let told = tell_dirty(start, ids).graph;
        assert(told.nodes[t as int].state_type == start.nodes[t as int].state_type);
        assert(told.nodes[t as int].ty == g.nodes[t as int].ty);
        lemma_counts_grow_all(start, ids, t);
    } else {
        assert(child_dirty_step(g, t).graph.nodes[t as int].ty == g.nodes[t as int].ty);
    }
}

/// The count of a task that waits for its children does not fall when tasks hear of dirty
/// children.
proof fn lemma_counts_grow(g: Graph, t: TaskId, x: TaskId)
    requires
        g.wf(),
        g.has(t),
        g.has(x),
        g.state(x) is SomeChildrenDirty || g.state(x) is SomeChildrenScheduled,
    ensures
        child_dirty_step(g, t).graph.nodes[x as int].dirty >= g.nodes[x as int].dirty,
    decreases crate::graph::tally(g.nodes, TaskStateType::Done), 0nat,
{
    lemma_child_dirty(g, t);
    if g.state(t) is Done {
        let start = waiting(g, t);
        crate::dirty::lemma_waiting(g, t);
        lemma_same_shape(g, start);
        lemma_live_parents(start, t);
        lemma_counts_grow_all(start, start.live_parents(t), x);
        lemma_tell_dirty(start, start.live_parents(t));
    }
}

proof fn lemma_counts_grow_all(g: Graph, ids: Seq<TaskId>, x: TaskId)
    requires
        g.wf(),
        forall|i: int| 0 <= i < ids.len() ==> g.has(#[trigger] ids[i]),
        g.has(x),
        g.state(x) is SomeChildrenDirty || g.state(x) is SomeChildrenScheduled,
    ensures
        tell_dirty(g, ids).graph.nodes[x as int].dirty >= g.nodes[x as int].dirty,
    decreases crate::graph::tally(g.nodes, TaskStateType::Done), ids.len(),
{
    if ids.len() > 0 {
        let first = child_dirty_step(g, ids[0]);
        assert(g.has(ids[0]));
        lemma_child_dirty(g, ids[0]);
        lemma_only_dirtied(g, first.graph);
        lemma_counts_grow(g, ids[0], x);
        assert(first.graph.nodes[x as int].state_type == g.nodes[x as int].state_type);
        if first.result is Ok {
            assert forall|i: int| 0 <= i < ids.skip(1).len() implies first.graph.has(
                #[trigger] ids.skip(1)[i],
            ) by {
                assert(g.has(ids[i + 1]));
            }
            lemma_counts_grow_all(first.graph, ids.skip(1), x);
        }
    }
}

/// A task that hears that a child has become done counts down, unless it went out of date
/// and has nothing counted. It becomes done exactly if it waited for that child only; no
/// other change of its state is possible.
pub proof fn law_hearing_of_a_finished_child(g: Graph, t: TaskId)
    requires
        g.wf(),
        g.is_live(t),
        child_done_step(g, t).result is Ok,
    ensures
        ({
            let after = child_done_step(g, t).graph;
            let was = g.nodes[t as int];
            let now = after.nodes[t as int];
            let waited = was.state_type is SomeChildrenDirty
                || was.state_type is SomeChildrenScheduled;
            &&& same_task(was, now)
            &&& after.scheduled == g.scheduled
            &&& !(was.state_type is Done)
            &&& was.dirty == 0 ==> was.state_type is InProgressLocallyOutdated && after == g
            &&& now.state_type == if waited && was.dirty == 1 {
                TaskStateType::Done
            } else {
                was.state_type
            }
            &&& was.dirty > 0 ==> now.dirty == was.dirty - 1
        }),
{
    lemma_child_done(g, t);
    let node = g.nodes[t as int];
    let after = child_done_step(g, t).graph;
    assert(after.nodes[t as int].ty == node.ty);
    if node.dirty == 1 && (node.state_type is SomeChildrenDirty
        || node.state_type is SomeChildrenScheduled) {
        let counted = g.with_dirty(t, 0);
        let start = counted.with_done(t);
        lemma_same_shape(g, counted);
        lemma_same_shape(g, start);
        lemma_live_parents(counted, t);
        let ids = counted.live_parents(t);
        assert forall|i: int| 0 <= i < ids.len() implies start.has(#[trigger] ids[i]) by {
            assert(counted.is_live(ids[i]));
        }
        lemma_tell_done(start, ids);
        lemma_counts_fall_all(start, ids, t);
        assert(crate::done::tell_done(start, ids).graph.nodes[t as int].state_type is Done);
    }
}

/// What a task cannot hear of a child is reported: of one that is no longer done, only
/// when it cannot be counted any more; of one that has become done, when none is counted
/// or the task is done.
pub proof fn law_news_that_cannot_be_counted(g: Graph, t: TaskId)
    requires
        g.wf(),
        g.is_live(t),
    ensures
        ({
            let node = g.nodes[t as int];
            let counts = node.state_type is InProgressLocally
                || node.state_type is SomeChildrenDirty
                || node.state_type is SomeChildrenScheduled;
            &&& counts && node.dirty == usize::MAX ==> child_dirty_step(g, t).result
                == Err::<bool, Fault>(Fault::CountOverflow) && child_dirty_step(g, t).graph == g
            &&& !(node.state_type is Done) && !(counts && node.dirty == usize::MAX)
                ==> child_dirty_step(g, t).result is Ok
            &&& node.dirty == 0 && !(node.state_type is InProgressLocallyOutdated)
                ==> child_done_step(g, t).result == Err::<(), Fault>(Fault::CountUnderflow)
                && child_done_step(g, t).graph == g
            &&& node.dirty > 0 && node.state_type is Done ==> child_done_step(g, t).result == Err::<
                (),
                Fault,
            >(Fault::ChildDoneWhileDone)
            &&& node.state_type is Dirty || node.state_type is Scheduled
                || node.state_type is InProgressLocally ==> (child_done_step(g, t).result is Ok
                <==> node.dirty > 0)
            &&& node.state_type is InProgressLocallyOutdated ==> child_done_step(g, t).result is Ok
        }),
{
}

/// Whenever the execution of a task that did not go out of date ends well, its output
/// stands for the result and keeps its readers, whether or not children are unfinished.
/// The task is done then if it has counted no unfinished child, and else waits for them.
pub proof fn law_completion_links_the_result(g: Graph, t: TaskId, result: SlotRef)
    requires
        g.wf(),
        g.is_live(t),
        execution_completed_step(g, t, result).result is Ok,
    ensures
        ({
            let after = execution_completed_step(g, t, result).graph;
            let was = g.nodes[t as int];
            let now = after.nodes[t as int];
            &&& was.state_type is InProgressLocally
                || was.state_type is InProgressLocallyOutdated
            &&& was.state_type is InProgressLocally ==> {
                &&& now.output.content == SlotContent::Link(result)
                &&& now.output.dependents == was.output.dependents
                &&& now.state_type == if was.dirty == 0 {
                    TaskStateType::Done
                } else {
                    TaskStateType::SomeChildrenScheduled
                }
                &&& now.dirty == was.dirty
                &&& after.scheduled == g.scheduled
            }
            &&& now.inputs == was.inputs
            &&& now.ty == was.ty
            &&& now.alive == was.alive
            &&& now.parents == was.parents
            &&& now.children == was.children
            &&& now.created == was.created
            &&& now.listeners == was.listeners
            &&& now.executions == was.executions
            &&& now.dependencies == was.dependencies
            &&& now.previous == was.previous
        }),
{
    lemma_completed_nodes(g, t, result);
    lemma_completion_counts_fall(g, t, result, t);
    assert(execution_completed_step(g, t, result).graph.nodes[t as int].ty == g.nodes[t as int].ty);
}

/// The result of an execution that went out of date is lost: the output stays as it was,
/// and the task is scheduled and queued again. Nothing else changes.
pub proof fn law_outdated_completion_executes_again(g: Graph, t: TaskId, result: SlotRef)
    requires
        g.wf(),
        g.is_live(t),
        g.state(t) is InProgressLocallyOutdated,
        execution_completed_step(g, t, result).result is Ok,
    ensures
        ({
            let after = execution_completed_step(g, t, result).graph;
            &&& after.state(t) is Scheduled
            &&& after.scheduled == g.scheduled.push(t)
            &&& same_task(g.nodes[t as int], after.nodes[t as int])
            &&& after.nodes[t as int].dirty == g.nodes[t as int].dirty
            &&& after.nodes[t as int].notified == g.nodes[t as int].notified
            &&& after.nodes.len() == g.nodes.len()
            &&& forall|x: TaskId|
                #![trigger after.nodes[x as int]]
                g.has(x) && x != t ==> after.nodes[x as int] == g.nodes[x as int]
        }),
{
}

/// The end of an execution changes nothing of other tasks but that those that waited for
/// their children may become done, and that counts may fall; if the task itself has to
/// wait for children, no other task changes at all.
pub proof fn law_completion_changes_waiting_tasks_only(
    g: Graph,
    t: TaskId,
    result: SlotRef,
    x: TaskId,
)
    requires
        g.wf(),
        g.is_live(t),
        g.has(x),
        x != t,
    ensures
        ({
            let after = execution_completed_step(g, t, result).graph;
            let was = g.nodes[x as int];
            let now = after.nodes[x as int];
            &&& after.nodes.len() == g.nodes.len()
            &&& same_task(was, now)
            &&& now.state_type != was.state_type ==> (was.state_type is SomeChildrenDirty
                || was.state_type is SomeChildrenScheduled) && now.state_type is Done
            &&& now.dirty <= was.dirty
            &&& g.nodes[t as int].dirty > 0 ==> now == was
        }),
{
    lemma_completed_nodes(g, t, result);
    assert(execution_completed_step(g, t, result).graph.nodes[x as int].ty == g.nodes[x as int].ty);
    lemma_completion_counts_fall(g, t, result, x);
}

proof fn lemma_completion_counts_fall(g: Graph, t: TaskId, result: SlotRef, x: TaskId)
    requires
        g.wf(),
        g.is_live(t),
        g.has(x),
    ensures
        execution_completed_step(g, t, result).graph.nodes[x as int].dirty
            <= g.nodes[x as int].dirty,
{
    let node = g.nodes[t as int];
    if crate::fault::audit(g, t) is Ok && node.state_type is InProgressLocally && node.dirty == 0 {
        let start = g.with_done(t).with_output(
            t,
            crate::lifecycle::linked_slot(node.output, result),
        );
        let ids = g.live_parents(t);
        lemma_same_slots(g, start);
        lemma_live_parents(g, t);
        assert forall|i: int| 0 <= i < ids.len() implies start.has(#[trigger] ids[i]) by {
            assert(g.is_live(ids[i]));
        }
        lemma_counts_fall_all(start, ids, x);
    }
}

proof fn lemma_counts_fall(g: Graph, t: TaskId, x: TaskId)
    requires
        g.wf(),
        g.has(t),
        g.has(x),
    ensures
        child_done_step(g, t).graph.nodes[x as int].dirty <= g.nodes[x as int].dirty,
    decreases crate::done::waiting_tasks(g), 0nat,
{
    let node = g.nodes[t as int];
    if node.dirty == 1 && (node.state_type is SomeChildrenDirty
        || node.state_type is SomeChildrenScheduled) {
        let counted = g.with_dirty(t, 0);
        let start = counted.with_done(t);
        let ids = counted.live_parents(t);
        crate::done::lemma_completed(g, t);
        lemma_same_shape(g, counted);
        lemma_same_shape(g, start);
        lemma_live_parents(counted, t);
        assert forall|i: int| 0 <= i < ids.len() implies start.has(#[trigger] ids[i]) by {
            assert(counted.is_live(ids[i]));
        }
        lemma_counts_fall_all(start, ids, x);
    }
}

proof fn lemma_counts_fall_all(g: Graph, ids: Seq<TaskId>, x: TaskId)
    requires
        g.wf(),
        forall|i: int| 0 <= i < ids.len() ==> g.has(#[trigger] ids[i]),
        g.has(x),
    ensures
        crate::done::tell_done(g, ids).graph.nodes[x as int].dirty <= g.nodes[x as int].dirty,
    decreases crate::done::waiting_tasks(g), ids.len(),
{
    if ids.len() > 0 {
        let first = child_done_step(g, ids[0]);
        assert(g.has(ids[0]));
        lemma_child_done(g, ids[0]);
        crate::done::lemma_only_finished(g, first.graph);
        lemma_counts_fall(g, ids[0], x);
        if first.result is Ok {
            assert forall|i: int| 0 <= i < ids.skip(1).len() implies first.graph.has(
                #[trigger] ids.skip(1)[i],
            ) by {
                assert(g.has(ids[i + 1]));
            }
            lemma_counts_fall_all(first.graph, ids.skip(1), x);
        }
    }
}

/// Where completion leads, in terms of what it starts from.
proof fn lemma_completed_nodes(g: Graph, t: TaskId, result: SlotRef)
    requires
        g.wf(),
        g.is_live(t),
    ensures
        ({
            let after = execution_completed_step(g, t, result).graph;
            let node = g.nodes[t as int];
            let start = g.with_done(t).with_output(
                t,
                crate::lifecycle::linked_slot(node.output, result),
            );
            crate::fault::audit(g, t) is Ok && node.state_type is InProgressLocally && node.dirty
                == 0 ==> crate::done::only_finished(start, after)
        }),
{
    let node = g.nodes[t as int];
    if crate::fault::audit(g, t) is Ok && node.state_type is InProgressLocally && node.dirty == 0 {
        let start = g.with_done(t).with_output(
            t,
            crate::lifecycle::linked_slot(node.output, result),
        );
        let ids = g.live_parents(t);
        lemma_same_slots(g, start);
        lemma_live_parents(g, t);
        assert forall|i: int| 0 <= i < ids.len() implies start.has(#[trigger] ids[i]) by {
            assert(g.is_live(ids[i]));
        }
        lemma_tell_done(start, ids);
    }
}

/// The start of an execution: the task executes, has one more execution, and uses and has
/// read nothing yet. What it is, what it has produced and who uses it stays.
pub proof fn law_start_begins_afresh(g: Graph, t: TaskId)
    requires
        g.wf(),
        g.is_live(t),
        !g.nodes[t as int].children.contains(t),
        execution_started_step(g, t).result is Ok,
    ensures
        ({
            let after = execution_started_step(g, t).graph;
            let was = g.nodes[t as int];
            let now = after.nodes[t as int];
            &&& was.state_type is Scheduled || was.state_type is InProgressLocallyOutdated
            &&& now.state_type is InProgressLocally
            &&& now.executions == was.executions + 1
            &&& now.dirty == 0
            &&& now.children == Seq::<TaskId>::empty()
            &&& now.dependencies == Seq::<WeakSlotRef>::empty()
            &&& now.inputs == was.inputs
            &&& now.ty == was.ty
            &&& now.alive
            &&& now.parents == was.parents
            &&& now.output.content == was.output.content
            &&& now.created.len() == was.created.len()
            &&& now.notified == was.notified
            &&& now.listeners == was.listeners
            &&& now.previous == was.previous
            &&& after.scheduled == g.scheduled
        }),
{
}

/// The start of an execution changes nothing of another task but that the executing task
/// is no longer among its parents, if it was its child, and no longer among the readers of
/// its output, if it had read that. Other parents and other readers stay, each as often as
/// before.
pub proof fn law_start_detaches_from_others(g: Graph, t: TaskId, x: TaskId, other: TaskId)
    requires
        g.wf(),
        g.is_live(t),
        g.has(x),
        x != t,
        execution_started_step(g, t).result is Ok,
    ensures
        ({
            let after = execution_started_step(g, t).graph;
            let was = g.nodes[x as int];
            let now = after.nodes[x as int];
            let read = g.nodes[t as int].dependencies;
            &&& after.nodes.len() == g.nodes.len()
            &&& now.inputs == was.inputs
            &&& now.ty == was.ty
            &&& now.alive == was.alive
            &&& now.state_type == was.state_type
            &&& now.dirty == was.dirty
            &&& now.children == was.children
            &&& now.dependencies == was.dependencies
            &&& now.executions == was.executions
            &&& now.notified == was.notified
            &&& now.listeners == was.listeners
            &&& now.previous == was.previous
            &&& now.created.len() == was.created.len()
            &&& now.output.content == was.output.content
            &&& g.nodes[t as int].children.contains(x) ==> occurrences(now.parents, other)
                == if other == t {
                0
            } else {
                occurrences(was.parents, other)
            }
            &&& g.nodes[t as int].children.contains(x) ==> now.parents == purged(was.parents, t)
            &&& !g.nodes[t as int].children.contains(x) ==> now.parents == was.parents
            &&& was.alive && read.contains(WeakSlotRef::TaskOutput(x)) ==> occurrences(
                now.output.dependents,
                other,
            ) == if other == t {
                0
            } else {
                occurrences(was.output.dependents, other)
            }
            &&& was.alive && read.contains(WeakSlotRef::TaskOutput(x)) ==> now.output.dependents
                == purged(was.output.dependents, t)
            &&& !(was.alive && read.contains(WeakSlotRef::TaskOutput(x)))
                ==> now.output.dependents == was.output.dependents
        }),
{
    let was = g.nodes[x as int];
    lemma_purged(was.parents, t, other);
    lemma_purged(was.output.dependents, t, other);
}

/// The start of an execution changes nothing of a slot that another task created but that
/// the executing task is no longer among its readers, if it had read it.
pub proof fn law_start_forgets_reads_of_created_slots(
    g: Graph,
    t: TaskId,
    x: TaskId,
    index: usize,
    other: TaskId,
)
    requires
        g.wf(),
        g.is_live(t),
        g.has(x),
        x != t,
        index < g.nodes[x as int].created.len(),
        execution_started_step(g, t).result is Ok,
    ensures
        ({
            let after = execution_started_step(g, t).graph;
            let was = g.nodes[x as int].created[index as int];
            let now = after.nodes[x as int].created[index as int];
            let read = g.nodes[x as int].alive && g.nodes[t as int].dependencies.contains(
                WeakSlotRef::TaskCreated(x, index),
            );
            &&& now.content == was.content
            &&& read ==> occurrences(now.dependents, other) == if other == t {
                0
            } else {
                occurrences(was.dependents, other)
            }
            &&& read ==> now.dependents == purged(was.dependents, t)
            &&& !read ==> now.dependents == was.dependents
        }),
{
    lemma_purged(g.nodes[x as int].created[index as int].dependents, t, other);
}

/// The own slots of an executing task change as those of others: it is no longer among
/// the readers of those that it had read, and the others stay as they are.
pub proof fn law_start_forgets_own_reads(g: Graph, t: TaskId)
    requires
        g.wf(),
        g.is_live(t),
        g.nodes[t as int].created.len() <= usize::MAX,
        execution_started_step(g, t).result is Ok,
    ensures
        ({
            let after = execution_started_step(g, t).graph;
            let was = g.nodes[t as int];
            let now = after.nodes[t as int];
            let read = was.dependencies;
            &&& now.output.dependents == if read.contains(WeakSlotRef::TaskOutput(t)) {
                purged(was.output.dependents, t)
            } else {
                was.output.dependents
            }
            &&& !purged(was.output.dependents, t).contains(t)
            &&& forall|i: int|
                #![trigger now.created[i]]
                0 <= i < was.created.len() ==> {
                    &&& now.created[i].content == was.created[i].content
                    &&& now.created[i].dependents == if read.contains(
                        WeakSlotRef::TaskCreated(t, i as usize),
                    ) {
                        purged(was.created[i].dependents, t)
                    } else {
                        was.created[i].dependents
                    }
                }
        }),
{
    lemma_purged(g.nodes[t as int].output.dependents, t, t);
}

/// Connecting a child appends it to the parent's children and the parent to its parents,
/// counts it exactly if it is not done, and changes nothing else.
pub proof fn law_connect_links_both_ways(g: Graph, child: TaskId, parent: TaskId)
    requires
        g.wf(),
        g.is_live(child),
        g.is_live(parent),
        child != parent,
        connect_parent_step(g, child, parent).result is Ok,
    ensures
        ({
            let after = connect_parent_step(g, child, parent).graph;
            let p = g.nodes[parent as int];
            let c = g.nodes[child as int];
            &&& after.nodes.len() == g.nodes.len()
            &&& after.scheduled == g.scheduled
            &&& after.nodes[parent as int] == (Node {
                children: p.children.push(child),
                dirty: (p.dirty + if c.state_type is Done {
                    0int
                } else {
                    1int
                }) as usize,
                ..p
            })
            &&& !(c.state_type is Done) ==> p.dirty < usize::MAX && !(p.state_type is Done)
            &&& after.nodes[child as int] == (Node { parents: c.parents.push(parent), ..c })
            &&& forall|x: TaskId|
                #![trigger after.nodes[x as int]]
                g.has(x) && x != parent && x != child ==> after.nodes[x as int]
                    == g.nodes[x as int]
        }),
{
    let after = connect_parent_step(g, child, parent).graph;
    let p = g.nodes[parent as int];
    assert(after.nodes[parent as int].dirty == (p.dirty + if g.state(child) is Done {
        0int
    } else {
        1int
    }) as usize);
}

/// A child that is not done is not attached to a parent that is done: it is reported, and
/// nothing changes.
pub proof fn law_done_parents_get_done_children_only(g: Graph, child: TaskId, parent: TaskId)
    requires
        g.state(parent) is Done,
        !(g.state(child) is Done),
    ensures
        connect_parent_step(g, child, parent).result is Err,
        connect_parent_step(g, child, parent).graph == g,
        g.state_ok(child) ==> connect_parent_step(g, child, parent).result == Err::<(), Fault>(
            Fault::UnfinishedChildOfDone,
        ),
{
}

/// An access schedules and queues a dirty task, lets a task with dirty children wait for
/// them, and changes nothing otherwise.
pub proof fn law_access_outcome(g: Graph, t: TaskId)
    requires
        g.wf(),
        g.is_live(t),
    ensures
        ({
            let after = schedule_step(g, t);
            match g.state(t) {
                TaskStateType::Dirty => {
                    &&& after.state(t) is Scheduled
                    &&& after.scheduled == g.scheduled.push(t)
                    &&& forall|x: TaskId|
                        #![trigger after.nodes[x as int]]
                        g.has(x) && x != t ==> after.nodes[x as int] == g.nodes[x as int]
                },
                TaskStateType::SomeChildrenDirty => after.state(t) is SomeChildrenScheduled,
                _ => after == g,
            }
        }),
{
    lemma_schedule(g, t);
    if g.state(t) is SomeChildrenDirty {
        crate::laws::schedule::law_access_is_idempotent(g, t);
        let after = schedule_step(g, t);
        assert(after.nodes[t as int].state_type == after.state(t));
        if after.state(t) is SomeChildrenDirty {
            lemma_access_moves_on(g, t);
        }
    }
}

proof fn lemma_access_moves_on(g: Graph, t: TaskId)
    requires
        g.wf(),
        g.is_live(t),
        g.state(t) is SomeChildrenDirty,
    ensures
        schedule_step(g, t).state(t) is SomeChildrenScheduled,
{
    let start = g.with_state(t, TaskStateType::SomeChildrenScheduled);
    let children = g.nodes[t as int].children;
    lemma_same_shape(g, start);
    assert(g.node_wf(t));
    assert forall|i: int| 0 <= i < children.len() implies start.has(#[trigger] children[i]) by {
        assert(g.has(children[i]));
    }
    crate::schedule::lemma_schedule_all(start, children);
    assert(schedule_step(g, t).nodes[t as int].state_type == schedule_step(g, t).state(t));
}

/// An access changes nothing but states, and these only from dirty to scheduled and from
/// having dirty children to waiting for them.
pub proof fn law_access_changes_idle_tasks_only(g: Graph, t: TaskId, x: TaskId)
    requires
        g.wf(),
        g.is_live(t),
        g.has(x),
    ensures
        ({
            let after = schedule_step(g, t);
            let was = g.nodes[x as int];
            let now = after.nodes[x as int];
            &&& after.nodes.len() == g.nodes.len()
            &&& same_task(was, now)
            &&& now.dirty == was.dirty
            &&& now.notified == was.notified
            &&& now.state_type != was.state_type ==> {
                ||| was.state_type is Dirty && now.state_type is Scheduled
                ||| was.state_type is SomeChildrenDirty
                    && now.state_type is SomeChildrenScheduled
            }
        }),
{
    lemma_schedule(g, t);
    assert(schedule_step(g, t).nodes[x as int].ty == g.nodes[x as int].ty);
}

/// What an execution cannot do in a state is reported with that state, and the graph keeps
/// its links and states.
pub proof fn law_wrong_states_are_reported(g: Graph, t: TaskId, result: SlotRef)
    requires
        crate::consistency::consistent(g),
        g.is_live(t),
    ensures
        ({
            let node = g.nodes[t as int];
            let started = execution_started_step(g, t);
            let completed = execution_completed_step(g, t, result);
            &&& node.executions == u32::MAX ==> started.result == Err::<(), Fault>(
                Fault::ExecutionsOverflow,
            )
            &&& node.executions < u32::MAX && !(node.state_type is Scheduled
                || node.state_type is InProgressLocallyOutdated) ==> started.result == Err::<
                (),
                Fault,
            >(Fault::StartedInState(node.state_type))
            &&& started.result is Err ==> started.graph.scheduled == g.scheduled
                && started.graph.state(t) == node.state_type
            &&& !(node.state_type is InProgressLocally
                || node.state_type is InProgressLocallyOutdated) ==> completed.result == Err::<
                (),
                Fault,
            >(Fault::CompletedInState(node.state_type)) && completed.graph == g
            &&& node.state_type is InProgressLocallyOutdated || (
            node.state_type is InProgressLocally && node.dirty > 0) ==> completed.result is Ok
        }),
{
    crate::laws::lifecycle::law_execution_start(g, t);
    crate::laws::lifecycle::law_consistent_graph_passes_checks(g, t);
}

/// Where a check fails at the outset, the operation reports it and changes nothing.
pub proof fn law_failed_checks_change_nothing(g: Graph, t: TaskId, result: SlotRef, p: TaskId)
    requires
        !g.state_ok(t),
    ensures
        execution_started_step(g, t).result == Err::<(), Fault>(Fault::StateMismatch(t)),
        execution_started_step(g, t).graph == g,
        execution_completed_step(g, t, result).result == Err::<(), Fault>(
            Fault::StateMismatch(t),
        ),
        execution_completed_step(g, t, result).graph == g,
        connect_parent_step(g, t, p).result == Err::<(), Fault>(Fault::StateMismatch(t)),
        connect_parent_step(g, t, p).graph == g,
{
    crate::laws::shapes::law_checks_find_the_first(g, t);
}

/// An execution that cannot start for want of a state that waits for it has been counted,
/// and nothing else has changed; one that cannot be counted changes nothing.
pub proof fn law_refused_starts_are_counted(g: Graph, t: TaskId)
    requires
        g.wf(),
        g.is_live(t),
        crate::fault::audit(g, t) is Ok,
    ensures
        ({
            let started = execution_started_step(g, t);
            let node = g.nodes[t as int];
            &&& node.executions == u32::MAX ==> started.graph == g
            &&& node.executions < u32::MAX && !(node.state_type is Scheduled)
                && !(node.state_type is InProgressLocallyOutdated) ==> {
                &&& started.result is Err
                &&& started.graph.scheduled == g.scheduled
                &&& started.graph.nodes == g.nodes.update(
                    t as int,
                    Node { executions: (node.executions + 1) as u32, ..node },
                )
            }
            &&& node.executions < u32::MAX && (node.state_type is Scheduled
                || node.state_type is InProgressLocallyOutdated)
                && g.live_parents(t).len() == 0 && !node.children.contains(t)
                ==> started.result is Ok
        }),
{
    let node = g.nodes[t as int];
    let started = execution_started_step(g, t);
    if node.executions < u32::MAX && (node.state_type is Scheduled
        || node.state_type is InProgressLocallyOutdated) && g.live_parents(t).len() == 0
        && !node.children.contains(t) {
        let after = started.graph;
        assert(after.nodes[t as int].parents == node.parents);
        assert(g.node_wf(t));
        assert forall|i: int| 0 <= i < node.parents.len() implies g.nodes[
            #[trigger] node.parents[i] as int
        ].alive == after.nodes[node.parents[i] as int].alive by {
            assert(g.has(node.parents[i]));
        }
        crate::graph::lemma_live_among_same(g.nodes, after.nodes, node.parents);
        assert(after.live_parents(t) =~= g.live_parents(t));
        crate::laws::shapes::law_checks_find_the_first(after, t);
    }
}

/// Invalidating a task that is not done always succeeds, and so does invalidating a task
/// without live parents.
pub proof fn law_invalidation_succeeds(g: Graph, t: TaskId)
    requires
        g.wf(),
        g.is_live(t),
    ensures
        !(g.state(t) is Done) ==> make_dirty_step(g, t).result is Ok,
        g.live_parents(t).len() == 0 ==> make_dirty_step(g, t).result is Ok,
{
    if g.state(t) is Done {
        let start = invalidated(g, t);
        let ids = start.live_parents(t);
        lemma_same_shape(g, start);
        lemma_live_parents(start, t);
        assert(start.live_parents(t) == g.live_parents(t));
        if ids.len() == 0 {
            let after = make_dirty_step(g, t).graph;
            lemma_same_shape(start, after);
            assert(after.live_parents(t) == ids);
            crate::laws::shapes::law_checks_find_the_first(after, t);
        }
    }
}

} // verus!
