//! What faults and the absence of faults tell of the graph.

use crate::dirty::{
    child_dirty_step, invalidated, lemma_child_dirty, lemma_only_dirtied, lemma_tell_dirty,
    lemma_waiting, make_dirty_step, tell_dirty, waiting,
};
use crate::done::{
    child_done_step, lemma_child_done, lemma_completed, lemma_only_finished, tell_done,
    waiting_tasks,
};
use crate::fault::{audit, Fault};
use crate::graph::{lemma_live_parents, lemma_same_shape, lemma_same_slots, tally, Graph};
use crate::laws::shapes::law_checks_find_the_first;
use crate::lifecycle::{
    connect_parent_step, execution_completed_step, execution_started_step, linked_slot,
};
use crate::slot::{SlotRef, TaskId};
use crate::task::TaskStateType;
use vstd::prelude::*;

verus! {

/// The fault can be seen in the graph.
pub open spec fn visible(g: Graph, fault: Fault) -> bool {
    match fault {
        Fault::StateMismatch(x) => !g.state_ok(x),
        Fault::CountOverflow => exists|p: TaskId|
            g.has(p) && (#[trigger] g.nodes[p as int]).dirty == usize::MAX,
        Fault::CountUnderflow => exists|p: TaskId|
            g.has(p) && (#[trigger] g.nodes[p as int]).dirty == 0
                && !(g.nodes[p as int].state_type is InProgressLocallyOutdated),
        Fault::ChildDoneWhileDone => exists|p: TaskId|
            g.has(p) && (#[trigger] g.nodes[p as int]).state_type is Done,
        _ => false,
    }
}

/// `t` and all its live parents agree with their children.
pub open spec fn agreed(g: Graph, t: TaskId) -> bool {
    g.state_ok(t) && forall|i: int|
        0 <= i < g.live_parents(t).len() ==> g.state_ok(#[trigger] g.live_parents(t)[i])
}

proof fn lemma_audit_is_visible(g: Graph, t: TaskId)
    ensures
        audit(g, t) matches Err(fault) ==> fault is StateMismatch && visible(g, fault),
{
    law_checks_find_the_first(g, t);
}

proof fn lemma_hearing_is_visible(g: Graph, t: TaskId)
    requires
        g.wf(),
        g.has(t),
    ensures
        child_dirty_step(g, t).result matches Err(fault) ==> (fault is CountOverflow
            || fault is StateMismatch) && visible(child_dirty_step(g, t).graph, fault),
    decreases tally(g.nodes, TaskStateType::Done), 0nat,
{
    let after = child_dirty_step(g, t).graph;
    assert(g.nodes[t as int].dirty == usize::MAX ==> visible(g, Fault::CountOverflow));
    if g.state(t) is Done {
        let start = waiting(g, t);
        lemma_waiting(g, t);
        lemma_same_shape(g, start);
        lemma_live_parents(start, t);
        lemma_telling_is_visible(start, start.live_parents(t));
        lemma_audit_is_visible(after, t);
    }
}

proof fn lemma_telling_is_visible(g: Graph, ids: Seq<TaskId>)
    requires
        g.wf(),
        forall|i: int| 0 <= i < ids.len() ==> g.has(#[trigger] ids[i]),
    ensures
        tell_dirty(g, ids).result matches Err(fault) ==> (fault is CountOverflow
            || fault is StateMismatch) && visible(tell_dirty(g, ids).graph, fault),
    decreases tally(g.nodes, TaskStateType::Done), ids.len(),
{
    if ids.len() > 0 {
        let first = child_dirty_step(g, ids[0]);
        assert(g.has(ids[0]));
        lemma_child_dirty(g, ids[0]);
        lemma_only_dirtied(g, first.graph);
        lemma_hearing_is_visible(g, ids[0]);
        if first.result is Ok {
            assert forall|i: int| 0 <= i < ids.skip(1).len() implies first.graph.has(
                #[trigger] ids.skip(1)[i],
            ) by {
                assert(g.has(ids[i + 1]));
            }
            lemma_telling_is_visible(first.graph, ids.skip(1));
        }
    }
}

/// What an invalidation reports can be seen in the graph that it leaves behind: a task
/// whose state disagrees with its children, or a count that cannot grow.
pub proof fn law_faults_of_invalidation_are_visible(g: Graph, t: TaskId)
    requires
        g.wf(),
        g.is_live(t),
    ensures
        make_dirty_step(g, t).result matches Err(fault) ==> (fault is CountOverflow
            || fault is StateMismatch) && visible(make_dirty_step(g, t).graph, fault),
{
    if g.state(t) is Done {
        let start = invalidated(g, t);
        lemma_same_shape(g, start);
        lemma_live_parents(start, t);
        lemma_telling_is_visible(start, start.live_parents(t));
        lemma_audit_is_visible(make_dirty_step(g, t).graph, t);
    }
}

proof fn lemma_finishing_is_visible(g: Graph, t: TaskId)
    requires
        g.wf(),
        g.has(t),
    ensures
        child_done_step(g, t).result matches Err(fault) ==> visible(
            child_done_step(g, t).graph,
            fault,
        ),
    decreases waiting_tasks(g), 0nat,
{
    let node = g.nodes[t as int];
    let after = child_done_step(g, t).graph;
    if node.dirty == 1 && (node.state_type is SomeChildrenDirty
        || node.state_type is SomeChildrenScheduled) {
        let counted = g.with_dirty(t, 0);
        let start = counted.with_done(t);
        let ids = counted.live_parents(t);
        lemma_completed(g, t);
        lemma_same_shape(g, counted);
        lemma_same_shape(g, start);
        lemma_live_parents(counted, t);
        assert forall|i: int| 0 <= i < ids.len() implies start.has(#[trigger] ids[i]) by {
            assert(counted.is_live(ids[i]));
        }
        lemma_spreading_is_visible(start, ids);
    } else {
        assert(after.nodes[t as int].state_type == node.state_type);
    }
}

proof fn lemma_spreading_is_visible(g: Graph, ids: Seq<TaskId>)
    requires
        g.wf(),
        forall|i: int| 0 <= i < ids.len() ==> g.has(#[trigger] ids[i]),
    ensures
        tell_done(g, ids).result matches Err(fault) ==> visible(tell_done(g, ids).graph, fault),
    decreases waiting_tasks(g), ids.len(),
{
    if ids.len() > 0 {
        let first = child_done_step(g, ids[0]);
        assert(g.has(ids[0]));
        lemma_child_done(g, ids[0]);
        lemma_only_finished(g, first.graph);
        lemma_finishing_is_visible(g, ids[0]);
        if first.result is Ok {
            assert forall|i: int| 0 <= i < ids.skip(1).len() implies first.graph.has(
                #[trigger] ids.skip(1)[i],
            ) by {
                assert(g.has(ids[i + 1]));
            }
            lemma_spreading_is_visible(first.graph, ids.skip(1));
        }
    }
}

/// What the end of an execution reports can be seen in the graph that it leaves behind, or
/// is that the task does not execute.
pub proof fn law_faults_of_completion_are_visible(g: Graph, t: TaskId, result: SlotRef)
    requires
        g.wf(),
        g.is_live(t),
    ensures
        execution_completed_step(g, t, result).result matches Err(fault) ==> {
            ||| visible(execution_completed_step(g, t, result).graph, fault)
            ||| fault == Fault::CompletedInState(g.state(t)) && !(g.state(t) is InProgressLocally)
                && !(g.state(t) is InProgressLocallyOutdated)
        },
{
    let node = g.nodes[t as int];
    lemma_audit_is_visible(g, t);
    if audit(g, t) is Ok && node.state_type is InProgressLocally && node.dirty == 0 {
        let start = g.with_done(t).with_output(t, linked_slot(node.output, result));
        let ids = g.live_parents(t);
        lemma_same_slots(g, start);
        lemma_live_parents(g, t);
        assert forall|i: int| 0 <= i < ids.len() implies start.has(#[trigger] ids[i]) by {
            assert(g.is_live(ids[i]));
        }
        lemma_spreading_is_visible(start, ids);
    }
}

/// What the start of an execution, or connecting a child, reports can be seen, or is that
/// the task does not wait for an execution, that its executions cannot be counted, or that
/// the parent is done and the child is not.
pub proof fn law_other_faults_are_visible(g: Graph, t: TaskId, p: TaskId)
    requires
        g.wf(),
        g.is_live(t),
        g.is_live(p),
        p != t,
    ensures
        execution_started_step(g, t).result matches Err(fault) ==> {
            ||| visible(execution_started_step(g, t).graph, fault)
            ||| fault is ExecutionsOverflow && g.nodes[t as int].executions == u32::MAX
            ||| fault == Fault::StartedInState(g.state(t)) && !(g.state(t) is Scheduled) && !(
            g.state(t) is InProgressLocallyOutdated)
        },
        connect_parent_step(g, t, p).result matches Err(fault) ==> {
            ||| visible(connect_parent_step(g, t, p).graph, fault)
            ||| fault is UnfinishedChildOfDone && g.state(p) is Done && !(g.state(t) is Done)
        },
{
    lemma_audit_is_visible(g, t);
    lemma_audit_is_visible(execution_started_step(g, t).graph, t);
    let after = connect_parent_step(g, t, p).graph;
    assert(after.nodes[p as int].dirty == after.nodes[p as int].dirty);
}

/// An operation that succeeds has checked the tasks concerned: the task that was
/// invalidated, starts or ends an execution and its live parents, a task that hears of a
/// child, and the child that gets connected.
pub proof fn law_success_means_agreement(g: Graph, t: TaskId, result: SlotRef, p: TaskId)
    requires
        g.wf(),
        g.is_live(t),
    ensures
        g.state(t) is Done && make_dirty_step(g, t).result is Ok ==> agreed(
            make_dirty_step(g, t).graph,
            t,
        ),
        g.state(t) is Done && !g.is_root(t) && child_dirty_step(g, t).result is Ok ==> agreed(
            child_dirty_step(g, t).graph,
            t,
        ),
        g.nodes[t as int].dirty > 0 && child_done_step(g, t).result is Ok ==> child_done_step(
            g,
            t,
        ).graph.state_ok(t),
        execution_started_step(g, t).result is Ok ==> agreed(g, t) && agreed(
            execution_started_step(g, t).graph,
            t,
        ),
        execution_completed_step(g, t, result).result is Ok ==> agreed(g, t),
        connect_parent_step(g, t, p).result is Ok ==> g.state_ok(t) && connect_parent_step(
            g,
            t,
            p,
        ).graph.state_ok(t),
{
    law_checks_find_the_first(g, t);
    law_checks_find_the_first(make_dirty_step(g, t).graph, t);
    law_checks_find_the_first(execution_started_step(g, t).graph, t);
    if g.state(t) is Done {
        let start = waiting(g, t);
        let ids = start.live_parents(t);
        let after = child_dirty_step(g, t).graph;
        lemma_same_shape(g, start);
        lemma_live_parents(start, t);
        lemma_tell_dirty(start, ids);
        assert(tell_dirty(start, ids).graph.nodes[t as int].ty == g.nodes[t as int].ty);
        law_checks_find_the_first(after, t);
    }
}

/// News goes to the live parents in their order, and stops at the first fault: where the
/// first of them cannot hear that a task is no longer done, or has become done, that fault
/// is reported and the others hear of nothing.
pub proof fn law_first_fault_is_reported(g: Graph, t: TaskId, result: SlotRef)
    requires
        g.wf(),
        g.is_live(t),
        g.live_parents(t).len() > 0,
    ensures
        g.state(t) is Done ==> {
            let start = g.with_state(
                t,
                if g.is_root(t) {
                    TaskStateType::Scheduled
                } else {
                    TaskStateType::Dirty
                },
            );
            let first = child_dirty_step(start, g.live_parents(t)[0]);
            first.result matches Err(fault) ==> make_dirty_step(g, t).result == Err::<(), Fault>(
                fault,
            ) && make_dirty_step(g, t).graph == first.graph
        },
        agreed(g, t) && g.state(t) is InProgressLocally && g.nodes[t as int].dirty == 0 ==> {
            let start = g.with_done(t).with_output(
                t,
                linked_slot(g.nodes[t as int].output, result),
            );
            let first = child_done_step(start, g.live_parents(t)[0]);
            first.result is Err ==> execution_completed_step(g, t, result) == first
        },
{
    law_checks_find_the_first(g, t);
    if g.state(t) is Done {
        let start = invalidated(g, t);
        lemma_same_shape(g, start);
        lemma_live_parents(start, t);
        assert(start.live_parents(t) == g.live_parents(t));
    }
}

} // verus!
