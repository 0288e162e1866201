//! Completion: a task that has become done, and how its ancestors hear of it.

use crate::fault::{Fault, Step};
use crate::graph::{
    lemma_live_parents, lemma_same_shape, lemma_tally_le, lemma_tally_update, same_shape, tally,
    Graph, TurboTasks,
};
use crate::slot::TaskId;
use crate::task::{Node, Task, TaskStateType};
use vstd::prelude::*;

verus! {

/// How many tasks wait for their children.
pub open spec fn waiting_tasks(g: Graph) -> nat {
    tally(g.nodes, TaskStateType::SomeChildrenDirty) + tally(
        g.nodes,
        TaskStateType::SomeChildrenScheduled,
    )
}

/// What happens when task `t` hears that one of its children has become done.
///
/// A task that has waited for the last of its children is done then, notifies its
/// listeners and tells its parents. A task that went out of date while it executes has
/// not counted the children that it heard of since, so that its count may be zero.
pub open spec fn child_done_step(g: Graph, t: TaskId) -> Step<()>
    decreases waiting_tasks(g), 0nat,
    via child_done_step_decreases
{
    let node = g.nodes[t as int];
    if node.dirty == 0 && node.state_type is InProgressLocallyOutdated {
        Step { graph: g, result: Ok(()) }
    } else if node.dirty == 0 {
        Step { graph: g, result: Err(Fault::CountUnderflow) }
    } else {
        let counted = g.with_dirty(t, (node.dirty - 1) as usize);
        match node.state_type {
            TaskStateType::SomeChildrenDirty | TaskStateType::SomeChildrenScheduled => {
                if node.dirty == 1 && g.has(t) {
                    let told = tell_done(counted.with_done(t), counted.live_parents(t));
                    match told.result {
                        Err(fault) => told,
                        Ok(_) => checked(told.graph, t),
                    }
                } else {
                    checked(counted, t)
                }
            },
            TaskStateType::InProgressLocally
            | TaskStateType::Dirty
            | TaskStateType::InProgressLocallyOutdated
            | TaskStateType::Scheduled => checked(counted, t),
            TaskStateType::Done => Step {
                graph: counted,
                result: Err(Fault::ChildDoneWhileDone),
            },
        }
    }
}

/// `g`, if the state of `t` agrees in it with those of its children.
pub open spec fn checked(g: Graph, t: TaskId) -> Step<()> {
    Step {
        graph: g,
        result: if g.state_ok(t) {
            Ok(())
        } else {
            Err(Fault::StateMismatch(t))
        },
    }
}

/// What happens when each of `ids` in turn hears that a child has become done.
pub open spec fn tell_done(g: Graph, ids: Seq<TaskId>) -> Step<()>
    decreases waiting_tasks(g), ids.len(),
    via tell_done_decreases
{
    if ids.len() == 0 {
        Step { graph: g, result: Ok(()) }
    } else {
        let first = child_done_step(g, ids[0]);
        match first.result {
            Err(fault) => first,
            // Nothing starts to wait by hearing of a finished child.
            Ok(_) => if waiting_tasks(first.graph) > waiting_tasks(g) {
                arbitrary()
            } else {
                tell_done(first.graph, ids.skip(1))
            },
        }
    }
}

pub(crate) proof fn lemma_completed(g: Graph, t: TaskId)
    requires
        g.has(t),
        g.state(t) is SomeChildrenDirty || g.state(t) is SomeChildrenScheduled,
        g.nodes[t as int].dirty > 0,
    ensures
        ({
            let counted = g.with_dirty(t, (g.nodes[t as int].dirty - 1) as usize);
            &&& waiting_tasks(counted.with_done(t)) < waiting_tasks(g)
            &&& same_shape(g, counted)
            &&& same_shape(g, counted.with_done(t))
        }),
{
    let node = g.nodes[t as int];
    let less = Node { dirty: (node.dirty - 1) as usize, ..node };
    let counted = g.with_node(t, less);
    let finished = Node {
        state_type: TaskStateType::Done,
        notified: less.notified.push(usize::MAX),
        ..less
    };
    lemma_tally_update(g.nodes, t as int, less, TaskStateType::SomeChildrenDirty);
    lemma_tally_update(g.nodes, t as int, less, TaskStateType::SomeChildrenScheduled);
    lemma_tally_update(counted.nodes, t as int, finished, TaskStateType::SomeChildrenDirty);
    lemma_tally_update(counted.nodes, t as int, finished, TaskStateType::SomeChildrenScheduled);
}

#[via_fn]
proof fn child_done_step_decreases(g: Graph, t: TaskId) {
    if g.has(t) && g.nodes[t as int].dirty > 0 && (g.state(t) is SomeChildrenDirty || g.state(
        t,
    ) is SomeChildrenScheduled) {
        lemma_completed(g, t);
    }
}

#[via_fn]
proof fn tell_done_decreases(g: Graph, ids: Seq<TaskId>) {
}

/// `b` comes from `a` by telling tasks of finished children: counts may change, and
/// tasks that waited for children may be done, which notifies their listeners once.
pub open spec fn only_finished(a: Graph, b: Graph) -> bool {
    &&& a.nodes.len() == b.nodes.len()
    &&& a.scheduled == b.scheduled
    &&& forall|i: int| 0 <= i < a.nodes.len() ==> {
        &&& #[trigger] b.nodes[i] == (Node {
            state_type: b.nodes[i].state_type,
            dirty: b.nodes[i].dirty,
            notified: b.nodes[i].notified,
            ..a.nodes[i]
        })
        &&& if b.nodes[i].state_type == a.nodes[i].state_type {
            b.nodes[i].notified == a.nodes[i].notified
        } else {
            &&& a.nodes[i].state_type is SomeChildrenDirty
                || a.nodes[i].state_type is SomeChildrenScheduled
            &&& b.nodes[i].state_type is Done
            &&& b.nodes[i].notified == a.nodes[i].notified.push(usize::MAX)
        }
    }
}

pub proof fn lemma_only_finished(a: Graph, b: Graph)
    requires
        only_finished(a, b),
    ensures
        same_shape(a, b),
        waiting_tasks(b) <= waiting_tasks(a),
        a.wf() ==> b.wf(),
        a.wf() ==> forall|t: TaskId| a.has(t) ==> #[trigger] a.live_parents(t) == b.live_parents(t),
{
    lemma_tally_le(a.nodes, b.nodes, TaskStateType::SomeChildrenDirty);
    lemma_tally_le(a.nodes, b.nodes, TaskStateType::SomeChildrenScheduled);
    if a.wf() {
        lemma_same_shape(a, b);
    }
}

pub proof fn lemma_child_done(g: Graph, t: TaskId)
    requires
        g.wf(),
        g.has(t),
    ensures
        only_finished(g, child_done_step(g, t).graph),
    decreases waiting_tasks(g), 0nat,
{
    let node = g.nodes[t as int];
    if node.dirty == 1 && (node.state_type is SomeChildrenDirty
        || node.state_type is SomeChildrenScheduled) {
        let counted = g.with_dirty(t, (node.dirty - 1) as usize);
        let start = counted.with_done(t);
        lemma_completed(g, t);
        lemma_same_shape(g, start);
        lemma_same_shape(g, counted);
        lemma_live_parents(counted, t);
        lemma_tell_done(start, counted.live_parents(t));
    }
}

pub proof fn lemma_tell_done(g: Graph, ids: Seq<TaskId>)
    requires
        g.wf(),
        forall|i: int| 0 <= i < ids.len() ==> g.has(#[trigger] ids[i]),
    ensures
        only_finished(g, tell_done(g, ids).graph),
    decreases waiting_tasks(g), ids.len(),
{
    if ids.len() > 0 {
        let first = child_done_step(g, ids[0]);
        lemma_child_done(g, ids[0]);
        lemma_only_finished(g, first.graph);
        if first.result is Ok {
            assert forall|i: int| 0 <= i < ids.skip(1).len() implies first.graph.has(
                #[trigger] ids.skip(1)[i],
            ) by {
                assert(g.has(ids[i + 1]));
            }
            lemma_tell_done(first.graph, ids.skip(1));
        }
    }
}

impl Task {
    /// Tells `task` that one of its children has become done. Reports what is found
    /// wrong on the way.
    pub fn try_child_done(task: TaskId, turbo_tasks: &mut TurboTasks) -> (result: Result<
        (),
        Fault,
    >)
        requires
            old(turbo_tasks)@.wf(),
            old(turbo_tasks)@.is_live(task),
        ensures
            result == child_done_step(old(turbo_tasks)@, task).result,
            final(turbo_tasks)@ == child_done_step(old(turbo_tasks)@, task).graph,
            final(turbo_tasks)@.wf(),
        decreases waiting_tasks(old(turbo_tasks)@), 0nat,
    {
        let ghost before = turbo_tasks@;
        proof {
            lemma_child_done(before, task);
            lemma_only_finished(before, child_done_step(before, task).graph);
        }
        let count: usize = turbo_tasks.tasks[task].state.dirty_children_count;
        if count == 0 {
            return if turbo_tasks.tasks[task].state.state_type
                == TaskStateType::InProgressLocallyOutdated {
                Ok(())
            } else {
                Err(Fault::CountUnderflow)
            };
        }
        turbo_tasks.set_dirty(task, count - 1);
        let ghost counted = turbo_tasks@;
        proof {
            lemma_same_shape(before, counted);
        }
        match turbo_tasks.tasks[task].state.state_type {
            TaskStateType::SomeChildrenDirty | TaskStateType::SomeChildrenScheduled => {
                if count == 1 {
                    let parents = turbo_tasks.live_parents(task);
                    turbo_tasks.set_done(task);
                    let ghost start = turbo_tasks@;
                    proof {
                        lemma_completed(before, task);
                        lemma_same_shape(before, start);
                        lemma_live_parents(counted, task);
                        assert forall|i: int| 0 <= i < parents@.len() implies start.is_live(
                            #[trigger] parents@[i],
                        ) by {
                            assert(counted.is_live(parents@[i]));
                        }
                    }
                    if let Err(fault) = Task::tell_done(&parents, turbo_tasks) {
                        return Err(fault);
                    }
                }
            },
            TaskStateType::InProgressLocally
            | TaskStateType::Dirty
            | TaskStateType::InProgressLocallyOutdated
            | TaskStateType::Scheduled => {},
            TaskStateType::Done => {
                return Err(Fault::ChildDoneWhileDone);
            },
        }
        if Task::assert_state(task, turbo_tasks) {
            Ok(())
        } else {
            Err(Fault::StateMismatch(task))
        }
    }

    /// Tells each of `ids` in turn that one of its children has become done.
    pub(crate) fn tell_done(ids: &Vec<TaskId>, turbo_tasks: &mut TurboTasks) -> (result: Result<
        (),
        Fault,
    >)
        requires
            old(turbo_tasks)@.wf(),
            forall|i: int| 0 <= i < ids@.len() ==> old(turbo_tasks)@.is_live(#[trigger] ids@[i]),
        ensures
            result == tell_done(old(turbo_tasks)@, ids@).result,
            final(turbo_tasks)@ == tell_done(old(turbo_tasks)@, ids@).graph,
            final(turbo_tasks)@.wf(),
            only_finished(old(turbo_tasks)@, final(turbo_tasks)@),
        decreases waiting_tasks(old(turbo_tasks)@), 1nat,
    {
        let ghost before = turbo_tasks@;
        let mut i: usize = 0;
        assert(ids@.skip(0) =~= ids@);
        while i < ids.len()
            invariant
                before.wf(),
                before == old(turbo_tasks)@,
                turbo_tasks@.wf(),
                only_finished(before, turbo_tasks@),
                i <= ids@.len(),
                forall|k: int| 0 <= k < ids@.len() ==> before.is_live(#[trigger] ids@[k]),
                tell_done(before, ids@) == tell_done(turbo_tasks@, ids@.skip(i as int)),
                waiting_tasks(turbo_tasks@) <= waiting_tasks(before),
            decreases ids.len() - i,
        {
            let ghost now = turbo_tasks@;
            let id: TaskId = ids[i];
            proof {
                assert(before.is_live(ids@[i as int]));
                assert(ids@.skip(i as int).skip(1) =~= ids@.skip(i + 1));
                lemma_child_done(now, id);
                lemma_only_finished(now, child_done_step(now, id).graph);
            }
            if let Err(fault) = Task::try_child_done(id, turbo_tasks) {
                return Err(fault);
            }
            i += 1;
        }
        Ok(())
    }

    /// Tells `task` that one of its children has become done.
    pub fn child_done(task: TaskId, turbo_tasks: &mut TurboTasks)
        requires
            old(turbo_tasks)@.wf(),
            old(turbo_tasks)@.is_live(task),
            child_done_step(old(turbo_tasks)@, task).result is Ok,
        ensures
            final(turbo_tasks)@ == child_done_step(old(turbo_tasks)@, task).graph,
            final(turbo_tasks)@.wf(),
    {
        let _ = Task::try_child_done(task, turbo_tasks);
    }
}

} // verus!
