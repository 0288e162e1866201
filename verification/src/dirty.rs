//! Invalidation: a task that goes out of date, and how its ancestors hear of it.

use crate::fault::{audit, Fault, Step};
use crate::graph::{
    lemma_live_parents, lemma_same_shape, lemma_tally_le, lemma_tally_update, same_shape, tally,
    Graph, TurboTasks,
};
use crate::slot::TaskId;
use crate::task::{Node, Task, TaskStateType, TaskType};
use vstd::prelude::*;

verus! {

/// What happens when task `t` hears that one of its children is no longer done. The
/// answer tells whether `t` wants the child to be brought up to date at once.
///
/// A done task is no longer done itself, so it tells its parents first. It waits for
/// an access unless one of them, or its being a root, asks for progress.
pub open spec fn child_dirty_step(g: Graph, t: TaskId) -> Step<bool>
    decreases tally(g.nodes, TaskStateType::Done), 0nat,
    via child_dirty_step_decreases
{
    let node = g.nodes[t as int];
    match node.state_type {
        TaskStateType::Dirty
        | TaskStateType::Scheduled
        | TaskStateType::InProgressLocallyOutdated => Step { graph: g, result: Ok(false) },
        TaskStateType::InProgressLocally => if node.dirty == usize::MAX {
            Step { graph: g, result: Err(Fault::CountOverflow) }
        } else {
            Step {
                graph: g.with_dirty(t, (node.dirty + 1) as usize).with_state(
                    t,
                    TaskStateType::InProgressLocallyOutdated,
                ),
                result: Ok(false),
            }
        },
        TaskStateType::SomeChildrenDirty => if node.dirty == usize::MAX {
            Step { graph: g, result: Err(Fault::CountOverflow) }
        } else {
            Step { graph: g.with_dirty(t, (node.dirty + 1) as usize), result: Ok(false) }
        },
        TaskStateType::SomeChildrenScheduled => if node.dirty == usize::MAX {
            Step { graph: g, result: Err(Fault::CountOverflow) }
        } else {
            Step { graph: g.with_dirty(t, (node.dirty + 1) as usize), result: Ok(true) }
        },
        TaskStateType::Done => if !g.has(t) {
            Step { graph: g, result: Ok(false) }
        } else {
            let told = tell_dirty(waiting(g, t), waiting(g, t).live_parents(t));
            match told.result {
                Err(fault) => told,
                Ok(wanted) => settled(told.graph, t, wanted),
            }
        },
    }
}

/// The graph in which the formerly done `t` waits for one child.
pub open spec fn waiting(g: Graph, t: TaskId) -> Graph {
    g.with_state(t, TaskStateType::SomeChildrenScheduled).with_dirty(t, 1)
}

/// How `t`, which waits for a child, settles once its parents have been told: a root
/// makes progress, and so does a task whose child is `wanted`.
pub open spec fn settled(g: Graph, t: TaskId, wanted: bool) -> Step<bool> {
    if g.is_root(t) {
        Step { graph: g, result: Ok(true) }
    } else {
        let after = if wanted {
            g
        } else {
            g.with_state(t, TaskStateType::SomeChildrenDirty)
        };
        Step {
            graph: after,
            result: match audit(after, t) {
                Ok(_) => Ok(wanted),
                Err(fault) => Err(fault),
            },
        }
    }
}

/// What happens when each of `ids` in turn hears that a child is no longer done. The
/// answer tells whether any of them wants progress.
pub open spec fn tell_dirty(g: Graph, ids: Seq<TaskId>) -> Step<bool>
    decreases tally(g.nodes, TaskStateType::Done), ids.len(),
    via tell_dirty_decreases
{
    if ids.len() == 0 {
        Step { graph: g, result: Ok(false) }
    } else {
        let first = child_dirty_step(g, ids[0]);
        match first.result {
            Err(fault) => first,
            // Nothing becomes done by hearing of a dirty child.
            Ok(wanted) => if tally(first.graph.nodes, TaskStateType::Done) > tally(
                g.nodes,
                TaskStateType::Done,
            ) {
                arbitrary()
            } else {
                either(wanted, tell_dirty(first.graph, ids.skip(1)))
            },
        }
    }
}

/// `step` with its answer raised to true when `wanted` holds.
pub open spec fn either(wanted: bool, step: Step<bool>) -> Step<bool> {
    Step {
        graph: step.graph,
        result: match step.result {
            Ok(also) => Ok(wanted || also),
            Err(fault) => Err(fault),
        },
    }
}

pub(crate) proof fn lemma_waiting(g: Graph, t: TaskId)
    requires
        g.has(t),
        g.state(t) is Done,
    ensures
        tally(waiting(g, t).nodes, TaskStateType::Done) == tally(g.nodes, TaskStateType::Done) - 1,
        same_shape(g, waiting(g, t)),
{
    let node = g.nodes[t as int];
    let mid = g.with_state(t, TaskStateType::SomeChildrenScheduled);
    lemma_tally_update(
        g.nodes,
        t as int,
        Node { state_type: TaskStateType::SomeChildrenScheduled, ..node },
        TaskStateType::Done,
    );
    lemma_tally_update(
        mid.nodes,
        t as int,
        Node { dirty: 1, ..mid.nodes[t as int] },
        TaskStateType::Done,
    );
}

#[via_fn]
proof fn child_dirty_step_decreases(g: Graph, t: TaskId) {
    if g.has(t) && g.state(t) is Done {
        lemma_waiting(g, t);
    }
}

#[via_fn]
proof fn tell_dirty_decreases(g: Graph, ids: Seq<TaskId>) {
}

/// `b` comes from `a` by telling tasks of dirty children: states and counts may
/// change, no task becomes done, done tasks start to wait, executing tasks go out of
/// date, and all other states stay.
pub open spec fn only_dirtied(a: Graph, b: Graph) -> bool {
    &&& a.nodes.len() == b.nodes.len()
    &&& a.scheduled == b.scheduled
    &&& forall|i: int| 0 <= i < a.nodes.len() ==> {
        &&& #[trigger] b.nodes[i] == (Node {
            state_type: b.nodes[i].state_type,
            dirty: b.nodes[i].dirty,
            ..a.nodes[i]
        })
        &&& dirtied_state(a.nodes[i].state_type, b.nodes[i].state_type)
    }
}

/// The states that a task can move to when it hears of a dirty child.
pub open spec fn dirtied_state(before: TaskStateType, after: TaskStateType) -> bool {
    ||| after == before
    ||| before is Done && (after is SomeChildrenDirty || after is SomeChildrenScheduled)
    ||| before is InProgressLocally && after is InProgressLocallyOutdated
}

pub proof fn lemma_only_dirtied(a: Graph, b: Graph)
    requires
        only_dirtied(a, b),
    ensures
        same_shape(a, b),
        tally(b.nodes, TaskStateType::Done) <= tally(a.nodes, TaskStateType::Done),
        a.wf() ==> b.wf(),
        a.wf() ==> forall|t: TaskId| a.has(t) ==> #[trigger] a.live_parents(t) == b.live_parents(t),
{
    lemma_tally_le(a.nodes, b.nodes, TaskStateType::Done);
    if a.wf() {
        lemma_same_shape(a, b);
    }
}

pub proof fn lemma_child_dirty(g: Graph, t: TaskId)
    requires
        g.wf(),
        g.has(t),
    ensures
        only_dirtied(g, child_dirty_step(g, t).graph),
    decreases tally(g.nodes, TaskStateType::Done), 0nat,
{
    if g.state(t) is Done {
        let start = waiting(g, t);
        lemma_waiting(g, t);
        lemma_same_shape(g, start);
        lemma_live_parents(start, t);
        lemma_tell_dirty(start, start.live_parents(t));
    }
}

pub proof fn lemma_tell_dirty(g: Graph, ids: Seq<TaskId>)
    requires
        g.wf(),
        forall|i: int| 0 <= i < ids.len() ==> g.has(#[trigger] ids[i]),
    ensures
        only_dirtied(g, tell_dirty(g, ids).graph),
    decreases tally(g.nodes, TaskStateType::Done), ids.len(),
{
    if ids.len() > 0 {
        let first = child_dirty_step(g, ids[0]);
        lemma_child_dirty(g, ids[0]);
        lemma_only_dirtied(g, first.graph);
        if first.result is Ok {
            assert forall|i: int| 0 <= i < ids.skip(1).len() implies first.graph.has(
                #[trigger] ids.skip(1)[i],
            ) by {
                assert(g.has(ids[i + 1]));
            }
            lemma_tell_dirty(first.graph, ids.skip(1));
        }
    }
}

impl Task {
    /// Tells `task` that one of its children is no longer done, and answers whether
    /// the child is to be brought up to date at once. Reports what is found wrong on
    /// the way.
    pub fn try_child_dirty(task: TaskId, turbo_tasks: &mut TurboTasks) -> (wanted: Result<
        bool,
        Fault,
    >)
        requires
            old(turbo_tasks)@.wf(),
            old(turbo_tasks)@.is_live(task),
        ensures
            wanted == child_dirty_step(old(turbo_tasks)@, task).result,
            final(turbo_tasks)@ == child_dirty_step(old(turbo_tasks)@, task).graph,
            final(turbo_tasks)@.wf(),
        decreases tally(old(turbo_tasks)@.nodes, TaskStateType::Done), 0nat,
    {
        let ghost before = turbo_tasks@;
        proof {
            lemma_child_dirty(before, task);
            lemma_only_dirtied(before, child_dirty_step(before, task).graph);
        }
        let count: usize = turbo_tasks.tasks[task].state.dirty_children_count;
        match turbo_tasks.tasks[task].state.state_type {
            TaskStateType::Dirty
            | TaskStateType::Scheduled
            | TaskStateType::InProgressLocallyOutdated => Ok(false),
            TaskStateType::InProgressLocally => {
                if count == usize::MAX {
                    return Err(Fault::CountOverflow);
                }
                turbo_tasks.set_dirty(task, count + 1);
                turbo_tasks.set_state(task, TaskStateType::InProgressLocallyOutdated);
                Ok(false)
            },
            TaskStateType::SomeChildrenDirty => {
                if count == usize::MAX {
                    return Err(Fault::CountOverflow);
                }
                turbo_tasks.set_dirty(task, count + 1);
                Ok(false)
            },
            TaskStateType::SomeChildrenScheduled => {
                if count == usize::MAX {
                    return Err(Fault::CountOverflow);
                }
                turbo_tasks.set_dirty(task, count + 1);
                Ok(true)
            },
            TaskStateType::Done => {
                turbo_tasks.set_state(task, TaskStateType::SomeChildrenScheduled);
                turbo_tasks.set_dirty(task, 1);
                proof {
                    lemma_waiting(before, task);
                    lemma_same_shape(before, turbo_tasks@);
                    lemma_live_parents(turbo_tasks@, task);
                }
                let ghost start = turbo_tasks@;
                let parents = turbo_tasks.live_parents(task);
                proof {
                    lemma_tell_dirty(start, parents@);
                    lemma_only_dirtied(start, tell_dirty(start, parents@).graph);
                }
                let wanted: bool = match Task::tell_dirty(&parents, turbo_tasks) {
                    Ok(wanted) => wanted,
                    Err(fault) => {
                        return Err(fault);
                    },
                };
                if let TaskType::Root(_) = turbo_tasks.tasks[task].ty {
                    return Ok(true);
                }
                if !wanted {
                    turbo_tasks.set_state(task, TaskStateType::SomeChildrenDirty);
                }
                match Task::audit(task, turbo_tasks) {
                    Ok(_) => Ok(wanted),
                    Err(fault) => Err(fault),
                }
            },
        }
    }

    /// Tells each of `ids` in turn that one of its children is no longer done, and
    /// answers whether any of them wants progress.
    pub(crate) fn tell_dirty(ids: &Vec<TaskId>, turbo_tasks: &mut TurboTasks) -> (wanted: Result<
        bool,
        Fault,
    >)
        requires
            old(turbo_tasks)@.wf(),
            forall|i: int| 0 <= i < ids@.len() ==> old(turbo_tasks)@.is_live(#[trigger] ids@[i]),
        ensures
            wanted == tell_dirty(old(turbo_tasks)@, ids@).result,
            final(turbo_tasks)@ == tell_dirty(old(turbo_tasks)@, ids@).graph,
            final(turbo_tasks)@.wf(),
        decreases tally(old(turbo_tasks)@.nodes, TaskStateType::Done), 1nat,
    {
        let ghost before = turbo_tasks@;
        let mut wanted: bool = false;
        let mut i: usize = 0;
        assert(ids@.skip(0) =~= ids@);
        while i < ids.len()
            invariant
                before.wf(),
                before == old(turbo_tasks)@,
                turbo_tasks@.wf(),
                only_dirtied(before, turbo_tasks@),
                i <= ids@.len(),
                forall|k: int| 0 <= k < ids@.len() ==> before.is_live(#[trigger] ids@[k]),
                tell_dirty(before, ids@) == either(
                    wanted,
                    tell_dirty(turbo_tasks@, ids@.skip(i as int)),
                ),
                tally(turbo_tasks@.nodes, TaskStateType::Done) <= tally(
                    before.nodes,
                    TaskStateType::Done,
                ),
            decreases ids.len() - i,
        {
            let ghost now = turbo_tasks@;
            let id: TaskId = ids[i];
            proof {
                assert(before.is_live(ids@[i as int]));
                assert(ids@.skip(i as int).skip(1) =~= ids@.skip(i + 1));
                lemma_child_dirty(now, id);
                lemma_only_dirtied(now, child_dirty_step(now, id).graph);
            }
            match Task::try_child_dirty(id, turbo_tasks) {
                Ok(also) => {
                    if also {
                        wanted = true;
                    }
                },
                Err(fault) => {
                    return Err(fault);
                },
            }
            i += 1;
        }
        Ok(wanted)
    }
}

/// What happens when task `t` is invalidated.
///
/// A done task tells its parents. It is scheduled if it is a root or if a parent wants
/// progress; else it stays dirty until it is accessed. An executing task will execute
/// again, and a task that waits to execute already has nothing to do.
pub open spec fn make_dirty_step(g: Graph, t: TaskId) -> Step<()> {
    match g.state(t) {
        TaskStateType::Dirty
        | TaskStateType::Scheduled
        | TaskStateType::InProgressLocallyOutdated => Step { graph: g, result: Ok(()) },
        TaskStateType::SomeChildrenDirty => Step {
            graph: if g.is_root(t) {
                g.with_state(t, TaskStateType::Scheduled).with_scheduled(t)
            } else {
                g.with_state(t, TaskStateType::Dirty)
            },
            result: Ok(()),
        },
        TaskStateType::InProgressLocally => Step {
            graph: g.with_state(t, TaskStateType::InProgressLocallyOutdated),
            result: Ok(()),
        },
        TaskStateType::SomeChildrenScheduled => Step {
            graph: g.with_state(t, TaskStateType::Scheduled).with_scheduled(t),
            result: Ok(()),
        },
        TaskStateType::Done => {
            let start = invalidated(g, t);
            let told = tell_dirty(start, start.live_parents(t));
            match told.result {
                Err(fault) => Step { graph: told.graph, result: Err(fault) },
                Ok(wanted) => {
                    let after = rescheduled(told.graph, t, wanted);
                    Step { graph: after, result: audit(after, t) }
                },
            }
        },
    }
}

/// The graph in which the formerly done `t` is out of date.
pub open spec fn invalidated(g: Graph, t: TaskId) -> Graph {
    g.with_state(
        t,
        if g.is_root(t) {
            TaskStateType::Scheduled
        } else {
            TaskStateType::Dirty
        },
    )
}

/// How the invalidated `t` goes on once its parents have been told.
pub open spec fn rescheduled(g: Graph, t: TaskId, wanted: bool) -> Graph {
    if g.is_root(t) {
        g.with_scheduled(t)
    } else if wanted {
        g.with_state(t, TaskStateType::Scheduled).with_scheduled(t)
    } else {
        g
    }
}

impl Task {
    /// Invalidates `task` and reports what is found wrong on the way.
    pub fn try_make_dirty(task: TaskId, turbo_tasks: &mut TurboTasks) -> (result: Result<
        (),
        Fault,
    >)
        requires
            old(turbo_tasks)@.wf(),
            old(turbo_tasks)@.is_live(task),
        ensures
            result == make_dirty_step(old(turbo_tasks)@, task).result,
            final(turbo_tasks)@ == make_dirty_step(old(turbo_tasks)@, task).graph,
            final(turbo_tasks)@.wf(),
    {
        let ghost before = turbo_tasks@;
        let is_root: bool = match turbo_tasks.tasks[task].ty {
            TaskType::Root(_) => true,
            _ => false,
        };
        match turbo_tasks.tasks[task].state.state_type {
            TaskStateType::Dirty
            | TaskStateType::Scheduled
            | TaskStateType::InProgressLocallyOutdated => Ok(()),
            TaskStateType::SomeChildrenDirty => {
                if is_root {
                    turbo_tasks.set_state(task, TaskStateType::Scheduled);
                    turbo_tasks.schedule(task);
                } else {
                    turbo_tasks.set_state(task, TaskStateType::Dirty);
                }
                proof {
                    lemma_same_shape(before, turbo_tasks@);
                }
                Ok(())
            },
            TaskStateType::InProgressLocally => {
                turbo_tasks.set_state(task, TaskStateType::InProgressLocallyOutdated);
                proof {
                    lemma_same_shape(before, turbo_tasks@);
                }
                Ok(())
            },
            TaskStateType::SomeChildrenScheduled => {
                turbo_tasks.set_state(task, TaskStateType::Scheduled);
                turbo_tasks.schedule(task);
                proof {
                    lemma_same_shape(before, turbo_tasks@);
                }
                Ok(())
            },
            TaskStateType::Done => {
                if is_root {
                    turbo_tasks.set_state(task, TaskStateType::Scheduled);
                } else {
                    turbo_tasks.set_state(task, TaskStateType::Dirty);
                }
                let ghost start = turbo_tasks@;
                proof {
                    lemma_same_shape(before, start);
                    lemma_live_parents(start, task);
                }
                let parents = turbo_tasks.live_parents(task);
                proof {
                    lemma_tell_dirty(start, parents@);
                    lemma_only_dirtied(start, tell_dirty(start, parents@).graph);
                }
                let wanted: bool = match Task::tell_dirty(&parents, turbo_tasks) {
                    Ok(wanted) => wanted,
                    Err(fault) => {
                        return Err(fault);
                    },
                };
                let ghost told = turbo_tasks@;
                if is_root {
                    turbo_tasks.schedule(task);
                } else if wanted {
                    turbo_tasks.set_state(task, TaskStateType::Scheduled);
                    turbo_tasks.schedule(task);
                }
                proof {
                    lemma_same_shape(told, turbo_tasks@);
                }
                Task::audit(task, turbo_tasks)
            },
        }
    }

    /// Tells `task` that one of its children is no longer done, and answers whether
    /// the child is to be brought up to date at once.
    #[must_use]
    pub fn child_dirty(task: TaskId, turbo_tasks: &mut TurboTasks) -> (wanted: bool)
        requires
            old(turbo_tasks)@.wf(),
            old(turbo_tasks)@.is_live(task),
            child_dirty_step(old(turbo_tasks)@, task).result is Ok,
        ensures
            child_dirty_step(old(turbo_tasks)@, task).result == Ok::<bool, Fault>(wanted),
            final(turbo_tasks)@ == child_dirty_step(old(turbo_tasks)@, task).graph,
            final(turbo_tasks)@.wf(),
    {
        match Task::try_child_dirty(task, turbo_tasks) {
            Ok(wanted) => wanted,
            Err(_) => false,
        }
    }

    /// Invalidates `task`.
    pub fn make_dirty(task: TaskId, turbo_tasks: &mut TurboTasks)
        requires
            old(turbo_tasks)@.wf(),
            old(turbo_tasks)@.is_live(task),
            make_dirty_step(old(turbo_tasks)@, task).result is Ok,
        ensures
            final(turbo_tasks)@ == make_dirty_step(old(turbo_tasks)@, task).graph,
            final(turbo_tasks)@.wf(),
    {
        let _ = Task::try_make_dirty(task, turbo_tasks);
    }

    /// Invalidates `task` because a slot that it has read was updated.
    pub fn dependent_slot_updated(task: TaskId, turbo_tasks: &mut TurboTasks)
        requires
            old(turbo_tasks)@.wf(),
            old(turbo_tasks)@.is_live(task),
            make_dirty_step(old(turbo_tasks)@, task).result is Ok,
        ensures
            final(turbo_tasks)@ == make_dirty_step(old(turbo_tasks)@, task).graph,
            final(turbo_tasks)@.wf(),
    {
        Task::make_dirty(task, turbo_tasks)
    }

    /// Invalidates `task` on request.
    pub fn invaldate(task: TaskId, turbo_tasks: &mut TurboTasks)
        requires
            old(turbo_tasks)@.wf(),
            old(turbo_tasks)@.is_live(task),
            make_dirty_step(old(turbo_tasks)@, task).result is Ok,
        ensures
            final(turbo_tasks)@ == make_dirty_step(old(turbo_tasks)@, task).graph,
            final(turbo_tasks)@.wf(),
    {
        Task::make_dirty(task, turbo_tasks)
    }
}

} // verus!
