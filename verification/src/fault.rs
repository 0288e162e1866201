//! What can be found wrong with a request or with the graph, and the checks that
//! find it.

use crate::graph::{unfinished, Graph, TurboTasks};
use crate::slot::TaskId;
use crate::task::{Task, TaskStateType};
use vstd::prelude::*;

verus! {

/// Why a task operation cannot go on.
#[derive(Clone, Copy, Debug, PartialEq, Eq, Structural)]
pub enum Fault {
    /// Execution started in a state in which the task does not wait for it.
    StartedInState(TaskStateType),
    /// Execution completed in a state in which the task does not execute.
    CompletedInState(TaskStateType),
    /// A child has become done while its parent was done already.
    ChildDoneWhileDone,
    /// A child that is not done was to be attached to a parent that is.
    UnfinishedChildOfDone,
    /// The count of dirty children would exceed the largest number.
    CountOverflow,
    /// The count of dirty children would fall below zero.
    CountUnderflow,
    /// The number of executions would exceed the largest number.
    ExecutionsOverflow,
    /// The state of a task, which is named, does not agree with the states of its
    /// children.
    StateMismatch(TaskId),
}

/// The graph that an operation leaves behind, and what it returns. After a fault the
/// graph is left as it was when the fault was found.
#[verifier::ext_equal]
pub struct Step<T> {
    pub graph: Graph,
    pub result: Result<T, Fault>,
}

/// The first of `ids` whose state disagrees with its children's, if there is one.
pub open spec fn first_mismatch(g: Graph, ids: Seq<TaskId>) -> Option<TaskId>
    decreases ids.len(),
{
    if ids.len() == 0 {
        None
    } else if !g.state_ok(ids[0]) {
        Some(ids[0])
    } else {
        first_mismatch(g, ids.skip(1))
    }
}

/// Whether task `t`, and after it each of its live parents, agrees with its children.
pub open spec fn audit(g: Graph, t: TaskId) -> Result<(), Fault> {
    match first_mismatch(g, seq![t] + g.live_parents(t)) {
        Some(id) => Err(Fault::StateMismatch(id)),
        None => Ok(()),
    }
}

/// `first_mismatch` finds nothing exactly when all agree with their children.
pub proof fn lemma_first_mismatch(g: Graph, ids: Seq<TaskId>)
    ensures
        first_mismatch(g, ids) is None <==> forall|i: int|
            0 <= i < ids.len() ==> g.state_ok(#[trigger] ids[i]),
    decreases ids.len(),
{
    if ids.len() > 0 {
        let rest = ids.skip(1);
        lemma_first_mismatch(g, rest);
        if g.state_ok(ids[0]) {
            if first_mismatch(g, rest) is None {
                assert forall|i: int| 0 <= i < ids.len() implies g.state_ok(#[trigger] ids[i]) by {
                    if i > 0 {
                        assert(ids[i] == rest[i - 1]);
                    }
                }
            } else {
                let k = choose|k: int| 0 <= k < rest.len() && !g.state_ok(#[trigger] rest[k]);
                assert(ids[k + 1] == rest[k]);
            }
        }
    }
}

proof fn lemma_unfinished_take(g: Graph, ids: Seq<TaskId>, i: int)
    requires
        0 <= i < ids.len(),
    ensures
        unfinished(g.nodes, ids.take(i + 1)) == unfinished(g.nodes, ids.take(i)) + (if g.state(
            ids[i],
        ) is Done {
            0nat
        } else {
            1nat
        }),
{
    assert(ids.take(i + 1).drop_last() =~= ids.take(i));
}

impl Task {
    /// Tells whether the state of `task` agrees with the states of its children: those
    /// of a done task are done, and a task with dirty children has counted them.
    pub fn assert_state(task: TaskId, turbo_tasks: &TurboTasks) -> (ok: bool)
        requires
            turbo_tasks@.wf(),
            turbo_tasks@.has(task),
        ensures
            ok == turbo_tasks@.state_ok(task),
    {
        let ghost g = turbo_tasks@;
        let ghost children = g.nodes[task as int].children;
        assert(g.node_wf(task));
        match turbo_tasks.tasks[task].state.state_type {
            TaskStateType::Done => {
                let mut i: usize = 0;
                while i < turbo_tasks.tasks[task].state.children.len()
                    invariant
                        g == turbo_tasks@,
                        g.has(task),
                        g.node_wf(task),
                        g.state(task) is Done,
                        children == g.nodes[task as int].children,
                        i <= children.len(),
                        forall|j: int| 0 <= j < i ==> g.state(#[trigger] children[j]) is Done,
                    decreases children.len() - i,
                {
                    let child: TaskId = turbo_tasks.tasks[task].state.children[i];
                    assert(child == children[i as int]);
                    assert(g.has(children[i as int]));
                    if turbo_tasks.tasks[child].state.state_type != TaskStateType::Done {
                        assert(!(g.state(children[i as int]) is Done));
                        return false;
                    }
                    i += 1;
                }
                true
            },
            TaskStateType::SomeChildrenDirty => {
                let mut count: usize = 0;
                let mut i: usize = 0;
                while i < turbo_tasks.tasks[task].state.children.len()
                    invariant
                        g == turbo_tasks@,
                        g.has(task),
                        g.node_wf(task),
                        children == g.nodes[task as int].children,
                        i <= children.len(),
                        count <= i,
                        count == unfinished(g.nodes, children.take(i as int)),
                    decreases children.len() - i,
                {
                    let child: TaskId = turbo_tasks.tasks[task].state.children[i];
                    proof {
                        assert(child == children[i as int]);
                        assert(g.has(children[i as int]));
                        lemma_unfinished_take(g, children, i as int);
                    }
                    match turbo_tasks.tasks[child].state.state_type {
                        TaskStateType::Done => {},
                        _ => {
                            count += 1;
                        },
                    }
                    i += 1;
                }
                assert(children.take(children.len() as int) =~= children);
                count == turbo_tasks.tasks[task].state.dirty_children_count
            },
            _ => true,
        }
    }

    /// Checks the state of `task` and then those of its live parents.
    pub(crate) fn audit(task: TaskId, turbo_tasks: &TurboTasks) -> (verdict: Result<(), Fault>)
        requires
            turbo_tasks@.wf(),
            turbo_tasks@.has(task),
        ensures
            verdict == audit(turbo_tasks@, task),
    {
        let ghost g = turbo_tasks@;
        let parents = turbo_tasks.live_parents(task);
        let ghost ids = seq![task] + parents@;
        proof {
            crate::graph::lemma_live_parents(g, task);
            assert(ids.skip(1) =~= parents@);
            assert(parents@.skip(0) =~= parents@);
        }
        if !Task::assert_state(task, turbo_tasks) {
            return Err(Fault::StateMismatch(task));
        }
        let mut i: usize = 0;
        while i < parents.len()
            invariant
                g == turbo_tasks@,
                g.wf(),
                i <= parents@.len(),
                parents@ == g.live_parents(task),
                ids == seq![task] + parents@,
                forall|k: int| 0 <= k < parents@.len() ==> g.is_live(#[trigger] parents@[k]),
                first_mismatch(g, ids) == first_mismatch(g, parents@.skip(i as int)),
            decreases parents.len() - i,
        {
            assert(parents@.skip(i as int).skip(1) =~= parents@.skip(i + 1));
            assert(g.is_live(parents@[i as int]));
            if !Task::assert_state(parents[i], turbo_tasks) {
                return Err(Fault::StateMismatch(parents[i]));
            }
            i += 1;
        }
        Ok(())
    }
}

} // verus!
