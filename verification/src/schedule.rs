//! Access: bringing a task that is out of date up to date again.

use crate::access::accepts_slot;
use crate::event::event_listen;
use crate::graph::{
    lemma_same_shape, lemma_tally_le, lemma_tally_update, same_shape, tally, Graph, TurboTasks,
};
use crate::slot::{Slot, TaskId};
use crate::task::{Node, Task, TaskStateType};
use event_listener::EventListener;
use vstd::prelude::*;

verus! {

/// What happens when task `t` is asked to make progress: a dirty task is scheduled,
/// and a task with dirty children passes the request on to them and waits for them.
pub open spec fn schedule_step(g: Graph, t: TaskId) -> Graph
    decreases tally(g.nodes, TaskStateType::SomeChildrenDirty), 0nat,
    via schedule_step_decreases
{
    match g.state(t) {
        TaskStateType::Dirty => g.with_state(t, TaskStateType::Scheduled).with_scheduled(t),
        TaskStateType::SomeChildrenDirty => if g.has(t) {
            schedule_all(
                g.with_state(t, TaskStateType::SomeChildrenScheduled),
                g.nodes[t as int].children,
            )
        } else {
            g
        },
        _ => g,
    }
}

/// What happens when each of `ids` in turn is asked to make progress.
pub open spec fn schedule_all(g: Graph, ids: Seq<TaskId>) -> Graph
    decreases tally(g.nodes, TaskStateType::SomeChildrenDirty), ids.len(),
    via schedule_all_decreases
{
    if ids.len() == 0 {
        g
    } else {
        let first = schedule_step(g, ids[0]);
        // No task gets dirty children by being asked to make progress.
        if tally(first.nodes, TaskStateType::SomeChildrenDirty) > tally(
            g.nodes,
            TaskStateType::SomeChildrenDirty,
        ) {
            arbitrary()
        } else {
            schedule_all(first, ids.skip(1))
        }
    }
}

pub(crate) proof fn lemma_asked(g: Graph, t: TaskId)
    requires
        g.has(t),
        g.state(t) is SomeChildrenDirty,
    ensures
        tally(
            g.with_state(t, TaskStateType::SomeChildrenScheduled).nodes,
            TaskStateType::SomeChildrenDirty,
        ) == tally(g.nodes, TaskStateType::SomeChildrenDirty) - 1,
        same_shape(g, g.with_state(t, TaskStateType::SomeChildrenScheduled)),
{
    lemma_tally_update(
        g.nodes,
        t as int,
        Node { state_type: TaskStateType::SomeChildrenScheduled, ..g.nodes[t as int] },
        TaskStateType::SomeChildrenDirty,
    );
}

#[via_fn]
proof fn schedule_step_decreases(g: Graph, t: TaskId) {
    if g.has(t) && g.state(t) is SomeChildrenDirty {
        lemma_asked(g, t);
    }
}

#[via_fn]
proof fn schedule_all_decreases(g: Graph, ids: Seq<TaskId>) {
}

/// The states that a task can move to when it is asked to make progress.
pub open spec fn asked_state(before: TaskStateType, after: TaskStateType) -> bool {
    ||| after == before
    ||| before is Dirty && after is Scheduled
    ||| before is SomeChildrenDirty && after is SomeChildrenScheduled
}

/// `b` comes from `a` by asking tasks to make progress: dirty tasks may be scheduled,
/// tasks with dirty children may start to wait for them, and nothing else about a task
/// changes. The queue is extended by exactly the tasks that were scheduled, each once.
pub open spec fn only_asked(a: Graph, b: Graph) -> bool {
    &&& a.nodes.len() == b.nodes.len()
    &&& forall|i: int| 0 <= i < a.nodes.len() ==> {
        &&& #[trigger] b.nodes[i] == (Node {
            state_type: b.nodes[i].state_type,
            ..a.nodes[i]
        })
        &&& asked_state(a.nodes[i].state_type, b.nodes[i].state_type)
    }
    &&& a.scheduled.len() <= b.scheduled.len()
    &&& b.scheduled.take(a.scheduled.len() as int) == a.scheduled
    &&& b.scheduled.skip(a.scheduled.len() as int).no_duplicates()
    &&& forall|t: TaskId| #[trigger]
        b.scheduled.skip(a.scheduled.len() as int).contains(t) <==> a.has(t) && a.state(
            t,
        ) is Dirty && b.state(t) is Scheduled
}

proof fn lemma_asked_trans(a: Graph, b: Graph, c: Graph)
    requires
        only_asked(a, b),
        only_asked(b, c),
    ensures
        only_asked(a, c),
{
    let n = a.scheduled.len() as int;
    let m = b.scheduled.len() as int;
    let first = b.scheduled.skip(n);
    let second = c.scheduled.skip(m);
    let all = c.scheduled.skip(n);
    assert(c.scheduled.take(n) =~= b.scheduled.take(n)) by {
        assert forall|i: int| 0 <= i < n implies c.scheduled.take(n)[i] == b.scheduled.take(
            n,
        )[i] by {
            assert(c.scheduled.take(m)[i] == b.scheduled[i]);
        }
    }
    assert(all =~= first + second) by {
        assert forall|i: int| 0 <= i < m - n implies all[i] == first[i] by {
            assert(c.scheduled.take(m)[n + i] == b.scheduled[n + i]);
        }
    }
    assert forall|t: TaskId| #[trigger]
        all.contains(t) <==> a.has(t) && a.state(t) is Dirty && c.state(t) is Scheduled by {
        if all.contains(t) {
            let k = choose|k: int| 0 <= k < all.len() && all[k] == t;
            if k < first.len() {
                assert(first[k] == t);
                assert(first.contains(t));
            } else {
                assert(second[k - first.len()] == t);
                assert(second.contains(t));
            }
            assert(b.nodes[t as int].state_type == b.state(t));
            assert(c.nodes[t as int].state_type == c.state(t));
        }
        if a.has(t) && a.state(t) is Dirty && c.state(t) is Scheduled {
            assert(b.nodes[t as int].state_type == b.state(t));
            if b.state(t) is Scheduled {
                assert(first.contains(t));
                let k = choose|k: int| 0 <= k < first.len() && first[k] == t;
                assert(all[k] == t);
            } else {
                assert(second.contains(t));
                let k = choose|k: int| 0 <= k < second.len() && second[k] == t;
                assert(all[first.len() + k] == t);
            }
        }
    }
    assert forall|i: int, j: int| 0 <= i < all.len() && 0 <= j < all.len() && i != j implies all[i]
        != all[j] by {
        if i < first.len() && j < first.len() {
            assert(all[i] == first[i] && all[j] == first[j]);
        } else if i >= first.len() && j >= first.len() {
            assert(all[i] == second[i - first.len()] && all[j] == second[j - first.len()]);
        } else {
            let (x, y) = if i < first.len() {
                (i, j - first.len())
            } else {
                (j, i - first.len())
            };
            assert(first.contains(first[x]));
            assert(second.contains(second[y]));
        }
    }
    assert forall|i: int| 0 <= i < a.nodes.len() implies {
        &&& #[trigger] c.nodes[i] == (Node { state_type: c.nodes[i].state_type, ..a.nodes[i] })
        &&& asked_state(a.nodes[i].state_type, c.nodes[i].state_type)
    } by {
        assert(b.nodes[i] == (Node { state_type: b.nodes[i].state_type, ..a.nodes[i] }));
    }
}

pub proof fn lemma_only_asked(a: Graph, b: Graph)
    requires
        only_asked(a, b),
    ensures
        same_shape(a, b),
        tally(b.nodes, TaskStateType::SomeChildrenDirty) <= tally(
            a.nodes,
            TaskStateType::SomeChildrenDirty,
        ),
        a.wf() ==> b.wf(),
{
    lemma_tally_le(a.nodes, b.nodes, TaskStateType::SomeChildrenDirty);
    if a.wf() {
        lemma_same_shape(a, b);
    }
}

proof fn lemma_asked_refl(g: Graph)
    ensures
        only_asked(g, g),
{
    let n = g.scheduled.len() as int;
    assert(g.scheduled.take(n) =~= g.scheduled);
    assert(g.scheduled.skip(n) =~= Seq::empty());
}

pub proof fn lemma_schedule(g: Graph, t: TaskId)
    requires
        g.wf(),
        g.has(t),
    ensures
        only_asked(g, schedule_step(g, t)),
    decreases tally(g.nodes, TaskStateType::SomeChildrenDirty), 0nat,
{
    lemma_asked_refl(g);
    match g.state(t) {
        TaskStateType::Dirty => {
            let after = schedule_step(g, t);
            let n = g.scheduled.len() as int;
            assert(after.scheduled.take(n) =~= g.scheduled);
            assert(after.scheduled.skip(n) =~= seq![t]);
            assert forall|x: TaskId| #[trigger]
                after.scheduled.skip(n).contains(x) <==> g.has(x) && g.state(x) is Dirty
                    && after.state(x) is Scheduled by {
                assert(seq![t][0] == t);
            }
        },
        TaskStateType::SomeChildrenDirty => {
            let start = g.with_state(t, TaskStateType::SomeChildrenScheduled);
            let children = g.nodes[t as int].children;
            lemma_asked(g, t);
            lemma_same_shape(g, start);
            assert(g.node_wf(t));
            assert forall|i: int| 0 <= i < children.len() implies start.has(
                #[trigger] children[i],
            ) by {
                assert(g.has(children[i]));
            }
            lemma_schedule_all(start, children);
            let n = g.scheduled.len() as int;
            assert(only_asked(g, start)) by {
                assert(start.scheduled.take(n) =~= g.scheduled);
                assert(start.scheduled.skip(n) =~= Seq::empty());
            }
            lemma_asked_trans(g, start, schedule_step(g, t));
        },
        _ => {},
    }
}

pub proof fn lemma_schedule_all(g: Graph, ids: Seq<TaskId>)
    requires
        g.wf(),
        forall|i: int| 0 <= i < ids.len() ==> g.has(#[trigger] ids[i]),
    ensures
        only_asked(g, schedule_all(g, ids)),
    decreases tally(g.nodes, TaskStateType::SomeChildrenDirty), ids.len(),
{
    if ids.len() == 0 {
        lemma_asked_refl(g);
    } else {
        let first = schedule_step(g, ids[0]);
        lemma_schedule(g, ids[0]);
        lemma_only_asked(g, first);
        assert forall|i: int| 0 <= i < ids.skip(1).len() implies first.has(
            #[trigger] ids.skip(1)[i],
        ) by {
            assert(g.has(ids[i + 1]));
        }
        lemma_schedule_all(first, ids.skip(1));
        lemma_asked_trans(g, first, schedule_all(g, ids));
    }
}

impl Task {
    /// Schedules `task` if it is dirty; if some of its children are dirty, lets them
    /// make progress and waits for them.
    pub fn schedule_dirty_children(task: TaskId, turbo_tasks: &mut TurboTasks)
        requires
            old(turbo_tasks)@.wf(),
            old(turbo_tasks)@.is_live(task),
        ensures
            final(turbo_tasks)@ == schedule_step(old(turbo_tasks)@, task),
            only_asked(old(turbo_tasks)@, final(turbo_tasks)@),
            final(turbo_tasks)@.wf(),
        decreases tally(old(turbo_tasks)@.nodes, TaskStateType::SomeChildrenDirty), 0nat,
    {
        let ghost before = turbo_tasks@;
        proof {
            lemma_schedule(before, task);
            lemma_only_asked(before, schedule_step(before, task));
        }
        match turbo_tasks.tasks[task].state.state_type {
            TaskStateType::Dirty => {
                turbo_tasks.set_state(task, TaskStateType::Scheduled);
                turbo_tasks.schedule(task);
            },
            TaskStateType::Done
            | TaskStateType::InProgressLocally
            | TaskStateType::InProgressLocallyOutdated => {},
            TaskStateType::Scheduled => {},
            TaskStateType::SomeChildrenScheduled => {},
            TaskStateType::SomeChildrenDirty => {
                turbo_tasks.set_state(task, TaskStateType::SomeChildrenScheduled);
                proof {
                    lemma_asked(before, task);
                    lemma_same_shape(before, turbo_tasks@);
                }
                Task::schedule_children(task, turbo_tasks);
            },
        }
    }

    /// Lets every child of `task` make progress.
    fn schedule_children(task: TaskId, turbo_tasks: &mut TurboTasks)
        requires
            old(turbo_tasks)@.wf(),
            old(turbo_tasks)@.is_live(task),
        ensures
            final(turbo_tasks)@ == schedule_all(
                old(turbo_tasks)@,
                old(turbo_tasks)@.nodes[task as int].children,
            ),
            final(turbo_tasks)@.wf(),
        decreases tally(old(turbo_tasks)@.nodes, TaskStateType::SomeChildrenDirty), 1nat,
    {
        let ghost before = turbo_tasks@;
        let ghost children = before.nodes[task as int].children;
        let mut i: usize = 0;
        proof {
            assert(children.skip(0) =~= children);
            lemma_asked_refl(before);
        }
        while i < turbo_tasks.tasks[task].state.children.len()
            invariant
                before.wf(),
                before == old(turbo_tasks)@,
                before.is_live(task),
                children == before.nodes[task as int].children,
                turbo_tasks@.wf(),
                only_asked(before, turbo_tasks@),
                turbo_tasks@.nodes[task as int].children == children,
                i <= children.len(),
                schedule_all(before, children) == schedule_all(
                    turbo_tasks@,
                    children.skip(i as int),
                ),
                tally(turbo_tasks@.nodes, TaskStateType::SomeChildrenDirty) <= tally(
                    before.nodes,
                    TaskStateType::SomeChildrenDirty,
                ),
            decreases children.len() - i,
        {
            let ghost now = turbo_tasks@;
            let child: TaskId = turbo_tasks.tasks[task].state.children[i];
            proof {
                assert(child == children[i as int]);
                assert(before.node_wf(task));
                assert(before.is_live(children[i as int]));
                assert(now.nodes[child as int].alive == before.nodes[child as int].alive);
                assert(children.skip(i as int).skip(1) =~= children.skip(i + 1));
                lemma_schedule(now, child);
                lemma_only_asked(now, schedule_step(now, child));
            }
            Task::schedule_dirty_children(child, turbo_tasks);
            proof {
                lemma_asked_trans(before, now, turbo_tasks@);
                assert(turbo_tasks@.nodes[task as int].children == children);
            }
            i += 1;
        }
    }

    /// Makes sure that `task` will be up to date some time: schedules it if it is dirty,
    /// and its dirty descendants if some of its children are.
    pub fn ensure_scheduled(task: TaskId, turbo_tasks: &mut TurboTasks)
        requires
            old(turbo_tasks)@.wf(),
            old(turbo_tasks)@.is_live(task),
        ensures
            final(turbo_tasks)@ == schedule_step(old(turbo_tasks)@, task),
            only_asked(old(turbo_tasks)@, final(turbo_tasks)@),
            final(turbo_tasks)@.wf(),
    {
        let ghost before = turbo_tasks@;
        proof {
            lemma_schedule(before, task);
        }
        match turbo_tasks.tasks[task].state.state_type {
            TaskStateType::Done
            | TaskStateType::InProgressLocally
            | TaskStateType::InProgressLocallyOutdated
            | TaskStateType::Scheduled
            | TaskStateType::SomeChildrenScheduled => {},
            TaskStateType::Dirty => {
                turbo_tasks.set_state(task, TaskStateType::Scheduled);
                turbo_tasks.schedule(task);
                proof {
                    lemma_same_shape(before, turbo_tasks@);
                }
            },
            TaskStateType::SomeChildrenDirty => {
                turbo_tasks.set_state(task, TaskStateType::SomeChildrenScheduled);
                proof {
                    lemma_same_shape(before, turbo_tasks@);
                }
                Task::schedule_children(task, turbo_tasks);
            },
        }
    }

    /// Runs `func` on the output slot of `task` if the task is done. Else makes sure
    /// that it will be, and hands `func` back with a listener that is woken then.
    pub fn get_or_schedule<T, F: FnOnce(&mut Slot) -> T>(
        task: TaskId,
        turbo_tasks: &mut TurboTasks,
        func: F,
    ) -> (outcome: Result<T, (F, EventListener)>)
        requires
            old(turbo_tasks)@.wf(),
            old(turbo_tasks)@.is_live(task),
            old(turbo_tasks)@.state(task) is Done ==> accepts_slot(
                func,
                old(turbo_tasks)@.nodes[task as int].output,
            ),
        ensures
            final(turbo_tasks)@.wf(),
            outcome is Ok <==> old(turbo_tasks)@.state(task) is Done,
            outcome is Ok ==> final(turbo_tasks)@ == old(turbo_tasks)@.with_output(
                task,
                final(turbo_tasks)@.nodes[task as int].output,
            ),
            outcome is Ok ==> exists|slot: &mut Slot| #[trigger]
                call_ensures(func, (slot,), outcome->Ok_0) && (*slot)@ == old(
                    turbo_tasks,
                )@.nodes[task as int].output && (*final(slot))@
                    == final(turbo_tasks)@.nodes[task as int].output,
            outcome matches Err((func_back, listener)) ==> {
                &&& func_back == func
                &&& final(turbo_tasks)@.nodes[task as int].listeners.contains(listener)
                &&& final(turbo_tasks)@ == schedule_step(old(turbo_tasks)@, task)
            },
    {
        if turbo_tasks.tasks[task].state.state_type == TaskStateType::Done {
            let result = Task::with_output_slot_mut(task, turbo_tasks, func);
            let outcome: Result<T, (F, EventListener)> = Ok(result);
            assert(outcome->Ok_0 == result);
            return outcome;
        }
        Task::ensure_scheduled(task, turbo_tasks);
        Err((func, event_listen(&turbo_tasks.tasks[task].state.event)))
    }

    /// What somebody who waits for `task` to be done has to wait for next: nothing if
    /// it is done, else the listener.
    pub fn wait_done(task: TaskId, turbo_tasks: &TurboTasks) -> (listener: Option<EventListener>)
        requires
            turbo_tasks@.has(task),
        ensures
            listener is None <==> turbo_tasks@.state(task) is Done,
            listener matches Some(listener) ==> turbo_tasks@.nodes[task as int].listeners.contains(
                listener,
            ),
    {
        if turbo_tasks.tasks[task].state.state_type == TaskStateType::Done {
            None
        } else {
            Some(event_listen(&turbo_tasks.tasks[task].state.event))
        }
    }
}

} // verus!
