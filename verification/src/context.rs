//! The execution that is running: its task, and the slots that the task can find again.

use crate::access::accepts_slot;
use crate::dirty::make_dirty_step;
use crate::fault::Fault;
use crate::graph::{lemma_same_slots, Graph, TurboTasks};
use crate::previous_nodes::{KeyId, PreviousModel, PreviousNodesMap, TypeKey, TypeModel};
use crate::slot::{empty_slot, Slot, SlotRef, TaskId};
use crate::task::{Node, Task};
use vstd::prelude::*;

verus! {

/// What belongs to the execution that is running: the task, if any, and the slots that
/// it created before.
pub struct ExecutionContext {
    pub current: Option<TaskId>,
    pub previous_nodes: PreviousNodesMap,
}

impl Graph {
    /// The same graph with other slots for `t` to find again.
    pub open spec fn with_previous(self, t: TaskId, previous: PreviousModel) -> Graph {
        self.with_node(t, Node { previous, ..self.nodes[t as int] })
    }

    /// The same graph with one more slot created by `t`.
    pub open spec fn with_new_slot(self, t: TaskId) -> Graph {
        let node = self.nodes[t as int];
        self.with_node(t, Node { created: node.created.push(empty_slot()), ..node })
    }
}

/// Where a request for a slot is served from.
pub struct Match {
    /// The index of the slot among those that the task created.
    pub index: usize,
    /// Whether the slot has to be created.
    pub fresh: bool,
    /// The slots that can be found from then on.
    pub previous: PreviousModel,
}

/// How a request under `key` is served by a task that has created `slots` slots: from
/// the slot recorded for the key, or from a new one.
pub open spec fn match_key(previous: PreviousModel, slots: nat, key: KeyId) -> Match {
    if previous.by_key.contains_key(key) {
        Match { index: previous.by_key[key], fresh: false, previous }
    } else {
        Match {
            index: slots as usize,
            fresh: true,
            previous: PreviousModel {
                by_key: previous.by_key.insert(key, slots as usize),
                ..previous
            },
        }
    }
}

/// How a request for type `ty` is served by a task that has created `slots` slots: from
/// the next slot recorded for the type, or from a new one.
pub open spec fn match_type(previous: PreviousModel, slots: nat, ty: TypeKey) -> Match {
    let nodes = previous.nodes_of(ty);
    let fresh = nodes.next >= nodes.slots.len();
    let index = if fresh {
        slots as usize
    } else {
        nodes.slots[nodes.next as int]
    };
    Match {
        index,
        fresh,
        previous: PreviousModel {
            by_type: previous.by_type.insert(
                ty,
                TypeModel {
                    next: (nodes.next + 1) as usize,
                    slots: if fresh {
                        nodes.slots.push(index)
                    } else {
                        nodes.slots
                    },
                },
            ),
            ..previous
        },
    }
}

/// The graph in which the slot for a request of `t` exists.
pub open spec fn matched(g: Graph, t: TaskId, found: Match) -> Graph {
    if found.fresh {
        g.with_new_slot(t)
    } else {
        g
    }
}

impl ExecutionContext {
    /// No execution is running.
    pub fn new() -> (context: ExecutionContext)
        ensures
            context.current is None,
            context.previous_nodes@ == PreviousModel::empty(),
    {
        ExecutionContext { current: None, previous_nodes: PreviousNodesMap::new() }
    }
}

/// Appends an empty slot to those that `task` created.
fn create_slot(task: TaskId, turbo_tasks: &mut TurboTasks) -> (index: usize)
    requires
        old(turbo_tasks)@.wf(),
        old(turbo_tasks)@.has(task),
    ensures
        index == old(turbo_tasks)@.nodes[task as int].created.len(),
        final(turbo_tasks)@ == old(turbo_tasks)@.with_new_slot(task),
        final(turbo_tasks)@.wf(),
{
    let ghost before = turbo_tasks@;
    let index: usize = turbo_tasks.tasks[task].state.created_slots.len();
    turbo_tasks.tasks[task].state.created_slots.push(Slot::new());
    proof {
        let after = before.with_new_slot(task);
        assert(turbo_tasks@.nodes[task as int].created =~= after.nodes[task as int].created);
        assert(turbo_tasks@.nodes =~= after.nodes);
        lemma_same_slots(before, after);
    }
    index
}

impl Task {
    /// Makes `task` the current one. Its slots can be found again from the start.
    pub fn set_current(
        task: TaskId,
        context: &mut ExecutionContext,
        turbo_tasks: &mut TurboTasks,
    )
        requires
            old(turbo_tasks)@.wf(),
            old(turbo_tasks)@.has(task),
        ensures
            final(context).current == Some(task),
            final(context).previous_nodes@ == old(
                turbo_tasks,
            )@.nodes[task as int].previous.rewound(),
            final(turbo_tasks)@ == old(turbo_tasks)@.with_previous(
                task,
                old(context).previous_nodes@,
            ),
            final(turbo_tasks)@.wf(),
    {
        let ghost before = turbo_tasks@;
        turbo_tasks.tasks[task].previous_nodes.rewind();
        std::mem::swap(
            &mut turbo_tasks.tasks[task].previous_nodes,
            &mut context.previous_nodes,
        );
        context.current = Some(task);
        proof {
            let after = before.with_previous(task, old(context).previous_nodes@);
            assert(turbo_tasks@.nodes =~= after.nodes);
            lemma_same_slots(before, after);
        }
    }

    /// The current task, if an execution is running.
    pub fn current(context: &ExecutionContext) -> (task: Option<TaskId>)
        ensures
            task == context.current,
    {
        context.current
    }

    /// Runs `func` on the current task.
    pub fn with_current<T, F: FnOnce(TaskId) -> T>(context: &ExecutionContext, func: F) -> (result:
        T)
        requires
            context.current is Some,
            call_requires(func, (context.current->0,)),
        ensures
            call_ensures(func, (context.current->0,), result),
    {
        func(context.current.unwrap())
    }

    /// Gives the slots that the current execution can find back to `task`.
    pub fn finalize_execution(
        task: TaskId,
        context: &mut ExecutionContext,
        turbo_tasks: &mut TurboTasks,
    )
        requires
            old(turbo_tasks)@.wf(),
            old(turbo_tasks)@.has(task),
        ensures
            final(context).current == old(context).current,
            final(context).previous_nodes@ == old(turbo_tasks)@.nodes[task as int].previous,
            final(turbo_tasks)@ == old(turbo_tasks)@.with_previous(
                task,
                old(context).previous_nodes@,
            ),
            final(turbo_tasks)@.wf(),
    {
        let ghost before = turbo_tasks@;
        std::mem::swap(
            &mut turbo_tasks.tasks[task].previous_nodes,
            &mut context.previous_nodes,
        );
        proof {
            let after = before.with_previous(task, old(context).previous_nodes@);
            assert(turbo_tasks@.nodes =~= after.nodes);
            lemma_same_slots(before, after);
        }
    }

    /// A handle by which the current task can be invalidated later.
    pub fn get_invalidator(context: &ExecutionContext) -> (invalidator: Invalidator)
        ensures
            invalidator.task == context.current,
    {
        Invalidator { task: Task::current(context) }
    }
}

/// A handle by which a task can be invalidated. It does not keep the task alive.
pub struct Invalidator {
    pub task: Option<TaskId>,
}

impl Invalidator {
    /// The task that is invalidated in `g`, unless there is none or it is gone.
    pub open spec fn target(self, g: Graph) -> Option<TaskId> {
        match self.task {
            Some(task) => if g.is_live(task) {
                Some(task)
            } else {
                None
            },
            None => None,
        }
    }

    /// Invalidates the task if it is still alive. Reports what is found wrong.
    pub fn try_invalidate(self, turbo_tasks: &mut TurboTasks) -> (result: Result<(), Fault>)
        requires
            old(turbo_tasks)@.wf(),
            self.task matches Some(task) ==> old(turbo_tasks)@.has(task),
        ensures
            final(turbo_tasks)@.wf(),
            match self.target(old(turbo_tasks)@) {
                Some(task) => {
                    &&& result == make_dirty_step(old(turbo_tasks)@, task).result
                    &&& final(turbo_tasks)@ == make_dirty_step(old(turbo_tasks)@, task).graph
                },
                None => result is Ok && final(turbo_tasks)@ == old(turbo_tasks)@,
            },
            self.task matches Some(task) ==> old(turbo_tasks)@.is_live(task) ==> result
                == make_dirty_step(old(turbo_tasks)@, task).result && final(turbo_tasks)@
                == make_dirty_step(old(turbo_tasks)@, task).graph,
            self.task matches Some(task) ==> !old(turbo_tasks)@.nodes[task as int].alive
                ==> result is Ok && final(turbo_tasks)@ == old(turbo_tasks)@,
            self.task is None ==> result is Ok && final(turbo_tasks)@ == old(turbo_tasks)@,
    {
        match self.task {
            Some(task) => if turbo_tasks.tasks[task].alive {
                Task::try_make_dirty(task, turbo_tasks)
            } else {
                Ok(())
            },
            None => Ok(()),
        }
    }

    /// Invalidates the task if it is still alive.
    pub fn invalidate(self, turbo_tasks: &mut TurboTasks)
        requires
            old(turbo_tasks)@.wf(),
            self.task matches Some(task) ==> old(turbo_tasks)@.has(task),
            self.target(old(turbo_tasks)@) matches Some(task) ==> make_dirty_step(
                old(turbo_tasks)@,
                task,
            ).result is Ok,
        ensures
            final(turbo_tasks)@.wf(),
            match self.target(old(turbo_tasks)@) {
                Some(task) => final(turbo_tasks)@ == make_dirty_step(
                    old(turbo_tasks)@,
                    task,
                ).graph,
                None => final(turbo_tasks)@ == old(turbo_tasks)@,
            },
            self.task matches Some(task) ==> old(turbo_tasks)@.is_live(task)
                ==> final(turbo_tasks)@ == make_dirty_step(old(turbo_tasks)@, task).graph,
            self.task matches Some(task) ==> !old(turbo_tasks)@.nodes[task as int].alive
                ==> final(turbo_tasks)@ == old(turbo_tasks)@,
            self.task is None ==> final(turbo_tasks)@ == old(turbo_tasks)@,
    {
        if let Some(task) = self.task {
            if turbo_tasks.tasks[task].alive {
                Task::invaldate(task, turbo_tasks);
            }
        }
    }
}

/// Finds the slot that the current task has created under `key`, or creates one, and
/// runs `functor` on it.
pub fn match_previous_node_by_key<F: FnOnce(&mut Slot)>(
    key: KeyId,
    context: &mut ExecutionContext,
    turbo_tasks: &mut TurboTasks,
    functor: F,
) -> (slot: SlotRef)
    requires
        old(turbo_tasks)@.wf(),
        old(context).current matches Some(task) && old(turbo_tasks)@.has(task) && ({
            let created = old(turbo_tasks)@.nodes[task as int].created;
            let found = match_key(old(context).previous_nodes@, created.len(), key);
            &&& !found.fresh ==> found.index < created.len()
            &&& accepts_slot(
                functor,
                if found.fresh {
                    empty_slot()
                } else {
                    created[found.index as int]
                },
            )
        }),
    ensures
        final(turbo_tasks)@.wf(),
        final(context).current == old(context).current,
        old(context).current matches Some(task) && ({
            let found = match_key(
                old(context).previous_nodes@,
                old(turbo_tasks)@.nodes[task as int].created.len(),
                key,
            );
            let g = matched(old(turbo_tasks)@, task, found);
            &&& slot == SlotRef::TaskCreated(task, found.index)
            &&& final(context).previous_nodes@ == found.previous
            &&& final(turbo_tasks)@ == g.with_created(
                task,
                found.index as int,
                final(turbo_tasks)@.nodes[task as int].created[found.index as int],
            )
            &&& exists|place: &mut Slot| #[trigger]
                call_ensures(functor, (place,), ()) && (*place)@
                    == g.nodes[task as int].created[found.index as int] && (*final(place))@
                    == final(turbo_tasks)@.nodes[task as int].created[found.index as int]
        }),
{
    let task: TaskId = context.current.unwrap();
    let index: usize = match context.previous_nodes.slot_of_key(key) {
        Some(index) => index,
        None => {
            let index: usize = create_slot(task, turbo_tasks);
            context.previous_nodes.record_key(key, index);
            index
        },
    };
    Task::with_created_slot(task, turbo_tasks, index, functor);
    SlotRef::TaskCreated(task, index)
}

/// Finds the next slot that the current task has created for type `ty`, or creates one,
/// and runs `functor` on it.
pub fn match_previous_node_by_type<F: FnOnce(&mut Slot)>(
    ty: TypeKey,
    context: &mut ExecutionContext,
    turbo_tasks: &mut TurboTasks,
    functor: F,
) -> (slot: SlotRef)
    requires
        old(turbo_tasks)@.wf(),
        old(context).previous_nodes@.nodes_of(ty).next < usize::MAX,
        old(context).current matches Some(task) && old(turbo_tasks)@.has(task) && ({
            let created = old(turbo_tasks)@.nodes[task as int].created;
            let found = match_type(old(context).previous_nodes@, created.len(), ty);
            &&& !found.fresh ==> found.index < created.len()
            &&& accepts_slot(
                functor,
                if found.fresh {
                    empty_slot()
                } else {
                    created[found.index as int]
                },
            )
        }),
    ensures
        final(turbo_tasks)@.wf(),
        final(context).current == old(context).current,
        old(context).current matches Some(task) && ({
            let found = match_type(
                old(context).previous_nodes@,
                old(turbo_tasks)@.nodes[task as int].created.len(),
                ty,
            );
            let g = matched(old(turbo_tasks)@, task, found);
            &&& slot == SlotRef::TaskCreated(task, found.index)
            &&& final(context).previous_nodes@ == found.previous
            &&& final(turbo_tasks)@ == g.with_created(
                task,
                found.index as int,
                final(turbo_tasks)@.nodes[task as int].created[found.index as int],
            )
            &&& exists|place: &mut Slot| #[trigger]
                call_ensures(functor, (place,), ()) && (*place)@
                    == g.nodes[task as int].created[found.index as int] && (*final(place))@
                    == final(turbo_tasks)@.nodes[task as int].created[found.index as int]
        }),
{
    let task: TaskId = context.current.unwrap();
    let known: Option<usize> = context.previous_nodes.next_of_type(ty);
    let (index, created): (usize, Option<usize>) = match known {
        Some(index) => (index, None),
        None => {
            let index: usize = create_slot(task, turbo_tasks);
            (index, Some(index))
        },
    };
    Task::with_created_slot(task, turbo_tasks, index, functor);
    context.previous_nodes.use_type(ty, created);
    SlotRef::TaskCreated(task, index)
}

} // verus!
