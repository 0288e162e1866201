//! Access to the slots of a task.

use crate::graph::{lemma_same_slots, Graph, TurboTasks};
use crate::slot::{Slot, SlotModel, TaskId, WeakSlotRef};
use crate::task::{Node, Task};
use vstd::prelude::*;

verus! {

/// `func` may be called with a slot whose value is `slot`.
pub open spec fn accepts_slot<T, F: FnOnce(&mut Slot) -> T>(func: F, slot: SlotModel) -> bool {
    forall|place: &mut Slot| (*place)@ == slot ==> #[trigger] call_requires(func, (place,))
}

impl Graph {
    /// The same graph with another output slot of `t`.
    pub open spec fn with_output(self, t: TaskId, output: SlotModel) -> Graph {
        self.with_node(t, Node { output, ..self.nodes[t as int] })
    }

    /// The same graph with another value in a slot that `t` created.
    pub open spec fn with_created(self, t: TaskId, index: int, slot: SlotModel) -> Graph {
        let node = self.nodes[t as int];
        self.with_node(t, Node { created: node.created.update(index, slot), ..node })
    }

    /// The same graph with one more slot read by `t`.
    pub open spec fn with_dependency(self, t: TaskId, dep: WeakSlotRef) -> Graph {
        let node = self.nodes[t as int];
        self.with_node(t, Node { dependencies: node.dependencies.push(dep), ..node })
    }
}

impl Task {
    /// Runs `func` on the output slot of `task`.
    pub fn with_output_slot<T, F: FnOnce(&Slot) -> T>(
        task: TaskId,
        turbo_tasks: &TurboTasks,
        func: F,
    ) -> (result: T)
        requires
            turbo_tasks@.has(task),
            call_requires(func, (&turbo_tasks.tasks[task as int].state.output_slot,)),
        ensures
            call_ensures(func, (&turbo_tasks.tasks[task as int].state.output_slot,), result),
    {
        func(&turbo_tasks.tasks[task].state.output_slot)
    }

    /// Runs `func` on the output slot of `task`, which it may change.
    pub fn with_output_slot_mut<T, F: FnOnce(&mut Slot) -> T>(
        task: TaskId,
        turbo_tasks: &mut TurboTasks,
        func: F,
    ) -> (result: T)
        requires
            old(turbo_tasks)@.wf(),
            old(turbo_tasks)@.has(task),
            accepts_slot(func, old(turbo_tasks)@.nodes[task as int].output),
        ensures
            final(turbo_tasks)@.wf(),
            final(turbo_tasks)@ == old(turbo_tasks)@.with_output(
                task,
                final(turbo_tasks)@.nodes[task as int].output,
            ),
            exists|slot: &mut Slot| #[trigger]
                call_ensures(func, (slot,), result) && (*slot)@ == old(
                    turbo_tasks,
                )@.nodes[task as int].output && (*final(slot))@
                    == final(turbo_tasks)@.nodes[task as int].output,
    {
        let ghost before = turbo_tasks@;
        let slot = &mut turbo_tasks.tasks[task].state.output_slot;
        let result = func(slot);
        proof {
            let after = before.with_output(task, turbo_tasks@.nodes[task as int].output);
            assert(turbo_tasks@.nodes =~= after.nodes);
            lemma_same_slots(before, after);
        }
        result
    }

    /// Runs `func` on the slot with index `index` that `task` created.
    pub fn with_created_slot<T, F: FnOnce(&mut Slot) -> T>(
        task: TaskId,
        turbo_tasks: &mut TurboTasks,
        index: usize,
        func: F,
    ) -> (result: T)
        requires
            old(turbo_tasks)@.wf(),
            old(turbo_tasks)@.has(task),
            index < old(turbo_tasks)@.nodes[task as int].created.len(),
            accepts_slot(func, old(turbo_tasks)@.nodes[task as int].created[index as int]),
        ensures
            final(turbo_tasks)@.wf(),
            final(turbo_tasks)@ == old(turbo_tasks)@.with_created(
                task,
                index as int,
                final(turbo_tasks)@.nodes[task as int].created[index as int],
            ),
            exists|slot: &mut Slot| #[trigger]
                call_ensures(func, (slot,), result) && (*slot)@ == old(
                    turbo_tasks,
                )@.nodes[task as int].created[index as int] && (*final(slot))@
                    == final(turbo_tasks)@.nodes[task as int].created[index as int],
    {
        let ghost before = turbo_tasks@;
        let slot = &mut turbo_tasks.tasks[task].state.created_slots[index];
        let result = func(slot);
        proof {
            let changed = turbo_tasks@.nodes[task as int].created[index as int];
            let after = before.with_created(task, index as int, changed);
            assert(turbo_tasks@.nodes[task as int].created =~= after.nodes[task as int].created);
            assert(turbo_tasks@.nodes =~= after.nodes);
            lemma_same_slots(before, after);
        }
        result
    }

    /// Records that `task` has read the slot `node`.
    pub fn add_dependency(task: TaskId, turbo_tasks: &mut TurboTasks, node: WeakSlotRef)
        requires
            old(turbo_tasks)@.wf(),
            old(turbo_tasks)@.has(task),
            old(turbo_tasks)@.has_slot(node),
        ensures
            final(turbo_tasks)@.wf(),
            final(turbo_tasks)@ == old(turbo_tasks)@.with_dependency(task, node),
    {
        let ghost before = turbo_tasks@;
        turbo_tasks.tasks[task].dependencies.push(node);
        proof {
            assert(turbo_tasks@.nodes =~= before.with_dependency(task, node).nodes);
            lemma_dependency(before, task, node);
        }
    }
}

/// Reading a slot that exists keeps the graph well formed.
pub proof fn lemma_dependency(g: Graph, t: TaskId, dep: WeakSlotRef)
    requires
        g.wf(),
        g.has(t),
        g.has_slot(dep),
    ensures
        g.with_dependency(t, dep).wf(),
{
    let after = g.with_dependency(t, dep);
    let was = g.nodes[t as int].dependencies;
    assert forall|x: TaskId| after.has(x) implies #[trigger] after.node_wf(x) by {
        assert(g.node_wf(x));
        let now = after.nodes[x as int].dependencies;
        assert forall|i: int| 0 <= i < now.len() implies after.has_slot(#[trigger] now[i]) by {
            if x != t || i < was.len() {
                assert(now[i] == g.nodes[x as int].dependencies[i]);
            }
            assert(g.has_slot(now[i]));
        }
    }
}

} // verus!
