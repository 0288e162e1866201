//! What the parts of the mathematical graph are, in terms of the data that they stand for.

use crate::consistency::consistent;
use crate::context::{match_key, match_type, matched, Invalidator, Match};
use crate::dirty::make_dirty_step;
use crate::event::{listens_to, notifications};
use crate::fault::{audit, first_mismatch, lemma_first_mismatch, Fault};
use crate::graph::{live_among, unfinished, Graph, TurboTasks};
use crate::lifecycle::{has_execution, holds, inserted, releasable, released};
use crate::previous_nodes::{KeyId, PreviousModel, TypeKey};
use crate::slot::{
    empty_slot, occurrences, purged, swapped_out, Slot, SlotContent, SlotModel, SlotRef, TaskId,
    WeakSlotRef,
};
use crate::task::{new_node, Node, Task, TaskStateType, TaskType};
use event_listener::EventListener;
use vstd::prelude::*;

verus! {

/// The value of a task shows every part of it as it is.
pub proof fn law_task_shows_its_parts(task: Task)
    ensures
        task@.inputs == task.inputs@,
        task@.ty == task.ty,
        task@.alive == task.alive,
        task@.state_type == task.state.state_type,
        task@.dirty == task.state.dirty_children_count,
        task@.parents == task.state.parents@,
        task@.children == task.state.children@,
        task@.output.content == task.state.output_slot.content,
        task@.output.dependents == task.state.output_slot.dependents@,
        task@.created.len() == task.state.created_slots@.len(),
        forall|i: int|
            #![trigger task@.created[i]]
            0 <= i < task@.created.len() ==> task@.created[i].content
                == task.state.created_slots@[i].content && task@.created[i].dependents
                == task.state.created_slots@[i].dependents@,
        task@.notified == notifications(task.state.event),
        forall|listener: EventListener| #[trigger]
            task@.listeners.contains(listener) == listens_to(listener, task.state.event),
        task@.executions == task.state.executions,
        task@.dependencies == task.dependencies@,
        task@.previous.by_key == task.previous_nodes.by_key@,
        forall|ty: TypeKey| #[trigger]
            task@.previous.by_type.contains_key(ty)
                == task.previous_nodes.by_type@.contains_key(ty),
        forall|ty: TypeKey|
            #![trigger task@.previous.by_type[ty]]
            task@.previous.by_type.contains_key(ty) ==> task@.previous.by_type[ty].next
                == task.previous_nodes.by_type@[ty].next && task@.previous.by_type[ty].slots
                == task.previous_nodes.by_type@[ty].slots@,
{
}

/// The value of a graph shows every task in its place, and the queue.
pub proof fn law_graph_shows_its_tasks(turbo_tasks: TurboTasks)
    ensures
        turbo_tasks@.nodes.len() == turbo_tasks.tasks@.len(),
        forall|i: int|
            0 <= i < turbo_tasks@.nodes.len() ==> #[trigger] turbo_tasks@.nodes[i]
                == turbo_tasks.tasks@[i]@,
        turbo_tasks@.scheduled == turbo_tasks.scheduled@,
{
}

/// The words that contracts use of tasks mean what the tasks' data say.
pub proof fn law_words_about_tasks(g: Graph, t: TaskId)
    ensures
        g.has(t) <==> t < g.nodes.len(),
        g.is_live(t) <==> t < g.nodes.len() && g.nodes[t as int].alive,
        g.state(t) == g.nodes[t as int].state_type,
        g.is_root(t) <==> g.nodes[t as int].ty is Root,
        g.has_slot(WeakSlotRef::TaskOutput(t)) <==> t < g.nodes.len(),
        forall|index: usize| #[trigger]
            g.has_slot(WeakSlotRef::TaskCreated(t, index)) <==> t < g.nodes.len() && index
                < g.nodes[t as int].created.len(),
{
}

/// A graph is well formed exactly if its tasks can be numbered, refer to tasks and slots
/// that exist, and if the children of live tasks are alive.
pub proof fn law_well_formed(g: Graph)
    ensures
        g.wf() <==> {
            &&& g.nodes.len() <= usize::MAX
            &&& forall|t: TaskId, i: int|
                #![trigger g.nodes[t as int].parents[i]]
                t < g.nodes.len() && 0 <= i < g.nodes[t as int].parents.len()
                    ==> g.nodes[t as int].parents[i] < g.nodes.len()
            &&& forall|t: TaskId, i: int|
                #![trigger g.nodes[t as int].children[i]]
                t < g.nodes.len() && 0 <= i < g.nodes[t as int].children.len()
                    ==> g.nodes[t as int].children[i] < g.nodes.len() && (
                g.nodes[t as int].alive
                    ==> g.nodes[g.nodes[t as int].children[i] as int].alive)
            &&& forall|t: TaskId, i: int|
                #![trigger g.nodes[t as int].dependencies[i]]
                t < g.nodes.len() && 0 <= i < g.nodes[t as int].dependencies.len() ==> g.has_slot(
                    g.nodes[t as int].dependencies[i],
                )
        },
{
    let flat = {
        &&& g.nodes.len() <= usize::MAX
        &&& forall|t: TaskId, i: int|
            #![trigger g.nodes[t as int].parents[i]]
            t < g.nodes.len() && 0 <= i < g.nodes[t as int].parents.len()
                ==> g.nodes[t as int].parents[i] < g.nodes.len()
        &&& forall|t: TaskId, i: int|
            #![trigger g.nodes[t as int].children[i]]
            t < g.nodes.len() && 0 <= i < g.nodes[t as int].children.len()
                ==> g.nodes[t as int].children[i] < g.nodes.len() && (g.nodes[t as int].alive
                ==> g.nodes[g.nodes[t as int].children[i] as int].alive)
        &&& forall|t: TaskId, i: int|
            #![trigger g.nodes[t as int].dependencies[i]]
            t < g.nodes.len() && 0 <= i < g.nodes[t as int].dependencies.len() ==> g.has_slot(
                g.nodes[t as int].dependencies[i],
            )
    };
    if g.wf() {
        assert forall|t: TaskId, i: int|
            #![trigger g.nodes[t as int].parents[i]]
            t < g.nodes.len() && 0 <= i < g.nodes[t as int].parents.len() implies
            g.nodes[t as int].parents[i] < g.nodes.len() by {
            assert(g.node_wf(t));
            assert(g.has(g.nodes[t as int].parents[i]));
        }
        assert forall|t: TaskId, i: int|
            #![trigger g.nodes[t as int].children[i]]
            t < g.nodes.len() && 0 <= i < g.nodes[t as int].children.len() implies
            g.nodes[t as int].children[i] < g.nodes.len() && (g.nodes[t as int].alive
            ==> g.nodes[g.nodes[t as int].children[i] as int].alive) by {
            assert(g.node_wf(t));
            assert(g.has(g.nodes[t as int].children[i]));
            if g.nodes[t as int].alive {
                assert(g.is_live(g.nodes[t as int].children[i]));
            }
        }
        assert forall|t: TaskId, i: int|
            #![trigger g.nodes[t as int].dependencies[i]]
            t < g.nodes.len() && 0 <= i < g.nodes[t as int].dependencies.len() implies g.has_slot(
            g.nodes[t as int].dependencies[i],
        ) by {
            assert(g.node_wf(t));
        }
        assert(flat);
    }
    if flat {
        assert forall|t: TaskId| g.has(t) implies #[trigger] g.node_wf(t) by {
            let node = g.nodes[t as int];
            assert forall|i: int| 0 <= i < node.parents.len() implies g.has(
                #[trigger] node.parents[i],
            ) by {
                assert(g.nodes[t as int].parents[i] < g.nodes.len());
            }
            assert forall|i: int| 0 <= i < node.children.len() implies g.has(
                #[trigger] node.children[i],
            ) && (node.alive ==> g.is_live(node.children[i])) by {
                assert(g.nodes[t as int].children[i] < g.nodes.len());
            }
            assert forall|i: int| 0 <= i < node.dependencies.len() implies g.has_slot(
                #[trigger] node.dependencies[i],
            ) by {
                assert(g.has_slot(g.nodes[t as int].dependencies[i]));
            }
        }
    }
}

/// The live parents of a task are its parents that are alive, in their order.
pub proof fn law_live_parents_are_filtered(g: Graph, t: TaskId)
    ensures
        g.live_parents(t) == g.nodes[t as int].parents.filter(
            |p: TaskId| g.nodes[p as int].alive,
        ),
{
    lemma_live_filter(g.nodes, g.nodes[t as int].parents);
}

proof fn lemma_live_filter(nodes: Seq<Node>, ids: Seq<TaskId>)
    ensures
        live_among(nodes, ids) == ids.filter(|p: TaskId| nodes[p as int].alive),
    decreases ids.len(),
{
    reveal(Seq::filter);
    if ids.len() > 0 {
        lemma_live_filter(nodes, ids.drop_last());
    }
}

/// The number of unfinished tasks is the number of those that are not done.
pub proof fn law_unfinished_are_counted(nodes: Seq<Node>, ids: Seq<TaskId>)
    ensures
        unfinished(nodes, ids) == ids.filter(
            |c: TaskId| !(nodes[c as int].state_type is Done),
        ).len(),
    decreases ids.len(),
{
    reveal(Seq::filter);
    if ids.len() > 0 {
        law_unfinished_are_counted(nodes, ids.drop_last());
    }
}

/// The state of a task agrees with its children exactly if those of a done task are all
/// done, and a task with dirty children has counted the ones that are not. Other states
/// promise nothing.
pub proof fn law_what_states_promise(g: Graph, t: TaskId)
    ensures
        ({
            let node = g.nodes[t as int];
            g.state_ok(t) <==> {
                &&& node.state_type is Done ==> forall|i: int|
                    0 <= i < node.children.len() ==> g.nodes[
                        #[trigger] node.children[i] as int
                    ].state_type is Done
                &&& node.state_type is SomeChildrenDirty ==> node.children.filter(
                    |c: TaskId| !(g.nodes[c as int].state_type is Done),
                ).len() == node.dirty
            }
        }),
{
    let node = g.nodes[t as int];
    law_unfinished_are_counted(g.nodes, node.children);
    if node.state_type is Done {
        if g.state_ok(t) {
            assert forall|i: int| 0 <= i < node.children.len() implies g.nodes[
                #[trigger] node.children[i] as int
            ].state_type is Done by {
                assert(g.state(node.children[i]) is Done);
            }
        } else {
            let k = choose|k: int|
                0 <= k < node.children.len() && !(g.state(#[trigger] node.children[k]) is Done);
            assert(!(g.nodes[node.children[k] as int].state_type is Done));
        }
    }
}

/// A check finds nothing exactly if the task and all its live parents agree with their
/// children. What it reports is the task if it does not agree, and else the first live
/// parent that does not.
pub proof fn law_checks_find_the_first(g: Graph, t: TaskId)
    ensures
        audit(g, t) is Ok <==> g.state_ok(t) && forall|i: int|
            0 <= i < g.live_parents(t).len() ==> g.state_ok(#[trigger] g.live_parents(t)[i]),
        !g.state_ok(t) ==> audit(g, t) == Err::<(), Fault>(Fault::StateMismatch(t)),
        g.state_ok(t) && audit(g, t) is Err ==> exists|i: int|
            0 <= i < g.live_parents(t).len() && !g.state_ok(#[trigger] g.live_parents(t)[i])
                && audit(g, t) == Err::<(), Fault>(Fault::StateMismatch(g.live_parents(t)[i])) && (
            forall|j: int| 0 <= j < i ==> g.state_ok(#[trigger] g.live_parents(t)[j])),
{
    let parents = g.live_parents(t);
    let ids = seq![t] + parents;
    lemma_first_mismatch(g, ids);
    assert(ids[0] == t);
    assert(ids.skip(1) =~= parents);
    if audit(g, t) is Ok {
        assert forall|i: int| 0 <= i < parents.len() implies g.state_ok(#[trigger] parents[i]) by {
            assert(g.state_ok(ids[i + 1]));
        }
    } else if g.state_ok(t) {
        lemma_first_found(g, parents);
    }
    if g.state_ok(t) && (forall|i: int|
        0 <= i < parents.len() ==> g.state_ok(#[trigger] parents[i])) {
        assert forall|i: int| 0 <= i < ids.len() implies g.state_ok(#[trigger] ids[i]) by {
            if i > 0 {
                assert(ids[i] == parents[i - 1]);
            }
        }
    }
}

proof fn lemma_first_found(g: Graph, ids: Seq<TaskId>)
    requires
        first_mismatch(g, ids) is Some,
    ensures
        exists|i: int|
            0 <= i < ids.len() && !g.state_ok(#[trigger] ids[i]) && first_mismatch(g, ids)
                == Some(ids[i]) && (forall|j: int| 0 <= j < i ==> g.state_ok(#[trigger] ids[j])),
    decreases ids.len(),
{
    if g.state_ok(ids[0]) {
        let rest = ids.skip(1);
        lemma_first_found(g, rest);
        let i = choose|i: int|
            0 <= i < rest.len() && !g.state_ok(#[trigger] rest[i]) && first_mismatch(g, rest)
                == Some(rest[i]) && (forall|j: int|
                0 <= j < i ==> g.state_ok(#[trigger] rest[j]));
        assert(ids[i + 1] == rest[i]);
        assert forall|j: int| 0 <= j < i + 1 implies g.state_ok(#[trigger] ids[j]) by {
            if j > 0 {
                assert(ids[j] == rest[j - 1]);
            }
        }
    }
}

/// Replacing a task changes that task and nothing else.
pub proof fn law_replacing_a_task(g: Graph, t: TaskId, node: Node)
    requires
        g.has(t),
    ensures
        g.with_node(t, node).nodes.len() == g.nodes.len(),
        g.with_node(t, node).nodes[t as int] == node,
        forall|x: int|
            0 <= x < g.nodes.len() && x != t ==> #[trigger] g.with_node(t, node).nodes[x]
                == g.nodes[x],
        g.with_node(t, node).scheduled == g.scheduled,
{
}

/// Changing a part of a task changes that part and nothing else.
pub proof fn law_changing_a_part(
    g: Graph,
    t: TaskId,
    state_type: TaskStateType,
    dirty: usize,
    slot: SlotModel,
    previous: PreviousModel,
)
    requires
        g.has(t),
    ensures
        ({
            let node = g.nodes[t as int];
            &&& g.with_state(t, state_type) == g.with_node(t, Node { state_type, ..node })
            &&& g.with_dirty(t, dirty) == g.with_node(t, Node { dirty, ..node })
            &&& g.with_output(t, slot) == g.with_node(t, Node { output: slot, ..node })
            &&& g.with_previous(t, previous) == g.with_node(t, Node { previous, ..node })
            &&& g.with_done(t) == g.with_node(
                t,
                Node {
                    state_type: TaskStateType::Done,
                    notified: node.notified.push(usize::MAX),
                    ..node
                },
            )
            &&& g.with_scheduled(t).nodes == g.nodes
            &&& g.with_scheduled(t).scheduled == g.scheduled.push(t)
        }),
{
}

/// Recording a read keeps every read recorded before in its place and appends the new one.
/// Nothing else changes.
pub proof fn law_reads_are_appended(g: Graph, t: TaskId, dep: WeakSlotRef)
    requires
        g.has(t),
    ensures
        ({
            let after = g.with_dependency(t, dep);
            let was = g.nodes[t as int];
            let now = after.nodes[t as int];
            &&& now.dependencies.len() == was.dependencies.len() + 1
            &&& forall|i: int|
                0 <= i < was.dependencies.len() ==> #[trigger] now.dependencies[i]
                    == was.dependencies[i]
            &&& now.dependencies.last() == dep
            &&& now == (Node { dependencies: now.dependencies, ..was })
            &&& after.scheduled == g.scheduled
            &&& after.nodes.len() == g.nodes.len()
            &&& forall|x: int|
                0 <= x < g.nodes.len() && x != t ==> #[trigger] after.nodes[x] == g.nodes[x]
        }),
{
}

/// The graph after `t` has read `deps` in turn.
pub open spec fn after_reads(g: Graph, t: TaskId, deps: Seq<WeakSlotRef>) -> Graph
    decreases deps.len(),
{
    if deps.len() == 0 {
        g
    } else {
        after_reads(g, t, deps.drop_last()).with_dependency(t, deps.last())
    }
}

/// After a series of reads the task has exactly these reads recorded, in order, behind
/// those from before.
pub proof fn law_reads_are_recorded_in_order(g: Graph, t: TaskId, deps: Seq<WeakSlotRef>)
    requires
        g.has(t),
    ensures
        after_reads(g, t, deps).nodes.len() == g.nodes.len(),
        after_reads(g, t, deps).nodes[t as int].dependencies == g.nodes[t as int].dependencies
            + deps,
    decreases deps.len(),
{
    if deps.len() > 0 {
        law_reads_are_recorded_in_order(g, t, deps.drop_last());
        let before = after_reads(g, t, deps.drop_last());
        law_reads_are_appended(before, t, deps.last());
        assert(after_reads(g, t, deps).nodes[t as int].dependencies =~= g.nodes[
            t as int
        ].dependencies + deps);
    } else {
        assert(g.nodes[t as int].dependencies + deps =~= g.nodes[t as int].dependencies);
    }
}

/// Changing a slot that a task created changes that slot and nothing else.
pub proof fn law_changing_a_created_slot(g: Graph, t: TaskId, index: int, slot: SlotModel)
    requires
        g.has(t),
        0 <= index < g.nodes[t as int].created.len(),
    ensures
        ({
            let after = g.with_created(t, index, slot);
            let was = g.nodes[t as int];
            let now = after.nodes[t as int];
            &&& now.created.len() == was.created.len()
            &&& now.created[index] == slot
            &&& forall|i: int|
                0 <= i < was.created.len() && i != index ==> #[trigger] now.created[i]
                    == was.created[i]
            &&& now == (Node { created: now.created, ..was })
            &&& after.scheduled == g.scheduled
            &&& after.nodes.len() == g.nodes.len()
            &&& forall|x: int|
                0 <= x < g.nodes.len() && x != t ==> #[trigger] after.nodes[x] == g.nodes[x]
        }),
{
}

/// A new task waits for its first execution, knows its inputs and its type, and is
/// connected to nothing.
pub proof fn law_new_tasks(inputs: Seq<SlotRef>, ty: TaskType, listeners: Set<EventListener>)
    ensures
        ({
            let node = new_node(inputs, ty, listeners);
            &&& node.inputs == inputs
            &&& node.ty == ty
            &&& node.listeners == listeners
            &&& node.alive
            &&& node.state_type is Scheduled
            &&& node.dirty == 0
            &&& node.executions == 0
            &&& node.parents.len() == 0
            &&& node.children.len() == 0
            &&& node.dependencies.len() == 0
            &&& node.created.len() == 0
            &&& node.notified.len() == 0
            &&& node.output.content is Empty
            &&& node.output.dependents.len() == 0
            &&& node.previous.by_key == Map::<KeyId, usize>::empty()
            &&& forall|ty: TypeKey| !(#[trigger] node.previous.by_type.contains_key(ty))
        }),
{
}

/// An empty slot holds nothing and has no readers.
pub proof fn law_empty_slots(slot: Slot)
    ensures
        empty_slot().content is Empty,
        empty_slot().dependents.len() == 0,
        slot@.content == slot.content,
        slot@.dependents == slot.dependents@,
{
}

/// A task that joins the graph takes the next free number. Releasing a task ends its life
/// and changes nothing else.
pub proof fn law_joining_and_leaving(g: Graph, node: Node, t: TaskId)
    requires
        g.has(t),
    ensures
        inserted(g, node).nodes == g.nodes.push(node),
        inserted(g, node).scheduled == g.scheduled,
        !released(g, t).is_live(t),
        released(g, t).scheduled == g.scheduled,
        released(g, t).nodes.len() == g.nodes.len(),
        released(g, t).nodes[t as int] == (Node { alive: false, ..g.nodes[t as int] }),
        forall|x: int|
            0 <= x < g.nodes.len() && x != t ==> #[trigger] released(g, t).nodes[x] == g.nodes[x],
{
}

/// A task holds its children and the tasks whose slots its inputs and its own slots refer
/// to, and no others.
pub proof fn law_who_is_held(node: Node, t: TaskId)
    ensures
        holds(node, t) <==> {
            ||| exists|i: int| 0 <= i < node.children.len() && #[trigger] node.children[i] == t
            ||| exists|i: int|
                0 <= i < node.inputs.len() && match #[trigger] node.inputs[i] {
                    SlotRef::TaskOutput(task) => task == t,
                    SlotRef::TaskCreated(task, _) => task == t,
                    SlotRef::Value(_) => false,
                }
            ||| match node.output.content {
                SlotContent::Link(SlotRef::TaskOutput(task)) => task == t,
                SlotContent::Link(SlotRef::TaskCreated(task, _)) => task == t,
                _ => false,
            }
            ||| exists|i: int|
                0 <= i < node.created.len() && match (#[trigger] node.created[i]).content {
                    SlotContent::Link(SlotRef::TaskOutput(task)) => task == t,
                    SlotContent::Link(SlotRef::TaskCreated(task, _)) => task == t,
                    _ => false,
                }
        },
{
    if node.children.contains(t) {
        let k = choose|k: int| 0 <= k < node.children.len() && node.children[k] == t;
        assert(node.children[k] == t);
    }
    if exists|i: int| 0 <= i < node.inputs.len() && (#[trigger] node.inputs[i]).leads_to(t) {
        let k = choose|k: int|
            0 <= k < node.inputs.len() && (#[trigger] node.inputs[k]).leads_to(t);
        assert(node.inputs[k].leads_to(t));
    }
    if exists|i: int|
        0 <= i < node.created.len() && (#[trigger] node.created[i]).content.links_to(t) {
        let k = choose|k: int|
            0 <= k < node.created.len() && (#[trigger] node.created[k]).content.links_to(t);
        assert(node.created[k].content.links_to(t));
    }
}

/// What keeps a task alive: another live task that holds it, or an execution that waits or
/// runs.
pub proof fn law_what_keeps_alive(g: Graph, t: TaskId, p: TaskId)
    ensures
        releasable(g, t) && g.is_live(p) && p != t ==> !holds(g.nodes[p as int], t),
        g.has(t) && !releasable(g, t) ==> exists|q: TaskId|
            g.is_live(q) && q != t && holds(#[trigger] g.nodes[q as int], t),
        has_execution(g, t) <==> g.scheduled.contains(t)
            || g.nodes[t as int].state_type is Scheduled
            || g.nodes[t as int].state_type is InProgressLocally
            || g.nodes[t as int].state_type is InProgressLocallyOutdated,
{
}

/// A reference leads to a slot of a task exactly if it names an output or a created slot.
pub proof fn law_references(task: TaskId, index: usize, value: u64)
    ensures
        SlotRef::TaskOutput(task).refers_to_task(),
        SlotRef::TaskCreated(task, index).refers_to_task(),
        !SlotRef::Value(value).refers_to_task(),
        WeakSlotRef::TaskOutput(task).task() == task,
        WeakSlotRef::TaskCreated(task, index).task() == task,
{
}

/// An invalidator reaches its task exactly as long as the task is alive, whatever its type
/// and state. A live task that was done is not done afterwards.
pub proof fn law_invalidators_reach_live_tasks(invalidator: Invalidator, g: Graph, t: TaskId)
    ensures
        invalidator.target(g) == Some(t) <==> invalidator.task == Some(t) && t < g.nodes.len()
            && g.nodes[t as int].alive,
        invalidator.target(g) is None ==> invalidator.task is None || !g.is_live(
            invalidator.task->0,
        ),
        g.wf() && invalidator.target(g) == Some(t) && make_dirty_step(g, t).result is Ok ==> {
            let now = make_dirty_step(g, t).graph.nodes[t as int].state_type;
            now is Dirty || now is Scheduled || now is InProgressLocallyOutdated
        },
{
    if g.wf() && invalidator.target(g) == Some(t) && make_dirty_step(g, t).result is Ok {
        crate::laws::outcomes::law_invalidation_asks_for_execution(g, t);
    }
}

/// What is known of a type is what is recorded for it. Of a type that nothing is recorded
/// for, no slot is known and none was used.
pub proof fn law_slots_of_a_type(previous: PreviousModel, ty: TypeKey)
    ensures
        previous.by_type.contains_key(ty) ==> previous.nodes_of(ty) == previous.by_type[ty],
        !previous.by_type.contains_key(ty) ==> previous.nodes_of(ty).next == 0
            && previous.nodes_of(ty).slots.len() == 0,
{
}

/// How often a task occurs in a list is the number of places where it stands.
pub proof fn law_occurrences_are_counted(ids: Seq<TaskId>, x: TaskId)
    ensures
        occurrences(ids, x) == ids.filter(|id: TaskId| id == x).len(),
    decreases ids.len(),
{
    reveal(Seq::filter);
    if ids.len() > 0 {
        law_occurrences_are_counted(ids.drop_last(), x);
    }
}

/// In a consistent graph a live task has each child as often as that has it as a parent.
/// The count of a task that is done, executes up to date or waits for its children is the
/// number of its children that are not done: none for a done task, and some for one that
/// waits. No child is dirty or has dirty children if the task is done, executes up to date
/// or waits with the goal to get everything up to date, and neither does a root.
pub proof fn law_what_consistency_promises(g: Graph, p: TaskId)
    requires
        consistent(g),
        g.is_live(p),
    ensures
        ({
            let node = g.nodes[p as int];
            let counted = node.children.filter(
                |c: TaskId| !(g.nodes[c as int].state_type is Done),
            ).len();
            &&& forall|c: TaskId|
                #![trigger occurrences(node.children, c)]
                g.has(c) ==> occurrences(node.children, c) == occurrences(
                    g.nodes[c as int].parents,
                    p,
                )
            &&& node.state_type is Done || node.state_type is InProgressLocally
                || node.state_type is SomeChildrenDirty || node.state_type is SomeChildrenScheduled
                ==> node.dirty == counted
            &&& node.state_type is Done ==> counted == 0
            &&& node.state_type is SomeChildrenDirty || node.state_type is SomeChildrenScheduled
                ==> counted > 0
            &&& node.state_type is Done || node.state_type is InProgressLocally
                || node.state_type is SomeChildrenScheduled ==> forall|i: int|
                0 <= i < node.children.len() ==> {
                    let child = g.nodes[#[trigger] node.children[i] as int].state_type;
                    !(child is Dirty) && !(child is SomeChildrenDirty)
                }
            &&& node.ty is Root ==> !(node.state_type is Dirty)
                && !(node.state_type is SomeChildrenDirty)
        }),
{
    let node = g.nodes[p as int];
    let none = |x: TaskId| 0int;
    assert(crate::consistency::balanced_at(g, none(p), p));
    law_unfinished_are_counted(g.nodes, node.children);
    if node.state_type is Done || node.state_type is InProgressLocally
        || node.state_type is SomeChildrenScheduled {
        assert forall|i: int| 0 <= i < node.children.len() implies {
            let child = g.nodes[#[trigger] node.children[i] as int].state_type;
            !(child is Dirty) && !(child is SomeChildrenDirty)
        } by {
            assert(!crate::consistency::idles(g.state(g.nodes[p as int].children[i])));
        }
    }
}

/// Rewinding keeps every slot that is recorded and forgets which of them were used.
pub proof fn law_rewinding(previous: PreviousModel, ty: TypeKey)
    ensures
        previous.rewound().by_key == previous.by_key,
        previous.rewound().by_type.contains_key(ty) == previous.by_type.contains_key(ty),
        previous.rewound().nodes_of(ty).slots == previous.nodes_of(ty).slots,
        previous.rewound().nodes_of(ty).next == 0,
{
}

/// A request under a key gets the slot that is recorded for it, and else a new one, which
/// is recorded then. Other keys and all types are unaffected.
pub proof fn law_requests_by_key(previous: PreviousModel, slots: nat, key: KeyId, other: KeyId)
    requires
        slots <= usize::MAX,
    ensures
        ({
            let found = match_key(previous, slots, key);
            &&& found.fresh <==> !previous.by_key.contains_key(key)
            &&& !found.fresh ==> found.index == previous.by_key[key]
            &&& found.fresh ==> found.index == slots
            &&& found.previous.by_key.contains_key(key)
            &&& found.previous.by_key[key] == found.index
            &&& other != key ==> found.previous.by_key.contains_key(other)
                == previous.by_key.contains_key(other)
            &&& other != key && previous.by_key.contains_key(other)
                ==> found.previous.by_key[other] == previous.by_key[other]
            &&& found.previous.by_type == previous.by_type
        }),
{
}

/// A request for a type gets the slot that is recorded next for it, and else a new one,
/// which is recorded behind the others then. The next request for the type gets the slot
/// behind it. Other types and all keys are unaffected.
pub proof fn law_requests_by_type(
    previous: PreviousModel,
    slots: nat,
    ty: TypeKey,
    other: TypeKey,
)
    requires
        slots <= usize::MAX,
        previous.nodes_of(ty).next < usize::MAX,
    ensures
        ({
            let found = match_type(previous, slots, ty);
            let was = previous.nodes_of(ty);
            let now = found.previous.nodes_of(ty);
            &&& found.fresh <==> was.next >= was.slots.len()
            &&& !found.fresh ==> found.index == was.slots[was.next as int] && now.slots
                == was.slots
            &&& found.fresh ==> found.index == slots && now.slots == was.slots.push(found.index)
            &&& now.next == was.next + 1
            &&& other != ty ==> found.previous.nodes_of(other) == previous.nodes_of(other)
            &&& found.previous.by_key == previous.by_key
        }),
{
}

/// A slot is created exactly for a request that needs a new one: it is empty, has no
/// readers, and follows the slots that the task created before.
pub proof fn law_slots_are_created_on_demand(g: Graph, t: TaskId, found: Match)
    requires
        g.has(t),
    ensures
        ({
            let after = matched(g, t, found);
            let was = g.nodes[t as int];
            let now = after.nodes[t as int];
            &&& !found.fresh ==> after == g
            &&& found.fresh ==> {
                &&& now.created.len() == was.created.len() + 1
                &&& now.created.last().content is Empty
                &&& now.created.last().dependents.len() == 0
                &&& forall|i: int|
                    0 <= i < was.created.len() ==> #[trigger] now.created[i] == was.created[i]
                &&& now == (Node { created: now.created, ..was })
                &&& after.scheduled == g.scheduled
                &&& after.nodes.len() == g.nodes.len()
                &&& forall|x: int|
                    0 <= x < g.nodes.len() && x != t ==> #[trigger] after.nodes[x] == g.nodes[x]
            }
        }),
{
}

/// Removing an item that stands in one place fills the gap from the end and leaves the
/// others where they are.
pub proof fn law_removal_fills_the_gap(s: Seq<TaskId>, item: TaskId, i: int)
    requires
        0 <= i < s.len(),
        s[i] == item,
        forall|k: int| 0 <= k < s.len() && k != i ==> s[k] != item,
    ensures
        purged(s, item).len() == s.len() - 1,
        forall|k: int|
            0 <= k < s.len() - 1 ==> #[trigger] purged(s, item)[k] == if k == i {
                s[s.len() - 1]
            } else {
                s[k]
            },
{
    lemma_purged_skips(s, item, 0, i);
    let left = swapped_out(s, i);
    assert(!left.contains(item)) by {
        if left.contains(item) {
            let k = choose|k: int| 0 <= k < left.len() && left[k] == item;
            assert(left[k] == if k == i {
                s[s.len() - 1]
            } else {
                s[k]
            });
        }
    }
    lemma_purged_rest(left, item, i);
}

proof fn lemma_purged_skips(s: Seq<TaskId>, item: TaskId, from: int, i: int)
    requires
        0 <= from <= i < s.len(),
        s[i] == item,
        forall|k: int| from <= k < i ==> s[k] != item,
    ensures
        crate::slot::purged_from(s, item, from) == crate::slot::purged_from(
            swapped_out(s, i),
            item,
            i,
        ),
    decreases i - from,
{
    if from < i {
        assert(s[from] != item);
        lemma_purged_skips(s, item, from + 1, i);
    }
}

proof fn lemma_purged_rest(s: Seq<TaskId>, item: TaskId, i: int)
    requires
        0 <= i <= s.len(),
        !s.contains(item),
    ensures
        crate::slot::purged_from(s, item, i) == s,
    decreases s.len() - i,
{
    if i < s.len() {
        assert(s[i] != item);
        lemma_purged_rest(s, item, i + 1);
    }
}

} // verus!
