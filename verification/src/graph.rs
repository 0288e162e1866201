//! The graph of all tasks and the queue of those that wait to be executed.

use crate::event::event_notify;
use crate::slot::{TaskId, WeakSlotRef};
use crate::task::{Node, Task, TaskStateType};
use vstd::prelude::*;

verus! {

/// All tasks, and those that were scheduled and not taken for execution yet.
pub struct TurboTasks {
    pub tasks: Vec<Task>,
    pub scheduled: Vec<TaskId>,
}

/// The mathematical value of a `TurboTasks`.
#[verifier::ext_equal]
pub struct Graph {
    pub nodes: Seq<Node>,
    pub scheduled: Seq<TaskId>,
}

impl View for TurboTasks {
    type V = Graph;

    open spec fn view(&self) -> Graph {
        Graph {
            nodes: self.tasks@.map_values(|task: Task| task@),
            scheduled: self.scheduled@,
        }
    }
}

/// The members of `ids` that are alive, in order.
pub open spec fn live_among(nodes: Seq<Node>, ids: Seq<TaskId>) -> Seq<TaskId>
    decreases ids.len(),
{
    if ids.len() == 0 {
        Seq::empty()
    } else if nodes[ids.last() as int].alive {
        live_among(nodes, ids.drop_last()).push(ids.last())
    } else {
        live_among(nodes, ids.drop_last())
    }
}

/// How many of `ids` are not done, each counted as often as it stands there.
pub open spec fn unfinished(nodes: Seq<Node>, ids: Seq<TaskId>) -> nat
    decreases ids.len(),
{
    if ids.len() == 0 {
        0
    } else {
        unfinished(nodes, ids.drop_last()) + (if nodes[ids.last() as int].state_type is Done {
            0nat
        } else {
            1nat
        })
    }
}

/// How many tasks are in state `state`.
pub open spec fn tally(nodes: Seq<Node>, state: TaskStateType) -> nat
    decreases nodes.len(),
{
    if nodes.len() == 0 {
        0
    } else {
        tally(nodes.drop_last(), state) + (if nodes.last().state_type == state {
            1nat
        } else {
            0nat
        })
    }
}

impl Graph {
    /// `t` names a task.
    pub open spec fn has(self, t: TaskId) -> bool {
        t < self.nodes.len()
    }

    /// `t` names a task that is alive.
    pub open spec fn is_live(self, t: TaskId) -> bool {
        self.has(t) && self.nodes[t as int].alive
    }

    /// The state of task `t`.
    pub open spec fn state(self, t: TaskId) -> TaskStateType {
        self.nodes[t as int].state_type
    }

    /// Whether `t` is a root task.
    pub open spec fn is_root(self, t: TaskId) -> bool {
        self.nodes[t as int].ty is Root
    }

    /// The parents of `t` that are alive.
    pub open spec fn live_parents(self, t: TaskId) -> Seq<TaskId> {
        live_among(self.nodes, self.nodes[t as int].parents)
    }

    /// The same graph with task `t` replaced.
    pub open spec fn with_node(self, t: TaskId, node: Node) -> Graph {
        Graph { nodes: self.nodes.update(t as int, node), ..self }
    }

    /// The same graph with `t` in another state.
    pub open spec fn with_state(self, t: TaskId, state_type: TaskStateType) -> Graph {
        self.with_node(t, Node { state_type, ..self.nodes[t as int] })
    }

    /// The same graph with another count of `t`'s dirty children.
    pub open spec fn with_dirty(self, t: TaskId, dirty: usize) -> Graph {
        self.with_node(t, Node { dirty, ..self.nodes[t as int] })
    }

    /// The same graph with `t` done and all its listeners notified.
    pub open spec fn with_done(self, t: TaskId) -> Graph {
        let node = self.nodes[t as int];
        self.with_node(
            t,
            Node {
                state_type: TaskStateType::Done,
                notified: node.notified.push(usize::MAX),
                ..node
            },
        )
    }

    /// The same graph with `t` appended to the queue.
    pub open spec fn with_scheduled(self, t: TaskId) -> Graph {
        Graph { scheduled: self.scheduled.push(t), ..self }
    }

    /// The slot that `dep` stands for exists.
    pub open spec fn has_slot(self, dep: WeakSlotRef) -> bool {
        &&& self.has(dep.task())
        &&& dep matches WeakSlotRef::TaskCreated(task, index)
            ==> index < self.nodes[task as int].created.len()
    }

    /// Task `t` refers to tasks and slots that exist, and what it keeps alive is alive.
    pub open spec fn node_wf(self, t: TaskId) -> bool {
        let node = self.nodes[t as int];
        &&& forall|i: int| 0 <= i < node.parents.len() ==> self.has(#[trigger] node.parents[i])
        &&& forall|i: int| 0 <= i < node.children.len() ==> self.has(#[trigger] node.children[i])
        &&& node.alive ==> forall|i: int|
            0 <= i < node.children.len() ==> self.is_live(#[trigger] node.children[i])
        &&& forall|i: int|
            0 <= i < node.dependencies.len() ==> self.has_slot(#[trigger] node.dependencies[i])
    }

    /// Every task has an identity and refers to tasks and slots that exist.
    pub open spec fn wf(self) -> bool {
        &&& self.nodes.len() <= usize::MAX
        &&& forall|t: TaskId| self.has(t) ==> #[trigger] self.node_wf(t)
    }

    /// What a task's state promises of its children can be seen: the children of a
    /// done task are done, and a task with dirty children counts them.
    pub open spec fn state_ok(self, t: TaskId) -> bool {
        let node = self.nodes[t as int];
        match node.state_type {
            TaskStateType::Done => forall|i: int|
                0 <= i < node.children.len() ==> self.state(#[trigger] node.children[i]) is Done,
            TaskStateType::SomeChildrenDirty => unfinished(self.nodes, node.children)
                == node.dirty,
            _ => true,
        }
    }
}

/// Two graphs whose tasks agree on everything but their states, counts and
/// notifications.
pub open spec fn same_shape(a: Graph, b: Graph) -> bool {
    &&& a.nodes.len() == b.nodes.len()
    &&& forall|i: int| 0 <= i < a.nodes.len() ==> #[trigger] b.nodes[i] == (Node {
        state_type: b.nodes[i].state_type,
        dirty: b.nodes[i].dirty,
        notified: b.nodes[i].notified,
        ..a.nodes[i]
    })
}

pub proof fn lemma_tally_update(nodes: Seq<Node>, i: int, node: Node, state: TaskStateType)
    requires
        0 <= i < nodes.len(),
    ensures
        tally(nodes.update(i, node), state) == tally(nodes, state) - (if nodes[i].state_type
            == state {
            1int
        } else {
            0
        }) + (if node.state_type == state {
            1int
        } else {
            0
        }),
    decreases nodes.len(),
{
    let after = nodes.update(i, node);
    if i == nodes.len() - 1 {
        assert(after.drop_last() =~= nodes.drop_last());
    } else {
        assert(after.drop_last() =~= nodes.drop_last().update(i, node));
        lemma_tally_update(nodes.drop_last(), i, node, state);
    }
}

pub proof fn lemma_tally_le(a: Seq<Node>, b: Seq<Node>, state: TaskStateType)
    requires
        a.len() == b.len(),
        forall|i: int|
            0 <= i < a.len() && #[trigger] b[i].state_type == state ==> a[i].state_type == state,
    ensures
        tally(b, state) <= tally(a, state),
    decreases a.len(),
{
    if a.len() > 0 {
        assert forall|i: int|
            0 <= i < a.drop_last().len() && #[trigger] b.drop_last()[i].state_type
                == state implies a.drop_last()[i].state_type == state by {
            assert(b[i].state_type == state);
        }
        assert(b[b.len() - 1] == b.last());
        lemma_tally_le(a.drop_last(), b.drop_last(), state);
    }
}

pub proof fn lemma_live_among(nodes: Seq<Node>, ids: Seq<TaskId>)
    ensures
        forall|i: int|
            0 <= i < live_among(nodes, ids).len() ==> ids.contains(
                #[trigger] live_among(nodes, ids)[i],
            ) && nodes[live_among(nodes, ids)[i] as int].alive,
    decreases ids.len(),
{
    if ids.len() > 0 {
        let rest = ids.drop_last();
        lemma_live_among(nodes, rest);
        assert forall|i: int| 0 <= i < live_among(nodes, ids).len() implies ids.contains(
            #[trigger] live_among(nodes, ids)[i],
        ) && nodes[live_among(nodes, ids)[i] as int].alive by {
            if i < live_among(nodes, rest).len() {
                assert(live_among(nodes, ids)[i] == live_among(nodes, rest)[i]);
                let k = choose|k: int| 0 <= k < rest.len() && rest[k] == live_among(nodes, rest)[i];
                assert(ids[k] == live_among(nodes, ids)[i]);
            } else {
                assert(ids[ids.len() - 1] == live_among(nodes, ids)[i]);
            }
        }
    }
}

pub proof fn lemma_live_among_same(a: Seq<Node>, b: Seq<Node>, ids: Seq<TaskId>)
    requires
        forall|i: int|
            0 <= i < ids.len() ==> a[#[trigger] ids[i] as int].alive == b[ids[i] as int].alive,
    ensures
        live_among(a, ids) == live_among(b, ids),
    decreases ids.len(),
{
    if ids.len() > 0 {
        let rest = ids.drop_last();
        assert forall|i: int| 0 <= i < rest.len() implies a[#[trigger] rest[i] as int].alive
            == b[rest[i] as int].alive by {
            assert(rest[i] == ids[i]);
        }
        assert(ids[ids.len() - 1] == ids.last());
        lemma_live_among_same(a, b, rest);
    }
}

/// The live parents of a task in a well-formed graph are tasks that are alive.
pub proof fn lemma_live_parents(g: Graph, t: TaskId)
    requires
        g.wf(),
        g.has(t),
    ensures
        forall|i: int|
            0 <= i < g.live_parents(t).len() ==> g.is_live(#[trigger] g.live_parents(t)[i]),
{
    lemma_live_among(g.nodes, g.nodes[t as int].parents);
    assert(g.node_wf(t));
    assert forall|i: int| 0 <= i < g.live_parents(t).len() implies g.is_live(
        #[trigger] g.live_parents(t)[i],
    ) by {
        let p = g.live_parents(t)[i];
        let parents = g.nodes[t as int].parents;
        let k = choose|k: int| 0 <= k < parents.len() && parents[k] == p;
        assert(g.has(parents[k]));
    }
}

/// Graphs of one shape have the same live parents and are well formed together.
pub proof fn lemma_same_shape(a: Graph, b: Graph)
    requires
        a.wf(),
        same_shape(a, b),
    ensures
        b.wf(),
        forall|t: TaskId| a.has(t) ==> #[trigger] a.live_parents(t) == b.live_parents(t),
{
    assert forall|t: TaskId| b.has(t) implies #[trigger] b.node_wf(t) by {
        assert(a.node_wf(t));
        assert(b.nodes[t as int].parents == a.nodes[t as int].parents);
    }
    assert forall|t: TaskId| a.has(t) implies #[trigger] a.live_parents(t) == b.live_parents(t) by {
        assert(a.node_wf(t));
        let ids = a.nodes[t as int].parents;
        assert(b.nodes[t as int].parents == ids);
        assert forall|i: int| 0 <= i < ids.len() implies a.nodes[#[trigger] ids[i] as int].alive
            == b.nodes[ids[i] as int].alive by {
            assert(a.has(ids[i]));
            assert(b.nodes[ids[i] as int].alive == a.nodes[ids[i] as int].alive);
        }
        lemma_live_among_same(a.nodes, b.nodes, ids);
    }
}

/// Two graphs whose tasks agree on everything that well-formedness speaks of, except
/// that slots may have changed or been added.
pub open spec fn same_but_slots(a: Graph, b: Graph) -> bool {
    &&& a.nodes.len() == b.nodes.len()
    &&& forall|i: int| 0 <= i < a.nodes.len() ==> {
        &&& #[trigger] b.nodes[i].parents == a.nodes[i].parents
        &&& b.nodes[i].children == a.nodes[i].children
        &&& b.nodes[i].alive == a.nodes[i].alive
        &&& b.nodes[i].dependencies == a.nodes[i].dependencies
        &&& b.nodes[i].created.len() >= a.nodes[i].created.len()
    }
}

pub proof fn lemma_same_slots(a: Graph, b: Graph)
    requires
        a.wf(),
        same_but_slots(a, b),
    ensures
        b.wf(),
{
    assert forall|t: TaskId| b.has(t) implies #[trigger] b.node_wf(t) by {
        assert(a.node_wf(t));
        assert(b.nodes[t as int].parents == a.nodes[t as int].parents);
        let deps = a.nodes[t as int].dependencies;
        assert forall|i: int| 0 <= i < deps.len() implies b.has_slot(#[trigger] deps[i]) by {
            assert(a.has_slot(deps[i]));
            let owner = deps[i].task() as int;
            assert(b.nodes[owner].parents == a.nodes[owner].parents);
        }
        let children = a.nodes[t as int].children;
        assert forall|i: int| 0 <= i < children.len() && a.nodes[t as int].alive implies b.is_live(
            #[trigger] children[i],
        ) by {
            assert(a.is_live(children[i]));
            assert(b.nodes[children[i] as int].parents == a.nodes[children[i] as int].parents);
        }
    }
}

impl TurboTasks {
    /// No tasks.
    pub fn new() -> (turbo_tasks: TurboTasks)
        ensures
            turbo_tasks@ == (Graph { nodes: Seq::empty(), scheduled: Seq::empty() }),
            turbo_tasks@.wf(),
    {
        let turbo_tasks = TurboTasks { tasks: Vec::new(), scheduled: Vec::new() };
        assert(turbo_tasks@.nodes =~= Seq::empty());
        turbo_tasks
    }

    /// No task has more slots than can be numbered.
    pub(crate) proof fn lemma_slots_fit(&self)
        ensures
            forall|i: int|
                0 <= i < self@.nodes.len() ==> (#[trigger] self@.nodes[i]).created.len()
                    <= usize::MAX,
    {
        assert forall|i: int| 0 <= i < self@.nodes.len() implies (
        #[trigger] self@.nodes[i]).created.len() <= usize::MAX by {
            assert(self.tasks@[i].state.created_slots.len()
                == self.tasks@[i].state.created_slots@.len());
        }
    }

    pub(crate) fn set_state(&mut self, t: TaskId, state_type: TaskStateType)
        requires
            old(self)@.has(t),
        ensures
            final(self)@ == old(self)@.with_state(t, state_type),
            final(self).tasks@.len() == old(self).tasks@.len(),
    {
        self.tasks[t].state.state_type = state_type;
        assert(self@.nodes =~= old(self)@.with_state(t, state_type).nodes);
    }

    pub(crate) fn set_dirty(&mut self, t: TaskId, dirty: usize)
        requires
            old(self)@.has(t),
        ensures
            final(self)@ == old(self)@.with_dirty(t, dirty),
            final(self).tasks@.len() == old(self).tasks@.len(),
    {
        self.tasks[t].state.dirty_children_count = dirty;
        assert(self@.nodes =~= old(self)@.with_dirty(t, dirty).nodes);
    }

    pub(crate) fn set_done(&mut self, t: TaskId)
        requires
            old(self)@.has(t),
        ensures
            final(self)@ == old(self)@.with_done(t),
            final(self).tasks@.len() == old(self).tasks@.len(),
    {
        self.tasks[t].state.state_type = TaskStateType::Done;
        event_notify(&mut self.tasks[t].state.event, usize::MAX);
        assert(self@.nodes[t as int].listeners =~= old(self)@.nodes[t as int].listeners);
        assert(self@.nodes =~= old(self)@.with_done(t).nodes);
    }

    /// Queues `t` for execution.
    pub fn schedule(&mut self, t: TaskId)
        ensures
            final(self)@ == old(self)@.with_scheduled(t),
    {
        self.scheduled.push(t);
    }

    pub(crate) fn live_parents(&self, t: TaskId) -> (parents: Vec<TaskId>)
        requires
            self@.wf(),
            self@.has(t),
        ensures
            parents@ == self@.live_parents(t),
    {
        let mut parents: Vec<TaskId> = Vec::new();
        let ghost all = self@.nodes[t as int].parents;
        let mut i: usize = 0;
        while i < self.tasks[t].state.parents.len()
            invariant
                self@.wf(),
                self@.has(t),
                all == self@.nodes[t as int].parents,
                i <= all.len(),
                parents@ == live_among(self@.nodes, all.take(i as int)),
            decreases all.len() - i,
        {
            let p: TaskId = self.tasks[t].state.parents[i];
            proof {
                assert(self@.node_wf(t));
                assert(p == all[i as int]);
                assert(self@.has(all[i as int]));
                assert(all.take(i + 1).drop_last() =~= all.take(i as int));
            }
            if self.tasks[p].alive {
                parents.push(p);
            }
            i += 1;
        }
        assert(all.take(all.len() as int) =~= all);
        parents
    }
}

} // verus!
