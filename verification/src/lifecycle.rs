//! The life of a task: how it joins the graph, executes and is connected to the tasks
//! that use it.

use crate::done::{checked, tell_done};
use crate::fault::{audit, Fault, Step};
use crate::graph::{
    lemma_live_parents, lemma_same_shape, lemma_same_slots, Graph, TurboTasks,
};
use crate::slot::{
    lemma_purged, lemma_purged_nothing, purged, remove_all, SlotContent, SlotModel, SlotRef,
    TaskId, WeakSlotRef,
};
use crate::task::{Node, Task, TaskStateType};
use vstd::prelude::*;

verus! {

/// The graph in which the execution of `t` has begun: the task has no children and has
/// read no slots yet.
pub open spec fn begun(g: Graph, t: TaskId) -> Graph {
    g.with_node(
        t,
        Node {
            state_type: TaskStateType::InProgressLocally,
            dirty: 0,
            children: Seq::empty(),
            dependencies: Seq::empty(),
            ..g.nodes[t as int]
        },
    )
}

/// The graph in which none of `children` has `t` as a parent.
pub open spec fn without_parent(g: Graph, children: Seq<TaskId>, t: TaskId) -> Graph {
    Graph {
        nodes: Seq::new(
            g.nodes.len(),
            |i: int|
                if children.contains(i as TaskId) {
                    Node { parents: purged(g.nodes[i].parents, t), ..g.nodes[i] }
                } else {
                    g.nodes[i]
                },
        ),
        ..g
    }
}

/// `slot` without `t` among its readers.
pub open spec fn without_dependent(slot: SlotModel, t: TaskId) -> SlotModel {
    SlotModel { dependents: purged(slot.dependents, t), ..slot }
}

/// Task `i` as it is once `t` no longer reads the slots in `deps`.
pub open spec fn node_without_reader(
    node: Node,
    i: TaskId,
    deps: Seq<WeakSlotRef>,
    t: TaskId,
) -> Node {
    Node {
        output: if node.alive && deps.contains(WeakSlotRef::TaskOutput(i)) {
            without_dependent(node.output, t)
        } else {
            node.output
        },
        created: Seq::new(
            node.created.len(),
            |j: int|
                if node.alive && deps.contains(WeakSlotRef::TaskCreated(i, j as usize)) {
                    without_dependent(node.created[j], t)
                } else {
                    node.created[j]
                },
        ),
        ..node
    }
}

/// The graph in which `t` reads none of the slots in `deps` that belong to live tasks.
pub open spec fn without_reader(g: Graph, deps: Seq<WeakSlotRef>, t: TaskId) -> Graph {
    Graph {
        nodes: Seq::new(
            g.nodes.len(),
            |i: int| node_without_reader(g.nodes[i], i as TaskId, deps, t),
        ),
        ..g
    }
}

/// The graph with one more execution of `t` counted.
pub open spec fn executed_once_more(g: Graph, t: TaskId) -> Graph {
    let node = g.nodes[t as int];
    g.with_node(t, Node { executions: (node.executions + 1) as u32, ..node })
}

/// The graph in which `t` executes and is detached from everything that its last
/// execution has used.
pub open spec fn restarted(g: Graph, t: TaskId) -> Graph {
    let node = g.nodes[t as int];
    without_reader(
        without_parent(begun(g, t), node.children, t),
        node.dependencies,
        t,
    )
}

/// What happens when the execution of `t` starts.
pub open spec fn execution_started_step(g: Graph, t: TaskId) -> Step<()> {
    let node = g.nodes[t as int];
    if audit(g, t) is Err {
        Step { graph: g, result: audit(g, t) }
    } else if node.executions == u32::MAX {
        Step { graph: g, result: Err(Fault::ExecutionsOverflow) }
    } else {
        let counted = executed_once_more(g, t);
        match node.state_type {
            TaskStateType::Scheduled | TaskStateType::InProgressLocallyOutdated => Step {
                graph: restarted(counted, t),
                result: audit(restarted(counted, t), t),
            },
            _ => Step { graph: counted, result: Err(Fault::StartedInState(node.state_type)) },
        }
    }
}

/// `slot` standing for whatever `target` holds.
pub open spec fn linked_slot(slot: SlotModel, target: SlotRef) -> SlotModel {
    SlotModel { content: SlotContent::Link(target), ..slot }
}

/// What happens when the execution of `t` has come to `result`.
///
/// The task is done, and tells its parents, if all its children are; else it waits for
/// them. If it went out of date meanwhile, it is scheduled again and `result` is lost.
pub open spec fn execution_completed_step(g: Graph, t: TaskId, result: SlotRef) -> Step<()> {
    let node = g.nodes[t as int];
    if audit(g, t) is Err {
        Step { graph: g, result: audit(g, t) }
    } else {
        match node.state_type {
            TaskStateType::InProgressLocally => {
                let output = linked_slot(node.output, result);
                if node.dirty == 0 {
                    tell_done(g.with_done(t).with_output(t, output), g.live_parents(t))
                } else {
                    Step {
                        graph: g.with_state(
                            t,
                            TaskStateType::SomeChildrenScheduled,
                        ).with_output(t, output),
                        result: Ok(()),
                    }
                }
            },
            TaskStateType::InProgressLocallyOutdated => Step {
                graph: g.with_state(t, TaskStateType::Scheduled).with_scheduled(t),
                result: Ok(()),
            },
            _ => Step { graph: g, result: Err(Fault::CompletedInState(node.state_type)) },
        }
    }
}

/// The graph in which `parent` uses `child`.
pub open spec fn connected(g: Graph, child: TaskId, parent: TaskId) -> Graph {
    let p = g.nodes[parent as int];
    let c = g.nodes[child as int];
    g.with_node(parent, Node { children: p.children.push(child), ..p }).with_node(
        child,
        Node { parents: c.parents.push(parent), ..c },
    )
}

/// What happens when `parent` starts to use `child`: a child that is not done is counted.
/// Only children that are done get attached to a parent that is.
pub open spec fn connect_parent_step(g: Graph, child: TaskId, parent: TaskId) -> Step<()> {
    let count = g.nodes[parent as int].dirty;
    if !g.state_ok(child) {
        Step { graph: g, result: Err(Fault::StateMismatch(child)) }
    } else if g.state(parent) is Done && !(g.state(child) is Done) {
        Step { graph: g, result: Err(Fault::UnfinishedChildOfDone) }
    } else if g.state(child) is Done {
        checked(connected(g, child, parent), child)
    } else if count == usize::MAX {
        Step { graph: connected(g, child, parent), result: Err(Fault::CountOverflow) }
    } else {
        checked(connected(g, child, parent).with_dirty(parent, (count + 1) as usize), child)
    }
}

proof fn lemma_take_contains<T>(s: Seq<T>, k: int, x: T)
    requires
        0 <= k < s.len(),
    ensures
        s.take(k + 1).contains(x) <==> s.take(k).contains(x) || x == s[k],
{
    let longer = s.take(k + 1);
    let shorter = s.take(k);
    if longer.contains(x) && x != s[k] {
        let m = choose|m: int| 0 <= m < longer.len() && longer[m] == x;
        assert(shorter[m] == x);
    }
    if shorter.contains(x) {
        let m = choose|m: int| 0 <= m < shorter.len() && shorter[m] == x;
        assert(longer[m] == x);
    }
    assert(longer[k] == s[k]);
}

proof fn lemma_without_parent(g: Graph, children: Seq<TaskId>, k: int, t: TaskId)
    requires
        g.nodes.len() <= usize::MAX,
        0 <= k < children.len(),
        forall|i: int| 0 <= i < children.len() ==> g.has(#[trigger] children[i]),
    ensures
        ({
            let c = children[k];
            let now = without_parent(g, children.take(k), t);
            without_parent(g, children.take(k + 1), t) == now.with_node(
                c,
                Node { parents: purged(now.nodes[c as int].parents, t), ..now.nodes[c as int] },
            )
        }),
{
    let c = children[k];
    let now = without_parent(g, children.take(k), t);
    let next = without_parent(g, children.take(k + 1), t);
    assert(g.has(children[k]));
    lemma_purged(g.nodes[c as int].parents, t, t);
    lemma_purged_nothing(purged(g.nodes[c as int].parents, t), t);
    assert forall|i: int| 0 <= i < g.nodes.len() implies next.nodes[i] == now.with_node(
        c,
        Node { parents: purged(now.nodes[c as int].parents, t), ..now.nodes[c as int] },
    ).nodes[i] by {
        lemma_take_contains(children, k, i as TaskId);
    }
    assert(next.nodes =~= now.with_node(
        c,
        Node { parents: purged(now.nodes[c as int].parents, t), ..now.nodes[c as int] },
    ).nodes);
}

proof fn lemma_without_reader(g: Graph, deps: Seq<WeakSlotRef>, k: int, t: TaskId)
    requires
        g.nodes.len() <= usize::MAX,
        0 <= k < deps.len(),
        g.has_slot(deps[k]),
        forall|i: int|
            0 <= i < g.nodes.len() ==> (#[trigger] g.nodes[i]).created.len() <= usize::MAX,
    ensures
        ({
            let now = without_reader(g, deps.take(k), t);
            let owner = deps[k].task();
            let node = now.nodes[owner as int];
            without_reader(g, deps.take(k + 1), t) == if !node.alive {
                now
            } else {
                match deps[k] {
                    WeakSlotRef::TaskOutput(_) => now.with_output(
                        owner,
                        without_dependent(node.output, t),
                    ),
                    WeakSlotRef::TaskCreated(_, index) => now.with_created(
                        owner,
                        index as int,
                        without_dependent(node.created[index as int], t),
                    ),
                }
            }
        }),
{
    let now = without_reader(g, deps.take(k), t);
    let next = without_reader(g, deps.take(k + 1), t);
    let owner = deps[k].task();
    let was = g.nodes[owner as int];
    lemma_purged(was.output.dependents, t, t);
    lemma_purged_nothing(purged(was.output.dependents, t), t);
    if let WeakSlotRef::TaskCreated(_, index) = deps[k] {
        lemma_purged(was.created[index as int].dependents, t, t);
        lemma_purged_nothing(purged(was.created[index as int].dependents, t), t);
    }
    let node = now.nodes[owner as int];
    let expected = if !node.alive {
        now
    } else {
        match deps[k] {
            WeakSlotRef::TaskOutput(_) => now.with_output(
                owner,
                without_dependent(node.output, t),
            ),
            WeakSlotRef::TaskCreated(_, index) => now.with_created(
                owner,
                index as int,
                without_dependent(node.created[index as int], t),
            ),
        }
    };
    assert forall|i: int| 0 <= i < g.nodes.len() implies next.nodes[i] == expected.nodes[i] by {
        let x = i as TaskId;
        lemma_take_contains(deps, k, WeakSlotRef::TaskOutput(x));
        assert(next.nodes[i].output == expected.nodes[i].output);
        assert forall|j: int| 0 <= j < g.nodes[i].created.len() implies next.nodes[i].created[j]
            == expected.nodes[i].created[j] by {
            lemma_take_contains(deps, k, WeakSlotRef::TaskCreated(x, j as usize));
        }
        assert(next.nodes[i].created =~= expected.nodes[i].created);
    }
    assert(next.nodes =~= expected.nodes);
}

/// Detaching a task from what it used keeps the graph well formed.
pub proof fn lemma_restarted(g: Graph, t: TaskId)
    requires
        g.wf(),
        g.has(t),
    ensures
        begun(g, t).wf(),
        without_parent(begun(g, t), g.nodes[t as int].children, t).wf(),
        restarted(g, t).wf(),
{
    let node = g.nodes[t as int];
    let first = begun(g, t);
    assert forall|x: TaskId| first.has(x) implies #[trigger] first.node_wf(x) by {
        assert(g.node_wf(x));
    }
    let second = without_parent(first, node.children, t);
    assert forall|x: TaskId| second.has(x) implies #[trigger] second.node_wf(x) by {
        assert(first.node_wf(x));
        let all = first.nodes[x as int].parents;
        let left = second.nodes[x as int].parents;
        assert forall|i: int| 0 <= i < left.len() implies second.has(#[trigger] left[i]) by {
            assert(left.contains(left[i]));
            lemma_purged(all, t, left[i]);
            let k = choose|k: int| 0 <= k < all.len() && all[k] == left[i];
            assert(first.has(all[k]));
        }
    }
    lemma_same_slots(second, restarted(g, t));
}

/// The graph with one more task.
pub open spec fn inserted(g: Graph, node: Node) -> Graph {
    Graph { nodes: g.nodes.push(node), ..g }
}

/// A new task that refers to nothing keeps the graph well formed.
pub proof fn lemma_inserted(g: Graph, node: Node)
    requires
        g.wf(),
        g.nodes.len() < usize::MAX,
        node.parents.len() == 0,
        node.children.len() == 0,
        node.dependencies.len() == 0,
    ensures
        inserted(g, node).wf(),
{
    let after = inserted(g, node);
    assert forall|t: TaskId| after.has(t) implies #[trigger] after.node_wf(t) by {
        if g.has(t) {
            assert(g.node_wf(t));
            let was = g.nodes[t as int];
            assert(after.nodes[t as int] == was);
            assert forall|i: int| 0 <= i < was.children.len() && was.alive implies after.is_live(
                #[trigger] was.children[i],
            ) by {
                assert(g.is_live(was.children[i]));
            }
            assert forall|i: int| 0 <= i < was.dependencies.len() implies after.has_slot(
                #[trigger] was.dependencies[i],
            ) by {
                assert(g.has_slot(was.dependencies[i]));
            }
        }
    }
}

/// A task with the value `node` keeps task `t` alive: as a child, or by a reference among
/// its inputs or in one of its slots.
pub open spec fn holds(node: Node, t: TaskId) -> bool {
    ||| node.children.contains(t)
    ||| exists|i: int| 0 <= i < node.inputs.len() && (#[trigger] node.inputs[i]).leads_to(t)
    ||| node.output.content.links_to(t)
    ||| exists|i: int|
        0 <= i < node.created.len() && (#[trigger] node.created[i]).content.links_to(t)
}

/// No other live task keeps `t` alive.
pub open spec fn releasable(g: Graph, t: TaskId) -> bool {
    &&& g.has(t)
    &&& forall|p: TaskId| g.is_live(p) && p != t ==> !holds(#[trigger] g.nodes[p as int], t)
}

/// An execution of `t` waits or runs, which keeps the task alive.
pub open spec fn has_execution(g: Graph, t: TaskId) -> bool {
    ||| g.state(t) is Scheduled
    ||| g.state(t) is InProgressLocally
    ||| g.state(t) is InProgressLocallyOutdated
    ||| g.scheduled.contains(t)
}

/// The graph in which `t` is no longer alive.
pub open spec fn released(g: Graph, t: TaskId) -> Graph {
    g.with_node(t, Node { alive: false, ..g.nodes[t as int] })
}

/// Releasing a task that no live task uses keeps the graph well formed.
pub proof fn lemma_released(g: Graph, t: TaskId)
    requires
        g.wf(),
        releasable(g, t),
    ensures
        released(g, t).wf(),
{
    let after = released(g, t);
    assert forall|p: TaskId| after.has(p) implies #[trigger] after.node_wf(p) by {
        assert(g.node_wf(p));
        let node = g.nodes[p as int];
        assert forall|i: int|
            0 <= i < node.children.len() && after.nodes[p as int].alive implies after.is_live(
            #[trigger] node.children[i],
        ) by {
            assert(g.is_live(p));
            assert(g.is_live(node.children[i]));
            assert(node.children.contains(node.children[i]));
        }
        assert forall|i: int| 0 <= i < node.dependencies.len() implies after.has_slot(
            #[trigger] node.dependencies[i],
        ) by {
            assert(g.has_slot(node.dependencies[i]));
        }
    }
}

impl TurboTasks {
    /// Takes `task` into the graph and returns its identity.
    pub fn insert(&mut self, task: Task) -> (id: TaskId)
        requires
            old(self)@.wf(),
            task@.parents.len() == 0,
            task@.children.len() == 0,
            task@.dependencies.len() == 0,
        ensures
            final(self)@.wf(),
            id == old(self)@.nodes.len(),
            final(self)@ == inserted(old(self)@, task@),
    {
        let id: TaskId = self.tasks.len();
        let ghost before = self@;
        self.tasks.push(task);
        proof {
            assert(self@.nodes =~= inserted(before, task@).nodes);
            assert(self.tasks.len() == self@.nodes.len());
            lemma_inserted(before, task@);
        }
        id
    }

    /// Tells whether no other live task keeps `task` alive.
    pub fn is_releasable(&self, task: TaskId) -> (yes: bool)
        requires
            self@.has(task),
        ensures
            yes == releasable(self@, task),
    {
        let mut p: TaskId = 0;
        while p < self.tasks.len()
            invariant
                self@.has(task),
                p <= self.tasks@.len(),
                forall|x: TaskId|
                    x < p && self@.is_live(x) && x != task ==> !holds(
                        #[trigger] self@.nodes[x as int],
                        task,
                    ),
            decreases self.tasks.len() - p,
        {
            assert(self@.nodes[p as int] == self.tasks@[p as int]@);
            if self.tasks[p].alive && p != task && self.tasks[p].keeps_alive(task) {
                return false;
            }
            p += 1;
        }
        true
    }

    /// Tells whether an execution of `task` waits or runs.
    fn has_execution(&self, task: TaskId) -> (yes: bool)
        requires
            self@.has(task),
        ensures
            yes == has_execution(self@, task),
    {
        match self.tasks[task].state.state_type {
            TaskStateType::Scheduled
            | TaskStateType::InProgressLocally
            | TaskStateType::InProgressLocallyOutdated => true,
            _ => {
                let mut i: usize = 0;
                while i < self.scheduled.len()
                    invariant
                        i <= self.scheduled@.len(),
                        forall|k: int| 0 <= k < i ==> self.scheduled@[k] != task,
                    decreases self.scheduled.len() - i,
                {
                    if self.scheduled[i] == task {
                        assert(self@.scheduled[i as int] == task);
                        return true;
                    }
                    i += 1;
                }
                false
            },
        }
    }

    /// Lets `task` die if neither another live task nor an execution keeps it alive, and
    /// tells whether it did.
    pub fn try_release(&mut self, task: TaskId) -> (gone: bool)
        requires
            old(self)@.wf(),
            old(self)@.has(task),
        ensures
            final(self)@.wf(),
            gone == (releasable(old(self)@, task) && !has_execution(old(self)@, task)),
            final(self)@ == if gone {
                released(old(self)@, task)
            } else {
                old(self)@
            },
    {
        if self.has_execution(task) || !self.is_releasable(task) {
            return false;
        }
        self.release(task);
        true
    }

    /// Takes note that nothing keeps `task` alive any more.
    pub fn release(&mut self, task: TaskId)
        requires
            old(self)@.wf(),
            releasable(old(self)@, task),
        ensures
            final(self)@.wf(),
            final(self)@ == released(old(self)@, task),
    {
        let ghost before = self@;
        self.tasks[task].alive = false;
        proof {
            assert(self@.nodes =~= released(before, task).nodes);
            lemma_released(before, task);
        }
    }

    /// Hands out the tasks that wait to be executed, in the order in which they were
    /// scheduled.
    pub fn take_scheduled(&mut self) -> (tasks: Vec<TaskId>)
        ensures
            tasks@ == old(self)@.scheduled,
            final(self)@ == (Graph { scheduled: Seq::empty(), ..old(self)@ }),
    {
        let mut tasks: Vec<TaskId> = Vec::new();
        std::mem::swap(&mut tasks, &mut self.scheduled);
        assert(self.scheduled@ =~= Seq::empty());
        tasks
    }

    /// Removes `t` from the readers of the slot `dep`, unless the slot's task is gone.
    fn remove_dependency(&mut self, dep: WeakSlotRef, t: TaskId)
        requires
            old(self)@.has_slot(dep),
        ensures
            final(self)@ == if !old(self)@.nodes[dep.task() as int].alive {
                old(self)@
            } else {
                match dep {
                    WeakSlotRef::TaskOutput(owner) => old(self)@.with_output(
                        owner,
                        without_dependent(old(self)@.nodes[owner as int].output, t),
                    ),
                    WeakSlotRef::TaskCreated(owner, index) => old(self)@.with_created(
                        owner,
                        index as int,
                        without_dependent(
                            old(self)@.nodes[owner as int].created[index as int],
                            t,
                        ),
                    ),
                }
            },
    {
        let ghost before = self@;
        match dep {
            WeakSlotRef::TaskOutput(owner) => {
                if self.tasks[owner].alive {
                    remove_all(&mut self.tasks[owner].state.output_slot.dependents, t);
                    assert(self@.nodes =~= before.with_output(
                        owner,
                        without_dependent(before.nodes[owner as int].output, t),
                    ).nodes);
                }
            },
            WeakSlotRef::TaskCreated(owner, index) => {
                if self.tasks[owner].alive {
                    remove_all(&mut self.tasks[owner].state.created_slots[index].dependents, t);
                    proof {
                        let after = before.with_created(
                            owner,
                            index as int,
                            without_dependent(
                                before.nodes[owner as int].created[index as int],
                                t,
                            ),
                        );
                        assert(self@.nodes[owner as int].created
                            =~= after.nodes[owner as int].created);
                        assert(self@.nodes =~= after.nodes);
                    }
                }
            },
        }
    }
}

impl Task {
    /// Tells whether the task keeps task `t` alive.
    fn keeps_alive(&self, t: TaskId) -> (yes: bool)
        ensures
            yes == holds(self@, t),
    {
        let mut i: usize = 0;
        while i < self.state.children.len()
            invariant
                i <= self@.children.len(),
                forall|k: int| 0 <= k < i ==> self@.children[k] != t,
            decreases self.state.children.len() - i,
        {
            if self.state.children[i] == t {
                assert(self@.children[i as int] == t);
                return true;
            }
            i += 1;
        }
        let mut i: usize = 0;
        while i < self.inputs.len()
            invariant
                i <= self@.inputs.len(),
                forall|k: int| 0 <= k < i ==> !(#[trigger] self@.inputs[k]).leads_to(t),
            decreases self.inputs.len() - i,
        {
            if self.inputs[i].is_ref_to(t) {
                assert(self@.inputs[i as int].leads_to(t));
                return true;
            }
            i += 1;
        }
        if self.state.output_slot.content.is_link_to(t) {
            return true;
        }
        let mut i: usize = 0;
        while i < self.state.created_slots.len()
            invariant
                i <= self@.created.len(),
                forall|k: int| 0 <= k < i ==> !(#[trigger] self@.created[k]).content.links_to(t),
            decreases self.state.created_slots.len() - i,
        {
            assert(self@.created[i as int] == self.state.created_slots@[i as int]@);
            if self.state.created_slots[i].content.is_link_to(t) {
                assert(self@.created[i as int].content.links_to(t));
                return true;
            }
            i += 1;
        }
        false
    }

    /// Detaches `task`, whose execution starts, from everything that its last execution
    /// has used.
    fn restart(task: TaskId, turbo_tasks: &mut TurboTasks)
        requires
            old(turbo_tasks)@.wf(),
            old(turbo_tasks)@.has(task),
        ensures
            final(turbo_tasks)@ == restarted(old(turbo_tasks)@, task),
            final(turbo_tasks)@.wf(),
    {
        let ghost before = turbo_tasks@;
        let ghost node = before.nodes[task as int];
        proof {
            lemma_restarted(before, task);
            assert(before.node_wf(task));
        }
        let mut children: Vec<TaskId> = Vec::new();
        let mut dependencies: Vec<WeakSlotRef> = Vec::new();
        turbo_tasks.tasks[task].state.state_type = TaskStateType::InProgressLocally;
        std::mem::swap(&mut children, &mut turbo_tasks.tasks[task].state.children);
        turbo_tasks.tasks[task].state.dirty_children_count = 0;
        std::mem::swap(&mut dependencies, &mut turbo_tasks.tasks[task].dependencies);
        let ghost first = begun(before, task);
        proof {
            assert(turbo_tasks@.nodes[task as int].children =~= Seq::empty());
            assert(turbo_tasks@.nodes[task as int].dependencies =~= Seq::empty());
            assert(turbo_tasks@.nodes =~= first.nodes);
            assert(without_parent(first, children@.take(0), task).nodes =~= first.nodes);
        }
        let mut i: usize = 0;
        while i < children.len()
            invariant
                first.wf(),
                first.has(task),
                i <= children@.len(),
                forall|k: int| 0 <= k < children@.len() ==> first.has(#[trigger] children@[k]),
                turbo_tasks@ == without_parent(first, children@.take(i as int), task),
            decreases children.len() - i,
        {
            let child: TaskId = children[i];
            let ghost now = turbo_tasks@;
            proof {
                assert(first.has(children@[i as int]));
                lemma_without_parent(first, children@, i as int, task);
            }
            assert(turbo_tasks.tasks@.len() == now.nodes.len());
            remove_all(&mut turbo_tasks.tasks[child].state.parents, task);
            assert(turbo_tasks@.nodes =~= now.with_node(
                child,
                Node {
                    parents: purged(now.nodes[child as int].parents, task),
                    ..now.nodes[child as int]
                },
            ).nodes);
            i += 1;
        }
        let ghost second = turbo_tasks@;
        proof {
            assert(children@.take(children@.len() as int) =~= children@);
            turbo_tasks.lemma_slots_fit();
            let none = without_reader(second, dependencies@.take(0), task);
            assert forall|x: int| 0 <= x < second.nodes.len() implies none.nodes[x]
                == second.nodes[x] by {
                assert(none.nodes[x].created =~= second.nodes[x].created);
            }
            assert(none.nodes =~= second.nodes);
            assert forall|k: int| 0 <= k < dependencies@.len() implies second.has_slot(
                #[trigger] dependencies@[k],
            ) by {
                assert(before.has_slot(dependencies@[k]));
            }
        }
        let mut i: usize = 0;
        while i < dependencies.len()
            invariant
                second.wf(),
                i <= dependencies@.len(),
                forall|k: int|
                    0 <= k < dependencies@.len() ==> second.has_slot(#[trigger] dependencies@[k]),
                forall|x: int|
                    0 <= x < second.nodes.len() ==> (#[trigger] second.nodes[x]).created.len()
                        <= usize::MAX,
                turbo_tasks@ == without_reader(second, dependencies@.take(i as int), task),
            decreases dependencies.len() - i,
        {
            let dep: WeakSlotRef = dependencies[i];
            proof {
                assert(second.has_slot(dependencies@[i as int]));
                lemma_without_reader(second, dependencies@, i as int, task);
            }
            turbo_tasks.remove_dependency(dep, task);
            i += 1;
        }
        assert(dependencies@.take(dependencies@.len() as int) =~= dependencies@);
    }

    /// Starts the execution of `task`. Reports what is found wrong.
    pub fn try_execution_started(task: TaskId, turbo_tasks: &mut TurboTasks) -> (result: Result<
        (),
        Fault,
    >)
        requires
            old(turbo_tasks)@.wf(),
            old(turbo_tasks)@.is_live(task),
        ensures
            result == execution_started_step(old(turbo_tasks)@, task).result,
            final(turbo_tasks)@ == execution_started_step(old(turbo_tasks)@, task).graph,
            final(turbo_tasks)@.wf(),
    {
        let ghost before = turbo_tasks@;
        if let Err(fault) = Task::audit(task, turbo_tasks) {
            return Err(fault);
        }
        let executions: u32 = turbo_tasks.tasks[task].state.executions;
        if executions == u32::MAX {
            return Err(Fault::ExecutionsOverflow);
        }
        turbo_tasks.tasks[task].state.executions = executions + 1;
        proof {
            assert(turbo_tasks@.nodes =~= executed_once_more(before, task).nodes);
            lemma_same_slots(before, turbo_tasks@);
        }
        let state_type = turbo_tasks.tasks[task].state.state_type;
        match state_type {
            TaskStateType::Scheduled | TaskStateType::InProgressLocallyOutdated => {
                Task::restart(task, turbo_tasks);
                Task::audit(task, turbo_tasks)
            },
            _ => Err(Fault::StartedInState(state_type)),
        }
    }

    /// Ends the execution of `task`, which has come to `result`. Reports what is found
    /// wrong.
    pub fn try_execution_completed(
        task: TaskId,
        result: SlotRef,
        turbo_tasks: &mut TurboTasks,
    ) -> (verdict: Result<(), Fault>)
        requires
            old(turbo_tasks)@.wf(),
            old(turbo_tasks)@.is_live(task),
        ensures
            verdict == execution_completed_step(old(turbo_tasks)@, task, result).result,
            final(turbo_tasks)@ == execution_completed_step(
                old(turbo_tasks)@,
                task,
                result,
            ).graph,
            final(turbo_tasks)@.wf(),
    {
        let ghost before = turbo_tasks@;
        if let Err(fault) = Task::audit(task, turbo_tasks) {
            return Err(fault);
        }
        let state_type = turbo_tasks.tasks[task].state.state_type;
        match state_type {
            TaskStateType::InProgressLocally => {
                let ghost output = linked_slot(before.nodes[task as int].output, result);
                if turbo_tasks.tasks[task].state.dirty_children_count == 0 {
                    let parents = turbo_tasks.live_parents(task);
                    turbo_tasks.set_done(task);
                    turbo_tasks.tasks[task].state.output_slot.link(result);
                    let ghost start = turbo_tasks@;
                    proof {
                        assert(start.nodes =~= before.with_done(task).with_output(
                            task,
                            output,
                        ).nodes);
                        lemma_same_slots(before, start);
                        lemma_live_parents(before, task);
                        assert forall|i: int| 0 <= i < parents@.len() implies start.is_live(
                            #[trigger] parents@[i],
                        ) by {
                            assert(before.is_live(parents@[i]));
                        }
                    }
                    Task::tell_done(&parents, turbo_tasks)
                } else {
                    turbo_tasks.set_state(task, TaskStateType::SomeChildrenScheduled);
                    turbo_tasks.tasks[task].state.output_slot.link(result);
                    proof {
                        assert(turbo_tasks@.nodes =~= before.with_state(
                            task,
                            TaskStateType::SomeChildrenScheduled,
                        ).with_output(task, output).nodes);
                        lemma_same_slots(before, turbo_tasks@);
                    }
                    Ok(())
                }
            },
            TaskStateType::InProgressLocallyOutdated => {
                turbo_tasks.set_state(task, TaskStateType::Scheduled);
                turbo_tasks.schedule(task);
                proof {
                    lemma_same_shape(before, turbo_tasks@);
                }
                Ok(())
            },
            _ => Err(Fault::CompletedInState(state_type)),
        }
    }

    /// Lets `parent` use `task`. Reports what is found wrong.
    pub fn try_connect_parent(
        task: TaskId,
        parent: TaskId,
        turbo_tasks: &mut TurboTasks,
    ) -> (result: Result<(), Fault>)
        requires
            old(turbo_tasks)@.wf(),
            old(turbo_tasks)@.is_live(task),
            old(turbo_tasks)@.is_live(parent),
            task != parent,
        ensures
            result == connect_parent_step(old(turbo_tasks)@, task, parent).result,
            final(turbo_tasks)@ == connect_parent_step(old(turbo_tasks)@, task, parent).graph,
            final(turbo_tasks)@.wf(),
    {
        let ghost before = turbo_tasks@;
        if !Task::assert_state(task, turbo_tasks) {
            return Err(Fault::StateMismatch(task));
        }
        if turbo_tasks.tasks[parent].state.state_type == TaskStateType::Done
            && turbo_tasks.tasks[task].state.state_type != TaskStateType::Done {
            return Err(Fault::UnfinishedChildOfDone);
        }
        turbo_tasks.tasks[parent].state.children.push(task);
        turbo_tasks.tasks[task].state.parents.push(parent);
        proof {
            lemma_connected(before, task, parent);
            assert(turbo_tasks@.nodes =~= connected(before, task, parent).nodes);
        }
        match turbo_tasks.tasks[task].state.state_type {
            TaskStateType::Done => {},
            _ => {
                let count: usize = turbo_tasks.tasks[parent].state.dirty_children_count;
                if count == usize::MAX {
                    return Err(Fault::CountOverflow);
                }
                let ghost now = turbo_tasks@;
                turbo_tasks.set_dirty(parent, count + 1);
                proof {
                    lemma_same_shape(now, turbo_tasks@);
                }
            },
        }
        if Task::assert_state(task, turbo_tasks) {
            Ok(())
        } else {
            Err(Fault::StateMismatch(task))
        }
    }

    /// Starts the execution of `task`.
    pub fn execution_started(task: TaskId, turbo_tasks: &mut TurboTasks)
        requires
            old(turbo_tasks)@.wf(),
            old(turbo_tasks)@.is_live(task),
            execution_started_step(old(turbo_tasks)@, task).result is Ok,
        ensures
            final(turbo_tasks)@ == execution_started_step(old(turbo_tasks)@, task).graph,
            final(turbo_tasks)@.wf(),
    {
        let _ = Task::try_execution_started(task, turbo_tasks);
    }

    /// Ends the execution of `task`, which has come to `result`.
    pub fn execution_completed(task: TaskId, result: SlotRef, turbo_tasks: &mut TurboTasks)
        requires
            old(turbo_tasks)@.wf(),
            old(turbo_tasks)@.is_live(task),
            execution_completed_step(old(turbo_tasks)@, task, result).result is Ok,
        ensures
            final(turbo_tasks)@ == execution_completed_step(
                old(turbo_tasks)@,
                task,
                result,
            ).graph,
            final(turbo_tasks)@.wf(),
    {
        let _ = Task::try_execution_completed(task, result, turbo_tasks);
    }

    /// Lets `parent` use `task`.
    pub fn connect_parent(task: TaskId, parent: TaskId, turbo_tasks: &mut TurboTasks)
        requires
            old(turbo_tasks)@.wf(),
            old(turbo_tasks)@.is_live(task),
            old(turbo_tasks)@.is_live(parent),
            task != parent,
            connect_parent_step(old(turbo_tasks)@, task, parent).result is Ok,
        ensures
            final(turbo_tasks)@ == connect_parent_step(old(turbo_tasks)@, task, parent).graph,
            final(turbo_tasks)@.wf(),
    {
        let _ = Task::try_connect_parent(task, parent, turbo_tasks);
    }
}

/// Connecting two live tasks keeps the graph well formed.
pub proof fn lemma_connected(g: Graph, child: TaskId, parent: TaskId)
    requires
        g.wf(),
        g.is_live(child),
        g.is_live(parent),
        child != parent,
    ensures
        connected(g, child, parent).wf(),
{
    let after = connected(g, child, parent);
    assert forall|t: TaskId| after.has(t) implies #[trigger] after.node_wf(t) by {
        assert(g.node_wf(t));
        let was = g.nodes[t as int];
        let node = after.nodes[t as int];
        assert forall|i: int| 0 <= i < node.parents.len() implies after.has(
            #[trigger] node.parents[i],
        ) by {
            if i < was.parents.len() {
                assert(g.has(was.parents[i]));
            }
        }
        assert forall|i: int| 0 <= i < node.children.len() implies after.has(
            #[trigger] node.children[i],
        ) && (node.alive ==> after.is_live(node.children[i])) by {
            if i < was.children.len() {
                assert(g.has(was.children[i]));
            }
        }
        assert forall|i: int| 0 <= i < node.dependencies.len() implies after.has_slot(
            #[trigger] node.dependencies[i],
        ) by {
            assert(g.has_slot(was.dependencies[i]));
        }
    }
}

} // verus!
