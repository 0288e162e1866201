//! Tasks: what they run, the state they are in, and how they are made.

use crate::event::{event_new, listens_to, notifications};
use crate::previous_nodes::{PreviousModel, PreviousNodesMap};
use crate::slot::{empty_slot, Slot, SlotModel, SlotRef, TaskId, WeakSlotRef};
use event_listener::{Event, EventListener};
use vstd::prelude::*;

verus! {

/// A handle for a function that a task runs, with its arguments bound.
pub type NativeTaskFn = u64;

/// A registered function.
pub struct NativeFunction {
    pub id: u64,
    pub name: String,
}

/// A registered trait, whose methods are looked up by name.
pub struct TraitType {
    pub id: u64,
    pub name: String,
}

/// A registered type of slot values.
pub struct SlotValueType {
    pub id: u64,
    pub name: String,
}

/// How an argument of a task is to be resolved before the task runs.
pub enum TaskArgumentOptions {
    /// Passed on as it is.
    Unresolved,
    /// Resolved to a slot.
    Slot,
    /// Resolved to a value of a type.
    Resolved(&'static SlotValueType),
    /// Resolved to a value that implements a trait.
    Trait(&'static TraitType),
}

/// What a task runs.
pub enum TaskType {
    /// A root task: it is never left waiting for an access once it is out of date.
    Root(NativeTaskFn),
    /// A function with bound arguments.
    Native(&'static NativeFunction, NativeTaskFn),
    /// A function whose arguments are resolved first.
    ResolveNative(&'static NativeFunction),
    /// A trait method, by name, that is looked up on the first argument's value.
    ResolveTrait(&'static TraitType, String),
}

/// The state of a task.
#[derive(Clone, Copy, Debug, PartialEq, Eq, Structural)]
pub enum TaskStateType {
    /// The task is scheduled for execution and will soon move to
    /// `InProgressLocally`.
    Scheduled,
    /// The task started executing. It moves to `InProgressLocallyOutdated` when it is
    /// invalidated, or when one of its children is.
    ///
    /// No child may be `Dirty` or `SomeChildrenDirty`.
    InProgressLocally,
    /// The task started executing and is out of date already. It will execute again.
    InProgressLocallyOutdated,
    /// The task has executed and its outputs are valid. Every child is `Done` too.
    Done,
    /// The task is out of date and stays so until it is accessed.
    Dirty,
    /// Some child is out of date. The task stays so until it is accessed.
    SomeChildrenDirty,
    /// Some child is out of date, and all of them are on their way to be up to date.
    ///
    /// No child may be `Dirty` or `SomeChildrenDirty`.
    SomeChildrenScheduled,
}

impl Default for TaskStateType {
    fn default() -> (state: TaskStateType)
        ensures
            state == TaskStateType::Scheduled,
    {
        TaskStateType::Scheduled
    }
}

/// The part of a task that changes while tasks execute.
pub struct TaskState {
    pub state_type: TaskStateType,
    /// How many children are not done, while the task is done, waits for its children or
    /// executes without being out of date. In the other states it is no such number: a
    /// task that is dirty, scheduled or executes out of date does not count children that
    /// it hears are no longer done, but counts down for each that it hears has become
    /// done. When the count is zero then, that is a fault, unless the task executes. The
    /// count starts anew with the next execution.
    pub dirty_children_count: usize,
    /// The tasks that have this one as a child. They are not kept alive by that.
    pub parents: Vec<TaskId>,
    /// The tasks that this one uses. They are kept alive by that.
    pub children: Vec<TaskId>,
    pub output_slot: Slot,
    pub created_slots: Vec<Slot>,
    /// Notified whenever the task becomes done.
    pub event: Event,
    pub executions: u32,
}

/// A task.
pub struct Task {
    pub inputs: Vec<SlotRef>,
    pub ty: TaskType,
    pub state: TaskState,
    /// The slots that the running or last execution has read.
    pub dependencies: Vec<WeakSlotRef>,
    pub previous_nodes: PreviousNodesMap,
    /// Whether anything keeps the task alive. A parent that is not alive hears of
    /// nothing.
    pub alive: bool,
}

/// The mathematical value of a task.
#[verifier::ext_equal]
pub struct Node {
    pub inputs: Seq<SlotRef>,
    pub ty: TaskType,
    pub alive: bool,
    pub state_type: TaskStateType,
    pub dirty: usize,
    pub parents: Seq<TaskId>,
    pub children: Seq<TaskId>,
    pub output: SlotModel,
    pub created: Seq<SlotModel>,
    pub notified: Seq<usize>,
    /// Those who listen to the task's becoming done.
    pub listeners: Set<EventListener>,
    pub executions: u32,
    pub dependencies: Seq<WeakSlotRef>,
    pub previous: PreviousModel,
}

impl View for Task {
    type V = Node;

    open spec fn view(&self) -> Node {
        Node {
            inputs: self.inputs@,
            ty: self.ty,
            alive: self.alive,
            state_type: self.state.state_type,
            dirty: self.state.dirty_children_count,
            parents: self.state.parents@,
            children: self.state.children@,
            output: self.state.output_slot@,
            created: self.state.created_slots@.map_values(|slot: Slot| slot@),
            notified: notifications(self.state.event),
            listeners: Set::new(
                |listener: EventListener| listens_to(listener, self.state.event),
            ),
            executions: self.state.executions,
            dependencies: self.dependencies@,
            previous: self.previous_nodes@,
        }
    }
}

/// The task that was just made: scheduled, connected to nothing, never executed. Who
/// will listen to it is left open.
pub open spec fn new_node(
    inputs: Seq<SlotRef>,
    ty: TaskType,
    listeners: Set<EventListener>,
) -> Node {
    Node {
        inputs,
        ty,
        alive: true,
        state_type: TaskStateType::Scheduled,
        dirty: 0,
        parents: Seq::empty(),
        children: Seq::empty(),
        output: empty_slot(),
        created: Seq::empty(),
        notified: Seq::empty(),
        listeners,
        executions: 0,
        dependencies: Seq::empty(),
        previous: PreviousModel::empty(),
    }
}

fn new_task(inputs: Vec<SlotRef>, ty: TaskType) -> (task: Task)
    ensures
        task@ == new_node(inputs@, ty, task@.listeners),
{
    let task = Task {
        inputs,
        ty,
        state: TaskState {
            state_type: TaskStateType::default(),
            dirty_children_count: 0,
            parents: Vec::new(),
            children: Vec::new(),
            output_slot: Slot::new(),
            created_slots: Vec::new(),
            event: event_new(),
            executions: 0,
        },
        dependencies: Vec::new(),
        previous_nodes: PreviousNodesMap::new(),
        alive: true,
    };
    assert(task@.created =~= Seq::empty());
    task
}

impl Task {
    /// A task that runs `native_fn` with `inputs` bound as its arguments. `bound` is
    /// what binding them came to; its error is handed on.
    pub fn new_native<E>(
        inputs: Vec<SlotRef>,
        native_fn: &'static NativeFunction,
        bound: Result<NativeTaskFn, E>,
    ) -> (task: Result<Task, E>)
        ensures
            match bound {
                Ok(bound_fn) => task matches Ok(task) && task@ == new_node(
                    inputs@,
                    TaskType::Native(native_fn, bound_fn),
                    task@.listeners,
                ),
                Err(error) => task == Err::<Task, E>(error),
            },
    {
        match bound {
            Ok(bound_fn) => Ok(new_task(inputs, TaskType::Native(native_fn, bound_fn))),
            Err(error) => Err(error),
        }
    }

    /// A task that resolves `inputs` to slots and calls `native_fn` with them.
    pub fn new_resolve_native(
        inputs: Vec<SlotRef>,
        native_fn: &'static NativeFunction,
    ) -> (task: Task)
        ensures
            task@ == new_node(inputs@, TaskType::ResolveNative(native_fn), task@.listeners),
    {
        new_task(inputs, TaskType::ResolveNative(native_fn))
    }

    /// A task that calls a trait method on the value of its first input.
    pub fn new_resolve_trait(
        trait_type: &'static TraitType,
        trait_fn_name: String,
        inputs: Vec<SlotRef>,
    ) -> (task: Task)
        ensures
            task@ == new_node(
                inputs@,
                TaskType::ResolveTrait(trait_type, trait_fn_name),
                task@.listeners,
            ),
    {
        new_task(inputs, TaskType::ResolveTrait(trait_type, trait_fn_name))
    }

    /// A root task that runs `functor`.
    pub fn new_root(functor: NativeTaskFn) -> (task: Task)
        ensures
            task@ == new_node(Seq::empty(), TaskType::Root(functor), task@.listeners),
    {
        let inputs: Vec<SlotRef> = Vec::new();
        assert(inputs@ =~= Seq::empty());
        new_task(inputs, TaskType::Root(functor))
    }
}

} // verus!
