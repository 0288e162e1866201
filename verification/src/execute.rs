//! What has to be done to execute a task, one step after the other.

use crate::graph::TurboTasks;
use crate::slot::{SlotRef, TaskId};
use crate::task::{NativeFunction, NativeTaskFn, Node, Task, TaskType, TraitType};
use vstd::prelude::*;

verus! {

/// The next step of an execution.
pub enum Execution {
    /// Run the bound function; its result is the task's.
    Call(NativeTaskFn),
    /// Resolve the next input to a slot. `resolved` are those that were resolved.
    ResolveToSlot {
        native_fn: &'static NativeFunction,
        inputs: Vec<SlotRef>,
        resolved: Vec<SlotRef>,
    },
    /// Call the function with these inputs; its result is the task's.
    CallNative { native_fn: &'static NativeFunction, inputs: Vec<SlotRef> },
    /// Resolve the first input to a value.
    ResolveToValue { trait_type: &'static TraitType, name: String, inputs: Vec<SlotRef> },
    /// Call the trait method of the first input with these inputs; its result is the
    /// task's.
    CallMethod { trait_type: &'static TraitType, name: String, inputs: Vec<SlotRef> },
    /// A trait method cannot be called without arguments.
    NoArguments,
}

/// The mathematical value of an `Execution`.
#[verifier::ext_equal]
pub enum ExecutionModel {
    Call(NativeTaskFn),
    ResolveToSlot {
        native_fn: &'static NativeFunction,
        inputs: Seq<SlotRef>,
        resolved: Seq<SlotRef>,
    },
    CallNative { native_fn: &'static NativeFunction, inputs: Seq<SlotRef> },
    ResolveToValue { trait_type: &'static TraitType, name: Seq<char>, inputs: Seq<SlotRef> },
    CallMethod { trait_type: &'static TraitType, name: Seq<char>, inputs: Seq<SlotRef> },
    NoArguments,
}

impl View for Execution {
    type V = ExecutionModel;

    open spec fn view(&self) -> ExecutionModel {
        match *self {
            Execution::Call(bound_fn) => ExecutionModel::Call(bound_fn),
            Execution::ResolveToSlot { native_fn, inputs, resolved } =>
                ExecutionModel::ResolveToSlot {
                native_fn,
                inputs: inputs@,
                resolved: resolved@,
            },
            Execution::CallNative { native_fn, inputs } => ExecutionModel::CallNative {
                native_fn,
                inputs: inputs@,
            },
            Execution::ResolveToValue { trait_type, name, inputs } =>
                ExecutionModel::ResolveToValue { trait_type, name: name@, inputs: inputs@ },
            Execution::CallMethod { trait_type, name, inputs } => ExecutionModel::CallMethod {
                trait_type,
                name: name@,
                inputs: inputs@,
            },
            Execution::NoArguments => ExecutionModel::NoArguments,
        }
    }
}

impl ExecutionModel {
    /// The step that follows once `resolved` of `inputs` have been resolved to slots.
    pub open spec fn resolving(
        native_fn: &'static NativeFunction,
        inputs: Seq<SlotRef>,
        resolved: Seq<SlotRef>,
    ) -> ExecutionModel {
        if resolved.len() < inputs.len() {
            ExecutionModel::ResolveToSlot { native_fn, inputs, resolved }
        } else {
            ExecutionModel::CallNative { native_fn, inputs: resolved }
        }
    }

    /// The first step of executing a task.
    pub open spec fn of(node: Node) -> ExecutionModel {
        match node.ty {
            TaskType::Root(bound_fn) => ExecutionModel::Call(bound_fn),
            TaskType::Native(_, bound_fn) => ExecutionModel::Call(bound_fn),
            TaskType::ResolveNative(native_fn) => ExecutionModel::resolving(
                native_fn,
                node.inputs,
                Seq::empty(),
            ),
            TaskType::ResolveTrait(trait_type, name) => if node.inputs.len() > 0 {
                ExecutionModel::ResolveToValue { trait_type, name: name@, inputs: node.inputs }
            } else {
                ExecutionModel::NoArguments
            },
        }
    }

    /// The reference that has to be resolved for the execution to go on.
    pub open spec fn awaited(self) -> Option<SlotRef> {
        match self {
            ExecutionModel::ResolveToSlot { native_fn, inputs, resolved } => if resolved.len()
                < inputs.len() {
                Some(inputs[resolved.len() as int])
            } else {
                None
            },
            ExecutionModel::ResolveToValue { trait_type, name, inputs } => if inputs.len() > 0 {
                Some(inputs[0])
            } else {
                None
            },
            _ => None,
        }
    }

    /// The step that follows once the awaited reference was resolved to `target`.
    pub open spec fn advanced(self, target: SlotRef) -> ExecutionModel {
        match self {
            ExecutionModel::ResolveToSlot { native_fn, inputs, resolved } =>
                ExecutionModel::resolving(native_fn, inputs, resolved.push(target)),
            ExecutionModel::ResolveToValue { trait_type, name, inputs } =>
                ExecutionModel::CallMethod {
                trait_type,
                name,
                inputs: inputs.update(0, target),
            },
            _ => self,
        }
    }

    /// The step that follows once `targets` were supplied in turn.
    pub open spec fn advanced_by(self, targets: Seq<SlotRef>) -> ExecutionModel
        decreases targets.len(),
    {
        if targets.len() == 0 {
            self
        } else {
            self.advanced(targets[0]).advanced_by(targets.skip(1))
        }
    }
}

fn clone_refs(refs: &Vec<SlotRef>) -> (copy: Vec<SlotRef>)
    ensures
        copy@ == refs@,
{
    let mut copy: Vec<SlotRef> = Vec::new();
    let mut i: usize = 0;
    while i < refs.len()
        invariant
            i <= refs@.len(),
            copy@ == refs@.take(i as int),
        decreases refs.len() - i,
    {
        copy.push(refs[i]);
        assert(refs@.take(i + 1) =~= refs@.take(i as int).push(refs@[i as int]));
        i += 1;
    }
    assert(refs@.take(refs@.len() as int) =~= refs@);
    copy
}

impl Execution {
    fn resolving(
        native_fn: &'static NativeFunction,
        inputs: Vec<SlotRef>,
        resolved: Vec<SlotRef>,
    ) -> (execution: Execution)
        ensures
            execution@ == ExecutionModel::resolving(native_fn, inputs@, resolved@),
    {
        if resolved.len() < inputs.len() {
            Execution::ResolveToSlot { native_fn, inputs, resolved }
        } else {
            Execution::CallNative { native_fn, inputs: resolved }
        }
    }

    /// The reference that has to be resolved for the execution to go on.
    pub fn awaited(&self) -> (target: Option<SlotRef>)
        ensures
            target == self@.awaited(),
    {
        match self {
            Execution::ResolveToSlot { native_fn: _, inputs, resolved } => {
                if resolved.len() < inputs.len() {
                    Some(inputs[resolved.len()])
                } else {
                    None
                }
            },
            Execution::ResolveToValue { trait_type: _, name: _, inputs } => {
                if inputs.len() > 0 {
                    Some(inputs[0])
                } else {
                    None
                }
            },
            _ => None,
        }
    }

    /// Goes on with the awaited reference resolved to `target`.
    pub fn advance(self, target: SlotRef) -> (next: Execution)
        requires
            self@.awaited() is Some,
        ensures
            next@ == self@.advanced(target),
    {
        match self {
            Execution::ResolveToSlot { native_fn, inputs, resolved } => {
                let mut resolved = resolved;
                resolved.push(target);
                Execution::resolving(native_fn, inputs, resolved)
            },
            Execution::ResolveToValue { trait_type, name, inputs } => {
                let mut inputs = inputs;
                inputs.set(0, target);
                Execution::CallMethod { trait_type, name, inputs }
            },
            other => other,
        }
    }
}

impl Task {
    /// The first step of executing `task`.
    pub fn execute(task: TaskId, turbo_tasks: &TurboTasks) -> (execution: Execution)
        requires
            turbo_tasks@.has(task),
        ensures
            execution@ == ExecutionModel::of(turbo_tasks@.nodes[task as int]),
    {
        match &turbo_tasks.tasks[task].ty {
            TaskType::Root(bound_fn) => Execution::Call(*bound_fn),
            TaskType::Native(_, bound_fn) => Execution::Call(*bound_fn),
            TaskType::ResolveNative(native_fn) => {
                let resolved: Vec<SlotRef> = Vec::new();
                assert(resolved@ =~= Seq::empty());
                Execution::resolving(
                    *native_fn,
                    clone_refs(&turbo_tasks.tasks[task].inputs),
                    resolved,
                )
            },
            TaskType::ResolveTrait(trait_type, name) => {
                if turbo_tasks.tasks[task].inputs.len() > 0 {
                    Execution::ResolveToValue {
                        trait_type: *trait_type,
                        name: name.clone(),
                        inputs: clone_refs(&turbo_tasks.tasks[task].inputs),
                    }
                } else {
                    Execution::NoArguments
                }
            },
        }
    }
}

/// The function of a task with unresolved inputs is called with exactly what its inputs
/// were resolved to, in their order.
pub proof fn law_native_call_gets_resolved_inputs(
    node: Node,
    native_fn: &'static NativeFunction,
    targets: Seq<SlotRef>,
)
    requires
        node.ty == TaskType::ResolveNative(native_fn),
        targets.len() == node.inputs.len(),
    ensures
        ExecutionModel::of(node).advanced_by(targets) == (ExecutionModel::CallNative {
            native_fn,
            inputs: targets,
        }),
{
    lemma_resolving(native_fn, node.inputs, Seq::empty(), targets);
    assert(Seq::<SlotRef>::empty() + targets =~= targets);
}

proof fn lemma_resolving(
    native_fn: &'static NativeFunction,
    inputs: Seq<SlotRef>,
    resolved: Seq<SlotRef>,
    targets: Seq<SlotRef>,
)
    requires
        resolved.len() + targets.len() == inputs.len(),
    ensures
        ExecutionModel::resolving(native_fn, inputs, resolved).advanced_by(targets) == (
        ExecutionModel::CallNative { native_fn, inputs: resolved + targets }),
    decreases targets.len(),
{
    if targets.len() == 0 {
        assert(resolved + targets =~= resolved);
    } else {
        lemma_resolving(native_fn, inputs, resolved.push(targets[0]), targets.skip(1));
        assert(resolved.push(targets[0]) + targets.skip(1) =~= resolved + targets);
    }
}

/// A trait method is called with the value of the first input in place of that input,
/// and with the other inputs as they are.
pub proof fn law_trait_call_gets_this(
    node: Node,
    trait_type: &'static TraitType,
    name: String,
    this: SlotRef,
)
    requires
        node.ty == TaskType::ResolveTrait(trait_type, name),
        node.inputs.len() > 0,
    ensures
        ExecutionModel::of(node).awaited() == Some(node.inputs[0]),
        ExecutionModel::of(node).advanced(this) == (ExecutionModel::CallMethod {
            trait_type,
            name: name@,
            inputs: seq![this] + node.inputs.skip(1),
        }),
{
    assert(node.inputs.update(0, this) =~= seq![this] + node.inputs.skip(1));
}

/// Executing a root or a native task is a call of the function that is bound to it, and of
/// no other. Nothing has to be resolved first, whatever the inputs are.
pub proof fn law_bound_functions_are_called(
    node: Node,
    native_fn: &'static NativeFunction,
    bound_fn: NativeTaskFn,
)
    ensures
        node.ty == TaskType::Root(bound_fn) ==> ExecutionModel::of(node) == ExecutionModel::Call(
            bound_fn,
        ),
        node.ty == TaskType::Native(native_fn, bound_fn) ==> ExecutionModel::of(node)
            == ExecutionModel::Call(bound_fn),
        ExecutionModel::of(node) is Call <==> node.ty is Root || node.ty is Native,
        ExecutionModel::Call(bound_fn).awaited() is None,
{
}

/// Arguments are missed by trait methods without inputs, and by nothing else.
pub proof fn law_only_trait_methods_need_arguments(node: Node)
    ensures
        ExecutionModel::of(node) is NoArguments <==> node.ty is ResolveTrait && node.inputs.len()
            == 0,
        ExecutionModel::NoArguments.awaited() is None,
{
}

/// The inputs of a task with unresolved inputs are resolved to slots one after the other,
/// each once and none left out: after `targets` were supplied, the next input is awaited,
/// and none once there are as many as inputs.
pub proof fn law_inputs_are_resolved_in_order(
    node: Node,
    native_fn: &'static NativeFunction,
    targets: Seq<SlotRef>,
)
    requires
        node.ty == TaskType::ResolveNative(native_fn),
        targets.len() <= node.inputs.len(),
    ensures
        ({
            let next = ExecutionModel::of(node).advanced_by(targets);
            &&& targets.len() < node.inputs.len() ==> next is ResolveToSlot && next.awaited()
                == Some(node.inputs[targets.len() as int])
            &&& targets.len() == node.inputs.len() ==> next.awaited() is None && next
                == (ExecutionModel::CallNative { native_fn, inputs: targets })
        }),
{
    lemma_awaiting(native_fn, node.inputs, Seq::empty(), targets);
    assert(Seq::<SlotRef>::empty() + targets =~= targets);
}

proof fn lemma_awaiting(
    native_fn: &'static NativeFunction,
    inputs: Seq<SlotRef>,
    resolved: Seq<SlotRef>,
    targets: Seq<SlotRef>,
)
    requires
        resolved.len() + targets.len() <= inputs.len(),
    ensures
        ExecutionModel::resolving(native_fn, inputs, resolved).advanced_by(targets)
            == ExecutionModel::resolving(native_fn, inputs, resolved + targets),
    decreases targets.len(),
{
    if targets.len() == 0 {
        assert(resolved + targets =~= resolved);
    } else {
        lemma_awaiting(native_fn, inputs, resolved.push(targets[0]), targets.skip(1));
        assert(resolved.push(targets[0]) + targets.skip(1) =~= resolved + targets);
    }
}

/// Supplying results in turn is going on with the first, and then with the others.
pub proof fn law_results_are_supplied_in_turn(
    execution: ExecutionModel,
    target: SlotRef,
    targets: Seq<SlotRef>,
)
    ensures
        execution.advanced_by(Seq::empty()) == execution,
        execution.advanced_by(seq![target] + targets) == execution.advanced(target).advanced_by(
            targets,
        ),
{
    assert((seq![target] + targets).skip(1) =~= targets);
}

/// A trait method is found by the value of the first input, and nothing else is resolved
/// before it is called.
pub proof fn law_trait_methods_are_found_by_value(
    node: Node,
    trait_type: &'static TraitType,
    name: String,
    this: SlotRef,
)
    requires
        node.ty == TaskType::ResolveTrait(trait_type, name),
        node.inputs.len() > 0,
    ensures
        ExecutionModel::of(node) == (ExecutionModel::ResolveToValue {
            trait_type,
            name: name@,
            inputs: node.inputs,
        }),
        ExecutionModel::of(node).advanced(this) is CallMethod,
        ExecutionModel::of(node).advanced(this).awaited() is None,
{
}

/// The value of an execution shows the step and all that belongs to it.
pub proof fn law_execution_shows_its_parts(
    bound_fn: NativeTaskFn,
    native_fn: &'static NativeFunction,
    trait_type: &'static TraitType,
    name: String,
    inputs: Vec<SlotRef>,
    resolved: Vec<SlotRef>,
)
    ensures
        Execution::Call(bound_fn)@ == ExecutionModel::Call(bound_fn),
        (Execution::ResolveToSlot { native_fn, inputs, resolved })@ == (
        ExecutionModel::ResolveToSlot { native_fn, inputs: inputs@, resolved: resolved@ }),
        (Execution::CallNative { native_fn, inputs })@ == (ExecutionModel::CallNative {
            native_fn,
            inputs: inputs@,
        }),
        (Execution::ResolveToValue { trait_type, name, inputs })@ == (
        ExecutionModel::ResolveToValue { trait_type, name: name@, inputs: inputs@ }),
        (Execution::CallMethod { trait_type, name, inputs })@ == (ExecutionModel::CallMethod {
            trait_type,
            name: name@,
            inputs: inputs@,
        }),
        Execution::NoArguments@ == ExecutionModel::NoArguments,
{
}

} // verus!
