//! What the texts that show tasks look like.

use crate::slot::{SlotRef, TaskId};
use crate::task::{NativeFunction, NativeTaskFn, Node, TaskStateType, TaskType, TraitType};
use crate::text::{
    all_slots, decimal, digit, state_identifier, state_name, task_name, task_refs,
};
use vstd::prelude::*;

verus! {

/// Each state has its own name and its own identifier.
pub proof fn law_words_for_states()
    ensures
        state_name(TaskStateType::Scheduled) == "scheduled"@,
        state_name(TaskStateType::InProgressLocally) == "in progress (locally)"@,
        state_name(TaskStateType::InProgressLocallyOutdated) == "in progress (locally, outdated)"@,
        state_name(TaskStateType::Done) == "done"@,
        state_name(TaskStateType::Dirty) == "dirty"@,
        state_name(TaskStateType::SomeChildrenDirty) == "some children dirty"@,
        state_name(TaskStateType::SomeChildrenScheduled) == "some children scheduled"@,
        state_identifier(TaskStateType::Scheduled) == "Scheduled"@,
        state_identifier(TaskStateType::InProgressLocally) == "InProgressLocally"@,
        state_identifier(TaskStateType::InProgressLocallyOutdated)
            == "InProgressLocallyOutdated"@,
        state_identifier(TaskStateType::Done) == "Done"@,
        state_identifier(TaskStateType::Dirty) == "Dirty"@,
        state_identifier(TaskStateType::SomeChildrenDirty) == "SomeChildrenDirty"@,
        state_identifier(TaskStateType::SomeChildrenScheduled) == "SomeChildrenScheduled"@,
{
}

/// A task is named after its function, or after its trait and method; the name says
/// whether inputs are to be resolved first.
pub proof fn law_words_for_tasks(
    bound_fn: NativeTaskFn,
    native_fn: &'static NativeFunction,
    trait_type: &'static TraitType,
    method: String,
)
    ensures
        task_name(TaskType::Root(bound_fn)) == "root"@,
        task_name(TaskType::Native(native_fn, bound_fn)) == native_fn.name@,
        task_name(TaskType::ResolveNative(native_fn)) == "[resolve] "@ + native_fn.name@,
        task_name(TaskType::ResolveTrait(trait_type, method)) == "[resolve trait] "@ + method@
            + " in trait "@ + trait_type.name@,
{
}

/// The debug form of a type is its variant with the names that it holds: the function, or
/// the trait and then the method.
pub proof fn law_debug_forms(
    bound_fn: NativeTaskFn,
    native_fn: &'static NativeFunction,
    trait_type: &'static TraitType,
    method: String,
    first: Seq<char>,
    second: Seq<char>,
)
    ensures
        TaskType::Root(bound_fn).debug_form(first, second) == "Root"@,
        TaskType::Native(native_fn, bound_fn).debug_form(first, second) == "Native("@ + first
            + ")"@,
        TaskType::ResolveNative(native_fn).debug_form(first, second) == "ResolveNative("@ + first
            + ")"@,
        TaskType::ResolveTrait(trait_type, method).debug_form(first, second) == "ResolveTrait("@
            + first + ", "@ + second + ")"@,
        TaskType::Native(native_fn, bound_fn).shown_name() == native_fn.name@,
        TaskType::ResolveNative(native_fn).shown_name() == native_fn.name@,
        TaskType::ResolveTrait(trait_type, method).shown_name() == trait_type.name@,
        TaskType::ResolveTrait(trait_type, method).shown_method() == method@,
{
}

/// On several lines, each name stands on a line of its own, four columns further in than
/// the variant, and is followed by a comma.
pub proof fn law_pretty_forms(
    bound_fn: NativeTaskFn,
    native_fn: &'static NativeFunction,
    trait_type: &'static TraitType,
    method: String,
    indent: Seq<char>,
    first: Seq<char>,
    second: Seq<char>,
)
    ensures
        TaskType::Root(bound_fn).pretty_form(indent, first, second) == "Root"@,
        TaskType::Native(native_fn, bound_fn).pretty_form(indent, first, second) == "Native"@
            + "(\n"@ + indent + "    "@ + first + ",\n"@ + indent + ")"@,
        TaskType::ResolveNative(native_fn).pretty_form(indent, first, second) == "ResolveNative"@
            + "(\n"@ + indent + "    "@ + first + ",\n"@ + indent + ")"@,
        TaskType::ResolveTrait(trait_type, method).pretty_form(indent, first, second)
            == "ResolveTrait"@ + "(\n"@ + indent + "    "@ + first + ",\n"@ + indent + "    "@
            + second + ",\n"@ + indent + ")"@,
{
    let middle = "(\n"@ + indent + "    "@ + first + ",\n"@ + indent;
    assert("Native"@ + middle =~= "Native"@ + "(\n"@ + indent + "    "@ + first + ",\n"@ + indent);
    assert("ResolveNative"@ + middle =~= "ResolveNative"@ + "(\n"@ + indent + "    "@ + first
        + ",\n"@ + indent);
    assert("ResolveTrait"@ + middle =~= "ResolveTrait"@ + "(\n"@ + indent + "    "@ + first
        + ",\n"@ + indent);
}

/// The characters of digits follow each other.
pub proof fn law_digits_are_consecutive(d: nat)
    requires
        d < 10,
    ensures
        digit(d) as int == '0' as int + d,
{
}

/// The number that a text of digits stands for.
pub open spec fn value_of(digits: Seq<char>) -> int
    decreases digits.len(),
{
    if digits.len() == 0 {
        0
    } else {
        value_of(digits.drop_last()) * 10 + (digits.last() as int - '0' as int)
    }
}

/// A number in decimal notation consists of digits, stands for that number, and has no
/// leading zero unless it is a single digit. So different numbers look different.
pub proof fn law_decimal_notation(n: nat)
    ensures
        decimal(n).len() > 0,
        forall|i: int|
            0 <= i < decimal(n).len() ==> '0' as int <= #[trigger] decimal(n)[i] as int
                <= '9' as int,
        value_of(decimal(n)) == n,
        decimal(n).len() > 1 ==> decimal(n)[0] != '0',
    decreases n,
{
    if n < 10 {
        assert(decimal(n).drop_last() =~= Seq::empty());
        law_digits_are_consecutive(n);
        assert(value_of(Seq::<char>::empty()) == 0);
    } else {
        law_decimal_notation(n / 10);
        law_digits_are_consecutive(n % 10);
        assert(decimal(n).drop_last() =~= decimal(n / 10));
        assert(decimal(n)[0] == decimal(n / 10)[0]);
        if n / 10 < 10 {
            law_digits_are_consecutive(n / 10);
        } else {
            law_decimal_notation(n / 10 / 10);
            assert(decimal(n / 10).len() == decimal(n / 10 / 10).len() + 1);
        }
    }
}

/// Of the inputs, exactly those are shown that lead to slots of tasks, in their order.
pub proof fn law_shown_inputs(refs: Seq<SlotRef>)
    ensures
        task_refs(refs) == refs.filter(|r: SlotRef| r is TaskOutput || r is TaskCreated),
    decreases refs.len(),
{
    reveal(Seq::filter);
    if refs.len() > 0 {
        law_shown_inputs(refs.drop_last());
    } else {
        assert(task_refs(refs) =~= refs);
    }
}

/// Of the slots, all are shown: first those that the task created, in their order, and
/// last its output slot.
pub proof fn law_shown_slots(node: Node, t: TaskId)
    requires
        node.created.len() <= usize::MAX,
    ensures
        all_slots(node, t).len() == node.created.len() + 1,
        forall|i: int|
            0 <= i < node.created.len() ==> #[trigger] all_slots(node, t)[i]
                == SlotRef::TaskCreated(t, i as usize),
        all_slots(node, t).last() == SlotRef::TaskOutput(t),
{
}

} // verus!
