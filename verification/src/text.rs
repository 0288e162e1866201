//! How tasks are shown to people.

use crate::graph::TurboTasks;
use crate::slot::{SlotRef, TaskId, WeakSlotRef};
use crate::task::{Node, Task, TaskStateType, TaskType};
use vstd::prelude::*;

verus! {

/// How `Debug` shows a text: quoted, with special characters escaped.
pub uninterp spec fn debug_text(text: Seq<char>) -> Seq<char>;

/// Formats a text with the `Debug` implementation of `str`. The contract gives the
/// result a name; which characters are escaped, and how, is left to that name.
#[verifier::external_body]
fn quote(text: &str) -> (quoted: String)
    ensures
        quoted@ == debug_text(text@),
{
    format!("{:?}", text)
}

/// The character for a digit.
pub open spec fn digit(d: nat) -> char {
    if d == 0 {
        '0'
    } else if d == 1 {
        '1'
    } else if d == 2 {
        '2'
    } else if d == 3 {
        '3'
    } else if d == 4 {
        '4'
    } else if d == 5 {
        '5'
    } else if d == 6 {
        '6'
    } else if d == 7 {
        '7'
    } else if d == 8 {
        '8'
    } else {
        '9'
    }
}

/// A number in decimal notation.
pub open spec fn decimal(n: nat) -> Seq<char>
    decreases n,
{
    if n < 10 {
        seq![digit(n)]
    } else {
        decimal(n / 10).push(digit(n % 10))
    }
}

fn append_digit(text: &mut String, d: usize)
    requires
        d < 10,
    ensures
        final(text)@ == old(text)@.push(digit(d as nat)),
{
    proof {
        reveal_strlit("0");
        reveal_strlit("1");
        reveal_strlit("2");
        reveal_strlit("3");
        reveal_strlit("4");
        reveal_strlit("5");
        reveal_strlit("6");
        reveal_strlit("7");
        reveal_strlit("8");
        reveal_strlit("9");
    }
    let shown: &str = match d {
        0 => "0",
        1 => "1",
        2 => "2",
        3 => "3",
        4 => "4",
        5 => "5",
        6 => "6",
        7 => "7",
        8 => "8",
        _ => "9",
    };
    text.append(shown);
    assert(text@ =~= old(text)@.push(digit(d as nat)));
}

/// Appends a number in decimal notation.
fn append_decimal(text: &mut String, n: usize)
    ensures
        final(text)@ == old(text)@ + decimal(n as nat),
    decreases n,
{
    if n >= 10 {
        append_decimal(text, n / 10);
    }
    append_digit(text, n % 10);
    proof {
        if n >= 10 {
            assert(text@ =~= old(text)@ + decimal(n as nat));
        } else {
            assert(text@ =~= old(text)@ + decimal(n as nat));
        }
    }
}

/// The name of a task.
pub open spec fn task_name(ty: TaskType) -> Seq<char> {
    match ty {
        TaskType::Root(_) => "root"@,
        TaskType::Native(native_fn, _) => native_fn.name@,
        TaskType::ResolveNative(native_fn) => "[resolve] "@ + native_fn.name@,
        TaskType::ResolveTrait(trait_type, fn_name) => "[resolve trait] "@ + fn_name@
            + " in trait "@ + trait_type.name@,
    }
}

/// How a state is called.
pub open spec fn state_name(state: TaskStateType) -> Seq<char> {
    match state {
        TaskStateType::Scheduled => "scheduled"@,
        TaskStateType::InProgressLocally => "in progress (locally)"@,
        TaskStateType::InProgressLocallyOutdated => "in progress (locally, outdated)"@,
        TaskStateType::Done => "done"@,
        TaskStateType::Dirty => "dirty"@,
        TaskStateType::SomeChildrenDirty => "some children dirty"@,
        TaskStateType::SomeChildrenScheduled => "some children scheduled"@,
    }
}

/// The identifier of a state.
pub open spec fn state_identifier(state: TaskStateType) -> Seq<char> {
    match state {
        TaskStateType::Scheduled => "Scheduled"@,
        TaskStateType::InProgressLocally => "InProgressLocally"@,
        TaskStateType::InProgressLocallyOutdated => "InProgressLocallyOutdated"@,
        TaskStateType::Done => "Done"@,
        TaskStateType::Dirty => "Dirty"@,
        TaskStateType::SomeChildrenDirty => "SomeChildrenDirty"@,
        TaskStateType::SomeChildrenScheduled => "SomeChildrenScheduled"@,
    }
}

impl TaskType {
    /// The name of a task of this type.
    pub fn name(&self) -> (name: String)
        ensures
            name@ == task_name(*self),
    {
        match self {
            TaskType::Root(_) => String::from_str("root"),
            TaskType::Native(native_fn, _) => native_fn.name.clone(),
            TaskType::ResolveNative(native_fn) => {
                let mut name = String::from_str("[resolve] ");
                name.append(native_fn.name.as_str());
                name
            },
            TaskType::ResolveTrait(trait_type, fn_name) => {
                let mut name = String::from_str("[resolve trait] ");
                name.append(fn_name.as_str());
                name.append(" in trait ");
                name.append(trait_type.name.as_str());
                name
            },
        }
    }

    /// The name that is shown first in the debug form: that of the function or the
    /// trait. A root has none.
    pub open spec fn shown_name(self) -> Seq<char> {
        match self {
            TaskType::Root(_) => Seq::empty(),
            TaskType::Native(native_fn, _) => native_fn.name@,
            TaskType::ResolveNative(native_fn) => native_fn.name@,
            TaskType::ResolveTrait(trait_type, _) => trait_type.name@,
        }
    }

    /// The name of the trait method, if this is one.
    pub open spec fn shown_method(self) -> Seq<char> {
        match self {
            TaskType::ResolveTrait(_, fn_name) => fn_name@,
            _ => Seq::empty(),
        }
    }

    /// The debug form, given the debug forms of the names in it.
    pub open spec fn debug_form(self, name: Seq<char>, method: Seq<char>) -> Seq<char> {
        match self {
            TaskType::Root(_) => "Root"@,
            TaskType::Native(_, _) => "Native("@ + name + ")"@,
            TaskType::ResolveNative(_) => "ResolveNative("@ + name + ")"@,
            TaskType::ResolveTrait(_, _) => "ResolveTrait("@ + name + ", "@ + method + ")"@,
        }
    }

    /// The debug form, given the debug forms of the names in it.
    pub fn debug_with(&self, name: &str, method: &str) -> (text: String)
        ensures
            text@ == self.debug_form(name@, method@),
    {
        match self {
            TaskType::Root(_) => String::from_str("Root"),
            TaskType::Native(_, _) => {
                let mut text = String::from_str("Native(");
                text.append(name);
                text.append(")");
                text
            },
            TaskType::ResolveNative(_) => {
                let mut text = String::from_str("ResolveNative(");
                text.append(name);
                text.append(")");
                text
            },
            TaskType::ResolveTrait(_, _) => {
                let mut text = String::from_str("ResolveTrait(");
                text.append(name);
                text.append(", ");
                text.append(method);
                text.append(")");
                text
            },
        }
    }

    /// The debug forms of the names that are shown.
    fn quoted_names(&self) -> (names: (String, String))
        ensures
            names.0@ == debug_text(self.shown_name()),
            names.1@ == debug_text(self.shown_method()),
    {
        let none = String::new();
        assert(none@ =~= Seq::<char>::empty());
        match self {
            TaskType::Root(_) => (quote(none.as_str()), quote(none.as_str())),
            TaskType::Native(native_fn, _) => (
                quote(native_fn.name.as_str()),
                quote(none.as_str()),
            ),
            TaskType::ResolveNative(native_fn) => (
                quote(native_fn.name.as_str()),
                quote(none.as_str()),
            ),
            TaskType::ResolveTrait(trait_type, fn_name) => (
                quote(trait_type.name.as_str()),
                quote(fn_name.as_str()),
            ),
        }
    }

    /// The debug form.
    pub fn debug_string(&self) -> (text: String)
        ensures
            text@ == self.debug_form(
                debug_text(self.shown_name()),
                debug_text(self.shown_method()),
            ),
    {
        let (name, method) = self.quoted_names();
        self.debug_with(name.as_str(), method.as_str())
    }

    /// The debug form on several lines, given the debug forms of the names in it. All
    /// lines but the first are indented by `indent`.
    pub open spec fn pretty_form(
        self,
        indent: Seq<char>,
        name: Seq<char>,
        method: Seq<char>,
    ) -> Seq<char> {
        let first = "(\n"@ + indent + "    "@ + name + ",\n"@ + indent;
        match self {
            TaskType::Root(_) => "Root"@,
            TaskType::Native(_, _) => "Native"@ + first + ")"@,
            TaskType::ResolveNative(_) => "ResolveNative"@ + first + ")"@,
            TaskType::ResolveTrait(_, _) => "ResolveTrait"@ + first + "    "@ + method + ",\n"@
                + indent + ")"@,
        }
    }

    /// The debug form on several lines, given the debug forms of the names in it. All
    /// lines but the first are indented by `indent`.
    pub fn pretty_with(&self, indent: &str, name: &str, method: &str) -> (text: String)
        ensures
            text@ == self.pretty_form(indent@, name@, method@),
    {
        let mut text = String::from_str(
            match self {
                TaskType::Root(_) => "Root",
                TaskType::Native(_, _) => "Native",
                TaskType::ResolveNative(_) => "ResolveNative",
                TaskType::ResolveTrait(_, _) => "ResolveTrait",
            },
        );
        if let TaskType::Root(_) = self {
            return text;
        }
        let ghost start = text@;
        let ghost first = "(\n"@ + indent@ + "    "@ + name@ + ",\n"@ + indent@;
        text.append("(\n");
        text.append(indent);
        text.append("    ");
        text.append(name);
        text.append(",\n");
        text.append(indent);
        assert(text@ =~= start + first);
        if let TaskType::ResolveTrait(_, _) = self {
            text.append("    ");
            text.append(method);
            text.append(",\n");
            text.append(indent);
        }
        text.append(")");
        text
    }

    /// The debug form on several lines.
    pub fn pretty_string(&self) -> (text: String)
        ensures
            text@ == self.pretty_form(
                Seq::empty(),
                debug_text(self.shown_name()),
                debug_text(self.shown_method()),
            ),
    {
        let (name, method) = self.quoted_names();
        let indent = String::new();
        assert(indent@ =~= Seq::<char>::empty());
        self.pretty_with(indent.as_str(), name.as_str(), method.as_str())
    }
}

impl TaskStateType {
    /// How the state is called.
    pub fn name(&self) -> (name: String)
        ensures
            name@ == state_name(*self),
    {
        String::from_str(
            match self {
                TaskStateType::Scheduled => "scheduled",
                TaskStateType::InProgressLocally => "in progress (locally)",
                TaskStateType::InProgressLocallyOutdated => "in progress (locally, outdated)",
                TaskStateType::Done => "done",
                TaskStateType::Dirty => "dirty",
                TaskStateType::SomeChildrenDirty => "some children dirty",
                TaskStateType::SomeChildrenScheduled => "some children scheduled",
            },
        )
    }

    /// The identifier of the state.
    pub fn identifier(&self) -> (name: String)
        ensures
            name@ == state_identifier(*self),
    {
        String::from_str(
            match self {
                TaskStateType::Scheduled => "Scheduled",
                TaskStateType::InProgressLocally => "InProgressLocally",
                TaskStateType::InProgressLocallyOutdated => "InProgressLocallyOutdated",
                TaskStateType::Done => "Done",
                TaskStateType::Dirty => "Dirty",
                TaskStateType::SomeChildrenDirty => "SomeChildrenDirty",
                TaskStateType::SomeChildrenScheduled => "SomeChildrenScheduled",
            },
        )
    }
}

/// What is shown of a task.
pub struct TaskSnapshot {
    /// The name of the task.
    pub name: String,
    /// Those inputs that lead to slots of tasks.
    pub inputs: Vec<SlotRef>,
    pub children: Vec<TaskId>,
    pub dependencies: Vec<WeakSlotRef>,
    /// The state of the task and the number of its dirty children.
    pub state: String,
    pub output_slot: SlotRef,
    /// The slots that the task created, and its output slot.
    pub slots: Vec<SlotRef>,
    pub executions: u32,
}

/// The references among `refs` that lead to slots of tasks, in order.
pub open spec fn task_refs(refs: Seq<SlotRef>) -> Seq<SlotRef>
    decreases refs.len(),
{
    if refs.len() == 0 {
        Seq::empty()
    } else if refs.last().refers_to_task() {
        task_refs(refs.drop_last()).push(refs.last())
    } else {
        task_refs(refs.drop_last())
    }
}

/// All slots of task `t`: those that it created, in order, and its output slot.
pub open spec fn all_slots(node: Node, t: TaskId) -> Seq<SlotRef> {
    Seq::new(node.created.len(), |i: int| SlotRef::TaskCreated(t, i as usize)).push(
        SlotRef::TaskOutput(t),
    )
}

impl Task {
    /// What is shown of `task`.
    pub fn get_snapshot_for_visualization(task: TaskId, turbo_tasks: &TurboTasks) -> (snapshot:
        TaskSnapshot)
        requires
            turbo_tasks@.has(task),
        ensures
            ({
                let node = turbo_tasks@.nodes[task as int];
                &&& snapshot.name@ == task_name(node.ty)
                &&& snapshot.inputs@ == task_refs(node.inputs)
                &&& snapshot.children@ == node.children
                &&& snapshot.dependencies@ == node.dependencies
                &&& snapshot.state@ == state_name(node.state_type) + (" "@ + decimal(
                    node.dirty as nat,
                ) + " dirty childen"@)
                &&& snapshot.output_slot == SlotRef::TaskOutput(task)
                &&& snapshot.slots@ == all_slots(node, task)
                &&& snapshot.executions == node.executions
            }),
    {
        let ghost node = turbo_tasks@.nodes[task as int];
        let this = &turbo_tasks.tasks[task];
        let mut slots: Vec<SlotRef> = Vec::new();
        let mut i: usize = 0;
        while i < this.state.created_slots.len()
            invariant
                *this == turbo_tasks.tasks@[task as int],
                i <= this.state.created_slots@.len(),
                slots@ == Seq::new(i as nat, |k: int| SlotRef::TaskCreated(task, k as usize)),
            decreases this.state.created_slots.len() - i,
        {
            slots.push(SlotRef::TaskCreated(task, i));
            i += 1;
            assert(slots@ =~= Seq::new(i as nat, |k: int| SlotRef::TaskCreated(task, k as usize)));
        }
        slots.push(SlotRef::TaskOutput(task));
        assert(slots@ =~= all_slots(node, task));
        let mut inputs: Vec<SlotRef> = Vec::new();
        let mut i: usize = 0;
        while i < this.inputs.len()
            invariant
                i <= this.inputs@.len(),
                inputs@ == task_refs(this.inputs@.take(i as int)),
            decreases this.inputs.len() - i,
        {
            assert(this.inputs@.take(i + 1).drop_last() =~= this.inputs@.take(i as int));
            if this.inputs[i].is_task_ref() {
                inputs.push(this.inputs[i]);
            }
            i += 1;
        }
        assert(this.inputs@.take(this.inputs@.len() as int) =~= this.inputs@);
        let mut state = this.state.state_type.name();
        state.append(" ");
        append_decimal(&mut state, this.state.dirty_children_count);
        state.append(" dirty childen");
        assert(state@ =~= state_name(node.state_type) + (" "@ + decimal(node.dirty as nat)
            + " dirty childen"@));
        let children = this.state.children.clone();
        let dependencies = this.dependencies.clone();
        assert(children@ =~= this.state.children@);
        assert(dependencies@ =~= this.dependencies@);
        TaskSnapshot {
            name: this.ty.name(),
            inputs,
            children,
            dependencies,
            state,
            output_slot: SlotRef::TaskOutput(task),
            slots,
            executions: this.state.executions,
        }
    }

    /// The task as it is shown to users.
    pub fn display(task: TaskId, turbo_tasks: &TurboTasks) -> (text: String)
        requires
            turbo_tasks@.has(task),
        ensures
            text@ == "Task("@ + task_name(turbo_tasks@.nodes[task as int].ty) + ", "@ + state_name(
                turbo_tasks@.state(task),
            ) + ")"@,
    {
        let mut text = String::from_str("Task(");
        text.append(turbo_tasks.tasks[task].ty.name().as_str());
        text.append(", ");
        text.append(turbo_tasks.tasks[task].state.state_type.name().as_str());
        text.append(")");
        text
    }

    /// The debug form of a task, given that of its type.
    pub fn debug_with(ty: &str, state: TaskStateType) -> (text: String)
        ensures
            text@ == "Task { type: "@ + ty@ + ", state: "@ + state_identifier(state) + " }"@,
    {
        let mut text = String::from_str("Task { type: ");
        text.append(ty);
        text.append(", state: ");
        text.append(state.identifier().as_str());
        text.append(" }");
        text
    }

    /// The debug form of a task.
    pub fn debug_string(task: TaskId, turbo_tasks: &TurboTasks) -> (text: String)
        requires
            turbo_tasks@.has(task),
        ensures
            ({
                let ty = turbo_tasks@.nodes[task as int].ty;
                text@ == "Task { type: "@ + ty.debug_form(
                    debug_text(ty.shown_name()),
                    debug_text(ty.shown_method()),
                ) + ", state: "@ + state_identifier(turbo_tasks@.state(task)) + " }"@
            }),
    {
        Task::debug_with(
            turbo_tasks.tasks[task].ty.debug_string().as_str(),
            turbo_tasks.tasks[task].state.state_type,
        )
    }

    /// The debug form of a task on several lines, given that of its type.
    pub fn pretty_with(ty: &str, state: TaskStateType) -> (text: String)
        ensures
            text@ == "Task {\n    type: "@ + ty@ + ",\n    state: "@ + state_identifier(state)
                + ",\n}"@,
    {
        let mut text = String::from_str("Task {\n    type: ");
        text.append(ty);
        text.append(",\n    state: ");
        text.append(state.identifier().as_str());
        text.append(",\n}");
        text
    }

    /// The debug form of a task on several lines.
    pub fn pretty_string(task: TaskId, turbo_tasks: &TurboTasks) -> (text: String)
        requires
            turbo_tasks@.has(task),
        ensures
            ({
                let ty = turbo_tasks@.nodes[task as int].ty;
                text@ == "Task {\n    type: "@ + ty.pretty_form(
                    "    "@,
                    debug_text(ty.shown_name()),
                    debug_text(ty.shown_method()),
                ) + ",\n    state: "@ + state_identifier(turbo_tasks@.state(task)) + ",\n}"@
            }),
    {
        let (name, method) = turbo_tasks.tasks[task].ty.quoted_names();
        let ty = turbo_tasks.tasks[task].ty.pretty_with("    ", name.as_str(), method.as_str());
        Task::pretty_with(ty.as_str(), turbo_tasks.tasks[task].state.state_type)
    }
}

} // verus!
