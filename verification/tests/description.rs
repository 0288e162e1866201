use turbo_tasks::execute::Execution;
use turbo_tasks::graph::TurboTasks;
use turbo_tasks::slot::{Slot, SlotRef, WeakSlotRef};
use turbo_tasks::task::{
    NativeFunction, SlotValueType, Task, TaskArgumentOptions, TaskStateType, TraitType,
};

fn function(name: &str) -> &'static NativeFunction {
    Box::leak(Box::new(NativeFunction {
        id: 1,
        name: name.to_string(),
    }))
}

fn trait_type(name: &str) -> &'static TraitType {
    Box::leak(Box::new(TraitType {
        id: 2,
        name: name.to_string(),
    }))
}

/// One task of each type.
fn all_types() -> TurboTasks {
    let mut turbo_tasks = TurboTasks::new();
    turbo_tasks.insert(Task::new_root(5));
    let bound = Task::new_native::<()>(vec![SlotRef::Value(1)], function("read \"x\""), Ok(6));
    turbo_tasks.insert(bound.unwrap());
    turbo_tasks.insert(Task::new_resolve_native(
        vec![SlotRef::TaskOutput(0), SlotRef::Value(3)],
        function("write"),
    ));
    turbo_tasks.insert(Task::new_resolve_trait(
        trait_type("Source"),
        "content".to_string(),
        vec![
            SlotRef::TaskCreated(1, 4),
            SlotRef::Value(2),
            SlotRef::TaskOutput(1),
        ],
    ));
    turbo_tasks
}

#[test]
fn tasks_are_displayed() {
    let mut turbo_tasks = all_types();
    assert_eq!(Task::display(0, &turbo_tasks), "Task(root, scheduled)");
    assert_eq!(
        Task::display(1, &turbo_tasks),
        "Task(read \"x\", scheduled)"
    );
    assert_eq!(
        Task::display(2, &turbo_tasks),
        "Task([resolve] write, scheduled)"
    );
    assert_eq!(
        Task::display(3, &turbo_tasks),
        "Task([resolve trait] content in trait Source, scheduled)"
    );
    turbo_tasks.tasks[0].state.state_type = TaskStateType::InProgressLocallyOutdated;
    assert_eq!(
        Task::display(0, &turbo_tasks),
        "Task(root, in progress (locally, outdated))"
    );
}

#[test]
fn states_have_names() {
    let names: Vec<(String, String)> = [
        TaskStateType::Scheduled,
        TaskStateType::InProgressLocally,
        TaskStateType::InProgressLocallyOutdated,
        TaskStateType::Done,
        TaskStateType::Dirty,
        TaskStateType::SomeChildrenDirty,
        TaskStateType::SomeChildrenScheduled,
    ]
    .iter()
    .map(|state| (state.name(), state.identifier()))
    .collect();
    let expected = [
        ("scheduled", "Scheduled"),
        ("in progress (locally)", "InProgressLocally"),
        (
            "in progress (locally, outdated)",
            "InProgressLocallyOutdated",
        ),
        ("done", "Done"),
        ("dirty", "Dirty"),
        ("some children dirty", "SomeChildrenDirty"),
        ("some children scheduled", "SomeChildrenScheduled"),
    ];
    for (actual, wanted) in names.iter().zip(expected) {
        assert_eq!(actual.0, wanted.0);
        assert_eq!(actual.1, wanted.1);
    }
    assert_eq!(format!("{:?}", TaskStateType::Done), "Done");
}

#[test]
fn tasks_have_a_debug_form() {
    let turbo_tasks = all_types();
    assert_eq!(
        Task::debug_string(0, &turbo_tasks),
        "Task { type: Root, state: Scheduled }"
    );
    assert_eq!(
        Task::debug_string(1, &turbo_tasks),
        "Task { type: Native(\"read \\\"x\\\"\"), state: Scheduled }"
    );
    assert_eq!(
        Task::debug_string(2, &turbo_tasks),
        "Task { type: ResolveNative(\"write\"), state: Scheduled }"
    );
    assert_eq!(
        Task::debug_string(3, &turbo_tasks),
        "Task { type: ResolveTrait(\"Source\", \"content\"), state: Scheduled }"
    );
}

#[test]
fn debug_form_takes_quoted_names() {
    let turbo_tasks = all_types();
    let ty = &turbo_tasks.tasks[3].ty;
    assert_eq!(ty.debug_with("<a>", "<b>"), "ResolveTrait(<a>, <b>)");
    assert_eq!(turbo_tasks.tasks[0].ty.debug_with("<a>", "<b>"), "Root");
    assert_eq!(
        turbo_tasks.tasks[1].ty.debug_with("<a>", "<b>"),
        "Native(<a>)"
    );
    assert_eq!(
        Task::debug_with("Root", TaskStateType::Dirty),
        "Task { type: Root, state: Dirty }"
    );
}

#[test]
fn snapshot_shows_the_task() {
    let mut turbo_tasks = all_types();
    let task = 3;
    turbo_tasks.tasks[task].state.state_type = TaskStateType::SomeChildrenScheduled;
    turbo_tasks.tasks[task].state.dirty_children_count = 1203;
    turbo_tasks.tasks[task].state.children = vec![1, 2];
    turbo_tasks.tasks[task].state.executions = 4;
    turbo_tasks.tasks[task].state.created_slots = vec![Slot::new(), Slot::new()];
    turbo_tasks.tasks[task].dependencies = vec![WeakSlotRef::TaskOutput(1)];
    let snapshot = Task::get_snapshot_for_visualization(task, &turbo_tasks);
    assert_eq!(snapshot.name, "[resolve trait] content in trait Source");
    assert_eq!(
        snapshot.inputs,
        vec![SlotRef::TaskCreated(1, 4), SlotRef::TaskOutput(1)]
    );
    assert_eq!(snapshot.children, vec![1, 2]);
    assert_eq!(snapshot.dependencies, vec![WeakSlotRef::TaskOutput(1)]);
    assert_eq!(snapshot.state, "some children scheduled 1203 dirty childen");
    assert_eq!(snapshot.output_slot, SlotRef::TaskOutput(task));
    assert_eq!(
        snapshot.slots,
        vec![
            SlotRef::TaskCreated(task, 0),
            SlotRef::TaskCreated(task, 1),
            SlotRef::TaskOutput(task),
        ]
    );
    assert_eq!(snapshot.executions, 4);
}

#[test]
fn snapshot_counts_in_decimal() {
    let mut turbo_tasks = all_types();
    for count in [0, 9, 10, 99, 100, 4096, usize::MAX] {
        turbo_tasks.tasks[0].state.dirty_children_count = count;
        let snapshot = Task::get_snapshot_for_visualization(0, &turbo_tasks);
        assert_eq!(snapshot.state, format!("scheduled {} dirty childen", count));
        assert_eq!(snapshot.name, "root");
        assert_eq!(snapshot.slots, vec![SlotRef::TaskOutput(0)]);
    }
}

#[test]
fn bound_functions_are_run_directly() {
    let turbo_tasks = all_types();
    assert!(matches!(Task::execute(0, &turbo_tasks), Execution::Call(5)));
    assert!(matches!(Task::execute(1, &turbo_tasks), Execution::Call(6)));
    assert!(Task::execute(0, &turbo_tasks).awaited().is_none());
}

#[test]
fn all_inputs_of_a_function_are_resolved() {
    let turbo_tasks = all_types();
    let step = Task::execute(2, &turbo_tasks);
    assert_eq!(step.awaited(), Some(SlotRef::TaskOutput(0)));
    let step = step.advance(SlotRef::TaskCreated(0, 7));
    assert_eq!(step.awaited(), Some(SlotRef::Value(3)));
    let step = step.advance(SlotRef::Value(4));
    assert_eq!(step.awaited(), None);
    match step {
        Execution::CallNative { native_fn, inputs } => {
            assert_eq!(native_fn.name, "write");
            assert_eq!(
                inputs,
                vec![SlotRef::TaskCreated(0, 7), SlotRef::Value(4)]
            );
        }
        _ => panic!("the function is not called"),
    }
}

#[test]
fn function_without_inputs_is_called_at_once() {
    let mut turbo_tasks = TurboTasks::new();
    let task = turbo_tasks.insert(Task::new_resolve_native(Vec::new(), function("f")));
    match Task::execute(task, &turbo_tasks) {
        Execution::CallNative { native_fn, inputs } => {
            assert_eq!(native_fn.name, "f");
            assert!(inputs.is_empty());
        }
        _ => panic!("the function is not called"),
    }
}

#[test]
fn only_the_first_input_of_a_trait_call_is_resolved() {
    let turbo_tasks = all_types();
    let step = Task::execute(3, &turbo_tasks);
    assert_eq!(step.awaited(), Some(SlotRef::TaskCreated(1, 4)));
    match step.advance(SlotRef::Value(11)) {
        Execution::CallMethod {
            trait_type,
            name,
            inputs,
        } => {
            assert_eq!(trait_type.name, "Source");
            assert_eq!(name, "content");
            assert_eq!(
                inputs,
                vec![
                    SlotRef::Value(11),
                    SlotRef::Value(2),
                    SlotRef::TaskOutput(1)
                ]
            );
        }
        _ => panic!("the method is not called"),
    }
}

#[test]
fn trait_call_needs_an_argument() {
    let mut turbo_tasks = TurboTasks::new();
    let task = turbo_tasks.insert(Task::new_resolve_trait(
        trait_type("Source"),
        "content".to_string(),
        Vec::new(),
    ));
    assert!(matches!(
        Task::execute(task, &turbo_tasks),
        Execution::NoArguments
    ));
}

#[test]
fn arguments_can_be_resolved_in_four_ways() {
    let value_type: &'static SlotValueType = Box::leak(Box::new(SlotValueType {
        id: 3,
        name: "Text".to_string(),
    }));
    let options = [
        TaskArgumentOptions::Unresolved,
        TaskArgumentOptions::Slot,
        TaskArgumentOptions::Resolved(value_type),
        TaskArgumentOptions::Trait(trait_type("Source")),
    ];
    assert!(matches!(options[0], TaskArgumentOptions::Unresolved));
    assert!(matches!(options[1], TaskArgumentOptions::Slot));
    assert!(matches!(options[2], TaskArgumentOptions::Resolved(ty) if ty.name == "Text"));
    assert!(matches!(options[3], TaskArgumentOptions::Trait(ty) if ty.name == "Source"));
}

#[test]
fn debug_form_can_take_several_lines() {
    let turbo_tasks = all_types();
    assert_eq!(
        Task::pretty_string(0, &turbo_tasks),
        "Task {\n    type: Root,\n    state: Scheduled,\n}"
    );
    assert_eq!(
        Task::pretty_string(2, &turbo_tasks),
        "Task {\n    type: ResolveNative(\n        \"write\",\n    ),\n    state: Scheduled,\n}"
    );
    assert_eq!(
        turbo_tasks.tasks[1].ty.pretty_string(),
        "Native(\n    \"read \\\"x\\\"\",\n)"
    );
    assert_eq!(
        turbo_tasks.tasks[3].ty.pretty_string(),
        "ResolveTrait(\n    \"Source\",\n    \"content\",\n)"
    );
    assert_eq!(
        Task::pretty_with("Root", TaskStateType::Done),
        "Task {\n    type: Root,\n    state: Done,\n}"
    );
}
