use turbo_tasks::context::{
    match_previous_node_by_key, match_previous_node_by_type, ExecutionContext, Invalidator,
};
use turbo_tasks::graph::TurboTasks;
use turbo_tasks::slot::{SlotContent, SlotRef, TaskId, WeakSlotRef};
use turbo_tasks::task::{Task, TaskStateType};

fn root(turbo_tasks: &mut TurboTasks) -> TaskId {
    turbo_tasks.insert(Task::new_root(9))
}

#[test]
fn keys_find_their_slots_again() {
    let mut turbo_tasks = TurboTasks::new();
    let mut context = ExecutionContext::new();
    let task = root(&mut turbo_tasks);
    Task::set_current(task, &mut context, &mut turbo_tasks);
    let first = match_previous_node_by_key(10, &mut context, &mut turbo_tasks, |slot| {
        assert_eq!(slot.content, SlotContent::Empty);
        slot.content = SlotContent::Value(1);
    });
    let second = match_previous_node_by_key(20, &mut context, &mut turbo_tasks, |slot| {
        slot.content = SlotContent::Value(2);
    });
    let again = match_previous_node_by_key(10, &mut context, &mut turbo_tasks, |slot| {
        assert_eq!(slot.content, SlotContent::Value(1));
        slot.content = SlotContent::Value(3);
    });
    assert_eq!(first, SlotRef::TaskCreated(task, 0));
    assert_eq!(second, SlotRef::TaskCreated(task, 1));
    assert_eq!(again, first);
    let content = Task::with_created_slot(task, &mut turbo_tasks, 0, |slot| slot.content);
    assert_eq!(content, SlotContent::Value(3));
    assert_eq!(turbo_tasks.tasks[task].state.created_slots.len(), 2);
}

#[test]
fn types_find_their_slots_in_order() {
    let mut turbo_tasks = TurboTasks::new();
    let mut context = ExecutionContext::new();
    let task = root(&mut turbo_tasks);
    let mut runs = Vec::new();
    for _ in 0..2 {
        Task::set_current(task, &mut context, &mut turbo_tasks);
        let mut slots = Vec::new();
        for ty in [1, 2, 1, 1, 2] {
            slots.push(match_previous_node_by_type(
                ty,
                &mut context,
                &mut turbo_tasks,
                |_slot| {},
            ));
        }
        slots.push(match_previous_node_by_key(
            1,
            &mut context,
            &mut turbo_tasks,
            |_slot| {},
        ));
        Task::finalize_execution(task, &mut context, &mut turbo_tasks);
        runs.push(slots);
    }
    let expected: Vec<SlotRef> = (0..6)
        .map(|index| SlotRef::TaskCreated(task, index))
        .collect();
    assert_eq!(runs[0], expected);
    assert_eq!(runs[1], expected);
    assert_eq!(turbo_tasks.tasks[task].state.created_slots.len(), 6);
}

#[test]
fn longer_execution_creates_more_slots() {
    let mut turbo_tasks = TurboTasks::new();
    let mut context = ExecutionContext::new();
    let task = root(&mut turbo_tasks);
    let mut last = SlotRef::Value(0);
    for requests in [1, 3, 2] {
        Task::set_current(task, &mut context, &mut turbo_tasks);
        for _ in 0..requests {
            last = match_previous_node_by_type(5, &mut context, &mut turbo_tasks, |_slot| {});
        }
        Task::finalize_execution(task, &mut context, &mut turbo_tasks);
    }
    assert_eq!(last, SlotRef::TaskCreated(task, 1));
    assert_eq!(turbo_tasks.tasks[task].state.created_slots.len(), 3);
}

#[test]
fn tasks_do_not_share_slots() {
    let mut turbo_tasks = TurboTasks::new();
    let mut context = ExecutionContext::new();
    let first = root(&mut turbo_tasks);
    let second = root(&mut turbo_tasks);
    Task::set_current(first, &mut context, &mut turbo_tasks);
    let a = match_previous_node_by_key(1, &mut context, &mut turbo_tasks, |_slot| {});
    Task::finalize_execution(first, &mut context, &mut turbo_tasks);
    Task::set_current(second, &mut context, &mut turbo_tasks);
    let b = match_previous_node_by_key(1, &mut context, &mut turbo_tasks, |_slot| {});
    Task::finalize_execution(second, &mut context, &mut turbo_tasks);
    assert_eq!(a, SlotRef::TaskCreated(first, 0));
    assert_eq!(b, SlotRef::TaskCreated(second, 0));
}

#[test]
fn leaving_an_execution_restores_the_surrounding_one() {
    let mut turbo_tasks = TurboTasks::new();
    let mut context = ExecutionContext::new();
    let outer = root(&mut turbo_tasks);
    let inner = root(&mut turbo_tasks);
    Task::set_current(outer, &mut context, &mut turbo_tasks);
    let before = match_previous_node_by_key(1, &mut context, &mut turbo_tasks, |_slot| {});
    Task::set_current(inner, &mut context, &mut turbo_tasks);
    let inside = match_previous_node_by_key(1, &mut context, &mut turbo_tasks, |_slot| {});
    Task::finalize_execution(inner, &mut context, &mut turbo_tasks);
    assert_eq!(Task::current(&context), Some(inner));
    context.current = Some(outer);
    let after = match_previous_node_by_key(1, &mut context, &mut turbo_tasks, |_slot| {});
    assert_eq!(before, SlotRef::TaskCreated(outer, 0));
    assert_eq!(inside, SlotRef::TaskCreated(inner, 0));
    assert_eq!(after, before);
}

#[test]
fn current_task_is_handed_out() {
    let mut turbo_tasks = TurboTasks::new();
    let mut context = ExecutionContext::new();
    assert_eq!(Task::current(&context), None);
    root(&mut turbo_tasks);
    let task = root(&mut turbo_tasks);
    Task::set_current(task, &mut context, &mut turbo_tasks);
    assert_eq!(Task::current(&context), Some(task));
    assert_eq!(Task::with_current(&context, |current| current + 10), 11);
}

#[test]
fn invalidator_invalidates_the_current_task() {
    let mut turbo_tasks = TurboTasks::new();
    let mut context = ExecutionContext::new();
    let task = root(&mut turbo_tasks);
    Task::set_current(task, &mut context, &mut turbo_tasks);
    let invalidator = Task::get_invalidator(&context);
    Task::execution_started(task, &mut turbo_tasks);
    Task::execution_completed(task, SlotRef::Value(1), &mut turbo_tasks);
    invalidator.invalidate(&mut turbo_tasks);
    assert_eq!(
        turbo_tasks.tasks[task].state.state_type,
        TaskStateType::Scheduled
    );
    assert_eq!(turbo_tasks.take_scheduled(), vec![task]);
}

#[test]
fn invalidator_of_nothing_or_a_dead_task_does_nothing() {
    let mut turbo_tasks = TurboTasks::new();
    let context = ExecutionContext::new();
    let task = root(&mut turbo_tasks);
    Task::execution_started(task, &mut turbo_tasks);
    Task::execution_completed(task, SlotRef::Value(1), &mut turbo_tasks);
    let nothing = Task::get_invalidator(&context);
    assert_eq!(nothing.task, None);
    assert_eq!(nothing.try_invalidate(&mut turbo_tasks), Ok(()));
    turbo_tasks.release(task);
    let dead = Invalidator { task: Some(task) };
    assert_eq!(dead.try_invalidate(&mut turbo_tasks), Ok(()));
    assert_eq!(turbo_tasks.tasks[task].state.state_type, TaskStateType::Done);
    assert!(turbo_tasks.scheduled.is_empty());
}

#[test]
fn restart_forgets_reads_of_created_slots() {
    let mut turbo_tasks = TurboTasks::new();
    let mut context = ExecutionContext::new();
    let reader = root(&mut turbo_tasks);
    let owner = root(&mut turbo_tasks);
    Task::set_current(owner, &mut context, &mut turbo_tasks);
    match_previous_node_by_key(1, &mut context, &mut turbo_tasks, |slot| {
        slot.dependents = vec![reader, 8];
    });
    match_previous_node_by_key(2, &mut context, &mut turbo_tasks, |slot| {
        slot.dependents = vec![reader];
    });
    Task::add_dependency(
        reader,
        &mut turbo_tasks,
        WeakSlotRef::TaskCreated(owner, 0),
    );
    Task::execution_started(reader, &mut turbo_tasks);
    assert!(turbo_tasks.tasks[reader].dependencies.is_empty());
    let slots = &turbo_tasks.tasks[owner].state.created_slots;
    assert_eq!(slots[0].dependents, vec![8]);
    assert_eq!(slots[1].dependents, vec![reader]);
}

#[test]
fn other_requests_do_not_disturb_a_type() {
    let mut turbo_tasks = TurboTasks::new();
    let mut context = ExecutionContext::new();
    let task = root(&mut turbo_tasks);
    let mut third = Vec::new();
    for others in [0, 4, 1] {
        Task::set_current(task, &mut context, &mut turbo_tasks);
        for other in 0..others {
            match_previous_node_by_type(other, &mut context, &mut turbo_tasks, |_slot| {});
            match_previous_node_by_key(other, &mut context, &mut turbo_tasks, |_slot| {});
        }
        for _ in 0..2 {
            match_previous_node_by_type(77, &mut context, &mut turbo_tasks, |_slot| {});
        }
        third.push(match_previous_node_by_type(
            77,
            &mut context,
            &mut turbo_tasks,
            |_slot| {},
        ));
        Task::finalize_execution(task, &mut context, &mut turbo_tasks);
    }
    assert_eq!(third, vec![SlotRef::TaskCreated(task, 2); 3]);
}

#[test]
fn recorded_slots_can_be_looked_up() {
    let mut turbo_tasks = TurboTasks::new();
    let mut context = ExecutionContext::new();
    let task = root(&mut turbo_tasks);
    Task::set_current(task, &mut context, &mut turbo_tasks);
    match_previous_node_by_key(3, &mut context, &mut turbo_tasks, |_slot| {});
    match_previous_node_by_type(5, &mut context, &mut turbo_tasks, |_slot| {});
    assert_eq!(context.previous_nodes.slot_of_key(3), Some(0));
    assert_eq!(context.previous_nodes.slot_of_key(4), None);
    assert_eq!(context.previous_nodes.next_of_type(5), None);
    assert_eq!(context.previous_nodes.used_of_type(5), 1);
    assert_eq!(context.previous_nodes.used_of_type(6), 0);
    context.previous_nodes.rewind();
    assert_eq!(context.previous_nodes.next_of_type(5), Some(1));
    assert_eq!(context.previous_nodes.used_of_type(5), 0);
}
