use std::time::Duration;
use turbo_tasks::fault::Fault;
use turbo_tasks::graph::TurboTasks;
use turbo_tasks::slot::{Slot, SlotContent, SlotRef, TaskId, WeakSlotRef};
use turbo_tasks::task::{NativeFunction, Task, TaskStateType};

const VALUE: SlotRef = SlotRef::Value(7);

fn function(name: &str) -> &'static NativeFunction {
    Box::leak(Box::new(NativeFunction {
        id: 1,
        name: name.to_string(),
    }))
}

fn native(turbo_tasks: &mut TurboTasks) -> TaskId {
    let task = Task::new_native::<()>(Vec::new(), function("f"), Ok(3));
    turbo_tasks.insert(task.unwrap())
}

fn root(turbo_tasks: &mut TurboTasks) -> TaskId {
    turbo_tasks.insert(Task::new_root(9))
}

fn state(turbo_tasks: &TurboTasks, task: TaskId) -> TaskStateType {
    turbo_tasks.tasks[task].state.state_type
}

fn dirty(turbo_tasks: &TurboTasks, task: TaskId) -> usize {
    turbo_tasks.tasks[task].state.dirty_children_count
}

fn start(turbo_tasks: &mut TurboTasks, task: TaskId) {
    assert_eq!(Task::try_execution_started(task, turbo_tasks), Ok(()));
}

fn complete(turbo_tasks: &mut TurboTasks, task: TaskId) {
    assert_eq!(
        Task::try_execution_completed(task, VALUE, turbo_tasks),
        Ok(())
    );
}

fn connect(turbo_tasks: &mut TurboTasks, child: TaskId, parent: TaskId) {
    assert_eq!(Task::try_connect_parent(child, parent, turbo_tasks), Ok(()));
}

/// Executes a task that uses `children`.
fn execute(turbo_tasks: &mut TurboTasks, task: TaskId, children: &[TaskId]) {
    start(turbo_tasks, task);
    for child in children {
        connect(turbo_tasks, *child, task);
    }
    complete(turbo_tasks, task);
}

/// A done task with a done child.
fn done_pair(turbo_tasks: &mut TurboTasks, is_root: bool) -> (TaskId, TaskId) {
    let parent = if is_root {
        root(turbo_tasks)
    } else {
        native(turbo_tasks)
    };
    let child = native(turbo_tasks);
    execute(turbo_tasks, child, &[]);
    execute(turbo_tasks, parent, &[child]);
    assert_eq!(state(turbo_tasks, parent), TaskStateType::Done);
    (parent, child)
}

#[test]
fn default_state_is_scheduled() {
    assert_eq!(TaskStateType::default(), TaskStateType::Scheduled);
}

#[test]
fn new_tasks_are_scheduled_and_unconnected() {
    let mut turbo_tasks = TurboTasks::new();
    let task = native(&mut turbo_tasks);
    let other = root(&mut turbo_tasks);
    assert_eq!((task, other), (0, 1));
    assert_eq!(state(&turbo_tasks, task), TaskStateType::Scheduled);
    assert_eq!(dirty(&turbo_tasks, task), 0);
    assert_eq!(turbo_tasks.tasks[task].state.executions, 0);
    assert!(turbo_tasks.tasks[task].state.parents.is_empty());
    assert!(turbo_tasks.tasks[task].state.children.is_empty());
    assert!(turbo_tasks.take_scheduled().is_empty());
}

#[test]
fn binding_error_is_handed_on() {
    let task = Task::new_native(vec![VALUE], function("f"), Err("cannot bind"));
    assert!(matches!(task, Err("cannot bind")));
}

#[test]
fn execution_without_children_is_done() {
    let mut turbo_tasks = TurboTasks::new();
    let task = native(&mut turbo_tasks);
    start(&mut turbo_tasks, task);
    assert_eq!(state(&turbo_tasks, task), TaskStateType::InProgressLocally);
    assert_eq!(turbo_tasks.tasks[task].state.executions, 1);
    complete(&mut turbo_tasks, task);
    assert_eq!(state(&turbo_tasks, task), TaskStateType::Done);
    let content = Task::with_output_slot(task, &turbo_tasks, |slot| slot.content);
    assert_eq!(content, SlotContent::Link(VALUE));
}

#[test]
fn parent_waits_for_unfinished_child() {
    let mut turbo_tasks = TurboTasks::new();
    let parent = native(&mut turbo_tasks);
    let child = native(&mut turbo_tasks);
    execute(&mut turbo_tasks, parent, &[child]);
    assert_eq!(
        state(&turbo_tasks, parent),
        TaskStateType::SomeChildrenScheduled
    );
    assert_eq!(dirty(&turbo_tasks, parent), 1);
    execute(&mut turbo_tasks, child, &[]);
    assert_eq!(state(&turbo_tasks, child), TaskStateType::Done);
    assert_eq!(state(&turbo_tasks, parent), TaskStateType::Done);
    assert_eq!(dirty(&turbo_tasks, parent), 0);
}

#[test]
fn done_child_is_not_counted() {
    let mut turbo_tasks = TurboTasks::new();
    let (parent, child) = done_pair(&mut turbo_tasks, false);
    assert_eq!(dirty(&turbo_tasks, parent), 0);
    assert_eq!(turbo_tasks.tasks[child].state.parents, vec![parent]);
    assert_eq!(turbo_tasks.tasks[parent].state.children, vec![child]);
}

#[test]
fn completion_reaches_all_waiting_ancestors() {
    let mut turbo_tasks = TurboTasks::new();
    let top = root(&mut turbo_tasks);
    let middle = native(&mut turbo_tasks);
    let bottom = native(&mut turbo_tasks);
    execute(&mut turbo_tasks, top, &[middle]);
    execute(&mut turbo_tasks, middle, &[bottom]);
    let listener = Task::wait_done(top, &turbo_tasks).unwrap();
    assert!(listener.listens_to(&turbo_tasks.tasks[top].state.event));
    execute(&mut turbo_tasks, bottom, &[]);
    for task in [top, middle, bottom] {
        assert_eq!(state(&turbo_tasks, task), TaskStateType::Done);
        assert!(Task::wait_done(task, &turbo_tasks).is_none());
    }
    assert!(listener.wait_timeout(Duration::from_secs(5)));
}

#[test]
fn listener_is_not_woken_before_task_is_done() {
    let mut turbo_tasks = TurboTasks::new();
    let parent = native(&mut turbo_tasks);
    let child = native(&mut turbo_tasks);
    let listener = Task::wait_done(parent, &turbo_tasks).unwrap();
    execute(&mut turbo_tasks, parent, &[child]);
    assert!(!listener.wait_timeout(Duration::from_millis(20)));
}

#[test]
fn every_listener_is_woken() {
    let mut turbo_tasks = TurboTasks::new();
    let task = native(&mut turbo_tasks);
    let first = Task::wait_done(task, &turbo_tasks).unwrap();
    let second = Task::wait_done(task, &turbo_tasks).unwrap();
    let third = Task::wait_done(task, &turbo_tasks).unwrap();
    execute(&mut turbo_tasks, task, &[]);
    for listener in [first, second, third] {
        assert!(listener.wait_timeout(Duration::from_secs(5)));
    }
}

#[test]
fn listener_belongs_to_its_own_task() {
    let mut turbo_tasks = TurboTasks::new();
    let task = native(&mut turbo_tasks);
    let other = native(&mut turbo_tasks);
    let listener = Task::wait_done(task, &turbo_tasks).unwrap();
    assert!(listener.listens_to(&turbo_tasks.tasks[task].state.event));
    assert!(!listener.listens_to(&turbo_tasks.tasks[other].state.event));
}

#[test]
fn invalidated_task_idles_until_access() {
    let mut turbo_tasks = TurboTasks::new();
    let (parent, child) = done_pair(&mut turbo_tasks, false);
    assert_eq!(Task::try_make_dirty(child, &mut turbo_tasks), Ok(()));
    assert_eq!(state(&turbo_tasks, child), TaskStateType::Dirty);
    assert_eq!(state(&turbo_tasks, parent), TaskStateType::SomeChildrenDirty);
    assert_eq!(dirty(&turbo_tasks, parent), 1);
    assert!(turbo_tasks.scheduled.is_empty());

    Task::ensure_scheduled(parent, &mut turbo_tasks);
    assert_eq!(
        state(&turbo_tasks, parent),
        TaskStateType::SomeChildrenScheduled
    );
    assert_eq!(state(&turbo_tasks, child), TaskStateType::Scheduled);
    assert_eq!(turbo_tasks.take_scheduled(), vec![child]);
    assert!(turbo_tasks.scheduled.is_empty());

    execute(&mut turbo_tasks, child, &[]);
    assert_eq!(state(&turbo_tasks, child), TaskStateType::Done);
    assert_eq!(state(&turbo_tasks, parent), TaskStateType::Done);
}

#[test]
fn second_access_changes_nothing() {
    let mut turbo_tasks = TurboTasks::new();
    let (parent, child) = done_pair(&mut turbo_tasks, false);
    Task::make_dirty(child, &mut turbo_tasks);
    Task::ensure_scheduled(parent, &mut turbo_tasks);
    Task::ensure_scheduled(parent, &mut turbo_tasks);
    Task::ensure_scheduled(child, &mut turbo_tasks);
    assert_eq!(turbo_tasks.scheduled, vec![child]);
    assert_eq!(
        state(&turbo_tasks, parent),
        TaskStateType::SomeChildrenScheduled
    );
}

#[test]
fn access_reaches_dirty_descendants() {
    let mut turbo_tasks = TurboTasks::new();
    let top = native(&mut turbo_tasks);
    let middle = native(&mut turbo_tasks);
    let bottom = native(&mut turbo_tasks);
    execute(&mut turbo_tasks, bottom, &[]);
    execute(&mut turbo_tasks, middle, &[bottom]);
    execute(&mut turbo_tasks, top, &[middle]);
    Task::make_dirty(bottom, &mut turbo_tasks);
    assert_eq!(state(&turbo_tasks, middle), TaskStateType::SomeChildrenDirty);
    assert_eq!(state(&turbo_tasks, top), TaskStateType::SomeChildrenDirty);

    Task::schedule_dirty_children(top, &mut turbo_tasks);
    assert_eq!(
        state(&turbo_tasks, top),
        TaskStateType::SomeChildrenScheduled
    );
    assert_eq!(
        state(&turbo_tasks, middle),
        TaskStateType::SomeChildrenScheduled
    );
    assert_eq!(state(&turbo_tasks, bottom), TaskStateType::Scheduled);
    assert_eq!(turbo_tasks.take_scheduled(), vec![bottom]);
}

#[test]
fn access_schedules_a_shared_descendant_once() {
    let mut turbo_tasks = TurboTasks::new();
    let top = native(&mut turbo_tasks);
    let left = native(&mut turbo_tasks);
    let right = native(&mut turbo_tasks);
    let bottom = native(&mut turbo_tasks);
    execute(&mut turbo_tasks, bottom, &[]);
    execute(&mut turbo_tasks, left, &[bottom]);
    execute(&mut turbo_tasks, right, &[bottom]);
    execute(&mut turbo_tasks, top, &[left, right]);
    Task::make_dirty(bottom, &mut turbo_tasks);
    assert_eq!(dirty(&turbo_tasks, top), 2);
    Task::ensure_scheduled(top, &mut turbo_tasks);
    assert_eq!(turbo_tasks.take_scheduled(), vec![bottom]);
    execute(&mut turbo_tasks, bottom, &[]);
    for task in [top, left, right, bottom] {
        assert_eq!(state(&turbo_tasks, task), TaskStateType::Done);
    }
}

#[test]
fn root_brings_its_children_up_to_date_at_once() {
    let mut turbo_tasks = TurboTasks::new();
    let (parent, child) = done_pair(&mut turbo_tasks, true);
    Task::dependent_slot_updated(child, &mut turbo_tasks);
    assert_eq!(state(&turbo_tasks, child), TaskStateType::Scheduled);
    assert_eq!(
        state(&turbo_tasks, parent),
        TaskStateType::SomeChildrenScheduled
    );
    assert_eq!(turbo_tasks.take_scheduled(), vec![child]);
}

#[test]
fn progress_is_asked_for_through_intermediate_tasks() {
    let mut turbo_tasks = TurboTasks::new();
    let top = root(&mut turbo_tasks);
    let middle = native(&mut turbo_tasks);
    let bottom = native(&mut turbo_tasks);
    execute(&mut turbo_tasks, bottom, &[]);
    execute(&mut turbo_tasks, middle, &[bottom]);
    execute(&mut turbo_tasks, top, &[middle]);
    Task::invaldate(bottom, &mut turbo_tasks);
    assert_eq!(
        state(&turbo_tasks, top),
        TaskStateType::SomeChildrenScheduled
    );
    assert_eq!(
        state(&turbo_tasks, middle),
        TaskStateType::SomeChildrenScheduled
    );
    assert_eq!(state(&turbo_tasks, bottom), TaskStateType::Scheduled);
    assert_eq!(turbo_tasks.take_scheduled(), vec![bottom]);
}

#[test]
fn invalidated_root_is_scheduled() {
    let mut turbo_tasks = TurboTasks::new();
    let (parent, child) = done_pair(&mut turbo_tasks, true);
    Task::make_dirty(parent, &mut turbo_tasks);
    assert_eq!(state(&turbo_tasks, parent), TaskStateType::Scheduled);
    assert_eq!(state(&turbo_tasks, child), TaskStateType::Done);
    assert_eq!(turbo_tasks.take_scheduled(), vec![parent]);
    Task::make_dirty(parent, &mut turbo_tasks);
    assert!(turbo_tasks.take_scheduled().is_empty());
}

#[test]
fn task_with_dirty_children_can_become_dirty() {
    let mut turbo_tasks = TurboTasks::new();
    let (parent, child) = done_pair(&mut turbo_tasks, false);
    Task::make_dirty(child, &mut turbo_tasks);
    Task::make_dirty(parent, &mut turbo_tasks);
    assert_eq!(state(&turbo_tasks, parent), TaskStateType::Dirty);
    assert!(turbo_tasks.scheduled.is_empty());
}

#[test]
fn task_that_waits_for_children_is_scheduled_when_invalidated() {
    let mut turbo_tasks = TurboTasks::new();
    let parent = native(&mut turbo_tasks);
    let child = native(&mut turbo_tasks);
    execute(&mut turbo_tasks, parent, &[child]);
    Task::make_dirty(parent, &mut turbo_tasks);
    assert_eq!(state(&turbo_tasks, parent), TaskStateType::Scheduled);
    assert_eq!(turbo_tasks.take_scheduled(), vec![parent]);
}

#[test]
fn invalidation_during_execution_executes_again() {
    let mut turbo_tasks = TurboTasks::new();
    let task = native(&mut turbo_tasks);
    start(&mut turbo_tasks, task);
    Task::make_dirty(task, &mut turbo_tasks);
    assert_eq!(
        state(&turbo_tasks, task),
        TaskStateType::InProgressLocallyOutdated
    );
    Task::make_dirty(task, &mut turbo_tasks);
    complete(&mut turbo_tasks, task);
    assert_eq!(state(&turbo_tasks, task), TaskStateType::Scheduled);
    assert_eq!(turbo_tasks.take_scheduled(), vec![task]);
    let content = Task::with_output_slot(task, &turbo_tasks, |slot| slot.content);
    assert_eq!(content, SlotContent::Empty);
    execute(&mut turbo_tasks, task, &[]);
    assert_eq!(state(&turbo_tasks, task), TaskStateType::Done);
    assert_eq!(turbo_tasks.tasks[task].state.executions, 2);
}

#[test]
fn dirty_child_outdates_an_executing_parent() {
    let mut turbo_tasks = TurboTasks::new();
    let parent = native(&mut turbo_tasks);
    let child = native(&mut turbo_tasks);
    execute(&mut turbo_tasks, child, &[]);
    start(&mut turbo_tasks, parent);
    connect(&mut turbo_tasks, child, parent);
    Task::make_dirty(child, &mut turbo_tasks);
    assert_eq!(
        state(&turbo_tasks, parent),
        TaskStateType::InProgressLocallyOutdated
    );
    assert_eq!(dirty(&turbo_tasks, parent), 1);
    assert_eq!(state(&turbo_tasks, child), TaskStateType::Dirty);
    assert!(turbo_tasks.scheduled.is_empty());
}

#[test]
fn restart_detaches_from_children_and_readers() {
    let mut turbo_tasks = TurboTasks::new();
    let (parent, child) = done_pair(&mut turbo_tasks, true);
    Task::with_output_slot_mut(child, &mut turbo_tasks, |slot| {
        slot.dependents.push(parent);
        slot.dependents.push(9);
        slot.dependents.push(parent);
    });
    Task::add_dependency(parent, &mut turbo_tasks, WeakSlotRef::TaskOutput(child));
    Task::make_dirty(parent, &mut turbo_tasks);
    start(&mut turbo_tasks, parent);
    assert!(turbo_tasks.tasks[parent].state.children.is_empty());
    assert!(turbo_tasks.tasks[parent].dependencies.is_empty());
    assert!(turbo_tasks.tasks[child].state.parents.is_empty());
    let readers = Task::with_output_slot(child, &turbo_tasks, |slot| slot.dependents.clone());
    assert_eq!(readers, vec![9]);
}

#[test]
fn removal_fills_gaps_from_the_end() {
    let mut turbo_tasks = TurboTasks::new();
    let task = root(&mut turbo_tasks);
    let source = native(&mut turbo_tasks);
    execute(&mut turbo_tasks, task, &[]);
    Task::with_output_slot_mut(source, &mut turbo_tasks, |slot| {
        slot.dependents = vec![task, 5, task, 6, 7];
    });
    Task::add_dependency(task, &mut turbo_tasks, WeakSlotRef::TaskOutput(source));
    Task::make_dirty(task, &mut turbo_tasks);
    start(&mut turbo_tasks, task);
    let readers = Task::with_output_slot(source, &turbo_tasks, |slot| slot.dependents.clone());
    assert_eq!(readers, vec![7, 5, 6]);
}

#[test]
fn dead_owner_keeps_its_readers() {
    let mut turbo_tasks = TurboTasks::new();
    let task = root(&mut turbo_tasks);
    let source = native(&mut turbo_tasks);
    execute(&mut turbo_tasks, task, &[]);
    Task::with_output_slot_mut(source, &mut turbo_tasks, |slot| slot.dependents.push(task));
    Task::add_dependency(task, &mut turbo_tasks, WeakSlotRef::TaskOutput(source));
    turbo_tasks.release(source);
    Task::make_dirty(task, &mut turbo_tasks);
    start(&mut turbo_tasks, task);
    let readers = Task::with_output_slot(source, &turbo_tasks, |slot| slot.dependents.clone());
    assert_eq!(readers, vec![task]);
}

#[test]
fn dead_parent_hears_of_nothing() {
    let mut turbo_tasks = TurboTasks::new();
    let (parent, child) = done_pair(&mut turbo_tasks, false);
    turbo_tasks.release(parent);
    Task::make_dirty(child, &mut turbo_tasks);
    assert_eq!(state(&turbo_tasks, parent), TaskStateType::Done);
    assert_eq!(state(&turbo_tasks, child), TaskStateType::Dirty);
}

#[test]
fn child_dirty_answers_by_state() {
    let mut turbo_tasks = TurboTasks::new();
    let task = native(&mut turbo_tasks);
    assert_eq!(Task::try_child_dirty(task, &mut turbo_tasks), Ok(false));
    assert_eq!(dirty(&turbo_tasks, task), 0);
    turbo_tasks.tasks[task].state.state_type = TaskStateType::SomeChildrenDirty;
    assert!(!Task::child_dirty(task, &mut turbo_tasks));
    assert_eq!(dirty(&turbo_tasks, task), 1);
    turbo_tasks.tasks[task].state.state_type = TaskStateType::SomeChildrenScheduled;
    assert!(Task::child_dirty(task, &mut turbo_tasks));
    assert_eq!(dirty(&turbo_tasks, task), 2);
    turbo_tasks.tasks[task].state.state_type = TaskStateType::InProgressLocallyOutdated;
    assert_eq!(Task::try_child_dirty(task, &mut turbo_tasks), Ok(false));
    assert_eq!(dirty(&turbo_tasks, task), 2);
    turbo_tasks.tasks[task].state.state_type = TaskStateType::Dirty;
    assert_eq!(Task::try_child_dirty(task, &mut turbo_tasks), Ok(false));
    assert_eq!(dirty(&turbo_tasks, task), 2);
}

#[test]
fn child_done_counts_down() {
    let mut turbo_tasks = TurboTasks::new();
    let task = native(&mut turbo_tasks);
    turbo_tasks.tasks[task].state.dirty_children_count = 2;
    turbo_tasks.tasks[task].state.state_type = TaskStateType::SomeChildrenScheduled;
    Task::child_done(task, &mut turbo_tasks);
    assert_eq!(
        state(&turbo_tasks, task),
        TaskStateType::SomeChildrenScheduled
    );
    assert_eq!(dirty(&turbo_tasks, task), 1);
    Task::child_done(task, &mut turbo_tasks);
    assert_eq!(state(&turbo_tasks, task), TaskStateType::Done);
    assert_eq!(dirty(&turbo_tasks, task), 0);
}

#[test]
fn assert_state_checks_children() {
    let mut turbo_tasks = TurboTasks::new();
    let (parent, child) = done_pair(&mut turbo_tasks, false);
    assert!(Task::assert_state(parent, &turbo_tasks));
    turbo_tasks.tasks[child].state.state_type = TaskStateType::Scheduled;
    assert!(!Task::assert_state(parent, &turbo_tasks));
    turbo_tasks.tasks[parent].state.state_type = TaskStateType::SomeChildrenDirty;
    assert!(!Task::assert_state(parent, &turbo_tasks));
    turbo_tasks.tasks[parent].state.dirty_children_count = 1;
    assert!(Task::assert_state(parent, &turbo_tasks));
    turbo_tasks.tasks[parent].state.state_type = TaskStateType::SomeChildrenScheduled;
    turbo_tasks.tasks[parent].state.dirty_children_count = 8;
    assert!(Task::assert_state(parent, &turbo_tasks));
}

#[test]
fn execution_starts_in_two_states_only() {
    let mut turbo_tasks = TurboTasks::new();
    let task = native(&mut turbo_tasks);
    for (state_type, starts) in [
        (TaskStateType::Scheduled, true),
        (TaskStateType::InProgressLocallyOutdated, true),
        (TaskStateType::InProgressLocally, false),
        (TaskStateType::Done, false),
        (TaskStateType::Dirty, false),
        (TaskStateType::SomeChildrenDirty, false),
        (TaskStateType::SomeChildrenScheduled, false),
    ] {
        turbo_tasks.tasks[task].state.state_type = state_type;
        let result = Task::try_execution_started(task, &mut turbo_tasks);
        if starts {
            assert_eq!(result, Ok(()));
        } else {
            assert_eq!(result, Err(Fault::StartedInState(state_type)));
        }
    }
    assert_eq!(turbo_tasks.tasks[task].state.executions, 7);
}

#[test]
fn execution_completes_in_two_states_only() {
    let mut turbo_tasks = TurboTasks::new();
    let task = native(&mut turbo_tasks);
    for state_type in [
        TaskStateType::Scheduled,
        TaskStateType::Done,
        TaskStateType::Dirty,
        TaskStateType::SomeChildrenDirty,
        TaskStateType::SomeChildrenScheduled,
    ] {
        turbo_tasks.tasks[task].state.state_type = state_type;
        assert_eq!(
            Task::try_execution_completed(task, VALUE, &mut turbo_tasks),
            Err(Fault::CompletedInState(state_type))
        );
    }
}

#[test]
fn executions_overflow_is_reported() {
    let mut turbo_tasks = TurboTasks::new();
    let task = native(&mut turbo_tasks);
    turbo_tasks.tasks[task].state.executions = u32::MAX;
    assert_eq!(
        Task::try_execution_started(task, &mut turbo_tasks),
        Err(Fault::ExecutionsOverflow)
    );
    assert_eq!(state(&turbo_tasks, task), TaskStateType::Scheduled);
}

#[test]
fn count_overflow_is_reported() {
    let mut turbo_tasks = TurboTasks::new();
    let task = native(&mut turbo_tasks);
    let child = native(&mut turbo_tasks);
    turbo_tasks.tasks[task].state.dirty_children_count = usize::MAX;
    for state_type in [
        TaskStateType::InProgressLocally,
        TaskStateType::SomeChildrenDirty,
        TaskStateType::SomeChildrenScheduled,
    ] {
        turbo_tasks.tasks[task].state.state_type = state_type;
        assert_eq!(
            Task::try_child_dirty(task, &mut turbo_tasks),
            Err(Fault::CountOverflow)
        );
        assert_eq!(state(&turbo_tasks, task), state_type);
    }
    assert_eq!(
        Task::try_connect_parent(child, task, &mut turbo_tasks),
        Err(Fault::CountOverflow)
    );
}

#[test]
fn count_underflow_is_reported() {
    let mut turbo_tasks = TurboTasks::new();
    let task = native(&mut turbo_tasks);
    assert_eq!(
        Task::try_child_done(task, &mut turbo_tasks),
        Err(Fault::CountUnderflow)
    );
}

#[test]
fn parent_that_lost_count_is_reported() {
    let mut turbo_tasks = TurboTasks::new();
    let (parent, child) = done_pair(&mut turbo_tasks, false);
    Task::make_dirty(parent, &mut turbo_tasks);
    Task::make_dirty(child, &mut turbo_tasks);
    assert_eq!(dirty(&turbo_tasks, parent), 0);
    Task::ensure_scheduled(child, &mut turbo_tasks);
    start(&mut turbo_tasks, child);
    assert_eq!(
        Task::try_execution_completed(child, VALUE, &mut turbo_tasks),
        Err(Fault::CountUnderflow)
    );
    assert_eq!(state(&turbo_tasks, child), TaskStateType::Done);
}

#[test]
fn child_done_while_done_is_reported() {
    let mut turbo_tasks = TurboTasks::new();
    let task = native(&mut turbo_tasks);
    turbo_tasks.tasks[task].state.state_type = TaskStateType::Done;
    turbo_tasks.tasks[task].state.dirty_children_count = 1;
    assert_eq!(
        Task::try_child_done(task, &mut turbo_tasks),
        Err(Fault::ChildDoneWhileDone)
    );
    assert_eq!(dirty(&turbo_tasks, task), 0);
}

#[test]
fn mismatch_of_task_or_parent_is_reported() {
    let mut turbo_tasks = TurboTasks::new();
    let (parent, child) = done_pair(&mut turbo_tasks, false);
    turbo_tasks.tasks[child].state.state_type = TaskStateType::Scheduled;
    assert_eq!(
        Task::try_execution_started(child, &mut turbo_tasks),
        Err(Fault::StateMismatch(parent))
    );
    assert_eq!(
        Task::try_execution_completed(parent, VALUE, &mut turbo_tasks),
        Err(Fault::StateMismatch(parent))
    );
    let other = native(&mut turbo_tasks);
    assert_eq!(
        Task::try_connect_parent(parent, other, &mut turbo_tasks),
        Err(Fault::StateMismatch(parent))
    );
}

#[test]
fn shortcut_past_an_intermediate_task_is_reported() {
    let mut turbo_tasks = TurboTasks::new();
    let top = native(&mut turbo_tasks);
    let middle = native(&mut turbo_tasks);
    let bottom = native(&mut turbo_tasks);
    execute(&mut turbo_tasks, bottom, &[]);
    execute(&mut turbo_tasks, middle, &[bottom]);
    execute(&mut turbo_tasks, top, &[bottom, middle]);
    assert_eq!(turbo_tasks.tasks[bottom].state.parents, vec![middle, top]);
    assert_eq!(
        Task::try_make_dirty(bottom, &mut turbo_tasks),
        Err(Fault::StateMismatch(top))
    );
}

#[test]
fn done_task_hands_out_its_output() {
    let mut turbo_tasks = TurboTasks::new();
    let task = native(&mut turbo_tasks);
    execute(&mut turbo_tasks, task, &[]);
    let outcome = Task::get_or_schedule(task, &mut turbo_tasks, |slot| {
        slot.dependents.push(4);
        slot.content
    });
    assert!(matches!(outcome, Ok(SlotContent::Link(SlotRef::Value(7)))));
    assert_eq!(turbo_tasks.tasks[task].state.output_slot.dependents, vec![4]);
}

#[test]
fn dirty_task_is_scheduled_and_listened_to() {
    let mut turbo_tasks = TurboTasks::new();
    let task = native(&mut turbo_tasks);
    execute(&mut turbo_tasks, task, &[]);
    Task::make_dirty(task, &mut turbo_tasks);
    let outcome = Task::get_or_schedule(task, &mut turbo_tasks, |slot| slot.content);
    let (func, listener) = match outcome {
        Ok(_) => panic!("the task is not done"),
        Err(pair) => pair,
    };
    assert_eq!(turbo_tasks.take_scheduled(), vec![task]);
    assert!(listener.listens_to(&turbo_tasks.tasks[task].state.event));
    execute(&mut turbo_tasks, task, &[]);
    assert!(listener.wait_timeout(Duration::from_secs(5)));
    let outcome = Task::get_or_schedule(task, &mut turbo_tasks, func);
    assert!(matches!(outcome, Ok(SlotContent::Link(SlotRef::Value(7)))));
}

#[test]
fn waiting_for_dirty_children_schedules_them() {
    let mut turbo_tasks = TurboTasks::new();
    let (parent, child) = done_pair(&mut turbo_tasks, false);
    Task::make_dirty(child, &mut turbo_tasks);
    let outcome = Task::get_or_schedule(parent, &mut turbo_tasks, |slot| slot.content);
    assert!(outcome.is_err());
    assert_eq!(
        state(&turbo_tasks, parent),
        TaskStateType::SomeChildrenScheduled
    );
    assert_eq!(turbo_tasks.take_scheduled(), vec![child]);
}

#[test]
fn connecting_and_accessing_a_dirty_child_schedules_it() {
    let mut turbo_tasks = TurboTasks::new();
    let parent = native(&mut turbo_tasks);
    let child = native(&mut turbo_tasks);
    execute(&mut turbo_tasks, child, &[]);
    Task::make_dirty(child, &mut turbo_tasks);
    start(&mut turbo_tasks, parent);
    connect(&mut turbo_tasks, child, parent);
    Task::ensure_scheduled(child, &mut turbo_tasks);
    assert_eq!(dirty(&turbo_tasks, parent), 1);
    assert_eq!(state(&turbo_tasks, child), TaskStateType::Scheduled);
    assert_eq!(turbo_tasks.take_scheduled(), vec![child]);
}

#[test]
fn schedule_keeps_order() {
    let mut turbo_tasks = TurboTasks::new();
    let first = native(&mut turbo_tasks);
    let second = native(&mut turbo_tasks);
    turbo_tasks.schedule(second);
    turbo_tasks.schedule(first);
    assert_eq!(turbo_tasks.take_scheduled(), vec![second, first]);
}

#[test]
fn unfinished_child_is_not_attached_to_a_done_parent() {
    let mut turbo_tasks = TurboTasks::new();
    let (parent, child) = done_pair(&mut turbo_tasks, false);
    let other = native(&mut turbo_tasks);
    assert_eq!(
        Task::try_connect_parent(other, parent, &mut turbo_tasks),
        Err(Fault::UnfinishedChildOfDone)
    );
    assert_eq!(turbo_tasks.tasks[parent].state.children, vec![child]);
    assert!(turbo_tasks.tasks[other].state.parents.is_empty());
    assert_eq!(dirty(&turbo_tasks, parent), 0);
    assert_eq!(state(&turbo_tasks, parent), TaskStateType::Done);
    execute(&mut turbo_tasks, other, &[]);
    connect(&mut turbo_tasks, other, parent);
    assert_eq!(turbo_tasks.tasks[parent].state.children, vec![child, other]);
    assert!(Task::assert_state(parent, &turbo_tasks));
}

#[test]
fn outdated_execution_hears_of_more_children_than_it_counts() {
    let mut turbo_tasks = TurboTasks::new();
    let parent = native(&mut turbo_tasks);
    let first = native(&mut turbo_tasks);
    let second = native(&mut turbo_tasks);
    execute(&mut turbo_tasks, first, &[]);
    execute(&mut turbo_tasks, second, &[]);
    start(&mut turbo_tasks, parent);
    connect(&mut turbo_tasks, first, parent);
    connect(&mut turbo_tasks, second, parent);
    Task::make_dirty(first, &mut turbo_tasks);
    Task::make_dirty(second, &mut turbo_tasks);
    assert_eq!(dirty(&turbo_tasks, parent), 1);
    for child in [first, second] {
        Task::ensure_scheduled(child, &mut turbo_tasks);
        execute(&mut turbo_tasks, child, &[]);
    }
    assert_eq!(dirty(&turbo_tasks, parent), 0);
    assert_eq!(
        state(&turbo_tasks, parent),
        TaskStateType::InProgressLocallyOutdated
    );
    complete(&mut turbo_tasks, parent);
    assert_eq!(state(&turbo_tasks, parent), TaskStateType::Scheduled);
}

#[test]
fn listener_is_kept_until_the_task_is_done_again() {
    let mut turbo_tasks = TurboTasks::new();
    let (parent, child) = done_pair(&mut turbo_tasks, false);
    Task::make_dirty(child, &mut turbo_tasks);
    let listener = Task::wait_done(parent, &turbo_tasks).unwrap();
    Task::make_dirty(parent, &mut turbo_tasks);
    Task::ensure_scheduled(parent, &mut turbo_tasks);
    start(&mut turbo_tasks, parent);
    assert!(listener.listens_to(&turbo_tasks.tasks[parent].state.event));
    complete(&mut turbo_tasks, parent);
    assert!(listener.listens_to(&turbo_tasks.tasks[parent].state.event));
    assert!(listener.wait_timeout(Duration::from_secs(5)));
}

#[test]
fn used_task_is_not_releasable() {
    let mut turbo_tasks = TurboTasks::new();
    let (parent, child) = done_pair(&mut turbo_tasks, false);
    assert!(!turbo_tasks.is_releasable(child));
    assert!(turbo_tasks.is_releasable(parent));
    turbo_tasks.release(parent);
    assert!(turbo_tasks.is_releasable(child));
}

#[test]
fn slot_operations_keep_states_and_counts() {
    let mut turbo_tasks = TurboTasks::new();
    let (parent, child) = done_pair(&mut turbo_tasks, false);
    Task::make_dirty(child, &mut turbo_tasks);
    Task::with_output_slot_mut(child, &mut turbo_tasks, |slot| slot.link(VALUE));
    Task::add_dependency(parent, &mut turbo_tasks, WeakSlotRef::TaskOutput(child));
    turbo_tasks.take_scheduled();
    assert_eq!(dirty(&turbo_tasks, parent), 1);
    assert_eq!(state(&turbo_tasks, parent), TaskStateType::SomeChildrenDirty);
    assert!(Task::assert_state(parent, &turbo_tasks));
}

#[test]
fn references_keep_their_task_alive() {
    let mut turbo_tasks = TurboTasks::new();
    let held = native(&mut turbo_tasks);
    execute(&mut turbo_tasks, held, &[]);
    assert!(turbo_tasks.is_releasable(held));

    let inputs = vec![VALUE, SlotRef::TaskCreated(held, 3)];
    let reader = turbo_tasks.insert(Task::new_resolve_native(inputs, function("g")));
    assert!(!turbo_tasks.is_releasable(held));
    turbo_tasks.release(reader);
    assert!(turbo_tasks.is_releasable(held));

    let other = native(&mut turbo_tasks);
    Task::with_output_slot_mut(other, &mut turbo_tasks, |slot| {
        slot.link(SlotRef::TaskOutput(held))
    });
    assert!(!turbo_tasks.is_releasable(held));
    Task::with_output_slot_mut(other, &mut turbo_tasks, |slot| slot.link(VALUE));
    assert!(turbo_tasks.is_releasable(held));

    let mut slot = Slot::new();
    slot.link(SlotRef::TaskOutput(held));
    turbo_tasks.tasks[other].state.created_slots = vec![Slot::new(), slot];
    assert!(!turbo_tasks.is_releasable(held));
    Task::with_created_slot(other, &mut turbo_tasks, 1, |slot| {
        slot.content = SlotContent::Value(1)
    });
    assert!(turbo_tasks.is_releasable(held));
    Task::add_dependency(other, &mut turbo_tasks, WeakSlotRef::TaskOutput(held));
    assert!(turbo_tasks.is_releasable(held));
}

#[test]
fn executions_keep_their_task_alive() {
    let mut turbo_tasks = TurboTasks::new();
    let (parent, child) = done_pair(&mut turbo_tasks, false);
    assert!(!turbo_tasks.try_release(child));
    assert!(turbo_tasks.tasks[child].alive);
    Task::make_dirty(parent, &mut turbo_tasks);
    Task::ensure_scheduled(parent, &mut turbo_tasks);
    assert!(!turbo_tasks.try_release(parent));
    turbo_tasks.take_scheduled();
    assert!(!turbo_tasks.try_release(parent));
    start(&mut turbo_tasks, parent);
    assert!(!turbo_tasks.try_release(parent));
    complete(&mut turbo_tasks, parent);
    turbo_tasks.schedule(parent);
    assert!(!turbo_tasks.try_release(parent));
    turbo_tasks.take_scheduled();
    assert!(turbo_tasks.try_release(parent));
    assert!(!turbo_tasks.tasks[parent].alive);
    assert!(turbo_tasks.try_release(child));
}
