//! Slots, the places that hold what tasks produce, and references to them.

use vstd::prelude::*;

verus! {

/// The identity of a task: its position in the `TurboTasks` that owns it.
pub type TaskId = usize;

/// A handle for a value that lives outside the task graph.
pub type ValueId = u64;

/// A reference to a slot or to a plain value. It keeps the task alive.
#[derive(Clone, Copy, Debug, PartialEq, Eq, Structural)]
pub enum SlotRef {
    /// The output slot of a task.
    TaskOutput(TaskId),
    /// A slot that a task created, by its index.
    TaskCreated(TaskId, usize),
    /// A value that belongs to no task.
    Value(ValueId),
}

/// A reference to a task's slot that does not keep the task alive.
#[derive(Clone, Copy, Debug, PartialEq, Eq, Structural)]
pub enum WeakSlotRef {
    /// The output slot of a task.
    TaskOutput(TaskId),
    /// A slot that a task created, by its index.
    TaskCreated(TaskId, usize),
}

/// What a slot holds.
#[derive(Clone, Copy, Debug, PartialEq, Eq, Structural)]
pub enum SlotContent {
    /// Nothing was assigned yet.
    Empty,
    /// Whatever the target holds.
    Link(SlotRef),
    /// A value.
    Value(ValueId),
}

/// A slot: its content, and the tasks that read it.
#[derive(Debug)]
pub struct Slot {
    pub content: SlotContent,
    pub dependents: Vec<TaskId>,
}

/// The mathematical value of a slot.
#[verifier::ext_equal]
pub struct SlotModel {
    pub content: SlotContent,
    pub dependents: Seq<TaskId>,
}

impl View for Slot {
    type V = SlotModel;

    open spec fn view(&self) -> SlotModel {
        SlotModel { content: self.content, dependents: self.dependents@ }
    }
}

/// The slot that nothing was assigned to and nothing reads.
pub open spec fn empty_slot() -> SlotModel {
    SlotModel { content: SlotContent::Empty, dependents: Seq::empty() }
}

impl SlotRef {
    /// Whether the reference leads to a slot of a task.
    pub open spec fn refers_to_task(self) -> bool {
        !(self is Value)
    }

    /// Whether the reference leads to a slot of task `t`.
    pub open spec fn leads_to(self, t: TaskId) -> bool {
        match self {
            SlotRef::TaskOutput(task) => task == t,
            SlotRef::TaskCreated(task, _) => task == t,
            SlotRef::Value(_) => false,
        }
    }

    /// Tells whether the reference leads to a slot of `task`.
    pub(crate) fn is_ref_to(&self, task: TaskId) -> (yes: bool)
        ensures
            yes == self.leads_to(task),
    {
        match self {
            SlotRef::TaskOutput(owner) => *owner == task,
            SlotRef::TaskCreated(owner, _) => *owner == task,
            SlotRef::Value(_) => false,
        }
    }

    /// Tells whether the reference leads to a slot of a task.
    pub fn is_task_ref(&self) -> (yes: bool)
        ensures
            yes == self.refers_to_task(),
    {
        match self {
            SlotRef::Value(_) => false,
            _ => true,
        }
    }
}

impl SlotContent {
    /// Whether the content is a link to a slot of task `t`.
    pub open spec fn links_to(self, t: TaskId) -> bool {
        self matches SlotContent::Link(target) && target.leads_to(t)
    }

    /// Tells whether the content is a link to a slot of `task`.
    pub(crate) fn is_link_to(&self, task: TaskId) -> (yes: bool)
        ensures
            yes == self.links_to(task),
    {
        match self {
            SlotContent::Link(target) => target.is_ref_to(task),
            _ => false,
        }
    }
}

impl WeakSlotRef {
    /// The task whose slot is meant.
    pub open spec fn task(self) -> TaskId {
        match self {
            WeakSlotRef::TaskOutput(task) => task,
            WeakSlotRef::TaskCreated(task, _) => task,
        }
    }
}

impl Slot {
    /// An empty slot.
    pub fn new() -> (slot: Slot)
        ensures
            slot@ == empty_slot(),
    {
        Slot { content: SlotContent::Empty, dependents: Vec::new() }
    }

    /// Lets the slot stand for whatever `target` holds. Its readers stay.
    pub fn link(&mut self, target: SlotRef)
        ensures
            final(self)@ == (SlotModel { content: SlotContent::Link(target), ..old(self)@ }),
    {
        self.content = SlotContent::Link(target);
    }
}

/// `s` with position `i` filled by the last element, which leaves the end.
pub open spec fn swapped_out(s: Seq<TaskId>, i: int) -> Seq<TaskId> {
    s.update(i, s.last()).drop_last()
}

/// `s` from position `i` on with every `item` swapped out.
pub open spec fn purged_from(s: Seq<TaskId>, item: TaskId, i: int) -> Seq<TaskId>
    decreases s.len() - i,
{
    if i < 0 || i >= s.len() {
        s
    } else if s[i] == item {
        purged_from(swapped_out(s, i), item, i)
    } else {
        purged_from(s, item, i + 1)
    }
}

/// `s` with every `item` swapped out, front to back.
pub open spec fn purged(s: Seq<TaskId>, item: TaskId) -> Seq<TaskId> {
    purged_from(s, item, 0)
}

/// How often `x` stands in `s`.
pub open spec fn occurrences(s: Seq<TaskId>, x: TaskId) -> nat
    decreases s.len(),
{
    if s.len() == 0 {
        0
    } else {
        occurrences(s.drop_last(), x) + (if s.last() == x { 1nat } else { 0nat })
    }
}

/// Replacing one element moves the counts of the two values involved.
pub proof fn lemma_occurrences_update(s: Seq<TaskId>, i: int, v: TaskId, x: TaskId)
    requires
        0 <= i < s.len(),
    ensures
        occurrences(s.update(i, v), x) == occurrences(s, x) - (if s[i] == x { 1int } else { 0 })
            + (if v == x { 1int } else { 0 }),
    decreases s.len(),
{
    let u = s.update(i, v);
    if i == s.len() - 1 {
        assert(u.drop_last() =~= s.drop_last());
    } else {
        assert(u.drop_last() =~= s.drop_last().update(i, v));
        lemma_occurrences_update(s.drop_last(), i, v, x);
    }
}

/// A value occurs where it stands.
pub proof fn lemma_occurrences_positive(s: Seq<TaskId>, x: TaskId)
    ensures
        occurrences(s, x) > 0 <==> s.contains(x),
    decreases s.len(),
{
    if s.len() > 0 {
        lemma_occurrences_positive(s.drop_last(), x);
        if s.drop_last().contains(x) {
            let k = choose|k: int| 0 <= k < s.drop_last().len() && s.drop_last()[k] == x;
            assert(s[k] == x);
        }
        if s.contains(x) && s.last() != x {
            let k = choose|k: int| 0 <= k < s.len() && s[k] == x;
            assert(s.drop_last()[k] == x);
        }
    }
}

/// Appending one element raises its own count and no other.
pub proof fn lemma_occurrences_push(s: Seq<TaskId>, v: TaskId, x: TaskId)
    ensures
        occurrences(s.push(v), x) == occurrences(s, x) + (if v == x { 1nat } else { 0nat }),
{
    assert(s.push(v).drop_last() =~= s);
}

proof fn lemma_purged_from(s: Seq<TaskId>, item: TaskId, i: int, x: TaskId)
    requires
        0 <= i <= s.len(),
        forall|k: int| 0 <= k < i ==> s[k] != item,
    ensures
        x != item ==> occurrences(purged_from(s, item, i), x) == occurrences(s, x),
        !purged_from(s, item, i).contains(item),
    decreases s.len() - i,
{
    if i < s.len() {
        if s[i] == item {
            let moved = s.update(i, s.last());
            lemma_occurrences_update(s, i, s.last(), x);
            assert(moved.last() == s.last());
            assert forall|k: int| 0 <= k < i implies swapped_out(s, i)[k] != item by {
                assert(swapped_out(s, i)[k] == s[k]);
            }
            lemma_purged_from(swapped_out(s, i), item, i, x);
        } else {
            lemma_purged_from(s, item, i + 1, x);
        }
    }
}

/// Purging removes every occurrence of the item and keeps every other count.
pub proof fn lemma_purged(s: Seq<TaskId>, item: TaskId, x: TaskId)
    ensures
        occurrences(purged(s, item), x) == (if x == item { 0 } else { occurrences(s, x) }),
        purged(s, item).contains(x) ==> s.contains(x) && x != item,
{
    lemma_purged_from(s, item, 0, x);
    lemma_occurrences_positive(purged(s, item), x);
    lemma_occurrences_positive(s, x);
}

proof fn lemma_purged_from_nothing(s: Seq<TaskId>, item: TaskId, i: int)
    requires
        0 <= i <= s.len(),
        !s.contains(item),
    ensures
        purged_from(s, item, i) == s,
    decreases s.len() - i,
{
    if i < s.len() {
        assert(s[i] != item);
        lemma_purged_from_nothing(s, item, i + 1);
    }
}

/// Purging an item that is not there changes nothing.
pub proof fn lemma_purged_nothing(s: Seq<TaskId>, item: TaskId)
    ensures
        !s.contains(item) ==> purged(s, item) == s,
{
    if !s.contains(item) {
        lemma_purged_from_nothing(s, item, 0);
    }
}

/// Removes every `item` from `list`, filling each gap from the end.
pub(crate) fn remove_all(list: &mut Vec<TaskId>, item: TaskId)
    ensures
        final(list)@ == purged(old(list)@, item),
{
    let mut i: usize = 0;
    while i < list.len()
        invariant
            i <= list.len(),
            purged_from(list@, item, i as int) == purged(old(list)@, item),
        decreases list.len() - i,
    {
        if list[i] == item {
            list.swap_remove(i);
        } else {
            i += 1;
        }
    }
}

} // verus!
