//! What the outside hears: which tasks are queued for execution, and which listeners
//! are notified.

use crate::dirty::{
    invalidated, lemma_tell_dirty, make_dirty_step, only_dirtied, tell_dirty,
};
use crate::done::{lemma_tell_done, only_finished};
use crate::fault::audit;
use crate::graph::{lemma_live_parents, lemma_same_shape, lemma_same_slots, Graph};
use crate::lifecycle::{
    connect_parent_step, execution_completed_step, execution_started_step, linked_slot,
};
use crate::schedule::{asked_state, lemma_schedule, schedule_step};
use crate::slot::{SlotRef, TaskId};
use vstd::prelude::*;

verus! {

/// The queue of `b` is that of `a`, followed by exactly the tasks that are scheduled in
/// `b` and were not in `a`, each once.
pub open spec fn queued_exactly(a: Graph, b: Graph) -> bool {
    let n = a.scheduled.len() as int;
    &&& n <= b.scheduled.len()
    &&& b.scheduled.take(n) == a.scheduled
    &&& b.scheduled.skip(n).no_duplicates()
    &&& forall|t: TaskId| #[trigger]
        b.scheduled.skip(n).contains(t) <==> a.has(t) && !(a.state(t) is Scheduled) && b.state(
            t,
        ) is Scheduled
}

/// Whoever became done between `a` and `b` has notified all its listeners once, and
/// nobody else has notified any. Everybody has kept its listeners.
pub open spec fn notified_exactly(a: Graph, b: Graph) -> bool {
    forall|t: TaskId|
        #![trigger b.nodes[t as int]]
        a.has(t) ==> {
            &&& b.nodes[t as int].listeners == a.nodes[t as int].listeners
            &&& b.nodes[t as int].notified == if !(a.state(t) is Done) && b.state(t) is Done {
                a.nodes[t as int].notified.push(usize::MAX)
            } else {
                a.nodes[t as int].notified
            }
        }
}

proof fn lemma_nothing_queued(a: Graph, b: Graph)
    requires
        a.scheduled == b.scheduled,
        forall|t: TaskId|
            #![trigger b.nodes[t as int]]
            a.has(t) && b.nodes[t as int].state_type is Scheduled ==> a.state(t) is Scheduled,
    ensures
        queued_exactly(a, b),
{
    let n = a.scheduled.len() as int;
    assert(b.scheduled.take(n) =~= a.scheduled);
    assert(b.scheduled.skip(n) =~= Seq::empty());
    assert forall|t: TaskId| #[trigger]
        b.scheduled.skip(n).contains(t) <==> a.has(t) && !(a.state(t) is Scheduled) && b.state(
            t,
        ) is Scheduled by {
        assert(b.nodes[t as int].state_type == b.state(t));
    }
}

proof fn lemma_one_queued(a: Graph, b: Graph, t: TaskId)
    requires
        a.has(t),
        b.scheduled == a.scheduled.push(t),
        !(a.state(t) is Scheduled),
        b.state(t) is Scheduled,
        forall|x: TaskId|
            #![trigger b.nodes[x as int]]
            a.has(x) && x != t && b.nodes[x as int].state_type is Scheduled ==> a.state(
                x,
            ) is Scheduled,
    ensures
        queued_exactly(a, b),
{
    let n = a.scheduled.len() as int;
    assert(b.scheduled.take(n) =~= a.scheduled);
    assert(b.scheduled.skip(n) =~= seq![t]);
    assert(seq![t][0] == t);
    assert forall|x: TaskId| #[trigger]
        b.scheduled.skip(n).contains(x) <==> a.has(x) && !(a.state(x) is Scheduled) && b.state(
            x,
        ) is Scheduled by {
        assert(b.nodes[x as int].state_type == b.state(x));
    }
}

/// Invalidation queues the task if it becomes scheduled, and nothing else. It notifies
/// nobody.
pub proof fn law_make_dirty_effects(g: Graph, t: TaskId)
    requires
        g.wf(),
        g.is_live(t),
        make_dirty_step(g, t).result is Ok,
    ensures
        queued_exactly(g, make_dirty_step(g, t).graph),
        notified_exactly(g, make_dirty_step(g, t).graph),
{
    let after = make_dirty_step(g, t).graph;
    if g.state(t) is Done {
        let start = invalidated(g, t);
        let ids = start.live_parents(t);
        lemma_same_shape(g, start);
        lemma_live_parents(start, t);
        lemma_tell_dirty(start, ids);
        let told = tell_dirty(start, ids).graph;
        assert(only_dirtied(start, told));
        assert forall|x: TaskId|
            #![trigger after.nodes[x as int]]
            g.has(x) && x != t && after.nodes[x as int].state_type is Scheduled implies g.state(
            x,
        ) is Scheduled by {
            assert(after.nodes[x as int] == told.nodes[x as int]);
        }
        assert(told.nodes[t as int].state_type == start.nodes[t as int].state_type);
        if after.state(t) is Scheduled {
            lemma_one_queued(g, after, t);
        } else {
            lemma_nothing_queued(g, after);
        }
        assert forall|x: TaskId|
            #![trigger after.nodes[x as int]]
            g.has(x) implies after.nodes[x as int].notified == (if !(g.state(x) is Done)
            && after.state(x) is Done {
            g.nodes[x as int].notified.push(usize::MAX)
        } else {
            g.nodes[x as int].notified
        }) && after.nodes[x as int].listeners == g.nodes[x as int].listeners by {
            assert(told.nodes[x as int].notified == start.nodes[x as int].notified);
        }
    } else if after.state(t) is Scheduled && !(g.state(t) is Scheduled) {
        lemma_one_queued(g, after, t);
    } else {
        lemma_nothing_queued(g, after);
    }
}

/// Access queues exactly the tasks that become scheduled by it. It notifies nobody.
pub proof fn law_access_effects(g: Graph, t: TaskId)
    requires
        g.wf(),
        g.is_live(t),
    ensures
        queued_exactly(g, schedule_step(g, t)),
        notified_exactly(g, schedule_step(g, t)),
{
    let after = schedule_step(g, t);
    let n = g.scheduled.len() as int;
    lemma_schedule(g, t);
    assert forall|x: TaskId| #[trigger]
        after.scheduled.skip(n).contains(x) <==> g.has(x) && !(g.state(x) is Scheduled)
            && after.state(x) is Scheduled by {
        if g.has(x) {
            assert(asked_state(g.nodes[x as int].state_type, after.nodes[x as int].state_type));
        }
    }
}

/// The start of an execution queues nothing and notifies nobody.
pub proof fn law_execution_start_effects(g: Graph, t: TaskId)
    requires
        g.wf(),
        g.is_live(t),
    ensures
        queued_exactly(g, execution_started_step(g, t).graph),
        notified_exactly(g, execution_started_step(g, t).graph),
{
    lemma_nothing_queued(g, execution_started_step(g, t).graph);
}

/// The end of an execution notifies the listeners of exactly the tasks that become done
/// by it: the task itself, or its ancestors that have waited for it, too. It queues the
/// task if it has to execute again, and nothing else.
pub proof fn law_execution_completion_effects(g: Graph, t: TaskId, result: SlotRef)
    requires
        g.wf(),
        g.is_live(t),
    ensures
        queued_exactly(g, execution_completed_step(g, t, result).graph),
        notified_exactly(g, execution_completed_step(g, t, result).graph),
{
    let node = g.nodes[t as int];
    let after = execution_completed_step(g, t, result).graph;
    if audit(g, t) is Ok && node.state_type is InProgressLocallyOutdated {
        lemma_one_queued(g, after, t);
    } else if audit(g, t) is Ok && node.state_type is InProgressLocally && node.dirty == 0 {
        let start = g.with_done(t).with_output(t, linked_slot(node.output, result));
        let ids = g.live_parents(t);
        lemma_same_slots(g, start);
        lemma_live_parents(g, t);
        assert forall|i: int| 0 <= i < ids.len() implies start.has(#[trigger] ids[i]) by {
            assert(g.is_live(ids[i]));
        }
        lemma_tell_done(start, ids);
        assert(only_finished(start, after));
        assert forall|x: TaskId|
            #![trigger after.nodes[x as int]]
            g.has(x) implies after.nodes[x as int].notified == (if !(g.state(x) is Done)
            && after.state(x) is Done {
            g.nodes[x as int].notified.push(usize::MAX)
        } else {
            g.nodes[x as int].notified
        }) && after.nodes[x as int].listeners == g.nodes[x as int].listeners && (
        after.nodes[x as int].state_type is Scheduled ==> g.state(x) is Scheduled) by {
            assert(after.nodes[x as int].state_type == after.state(x));
        }
        lemma_nothing_queued(g, after);
    } else {
        lemma_nothing_queued(g, after);
    }
}

/// Connecting a child queues nothing and notifies nobody.
pub proof fn law_connect_effects(g: Graph, child: TaskId, parent: TaskId)
    requires
        g.is_live(child),
        g.is_live(parent),
        child != parent,
    ensures
        queued_exactly(g, connect_parent_step(g, child, parent).graph),
        notified_exactly(g, connect_parent_step(g, child, parent).graph),
{
    lemma_nothing_queued(g, connect_parent_step(g, child, parent).graph);
}

} // verus!
