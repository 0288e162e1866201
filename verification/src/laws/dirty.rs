//! What invalidation keeps.

use crate::consistency::{
    balanced, balanced_at, consistent, idles, layered, lemma_checks_pass, lemma_layers_kept,
    lemma_linked_shape, lemma_node_changed, lemma_occurrences_first, lemma_occurrences_once,
    lemma_own_count, lemma_parent_of, lemma_pending_same, lemma_states_kept, linked, progressing,
    quiet_above, relies_on_children, roots_progress,
};
use crate::dirty::{
    child_dirty_step, invalidated, lemma_child_dirty, lemma_only_dirtied, lemma_tell_dirty,
    lemma_waiting, make_dirty_step, rescheduled, tell_dirty, waiting,
};
use crate::graph::{lemma_live_parents, lemma_same_shape, tally, unfinished, Graph};
use crate::slot::{lemma_occurrences_positive, occurrences, TaskId};
use crate::task::{Node, TaskStateType};
use vstd::prelude::*;

verus! {

/// One fewer for `t`.
spec fn heard(pending: spec_fn(TaskId) -> int, t: TaskId) -> spec_fn(TaskId) -> int {
    |x: TaskId|
        pending(x) - (if x == t {
            1int
        } else {
            0
        })
}

/// Fewer for each of `ids`, as often as it is listed.
spec fn all_heard(pending: spec_fn(TaskId) -> int, ids: Seq<TaskId>) -> spec_fn(TaskId) -> int {
    |x: TaskId| pending(x) - occurrences(ids, x)
}

/// A task that hears of an unfinished child has counted it, if it keeps count.
proof fn lemma_child_dirty_balanced(g: Graph, t: TaskId, pending: spec_fn(TaskId) -> int)
    requires
        g.wf(),
        g.is_live(t),
        linked(g),
        balanced(g, pending),
        child_dirty_step(g, t).result is Ok,
    ensures
        balanced(child_dirty_step(g, t).graph, heard(pending, t)),
    decreases tally(g.nodes, TaskStateType::Done), 0nat,
{
    let node = g.nodes[t as int];
    let after = heard(pending, t);
    assert(balanced_at(g, pending(t), t));
    match node.state_type {
        TaskStateType::Dirty
        | TaskStateType::Scheduled
        | TaskStateType::InProgressLocallyOutdated => {
            assert forall|x: TaskId| g.is_live(x) implies #[trigger] balanced_at(
                g,
                after(x),
                x,
            ) by {
                assert(balanced_at(g, pending(x), x));
            }
        },
        TaskStateType::InProgressLocally => {
            let changed = Node {
                state_type: TaskStateType::InProgressLocallyOutdated,
                dirty: (node.dirty + 1) as usize,
                ..node
            };
            lemma_node_changed(g, t, changed, pending, after);
            assert(child_dirty_step(g, t).graph =~= g.with_node(t, changed));
        },
        TaskStateType::SomeChildrenDirty | TaskStateType::SomeChildrenScheduled => {
            let changed = Node { dirty: (node.dirty + 1) as usize, ..node };
            lemma_own_count(g, t, changed);
            lemma_node_changed(g, t, changed, pending, after);
        },
        TaskStateType::Done => {
            let start = waiting(g, t);
            let changed = Node {
                state_type: TaskStateType::SomeChildrenScheduled,
                dirty: 1,
                ..node
            };
            let ids = start.live_parents(t);
            let started = |x: TaskId| after(x) + occurrences(ids, x);
            lemma_waiting(g, t);
            lemma_same_shape(g, start);
            lemma_linked_shape(g, start);
            lemma_live_parents(start, t);
            lemma_own_count(g, t, changed);
            assert(g.live_parents(t) == ids);
            assert(start =~= g.with_node(t, changed));
            lemma_node_changed(g, t, changed, pending, started);
            lemma_tell_dirty_balanced(start, ids, started);
            let told = tell_dirty(start, ids).graph;
            lemma_pending_same(told, all_heard(started, ids), after);
            lemma_tell_dirty(start, ids);
            lemma_only_dirtied(start, told);
            lemma_linked_shape(start, told);
            let settled_node = Node {
                state_type: TaskStateType::SomeChildrenDirty,
                ..told.nodes[t as int]
            };
            assert(start.is_live(t));
            assert(told.nodes[t as int].state_type is SomeChildrenScheduled);
            assert(told.is_live(t));
            assert(balanced_at(told, after(t), t));
            lemma_own_count(told, t, settled_node);
            lemma_node_changed(told, t, settled_node, after, after);
        },
    }
}

proof fn lemma_tell_dirty_balanced(
    g: Graph,
    ids: Seq<TaskId>,
    pending: spec_fn(TaskId) -> int,
)
    requires
        g.wf(),
        forall|i: int| 0 <= i < ids.len() ==> g.is_live(#[trigger] ids[i]),
        linked(g),
        balanced(g, pending),
        tell_dirty(g, ids).result is Ok,
    ensures
        balanced(tell_dirty(g, ids).graph, all_heard(pending, ids)),
    decreases tally(g.nodes, TaskStateType::Done), ids.len(),
{
    if ids.len() == 0 {
        lemma_pending_same(g, pending, all_heard(pending, ids));
    } else {
        let first = child_dirty_step(g, ids[0]).graph;
        let rest = ids.skip(1);
        assert(g.is_live(ids[0]));
        lemma_child_dirty(g, ids[0]);
        lemma_only_dirtied(g, first);
        lemma_linked_shape(g, first);
        lemma_child_dirty_balanced(g, ids[0], pending);
        assert forall|i: int| 0 <= i < rest.len() implies first.is_live(#[trigger] rest[i]) by {
            assert(g.is_live(ids[i + 1]));
        }
        lemma_tell_dirty_balanced(first, rest, heard(pending, ids[0]));
        let last = tell_dirty(g, ids).graph;
        assert forall|x: TaskId| last.is_live(x) implies #[trigger] all_heard(
            heard(pending, ids[0]),
            rest,
        )(x) == all_heard(pending, ids)(x) by {
            lemma_occurrences_first(ids, x);
        }
        lemma_pending_same(last, all_heard(heard(pending, ids[0]), rest), all_heard(pending, ids));
    }
}

/// A task that does not ask for progress does not rely on its children.
proof fn lemma_child_dirty_progress(g: Graph, t: TaskId, children: Set<TaskId>)
    requires
        g.wf(),
        g.is_live(t),
        linked(g),
        progressing(g, Set::empty(), children),
        roots_progress(g),
        child_dirty_step(g, t).result is Ok,
    ensures
        progressing(child_dirty_step(g, t).graph, Set::empty(), children),
        roots_progress(child_dirty_step(g, t).graph),
        child_dirty_step(g, t).result == Ok::<bool, crate::fault::Fault>(false)
            ==> !relies_on_children(child_dirty_step(g, t).graph.state(t)),
    decreases tally(g.nodes, TaskStateType::Done), 0nat,
{
    let node = g.nodes[t as int];
    let after = child_dirty_step(g, t).graph;
    lemma_child_dirty(g, t);
    if node.state_type is Done {
        let start = waiting(g, t);
        let ids = start.live_parents(t);
        lemma_waiting(g, t);
        lemma_same_shape(g, start);
        lemma_linked_shape(g, start);
        lemma_live_parents(start, t);
        lemma_states_kept(g, start, children);
        lemma_tell_dirty_progress(start, ids, children);
        let told = tell_dirty(start, ids).graph;
        lemma_tell_dirty(start, ids);
        lemma_only_dirtied(start, told);
        lemma_linked_shape(start, told);
        assert(told.nodes[t as int].state_type is SomeChildrenScheduled);
        if after != told {
            assert(after == told.with_state(t, TaskStateType::SomeChildrenDirty));
            assert forall|p: TaskId, i: int|
                #![trigger after.nodes[p as int].children[i]]
                after.is_live(p) && relies_on_children(after.state(p)) && 0 <= i
                    < after.nodes[p as int].children.len() implies children.contains(
                after.nodes[p as int].children[i],
            ) || !idles(after.state(after.nodes[p as int].children[i])) by {
                let c = told.nodes[p as int].children[i];
                assert(told.node_wf(p));
                assert(told.has(c));
                if c == t {
                    lemma_parent_of(told, p, i);
                    assert(told.live_parents(t) == ids);
                    let k = choose|k: int| 0 <= k < ids.len() && ids[k] == p;
                    assert(!relies_on_children(told.state(ids[k])));
                }
            }
            assert(!told.is_root(t));
        }
    } else {
        lemma_states_kept(g, after, children);
    }
}

proof fn lemma_tell_dirty_progress(g: Graph, ids: Seq<TaskId>, children: Set<TaskId>)
    requires
        g.wf(),
        forall|i: int| 0 <= i < ids.len() ==> g.is_live(#[trigger] ids[i]),
        linked(g),
        progressing(g, Set::empty(), children),
        roots_progress(g),
        tell_dirty(g, ids).result is Ok,
    ensures
        progressing(tell_dirty(g, ids).graph, Set::empty(), children),
        roots_progress(tell_dirty(g, ids).graph),
        tell_dirty(g, ids).result == Ok::<bool, crate::fault::Fault>(false) ==> forall|i: int|
            0 <= i < ids.len() ==> !relies_on_children(
                tell_dirty(g, ids).graph.state(#[trigger] ids[i]),
            ),
    decreases tally(g.nodes, TaskStateType::Done), ids.len(),
{
    if ids.len() > 0 {
        let first = child_dirty_step(g, ids[0]).graph;
        let rest = ids.skip(1);
        assert(g.is_live(ids[0]));
        lemma_child_dirty(g, ids[0]);
        lemma_only_dirtied(g, first);
        lemma_linked_shape(g, first);
        lemma_child_dirty_progress(g, ids[0], children);
        assert forall|i: int| 0 <= i < rest.len() implies first.is_live(#[trigger] rest[i])
            && first.has(rest[i]) by {
            assert(g.is_live(ids[i + 1]));
        }
        lemma_tell_dirty_progress(first, rest, children);
        let last = tell_dirty(first, rest).graph;
        lemma_tell_dirty(first, rest);
        if tell_dirty(g, ids).result == Ok::<bool, crate::fault::Fault>(false) {
            assert forall|i: int| 0 <= i < ids.len() implies !relies_on_children(
                last.state(#[trigger] ids[i]),
            ) by {
                if i == 0 {
                    assert(last.nodes[ids[0] as int].state_type == last.state(ids[0]));
                } else {
                    assert(ids[i] == rest[i - 1]);
                }
            }
        }
    }
}

/// Invalidating a task keeps the graph consistent: every count stays right, no child of
/// a done task is left behind unnoticed, and no task that waits for its children, or
/// executes, is left with a child that idles.
pub proof fn law_make_dirty_keeps_consistency(g: Graph, t: TaskId)
    requires
        consistent(g),
        g.is_live(t),
        make_dirty_step(g, t).result is Ok,
    ensures
        consistent(make_dirty_step(g, t).graph),
{
    let none = |x: TaskId| 0int;
    let node = g.nodes[t as int];
    let after = make_dirty_step(g, t).graph;
    assert(balanced_at(g, none(t), t));
    match node.state_type {
        TaskStateType::Done => {
            let start = invalidated(g, t);
            let ids = start.live_parents(t);
            let changed = start.nodes[t as int];
            let started = |x: TaskId| occurrences(ids, x) as int;
            lemma_same_shape(g, start);
            lemma_linked_shape(g, start);
            lemma_live_parents(start, t);
            assert(g.live_parents(t) == ids);
            lemma_node_changed(g, t, changed, none, started);
            lemma_tell_dirty_balanced(start, ids, started);
            let told = tell_dirty(start, ids).graph;
            lemma_tell_dirty(start, ids);
            lemma_only_dirtied(start, told);
            lemma_linked_shape(start, told);
            lemma_pending_same(told, all_heard(started, ids), none);
            lemma_invalidated_progress(g, t);
            lemma_tell_dirty_progress(start, ids, set![t]);
            let last = after.nodes[t as int];
            assert(start.is_live(t));
            assert(balanced_at(told, none(t), t));
            lemma_node_changed(told, t, last, none, none);
            assert(after.nodes =~= told.with_node(t, last).nodes);
            lemma_same_shape(told, after);
            lemma_linked_shape(told, after);
            assert forall|p: TaskId| after.is_live(p) implies #[trigger] balanced_at(
                after,
                none(p),
                p,
            ) by {
                assert(balanced_at(told.with_node(t, last), none(p), p));
            }
            let wanted = tell_dirty(start, ids).result->Ok_0;
            assert forall|p: TaskId, i: int|
                #![trigger after.nodes[p as int].children[i]]
                after.is_live(p) && relies_on_children(after.state(p)) && 0 <= i
                    < after.nodes[p as int].children.len() implies !idles(
                after.state(after.nodes[p as int].children[i]),
            ) by {
                let c = told.nodes[p as int].children[i];
                assert(told.node_wf(p));
                assert(told.has(c));
                if c == t && idles(after.state(t)) {
                    lemma_parent_of(told, p, i);
                    assert(told.live_parents(t) == ids);
                    let k = choose|k: int| 0 <= k < ids.len() && ids[k] == p;
                    assert(!relies_on_children(told.state(ids[k])));
                }
            }
        },
        TaskStateType::Dirty
        | TaskStateType::Scheduled
        | TaskStateType::InProgressLocallyOutdated => {},
        _ => {
            let changed = after.nodes[t as int];
            lemma_same_shape(g, after);
            lemma_linked_shape(g, after);
            lemma_node_changed(g, t, changed, none, none);
            assert(after.nodes =~= g.with_node(t, changed).nodes);
            assert forall|p: TaskId| after.is_live(p) implies #[trigger] balanced_at(
                after,
                none(p),
                p,
            ) by {
                assert(balanced_at(g.with_node(t, changed), none(p), p));
            }
            lemma_states_kept(g, after, Set::empty());
        },
    }
}

proof fn lemma_invalidated_progress(g: Graph, t: TaskId)
    requires
        consistent(g),
        g.is_live(t),
    ensures
        progressing(invalidated(g, t), Set::empty(), set![t]),
        roots_progress(invalidated(g, t)),
{
    let start = invalidated(g, t);
    assert forall|p: TaskId, i: int|
        #![trigger start.nodes[p as int].children[i]]
        start.is_live(p) && relies_on_children(start.state(p)) && 0 <= i
            < start.nodes[p as int].children.len() implies set![t].contains(
        start.nodes[p as int].children[i],
    ) || !idles(start.state(start.nodes[p as int].children[i])) by {
        let c = g.nodes[p as int].children[i];
        assert(g.node_wf(p));
        assert(g.has(c));
    }
}

/// The children of every task can be counted.
pub open spec fn countable(g: Graph) -> bool {
    forall|i: int|
        0 <= i < g.nodes.len() ==> (#[trigger] g.nodes[i]).children.len() <= usize::MAX
}

proof fn lemma_unfinished_bound(nodes: Seq<Node>, ids: Seq<TaskId>)
    ensures
        unfinished(nodes, ids) <= ids.len(),
    decreases ids.len(),
{
    if ids.len() > 0 {
        lemma_unfinished_bound(nodes, ids.drop_last());
    }
}

/// What a task that is about to hear of one unfinished child needs to succeed.
spec fn about_to_hear(
    g: Graph,
    pending: spec_fn(TaskId) -> int,
    ancestors: Set<TaskId>,
    height: spec_fn(TaskId) -> int,
    level: int,
) -> bool {
    &&& g.wf()
    &&& linked(g)
    &&& countable(g)
    &&& layered(g, ancestors, height)
    &&& balanced(g, pending)
    &&& quiet_above(pending, ancestors, height, level)
}

proof fn lemma_child_dirty_succeeds(
    g: Graph,
    t: TaskId,
    pending: spec_fn(TaskId) -> int,
    ancestors: Set<TaskId>,
    height: spec_fn(TaskId) -> int,
)
    requires
        about_to_hear(g, pending, ancestors, height, height(t)),
        g.is_live(t),
        ancestors.contains(t),
        pending(t) == 1,
    ensures
        child_dirty_step(g, t).result is Ok,
    decreases tally(g.nodes, TaskStateType::Done), 0nat,
{
    let node = g.nodes[t as int];
    let after = heard(pending, t);
    assert(balanced_at(g, pending(t), t));
    lemma_unfinished_bound(g.nodes, node.children);
    if node.state_type is Done {
        let start = waiting(g, t);
        let changed = Node { state_type: TaskStateType::SomeChildrenScheduled, dirty: 1, ..node };
        let ids = start.live_parents(t);
        let started = |x: TaskId| after(x) + occurrences(ids, x);
        lemma_waiting(g, t);
        lemma_same_shape(g, start);
        lemma_linked_shape(g, start);
        lemma_layers_kept(g, start, ancestors, height);
        lemma_live_parents(start, t);
        lemma_own_count(g, t, changed);
        assert(g.live_parents(t) == ids);
        assert(start =~= g.with_node(t, changed));
        lemma_node_changed(g, t, changed, pending, started);
        lemma_parents_hear(start, t, after, ancestors, height);
        lemma_tell_dirty_succeeds(start, ids, started, ancestors, height, height(t) + 1);
        lemma_tell_dirty_balanced(start, ids, started);
        let told = tell_dirty(start, ids).graph;
        lemma_pending_same(told, all_heard(started, ids), after);
        lemma_tell_dirty(start, ids);
        lemma_only_dirtied(start, told);
        lemma_linked_shape(start, told);
        let settled_node = Node {
            state_type: TaskStateType::SomeChildrenDirty,
            ..told.nodes[t as int]
        };
        let settled = told.with_node(t, settled_node);
        assert(told.nodes[t as int].state_type is SomeChildrenScheduled);
        assert(start.is_live(t));
        assert(told.is_live(t));
        assert(balanced_at(told, after(t), t));
        lemma_own_count(told, t, settled_node);
        lemma_node_changed(told, t, settled_node, after, after);
        lemma_same_shape(told, settled);
        assert(told.live_parents(t) == ids);
        assert(settled.live_parents(t) == ids);
        lemma_checks_pass(told, t, after);
        lemma_checks_pass(settled, t, after);
    }
}

/// The parents of `t` have nothing to hear of but `t`.
proof fn lemma_parents_hear(
    g: Graph,
    t: TaskId,
    pending: spec_fn(TaskId) -> int,
    ancestors: Set<TaskId>,
    height: spec_fn(TaskId) -> int,
)
    requires
        g.has(t),
        layered(g, ancestors, height),
        ancestors.contains(t),
        quiet_above(pending, ancestors, height, height(t)),
    ensures
        ({
            let ids = g.live_parents(t);
            let more = |x: TaskId| pending(x) + occurrences(ids, x);
            &&& ids.no_duplicates()
            &&& quiet_above(more, ancestors, height, height(t) + 1)
            &&& forall|i: int|
                0 <= i < ids.len() ==> {
                    &&& more(#[trigger] ids[i]) == 1
                    &&& pending(ids[i]) == 0
                    &&& ancestors.contains(ids[i])
                    &&& height(ids[i]) == height(t) + 1
                }
        }),
{
    let ids = g.live_parents(t);
    let more = |x: TaskId| pending(x) + occurrences(ids, x);
    assert forall|i: int| 0 <= i < ids.len() implies more(#[trigger] ids[i]) == 1 && pending(
        ids[i],
    ) == 0 && ancestors.contains(ids[i]) && height(ids[i]) == height(t) + 1 by {
        assert(ancestors.contains(g.live_parents(t)[i]));
        lemma_occurrences_once(ids, i);
    }
    assert forall|x: TaskId| #[trigger] ancestors.contains(x) && height(x) > height(t)
        + 1 implies more(x) == 0 by {
        lemma_occurrences_positive(ids, x);
        if ids.contains(x) {
            let k = choose|k: int| 0 <= k < ids.len() && ids[k] == x;
            assert(height(ids[k]) == height(t) + 1);
        }
    }
}

proof fn lemma_tell_dirty_succeeds(
    g: Graph,
    ids: Seq<TaskId>,
    pending: spec_fn(TaskId) -> int,
    ancestors: Set<TaskId>,
    height: spec_fn(TaskId) -> int,
    level: int,
)
    requires
        about_to_hear(g, pending, ancestors, height, level),
        ids.no_duplicates(),
        forall|i: int|
            0 <= i < ids.len() ==> {
                &&& g.is_live(#[trigger] ids[i])
                &&& pending(ids[i]) == 1
                &&& ancestors.contains(ids[i])
                &&& height(ids[i]) == level
            },
    ensures
        tell_dirty(g, ids).result is Ok,
    decreases tally(g.nodes, TaskStateType::Done), ids.len(),
{
    if ids.len() > 0 {
        let first = child_dirty_step(g, ids[0]).graph;
        let rest = ids.skip(1);
        let once = heard(pending, ids[0]);
        assert(g.is_live(ids[0]));
        lemma_child_dirty_succeeds(g, ids[0], pending, ancestors, height);
        lemma_child_dirty_balanced(g, ids[0], pending);
        lemma_child_dirty(g, ids[0]);
        lemma_only_dirtied(g, first);
        lemma_linked_shape(g, first);
        lemma_layers_kept(g, first, ancestors, height);
        assert forall|i: int| 0 <= i < rest.len() implies {
            &&& first.is_live(#[trigger] rest[i])
            &&& once(rest[i]) == 1
            &&& ancestors.contains(rest[i])
            &&& height(rest[i]) == level
        } by {
            assert(rest[i] == ids[i + 1]);
            assert(g.is_live(ids[i + 1]));
            assert(ids[i + 1] != ids[0]);
        }
        lemma_tell_dirty_succeeds(first, rest, once, ancestors, height, level);
    }
}

/// Invalidating a task in a consistent graph succeeds, with no overflow and no failed
/// check on the way, if all ways that lead up from it to an ancestor have the same
/// length.
pub proof fn law_make_dirty_succeeds_in_layers(
    g: Graph,
    t: TaskId,
    ancestors: Set<TaskId>,
    height: spec_fn(TaskId) -> int,
)
    requires
        consistent(g),
        g.is_live(t),
        countable(g),
        ancestors.contains(t),
        layered(g, ancestors, height),
    ensures
        make_dirty_step(g, t).result is Ok,
{
    let none = |x: TaskId| 0int;
    if g.state(t) is Done {
        let start = invalidated(g, t);
        let ids = start.live_parents(t);
        let started = |x: TaskId| none(x) + occurrences(ids, x);
        lemma_same_shape(g, start);
        lemma_linked_shape(g, start);
        lemma_layers_kept(g, start, ancestors, height);
        lemma_live_parents(start, t);
        assert(balanced_at(g, none(t), t));
        assert(g.live_parents(t) == ids);
        lemma_node_changed(g, t, start.nodes[t as int], none, started);
        lemma_parents_hear(start, t, none, ancestors, height);
        lemma_tell_dirty_succeeds(start, ids, started, ancestors, height, height(t) + 1);
        lemma_tell_dirty_balanced(start, ids, started);
        let told = tell_dirty(start, ids).graph;
        let after = rescheduled(told, t, tell_dirty(start, ids).result->Ok_0);
        lemma_tell_dirty(start, ids);
        lemma_only_dirtied(start, told);
        lemma_linked_shape(start, told);
        lemma_pending_same(told, all_heard(started, ids), none);
        assert(start.is_live(t));
        assert(balanced_at(told, none(t), t));
        lemma_node_changed(told, t, after.nodes[t as int], none, none);
        lemma_same_shape(told, after);
        assert(after.nodes =~= told.with_node(t, after.nodes[t as int]).nodes);
        assert forall|p: TaskId| after.is_live(p) implies #[trigger] balanced_at(
            after,
            none(p),
            p,
        ) by {
            assert(balanced_at(told.with_node(t, after.nodes[t as int]), none(p), p));
        }
        lemma_checks_pass(after, t, none);
    }
}

} // verus!
