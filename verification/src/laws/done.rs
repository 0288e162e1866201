//! What completion keeps.

use crate::consistency::{
    balanced, balanced_at, covered, covered_at, idles, layered, lemma_checks_pass,
    lemma_cover_changed, lemma_layers_kept, lemma_linked_shape, lemma_node_changed,
    lemma_occurrences_first, lemma_occurrences_once, lemma_own_count, lemma_pending_same,
    lemma_states_kept, lemma_unfinished_none, linked, progressing, quiet_above,
    relies_on_children, roots_progress,
};
use crate::done::{
    child_done_step, lemma_child_done, lemma_completed, lemma_only_finished, lemma_tell_done,
    tell_done, waiting_tasks,
};
use crate::graph::{lemma_live_parents, lemma_same_shape, Graph};
use crate::slot::{lemma_occurrences_positive, occurrences, TaskId};
use crate::task::{Node, TaskStateType};
use vstd::prelude::*;

verus! {

/// One more for `t`.
spec fn heard(pending: spec_fn(TaskId) -> int, t: TaskId) -> spec_fn(TaskId) -> int {
    |x: TaskId|
        pending(x) + (if x == t {
            1int
        } else {
            0
        })
}

/// More for each of `ids`, as often as it is listed.
pub open spec fn all_heard(
    pending: spec_fn(TaskId) -> int,
    ids: Seq<TaskId>,
) -> spec_fn(TaskId) -> int {
    |x: TaskId| pending(x) + occurrences(ids, x)
}

/// No task has counted fewer unfinished children than it has.
pub open spec fn none_missing(g: Graph, pending: spec_fn(TaskId) -> int) -> bool {
    forall|x: TaskId| g.is_live(x) ==> #[trigger] pending(x) <= 0
}

/// A task that has become done keeps progress: all its children are done.
pub(crate) proof fn lemma_done_progress(g: Graph, t: TaskId, start: Graph, pending: int)
    requires
        g.wf(),
        g.is_live(t),
        progressing(g, Set::empty(), Set::empty()),
        roots_progress(g),
        start.nodes.len() == g.nodes.len(),
        forall|i: int|
            0 <= i < g.nodes.len() && i != t ==> #[trigger] start.nodes[i] == g.nodes[i],
        start.nodes[t as int].children == g.nodes[t as int].children,
        start.nodes[t as int].ty == g.nodes[t as int].ty,
        start.state(t) is Done,
        balanced_at(start, pending, t),
        pending <= 0,
    ensures
        progressing(start, Set::empty(), Set::empty()),
        roots_progress(start),
{
    lemma_unfinished_none(start.nodes, start.nodes[t as int].children);
    assert forall|p: TaskId, i: int|
        #![trigger start.nodes[p as int].children[i]]
        start.is_live(p) && relies_on_children(start.state(p)) && 0 <= i
            < start.nodes[p as int].children.len() implies !idles(
        start.state(start.nodes[p as int].children[i]),
    ) by {
        assert(g.node_wf(p));
        if p != t {
            assert(start.nodes[p as int] == g.nodes[p as int]);
            let c = g.nodes[p as int].children[i];
            assert(g.has(c));
            if c != t {
                assert(start.nodes[c as int] == g.nodes[c as int]);
            }
        }
    }
    assert forall|x: TaskId|
        #![trigger start.nodes[x as int]]
        start.has(x) && start.is_root(x) implies !idles(start.state(x)) by {
        if x != t {
            assert(start.nodes[x as int] == g.nodes[x as int]);
        }
    }
}

proof fn lemma_child_done_kept(g: Graph, t: TaskId, pending: spec_fn(TaskId) -> int)
    requires
        g.wf(),
        g.is_live(t),
        linked(g),
        balanced(g, pending),
        none_missing(g, heard(pending, t)),
        progressing(g, Set::empty(), Set::empty()),
        roots_progress(g),
        child_done_step(g, t).result is Ok,
    ensures
        balanced(child_done_step(g, t).graph, heard(pending, t)),
        progressing(child_done_step(g, t).graph, Set::empty(), Set::empty()),
        roots_progress(child_done_step(g, t).graph),
    decreases waiting_tasks(g), 0nat,
{
    let node = g.nodes[t as int];
    let after = heard(pending, t);
    let less = Node { dirty: (node.dirty - 1) as usize, ..node };
    let counted = g.with_node(t, less);
    assert(balanced_at(g, pending(t), t));
    if node.dirty == 0 && node.state_type is InProgressLocallyOutdated {
        assert forall|x: TaskId| g.is_live(x) implies #[trigger] balanced_at(
            g,
            after(x),
            x,
        ) by {
            assert(balanced_at(g, pending(x), x));
        }
    } else if node.dirty == 1 && (node.state_type is SomeChildrenDirty
        || node.state_type is SomeChildrenScheduled) {
        let finished = Node {
            state_type: TaskStateType::Done,
            notified: node.notified.push(usize::MAX),
            ..less
        };
        let start = counted.with_done(t);
        let ids = counted.live_parents(t);
        let started = |x: TaskId| after(x) - occurrences(ids, x);
        assert(start =~= g.with_node(t, finished));
        lemma_completed(g, t);
        lemma_same_shape(g, counted);
        lemma_same_shape(g, start);
        lemma_linked_shape(g, start);
        assert(g.live_parents(t) == ids);
        lemma_live_parents(g, t);
        lemma_own_count(g, t, finished);
        lemma_node_changed(g, t, finished, pending, started);
        assert(start.is_live(t));
        assert(balanced_at(start, started(t), t));
        assert(after(t) <= 0);
        lemma_done_progress(g, t, start, started(t));
        assert forall|i: int| 0 <= i < ids.len() implies start.is_live(#[trigger] ids[i]) by {
            assert(g.is_live(ids[i]));
        }
        assert forall|x: TaskId| start.is_live(x) implies #[trigger] all_heard(started, ids)(x)
            <= 0 by {
            assert(g.is_live(x));
            assert(after(x) <= 0);
        }
        lemma_tell_done_kept(start, ids, started);
        let told = tell_done(start, ids).graph;
        lemma_tell_done(start, ids);
        lemma_only_finished(start, told);
        lemma_pending_same(told, all_heard(started, ids), after);
    } else {
        lemma_own_count(g, t, less);
        lemma_node_changed(g, t, less, pending, after);
        lemma_same_shape(g, counted);
        lemma_states_kept(g, counted, Set::empty());
    }
}

pub(crate) proof fn lemma_tell_done_kept(
    g: Graph,
    ids: Seq<TaskId>,
    pending: spec_fn(TaskId) -> int,
)
    requires
        g.wf(),
        forall|i: int| 0 <= i < ids.len() ==> g.is_live(#[trigger] ids[i]),
        linked(g),
        balanced(g, pending),
        none_missing(g, all_heard(pending, ids)),
        progressing(g, Set::empty(), Set::empty()),
        roots_progress(g),
        tell_done(g, ids).result is Ok,
    ensures
        balanced(tell_done(g, ids).graph, all_heard(pending, ids)),
        progressing(tell_done(g, ids).graph, Set::empty(), Set::empty()),
        roots_progress(tell_done(g, ids).graph),
    decreases waiting_tasks(g), ids.len(),
{
    if ids.len() == 0 {
        lemma_pending_same(g, pending, all_heard(pending, ids));
    } else {
        let first = child_done_step(g, ids[0]).graph;
        let rest = ids.skip(1);
        let once = heard(pending, ids[0]);
        assert(g.is_live(ids[0]));
        lemma_child_done(g, ids[0]);
        lemma_only_finished(g, first);
        lemma_linked_shape(g, first);
        assert forall|x: TaskId| all_heard(once, rest)(x) == #[trigger] all_heard(
            pending,
            ids,
        )(x) by {
            lemma_occurrences_first(ids, x);
        }
        assert forall|x: TaskId| g.is_live(x) implies #[trigger] once(x) <= 0 by {
            assert(all_heard(pending, ids)(x) <= 0);
            assert(all_heard(once, rest)(x) <= 0);
        }
        lemma_child_done_kept(g, ids[0], pending);
        assert forall|i: int| 0 <= i < rest.len() implies first.is_live(#[trigger] rest[i]) by {
            assert(g.is_live(ids[i + 1]));
        }
        assert forall|x: TaskId| first.is_live(x) implies #[trigger] all_heard(once, rest)(x)
            <= 0 by {
            assert(g.is_live(x));
            assert(all_heard(pending, ids)(x) <= 0);
        }
        lemma_tell_done_kept(first, rest, once);
        let last = tell_done(g, ids).graph;
        assert forall|x: TaskId| last.is_live(x) implies #[trigger] all_heard(once, rest)(x)
            == all_heard(pending, ids)(x) by {
            assert(all_heard(pending, ids)(x) == all_heard(once, rest)(x));
        }
        lemma_pending_same(last, all_heard(once, rest), all_heard(pending, ids));
    }
}

/// What a task that is about to hear of one finished child needs to succeed.
pub open spec fn about_to_hear(
    g: Graph,
    pending: spec_fn(TaskId) -> int,
    ancestors: Set<TaskId>,
    height: spec_fn(TaskId) -> int,
    level: int,
) -> bool {
    &&& g.wf()
    &&& linked(g)
    &&& layered(g, ancestors, height)
    &&& balanced(g, pending)
    &&& covered(g, pending, ancestors)
    &&& progressing(g, Set::empty(), Set::empty())
    &&& roots_progress(g)
    &&& quiet_above(pending, ancestors, height, level)
}

proof fn lemma_child_done_succeeds(
    g: Graph,
    t: TaskId,
    pending: spec_fn(TaskId) -> int,
    ancestors: Set<TaskId>,
    height: spec_fn(TaskId) -> int,
)
    requires
        about_to_hear(g, pending, ancestors, height, height(t)),
        g.is_live(t),
        ancestors.contains(t),
        pending(t) == -1,
        none_missing(g, heard(pending, t)),
    ensures
        child_done_step(g, t).result is Ok,
        covered(child_done_step(g, t).graph, heard(pending, t), ancestors),
    decreases waiting_tasks(g), 0nat,
{
    let node = g.nodes[t as int];
    let after = heard(pending, t);
    let less = Node { dirty: (node.dirty - 1) as usize, ..node };
    let counted = g.with_node(t, less);
    assert(balanced_at(g, pending(t), t));
    assert(covered_at(g, pending(t), t));
    lemma_own_count(g, t, less);
    if node.dirty == 0 {
        assert(node.state_type is InProgressLocallyOutdated);
        assert forall|x: TaskId| ancestors.contains(x) && g.is_live(
            x,
        ) implies #[trigger] covered_at(
            g,
            after(x),
            x,
        ) by {
            assert(covered_at(g, pending(x), x));
        }
    } else if (node.state_type is SomeChildrenDirty || node.state_type is SomeChildrenScheduled)
        && node.dirty == 1 {
        let finished = Node {
            state_type: TaskStateType::Done,
            notified: node.notified.push(usize::MAX),
            ..less
        };
        let start = counted.with_done(t);
        let ids = counted.live_parents(t);
        let started = |x: TaskId| after(x) - occurrences(ids, x);
        assert(start =~= g.with_node(t, finished));
        lemma_completed(g, t);
        lemma_same_shape(g, counted);
        lemma_same_shape(g, start);
        lemma_linked_shape(g, start);
        lemma_layers_kept(g, start, ancestors, height);
        assert(g.live_parents(t) == ids);
        assert(start.live_parents(t) == ids);
        lemma_live_parents(g, t);
        lemma_own_count(g, t, finished);
        lemma_node_changed(g, t, finished, pending, started);
        lemma_cover_changed(g, t, finished, pending, started, ancestors);
        assert(start.is_live(t));
        assert(balanced_at(start, started(t), t));
        assert(after(t) == 0);
        lemma_done_progress(g, t, start, started(t));
        lemma_parents_hear(start, t, after, ancestors, height);
        assert forall|i: int| 0 <= i < ids.len() implies start.is_live(#[trigger] ids[i]) by {
            assert(g.is_live(ids[i]));
        }
        assert forall|x: TaskId| start.is_live(x) implies #[trigger] all_heard(started, ids)(x)
            <= 0 by {
            assert(g.is_live(x));
            assert(after(x) <= 0);
        }
        lemma_tell_done_succeeds(start, ids, started, ancestors, height, height(t) + 1);
        lemma_tell_done_kept(start, ids, started);
        let told = tell_done(start, ids).graph;
        lemma_tell_done(start, ids);
        lemma_only_finished(start, told);
        lemma_pending_same(told, all_heard(started, ids), after);
        assert(told.nodes[t as int].alive);
        assert(told.live_parents(t) == ids);
        lemma_checks_pass(told, t, after);
        assert forall|p: TaskId| ancestors.contains(p) && told.is_live(
            p,
        ) implies #[trigger] covered_at(
            told,
            after(p),
            p,
        ) by {
            assert(covered_at(told, all_heard(started, ids)(p), p));
        }
    } else {
        lemma_same_shape(g, counted);
        lemma_node_changed(g, t, less, pending, after);
        lemma_cover_changed(g, t, less, pending, after, ancestors);
        assert(g.live_parents(t) == counted.live_parents(t));
        assert forall|i: int| 0 <= i < g.live_parents(t).len() implies after(
            #[trigger] g.live_parents(t)[i],
        ) == 0 by {
            assert(ancestors.contains(g.live_parents(t)[i]));
        }
        lemma_checks_pass(counted, t, after);
    }
}

/// The parents of `t` have nothing to hear of but `t`.
pub(crate) proof fn lemma_parents_hear(
    g: Graph,
    t: TaskId,
    pending: spec_fn(TaskId) -> int,
    ancestors: Set<TaskId>,
    height: spec_fn(TaskId) -> int,
)
    requires
        g.has(t),
        layered(g, ancestors, height),
        ancestors.contains(t),
        quiet_above(pending, ancestors, height, height(t)),
    ensures
        ({
            let ids = g.live_parents(t);
            let less = |x: TaskId| pending(x) - occurrences(ids, x);
            &&& ids.no_duplicates()
            &&& quiet_above(less, ancestors, height, height(t) + 1)
            &&& forall|i: int|
                0 <= i < ids.len() ==> {
                    &&& less(#[trigger] ids[i]) == -1
                    &&& pending(ids[i]) == 0
                    &&& ancestors.contains(ids[i])
                    &&& height(ids[i]) == height(t) + 1
                }
        }),
{
    let ids = g.live_parents(t);
    let less = |x: TaskId| pending(x) - occurrences(ids, x);
    assert forall|i: int| 0 <= i < ids.len() implies less(#[trigger] ids[i]) == -1 && pending(
        ids[i],
    ) == 0 && ancestors.contains(ids[i]) && height(ids[i]) == height(t) + 1 by {
        assert(ancestors.contains(g.live_parents(t)[i]));
        lemma_occurrences_once(ids, i);
    }
    assert forall|x: TaskId| #[trigger] ancestors.contains(x) && height(x) > height(t)
        + 1 implies less(x) == 0 by {
        lemma_occurrences_positive(ids, x);
        if ids.contains(x) {
            let k = choose|k: int| 0 <= k < ids.len() && ids[k] == x;
            assert(height(ids[k]) == height(t) + 1);
        }
    }
}

pub(crate) proof fn lemma_tell_done_succeeds(
    g: Graph,
    ids: Seq<TaskId>,
    pending: spec_fn(TaskId) -> int,
    ancestors: Set<TaskId>,
    height: spec_fn(TaskId) -> int,
    level: int,
)
    requires
        about_to_hear(g, pending, ancestors, height, level),
        ids.no_duplicates(),
        forall|i: int|
            0 <= i < ids.len() ==> {
                &&& g.is_live(#[trigger] ids[i])
                &&& pending(ids[i]) == -1
                &&& ancestors.contains(ids[i])
                &&& height(ids[i]) == level
            },
        none_missing(g, all_heard(pending, ids)),
    ensures
        tell_done(g, ids).result is Ok,
        covered(tell_done(g, ids).graph, all_heard(pending, ids), ancestors),
    decreases waiting_tasks(g), ids.len(),
{
    if ids.len() == 0 {
        assert forall|p: TaskId| ancestors.contains(p) && g.is_live(
            p,
        ) implies #[trigger] covered_at(
            g,
            all_heard(pending, ids)(p),
            p,
        ) by {
            assert(covered_at(g, pending(p), p));
        }
    } else {
        let first = child_done_step(g, ids[0]).graph;
        let rest = ids.skip(1);
        let once = heard(pending, ids[0]);
        assert(g.is_live(ids[0]));
        assert forall|x: TaskId| all_heard(once, rest)(x) == #[trigger] all_heard(
            pending,
            ids,
        )(x) by {
            lemma_occurrences_first(ids, x);
        }
        assert forall|x: TaskId| g.is_live(x) implies #[trigger] once(x) <= 0 by {
            assert(all_heard(pending, ids)(x) <= 0);
            assert(all_heard(once, rest)(x) <= 0);
        }
        lemma_child_done_succeeds(g, ids[0], pending, ancestors, height);
        lemma_child_done_kept(g, ids[0], pending);
        lemma_child_done(g, ids[0]);
        lemma_only_finished(g, first);
        lemma_linked_shape(g, first);
        lemma_layers_kept(g, first, ancestors, height);
        assert forall|i: int| 0 <= i < rest.len() implies {
            &&& first.is_live(#[trigger] rest[i])
            &&& once(rest[i]) == -1
            &&& ancestors.contains(rest[i])
            &&& height(rest[i]) == level
        } by {
            assert(rest[i] == ids[i + 1]);
            assert(g.is_live(ids[i + 1]));
            assert(ids[i + 1] != ids[0]);
        }
        assert forall|x: TaskId| first.is_live(x) implies #[trigger] all_heard(once, rest)(x)
            <= 0 by {
            assert(g.is_live(x));
            assert(all_heard(pending, ids)(x) <= 0);
        }
        lemma_tell_done_succeeds(first, rest, once, ancestors, height, level);
        let last = tell_done(g, ids).graph;
        assert forall|p: TaskId| ancestors.contains(p) && last.is_live(
            p,
        ) implies #[trigger] covered_at(
            last,
            all_heard(pending, ids)(p),
            p,
        ) by {
            assert(covered_at(last, all_heard(once, rest)(p), p));
            assert(all_heard(pending, ids)(p) == all_heard(once, rest)(p));
        }
    }
}

} // verus!
