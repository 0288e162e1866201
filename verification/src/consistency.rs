//! What holds of the whole graph between operations: links go both ways, counts are
//! right, and whoever waits for a child can rely on its making progress.

use crate::fault::{audit, lemma_first_mismatch};
use crate::graph::{lemma_live_among_same, lemma_live_parents, live_among, unfinished, Graph};
use crate::slot::{lemma_occurrences_positive, occurrences, TaskId};
use crate::task::{Node, TaskStateType};
use vstd::prelude::*;

verus! {

/// The states in which a task keeps count of its unfinished children.
pub open spec fn counts_children(state: TaskStateType) -> bool {
    ||| state is InProgressLocally
    ||| state is Done
    ||| state is SomeChildrenDirty
    ||| state is SomeChildrenScheduled
}

/// The states in which a task relies on its children to be done or to make progress.
pub open spec fn relies_on_children(state: TaskStateType) -> bool {
    ||| state is InProgressLocally
    ||| state is Done
    ||| state is SomeChildrenScheduled
}

/// The states in which a task makes no progress until it is accessed.
pub open spec fn idles(state: TaskStateType) -> bool {
    ||| state is Dirty
    ||| state is SomeChildrenDirty
}

/// Every live task is a parent of each of its children as often as it has that child,
/// and of no other task.
pub open spec fn linked(g: Graph) -> bool {
    forall|p: TaskId, c: TaskId|
        #![trigger occurrences(g.nodes[p as int].children, c)]
        #![trigger occurrences(g.nodes[c as int].parents, p)]
        g.is_live(p) && g.has(c) ==> occurrences(g.nodes[p as int].children, c) == occurrences(
            g.nodes[c as int].parents,
            p,
        )
}

/// The count that task `p` keeps is right once `pending` more of its children are
/// counted.
pub open spec fn balanced_at(g: Graph, pending: int, p: TaskId) -> bool {
    let node = g.nodes[p as int];
    &&& counts_children(node.state_type) ==> node.dirty + pending == unfinished(
        g.nodes,
        node.children,
    )
    &&& node.state_type is Done ==> node.dirty == 0
    &&& node.state_type is SomeChildrenDirty || node.state_type is SomeChildrenScheduled
        ==> node.dirty > 0
}

/// The counts that live tasks keep are right once every task `p` has heard of
/// `pending(p)` more unfinished children.
pub open spec fn balanced(g: Graph, pending: spec_fn(TaskId) -> int) -> bool {
    forall|p: TaskId| g.is_live(p) ==> #[trigger] balanced_at(g, pending(p), p)
}

/// No child of a live task that relies on its children idles. The parents in `parents`
/// and the children in `children` are left out of account.
pub open spec fn progressing(g: Graph, parents: Set<TaskId>, children: Set<TaskId>) -> bool {
    forall|p: TaskId, i: int|
        #![trigger g.nodes[p as int].children[i]]
        g.is_live(p) && relies_on_children(g.state(p)) && !parents.contains(p) && 0 <= i
            < g.nodes[p as int].children.len() ==> children.contains(
            g.nodes[p as int].children[i],
        ) || !idles(g.state(g.nodes[p as int].children[i]))
}

/// No root idles.
pub open spec fn roots_progress(g: Graph) -> bool {
    forall|t: TaskId| #![trigger g.nodes[t as int]] g.has(t) && g.is_root(t) ==> !idles(g.state(t))
}

/// What holds of the graph between operations.
pub open spec fn consistent(g: Graph) -> bool {
    &&& g.wf()
    &&& linked(g)
    &&& balanced(g, |p: TaskId| 0int)
    &&& progressing(g, Set::empty(), Set::empty())
    &&& roots_progress(g)
}

/// All ways that lead up from a task in `ancestors` to another one have the same length,
/// by which `height` grows, and nobody lists a child twice. `ancestors` holds the live
/// parents of each of its members.
pub open spec fn layered(
    g: Graph,
    ancestors: Set<TaskId>,
    height: spec_fn(TaskId) -> int,
) -> bool {
    forall|x: TaskId| #[trigger]
        ancestors.contains(x) && g.has(x) ==> {
            &&& g.live_parents(x).no_duplicates()
            &&& forall|i: int|
                0 <= i < g.live_parents(x).len() ==> ancestors.contains(
                    #[trigger] g.live_parents(x)[i],
                ) && height(g.live_parents(x)[i]) == height(x) + 1
        }
}

/// No ancestor above `level` has anything left to hear of.
pub open spec fn quiet_above(
    pending: spec_fn(TaskId) -> int,
    ancestors: Set<TaskId>,
    height: spec_fn(TaskId) -> int,
    level: int,
) -> bool {
    forall|x: TaskId| #[trigger] ancestors.contains(x) && height(x) > level ==> pending(x) == 0
}

/// `n` with the sign of `change`.
pub open spec fn signed(change: int, n: nat) -> int {
    if change > 0 {
        n as int
    } else if change < 0 {
        -(n as int)
    } else {
        0
    }
}

/// What a child in this state adds to its parents' counts.
pub open spec fn weight(state: TaskStateType) -> int {
    if state is Done {
        0
    } else {
        1
    }
}

pub proof fn lemma_occurrences_first(ids: Seq<TaskId>, x: TaskId)
    requires
        ids.len() > 0,
    ensures
        occurrences(ids, x) == (if ids[0] == x {
            1nat
        } else {
            0nat
        }) + occurrences(ids.skip(1), x),
    decreases ids.len(),
{
    let rest = ids.skip(1);
    if ids.len() == 1 {
        assert(ids.drop_last() =~= Seq::empty());
        assert(rest =~= Seq::empty());
    } else {
        lemma_occurrences_first(ids.drop_last(), x);
        assert(ids.drop_last().skip(1) =~= rest.drop_last());
        assert(rest.last() == ids.last());
    }
}

pub proof fn lemma_live_occurrences(nodes: Seq<Node>, ids: Seq<TaskId>, x: TaskId)
    requires
        nodes[x as int].alive,
    ensures
        occurrences(live_among(nodes, ids), x) == occurrences(ids, x),
    decreases ids.len(),
{
    if ids.len() > 0 {
        let rest = live_among(nodes, ids.drop_last());
        lemma_live_occurrences(nodes, ids.drop_last(), x);
        assert(rest.push(ids.last()).drop_last() =~= rest);
    }
}

/// Replacing one task moves the count of unfinished tasks by what it changes for that
/// task, as often as it is listed.
pub proof fn lemma_unfinished_update(nodes: Seq<Node>, ids: Seq<TaskId>, t: TaskId, node: Node)
    requires
        t < nodes.len(),
        forall|i: int| 0 <= i < ids.len() ==> #[trigger] ids[i] < nodes.len(),
    ensures
        unfinished(nodes.update(t as int, node), ids) == unfinished(nodes, ids) + signed(
            weight(node.state_type) - weight(nodes[t as int].state_type),
            occurrences(ids, t),
        ),
    decreases ids.len(),
{
    if ids.len() > 0 {
        assert(ids[ids.len() - 1] < nodes.len());
        lemma_unfinished_update(nodes, ids.drop_last(), t, node);
    }
}

/// Nobody is unfinished exactly when all are done.
pub proof fn lemma_unfinished_none(nodes: Seq<Node>, ids: Seq<TaskId>)
    ensures
        unfinished(nodes, ids) == 0 <==> forall|i: int|
            0 <= i < ids.len() ==> nodes[#[trigger] ids[i] as int].state_type is Done,
    decreases ids.len(),
{
    if ids.len() > 0 {
        let rest = ids.drop_last();
        lemma_unfinished_none(nodes, rest);
        if unfinished(nodes, ids) == 0 {
            assert forall|i: int| 0 <= i < ids.len() implies nodes[
                #[trigger] ids[i] as int
            ].state_type is Done by {
                if i < rest.len() {
                    assert(rest[i] == ids[i]);
                }
            }
        } else if unfinished(nodes, rest) == 0 {
            assert(!(nodes[ids[ids.len() - 1] as int].state_type is Done));
        } else {
            let k = choose|k: int|
                0 <= k < rest.len() && !(nodes[#[trigger] rest[k] as int].state_type is Done);
            assert(ids[k] == rest[k]);
        }
    }
}

/// Counts of unfinished tasks depend on who is done only.
pub proof fn lemma_unfinished_same(a: Seq<Node>, b: Seq<Node>, ids: Seq<TaskId>)
    requires
        forall|i: int|
            0 <= i < ids.len() ==> weight(a[#[trigger] ids[i] as int].state_type) == weight(
                b[ids[i] as int].state_type,
            ),
    ensures
        unfinished(a, ids) == unfinished(b, ids),
    decreases ids.len(),
{
    if ids.len() > 0 {
        let rest = ids.drop_last();
        assert forall|i: int| 0 <= i < rest.len() implies weight(
            a[#[trigger] rest[i] as int].state_type,
        ) == weight(b[rest[i] as int].state_type) by {
            assert(rest[i] == ids[i]);
        }
        assert(ids[ids.len() - 1] == ids.last());
        lemma_unfinished_same(a, b, rest);
    }
}

/// Two graphs whose tasks have the same types, parents and children, and of which the
/// same are alive.
pub open spec fn same_links(a: Graph, b: Graph) -> bool {
    &&& a.nodes.len() == b.nodes.len()
    &&& forall|i: int| 0 <= i < a.nodes.len() ==> {
        &&& (#[trigger] b.nodes[i]).parents == a.nodes[i].parents
        &&& b.nodes[i].children == a.nodes[i].children
        &&& b.nodes[i].alive == a.nodes[i].alive
        &&& b.nodes[i].ty == a.nodes[i].ty
    }
}

pub proof fn lemma_linked_shape(a: Graph, b: Graph)
    requires
        same_links(a, b),
        linked(a),
    ensures
        linked(b),
{
    assert forall|p: TaskId, c: TaskId| b.is_live(p) && b.has(c) implies occurrences(
        b.nodes[p as int].children,
        c,
    ) == occurrences(b.nodes[c as int].parents, p) by {
        assert(b.nodes[p as int].children == a.nodes[p as int].children);
        assert(b.nodes[c as int].parents == a.nodes[c as int].parents);
        assert(occurrences(a.nodes[p as int].children, c) == occurrences(
            a.nodes[c as int].parents,
            p,
        ));
    }
}

/// The child of a live task has it among its live parents.
pub proof fn lemma_parent_of(g: Graph, p: TaskId, i: int)
    requires
        g.wf(),
        linked(g),
        g.is_live(p),
        0 <= i < g.nodes[p as int].children.len(),
    ensures
        g.is_live(g.nodes[p as int].children[i]),
        g.live_parents(g.nodes[p as int].children[i]).contains(p),
{
    let children = g.nodes[p as int].children;
    let c = children[i];
    assert(g.node_wf(p));
    assert(g.is_live(children[i]));
    lemma_occurrences_positive(children, c);
    assert(occurrences(children, c) == occurrences(g.nodes[c as int].parents, p));
    lemma_live_occurrences(g.nodes, g.nodes[c as int].parents, p);
    lemma_occurrences_positive(g.live_parents(c), p);
}

proof fn lemma_children_exist(g: Graph, t: TaskId)
    requires
        g.wf(),
        g.has(t),
    ensures
        forall|i: int|
            0 <= i < g.nodes[t as int].children.len() ==> #[trigger] g.nodes[t as int].children[i]
                < g.nodes.len(),
{
    let children = g.nodes[t as int].children;
    assert(g.node_wf(t));
    assert forall|i: int| 0 <= i < children.len() implies #[trigger] children[i]
        < g.nodes.len() by {
        assert(g.has(children[i]));
    }
}

/// Replacing one task keeps all counts right if its own is, and if its parents hear of
/// what has changed for them.
pub proof fn lemma_node_changed(
    g: Graph,
    t: TaskId,
    node: Node,
    before: spec_fn(TaskId) -> int,
    after: spec_fn(TaskId) -> int,
)
    requires
        g.wf(),
        g.has(t),
        linked(g),
        balanced(g, before),
        node.children == g.nodes[t as int].children,
        node.parents == g.nodes[t as int].parents,
        node.alive == g.nodes[t as int].alive,
        g.is_live(t) ==> balanced_at(g.with_node(t, node), after(t), t),
        forall|x: TaskId|
            g.is_live(x) && x != t ==> #[trigger] after(x) == before(x) + signed(
                weight(node.state_type) - weight(g.state(t)),
                occurrences(g.live_parents(t), x),
            ),
    ensures
        balanced(g.with_node(t, node), after),
{
    let changed = g.with_node(t, node);
    assert forall|x: TaskId| changed.is_live(x) implies #[trigger] balanced_at(
        changed,
        after(x),
        x,
    ) by {
        if x != t {
            assert(balanced_at(g, before(x), x));
            assert(changed.nodes[x as int] == g.nodes[x as int]);
            lemma_children_exist(g, x);
            lemma_unfinished_update(g.nodes, g.nodes[x as int].children, t, node);
            assert(occurrences(g.nodes[x as int].children, t) == occurrences(
                g.nodes[t as int].parents,
                x,
            ));
            lemma_live_occurrences(g.nodes, g.nodes[t as int].parents, x);
            assert(after(x) == before(x) + signed(
                weight(node.state_type) - weight(g.state(t)),
                occurrences(g.live_parents(t), x),
            ));
        }
    }
}

/// `p` has counted no fewer unfinished children than it has, once it has heard of
/// `pending` more of them. A task that went out of date while it executes need not.
pub open spec fn covered_at(g: Graph, pending: int, p: TaskId) -> bool {
    let node = g.nodes[p as int];
    node.state_type is InProgressLocallyOutdated || node.dirty + pending >= unfinished(
        g.nodes,
        node.children,
    )
}

/// No live task in `tasks`, but for those that went out of date while they execute, has
/// counted fewer unfinished children than it has, once every task `p` has heard of
/// `pending(p)` more of them.
pub open spec fn covered(
    g: Graph,
    pending: spec_fn(TaskId) -> int,
    tasks: Set<TaskId>,
) -> bool {
    forall|p: TaskId|
        tasks.contains(p) && g.is_live(p) ==> #[trigger] covered_at(g, pending(p), p)
}

/// Replacing one task keeps counts high enough if its own is, and if its parents hear of
/// what has changed for them.
pub proof fn lemma_cover_changed(
    g: Graph,
    t: TaskId,
    node: Node,
    before: spec_fn(TaskId) -> int,
    after: spec_fn(TaskId) -> int,
    tasks: Set<TaskId>,
)
    requires
        g.wf(),
        g.has(t),
        linked(g),
        covered(g, before, tasks),
        node.children == g.nodes[t as int].children,
        node.parents == g.nodes[t as int].parents,
        node.alive == g.nodes[t as int].alive,
        tasks.contains(t) && g.is_live(t) ==> covered_at(g.with_node(t, node), after(t), t),
        forall|x: TaskId|
            g.is_live(x) && x != t ==> #[trigger] after(x) == before(x) + signed(
                weight(node.state_type) - weight(g.state(t)),
                occurrences(g.live_parents(t), x),
            ),
    ensures
        covered(g.with_node(t, node), after, tasks),
{
    let changed = g.with_node(t, node);
    assert forall|x: TaskId| tasks.contains(x) && changed.is_live(x) implies #[trigger] covered_at(
        changed,
        after(x),
        x,
    ) by {
        if x != t {
            assert(covered_at(g, before(x), x));
            assert(changed.nodes[x as int] == g.nodes[x as int]);
            lemma_children_exist(g, x);
            lemma_unfinished_update(g.nodes, g.nodes[x as int].children, t, node);
            assert(occurrences(g.nodes[x as int].children, t) == occurrences(
                g.nodes[t as int].parents,
                x,
            ));
            lemma_live_occurrences(g.nodes, g.nodes[t as int].parents, x);
            assert(after(x) == before(x) + signed(
                weight(node.state_type) - weight(g.state(t)),
                occurrences(g.live_parents(t), x),
            ));
        }
    }
}

/// How the count of unfinished children of `t` itself changes with `t`.
pub proof fn lemma_own_count(g: Graph, t: TaskId, node: Node)
    requires
        g.wf(),
        g.is_live(t),
        linked(g),
    ensures
        unfinished(g.with_node(t, node).nodes, g.nodes[t as int].children) == unfinished(
            g.nodes,
            g.nodes[t as int].children,
        ) + signed(
            weight(node.state_type) - weight(g.state(t)),
            occurrences(g.live_parents(t), t),
        ),
{
    lemma_children_exist(g, t);
    lemma_unfinished_update(g.nodes, g.nodes[t as int].children, t, node);
    assert(occurrences(g.nodes[t as int].children, t) == occurrences(
        g.nodes[t as int].parents,
        t,
    ));
    lemma_live_occurrences(g.nodes, g.nodes[t as int].parents, t);
}

/// Only the values of `pending` matter.
pub proof fn lemma_pending_same(
    g: Graph,
    before: spec_fn(TaskId) -> int,
    after: spec_fn(TaskId) -> int,
)
    requires
        balanced(g, before),
        forall|x: TaskId| g.is_live(x) ==> #[trigger] before(x) == after(x),
    ensures
        balanced(g, after),
{
    assert forall|x: TaskId| g.is_live(x) implies #[trigger] balanced_at(g, after(x), x) by {
        assert(balanced_at(g, before(x), x));
    }
}

/// States that only move away from relying on children, and never to idling, keep
/// progress.
pub proof fn lemma_states_kept(a: Graph, b: Graph, children: Set<TaskId>)
    requires
        a.wf(),
        same_links(a, b),
        forall|i: int|
            #![trigger b.nodes[i]]
            0 <= i < a.nodes.len() ==> {
                &&& relies_on_children(b.nodes[i].state_type) ==> relies_on_children(
                    a.nodes[i].state_type,
                )
                &&& idles(b.nodes[i].state_type) ==> idles(a.nodes[i].state_type)
            },
        progressing(a, Set::empty(), children),
        roots_progress(a),
    ensures
        progressing(b, Set::empty(), children),
        roots_progress(b),
{
    assert forall|p: TaskId, i: int|
        #![trigger b.nodes[p as int].children[i]]
        b.is_live(p) && relies_on_children(b.state(p)) && 0 <= i
            < b.nodes[p as int].children.len() implies children.contains(
        b.nodes[p as int].children[i],
    ) || !idles(b.state(b.nodes[p as int].children[i])) by {
        assert(b.nodes[p as int].children == a.nodes[p as int].children);
        let c = a.nodes[p as int].children[i];
        assert(a.node_wf(p));
        assert(a.has(c));
        assert(b.nodes[c as int].state_type == b.state(c));
    }
    assert forall|t: TaskId| #![trigger b.nodes[t as int]] b.has(t) && b.is_root(t) implies !idles(
        b.state(t),
    ) by {
        assert(a.nodes[t as int].ty == b.nodes[t as int].ty);
    }
}

/// Consistency depends on links, states and counts only.
pub proof fn lemma_same_bookkeeping(a: Graph, b: Graph)
    requires
        consistent(a),
        b.wf(),
        same_links(a, b),
        forall|i: int|
            0 <= i < a.nodes.len() ==> (#[trigger] b.nodes[i]).state_type
                == a.nodes[i].state_type && b.nodes[i].dirty == a.nodes[i].dirty,
    ensures
        consistent(b),
{
    let none = |p: TaskId| 0int;
    lemma_linked_shape(a, b);
    lemma_states_kept(a, b, Set::empty());
    assert forall|p: TaskId| b.is_live(p) implies #[trigger] balanced_at(b, none(p), p) by {
        assert(b.nodes[p as int].alive == a.nodes[p as int].alive);
        assert(a.is_live(p));
        assert(balanced_at(a, none(p), p));
        assert(a.node_wf(p));
        let children = a.nodes[p as int].children;
        assert forall|i: int| 0 <= i < children.len() implies weight(
            a.nodes[#[trigger] children[i] as int].state_type,
        ) == weight(b.nodes[children[i] as int].state_type) by {
            assert(a.has(children[i]));
            assert(b.nodes[children[i] as int].alive == a.nodes[children[i] as int].alive);
        }
        lemma_unfinished_same(a.nodes, b.nodes, children);
    }
}

proof fn lemma_state_ok(g: Graph, t: TaskId)
    requires
        balanced_at(g, 0, t),
    ensures
        g.state_ok(t),
{
    let children = g.nodes[t as int].children;
    lemma_unfinished_none(g.nodes, children);
    if g.state(t) is Done {
        assert forall|i: int| 0 <= i < children.len() implies g.state(
            #[trigger] children[i],
        ) is Done by {
            assert(g.nodes[children[i] as int].state_type is Done);
        }
    }
}

/// Where the counts of a task and its parents are right, no check of them fails.
pub proof fn lemma_checks_pass(g: Graph, t: TaskId, pending: spec_fn(TaskId) -> int)
    requires
        g.wf(),
        balanced(g, pending),
        g.is_live(t),
        pending(t) == 0,
        forall|i: int|
            0 <= i < g.live_parents(t).len() ==> pending(#[trigger] g.live_parents(t)[i]) == 0,
    ensures
        g.state_ok(t),
        audit(g, t) is Ok,
{
    let ids = seq![t] + g.live_parents(t);
    lemma_live_parents(g, t);
    assert forall|i: int| 0 <= i < ids.len() implies g.state_ok(#[trigger] ids[i]) by {
        if i > 0 {
            assert(ids[i] == g.live_parents(t)[i - 1]);
            assert(g.is_live(g.live_parents(t)[i - 1]));
        }
        assert(balanced_at(g, pending(ids[i]), ids[i]));
        lemma_state_ok(g, ids[i]);
    }
    assert(ids[0] == t);
    lemma_first_mismatch(g, ids);
}

pub proof fn lemma_layers_kept(
    a: Graph,
    b: Graph,
    ancestors: Set<TaskId>,
    height: spec_fn(TaskId) -> int,
)
    requires
        a.wf(),
        same_links(a, b),
        layered(a, ancestors, height),
    ensures
        layered(b, ancestors, height),
{
    assert forall|x: TaskId| #[trigger] ancestors.contains(x) && b.has(x) implies {
        &&& b.live_parents(x).no_duplicates()
        &&& forall|i: int|
            0 <= i < b.live_parents(x).len() ==> ancestors.contains(
                #[trigger] b.live_parents(x)[i],
            ) && height(b.live_parents(x)[i]) == height(x) + 1
    } by {
        assert(a.node_wf(x));
        let ids = a.nodes[x as int].parents;
        assert(b.nodes[x as int].parents == ids);
        assert forall|i: int| 0 <= i < ids.len() implies a.nodes[#[trigger] ids[i] as int].alive
            == b.nodes[ids[i] as int].alive by {
            assert(a.has(ids[i]));
            assert(b.nodes[ids[i] as int].parents == a.nodes[ids[i] as int].parents);
        }
        lemma_live_among_same(a.nodes, b.nodes, ids);
        assert(a.live_parents(x) == b.live_parents(x));
    }
}

/// What is listed once occurs once.
pub proof fn lemma_occurrences_once(ids: Seq<TaskId>, i: int)
    requires
        ids.no_duplicates(),
        0 <= i < ids.len(),
    ensures
        occurrences(ids, ids[i]) == 1,
    decreases ids.len(),
{
    let rest = ids.drop_last();
    if i < rest.len() {
        assert(rest.no_duplicates());
        lemma_occurrences_once(rest, i);
    } else {
        lemma_occurrences_positive(rest, ids[i]);
        if rest.contains(ids[i]) {
            let k = choose|k: int| 0 <= k < rest.len() && rest[k] == ids[i];
            assert(ids[k] == ids[i]);
        }
    }
}

} // verus!
