//! What slot operations keep, and what executions find again of the slots that earlier
//! ones created.

use crate::access::lemma_dependency;
use crate::consistency::{consistent, lemma_same_bookkeeping};
use crate::context::{match_key, match_type, matched, Match};
use crate::graph::{lemma_same_slots, Graph};
use crate::previous_nodes::{KeyId, PreviousModel, TypeKey};
use crate::slot::{SlotModel, TaskId, WeakSlotRef};
use vstd::prelude::*;

verus! {

/// A request of an execution for a slot.
pub enum Request {
    /// The slot under a key.
    Key(KeyId),
    /// The next slot for a type.
    Type(TypeKey),
}

/// How a request is served by a task that has created `slots` slots.
pub open spec fn served(previous: PreviousModel, slots: nat, request: Request) -> Match {
    match request {
        Request::Key(key) => match_key(previous, slots, key),
        Request::Type(ty) => match_type(previous, slots, ty),
    }
}

/// What a series of requests comes to.
pub struct Run {
    /// The slot that each request got.
    pub indices: Seq<usize>,
    /// The slots that can be found from then on.
    pub previous: PreviousModel,
    /// How many slots the task has created.
    pub slots: nat,
}

/// How `requests` are served in turn by a task that has created `slots` slots.
pub open spec fn run(previous: PreviousModel, slots: nat, requests: Seq<Request>) -> Run
    decreases requests.len(),
{
    if requests.len() == 0 {
        Run { indices: Seq::empty(), previous, slots }
    } else {
        let found = served(previous, slots, requests[0]);
        let rest = run(
            found.previous,
            if found.fresh {
                slots + 1
            } else {
                slots
            },
            requests.skip(1),
        );
        Run { indices: seq![found.index] + rest.indices, ..rest }
    }
}

/// Changing the output slot of a task, or a slot that it created, keeps the graph
/// consistent.
pub proof fn law_slot_changes_keep_consistency(
    g: Graph,
    t: TaskId,
    index: int,
    slot: SlotModel,
)
    requires
        consistent(g),
        g.has(t),
    ensures
        consistent(g.with_output(t, slot)),
        0 <= index < g.nodes[t as int].created.len() ==> consistent(
            g.with_created(t, index, slot),
        ),
{
    lemma_same_slots(g, g.with_output(t, slot));
    lemma_same_bookkeeping(g, g.with_output(t, slot));
    if 0 <= index < g.nodes[t as int].created.len() {
        lemma_same_slots(g, g.with_created(t, index, slot));
        lemma_same_bookkeeping(g, g.with_created(t, index, slot));
    }
}

/// Reading a slot keeps the graph consistent.
pub proof fn law_reading_keeps_consistency(g: Graph, t: TaskId, dep: WeakSlotRef)
    requires
        consistent(g),
        g.has(t),
        g.has_slot(dep),
    ensures
        consistent(g.with_dependency(t, dep)),
{
    lemma_dependency(g, t, dep);
    lemma_same_bookkeeping(g, g.with_dependency(t, dep));
}

/// Finding or creating a slot, and changing what it holds, keeps the graph consistent.
pub proof fn law_requests_keep_consistency(g: Graph, t: TaskId, found: Match, slot: SlotModel)
    requires
        consistent(g),
        g.has(t),
        found.index < matched(g, t, found).nodes[t as int].created.len(),
    ensures
        consistent(matched(g, t, found).with_created(t, found.index as int, slot)),
{
    let middle = matched(g, t, found);
    lemma_same_slots(g, middle);
    lemma_same_bookkeeping(g, middle);
    law_slot_changes_keep_consistency(middle, t, found.index as int, slot);
}

/// Entering and leaving an execution keep the graph consistent.
pub proof fn law_entering_and_leaving_keep_consistency(
    g: Graph,
    t: TaskId,
    previous: PreviousModel,
)
    requires
        consistent(g),
        g.has(t),
    ensures
        consistent(g.with_previous(t, previous)),
{
    lemma_same_slots(g, g.with_previous(t, previous));
    lemma_same_bookkeeping(g, g.with_previous(t, previous));
}

/// Queueing a task and emptying the queue keep the graph consistent.
pub proof fn law_queueing_keeps_consistency(g: Graph, t: TaskId)
    requires
        consistent(g),
    ensures
        consistent(g.with_scheduled(t)),
        consistent(Graph { scheduled: Seq::empty(), ..g }),
{
    let taken = Graph { scheduled: Seq::empty(), ..g };
    lemma_same_slots(g, g.with_scheduled(t));
    lemma_same_bookkeeping(g, g.with_scheduled(t));
    lemma_same_slots(g, taken);
    lemma_same_bookkeeping(g, taken);
}

/// A slot found under a key is found under it again.
pub proof fn law_key_finds_its_slot_again(
    previous: PreviousModel,
    slots: nat,
    later: nat,
    key: KeyId,
)
    ensures
        ({
            let found = match_key(previous, slots, key);
            let again = match_key(found.previous, later, key);
            again.index == found.index && !again.fresh && again.previous == found.previous
        }),
{
}

/// Every slot that is found exists, and so does every slot that can be found later.
pub proof fn law_found_slots_exist(previous: PreviousModel, slots: nat, request: Request)
    requires
        previous.within(slots),
        slots < usize::MAX,
    ensures
        ({
            let found = served(previous, slots, request);
            let after = if found.fresh {
                slots + 1
            } else {
                slots
            };
            found.index < after && found.previous.within(after)
        }),
{
    let found = served(previous, slots, request);
    let after = if found.fresh {
        slots + 1
    } else {
        slots
    };
    if let Request::Type(ty) = request {
        let nodes = previous.nodes_of(ty);
        if !found.fresh {
            assert(previous.by_type[ty].slots[nodes.next as int] < slots);
        }
        assert forall|x: TypeKey, i: int|
            #![trigger found.previous.by_type[x].slots[i]]
            found.previous.by_type.contains_key(x) && 0 <= i
                < found.previous.by_type[x].slots.len() implies found.previous.by_type[x].slots[i]
            < after by {
            if x != ty {
                assert(previous.by_type[x].slots[i] < slots);
            } else if i < nodes.slots.len() {
                assert(previous.by_type[x].slots[i] < slots);
            }
        }
    } else {
        assert forall|x: TypeKey, i: int|
            #![trigger found.previous.by_type[x].slots[i]]
            found.previous.by_type.contains_key(x) && 0 <= i
                < found.previous.by_type[x].slots.len() implies found.previous.by_type[x].slots[i]
            < after by {
            assert(previous.by_type[x].slots[i] < slots);
        }
    }
}

/// No slot is recorded twice: not under two keys, not twice for types, and not under a
/// key and for a type.
pub open spec fn separate(previous: PreviousModel) -> bool {
    &&& forall|a: KeyId, b: KeyId|
        #![trigger previous.by_key[a], previous.by_key[b]]
        previous.by_key.contains_key(a) && previous.by_key.contains_key(b) && a != b
            ==> previous.by_key[a] != previous.by_key[b]
    &&& forall|a: TypeKey, i: int, b: TypeKey, j: int|
        #![trigger previous.nodes_of(a).slots[i], previous.nodes_of(b).slots[j]]
        0 <= i < previous.nodes_of(a).slots.len() && 0 <= j < previous.nodes_of(b).slots.len() && (
        a != b || i != j) ==> previous.nodes_of(a).slots[i] != previous.nodes_of(b).slots[j]
    &&& forall|key: KeyId, ty: TypeKey, i: int|
        #![trigger previous.by_key[key], previous.nodes_of(ty).slots[i]]
        previous.by_key.contains_key(key) && 0 <= i < previous.nodes_of(ty).slots.len()
            ==> previous.by_key[key] != previous.nodes_of(ty).slots[i]
}

proof fn lemma_within_nodes(previous: PreviousModel, slots: nat, ty: TypeKey, i: int)
    requires
        previous.within(slots),
        0 <= i < previous.nodes_of(ty).slots.len(),
    ensures
        previous.nodes_of(ty).slots[i] < slots,
{
    assert(previous.by_type[ty].slots[i] < slots);
}

/// Requests keep apart: no slot is ever recorded for two purposes.
pub proof fn law_slots_stay_separate(previous: PreviousModel, slots: nat, request: Request)
    requires
        previous.within(slots),
        separate(previous),
        slots <= usize::MAX,
    ensures
        separate(served(previous, slots, request).previous),
{
    let after = served(previous, slots, request).previous;
    match request {
        Request::Key(key) => {
            assert forall|k: KeyId, ty: TypeKey, i: int|
                #![trigger after.by_key[k], after.nodes_of(ty).slots[i]]
                after.by_key.contains_key(k) && 0 <= i
                    < after.nodes_of(ty).slots.len() implies after.by_key[k] != after.nodes_of(
                ty,
            ).slots[i] by {
                assert(after.nodes_of(ty) == previous.nodes_of(ty));
                lemma_within_nodes(previous, slots, ty, i);
                if k != key || previous.by_key.contains_key(key) {
                    assert(previous.by_key[k] != previous.nodes_of(ty).slots[i]);
                }
            }
            assert forall|a: TypeKey, i: int, b: TypeKey, j: int|
                #![trigger after.nodes_of(a).slots[i], after.nodes_of(b).slots[j]]
                0 <= i < after.nodes_of(a).slots.len() && 0 <= j < after.nodes_of(
                    b,
                ).slots.len() && (a != b || i != j) implies after.nodes_of(a).slots[i]
                != after.nodes_of(b).slots[j] by {
                assert(after.nodes_of(a) == previous.nodes_of(a));
                assert(after.nodes_of(b) == previous.nodes_of(b));
                assert(previous.nodes_of(a).slots[i] != previous.nodes_of(b).slots[j]);
            }
        },
        Request::Type(ty) => {
            assert forall|x: TypeKey, i: int| 0 <= i < after.nodes_of(x).slots.len() implies (if i
                < previous.nodes_of(x).slots.len() {
                #[trigger] after.nodes_of(x).slots[i] == previous.nodes_of(x).slots[i]
                    && previous.nodes_of(x).slots[i] < slots
            } else {
                x == ty && i == previous.nodes_of(x).slots.len() && after.nodes_of(x).slots[i]
                    == slots
            }) by {
                if i < previous.nodes_of(x).slots.len() {
                    lemma_within_nodes(previous, slots, x, i);
                }
            }
            assert forall|a: TypeKey, i: int, b: TypeKey, j: int|
                #![trigger after.nodes_of(a).slots[i], after.nodes_of(b).slots[j]]
                0 <= i < after.nodes_of(a).slots.len() && 0 <= j < after.nodes_of(
                    b,
                ).slots.len() && (a != b || i != j) implies after.nodes_of(a).slots[i]
                != after.nodes_of(b).slots[j] by {
                if i < previous.nodes_of(a).slots.len() && j < previous.nodes_of(b).slots.len() {
                    assert(previous.nodes_of(a).slots[i] != previous.nodes_of(b).slots[j]);
                }
            }
            assert forall|k: KeyId, x: TypeKey, i: int|
                #![trigger after.by_key[k], after.nodes_of(x).slots[i]]
                after.by_key.contains_key(k) && 0 <= i
                    < after.nodes_of(x).slots.len() implies after.by_key[k] != after.nodes_of(
                x,
            ).slots[i] by {
                if i < previous.nodes_of(x).slots.len() {
                    assert(previous.by_key[k] != previous.nodes_of(x).slots[i]);
                }
            }
        },
    }
}

/// No type has used more slots than it has.
pub open spec fn in_order(previous: PreviousModel) -> bool {
    forall|ty: TypeKey|
        (#[trigger] previous.nodes_of(ty)).next <= previous.nodes_of(ty).slots.len()
}

/// Whatever is recorded stays recorded.
pub open spec fn extends(before: PreviousModel, after: PreviousModel) -> bool {
    &&& forall|key: KeyId| #[trigger]
        before.by_key.contains_key(key) ==> after.by_key.contains_key(key) && after.by_key[key]
            == before.by_key[key]
    &&& forall|ty: TypeKey|
        before.nodes_of(ty).slots.is_prefix_of((#[trigger] after.nodes_of(ty)).slots)
}

proof fn lemma_extends_trans(a: PreviousModel, b: PreviousModel, c: PreviousModel)
    requires
        extends(a, b),
        extends(b, c),
    ensures
        extends(a, c),
{
    assert forall|ty: TypeKey| a.nodes_of(ty).slots.is_prefix_of(
        (#[trigger] c.nodes_of(ty)).slots,
    ) by {
        let first = a.nodes_of(ty).slots;
        let second = b.nodes_of(ty).slots;
        assert(first.is_prefix_of(second));
        assert(second.is_prefix_of(c.nodes_of(ty).slots));
    }
}

proof fn lemma_served(previous: PreviousModel, slots: nat, request: Request)
    requires
        in_order(previous),
        slots <= usize::MAX,
        forall|ty: TypeKey| (#[trigger] previous.nodes_of(ty)).next < usize::MAX,
    ensures
        in_order(served(previous, slots, request).previous),
        extends(previous, served(previous, slots, request).previous),
{
    let after = served(previous, slots, request).previous;
    assert forall|ty: TypeKey| (#[trigger] after.nodes_of(ty)).next <= after.nodes_of(
        ty,
    ).slots.len() && previous.nodes_of(ty).slots.is_prefix_of(after.nodes_of(ty).slots) by {
        assert(previous.nodes_of(ty).next <= previous.nodes_of(ty).slots.len());
    }
}

/// No type has used more than `n` slots.
pub open spec fn used_at_most(previous: PreviousModel, n: nat) -> bool {
    forall|ty: TypeKey| (#[trigger] previous.nodes_of(ty)).next <= n
}

proof fn lemma_run_extends(
    previous: PreviousModel,
    slots: nat,
    requests: Seq<Request>,
    used: nat,
)
    requires
        in_order(previous),
        used_at_most(previous, used),
        used + requests.len() <= usize::MAX,
        slots + requests.len() <= usize::MAX,
    ensures
        extends(previous, run(previous, slots, requests).previous),
        run(previous, slots, requests).slots <= slots + requests.len(),
        run(previous, slots, requests).indices.len() == requests.len(),
    decreases requests.len(),
{
    if requests.len() == 0 {
        assert forall|ty: TypeKey| previous.nodes_of(ty).slots.is_prefix_of(
            (#[trigger] previous.nodes_of(ty)).slots,
        ) by {}
    } else {
        let found = served(previous, slots, requests[0]);
        assert forall|ty: TypeKey| (#[trigger] previous.nodes_of(ty)).next < usize::MAX by {
            assert(previous.nodes_of(ty).next <= used);
        }
        lemma_served(previous, slots, requests[0]);
        lemma_used(previous, slots, requests[0], used);
        let next = if found.fresh {
            slots + 1
        } else {
            slots
        };
        lemma_run_extends(found.previous, next, requests.skip(1), used + 1);
        lemma_extends_trans(
            previous,
            found.previous,
            run(previous, slots, requests).previous,
        );
    }
}

proof fn lemma_used(previous: PreviousModel, slots: nat, request: Request, used: nat)
    requires
        used_at_most(previous, used),
        used < usize::MAX,
    ensures
        used_at_most(served(previous, slots, request).previous, used + 1),
{
    let after = served(previous, slots, request).previous;
    assert forall|ty: TypeKey| (#[trigger] after.nodes_of(ty)).next <= used + 1 by {
        assert(previous.nodes_of(ty).next <= used);
    }
}

/// Serving the same requests from what they have left behind finds the same slots.
proof fn lemma_replay(
    first: PreviousModel,
    slots: nat,
    second: PreviousModel,
    later: nat,
    requests: Seq<Request>,
    used: nat,
)
    requires
        in_order(first),
        used_at_most(first, used),
        used + requests.len() <= usize::MAX,
        slots + requests.len() <= usize::MAX,
        second.by_key == run(first, slots, requests).previous.by_key,
        forall|ty: TypeKey|
            (#[trigger] second.nodes_of(ty)).next == first.nodes_of(ty).next
                && second.nodes_of(ty).slots == run(first, slots, requests).previous.nodes_of(
                ty,
            ).slots,
    ensures
        run(second, later, requests).indices == run(first, slots, requests).indices,
        run(second, later, requests).slots == later,
    decreases requests.len(),
{
    let whole = run(first, slots, requests);
    if requests.len() > 0 {
        let found = served(first, slots, requests[0]);
        let again = served(second, later, requests[0]);
        let rest = requests.skip(1);
        let next = if found.fresh {
            slots + 1
        } else {
            slots
        };
        assert forall|ty: TypeKey| (#[trigger] first.nodes_of(ty)).next < usize::MAX by {
            assert(first.nodes_of(ty).next <= used);
        }
        lemma_served(first, slots, requests[0]);
        lemma_used(first, slots, requests[0], used);
        lemma_run_extends(found.previous, next, rest, used + 1);
        match requests[0] {
            Request::Key(key) => {
                assert(found.previous.by_key.contains_key(key));
                assert(whole.previous.by_key[key] == found.index);
                assert(again.index == found.index && !again.fresh);
                assert forall|ty: TypeKey|
                    (#[trigger] again.previous.nodes_of(ty)).next == found.previous.nodes_of(
                        ty,
                    ).next && again.previous.nodes_of(ty).slots == whole.previous.nodes_of(
                        ty,
                    ).slots by {
                    assert(second.nodes_of(ty).next == first.nodes_of(ty).next);
                }
            },
            Request::Type(ty) => {
                let nodes = first.nodes_of(ty);
                let at = nodes.next as int;
                assert(nodes.next <= nodes.slots.len());
                assert(second.nodes_of(ty).next == nodes.next);
                let mine = found.previous.nodes_of(ty).slots;
                let all = whole.previous.nodes_of(ty).slots;
                assert(mine.is_prefix_of(all));
                assert(at < mine.len() && mine[at] == found.index);
                assert(all[at] == mine[at]);
                assert(again.index == found.index && !again.fresh);
                assert forall|x: TypeKey|
                    (#[trigger] again.previous.nodes_of(x)).next == found.previous.nodes_of(
                        x,
                    ).next && again.previous.nodes_of(x).slots == whole.previous.nodes_of(
                        x,
                    ).slots by {
                    assert(second.nodes_of(x).next == first.nodes_of(x).next);
                }
            },
        }
        lemma_replay(found.previous, next, again.previous, later, rest, used + 1);
    }
}

/// An execution that makes the same requests as the one before it gets the same slots,
/// in the same order, and creates none.
pub proof fn law_next_execution_finds_same_slots(
    previous: PreviousModel,
    slots: nat,
    requests: Seq<Request>,
)
    requires
        slots + requests.len() <= usize::MAX,
    ensures
        ({
            let first = run(previous.rewound(), slots, requests);
            let second = run(first.previous.rewound(), first.slots, requests);
            second.indices == first.indices && second.slots == first.slots
        }),
{
    let start = previous.rewound();
    let first = run(start, slots, requests);
    let again = first.previous.rewound();
    assert forall|ty: TypeKey| (#[trigger] start.nodes_of(ty)).next == 0 by {
        if previous.by_type.contains_key(ty) {
            assert(start.by_type[ty].next == 0);
        }
    }
    assert forall|ty: TypeKey|
        (#[trigger] again.nodes_of(ty)).next == start.nodes_of(ty).next && again.nodes_of(ty).slots
            == first.previous.nodes_of(ty).slots by {
        assert(start.nodes_of(ty).next == 0);
        if first.previous.by_type.contains_key(ty) {
            assert(again.by_type[ty].next == 0);
        }
    }
    lemma_replay(start, slots, again, first.slots, requests, 0);
}

/// How often `requests` asks for type `ty`.
pub open spec fn asked_for(requests: Seq<Request>, ty: TypeKey) -> nat
    decreases requests.len(),
{
    if requests.len() == 0 {
        0
    } else {
        (if requests[0] == Request::Type(ty) {
            1nat
        } else {
            0nat
        }) + asked_for(requests.skip(1), ty)
    }
}

/// What a task that has run `executions` can find, and how many slots it has created,
/// when its execution `n` begins.
pub open spec fn before_execution(
    previous: PreviousModel,
    slots: nat,
    executions: Seq<Seq<Request>>,
    n: nat,
) -> Run
    decreases n, 0nat,
{
    if n == 0 {
        Run { indices: Seq::empty(), previous: previous.rewound(), slots }
    } else {
        let last = nth_execution(previous, slots, executions, (n - 1) as nat);
        Run { previous: last.previous.rewound(), ..last }
    }
}

/// What execution `n` of `executions` comes to.
pub open spec fn nth_execution(
    previous: PreviousModel,
    slots: nat,
    executions: Seq<Seq<Request>>,
    n: nat,
) -> Run
    decreases n, 1nat,
{
    let start = before_execution(previous, slots, executions, n);
    run(start.previous, start.slots, executions[n as int])
}

/// Request `i` of `a` and request `j` of `b` ask for the same: for the same key, or for
/// the same type after equally many requests for it.
pub open spec fn same_request(a: Seq<Request>, i: int, b: Seq<Request>, j: int) -> bool {
    &&& a[i] == b[j]
    &&& a[i] matches Request::Type(ty) ==> asked_for(a.take(i), ty) == asked_for(b.take(j), ty)
}

proof fn lemma_rewound(previous: PreviousModel)
    ensures
        in_order(previous.rewound()),
        used_at_most(previous.rewound(), 0),
        extends(previous, previous.rewound()),
        extends(previous.rewound(), previous),
{
    let start = previous.rewound();
    assert forall|ty: TypeKey| (#[trigger] start.nodes_of(ty)).next == 0 && start.nodes_of(ty).slots
        == previous.nodes_of(ty).slots by {
        if previous.by_type.contains_key(ty) {
            assert(start.by_type[ty].next == 0);
        }
    }
    assert forall|ty: TypeKey| start.nodes_of(ty).slots.is_prefix_of(
        (#[trigger] previous.nodes_of(ty)).slots,
    ) by {
        assert(start.nodes_of(ty).slots == previous.nodes_of(ty).slots);
    }
}

/// Where request `i` of a run is served from: the slot that is recorded for it in the end.
proof fn lemma_recorded(
    previous: PreviousModel,
    slots: nat,
    requests: Seq<Request>,
    i: int,
    used: nat,
)
    requires
        in_order(previous),
        used_at_most(previous, used),
        used + requests.len() <= usize::MAX,
        slots + requests.len() <= usize::MAX,
        0 <= i < requests.len(),
    ensures
        ({
            let whole = run(previous, slots, requests);
            match requests[i] {
                Request::Key(key) => whole.previous.by_key.contains_key(key)
                    && whole.previous.by_key[key] == whole.indices[i],
                Request::Type(ty) => {
                    let at = previous.nodes_of(ty).next + asked_for(requests.take(i), ty);
                    at < whole.previous.nodes_of(ty).slots.len()
                        && whole.previous.nodes_of(ty).slots[at] == whole.indices[i]
                },
            }
        }),
    decreases requests.len(),
{
    let whole = run(previous, slots, requests);
    let found = served(previous, slots, requests[0]);
    let rest = requests.skip(1);
    let next = if found.fresh {
        slots + 1
    } else {
        slots
    };
    assert forall|ty: TypeKey| (#[trigger] previous.nodes_of(ty)).next < usize::MAX by {
        assert(previous.nodes_of(ty).next <= used);
    }
    lemma_served(previous, slots, requests[0]);
    lemma_used(previous, slots, requests[0], used);
    lemma_run_extends(found.previous, next, rest, used + 1);
    if i == 0 {
        match requests[0] {
            Request::Key(key) => {
                assert(found.previous.by_key.contains_key(key));
            },
            Request::Type(ty) => {
                assert(requests.take(0) =~= Seq::empty());
                assert(previous.nodes_of(ty).next <= previous.nodes_of(ty).slots.len());
                let mine = found.previous.nodes_of(ty).slots;
                let at = previous.nodes_of(ty).next as int;
                assert(mine.is_prefix_of(whole.previous.nodes_of(ty).slots));
                assert(at < mine.len() && mine[at] == found.index);
                assert(asked_for(requests.take(0), ty) == 0);
            },
        }
    } else {
        lemma_recorded(found.previous, next, rest, i - 1, used + 1);
        assert(rest[i - 1] == requests[i]);
        assert(whole.indices[i] == run(found.previous, next, rest).indices[i - 1]);
        if let Request::Type(ty) = requests[i] {
            let head = requests.take(i);
            assert(head.skip(1) =~= rest.take(i - 1));
            assert(head[0] == requests[0]);
            assert(previous.nodes_of(ty).next <= used);
            assert(found.previous.nodes_of(ty).next == previous.nodes_of(ty).next + (if requests[0]
                == Request::Type(ty) {
                1int
            } else {
                0
            }));
        }
    }
}

/// Whatever an execution has recorded is still recorded after any later one.
proof fn lemma_executions_extend(
    previous: PreviousModel,
    slots: nat,
    executions: Seq<Seq<Request>>,
    a: nat,
    b: nat,
)
    requires
        a <= b < executions.len(),
        forall|n: nat|
            n <= b ==> (#[trigger] before_execution(previous, slots, executions, n)).slots
                + executions[n as int].len() <= usize::MAX,
    ensures
        extends(
            nth_execution(previous, slots, executions, a).previous,
            nth_execution(previous, slots, executions, b).previous,
        ),
    decreases b - a,
{
    let first = nth_execution(previous, slots, executions, a).previous;
    let last = nth_execution(previous, slots, executions, b).previous;
    if a == b {
        assert forall|ty: TypeKey| first.nodes_of(ty).slots.is_prefix_of(
            (#[trigger] last.nodes_of(ty)).slots,
        ) by {}
    } else {
        let middle = nth_execution(previous, slots, executions, (b - 1) as nat).previous;
        lemma_executions_extend(previous, slots, executions, a, (b - 1) as nat);
        let start = before_execution(previous, slots, executions, b);
        assert(start.previous == middle.rewound());
        lemma_rewound(middle);
        lemma_run_extends(start.previous, start.slots, executions[b as int], 0);
        lemma_extends_trans(first, middle, middle.rewound());
        lemma_extends_trans(first, middle.rewound(), last);
    }
}

/// A request finds the same slot in every execution of a task, whatever else is requested
/// in between: the one for a key, and the one for the first, second and each further
/// request for a type.
pub proof fn law_same_request_finds_same_slot(
    previous: PreviousModel,
    slots: nat,
    executions: Seq<Seq<Request>>,
    a: nat,
    i: int,
    b: nat,
    j: int,
)
    requires
        a <= b < executions.len(),
        0 <= i < executions[a as int].len(),
        0 <= j < executions[b as int].len(),
        same_request(executions[a as int], i, executions[b as int], j),
        forall|n: nat|
            n <= b ==> (#[trigger] before_execution(previous, slots, executions, n)).slots
                + executions[n as int].len() <= usize::MAX,
    ensures
        nth_execution(previous, slots, executions, a).indices[i] == nth_execution(
            previous,
            slots,
            executions,
            b,
        ).indices[j],
{
    let first = before_execution(previous, slots, executions, a);
    let last = before_execution(previous, slots, executions, b);
    lemma_starts_rewound(previous, slots, executions, a);
    lemma_starts_rewound(previous, slots, executions, b);
    lemma_recorded(first.previous, first.slots, executions[a as int], i, 0);
    lemma_recorded(last.previous, last.slots, executions[b as int], j, 0);
    lemma_executions_extend(previous, slots, executions, a, b);
    let early = nth_execution(previous, slots, executions, a).previous;
    let late = nth_execution(previous, slots, executions, b).previous;
    match executions[a as int][i] {
        Request::Key(key) => {
            assert(early.by_key.contains_key(key));
        },
        Request::Type(ty) => {
            assert(first.previous.nodes_of(ty).next <= 0);
            assert(last.previous.nodes_of(ty).next <= 0);
            assert(early.nodes_of(ty).slots.is_prefix_of(late.nodes_of(ty).slots));
        },
    }
}

proof fn lemma_starts_rewound(
    previous: PreviousModel,
    slots: nat,
    executions: Seq<Seq<Request>>,
    n: nat,
)
    ensures
        in_order(before_execution(previous, slots, executions, n).previous),
        used_at_most(before_execution(previous, slots, executions, n).previous, 0),
{
    if n == 0 {
        lemma_rewound(previous);
    } else {
        lemma_rewound(nth_execution(previous, slots, executions, (n - 1) as nat).previous);
    }
}

/// Leaving an execution gives the slots it can find back to its task, and restores what
/// the surrounding execution could find before.
pub proof fn law_leaving_undoes_entering(
    g: Graph,
    t: TaskId,
    surrounding: PreviousModel,
    used: PreviousModel,
)
    requires
        g.has(t),
    ensures
        ({
            let inside = g.with_previous(t, surrounding);
            inside.nodes[t as int].previous == surrounding && inside.with_previous(t, used)
                == g.with_previous(t, used)
        }),
{
    let inside = g.with_previous(t, surrounding);
    assert(inside.with_previous(t, used).nodes =~= g.with_previous(t, used).nodes);
}

} // verus!
