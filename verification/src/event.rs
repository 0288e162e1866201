//! The event that a task raises when it becomes done, and the listeners that
//! wait for it. Both come from the `event_listener` crate.

use event_listener::{Event, EventListener};
use vstd::prelude::*;

verus! {

/// The event of the `event_listener` crate. Nothing inside it is visible here.
#[verifier::external_type_specification]
#[verifier::external_body]
pub struct ExEvent(event_listener::Event);

/// The listener of the `event_listener` crate. Nothing inside it is visible here.
#[verifier::external_type_specification]
#[verifier::external_body]
pub struct ExEventListener(event_listener::EventListener);

/// The calls of `Event::notify` made on an event so far: the argument of each, in order.
/// The event keeps no record of them that could be read back; the name stands for it in
/// contracts.
pub uninterp spec fn notifications(event: Event) -> Seq<usize>;

/// What `EventListener::listens_to` answers for a listener and an event.
pub uninterp spec fn listens_to(listener: EventListener, event: Event) -> bool;

/// Calls `Event::new`: the event has not been notified yet.
#[verifier::external_body]
pub(crate) fn event_new() -> (event: Event)
    ensures
        notifications(event) == Seq::<usize>::empty(),
{
    Event::new()
}

/// Calls `Event::notify`, which wakes at least `n` of the event's active listeners
/// (all of them when there are fewer). The contract records the call with its
/// argument, and says that the event stays the one that its listeners listen to; how
/// many listeners there are, and which run next, is left open.
#[verifier::external_body]
pub(crate) fn event_notify(event: &mut Event, n: usize)
    ensures
        notifications(*final(event)) == notifications(*old(event)).push(n),
        forall|listener: EventListener|
            listens_to(listener, *final(event)) == listens_to(listener, *old(event)),
{
    event.notify(n)
}

/// Calls `Event::listen`: the listener is registered with that event. When it is
/// woken depends on later notifications and is left open.
#[verifier::external_body]
pub(crate) fn event_listen(event: &Event) -> (listener: EventListener)
    ensures
        listens_to(listener, *event),
{
    event.listen()
}

} // verus!
