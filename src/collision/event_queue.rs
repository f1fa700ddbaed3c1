//! The time-ordered queue of tentative contact events, kept in
//! `priority_queue::PriorityQueue`.
use vstd::prelude::*;
use core::hash::Hash;
use priority_queue::PriorityQueue;

verus! {

/// A contact event: two (entity, generation) snapshots.
pub type EventKey = ((usize, i64), (usize, i64));

/// The queue of events, keyed by the negated contact time so that the
/// earliest contact has the greatest priority.
pub type EventQueue = PriorityQueue<EventKey, i64>;

/// Declares `PriorityQueue`, opaque; its contents are named by `queued`.
#[verifier::external_type_specification]
#[verifier::external_body]
#[verifier::reject_recursive_types(I)]
#[verifier::reject_recursive_types(P)]
#[verifier::reject_recursive_types(H)]
pub struct ExPriorityQueue<I: Hash + Eq, P: Ord, H>(PriorityQueue<I, P, H>);

/// The events a queue holds, each with its priority.
pub uninterp spec fn queued(q: EventQueue) -> Map<EventKey, i64>;

/// Relies on `PriorityQueue::new`: the new queue is empty.
#[verifier::external_body]
pub(crate) fn queue_new() -> (r: EventQueue)
    ensures
        queued(r) =~= Map::empty(),
{
    PriorityQueue::new()
}

/// Relies on `PriorityQueue::push`: the item is in the queue afterwards with
/// the given priority, replacing the priority of an equal item already there;
/// nothing else changes.
#[verifier::external_body]
pub(crate) fn queue_push(q: &mut EventQueue, item: EventKey, priority: i64)
    ensures
        queued(*final(q)) == queued(*old(q)).insert(item, priority),
{
    q.push(item, priority);
}

/// Relies on `PriorityQueue::pop`: `None` exactly when the queue is empty;
/// otherwise an item of greatest priority, which leaves the queue.
#[verifier::external_body]
pub(crate) fn queue_pop(q: &mut EventQueue) -> (r: Option<(EventKey, i64)>)
    ensures
        match r {
            None => queued(*old(q)) == Map::<EventKey, i64>::empty() && queued(*final(q))
                == queued(*old(q)),
            Some((item, priority)) => {
                &&& queued(*old(q)).contains_key(item)
                &&& queued(*old(q))[item] == priority
                &&& forall|other: EventKey| #[trigger]
                    queued(*old(q)).contains_key(other) ==> queued(*old(q))[other] <= priority
                &&& queued(*final(q)) == queued(*old(q)).remove(item)
            },
        },
{
    q.pop()
}

/// Relies on `PriorityQueue::is_empty`: whether the queue holds no item.
#[verifier::external_body]
pub(crate) fn queue_is_empty(q: &EventQueue) -> (r: bool)
    ensures
        r == (queued(*q) =~= Map::empty()),
{
    q.is_empty()
}

} // verus!
