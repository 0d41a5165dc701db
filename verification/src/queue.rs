//! The queue of candidate merges: a priority queue from the `priority_queue`
//! crate, keyed by a pair's key, with the pair's count as priority and the
//! key, inverted, to break ties.
//!
//! Verus does not look into that crate. What this file states of it is taken
//! on trust from its source.

use priority_queue::PriorityQueue;
use vstd::prelude::*;

verus! {

/// A priority: a count, then a tie-breaker. Priorities are ordered by the
/// count and, where counts are equal, by the tie-breaker.
pub type Priority = (i64, u64);

/// `priority_queue::PriorityQueue`, of which Verus sees no more than that it
/// is a type.
#[verifier::external_type_specification]
#[verifier::external_body]
#[verifier::reject_recursive_types(I)]
#[verifier::reject_recursive_types(P)]
#[verifier::reject_recursive_types(H)]
pub struct ExPriorityQueue<I, P, H>(PriorityQueue<I, P, H>);

/// The items that a queue holds, each with its priority.
pub uninterp spec fn queue_contents(q: PriorityQueue<u64, Priority>) -> Map<u64, Priority>;

/// The order of priorities: that of tuples, by the first component, then by
/// the second.
pub open spec fn priority_le(a: Priority, b: Priority) -> bool {
    a.0 < b.0 || (a.0 == b.0 && a.1 <= b.1)
}

/// `PriorityQueue::new`: a queue that holds nothing.
#[verifier::external_body]
pub(crate) fn queue_new() -> (q: PriorityQueue<u64, Priority>)
    ensures
        queue_contents(q) == (Map::<u64, Priority>::empty()),
{
    PriorityQueue::new()
}

/// `PriorityQueue::is_empty`: whether the queue holds nothing.
#[verifier::external_body]
pub(crate) fn queue_is_empty(q: &PriorityQueue<u64, Priority>) -> (r: bool)
    ensures
        r == (queue_contents(*q) == Map::<u64, Priority>::empty()),
{
    q.is_empty()
}

/// `PriorityQueue::push`: the item has the new priority afterwards, whether
/// it was in the queue or not; returned is the priority that it had.
#[verifier::external_body]
pub(crate) fn queue_push(q: &mut PriorityQueue<u64, Priority>, item: u64, priority: Priority) -> (r:
    Option<Priority>)
    ensures
        queue_contents(*final(q)) == queue_contents(*old(q)).insert(item, priority),
        r == (if queue_contents(*old(q)).contains_key(item) {
            Some(queue_contents(*old(q))[item])
        } else {
            None
        }),
{
    q.push(item, priority)
}

/// `PriorityQueue::change_priority`: an item of the queue has the new
/// priority afterwards, and returned is the one that it had; for an item
/// that is not in the queue nothing changes.
#[verifier::external_body]
pub(crate) fn queue_change_priority(
    q: &mut PriorityQueue<u64, Priority>,
    item: u64,
    priority: Priority,
) -> (r: Option<Priority>)
    ensures
        queue_contents(*final(q)) == (if queue_contents(*old(q)).contains_key(item) {
            queue_contents(*old(q)).insert(item, priority)
        } else {
            queue_contents(*old(q))
        }),
        r == (if queue_contents(*old(q)).contains_key(item) {
            Some(queue_contents(*old(q))[item])
        } else {
            None
        }),
{
    q.change_priority(&item, priority)
}

/// `PriorityQueue::pop`: an item leaves the queue whose priority none of the
/// others exceeds, and is returned with that priority; `None` if the queue
/// holds nothing. Which of several items of the greatest priority leaves, the
/// crate does not say.
#[verifier::external_body]
pub(crate) fn queue_pop(q: &mut PriorityQueue<u64, Priority>) -> (r: Option<(u64, Priority)>)
    ensures
        match r {
            Some((item, priority)) => {
                &&& queue_contents(*old(q)).contains_key(item)
                &&& queue_contents(*old(q))[item] == priority
                &&& queue_contents(*final(q)) == queue_contents(*old(q)).remove(item)
                &&& forall|k: u64| #[trigger]
                    queue_contents(*old(q)).contains_key(k) ==> priority_le(
                        queue_contents(*old(q))[k],
                        priority,
                    )
            },
            None => queue_contents(*old(q)) == Map::<u64, Priority>::empty() && queue_contents(
                *final(q),
            ) == queue_contents(*old(q)),
        },
{
    q.pop()
}

} // verus!
