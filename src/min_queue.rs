//! The outside `priority_queue` crate's indexed priority queue, as used by
//! the spanning-tree searches: items are `u64` ids, priorities `i64`.
use priority_queue::PriorityQueue;
use std::collections::hash_map::RandomState;
use std::hash::Hash;
use vstd::prelude::*;

verus! {

/// The outside queue type, opaque to proofs.
#[verifier::external_type_specification]
#[verifier::external_body]
#[verifier::reject_recursive_types(I)]
#[verifier::reject_recursive_types(P)]
#[verifier::reject_recursive_types(H)]
pub struct ExPriorityQueue<I: Hash + Eq, P: Ord, H>(PriorityQueue<I, P, H>);

/// The queue the spanning-tree searches use.
pub type MinQueue = PriorityQueue<u64, i64, RandomState>;

/// An item with its priority.
pub type Entry = (u64, i64);

/// The items of a queue, each with its priority.
pub uninterp spec fn queued(q: MinQueue) -> Map<u64, i64>;

/// Relies on `PriorityQueue::new`: the queue starts empty.
#[verifier::external_body]
pub(crate) fn pq_new() -> (r: MinQueue)
    ensures
        queued(r).dom() == Set::<u64>::empty(),
{
    PriorityQueue::new()
}

/// Relies on `PriorityQueue::push`: the item is stored with the priority;
/// an item already queued keeps one entry, and its earlier priority comes
/// back.
#[verifier::external_body]
pub(crate) fn pq_push(q: &mut MinQueue, item: u64, priority: i64) -> (r:
    Option<i64>)
    ensures
        queued(*final(q)) == queued(*old(q)).insert(item, priority),
        r == (if queued(*old(q)).contains_key(item) {
            Some(queued(*old(q))[item])
        } else {
            None
        }),
{
    q.push(item, priority)
}

/// Relies on `PriorityQueue::pop`: takes out an item of greatest priority,
/// with that priority; `None` exactly when the queue is empty.
#[verifier::external_body]
pub(crate) fn pq_pop(q: &mut MinQueue) -> (r: Option<Entry>)
    ensures
        r is None <==> queued(*old(q)).dom() == Set::<u64>::empty(),
        r is None ==> queued(*final(q)) == queued(*old(q)),
        r is Some ==> {
            let (item, p) = r->0;
            &&& queued(*old(q)).contains_key(item)
            &&& queued(*old(q))[item] == p
            &&& forall|k: u64| #[trigger] queued(*old(q)).contains_key(k) ==> queued(*old(q))[k] <= p
            &&& queued(*final(q)) == queued(*old(q)).remove(item)
        },
{
    q.pop()
}

} // verus!
