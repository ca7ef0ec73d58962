use vstd::prelude::*;

use keyed_priority_queue::KeyedPriorityQueue;

verus! {

/// Declares `keyed_priority_queue::KeyedPriorityQueue` to the verifier as an
/// opaque type so it can stand in signatures; its behaviour is stated only
/// through the wrappers below.
#[verifier::external_type_specification]
#[verifier::external_body]
#[verifier::reject_recursive_types(TKey)]
#[verifier::reject_recursive_types(TPriority)]
#[verifier::reject_recursive_types(S)]
pub struct ExKeyedPriorityQueue<
    TKey: core::hash::Hash + core::cmp::Eq,
    TPriority: core::cmp::Ord,
    S: core::hash::BuildHasher,
>(KeyedPriorityQueue<TKey, TPriority, S>);

/// A queue of canonical board keys prioritized by one packed `u128`, as the
/// search frontier and the explored set use it.
pub type KeyQueue = KeyedPriorityQueue<u64, u128>;

/// What a queue holds: a map from each stored key to its priority. Both the
/// search frontier and the explored set key boards by their canonical `u64`
/// key; the priority is one `u128`.
pub uninterp spec fn queue_entries(q: KeyQueue) -> Map<u64, u128>;

/// Relies on `KeyedPriorityQueue::with_capacity`: the fresh queue holds
/// nothing, whatever room it reserved.
#[verifier::external_body]
pub fn queue_new(capacity: usize) -> (r: KeyQueue)
    ensures
        queue_entries(r).dom() == Set::<u64>::empty(),
{
    KeyedPriorityQueue::with_capacity(capacity)
}

/// Relies on `KeyedPriorityQueue::push`: adds the key with the given
/// priority, or replaces the priority if the key is already stored.
#[verifier::external_body]
pub fn queue_push(q: &mut KeyQueue, key: u64, priority: u128)
    ensures
        queue_entries(*final(q)) == queue_entries(*old(q)).insert(key, priority),
{
    q.push(key, priority);
}

/// Relies on `KeyedPriorityQueue::pop`: removes and returns an entry whose
/// priority no stored entry exceeds, or nothing when the queue is empty.
#[verifier::external_body]
pub fn queue_pop(q: &mut KeyQueue) -> (r: Option<(u64, u128)>)
    ensures
        match r {
            Some(kp) => {
                &&& queue_entries(*old(q)).contains_key(kp.0)
                &&& queue_entries(*old(q))[kp.0] == kp.1
                &&& forall|k2: u64|
                    queue_entries(*old(q)).contains_key(k2) ==> queue_entries(*old(q))[k2]
                        <= kp.1
                &&& queue_entries(*final(q)) == queue_entries(*old(q)).remove(kp.0)
            },
            None => {
                &&& queue_entries(*old(q)).dom() == Set::<u64>::empty()
                &&& queue_entries(*final(q)) == queue_entries(*old(q))
            },
        },
{
    q.pop()
}

/// Relies on `KeyedPriorityQueue::get_priority`: the stored priority of the
/// key, or nothing when the key is absent.
#[verifier::external_body]
pub fn queue_get(q: &KeyQueue, key: u64) -> (r: Option<u128>)
    ensures
        match r {
            Some(p) => queue_entries(*q).contains_key(key) && queue_entries(*q)[key] == p,
            None => !queue_entries(*q).contains_key(key),
        },
{
    q.get_priority(&key).copied()
}

/// Relies on `KeyedPriorityQueue::set_priority`: replaces the priority of a
/// stored key and reports success; an absent key leaves the queue unchanged.
#[verifier::external_body]
pub fn queue_set(q: &mut KeyQueue, key: u64, priority: u128) -> (r: bool)
    ensures
        r == queue_entries(*old(q)).contains_key(key),
        queue_entries(*final(q)) == if queue_entries(*old(q)).contains_key(key) {
            queue_entries(*old(q)).insert(key, priority)
        } else {
            queue_entries(*old(q))
        },
{
    q.set_priority(&key, priority).is_ok()
}

} // verus!
