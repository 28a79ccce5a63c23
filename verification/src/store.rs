//! The correlation store: which user message a reply of ours belongs to.

use vstd::prelude::*;
use vstd::hash_map::HashMapWithView;

verus! {

broadcast use vstd::std_specs::hash::group_hash_axioms;

/// Maps the id of a user's message to the id of the reply this process posted
/// for it. An id is either absent or bound to exactly one reply id; an insert
/// for an id that is already present overwrites the stale entry. Entries live
/// only as long as the process does.
pub struct CorrelationStore {
    map: HashMapWithView<u64, u64>,
}

impl View for CorrelationStore {
    type V = Map<u64, u64>;

    closed spec fn view(&self) -> Map<u64, u64> {
        self.map@
    }
}

impl CorrelationStore {
    /// An empty store: no message is being tracked.
    pub fn new() -> (s: Self)
        ensures
            s@ == Map::<u64, u64>::empty(),
    {
        CorrelationStore { map: HashMapWithView::new() }
    }

    /// Records that `reply_id` is our reply to `original_id`, overwriting any
    /// stale entry for `original_id`.
    pub fn insert(&mut self, original_id: u64, reply_id: u64)
        ensures
            final(self)@ == old(self)@.insert(original_id, reply_id),
    {
        self.map.insert(original_id, reply_id);
    }

    /// Looks up the reply recorded for `original_id`. Does not mutate: only a
    /// confirmed retraction removes an entry.
    pub fn take(&self, original_id: u64) -> (r: Option<u64>)
        ensures
            r == (if self@.contains_key(original_id) {
                Some(self@[original_id])
            } else {
                None::<u64>
            }),
    {
        match self.map.get(&original_id) {
            Some(v) => Some(*v),
            None => None,
        }
    }

    /// Forgets the entry for `original_id`; a no-op when no entry exists.
    pub fn remove(&mut self, original_id: u64)
        ensures
            final(self)@ == old(self)@.remove(original_id),
    {
        let _ = self.map.remove(&original_id);
        proof {
            assert(self@ =~= old(self)@.remove(original_id));
        }
    }

    /// How many messages are currently tracked.
    pub fn len(&self) -> (n: usize)
        ensures
            n == self@.len(),
    {
        self.map.len()
    }
}

/// Inserts for two distinct message ids never lose one another's entry,
/// whichever order they land in: both entries are present afterwards.
pub proof fn lemma_insert_distinct_keys(m: Map<u64, u64>, a: u64, x: u64, b: u64, y: u64)
    requires
        a != b,
    ensures
        m.insert(a, x).insert(b, y).contains_key(a),
        m.insert(a, x).insert(b, y).contains_key(b),
        m.insert(a, x).insert(b, y)[a] == x,
        m.insert(a, x).insert(b, y)[b] == y,
{
}

} // verus!
