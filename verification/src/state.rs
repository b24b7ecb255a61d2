use vstd::prelude::*;

use crate::book::{EntryV, StockMatchingPriorityQueue};

verus! {

/// Shared state of the matching shard: just the book. Handlers take it
/// under exclusive access for the whole match, cancel or insert.
pub struct AppState {
    pub matching_pq: StockMatchingPriorityQueue,
}

impl AppState {
    pub fn new() -> (s: Self)
        ensures
            s.matching_pq@ == Seq::<EntryV>::empty(),
            s.matching_pq.wf(),
    {
        AppState { matching_pq: StockMatchingPriorityQueue::default() }
    }
}

} // verus!
