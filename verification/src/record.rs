//! The records that flow through the pipeline: a match found by the
//! traversal, and the ranked event handed to the presentation layer.

use vstd::prelude::*;

verus! {

/// One matched directory: its path and the total bytes under it.
/// Produced once per match by the traversal; immutable afterwards.
#[derive(Clone, Debug)]
pub struct MatchRecord {
    pub path: String,
    pub size_bytes: u64,
}

/// One ranked result: the match together with its insertion rank in
/// the descending-size order of all matches seen so far. A rank, once
/// emitted, is never retroactively changed by later arrivals.
#[derive(Clone, Debug)]
pub struct HubEvent {
    pub index: usize,
    pub path: String,
    pub size: u64,
}

impl MatchRecord {
    pub fn new(path: String, size_bytes: u64) -> (r: MatchRecord)
        ensures
            r.path@ == path@,
            r.size_bytes == size_bytes,
    {
        MatchRecord { path, size_bytes }
    }
}

} // verus!
