//! Locates directories matching a structural predicate under a root,
//! computes each match's on-disk size, and ranks matches by descending
//! size as they arrive.
//!
//! The library holds the verified core: the directory filter, the
//! traversal engine's decision logic, a tree model the traversal is
//! proved against, and the rank aggregator. Filesystem reads, channels
//! and presentation live outside, in the surrounding binary.

pub mod filter;
pub mod listing;
pub mod rank;
pub mod record;
pub mod tree;
pub mod walker;
