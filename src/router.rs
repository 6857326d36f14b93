//! Routing of messages to the replication layer.

use vstd::prelude::*;

verus! {

/// A router that accepts every message and delivers none.
#[derive(Clone, Copy)]
pub struct RaftStoreBlackHole;

} // verus!
