use vstd::prelude::*;

verus! {

/// Length in bytes of a block, the unit in which pieces are requested from peers.
pub const BLOCK_LENGTH: usize = 16384;

/// Length in bytes of a peer id.
pub const PEER_ID_LENGTH: usize = 20;

} // verus!
