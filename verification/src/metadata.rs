//! The cloned-project record: the immutable metadata the clone step produced
//! for a contract taken from a live chain. Read-only for the whole tweak run.

use vstd::prelude::*;

use crate::layout::StorageLayout;

verus! {

/// Everything known about the original deployment of the contract being
/// tweaked: where it lives, which chain it came from, and the storage layout
/// its deployed code was compiled with.
pub struct ClonedProject {
    /// Name of the target contract, as identifier bytes.
    pub target_contract: Vec<u8>,
    /// Chain id the contract was cloned from.
    pub chain_id: u64,
    /// Address of the original deployment.
    pub address: Vec<u8>,
    /// Storage layout of the original deployed contract.
    pub original_layout: StorageLayout,
}

} // verus!
