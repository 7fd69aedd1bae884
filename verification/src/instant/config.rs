//! The settings of instant recall.

use vstd::prelude::*;

verus! {

/// The settings of an index.
#[derive(Clone, Copy, Debug, PartialEq, Eq, Structural)]
pub struct InstantRecallConfig {
    /// The number of components of an embedding.
    pub dimension: usize,
    /// The candidates that the scan of signatures leaves.
    pub binary_top_k: usize,
    /// The results that are left after rescoring.
    pub final_top_k: usize,
}

impl Default for InstantRecallConfig {
    fn default() -> (r: Self)
        ensures
            r == (InstantRecallConfig { dimension: 1024, binary_top_k: 100, final_top_k: 5 }),
    {
        InstantRecallConfig { dimension: 1024, binary_top_k: 100, final_top_k: 5 }
    }
}

} // verus!
