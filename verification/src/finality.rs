//! The finality-checkpoint answer of the node: a dormant collaborator
//! kept for callers that query checkpoint finality beside the poll
//! cycle; the poll cycle itself never consumes it.

use vstd::prelude::*;

verus! {

/// One checkpoint: its epoch and root, as the node prints them.
#[derive(Clone, Debug)]
pub struct CheckpointData {
    pub epoch: String,
    pub root: String,
}

/// The three checkpoints the node reports for a state.
#[derive(Clone, Debug)]
pub struct Checkpoints {
    pub previous_justified: CheckpointData,
    pub current_justified: CheckpointData,
    pub finalized: CheckpointData,
}

/// A node's answer to a finality-checkpoint query.
#[derive(Clone, Debug)]
pub struct FinalityCheckpointResposne {
    pub execution_optimistic: bool,
    pub finalized: bool,
    pub data: Checkpoints,
}

impl FinalityCheckpointResposne {
    /// Packs the parts of an answer, unchanged.
    pub fn new(execution_optimistic: bool, finalized: bool, data: Checkpoints) -> (r:
        FinalityCheckpointResposne)
        ensures
            r.execution_optimistic == execution_optimistic,
            r.finalized == finalized,
            r.data == data,
    {
        FinalityCheckpointResposne { execution_optimistic, finalized, data }
    }
}

} // verus!
