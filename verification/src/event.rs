//! Domain events emitted while workflows run.

use vstd::prelude::*;
use crate::dag::WorkflowId;

verus! {

#[derive(Clone, Debug)]
pub enum KernelEvent {
    WorkflowStarted { workflow_id: WorkflowId, name: String },
    NodeStarted { workflow_id: WorkflowId, node_id: String, attempt: u32 },
    NodeCompleted { workflow_id: WorkflowId, node_id: String, outcome: NodeOutcome },
    WorkflowCompleted { workflow_id: WorkflowId, attestation_hash: String },
    WorkflowFailed { workflow_id: WorkflowId, reason: String },
}

#[derive(Clone, Debug)]
pub enum NodeOutcome {
    Success { output_hash: String, gas_used: u64 },
    Failure { error: String },
    Skipped { reason: String },
}

} // verus!
