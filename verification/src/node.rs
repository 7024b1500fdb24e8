//! Inputs, outputs and execution context of a workflow node. JSON values are
//! carried as text.

use vstd::prelude::*;
use crate::dag::WorkflowId;
use crate::nodemap::NodeMap;
use crate::outside::{new_v4_bytes, uuid_text, uuid_hyphenated};

verus! {

/// What a node receives when it runs.
pub struct NodeInput {
    pub workflow_id: WorkflowId,
    pub node_id: String,
    /// The node's own payload (JSON text).
    pub payload: String,
    /// Outputs of the parent nodes (JSON text), keyed by parent node id.
    pub parents: NodeMap<String>,
}

impl Default for NodeInput {
    fn default() -> (r: Self)
        ensures
            r.workflow_id@ == seq![0u8; 16],
            r.node_id@.len() == 0,
            r.payload@ == seq!['n', 'u', 'l', 'l'],
            r.parents.keys().len() == 0,
    {
        NodeInput {
            workflow_id: [0u8; 16],
            node_id: String::new(),
            payload: null_json(),
            parents: NodeMap::new(),
        }
    }
}

/// The JSON text `null`.
pub fn null_json() -> (r: String)
    ensures
        r@ == seq!['n', 'u', 'l', 'l'],
{
    let s = "null";
    proof {
        reveal_strlit("null");
    }
    String::from_str(s)
}

/// What a node produces.
pub struct NodeOutput {
    /// The output value (JSON text).
    pub value: String,
    pub gas_used: u64,
}

/// Execution context of one node run.
pub struct NodeContext {
    /// Time budget, in milliseconds.
    pub timeout: u64,
    pub max_retries: u32,
    pub trace_id: String,
}

impl Default for NodeContext {
    /// Thirty seconds, three retries and a fresh random trace id (a
    /// hyphenated version-4 UUID).
    fn default() -> (r: Self)
        ensures
            r.timeout == 30_000,
            r.max_retries == 3,
            exists|b: Seq<u8>| b.len() == 16 && r.trace_id@ == uuid_text(b) && b[6] >> 4u8 == 4u8,
    {
        let b = new_v4_bytes();
        NodeContext { timeout: 30_000, max_retries: 3, trace_id: uuid_hyphenated(&b) }
    }
}

} // verus!
