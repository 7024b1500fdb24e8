//! The on-chain attestation record and the event that announces it.

use vstd::prelude::*;

verus! {

/// Stored `(workflow_id, output_hash, signer)` attestation.
pub struct AttestationRecord {
    pub workflow_id: [u8; 16],
    pub output_hash: [u8; 32],
    /// The signer's public key.
    pub signer: [u8; 32],
    /// Unix time of the block that stored it, in seconds.
    pub timestamp: i64,
}

/// Emitted when an attestation is stored.
pub struct AttestationStored {
    pub workflow_id: [u8; 16],
    pub output_hash: [u8; 32],
    pub signer: [u8; 32],
    pub timestamp: i64,
}

/// Fill `record` with the attestation and return the event announcing it,
/// which carries the same fields.
pub fn submit_attestation(
    record: &mut AttestationRecord,
    workflow_id: [u8; 16],
    output_hash: [u8; 32],
    signer: [u8; 32],
    timestamp: i64,
) -> (r: AttestationStored)
    ensures
        final(record).workflow_id == workflow_id,
        final(record).output_hash == output_hash,
        final(record).signer == signer,
        final(record).timestamp == timestamp,
        r.workflow_id == workflow_id,
        r.output_hash == output_hash,
        r.signer == signer,
        r.timestamp == timestamp,
{
    record.workflow_id = workflow_id;
    record.output_hash = output_hash;
    record.signer = signer;
    record.timestamp = timestamp;
    AttestationStored { workflow_id, output_hash, signer: record.signer, timestamp: record.timestamp }
}

} // verus!
