//! Signed attestations of a workflow's deterministic output hash, and the
//! decision a submitter takes on the chain's reply.

use vstd::prelude::*;
use crate::dag::WorkflowId;
use crate::error::{KernelError, KernelResult};
use crate::outside::{
    ed25519_public, ed25519_public_key, ed25519_sign, ed25519_signature, hex_encode, hex_lower, lemma_hex_len,
    os_random_secret, utc_now_millis, uuid_hyphenated, uuid_text,
};

verus! {

/// A signed statement that workflow `workflow_id` produced `output_hash`.
pub struct Attestation {
    pub workflow_id: WorkflowId,
    pub output_hash: String,
    pub signer_pubkey_hex: String,
    pub signature_hex: String,
    /// Signing time, milliseconds since the Unix epoch (UTC).
    pub timestamp: i64,
}

/// The text that is signed: the hyphenated workflow id, `|`, the output hash.
pub open spec fn attestation_message(workflow_id: Seq<u8>, output_hash: Seq<char>) -> Seq<char> {
    uuid_text(workflow_id) + "|"@ + output_hash
}

/// Holds an Ed25519 secret key.
pub struct Attestor {
    key: [u8; 32],
}

impl Attestor {
    /// The secret key bytes.
    pub closed spec fn secret(&self) -> Seq<u8> {
        self.key@
    }

    /// An attestor with a fresh random key.
    pub fn random() -> (r: Self) {
        Attestor { key: os_random_secret() }
    }

    /// An attestor with the given secret key.
    pub fn from_secret(secret: [u8; 32]) -> (r: Self)
        ensures
            r.secret() == secret@,
    {
        Attestor { key: secret }
    }

    /// The public key bytes.
    pub fn pubkey(&self) -> (r: [u8; 32])
        ensures
            r@ == ed25519_public_key(self.secret()),
    {
        ed25519_public(&self.key)
    }

    /// Sign `"{workflow_id}|{output_hash}"` and record the public key, the
    /// signature (both lower-case hex) and the current time.
    pub fn sign(&self, workflow_id: WorkflowId, output_hash: String) -> (r: Attestation)
        ensures
            r.workflow_id == workflow_id,
            r.output_hash == output_hash,
            r.signer_pubkey_hex@ == hex_lower(ed25519_public_key(self.secret())),
            r.signature_hex@ == hex_lower(ed25519_signature(self.secret(), attestation_message(workflow_id@, output_hash@))),
            r.signer_pubkey_hex@.len() == 64,
            r.signature_hex@.len() == 128,
    {
        let mut msg = uuid_hyphenated(&workflow_id);
        msg.append("|");
        msg.append(output_hash.as_str());
        let sig = ed25519_sign(&self.key, msg.as_str());
        let pk = self.pubkey();
        proof {
            lemma_hex_len(pk@);
            lemma_hex_len(sig@);
        }
        Attestation {
            workflow_id,
            output_hash,
            signer_pubkey_hex: hex_encode(&pk),
            signature_hex: hex_encode(&sig),
            timestamp: utc_now_millis(),
        }
    }
}

/// Submits attestations to a Solana RPC endpoint.
pub struct SolanaAttestor {
    pub rpc_url: String,
}

impl SolanaAttestor {
    /// The outcome of a submission given the RPC reply: an unsuccessful
    /// status gives an `Attestation` error naming it, a successful one the
    /// transaction id `simulated-tx-for-{output_hash}`.
    pub fn receipt(&self, status_ok: bool, status: &str, att: &Attestation) -> (r: KernelResult<String>)
        ensures
            status_ok ==> (r matches Ok(tx) && tx@ == "simulated-tx-for-"@ + att.output_hash@),
            !status_ok ==> (r matches Err(KernelError::Attestation(m)) && m@ == "rpc "@ + status@),
    {
        if !status_ok {
            let mut m = String::from_str("rpc ");
            m.append(status);
            return Err(KernelError::Attestation(m));
        }
        let mut tx = String::from_str("simulated-tx-for-");
        tx.append(att.output_hash.as_str());
        Ok(tx)
    }
}

} // verus!
