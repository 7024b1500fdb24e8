use kernelflow::ai::{MockLlm, OpenAiCompat};
use kernelflow::api::QueryRoot;
use kernelflow::node::{NodeContext, NodeInput};
use kernelflow::onchain::{submit_attestation, AttestationRecord};
use kernelflow::sandbox::{add_arguments, fuel_used};
use kernelflow::storage::{shard_for_key, shard_index, Cf};
use std::hash::{Hash, Hasher};

#[test]
fn column_family_names() {
    assert_eq!(Cf::Events.as_str(), "events");
    assert_eq!(Cf::State.as_str(), "state");
    assert_eq!(Cf::Attestations.as_str(), "attestations");
}

#[test]
fn shard_routing_is_modulo() {
    assert_eq!(shard_index(10, 4), 2);
    assert_eq!(shard_index(3, 1), 0);
    assert!(shard_for_key(b"workflow-1", 3) < 3);
    assert_eq!(shard_for_key(b"k", 5), shard_for_key(b"k", 5));
}

#[test]
fn node_defaults() {
    let c = NodeContext::default();
    assert_eq!(c.timeout, 30_000);
    assert_eq!(c.max_retries, 3);
    assert_eq!(c.trace_id.len(), 36);
    assert_eq!(c.trace_id.as_bytes()[14], b'4');
    let i = NodeInput::default();
    assert_eq!(i.payload, "null");
    assert_eq!(i.workflow_id, [0u8; 16]);
}

#[test]
fn provider_urls_and_mock() {
    let p = OpenAiCompat { base_url: "https://api.openai.com/v1".into(), api_key: "k".into(), model: "m".into() };
    assert_eq!(p.chat_url(), "https://api.openai.com/v1/chat/completions");
    assert_eq!(MockLlm("[]".into()).complete("sys", "goal"), "[]");
    assert_eq!(QueryRoot.health(), "ok");
}

#[test]
fn onchain_record_and_event_agree() {
    let mut rec = AttestationRecord { workflow_id: [0; 16], output_hash: [0; 32], signer: [0; 32], timestamp: 0 };
    let ev = submit_attestation(&mut rec, [1; 16], [2; 32], [3; 32], 99);
    assert_eq!(rec.workflow_id, [1; 16]);
    assert_eq!(ev.output_hash, [2; 32]);
    assert_eq!(ev.signer, rec.signer);
    assert_eq!(ev.timestamp, 99);
}

#[test]
fn shard_for_key_routes_by_default_hasher() {
    let key: &[u8] = b"workflow-42";
    let mut h = std::collections::hash_map::DefaultHasher::new();
    key.hash(&mut h);
    let expected = (h.finish() as usize) % 7;
    assert_eq!(shard_for_key(key, 7), expected);
    assert_eq!(shard_for_key(key, 7), shard_index(h.finish(), 7));
}

#[test]
fn wasm_arguments_and_fuel() {
    assert_eq!(add_arguments(r#"{"a": 7, "b": 4294967297}"#), (7, 1));
    assert_eq!(add_arguments(r#"{"a": -3}"#), (-3, 0));
    assert_eq!(add_arguments("not json"), (0, 0));
    assert_eq!(add_arguments(r#"{"a": 1.5, "b": "2"}"#), (0, 0));
    assert_eq!(fuel_used(100, Some(30), 0), 70);
    assert_eq!(fuel_used(100, None, 0), 100);
    assert_eq!(fuel_used(100, None, 100), 0);
    assert_eq!(fuel_used(10, Some(30), 0), 0);
}
