use ed25519_dalek::{Signature, VerifyingKey};
use kernelflow::attest::{Attestation, Attestor, SolanaAttestor};
use kernelflow::error::KernelError;
use kernelflow::hash::{attestation_hash, hash_json, hash_json_text};
use kernelflow::nodemap::NodeMap;

#[test]
fn determinism() {
    let a = hash_json_text(r#"{ "b": 1, "a": 2 }"#).unwrap();
    let b = hash_json_text(r#"{ "a": 2, "b": 1 }"#).unwrap();
    assert_eq!(a, b);
}

#[test]
fn hash_of_json_text_is_hash_of_sorted_compact_bytes() {
    let h = hash_json_text(r#"{ "z": [1, {"y": 2, "x": 3}], "a": null }"#).unwrap();
    assert_eq!(h, hash_json(br#"{"a":null,"z":[1,{"x":3,"y":2}]}"#));
    assert_ne!(h, hash_json_text(r#"{"a":null,"z":[1,{"x":3,"y":3}]}"#).unwrap());
    match hash_json_text("not json") {
        Err(KernelError::Serde(m)) => assert_eq!(m, "value is not valid JSON"),
        _ => panic!("expected a serde error"),
    }
}

#[test]
fn attestation_hash_is_hash_of_outputs_object() {
    let mut outs: NodeMap<String> = NodeMap::new();
    outs.insert("p2".to_string(), "3050.5".to_string());
    outs.insert("p1".to_string(), r#"{"ok": true, "value": 2}"#.to_string());
    outs.insert("q\"x".to_string(), "\"s\"".to_string());
    let h = attestation_hash(&outs).unwrap();
    assert_eq!(h, hash_json_text(r#"{"q\"x":"s","p1":{"value":2,"ok":true},"p2":3050.5}"#).unwrap());
    let mut bad: NodeMap<String> = NodeMap::new();
    bad.insert("a".to_string(), "{".to_string());
    assert!(matches!(attestation_hash(&bad), Err(KernelError::Serde(_))));
}

#[test]
fn hash_of_known_input() {
    assert_eq!(hash_json(b""), "e3b0c44298fc1c149afbf4c8996fb92427ae41e4649b934ca495991b7852b855");
    assert_eq!(hash_json(b"null").len(), 64);
    assert_ne!(hash_json(b"1"), hash_json(b"2"));
}

#[test]
fn sign_verify_roundtrip() {
    let a = Attestor::random();
    let att = a.sign([0u8; 16], "deadbeef".into());
    let pk = VerifyingKey::from_bytes(
        &<[u8; 32]>::try_from(hex::decode(att.signer_pubkey_hex.clone()).unwrap().as_slice()).unwrap(),
    )
    .unwrap();
    let sig = Signature::from_bytes(&<[u8; 64]>::try_from(hex::decode(att.signature_hex.clone()).unwrap().as_slice()).unwrap());
    let msg = format!("{}|{}", uuid::Uuid::from_bytes(att.workflow_id), att.output_hash);
    assert!(pk.verify_strict(msg.as_bytes(), &sig).is_ok());
}

#[test]
fn signatures_are_deterministic_for_a_key() {
    let a = Attestor::from_secret([7u8; 32]);
    let x = a.sign([1u8; 16], "abc".into());
    let y = a.sign([1u8; 16], "abc".into());
    assert_eq!(x.signature_hex, y.signature_hex);
    assert_eq!(x.signer_pubkey_hex, hex::encode(a.pubkey()));
    let z = a.sign([1u8; 16], "abd".into());
    assert_ne!(x.signature_hex, z.signature_hex);
    assert_eq!(x.signature_hex.len(), 128);
    assert_eq!(x.signer_pubkey_hex.len(), 64);
}

#[test]
fn submission_receipt() {
    let s = SolanaAttestor { rpc_url: "http://localhost:8899".into() };
    let att = Attestation {
        workflow_id: [0u8; 16],
        output_hash: "h1".into(),
        signer_pubkey_hex: String::new(),
        signature_hex: String::new(),
        timestamp: 0,
    };
    assert_eq!(s.receipt(true, "200 OK", &att).unwrap(), "simulated-tx-for-h1");
    match s.receipt(false, "503 Service Unavailable", &att) {
        Err(KernelError::Attestation(m)) => assert_eq!(m, "rpc 503 Service Unavailable"),
        _ => panic!("expected an attestation error"),
    }
}
