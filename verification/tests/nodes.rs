use kernelflow::error::KernelError;
use kernelflow::hash::hash_json_text;
use kernelflow::nodes::{assignable, url_host_of, ConstantNode, HttpFetchNode, NodeRegistry, Sha256Node, TypeSig};

#[test]
fn stdlib_loads_and_validates() {
    let r = NodeRegistry::with_stdlib();
    assert!(r.describe("median").is_some());
    // median outputs Number; threshold expects Number.
    r.validate_edge("median", "threshold").unwrap();
}

#[test]
fn type_mismatch_caught_at_composition() {
    let r = NodeRegistry::with_stdlib();
    // sha256 outputs String; median expects Number.
    let err = r.validate_edge("sha256", "median").unwrap_err();
    assert!(matches!(err, KernelError::InvalidInput(_)));
}

#[test]
fn mismatch_message_names_both_sides() {
    let r = NodeRegistry::with_stdlib();
    match r.validate_edge("sha256", "median") {
        Err(KernelError::InvalidInput(m)) => assert_eq!(m, "type mismatch: sha256: String \u{2192} median: Number"),
        _ => panic!("expected a type mismatch"),
    }
    match r.validate_edge("nope", "median") {
        Err(KernelError::NodeNotFound(m)) => assert_eq!(m, "nope"),
        _ => panic!("expected NodeNotFound"),
    }
    match r.validate_edge("median", "nope") {
        Err(KernelError::NodeNotFound(m)) => assert_eq!(m, "nope"),
        _ => panic!("expected NodeNotFound"),
    }
    r.validate_edge("constant", "median").unwrap();
    r.validate_edge("median", "sha256").unwrap();
}

#[test]
fn stdlib_kinds_in_registration_order() {
    let r = NodeRegistry::with_stdlib();
    assert_eq!(r.kinds(), vec!["constant", "sha256", "http_fetch", "median", "threshold"]);
    assert_eq!(r.describe("http_fetch").unwrap().requirements.capabilities.len(), 1);
}

#[test]
fn json_is_universal_and_shapes_must_match() {
    assert!(assignable(&TypeSig::Json, &TypeSig::Number));
    assert!(assignable(&TypeSig::Bytes, &TypeSig::Json));
    assert!(assignable(&TypeSig::Array(Box::new(TypeSig::Number)), &TypeSig::Array(Box::new(TypeSig::Number))));
    assert!(!assignable(&TypeSig::Array(Box::new(TypeSig::Number)), &TypeSig::Array(Box::new(TypeSig::String))));
    assert!(!assignable(&TypeSig::Object, &TypeSig::Boolean));
    assert_eq!(TypeSig::Array(Box::new(TypeSig::Object)).debug_string(), "Array(Object)");
}

#[test]
fn http_allowlist_matches_hosts() {
    let open = HttpFetchNode::new("https://example.com/x", vec![]);
    assert!(open.allowed("https://anything"));
    assert_eq!(open.timeout, 10_000);
    let n = HttpFetchNode::new("https://api.example.com/price", vec!["api.example.com".to_string(), "other.org".to_string()]);
    assert!(n.allowed("https://api.example.com/price"));
    assert!(n.allowed("https://user:pw@api.example.com:8443/x?y=1"));
    assert!(n.allowed("other.org/path"));
    assert!(!n.allowed("https://evil.io/?q=api.example.com"));
    assert!(!n.allowed("https://api.example.com.evil.io/"));
    assert!(!n.allowed("https://example.com/"));
    assert!(n.check_allowed().is_ok());
    let v6 = HttpFetchNode::new("http://[::1]:8080/", vec!["[::1]".to_string()]);
    assert!(v6.check_allowed().is_ok());
    assert_eq!(url_host_of("https://a@b.c:1/d#e"), "b.c");
    let bad = HttpFetchNode::new("https://evil.net/?h=example.com", vec!["example.com".to_string()]);
    match bad.check_allowed() {
        Err(KernelError::InvalidInput(m)) => assert_eq!(m, "host not in allowlist: https://evil.net/?h=example.com"),
        _ => panic!("expected refusal"),
    }
}

#[test]
fn node_outputs() {
    let c = ConstantNode::new("[1,2]".to_string());
    let o = c.output();
    assert_eq!((o.value.as_str(), o.gas_used), ("[1,2]", 1));
    let h = HttpFetchNode::new("https://api.example.com/", vec![]);
    let j = h.output_of_body(r#"{ "b": 1, "a": [ true ] }"#);
    assert_eq!((j.value.as_str(), j.gas_used), (r#"{"a":[true],"b":1}"#, 50));
    let t = h.output_of_body("plain \"text\"");
    assert_eq!(t.value, r#""plain \"text\"""#);
    let s = Sha256Node.output_of(r#"{"b":1,"a":2}"#).unwrap();
    assert_eq!(s.gas_used, 5);
    assert_eq!(s.value, format!("\"{}\"", hash_json_text(r#"{"a":2,"b":1}"#).unwrap()));
    assert!(Sha256Node.output_of("nope").is_err());
}

#[test]
fn stdlib_requirements() {
    let r = NodeRegistry::with_stdlib();
    for k in ["constant", "sha256", "http_fetch", "median", "threshold"] {
        let d = r.describe(k).unwrap();
        assert_eq!((d.requirements.cpu_cores, d.requirements.ram_mb, d.requirements.gpu_vram_mb), (0, 0, 0));
        assert_eq!(d.requirements.capabilities.len(), if k == "http_fetch" { 1 } else { 0 });
    }
}

#[test]
fn floats_survive_reserialization() {
    let h = HttpFetchNode::new("https://api.example.com/", vec![]);
    for body in ["1.0000000000000002", "0.30000000000000004", "1.7976931348623157e308", "5e-324"] {
        let once = h.output_of_body(body).value;
        assert_eq!(h.output_of_body(&once).value, once);
        assert_eq!(hash_json_text(body).unwrap(), hash_json_text(&once).unwrap());
    }
}
