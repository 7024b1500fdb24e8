use kernelflow::dag::{DagBuilder, EdgeCondition};
use kernelflow::error::KernelError;

#[test]
fn topo_orders_simple_chain() {
    let dag = DagBuilder::<u32>::new("t")
        .node("a", 1).node("b", 2).node("c", 3)
        .edge("a", "b", EdgeCondition::Always)
        .edge("b", "c", EdgeCondition::Always)
        .build().unwrap();
    assert_eq!(dag.topo_sort().unwrap(), vec!["a", "b", "c"]);
}

#[test]
fn cycle_is_rejected() {
    let r = DagBuilder::<u32>::new("t")
        .node("a", 1).node("b", 2)
        .edge("a", "b", EdgeCondition::Always)
        .edge("b", "a", EdgeCondition::Always)
        .build();
    assert!(matches!(r, Err(KernelError::CycleDetected)));
}

#[test]
fn condition_json_eq() {
    let c = EdgeCondition::JsonEq { pointer: "/ok".into(), value: "true".into() };
    assert!(c.evaluate(r#"{ "ok": true }"#));
    assert!(!c.evaluate(r#"{ "ok": false }"#));
}

#[test]
fn end_to_end_dag_topology() {
    // ingest -> validate -> [attest, notify]
    let dag = DagBuilder::<&'static str>::new("e2e")
        .node("ingest", "wasm:ingest")
        .node("validate", "wasm:validate")
        .node("attest", "native:attest")
        .node("notify", "native:notify")
        .edge("ingest", "validate", EdgeCondition::Always)
        .edge("validate", "attest", EdgeCondition::JsonEq { pointer: "/ok".into(), value: "true".into() })
        .edge("validate", "notify", EdgeCondition::Always)
        .build()
        .expect("valid DAG");

    let order = dag.topo_sort().unwrap();
    assert_eq!(order[0], "ingest");
    assert_eq!(order[1], "validate");
    assert!(order[2..].contains(&"attest".to_string()));
    assert!(order[2..].contains(&"notify".to_string()));
}

#[test]
fn dangling_edge_reports_first_missing_endpoint() {
    let r = DagBuilder::<u32>::new("t")
        .node("a", 1)
        .edge("a", "a2", EdgeCondition::Always)
        .edge("zz", "a", EdgeCondition::Always)
        .build();
    match r {
        Err(KernelError::NodeNotFound(n)) => assert_eq!(n, "a2"),
        _ => panic!("expected NodeNotFound"),
    }
    let r = DagBuilder::<u32>::new("t")
        .node("a", 1)
        .edge("x", "y", EdgeCondition::Always)
        .build();
    match r {
        Err(KernelError::NodeNotFound(n)) => assert_eq!(n, "x"),
        _ => panic!("expected NodeNotFound"),
    }
}

#[test]
fn self_loop_is_a_cycle() {
    let r = DagBuilder::<u32>::new("t").node("a", 1).edge("a", "a", EdgeCondition::Always).build();
    assert!(matches!(r, Err(KernelError::CycleDetected)));
}

#[test]
fn topo_sort_takes_ready_nodes_in_id_order() {
    let dag = DagBuilder::<u32>::new("diamond")
        .node("d", 4).node("c", 3).node("b", 2).node("a", 1)
        .edge("a", "c", EdgeCondition::Always)
        .edge("a", "b", EdgeCondition::Always)
        .edge("b", "d", EdgeCondition::Always)
        .edge("c", "d", EdgeCondition::Always)
        .build().unwrap();
    assert_eq!(dag.topo_sort().unwrap(), vec!["a", "c", "b", "d"]);
    assert_eq!(dag.name, "diamond");
    assert_eq!(dag.nodes.len(), 4);
    assert_eq!(dag.nodes.key_at(0), "a");
    assert_eq!(dag.nodes.get("c"), Some(&3));
    assert_eq!(dag.parents(&"d".to_string()).len(), 2);
    assert_eq!(dag.children(&"a".to_string()).len(), 2);
    assert_eq!(dag.children(&"a".to_string())[0].to, "c");
    // version 4 identifier
    assert_eq!(dag.id[6] >> 4, 4);
}

#[test]
fn node_replaces_payload_of_same_id() {
    let dag = DagBuilder::<u32>::new("t").node("a", 1).node("a", 7).build().unwrap();
    assert_eq!(dag.nodes.len(), 1);
    assert_eq!(dag.nodes.get("a"), Some(&7));
    assert_eq!(dag.topo_sort().unwrap(), vec!["a"]);
}

#[test]
fn condition_json_eq_nested_pointer() {
    let c = EdgeCondition::JsonEq { pointer: "/result/ok".into(), value: "1".into() };
    assert!(c.evaluate(r#"{"result": {"ok": 1}}"#));
    assert!(!c.evaluate(r#"{"result": {"ok": 2}}"#));
    assert!(!c.evaluate(r#"{"result": 1}"#));
    assert!(!c.evaluate("not json"));
    assert!(EdgeCondition::Always.evaluate("not json"));
}

#[test]
fn topo_sort_is_first_come_first_served_after_the_sources() {
    let dag = DagBuilder::new("fifo")
        .node("a", ())
        .node("b", ())
        .node("c", ())
        .node("d", ())
        .node("e", ())
        .edge("b", "d", EdgeCondition::Always)
        .edge("a", "e", EdgeCondition::Always)
        .edge("c", "d", EdgeCondition::Always)
        .build()
        .unwrap();
    assert_eq!(dag.topo_sort().unwrap(), vec!["a", "b", "c", "e", "d"]);
}
