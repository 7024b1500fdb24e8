use kernelflow::dag::{DagBuilder, EdgeCondition};
use kernelflow::error::KernelError;
use kernelflow::scheduler::{RunState, SchedulerConfig};

#[test]
fn run_unlocks_children_when_all_parents_complete() {
    let dag = DagBuilder::<u32>::new("eth")
        .node("p1", 0).node("p2", 0).node("median", 0).node("threshold", 0)
        .edge("p1", "median", EdgeCondition::Always)
        .edge("p2", "median", EdgeCondition::Always)
        .edge("median", "threshold", EdgeCondition::Always)
        .build().unwrap();
    let mut run = RunState::new(&dag);
    let first = run.take_ready(&dag);
    let ids: Vec<String> = first.iter().map(|i| i.node_id.clone()).collect();
    assert_eq!(ids, vec!["p1", "p2"]);
    assert_eq!(first[0].payload, "null");
    assert_eq!(first[0].parents.len(), 0);
    assert_eq!(first[0].workflow_id, dag.id);
    assert!(run.is_in_flight(&dag, "p1"));
    assert!(!run.is_in_flight(&dag, "median"));
    run.complete(&dag, "p1", "2980.0".to_string());
    // median still waits for p2
    assert!(run.take_ready(&dag).is_empty());
    run.complete(&dag, "p2", "3050.5".to_string());
    let second = run.take_ready(&dag);
    assert_eq!(second.len(), 1);
    assert_eq!(second[0].node_id, "median");
    assert_eq!(second[0].parents.len(), 2);
    assert_eq!(second[0].parents.get("p1").unwrap(), "2980.0");
    assert_eq!(second[0].parents.get("p2").unwrap(), "3050.5");
    assert!(matches!(run.finish(&dag), Err(KernelError::InvalidInput(_))));
    run.complete(&dag, "median", "3015.25".to_string());
    let third = run.take_ready(&dag);
    assert_eq!(third.len(), 1);
    assert_eq!(third[0].parents.get("median").unwrap(), "3015.25");
    run.complete(&dag, "threshold", r#"{"ok":true,"value":3015.25}"#.to_string());
    assert!(run.take_ready(&dag).is_empty());
    assert!(run.finish(&dag).is_ok());
    let outs = run.completed_outputs(&dag);
    assert_eq!(outs.len(), 4);
    assert_eq!(outs.get("threshold").unwrap(), r#"{"ok":true,"value":3015.25}"#);
}

#[test]
fn false_condition_leaves_child_unreached() {
    let dag = DagBuilder::<u32>::new("cond")
        .node("validate", 0).node("attest", 0).node("notify", 0)
        .edge("validate", "attest", EdgeCondition::JsonEq { pointer: "/ok".into(), value: "true".into() })
        .edge("validate", "notify", EdgeCondition::Always)
        .build().unwrap();
    let mut run = RunState::new(&dag);
    assert_eq!(run.take_ready(&dag).len(), 1);
    run.complete(&dag, "validate", r#"{"ok": false}"#.to_string());
    let next = run.take_ready(&dag);
    assert_eq!(next.len(), 1);
    assert_eq!(next[0].node_id, "notify");
    run.complete(&dag, "notify", "null".to_string());
    assert!(run.take_ready(&dag).is_empty());
    match run.finish(&dag) {
        Err(KernelError::InvalidInput(m)) => assert_eq!(m, "not all nodes were reached"),
        _ => panic!("expected an unreached node"),
    }
}

#[test]
fn true_condition_fires_edge() {
    let dag = DagBuilder::<u32>::new("cond")
        .node("validate", 0).node("attest", 0)
        .edge("validate", "attest", EdgeCondition::JsonEq { pointer: "/ok".into(), value: "true".into() })
        .build().unwrap();
    let mut run = RunState::new(&dag);
    run.take_ready(&dag);
    run.complete(&dag, "validate", r#"{"ok": true}"#.to_string());
    assert_eq!(run.take_ready(&dag)[0].node_id, "attest");
}

#[test]
fn scheduler_config_defaults() {
    let c = SchedulerConfig::default();
    assert_eq!(c.event_buffer, 1024);
    assert_eq!(c.resilience.max_retries, 3);
}
