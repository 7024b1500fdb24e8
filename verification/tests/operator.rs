use kernelflow::capability::{Capability, ResourceCapacity, ResourceRequirements};
use kernelflow::error::KernelError;
use kernelflow::operator::{DelegationOutcome, Operator, OperatorRegistry, INITIAL_REPUTATION_BITS};

fn cap(caps: Vec<Capability>, vram: u32) -> ResourceCapacity {
    ResourceCapacity { cpu_cores: 8, ram_mb: 32_000, gpu_vram_mb: vram, capabilities: caps }
}

#[test]
fn reservation_blocks_doublebooking() {
    let mut reg = OperatorRegistry::new();
    reg.register(Operator::new("solo", cap(vec![Capability::GenericCpu], 0)));
    let req = ResourceRequirements {
        cpu_cores: 8,
        capabilities: vec![Capability::GenericCpu],
        ..Default::default()
    };
    reg.reserve("solo", &req).unwrap();
    // 2nd reservation can't fit.
    assert!(matches!(reg.reserve("solo", &req), Err(KernelError::RateLimited)));
    reg.release("solo", &req);
    reg.reserve("solo", &req).unwrap();
}

#[test]
fn reserve_unknown_operator_is_not_found() {
    let mut reg = OperatorRegistry::new();
    match reg.reserve("ghost", &ResourceRequirements::default()) {
        Err(KernelError::NodeNotFound(id)) => assert_eq!(id, "ghost"),
        _ => panic!("expected NodeNotFound"),
    }
}

#[test]
fn release_undoes_reserve_and_floors_at_zero() {
    let mut reg = OperatorRegistry::new();
    reg.register(Operator::new("a", cap(vec![], 100)));
    let req = ResourceRequirements { cpu_cores: 3, ram_mb: 1000, gpu_vram_mb: 40, capabilities: vec![] };
    reg.reserve("a", &req).unwrap();
    let snap = reg.snapshot();
    assert_eq!(snap[0].in_flight.cpu_cores, 3);
    assert_eq!(snap[0].free().gpu_vram_mb, 60);
    reg.release("a", &req);
    let snap = reg.snapshot();
    assert_eq!(snap[0].in_flight.cpu_cores, 0);
    assert_eq!(snap[0].in_flight.ram_mb, 0);
    reg.release("a", &req);
    assert_eq!(reg.snapshot()[0].in_flight.gpu_vram_mb, 0);
}

#[test]
fn register_replaces_and_deregister_removes() {
    let mut reg = OperatorRegistry::new();
    reg.register(Operator::new("a", cap(vec![], 0)));
    reg.register(Operator::new("b", cap(vec![], 0)));
    reg.register(Operator::new("a", cap(vec![], 5)));
    let snap = reg.snapshot();
    assert_eq!(snap.len(), 2);
    assert_eq!(snap[0].total.gpu_vram_mb, 5);
    assert_eq!(snap[0].reputation_bits, INITIAL_REPUTATION_BITS);
    assert_eq!(f64::from_bits(INITIAL_REPUTATION_BITS), 0.5);
    let gone = reg.deregister("a").unwrap();
    assert_eq!(gone.id, "a");
    assert!(reg.deregister("a").is_none());
    assert_eq!(reg.snapshot().len(), 1);
}

#[test]
fn eligible_lists_operators_with_room_and_capabilities() {
    let mut reg = OperatorRegistry::new();
    reg.register(Operator::new("cpu", cap(vec![Capability::GenericCpu], 0)));
    reg.register(Operator::new("gpu1", cap(vec![Capability::GpuProver { vram_mb: 24_000 }], 24_000)));
    reg.register(Operator::new("gpu2", cap(vec![Capability::GpuProver { vram_mb: 24_000 }], 24_000)));
    let req = ResourceRequirements {
        gpu_vram_mb: 16_000,
        capabilities: vec![Capability::GpuProver { vram_mb: 24_000 }],
        ..Default::default()
    };
    assert_eq!(reg.eligible(&req), vec![1, 2]);
    reg.reserve("gpu1", &req).unwrap();
    assert_eq!(reg.eligible(&req), vec![2]);
}

#[test]
fn only_success_counts_toward_reputation() {
    assert_eq!(DelegationOutcome::Success.reputation_sample(), 1);
    assert_eq!(DelegationOutcome::Failure("x".into()).reputation_sample(), 0);
    assert_eq!(DelegationOutcome::Timeout.reputation_sample(), 0);
    assert_eq!(DelegationOutcome::OperatorDisconnect.reputation_sample(), 0);
}
