use kernelflow::capability::{Capability, ResourceCapacity, ResourceRequirements};

#[test]
fn satisfies_matches_capabilities_and_resources() {
    let cap = ResourceCapacity {
        cpu_cores: 8,
        ram_mb: 32_000,
        gpu_vram_mb: 24_000,
        capabilities: vec![Capability::GpuProver { vram_mb: 24_000 }, Capability::HttpEgress],
    };
    let req = ResourceRequirements {
        cpu_cores: 4,
        ram_mb: 8_000,
        gpu_vram_mb: 16_000,
        capabilities: vec![Capability::HttpEgress],
    };
    assert!(cap.satisfies(&req));

    let too_much = ResourceRequirements { cpu_cores: 16, ..req.clone() };
    assert!(!cap.satisfies(&too_much));
}

#[test]
fn satisfies_requires_every_capability() {
    let cap = ResourceCapacity {
        cpu_cores: 1,
        ram_mb: 1,
        gpu_vram_mb: 0,
        capabilities: vec![Capability::Custom("tpu".to_string()), Capability::GpuProver { vram_mb: 8 }],
    };
    let custom = ResourceRequirements {
        capabilities: vec![Capability::Custom("tpu".to_string())],
        ..Default::default()
    };
    assert!(cap.satisfies(&custom));
    let other_custom = ResourceRequirements {
        capabilities: vec![Capability::Custom("tpv".to_string())],
        ..Default::default()
    };
    assert!(!cap.satisfies(&other_custom));
    let other_vram = ResourceRequirements {
        capabilities: vec![Capability::GpuProver { vram_mb: 16 }],
        ..Default::default()
    };
    assert!(!cap.satisfies(&other_vram));
    let ram = ResourceRequirements { ram_mb: 2, ..Default::default() };
    assert!(!cap.satisfies(&ram));
    let vram = ResourceRequirements { gpu_vram_mb: 1, ..Default::default() };
    assert!(!cap.satisfies(&vram));
    assert!(cap.satisfies(&ResourceRequirements::default()));
}

#[test]
fn capability_equality_compares_tags() {
    assert!(Capability::Custom("a".to_string()).same_as(&Capability::Custom("a".to_string())));
    assert!(!Capability::Custom("a".to_string()).same_as(&Capability::Custom("b".to_string())));
    assert!(!Capability::WasmHost.same_as(&Capability::OnchainRpc));
    assert!(Capability::GpuProver { vram_mb: 3 }.same_as(&Capability::GpuProver { vram_mb: 3 }));
}
