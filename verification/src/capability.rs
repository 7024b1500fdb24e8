//! Capabilities and resource accounting: workflows declare what they need,
//! operators advertise what they offer, and a capacity satisfies a
//! requirement when every resource suffices and every requested capability is
//! offered.

use vstd::prelude::*;

verus! {

/// Coarse-grained capability tag used to filter operators before the
/// finer-grained resource comparison.
#[derive(Debug)]
#[non_exhaustive]
pub enum Capability {
    /// Generic CPU compute (no special hardware).
    GenericCpu,
    /// WASM sandbox host.
    WasmHost,
    /// HTTP egress through the controlled network path.
    HttpEgress,
    /// On-chain RPC (signing / submission).
    OnchainRpc,
    /// GPU witness generation / circuit prover.
    GpuProver { vram_mb: u32 },
    /// Custom string tag for user extensions.
    Custom(String),
}

/// Mathematical value of a [`Capability`]: the custom tag is seen as its characters.
pub enum CapabilityView {
    GenericCpu,
    WasmHost,
    HttpEgress,
    OnchainRpc,
    GpuProver { vram_mb: u32 },
    Custom(Seq<char>),
}

impl View for Capability {
    type V = CapabilityView;

    open spec fn view(&self) -> CapabilityView {
        match self {
            Capability::GenericCpu => CapabilityView::GenericCpu,
            Capability::WasmHost => CapabilityView::WasmHost,
            Capability::HttpEgress => CapabilityView::HttpEgress,
            Capability::OnchainRpc => CapabilityView::OnchainRpc,
            Capability::GpuProver { vram_mb } => CapabilityView::GpuProver { vram_mb: *vram_mb },
            Capability::Custom(s) => CapabilityView::Custom(s@),
        }
    }
}

impl Clone for Capability {
    fn clone(&self) -> (r: Self)
        ensures
            r@ == self@,
    {
        match self {
            Capability::GenericCpu => Capability::GenericCpu,
            Capability::WasmHost => Capability::WasmHost,
            Capability::HttpEgress => Capability::HttpEgress,
            Capability::OnchainRpc => Capability::OnchainRpc,
            Capability::GpuProver { vram_mb } => Capability::GpuProver { vram_mb: *vram_mb },
            Capability::Custom(s) => Capability::Custom(s.clone()),
        }
    }
}

impl Capability {
    /// Equality of capabilities: same variant, same GPU memory, same custom tag.
    pub fn same_as(&self, other: &Capability) -> (r: bool)
        ensures
            r == (self@ == other@),
    {
        match (self, other) {
            (Capability::GenericCpu, Capability::GenericCpu) => true,
            (Capability::WasmHost, Capability::WasmHost) => true,
            (Capability::HttpEgress, Capability::HttpEgress) => true,
            (Capability::OnchainRpc, Capability::OnchainRpc) => true,
            (Capability::GpuProver { vram_mb: a }, Capability::GpuProver { vram_mb: b }) => *a == *b,
            (Capability::Custom(a), Capability::Custom(b)) => crate::text::str_eq(a.as_str(), b.as_str()),
            _ => false,
        }
    }
}

/// The views of a list of capabilities.
pub open spec fn caps_view(caps: Seq<Capability>) -> Seq<CapabilityView> {
    caps.map_values(|c: Capability| c@)
}

/// What a workload asks for.
#[derive(Debug)]
pub struct ResourceRequirements {
    pub cpu_cores: u32,
    pub ram_mb: u32,
    pub gpu_vram_mb: u32,
    pub capabilities: Vec<Capability>,
}

/// What an operator offers.
#[derive(Debug)]
pub struct ResourceCapacity {
    pub cpu_cores: u32,
    pub ram_mb: u32,
    pub gpu_vram_mb: u32,
    pub capabilities: Vec<Capability>,
}

/// Every capability in `wanted` is offered in `offered`.
pub open spec fn caps_cover(offered: Seq<CapabilityView>, wanted: Seq<CapabilityView>) -> bool {
    forall|i: int| 0 <= i < wanted.len() ==> #[trigger] offered.contains(wanted[i])
}

/// `c` is the view of one of the `offered` capabilities.
pub open spec fn is_offered(offered: Seq<Capability>, c: CapabilityView) -> bool {
    exists|j: int| 0 <= j < offered.len() && offered[j]@ == c
}

/// Covering, on the capabilities themselves: every wanted capability equals
/// some offered one.
pub proof fn lemma_caps_cover_fields(offered: Seq<Capability>, wanted: Seq<Capability>)
    ensures
        caps_cover(caps_view(offered), caps_view(wanted)) <==> forall|i: int| 0 <= i < wanted.len() ==> #[trigger] is_offered(offered, wanted[i]@),
{
    if caps_cover(caps_view(offered), caps_view(wanted)) {
        assert forall|i: int| 0 <= i < wanted.len() implies #[trigger] is_offered(offered, wanted[i]@) by {
            assert(caps_view(wanted)[i] == wanted[i]@);
            assert(caps_view(offered).contains(caps_view(wanted)[i]));
            let j = choose|j: int| 0 <= j < caps_view(offered).len() && caps_view(offered)[j] == caps_view(wanted)[i];
            assert(offered[j]@ == wanted[i]@);
        }
    }
    if forall|i: int| 0 <= i < wanted.len() ==> #[trigger] is_offered(offered, wanted[i]@) {
        assert forall|i: int| 0 <= i < caps_view(wanted).len() implies #[trigger] caps_view(offered).contains(caps_view(wanted)[i]) by {
            assert(wanted[i]@ == wanted[i]@);
            assert(is_offered(offered, wanted[i]@));
            let j = choose|j: int| 0 <= j < offered.len() && offered[j]@ == wanted[i]@;
            assert(caps_view(offered)[j] == caps_view(wanted)[i]);
        }
    }
}

/// Satisfaction, on the fields: each requested amount is at most the
/// capacity's, and every requested capability is one the capacity offers.
pub proof fn lemma_satisfies_fields(cap: &ResourceCapacity, req: &ResourceRequirements)
    ensures
        spec_satisfies(cap, req) <==> {
            &&& req.cpu_cores <= cap.cpu_cores
            &&& req.ram_mb <= cap.ram_mb
            &&& req.gpu_vram_mb <= cap.gpu_vram_mb
            &&& forall|i: int| 0 <= i < req.capabilities@.len() ==> #[trigger] is_offered(cap.capabilities@, req.capabilities@[i]@)
        },
{
    lemma_caps_cover_fields(cap.capabilities@, req.capabilities@);
}

/// A capacity satisfies a requirement: enough of each resource, every
/// requested capability offered.
pub open spec fn spec_satisfies(cap: &ResourceCapacity, req: &ResourceRequirements) -> bool {
    &&& req.cpu_cores <= cap.cpu_cores
    &&& req.ram_mb <= cap.ram_mb
    &&& req.gpu_vram_mb <= cap.gpu_vram_mb
    &&& caps_cover(caps_view(cap.capabilities@), caps_view(req.capabilities@))
}

/// Copy of a capability list, element by element.
pub fn clone_caps(caps: &Vec<Capability>) -> (r: Vec<Capability>)
    ensures
        caps_view(r@) == caps_view(caps@),
{
    let mut r: Vec<Capability> = Vec::new();
    let mut i: usize = 0;
    while i < caps.len()
        invariant
            i <= caps.len(),
            r@.len() == i,
            forall|k: int| 0 <= k < i ==> r@[k]@ == caps@[k]@,
        decreases caps.len() - i,
    {
        r.push(caps[i].clone());
        i = i + 1;
    }
    assert(caps_view(r@) =~= caps_view(caps@));
    r
}

impl Clone for ResourceRequirements {
    fn clone(&self) -> (r: Self)
        ensures
            r.cpu_cores == self.cpu_cores,
            r.ram_mb == self.ram_mb,
            r.gpu_vram_mb == self.gpu_vram_mb,
            caps_view(r.capabilities@) == caps_view(self.capabilities@),
    {
        ResourceRequirements {
            cpu_cores: self.cpu_cores,
            ram_mb: self.ram_mb,
            gpu_vram_mb: self.gpu_vram_mb,
            capabilities: clone_caps(&self.capabilities),
        }
    }
}

impl Clone for ResourceCapacity {
    fn clone(&self) -> (r: Self)
        ensures
            r.cpu_cores == self.cpu_cores,
            r.ram_mb == self.ram_mb,
            r.gpu_vram_mb == self.gpu_vram_mb,
            caps_view(r.capabilities@) == caps_view(self.capabilities@),
    {
        ResourceCapacity {
            cpu_cores: self.cpu_cores,
            ram_mb: self.ram_mb,
            gpu_vram_mb: self.gpu_vram_mb,
            capabilities: clone_caps(&self.capabilities),
        }
    }
}

impl Default for ResourceRequirements {
    fn default() -> (r: Self)
        ensures
            r.cpu_cores == 0,
            r.ram_mb == 0,
            r.gpu_vram_mb == 0,
            r.capabilities@.len() == 0,
    {
        ResourceRequirements { cpu_cores: 0, ram_mb: 0, gpu_vram_mb: 0, capabilities: Vec::new() }
    }
}

impl Default for ResourceCapacity {
    fn default() -> (r: Self)
        ensures
            r.cpu_cores == 0,
            r.ram_mb == 0,
            r.gpu_vram_mb == 0,
            r.capabilities@.len() == 0,
    {
        ResourceCapacity { cpu_cores: 0, ram_mb: 0, gpu_vram_mb: 0, capabilities: Vec::new() }
    }
}

/// Is `c` among `caps`?
pub fn caps_contain(caps: &Vec<Capability>, c: &Capability) -> (r: bool)
    ensures
        r == caps_view(caps@).contains(c@),
{
    let mut i: usize = 0;
    while i < caps.len()
        invariant
            i <= caps.len(),
            forall|k: int| 0 <= k < i ==> caps@[k]@ != c@,
        decreases caps.len() - i,
    {
        if caps[i].same_as(c) {
            assert(caps_view(caps@)[i as int] == c@);
            return true;
        }
        i = i + 1;
    }
    proof {
        if caps_view(caps@).contains(c@) {
            let k = choose|k: int| 0 <= k < caps_view(caps@).len() && caps_view(caps@)[k] == c@;
            assert(caps@[k]@ == c@);
        }
    }
    false
}

impl ResourceCapacity {
    /// Does this capacity satisfy the requested requirements?
    pub fn satisfies(&self, req: &ResourceRequirements) -> (r: bool)
        ensures
            r == spec_satisfies(self, req),
            r <==> {
                &&& req.cpu_cores <= self.cpu_cores
                &&& req.ram_mb <= self.ram_mb
                &&& req.gpu_vram_mb <= self.gpu_vram_mb
                &&& forall|i: int| 0 <= i < req.capabilities@.len() ==> #[trigger] is_offered(self.capabilities@, req.capabilities@[i]@)
            },
    {
        proof {
            lemma_caps_cover_fields(self.capabilities@, req.capabilities@);
        }
        if self.cpu_cores < req.cpu_cores {
            return false;
        }
        if self.ram_mb < req.ram_mb {
            return false;
        }
        if self.gpu_vram_mb < req.gpu_vram_mb {
            return false;
        }
        let mut i: usize = 0;
        while i < req.capabilities.len()
            invariant
                i <= req.capabilities.len(),
                forall|k: int|
                    0 <= k < i ==> #[trigger] caps_view(self.capabilities@).contains(
                        caps_view(req.capabilities@)[k],
                    ),
            decreases req.capabilities.len() - i,
        {
            if !caps_contain(&self.capabilities, &req.capabilities[i]) {
                assert(caps_view(req.capabilities@)[i as int] == req.capabilities@[i as int]@);
                proof {
                    lemma_caps_cover_fields(self.capabilities@, req.capabilities@);
                }
                return false;
            }
            i = i + 1;
        }
        true
    }
}

/// In-memory reservation token: which operator holds which requirement.
#[derive(Debug)]
pub struct Reservation {
    pub op_id: String,
    pub req: ResourceRequirements,
}

} // verus!
