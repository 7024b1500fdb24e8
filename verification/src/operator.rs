//! Operators, their free capacity, and the registry that reserves and
//! releases capacity for delegated work.

use vstd::prelude::*;
use crate::capability::{Capability, ResourceCapacity, ResourceRequirements, caps_view, clone_caps, spec_satisfies, is_offered};
use crate::dag::WorkflowId;
use crate::error::{KernelError, KernelResult};
use crate::text::str_eq;

verus! {

pub type OperatorId = String;

/// A delegation identifier: the sixteen bytes of a UUID.
pub type DelegationId = WorkflowId;

/// The IEEE-754 bits of the reputation every new operator starts with (0.5).
pub const INITIAL_REPUTATION_BITS: u64 = 0x3FE0_0000_0000_0000u64;

/// A compute provider: its total capacity, the capacity currently committed,
/// and its reputation (kept as the bits of a number in `[0, 1]`, an
/// exponentially weighted average of recent outcomes).
pub struct Operator {
    pub id: OperatorId,
    pub total: ResourceCapacity,
    pub in_flight: ResourceCapacity,
    pub reputation_bits: u64,
}

/// `a - b`, or zero when `b` exceeds `a`.
pub open spec fn sat_sub(a: u32, b: u32) -> u32 {
    if a >= b { (a - b) as u32 } else { 0 }
}

/// `in_flight` stays within `total` on every resource.
pub open spec fn within_capacity(op: &Operator) -> bool {
    &&& op.in_flight.cpu_cores <= op.total.cpu_cores
    &&& op.in_flight.ram_mb <= op.total.ram_mb
    &&& op.in_flight.gpu_vram_mb <= op.total.gpu_vram_mb
}

/// The operator can take `req` on top of what it has committed: its free
/// capacity (total minus committed, per resource, floored at zero, with all
/// its capabilities) satisfies the requirement.
pub open spec fn spec_can_take(op: &Operator, req: &ResourceRequirements) -> bool {
    &&& req.cpu_cores <= sat_sub(op.total.cpu_cores, op.in_flight.cpu_cores)
    &&& req.ram_mb <= sat_sub(op.total.ram_mb, op.in_flight.ram_mb)
    &&& req.gpu_vram_mb <= sat_sub(op.total.gpu_vram_mb, op.in_flight.gpu_vram_mb)
    &&& crate::capability::caps_cover(caps_view(op.total.capabilities@), caps_view(req.capabilities@))
}

/// The committed resources after reserving `req`.
pub open spec fn reserved_counts(op: &Operator, req: &ResourceRequirements) -> (int, int, int) {
    (op.in_flight.cpu_cores + req.cpu_cores, op.in_flight.ram_mb + req.ram_mb, op.in_flight.gpu_vram_mb + req.gpu_vram_mb)
}

/// The committed resources after releasing `req` (floored at zero).
pub open spec fn released_counts(op: &Operator, req: &ResourceRequirements) -> (int, int, int) {
    (
        sat_sub(op.in_flight.cpu_cores, req.cpu_cores) as int,
        sat_sub(op.in_flight.ram_mb, req.ram_mb) as int,
        sat_sub(op.in_flight.gpu_vram_mb, req.gpu_vram_mb) as int,
    )
}

/// The committed counts of an operator.
pub open spec fn counts(op: &Operator) -> (int, int, int) {
    (op.in_flight.cpu_cores as int, op.in_flight.ram_mb as int, op.in_flight.gpu_vram_mb as int)
}

/// `b` is `a` with only the committed counts changed.
pub open spec fn same_but_counts(a: &Operator, b: &Operator) -> bool {
    &&& a.id == b.id
    &&& a.total == b.total
    &&& a.in_flight.capabilities == b.in_flight.capabilities
    &&& a.reputation_bits == b.reputation_bits
}

impl Operator {
    /// A new operator with nothing committed and reputation 0.5.
    pub fn new(id: &str, total: ResourceCapacity) -> (r: Self)
        ensures
            r.id@ == id@,
            r.total == total,
            r.in_flight.cpu_cores == 0,
            r.in_flight.ram_mb == 0,
            r.in_flight.gpu_vram_mb == 0,
            caps_view(r.in_flight.capabilities@) == caps_view(total.capabilities@),
            r.reputation_bits == INITIAL_REPUTATION_BITS,
    {
        let caps = clone_caps(&total.capabilities);
        Operator {
            id: String::from_str(id),
            in_flight: ResourceCapacity { cpu_cores: 0, ram_mb: 0, gpu_vram_mb: 0, capabilities: caps },
            total,
            reputation_bits: INITIAL_REPUTATION_BITS,
        }
    }

    /// Capacity not yet committed, per resource (floored at zero), with all
    /// of the operator's capabilities.
    pub fn free(&self) -> (r: ResourceCapacity)
        ensures
            r.cpu_cores == sat_sub(self.total.cpu_cores, self.in_flight.cpu_cores),
            r.ram_mb == sat_sub(self.total.ram_mb, self.in_flight.ram_mb),
            r.gpu_vram_mb == sat_sub(self.total.gpu_vram_mb, self.in_flight.gpu_vram_mb),
            caps_view(r.capabilities@) == caps_view(self.total.capabilities@),
    {
        ResourceCapacity {
            cpu_cores: self.total.cpu_cores.saturating_sub(self.in_flight.cpu_cores),
            ram_mb: self.total.ram_mb.saturating_sub(self.in_flight.ram_mb),
            gpu_vram_mb: self.total.gpu_vram_mb.saturating_sub(self.in_flight.gpu_vram_mb),
            capabilities: clone_caps(&self.total.capabilities),
        }
    }

    /// Can this operator take `req` now?
    pub fn can_take(&self, req: &ResourceRequirements) -> (r: bool)
        ensures
            r == spec_can_take(self, req),
    {
        self.free().satisfies(req)
    }

    /// A copy of this operator.
    pub fn duplicate(&self) -> (r: Self)
        ensures
            r.id@ == self.id@,
            r.total.cpu_cores == self.total.cpu_cores,
            r.total.ram_mb == self.total.ram_mb,
            r.total.gpu_vram_mb == self.total.gpu_vram_mb,
            caps_view(r.total.capabilities@) == caps_view(self.total.capabilities@),
            counts(&r) == counts(self),
            caps_view(r.in_flight.capabilities@) == caps_view(self.in_flight.capabilities@),
            r.reputation_bits == self.reputation_bits,
    {
        Operator {
            id: self.id.clone(),
            total: self.total.clone(),
            in_flight: self.in_flight.clone(),
            reputation_bits: self.reputation_bits,
        }
    }
}

/// Picks, among the operators that can take a request, one of those with the
/// highest reputation.
pub struct ReputationMatchmaker;

/// A unit of work handed to the network.
pub struct Delegation {
    pub id: DelegationId,
    /// Node kind (such as `circuit_prover`).
    pub kind: String,
    /// Arguments (JSON text).
    pub args: String,
    pub requirements: ResourceRequirements,
}

/// How a delegation ended.
#[derive(Debug)]
pub enum DelegationOutcome {
    Success,
    Failure(String),
    Timeout,
    OperatorDisconnect,
}

impl DelegationOutcome {
    /// The sample a reputation update takes from this outcome: one for a
    /// success, zero for anything else.
    pub fn reputation_sample(&self) -> (r: u8)
        ensures
            r == if self is Success { 1u8 } else { 0u8 },
    {
        match self {
            DelegationOutcome::Success => 1,
            DelegationOutcome::Failure(_) | DelegationOutcome::Timeout => 0,
            DelegationOutcome::OperatorDisconnect => 0,
        }
    }
}

/// The operator pool: at most one operator per id.
pub struct OperatorRegistry {
    ops: Vec<Operator>,
}

impl OperatorRegistry {
    /// The registered operators, in registration order.
    pub closed spec fn operators(&self) -> Seq<Operator> {
        self.ops@
    }

    /// The ids of the registered operators, in registration order.
    pub open spec fn ids(&self) -> Seq<Seq<char>> {
        self.operators().map_values(|o: Operator| o.id@)
    }

    #[verifier::type_invariant]
    closed spec fn inv(&self) -> bool {
        self.ids().no_duplicates()
    }

    /// Is an operator registered under `id`?
    pub open spec fn has(&self, id: Seq<char>) -> bool {
        self.ids().contains(id)
    }

    /// The operator registered under `id` (meaningful when `self.has(id)`).
    pub open spec fn get(&self, id: Seq<char>) -> Operator {
        self.operators()[self.ids().index_of(id)]
    }

    /// Ids are unique.
    pub fn facts(&self)
        ensures
            self.ids().no_duplicates(),
    {
        proof { use_type_invariant(self); }
    }

    pub fn new() -> (r: Self)
        ensures
            r.operators().len() == 0,
    {
        let r = OperatorRegistry { ops: Vec::new() };
        assert(r.ids() =~= Seq::<Seq<char>>::empty());
        r
    }

    fn position(&self, id: &str) -> (r: Option<usize>)
        ensures
            match r {
                Some(i) => i < self.operators().len() && self.ids()[i as int] == id@ && self.ids().index_of(id@) == i,
                None => !self.has(id@),
            },
    {
        proof { use_type_invariant(self); }
        let mut i: usize = 0;
        while i < self.ops.len()
            invariant
                i <= self.ops@.len(),
                self.ids().no_duplicates(),
                forall|t: int| 0 <= t < i ==> self.ids()[t] != id@,
            decreases self.ops@.len() - i,
        {
            if str_eq(self.ops[i].id.as_str(), id) {
                proof {
                    assert(self.ids()[i as int] == id@);
                    crate::nodemap::lemma_index_of(self.ids(), id@, i as int);
                }
                return Some(i);
            }
            i = i + 1;
        }
        None
    }

    /// Register `op`, replacing any operator with the same id.
    pub fn register(&mut self, op: Operator)
        ensures
            final(self).has(op.id@),
            final(self).get(op.id@) == op,
            forall|k: Seq<char>| k != op.id@ ==> (#[trigger] final(self).has(k) == old(self).has(k)),
            forall|k: Seq<char>| k != op.id@ && old(self).has(k) ==> #[trigger] final(self).get(k) == old(self).get(k),
    {
        proof { use_type_invariant(&*self); }
        let ghost old_ops = self.ops@;
        let ghost old_ids = self.ids();
        let ghost opv = op;
        let p = self.position(op.id.as_str());
        let mut ops: Vec<Operator> = Vec::new();
        std::mem::swap(&mut ops, &mut self.ops);
        match p {
            Some(i) => {
                ops.set(i, op);
                proof {
                    let ids = ops@.map_values(|o: Operator| o.id@);
                    assert(ids =~= old_ids);
                }
            },
            None => {
                ops.push(op);
                proof {
                    let ids = ops@.map_values(|o: Operator| o.id@);
                    assert(ids =~= old_ids.push(opv.id@));
                }
            },
        }
        self.ops = ops;
        proof {
            let ids = self.ids();
            let i = match p { Some(i) => i as int, None => old_ops.len() as int };
            crate::nodemap::lemma_index_of(ids, opv.id@, i);
            assert forall|k: Seq<char>| k != opv.id@ implies (#[trigger] self.has(k) == old_ids.contains(k)) by {
                if old_ids.contains(k) {
                    let t = choose|t: int| 0 <= t < old_ids.len() && old_ids[t] == k;
                    assert(ids[t] == k);
                }
                if ids.contains(k) {
                    let t = choose|t: int| 0 <= t < ids.len() && ids[t] == k;
                    assert(t != i);
                    assert(old_ids[t] == k);
                }
            }
            assert forall|k: Seq<char>| k != opv.id@ && old_ids.contains(k) implies #[trigger] self.get(k) == old_ops[old_ids.index_of(k)] by {
                let t = choose|t: int| 0 <= t < old_ids.len() && old_ids[t] == k;
                crate::nodemap::lemma_index_of(old_ids, k, t);
                assert(ids[t] == k);
                crate::nodemap::lemma_index_of(ids, k, t);
            }
        }
    }

    /// Remove and return the operator registered under `id`, if any.
    pub fn deregister(&mut self, id: &str) -> (r: Option<Operator>)
        ensures
            match r {
                Some(op) => old(self).has(id@) && op == old(self).get(id@),
                None => !old(self).has(id@),
            },
            !final(self).has(id@),
            forall|k: Seq<char>| k != id@ ==> (#[trigger] final(self).has(k) == old(self).has(k)),
            forall|k: Seq<char>| k != id@ && old(self).has(k) ==> #[trigger] final(self).get(k) == old(self).get(k),
    {
        proof { use_type_invariant(&*self); }
        let ghost old_ops = self.ops@;
        let ghost old_ids = self.ids();
        match self.position(id) {
            Some(i) => {
                let mut ops: Vec<Operator> = Vec::new();
                std::mem::swap(&mut ops, &mut self.ops);
                let op = ops.remove(i);
                proof {
                    let ids = ops@.map_values(|o: Operator| o.id@);
                    assert(ids =~= old_ids.remove(i as int));
                    assert forall|a: int, b: int| 0 <= a < ids.len() && 0 <= b < ids.len() && a != b implies ids[a] != ids[b] by {
                        let a2 = if a < i { a } else { a + 1 };
                        let b2 = if b < i { b } else { b + 1 };
                        assert(ids[a] == old_ids[a2]);
                        assert(ids[b] == old_ids[b2]);
                    }
                }
                self.ops = ops;
                proof {
                    let ids = self.ids();
                    assert(!ids.contains(id@)) by {
                        if ids.contains(id@) {
                            let t = choose|t: int| 0 <= t < ids.len() && ids[t] == id@;
                            let t2 = if t < i { t } else { t + 1 };
                            assert(old_ids[t2] == id@);
                        }
                    }
                    assert forall|k: Seq<char>| k != id@ implies (#[trigger] self.has(k) == old_ids.contains(k)) by {
                        if old_ids.contains(k) {
                            let t = choose|t: int| 0 <= t < old_ids.len() && old_ids[t] == k;
                            assert(t != i);
                            let t2 = if t < i { t } else { t - 1 };
                            assert(ids[t2] == k);
                        }
                        if ids.contains(k) {
                            let t = choose|t: int| 0 <= t < ids.len() && ids[t] == k;
                            let t2 = if t < i { t } else { t + 1 };
                            assert(old_ids[t2] == k);
                        }
                    }
                    assert forall|k: Seq<char>| k != id@ && old_ids.contains(k) implies #[trigger] self.get(k) == old_ops[old_ids.index_of(k)] by {
                        let t = choose|t: int| 0 <= t < old_ids.len() && old_ids[t] == k;
                        crate::nodemap::lemma_index_of(old_ids, k, t);
                        assert(t != i);
                        let t2 = if t < i { t } else { t - 1 };
                        assert(ids[t2] == k);
                        crate::nodemap::lemma_index_of(ids, k, t2);
                    }
                }
                Some(op)
            },
            None => None,
        }
    }

    /// Copies of the registered operators, in registration order.
    pub fn snapshot(&self) -> (r: Vec<Operator>)
        ensures
            r@.len() == self.operators().len(),
            forall|t: int| 0 <= t < r@.len() ==> (#[trigger] r@[t]).id@ == self.operators()[t].id@
                && counts(&r@[t]) == counts(&self.operators()[t])
                && r@[t].total.cpu_cores == self.operators()[t].total.cpu_cores
                && r@[t].total.ram_mb == self.operators()[t].total.ram_mb
                && r@[t].total.gpu_vram_mb == self.operators()[t].total.gpu_vram_mb
                && caps_view(r@[t].total.capabilities@) == caps_view(self.operators()[t].total.capabilities@)
                && r@[t].reputation_bits == self.operators()[t].reputation_bits,
    {
        let mut r: Vec<Operator> = Vec::new();
        let mut i: usize = 0;
        while i < self.ops.len()
            invariant
                i <= self.ops@.len(),
                r@.len() == i,
                forall|t: int| 0 <= t < i ==> (#[trigger] r@[t]).id@ == self.operators()[t].id@
                    && counts(&r@[t]) == counts(&self.operators()[t])
                    && r@[t].total.cpu_cores == self.operators()[t].total.cpu_cores
                    && r@[t].total.ram_mb == self.operators()[t].total.ram_mb
                    && r@[t].total.gpu_vram_mb == self.operators()[t].total.gpu_vram_mb
                    && caps_view(r@[t].total.capabilities@) == caps_view(self.operators()[t].total.capabilities@)
                    && r@[t].reputation_bits == self.operators()[t].reputation_bits,
            decreases self.ops@.len() - i,
        {
            r.push(self.ops[i].duplicate());
            i = i + 1;
        }
        r
    }

    /// Positions (in registration order) of the operators that can take `req` now.
    pub fn eligible(&self, req: &ResourceRequirements) -> (r: Vec<usize>)
        ensures
            forall|t: int| 0 <= t < r@.len() ==> (#[trigger] r@[t]) < self.operators().len() && spec_can_take(&self.operators()[r@[t] as int], req),
            forall|i: int| 0 <= i < self.operators().len() && spec_can_take(&self.operators()[i], req) ==> #[trigger] r@.contains(i as usize),
            forall|a: int, b: int| 0 <= a < b < r@.len() ==> r@[a] < r@[b],
    {
        let mut r: Vec<usize> = Vec::new();
        let mut i: usize = 0;
        while i < self.ops.len()
            invariant
                i <= self.ops@.len(),
                forall|t: int| 0 <= t < r@.len() ==> (#[trigger] r@[t]) < i && spec_can_take(&self.operators()[r@[t] as int], req),
                forall|j: int| 0 <= j < i && spec_can_take(&self.operators()[j], req) ==> #[trigger] r@.contains(j as usize),
                forall|a: int, b: int| 0 <= a < b < r@.len() ==> r@[a] < r@[b],
            decreases self.ops@.len() - i,
        {
            if self.ops[i].can_take(req) {
                let ghost before = r@;
                r.push(i);
                proof { crate::dag::lemma_push_contains(before, i); }
            }
            i = i + 1;
        }
        r
    }

    /// Reserve `req` on operator `id`: `NodeNotFound(id)` when no such
    /// operator, `RateLimited` when it cannot take `req`, else the committed
    /// counts grow by `req`.
    pub fn reserve(&mut self, id: &str, req: &ResourceRequirements) -> (r: KernelResult<()>)
        ensures
            !old(self).has(id@) ==> (r matches Err(KernelError::NodeNotFound(m)) && m@ == id@) && *final(self) == *old(self),
            old(self).has(id@) && !spec_can_take(&old(self).get(id@), req) ==> (r matches Err(KernelError::RateLimited)) && *final(self) == *old(self),
            old(self).has(id@) && spec_can_take(&old(self).get(id@), req) ==> {
                &&& r is Ok
                &&& final(self).has(id@)
                &&& same_but_counts(&old(self).get(id@), &final(self).get(id@))
                &&& counts(&final(self).get(id@)) == reserved_counts(&old(self).get(id@), req)
                &&& final(self).get(id@).in_flight.cpu_cores == old(self).get(id@).in_flight.cpu_cores + req.cpu_cores
                &&& final(self).get(id@).in_flight.ram_mb == old(self).get(id@).in_flight.ram_mb + req.ram_mb
                &&& final(self).get(id@).in_flight.gpu_vram_mb == old(self).get(id@).in_flight.gpu_vram_mb + req.gpu_vram_mb
                &&& forall|k: Seq<char>| k != id@ ==> (#[trigger] final(self).has(k) == old(self).has(k))
                &&& forall|k: Seq<char>| k != id@ && old(self).has(k) ==> #[trigger] final(self).get(k) == old(self).get(k)
            },
    {
        proof { use_type_invariant(&*self); }
        let ghost old_ops = self.ops@;
        let ghost old_ids = self.ids();
        match self.position(id) {
            None => Err(KernelError::NodeNotFound(String::from_str(id))),
            Some(i) => {
                if !self.ops[i].can_take(req) {
                    return Err(KernelError::RateLimited);
                }
                let mut ops: Vec<Operator> = Vec::new();
                std::mem::swap(&mut ops, &mut self.ops);
                let mut op = ops.remove(i);
                proof {
                    assert(op == old_ops[i as int]);
                }
                op.in_flight.cpu_cores = op.in_flight.cpu_cores + req.cpu_cores;
                op.in_flight.ram_mb = op.in_flight.ram_mb + req.ram_mb;
                op.in_flight.gpu_vram_mb = op.in_flight.gpu_vram_mb + req.gpu_vram_mb;
                ops.insert(i, op);
                proof {
                    let ids = ops@.map_values(|o: Operator| o.id@);
                    assert(ids =~= old_ids);
                    assert forall|t: int| 0 <= t < ops@.len() && t != i implies ops@[t] == old_ops[t] by {}
                }
                self.ops = ops;
                proof {
                    crate::nodemap::lemma_index_of(self.ids(), id@, i as int);
                    assert forall|k: Seq<char>| k != id@ && old_ids.contains(k) implies #[trigger] self.get(k) == old_ops[old_ids.index_of(k)] by {
                        let t = choose|t: int| 0 <= t < old_ids.len() && old_ids[t] == k;
                        crate::nodemap::lemma_index_of(old_ids, k, t);
                        crate::nodemap::lemma_index_of(self.ids(), k, t);
                    }
                }
                Ok(())
            },
        }
    }

    /// Release `req` from operator `id` (floored at zero); no effect when
    /// there is no such operator.
    pub fn release(&mut self, id: &str, req: &ResourceRequirements)
        ensures
            !old(self).has(id@) ==> *final(self) == *old(self),
            old(self).has(id@) ==> {
                &&& final(self).has(id@)
                &&& same_but_counts(&old(self).get(id@), &final(self).get(id@))
                &&& counts(&final(self).get(id@)) == released_counts(&old(self).get(id@), req)
                &&& final(self).get(id@).in_flight.cpu_cores == if old(self).get(id@).in_flight.cpu_cores >= req.cpu_cores {
                    old(self).get(id@).in_flight.cpu_cores - req.cpu_cores
                } else {
                    0
                }
                &&& final(self).get(id@).in_flight.ram_mb == if old(self).get(id@).in_flight.ram_mb >= req.ram_mb {
                    old(self).get(id@).in_flight.ram_mb - req.ram_mb
                } else {
                    0
                }
                &&& final(self).get(id@).in_flight.gpu_vram_mb == if old(self).get(id@).in_flight.gpu_vram_mb >= req.gpu_vram_mb {
                    old(self).get(id@).in_flight.gpu_vram_mb - req.gpu_vram_mb
                } else {
                    0
                }
                &&& forall|k: Seq<char>| k != id@ ==> (#[trigger] final(self).has(k) == old(self).has(k))
                &&& forall|k: Seq<char>| k != id@ && old(self).has(k) ==> #[trigger] final(self).get(k) == old(self).get(k)
            },
    {
        proof { use_type_invariant(&*self); }
        let ghost old_ops = self.ops@;
        let ghost old_ids = self.ids();
        if let Some(i) = self.position(id) {
            let mut ops: Vec<Operator> = Vec::new();
            std::mem::swap(&mut ops, &mut self.ops);
            let mut op = ops.remove(i);
            proof {
                assert(op == old_ops[i as int]);
            }
            op.in_flight.cpu_cores = op.in_flight.cpu_cores.saturating_sub(req.cpu_cores);
            op.in_flight.ram_mb = op.in_flight.ram_mb.saturating_sub(req.ram_mb);
            op.in_flight.gpu_vram_mb = op.in_flight.gpu_vram_mb.saturating_sub(req.gpu_vram_mb);
            ops.insert(i, op);
            proof {
                let ids = ops@.map_values(|o: Operator| o.id@);
                assert(ids =~= old_ids);
                assert forall|t: int| 0 <= t < ops@.len() && t != i implies ops@[t] == old_ops[t] by {}
            }
            self.ops = ops;
            proof {
                crate::nodemap::lemma_index_of(self.ids(), id@, i as int);
                assert forall|k: Seq<char>| k != id@ && old_ids.contains(k) implies #[trigger] self.get(k) == old_ops[old_ids.index_of(k)] by {
                    let t = choose|t: int| 0 <= t < old_ids.len() && old_ids[t] == k;
                    crate::nodemap::lemma_index_of(old_ids, k, t);
                    crate::nodemap::lemma_index_of(self.ids(), k, t);
                }
            }
        }
    }

    /// The reputation bits of operator `id`, if registered.
    pub fn reputation_of(&self, id: &str) -> (r: Option<u64>)
        ensures
            match r {
                Some(b) => self.has(id@) && b == self.get(id@).reputation_bits,
                None => !self.has(id@),
            },
    {
        match self.position(id) {
            Some(i) => Some(self.ops[i].reputation_bits),
            None => None,
        }
    }

    /// Set the reputation bits of operator `id`; no effect when there is no
    /// such operator.
    pub fn set_reputation(&mut self, id: &str, bits: u64)
        ensures
            !old(self).has(id@) ==> *final(self) == *old(self),
            old(self).has(id@) ==> {
                &&& final(self).has(id@)
                &&& final(self).get(id@).reputation_bits == bits
                &&& final(self).get(id@).id == old(self).get(id@).id
                &&& final(self).get(id@).total == old(self).get(id@).total
                &&& final(self).get(id@).in_flight == old(self).get(id@).in_flight
                &&& forall|k: Seq<char>| k != id@ ==> (#[trigger] final(self).has(k) == old(self).has(k))
                &&& forall|k: Seq<char>| k != id@ && old(self).has(k) ==> #[trigger] final(self).get(k) == old(self).get(k)
            },
    {
        proof { use_type_invariant(&*self); }
        let ghost old_ops = self.ops@;
        let ghost old_ids = self.ids();
        if let Some(i) = self.position(id) {
            let mut ops: Vec<Operator> = Vec::new();
            std::mem::swap(&mut ops, &mut self.ops);
            let mut op = ops.remove(i);
            proof {
                assert(op == old_ops[i as int]);
            }
            op.reputation_bits = bits;
            ops.insert(i, op);
            proof {
                let ids = ops@.map_values(|o: Operator| o.id@);
                assert(ids =~= old_ids);
                assert forall|t: int| 0 <= t < ops@.len() && t != i implies ops@[t] == old_ops[t] by {}
            }
            self.ops = ops;
            proof {
                crate::nodemap::lemma_index_of(self.ids(), id@, i as int);
                assert forall|k: Seq<char>| k != id@ && old_ids.contains(k) implies #[trigger] self.get(k) == old_ops[old_ids.index_of(k)] by {
                    let t = choose|t: int| 0 <= t < old_ids.len() && old_ids[t] == k;
                    crate::nodemap::lemma_index_of(old_ids, k, t);
                    crate::nodemap::lemma_index_of(self.ids(), k, t);
                }
            }
        }
    }
}

/// Releasing what was just reserved restores the committed counts.
pub proof fn lemma_release_undoes_reserve(op: &Operator, after: &Operator, req: &ResourceRequirements)
    requires
        spec_can_take(op, req),
        same_but_counts(op, after),
        counts(after) == reserved_counts(op, req),
    ensures
        released_counts(after, req) == counts(op),
{
}

/// A reservation never commits more than the operator has: if the
/// committed counts were within capacity, they still are after reserving.
pub proof fn lemma_reserve_within_capacity(op: &Operator, after: &Operator, req: &ResourceRequirements)
    requires
        within_capacity(op),
        spec_can_take(op, req),
        same_but_counts(op, after),
        counts(after) == reserved_counts(op, req),
    ensures
        within_capacity(after),
{
}

/// What an operator can take, on its fields: each requested amount fits in
/// what is left of the total after what is committed (nothing is left when
/// more is committed than the total), and every requested capability is one
/// the operator offers.
pub proof fn lemma_can_take_fields(op: &Operator, req: &ResourceRequirements)
    ensures
        spec_can_take(op, req) <==> {
            &&& req.cpu_cores <= (if op.total.cpu_cores >= op.in_flight.cpu_cores { op.total.cpu_cores - op.in_flight.cpu_cores } else { 0 })
            &&& req.ram_mb <= (if op.total.ram_mb >= op.in_flight.ram_mb { op.total.ram_mb - op.in_flight.ram_mb } else { 0 })
            &&& req.gpu_vram_mb <= (if op.total.gpu_vram_mb >= op.in_flight.gpu_vram_mb { op.total.gpu_vram_mb - op.in_flight.gpu_vram_mb } else { 0 })
            &&& forall|i: int| 0 <= i < req.capabilities@.len() ==> #[trigger] is_offered(op.total.capabilities@, req.capabilities@[i]@)
        },
{
    crate::capability::lemma_caps_cover_fields(op.total.capabilities@, req.capabilities@);
}

/// No double booking: when an operator whose commitments are within its
/// total takes `first` (its committed amounts grow by exactly what `first`
/// asks) and can then still take `second`, the two together fit in what was
/// free before the first, on every resource.
pub proof fn lemma_no_double_booking(op: &Operator, after: &Operator, first: &ResourceRequirements, second: &ResourceRequirements)
    requires
        op.in_flight.cpu_cores <= op.total.cpu_cores,
        op.in_flight.ram_mb <= op.total.ram_mb,
        op.in_flight.gpu_vram_mb <= op.total.gpu_vram_mb,
        spec_can_take(op, first),
        after.total == op.total,
        after.in_flight.cpu_cores == op.in_flight.cpu_cores + first.cpu_cores,
        after.in_flight.ram_mb == op.in_flight.ram_mb + first.ram_mb,
        after.in_flight.gpu_vram_mb == op.in_flight.gpu_vram_mb + first.gpu_vram_mb,
        spec_can_take(after, second),
    ensures
        op.in_flight.cpu_cores + first.cpu_cores + second.cpu_cores <= op.total.cpu_cores,
        op.in_flight.ram_mb + first.ram_mb + second.ram_mb <= op.total.ram_mb,
        op.in_flight.gpu_vram_mb + first.gpu_vram_mb + second.gpu_vram_mb <= op.total.gpu_vram_mb,
{
    lemma_can_take_fields(op, first);
    lemma_can_take_fields(after, second);
}

} // verus!
