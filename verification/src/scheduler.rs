//! The decisions of a workflow run: which nodes are ready, what input each
//! receives, how a completed node unlocks its children, and whether the run
//! reached every node. The caller executes the nodes and reports results.

use vstd::prelude::*;
use crate::count::{count_upto, lemma_count_bound, lemma_count_ext, lemma_count_drop_one, lemma_count_zero, lemma_count_none};
use crate::dag::{Dag, WorkflowId};
use crate::error::{KernelError, KernelResult};
use crate::node::{NodeInput, null_json};
use crate::nodemap::{NodeMap, keys_sorted, lemma_sorted_no_duplicates, lemma_index_of};
use crate::resilience::ResilienceConfig;
use crate::text::str_eq;

verus! {

/// Scheduler settings.
pub struct SchedulerConfig {
    pub resilience: ResilienceConfig,
    pub event_buffer: usize,
}

impl Default for SchedulerConfig {
    fn default() -> (r: Self)
        ensures
            r.resilience == ResilienceConfig::default_values(),
            r.event_buffer == 1024,
    {
        SchedulerConfig { resilience: ResilienceConfig::default(), event_buffer: 1024 }
    }
}

/// Every edge leads into a node of the DAG.
pub open spec fn targets_known<N>(dag: &Dag<N>) -> bool {
    forall|i: int| 0 <= i < dag.edges@.len() ==> dag.nodes.has(#[trigger] dag.edges@[i].to@)
}

/// Position of the source of edge `i` among the node ids.
pub open spec fn source_index<N>(dag: &Dag<N>, i: int) -> int {
    dag.nodes.keys().index_of(dag.edges@[i].from@)
}

/// Edge `i` has fired: its source is a node that completed with an output on
/// which the edge's condition holds.
pub open spec fn edge_fired<N>(dag: &Dag<N>, outs: Seq<Option<Seq<char>>>, i: int) -> bool {
    &&& dag.nodes.has(dag.edges@[i].from@)
    &&& outs[source_index(dag, i)] is Some
    &&& dag.edges@[i].condition.holds(outs[source_index(dag, i)]->0)
}

/// Edge `i` leads into node `v` and has not fired.
pub open spec fn unfired_into<N>(dag: &Dag<N>, outs: Seq<Option<Seq<char>>>, v: int) -> spec_fn(int) -> bool {
    |i: int| dag.edges@[i].to@ == dag.nodes.keys()[v] && !edge_fired(dag, outs, i)
}

/// Node `s` is the source of an edge into node `v` and has completed.
pub open spec fn is_reported_parent<N>(dag: &Dag<N>, outs: Seq<Option<Seq<char>>>, v: int, s: Seq<char>) -> bool {
    exists|i: int|
        0 <= i < dag.edges@.len() && #[trigger] dag.edges@[i].to@ == dag.nodes.keys()[v] && dag.edges@[i].from@ == s
            && dag.nodes.has(s) && outs[dag.nodes.keys().index_of(s)] is Some
}

/// The progress of one workflow run over a DAG: per node, the number of
/// incoming edges that have not fired, its output once completed, whether it
/// was handed out for execution, and the nodes ready to be handed out.
pub struct RunState {
    indeg: Vec<usize>,
    outputs: Vec<Option<String>>,
    dispatched: Vec<bool>,
    ready: Vec<usize>,
}

impl RunState {
    /// Outputs (JSON text) of the completed nodes, by node position.
    pub closed spec fn outs(&self) -> Seq<Option<Seq<char>>> {
        self.outputs@.map_values(|o: Option<String>| match o {
            Some(s) => Some(s@),
            None => None,
        })
    }

    /// Which nodes were handed out for execution, by node position.
    pub closed spec fn handed_out(&self) -> Seq<bool> {
        self.dispatched@
    }

    /// Positions of the nodes ready to be handed out, in the order they became ready.
    pub closed spec fn ready_nodes(&self) -> Seq<int> {
        self.ready@.map_values(|u: usize| u as int)
    }

    /// Number of edges into each node that have not fired yet.
    pub closed spec fn waiting_on(&self) -> Seq<int> {
        self.indeg@.map_values(|d: usize| d as int)
    }

    /// Node `v` was handed out and has not completed.
    pub open spec fn in_flight(&self, v: int) -> bool {
        self.handed_out()[v] && self.outs()[v] is None
    }

    /// The state describes a run over `dag`.
    pub closed spec fn wf<N>(&self, dag: &Dag<N>) -> bool {
        let n = dag.nodes.keys().len();
        let e = dag.edges@.len();
        &&& keys_sorted(dag.nodes.keys())
        &&& n <= usize::MAX
        &&& targets_known(dag)
        &&& self.indeg@.len() == n
        &&& self.outputs@.len() == n
        &&& self.dispatched@.len() == n
        &&& forall|v: int| 0 <= v < n ==> #[trigger] self.indeg@[v] == count_upto(e, unfired_into(dag, self.outs(), v))
        &&& forall|t: int| 0 <= t < self.ready@.len() ==> #[trigger] self.ready@[t] < n
        &&& forall|t: int| 0 <= t < self.ready@.len() ==> self.indeg@[#[trigger] self.ready@[t] as int] == 0 && !self.dispatched@[self.ready@[t] as int]
        &&& forall|a: int, b: int| 0 <= a < b < self.ready@.len() ==> self.ready@[a] != self.ready@[b]
        &&& forall|v: int| 0 <= v < n && #[trigger] self.indeg@[v] == 0 && !self.dispatched@[v] ==> self.ready@.contains(v as usize)
        &&& forall|v: int| 0 <= v < n && #[trigger] self.outputs@[v] is Some ==> self.dispatched@[v]
        &&& forall|v: int| 0 <= v < n && #[trigger] self.dispatched@[v] ==> self.indeg@[v] == 0
    }
}

/// Edge `i` leads into node `v`.
pub open spec fn into_node<N>(dag: &Dag<N>, v: int) -> spec_fn(int) -> bool {
    |i: int| dag.edges@[i].to@ == dag.nodes.keys()[v]
}

/// Every edge into node `v` has fired.
pub open spec fn all_inputs_fired<N>(dag: &Dag<N>, outs: Seq<Option<Seq<char>>>, v: int) -> bool {
    forall|i: int| 0 <= i < dag.edges@.len() && #[trigger] dag.edges@[i].to@ == dag.nodes.keys()[v] ==> edge_fired(dag, outs, i)
}

impl RunState {
    /// The ready nodes are exactly those not handed out whose incoming edges
    /// have all fired; positions, outputs and hand-out flags cover the nodes.
    pub open spec fn ready_exact<N>(&self, dag: &Dag<N>) -> bool {
        let n = dag.nodes.keys().len();
        &&& self.outs().len() == n
        &&& self.handed_out().len() == n
        &&& self.waiting_on().len() == n
        &&& forall|t: int| 0 <= t < self.ready_nodes().len() ==> 0 <= #[trigger] self.ready_nodes()[t] < n
        &&& self.ready_nodes().no_duplicates()
        &&& forall|w: int| 0 <= w < n ==> (#[trigger] self.ready_nodes().contains(w) <==> !self.handed_out()[w] && all_inputs_fired(dag, self.outs(), w))
        &&& forall|w: int| 0 <= w < n && #[trigger] self.outs()[w] is Some ==> self.handed_out()[w]
        &&& forall|w: int| 0 <= w < n && #[trigger] self.handed_out()[w] ==> all_inputs_fired(dag, self.outs(), w)
    }

    /// A well-formed run has exactly its fully-fired, not-handed-out nodes ready.
    pub proof fn lemma_ready_exact<N>(&self, dag: &Dag<N>)
        requires
            self.wf(dag),
        ensures
            self.ready_exact(dag),
    {
        let n = dag.nodes.keys().len();
        let e = dag.edges@.len();
        assert forall|w: int| 0 <= w < n implies (self.indeg@[w] == 0 <==> all_inputs_fired(dag, self.outs(), w)) by {
            if self.indeg@[w] == 0 {
                assert forall|i: int| 0 <= i < e && #[trigger] dag.edges@[i].to@ == dag.nodes.keys()[w] implies edge_fired(dag, self.outs(), i) by {
                    lemma_count_zero(e, unfired_into(dag, self.outs(), w), i);
                }
            }
            if all_inputs_fired(dag, self.outs(), w) {
                assert forall|i: int| 0 <= i < e implies !#[trigger] unfired_into(dag, self.outs(), w)(i) by {
                    if dag.edges@[i].to@ == dag.nodes.keys()[w] {
                        assert(edge_fired(dag, self.outs(), i));
                    }
                }
                lemma_count_none(e, unfired_into(dag, self.outs(), w));
            }
        }
        assert forall|w: int| 0 <= w < n implies (#[trigger] self.ready_nodes().contains(w) <==> !self.handed_out()[w] && all_inputs_fired(dag, self.outs(), w)) by {
            if self.ready_nodes().contains(w) {
                let t = choose|t: int| 0 <= t < self.ready_nodes().len() && self.ready_nodes()[t] == w;
                assert(self.ready@[t] as int == w);
            }
            if !self.handed_out()[w] && all_inputs_fired(dag, self.outs(), w) {
                assert(self.indeg@[w] == 0);
                assert(!self.dispatched@[w]);
                assert(self.ready@.contains(w as usize));
                let t = choose|t: int| 0 <= t < self.ready@.len() && self.ready@[t] == w as usize;
                assert(self.ready@[t] < n);
                assert(self.ready@[t] as int == w);
                assert(self.ready_nodes()[t] == w);
            }
        }
        assert forall|a: int, b: int| 0 <= a < self.ready_nodes().len() && 0 <= b < self.ready_nodes().len() && a != b
            implies self.ready_nodes()[a] != self.ready_nodes()[b] by {
            if a < b { assert(self.ready@[a] != self.ready@[b]); } else { assert(self.ready@[b] != self.ready@[a]); }
        }
        assert forall|t: int| 0 <= t < self.ready_nodes().len() implies 0 <= #[trigger] self.ready_nodes()[t] < n by {
            assert(self.ready@[t] < n);
        }
        assert forall|w: int| 0 <= w < n && #[trigger] self.outs()[w] is Some implies self.handed_out()[w] by {
            assert(self.outputs@[w] is Some);
        }
        assert forall|w: int| 0 <= w < n && #[trigger] self.handed_out()[w] implies all_inputs_fired(dag, self.outs(), w) by {
            assert(self.dispatched@[w]);
        }
    }

    /// The order every run keeps. A node is handed out only once every edge
    /// into it has fired (its source completed with an output on which the
    /// edge's condition holds); a node completes only after it was handed
    /// out; no ready node has been handed out, so no node is handed out twice;
    /// and every node not handed out whose incoming edges have all fired is
    /// ready.
    pub proof fn lemma_run_order<N>(&self, dag: &Dag<N>)
        requires
            self.wf(dag),
        ensures
            forall|v: int| 0 <= v < dag.nodes.keys().len() && #[trigger] self.handed_out()[v] ==> all_inputs_fired(dag, self.outs(), v),
            forall|v: int| 0 <= v < dag.nodes.keys().len() && #[trigger] self.outs()[v] is Some ==> self.handed_out()[v],
            forall|t: int| 0 <= t < self.ready_nodes().len() ==> 0 <= #[trigger] self.ready_nodes()[t] < dag.nodes.keys().len()
                && !self.handed_out()[self.ready_nodes()[t]],
            forall|v: int| 0 <= v < dag.nodes.keys().len() && !self.handed_out()[v] && all_inputs_fired(dag, self.outs(), v)
                ==> #[trigger] self.ready_nodes().contains(v),
    {
        self.lemma_ready_exact(dag);
        assert forall|t: int| 0 <= t < self.ready_nodes().len() implies 0 <= #[trigger] self.ready_nodes()[t] < dag.nodes.keys().len()
            && !self.handed_out()[self.ready_nodes()[t]] by {
            let w = self.ready_nodes()[t];
            assert(self.ready_nodes().contains(w));
        }
    }

    /// Start a run: no node has completed or been handed out, and the nodes
    /// without incoming edges are ready, in ascending id order.
    pub fn new<N>(dag: &Dag<N>) -> (r: Self)
        requires
            targets_known(dag),
        ensures
            r.wf(dag),
            r.ready_exact(dag),
            forall|v: int| 0 <= v < dag.nodes.keys().len() ==> (#[trigger] r.outs()[v]) is None && !r.handed_out()[v],
            forall|a: int, b: int| 0 <= a < b < r.ready_nodes().len() ==> r.ready_nodes()[a] < r.ready_nodes()[b],
    {
        dag.nodes.facts();
        let ghost keys = dag.nodes.keys();
        let n = dag.nodes.len();
        let ne = dag.edges.len();
        let mut indeg: Vec<usize> = Vec::new();
        let mut outputs: Vec<Option<String>> = Vec::new();
        let mut dispatched: Vec<bool> = Vec::new();
        let mut v: usize = 0;
        while v < n
            invariant
                v <= n,
                indeg@.len() == v,
                outputs@.len() == v,
                dispatched@.len() == v,
                forall|u: int| 0 <= u < v ==> #[trigger] indeg@[u] == 0,
                forall|u: int| 0 <= u < v ==> #[trigger] outputs@[u] is None,
                forall|u: int| 0 <= u < v ==> !#[trigger] dispatched@[u],
            decreases n - v,
        {
            indeg.push(0);
            outputs.push(None);
            dispatched.push(false);
            v = v + 1;
        }
        let mut k: usize = 0;
        while k < ne
            invariant
                n == keys.len(),
                ne == dag.edges@.len(),
                keys == dag.nodes.keys(),
                keys.no_duplicates(),
                targets_known(dag),
                k <= ne,
                indeg@.len() == n,
                forall|u: int| 0 <= u < n ==> #[trigger] indeg@[u] == count_upto(k as nat, into_node(dag, u)),
            decreases ne - k,
        {
            let t = match dag.nodes.position(dag.edges[k].to.as_str()) {
                Some(t) => t,
                None => {
                    proof { assert(dag.nodes.has(dag.edges@[k as int].to@)); }
                    0
                },
            };
            proof {
                lemma_count_bound(k as nat, into_node(dag, t as int));
                assert forall|u: int| 0 <= u < n implies #[trigger] count_upto((k + 1) as nat, into_node(dag, u))
                    == count_upto(k as nat, into_node(dag, u)) + if u == t { 1nat } else { 0nat } by {
                    if keys[u] == dag.edges@[k as int].to@ {
                        assert(keys[u] == keys[t as int]);
                    }
                }
            }
            let d = indeg[t];
            indeg.set(t, d + 1);
            k = k + 1;
        }
        let mut ready: Vec<usize> = Vec::new();
        let mut v: usize = 0;
        while v < n
            invariant
                v <= n,
                indeg@.len() == n,
                forall|t: int| 0 <= t < ready@.len() ==> ready@[t] < v && indeg@[ready@[t] as int] == 0,
                forall|a: int, b: int| 0 <= a < b < ready@.len() ==> ready@[a] < ready@[b],
                forall|u: int| 0 <= u < v && indeg@[u] == 0 ==> #[trigger] ready@.contains(u as usize),
            decreases n - v,
        {
            if indeg[v] == 0 {
                let ghost old_ready = ready@;
                ready.push(v);
                proof {
                    crate::dag::lemma_push_contains(old_ready, v);
                }
            }
            v = v + 1;
        }
        let r = RunState { indeg, outputs, dispatched, ready };
        proof {
            assert forall|u: int| 0 <= u < n implies #[trigger] r.outs()[u] is None by {
                assert(r.outputs@[u] is None);
            }
            assert forall|u: int| 0 <= u < n implies #[trigger] r.indeg@[u] == count_upto(ne as nat, unfired_into(dag, r.outs(), u)) by {
                assert forall|i: int| 0 <= i < ne implies #[trigger] into_node(dag, u)(i) == unfired_into(dag, r.outs(), u)(i) by {
                    if dag.nodes.has(dag.edges@[i].from@) {
                        let j = choose|j: int| 0 <= j < keys.len() && keys[j] == dag.edges@[i].from@;
                        lemma_index_of(keys, dag.edges@[i].from@, j);
                        assert(r.outs()[j] is None);
                    }
                }
                lemma_count_ext(ne as nat, into_node(dag, u), unfired_into(dag, r.outs(), u));
            }
            assert forall|a: int, b: int| 0 <= a < b < r.ready_nodes().len() implies r.ready_nodes()[a] < r.ready_nodes()[b] by {
                assert(r.ready@[a] < r.ready@[b]);
            }
            r.lemma_ready_exact(dag);
        }
        r
    }
}

/// `s` is the source of an edge among the first `bound` edges into node `v`,
/// and that source has completed.
pub open spec fn parent_reported_before<N>(dag: &Dag<N>, outs: Seq<Option<Seq<char>>>, v: int, s: Seq<char>, bound: int) -> bool {
    exists|i: int|
        0 <= i < bound && #[trigger] dag.edges@[i].to@ == dag.nodes.keys()[v] && dag.edges@[i].from@ == s
            && dag.nodes.has(s) && outs[dag.nodes.keys().index_of(s)] is Some
}

/// The input a node receives: the run's workflow id, its id, a `null`
/// payload, and the outputs of its completed parents keyed by parent id.
pub open spec fn is_input_for<N>(dag: &Dag<N>, outs: Seq<Option<Seq<char>>>, v: int, inp: NodeInput) -> bool {
    &&& inp.workflow_id == dag.id
    &&& inp.node_id@ == dag.nodes.keys()[v]
    &&& inp.payload@ == seq!['n', 'u', 'l', 'l']
    &&& forall|s: Seq<char>| #[trigger] inp.parents.has(s) == is_reported_parent(dag, outs, v, s)
    &&& forall|s: Seq<char>| #[trigger] inp.parents.has(s) ==> inp.parents.payload(s)@ == outs[dag.nodes.keys().index_of(s)]->0
}

impl RunState {
    /// The input for node `v` built from the outputs so far.
    fn input_for<N>(&self, dag: &Dag<N>, v: usize) -> (r: NodeInput)
        requires
            self.outputs@.len() == dag.nodes.keys().len(),
            v < dag.nodes.keys().len(),
        ensures
            is_input_for(dag, self.outs(), v as int, r),
    {
        dag.nodes.facts();
        let ghost keys = dag.nodes.keys();
        let ghost outs = self.outs();
        let node_id = dag.nodes.key_at(v);
        let mut parents: NodeMap<String> = NodeMap::new();
        let ne = dag.edges.len();
        let mut i: usize = 0;
        while i < ne
            invariant
                self.outputs@.len() == dag.nodes.keys().len(),
                keys == dag.nodes.keys(),
                keys.no_duplicates(),
                outs == self.outs(),
                v < keys.len(),
                node_id@ == keys[v as int],
                ne == dag.edges@.len(),
                i <= ne,
                forall|s: Seq<char>| #[trigger] parents.has(s) == parent_reported_before(dag, outs, v as int, s, i as int),
                forall|s: Seq<char>| #[trigger] parents.has(s) ==> parents.payload(s)@ == outs[keys.index_of(s)]->0,
            decreases ne - i,
        {
            let e = &dag.edges[i];
            let ghost before = parents;
            if str_eq(e.to.as_str(), node_id.as_str()) {
                match dag.nodes.position(e.from.as_str()) {
                    Some(u) => {
                        match &self.outputs[u] {
                            Some(o) => {
                                proof {
                                    lemma_index_of(keys, e.from@, u as int);
                                    assert(self.outs()[u as int] == Some(o@));
                                }
                                parents.insert(e.from.clone(), o.clone());
                                proof {
                                    assert forall|s: Seq<char>| #[trigger] parents.has(s) == parent_reported_before(dag, outs, v as int, s, i + 1) by {
                                        assert(parents.keys().to_set().contains(s) == parents.has(s));
                                        assert(before.keys().to_set().contains(s) == before.has(s));
                                        if s == e.from@ {
                                            assert(dag.edges@[i as int].to@ == keys[v as int]);
                                        }
                                        if parent_reported_before(dag, outs, v as int, s, i + 1) && s != e.from@ {
                                            let j = choose|j: int| 0 <= j < i + 1 && #[trigger] dag.edges@[j].to@ == keys[v as int]
                                                && dag.edges@[j].from@ == s && dag.nodes.has(s) && outs[keys.index_of(s)] is Some;
                                            assert(j < i);
                                        }
                                    }
                                    assert forall|s: Seq<char>| #[trigger] parents.has(s) implies parents.payload(s)@ == outs[keys.index_of(s)]->0 by {
                                        assert(parents.as_map().dom().contains(s));
                                        assert(parents.as_map()[s] == parents.payload(s));
                                        if s != e.from@ {
                                            assert(before.keys().to_set().contains(s));
                                            assert(before.has(s));
                                            assert(before.as_map()[s] == before.payload(s));
                                        }
                                    }
                                }
                            },
                            None => {
                                proof {
                                    lemma_index_of(keys, e.from@, u as int);
                                    assert(self.outs()[u as int] is None);
                                    self.lemma_same_parents(dag, v as int, i as int);
                                }
                            },
                        }
                    },
                    None => {
                        proof {
                            self.lemma_same_parents(dag, v as int, i as int);
                        }
                    },
                }
            } else {
                proof {
                    self.lemma_same_parents(dag, v as int, i as int);
                }
            }
            i = i + 1;
        }
        let r = NodeInput { workflow_id: dag.id, node_id: node_id.clone(), payload: null_json(), parents };
        proof {
            assert forall|s: Seq<char>| #[trigger] r.parents.has(s) == is_reported_parent(dag, outs, v as int, s) by {
                assert(parent_reported_before(dag, outs, v as int, s, ne as int) == is_reported_parent(dag, outs, v as int, s));
            }
        }
        r
    }

    /// An edge that does not add a reported parent leaves the reported set as it was.
    proof fn lemma_same_parents<N>(&self, dag: &Dag<N>, v: int, i: int)
        requires
            0 <= i < dag.edges@.len(),
            !(dag.edges@[i].to@ == dag.nodes.keys()[v] && dag.nodes.has(dag.edges@[i].from@)
                && self.outs()[dag.nodes.keys().index_of(dag.edges@[i].from@)] is Some),
        ensures
            forall|s: Seq<char>| parent_reported_before(dag, self.outs(), v, s, i + 1) == parent_reported_before(dag, self.outs(), v, s, i),
    {
        assert forall|s: Seq<char>| parent_reported_before(dag, self.outs(), v, s, i + 1) implies parent_reported_before(dag, self.outs(), v, s, i) by {
            let j = choose|j: int| 0 <= j < i + 1 && #[trigger] dag.edges@[j].to@ == dag.nodes.keys()[v]
                && dag.edges@[j].from@ == s && dag.nodes.has(s) && self.outs()[dag.nodes.keys().index_of(s)] is Some;
            assert(j != i);
        }
        assert forall|s: Seq<char>| parent_reported_before(dag, self.outs(), v, s, i) implies parent_reported_before(dag, self.outs(), v, s, i + 1) by {
            let j = choose|j: int| 0 <= j < i && #[trigger] dag.edges@[j].to@ == dag.nodes.keys()[v]
                && dag.edges@[j].from@ == s && dag.nodes.has(s) && self.outs()[dag.nodes.keys().index_of(s)] is Some;
            assert(dag.edges@[j].to@ == dag.nodes.keys()[v]);
        }
    }
}

impl RunState {
    /// Hand out every ready node, in the order they became ready: each gets
    /// its input (its completed parents' outputs) and is marked handed out;
    /// the ready list empties.
    pub fn take_ready<N>(&mut self, dag: &Dag<N>) -> (r: Vec<NodeInput>)
        requires
            old(self).wf(dag),
        ensures
            final(self).wf(dag),
            final(self).ready_exact(dag),
            final(self).outs() == old(self).outs(),
            final(self).ready_nodes().len() == 0,
            r@.len() == old(self).ready_nodes().len(),
            forall|t: int| 0 <= t < r@.len() ==> {
                let v = old(self).ready_nodes()[t];
                &&& is_input_for(dag, old(self).outs(), v, #[trigger] r@[t])
                &&& !old(self).handed_out()[v]
                &&& all_inputs_fired(dag, old(self).outs(), v)
            },
            forall|w: int| 0 <= w < dag.nodes.keys().len() ==>
                #[trigger] final(self).handed_out()[w] == (old(self).handed_out()[w] || old(self).ready_nodes().contains(w)),
    {
        proof {
            old(self).lemma_ready_exact(dag);
        }
        let ghost old_self = *self;
        let mut ready: Vec<usize> = Vec::new();
        std::mem::swap(&mut ready, &mut self.ready);
        let mut r: Vec<NodeInput> = Vec::new();
        let mut t: usize = 0;
        while t < ready.len()
            invariant
                self.indeg == old_self.indeg,
                self.outputs == old_self.outputs,
                self.dispatched == old_self.dispatched,
                old_self.wf(dag),
                ready@ == old_self.ready@,
                t <= ready@.len(),
                r@.len() == t,
                forall|k: int| 0 <= k < t ==> is_input_for(dag, old_self.outs(), old_self.ready_nodes()[k], #[trigger] r@[k]),
            decreases ready@.len() - t,
        {
            let v = ready[t];
            proof {
                assert(old_self.ready@[t as int] < dag.nodes.keys().len());
            }
            proof { assert(self.outs() == old_self.outs()); }
            let inp = self.input_for(dag, v);
            r.push(inp);
            t = t + 1;
        }
        let mut t: usize = 0;
        while t < ready.len()
            invariant
                self.indeg == old_self.indeg,
                self.outputs == old_self.outputs,
                self.ready@.len() == 0,
                old_self.wf(dag),
                ready@ == old_self.ready@,
                t <= ready@.len(),
                self.dispatched@.len() == old_self.dispatched@.len(),
                forall|w: int| 0 <= w < self.dispatched@.len() ==>
                    #[trigger] self.dispatched@[w] == (old_self.dispatched@[w] || exists|k: int| 0 <= k < t && ready@[k] == w),
            decreases ready@.len() - t,
        {
            let v = ready[t];
            proof { assert(old_self.ready@[t as int] < dag.nodes.keys().len()); }
            self.dispatched.set(v, true);
            proof {
                assert forall|w: int| 0 <= w < self.dispatched@.len() implies
                    #[trigger] self.dispatched@[w] == (old_self.dispatched@[w] || exists|k: int| 0 <= k < t + 1 && ready@[k] == w) by {
                    if w == v {
                        assert(ready@[t as int] == w);
                    }
                }
            }
            t = t + 1;
        }
        proof {
            let n = dag.nodes.keys().len();
            assert forall|w: int| 0 <= w < n implies #[trigger] self.dispatched@[w] == (old_self.dispatched@[w] || old_self.ready_nodes().contains(w)) by {
                if exists|k: int| 0 <= k < ready@.len() && ready@[k] == w {
                    let k = choose|k: int| 0 <= k < ready@.len() && ready@[k] == w;
                    assert(old_self.ready_nodes()[k] == w);
                }
                if old_self.ready_nodes().contains(w) {
                    let k = choose|k: int| 0 <= k < old_self.ready_nodes().len() && old_self.ready_nodes()[k] == w;
                    assert(ready@[k] as int == w);
                }
            }
            assert(self.outs() == old_self.outs());
            assert forall|v: int| 0 <= v < n && #[trigger] self.indeg@[v] == 0 && !self.dispatched@[v] implies self.ready@.contains(v as usize) by {
                assert(old_self.ready@.contains(v as usize));
                let k = choose|k: int| 0 <= k < old_self.ready@.len() && old_self.ready@[k] == v as usize;
                assert(old_self.ready_nodes()[k] == v);
            }
            assert forall|v: int| 0 <= v < n && #[trigger] self.outputs@[v] is Some implies self.dispatched@[v] by {
                assert(old_self.dispatched@[v]);
            }
            assert forall|v: int| 0 <= v < n && #[trigger] self.dispatched@[v] implies self.indeg@[v] == 0 by {
                if !old_self.dispatched@[v] {
                    let k = choose|k: int| 0 <= k < ready@.len() && ready@[k] == v;
                    assert(old_self.indeg@[old_self.ready@[k] as int] == 0);
                }
            }
            assert(self.ready_nodes() =~= Seq::<int>::empty());
            self.lemma_ready_exact(dag);
            assert forall|t: int| 0 <= t < r@.len() implies {
                let v = old_self.ready_nodes()[t];
                &&& is_input_for(dag, old_self.outs(), v, #[trigger] r@[t])
                &&& !old_self.handed_out()[v]
                &&& all_inputs_fired(dag, old_self.outs(), v)
            } by {
                let v = old_self.ready_nodes()[t];
                assert(old_self.ready_nodes().contains(v));
            }
        }
        r
    }
}


/// Edge `i` still counts toward its target while the edges of the node that
/// just completed (id `c`) are discharged up to (excluding) index `j`.
pub open spec fn pending_into<N>(dag: &Dag<N>, outs: Seq<Option<Seq<char>>>, c: Seq<char>, j: int, v: int) -> spec_fn(int) -> bool {
    |i: int| dag.edges@[i].to@ == dag.nodes.keys()[v]
        && (!edge_fired(dag, outs, i) || (dag.edges@[i].from@ == c && i >= j))
}

impl RunState {
    /// Is the node `node_id` handed out and not yet completed?
    pub fn is_in_flight<N>(&self, dag: &Dag<N>, node_id: &str) -> (r: bool)
        requires
            self.wf(dag),
        ensures
            r == exists|v: int| 0 <= v < dag.nodes.keys().len() && dag.nodes.keys()[v] == node_id@ && #[trigger] self.in_flight(v),
    {
        dag.nodes.facts();
        match dag.nodes.position(node_id) {
            Some(v) => {
                let r = self.dispatched[v] && self.outputs[v].is_none();
                proof {
                    assert(self.outs()[v as int] is None <==> self.outputs@[v as int] is None);
                    if r {
                        assert(self.in_flight(v as int));
                    }
                    if !r {
                        assert forall|w: int| 0 <= w < dag.nodes.keys().len() && dag.nodes.keys()[w] == node_id@ implies !#[trigger] self.in_flight(w) by {
                            assert(w == v);
                        }
                    }
                }
                r
            },
            None => false,
        }
    }

    /// Node `node_id` completed with `output` (JSON text): record it, and for
    /// each edge leaving it whose condition holds on the output, one fewer
    /// edge is awaited by its target; targets left awaiting none become ready.
    pub fn complete<N>(&mut self, dag: &Dag<N>, node_id: &str, output: String)
        requires
            old(self).wf(dag),
            exists|v: int| 0 <= v < dag.nodes.keys().len() && dag.nodes.keys()[v] == node_id@ && #[trigger] old(self).in_flight(v),
        ensures
            final(self).wf(dag),
            final(self).ready_exact(dag),
            final(self).handed_out() == old(self).handed_out(),
            final(self).outs() == old(self).outs().update(dag.nodes.keys().index_of(node_id@), Some(output@)),
            final(self).ready_nodes().len() >= old(self).ready_nodes().len(),
            final(self).ready_nodes().subrange(0, old(self).ready_nodes().len() as int) == old(self).ready_nodes(),
    {
        dag.nodes.facts();
        let ghost keys = dag.nodes.keys();
        let ghost n = keys.len();
        let ghost old_outs = self.outs();
        let ghost old_ready = self.ready@;
        let ghost old_dispatched = self.dispatched@;
        let v = match dag.nodes.position(node_id) {
            Some(v) => v,
            None => {
                proof {
                    let w = choose|w: int| 0 <= w < n && keys[w] == node_id@ && #[trigger] self.in_flight(w);
                }
                0
            },
        };
        proof {
            lemma_index_of(keys, node_id@, v as int);
            assert(self.in_flight(v as int)) by {
                let w = choose|w: int| 0 <= w < n && keys[w] == node_id@ && #[trigger] self.in_flight(w);
                assert(w == v);
            }
        }
        let out = output.clone();
        self.outputs.set(v, Some(output));
        let ghost outs = self.outs();
        proof {
            assert(outs =~= old_outs.update(v as int, Some(out@)));
        }
        let ne = dag.edges.len();
        let mut j: usize = 0;
        proof {
            assert forall|u: int| 0 <= u < n implies #[trigger] self.indeg@[u] == count_upto(ne as nat, pending_into(dag, outs, node_id@, 0, u)) by {
                assert forall|i: int| 0 <= i < ne implies #[trigger] unfired_into(dag, old_outs, u)(i) == pending_into(dag, outs, node_id@, 0, u)(i) by {
                    if dag.nodes.has(dag.edges@[i].from@) {
                        let w = choose|w: int| 0 <= w < n && keys[w] == dag.edges@[i].from@;
                        lemma_index_of(keys, dag.edges@[i].from@, w);
                        if w == v {
                            assert(dag.edges@[i].from@ == node_id@);
                        } else {
                            assert(outs[w] == old_outs[w]);
                        }
                    }
                }
                lemma_count_ext(ne as nat, unfired_into(dag, old_outs, u), pending_into(dag, outs, node_id@, 0, u));
            }
        }
        while j < ne
            invariant
                keys == dag.nodes.keys(),
                n == keys.len(),
                n <= usize::MAX,
                keys.no_duplicates(),
                keys_sorted(keys),
                targets_known(dag),
                ne == dag.edges@.len(),
                v < n,
                keys[v as int] == node_id@,
                out@ == outs[v as int]->0,
                outs[v as int] is Some,
                outs == self.outs(),
                j <= ne,
                self.indeg@.len() == n,
                self.outputs@.len() == n,
                self.dispatched@.len() == n,
                self.dispatched@ == old_dispatched,
                self.dispatched@[v as int],
                old_ready.len() <= self.ready@.len(),
                self.ready@.subrange(0, old_ready.len() as int) == old_ready,
                forall|u: int| 0 <= u < n ==> #[trigger] self.indeg@[u] == count_upto(ne as nat, pending_into(dag, outs, node_id@, j as int, u)),
                forall|t: int| 0 <= t < self.ready@.len() ==> #[trigger] self.ready@[t] < n,
                forall|t: int| 0 <= t < self.ready@.len() ==> self.indeg@[#[trigger] self.ready@[t] as int] == 0 && !self.dispatched@[self.ready@[t] as int],
                forall|a: int, b: int| 0 <= a < b < self.ready@.len() ==> self.ready@[a] != self.ready@[b],
                forall|u: int| 0 <= u < n && #[trigger] self.indeg@[u] == 0 && !self.dispatched@[u] ==> self.ready@.contains(u as usize),
                forall|u: int| 0 <= u < n && #[trigger] self.outputs@[u] is Some ==> self.dispatched@[u],
                forall|u: int| 0 <= u < n && #[trigger] self.dispatched@[u] ==> self.indeg@[u] == 0,
            decreases ne - j,
        {
            let e = &dag.edges[j];
            let ghost jj = j as int;
            let fires = str_eq(e.from.as_str(), node_id) && e.condition.evaluate(out.as_str());
            proof {
                if dag.edges@[jj].from@ == node_id@ {
                    lemma_index_of(keys, node_id@, v as int);
                    assert(source_index(dag, jj) == v);
                    assert(fires == edge_fired(dag, outs, jj));
                }
            }
            if fires {
                let t = match dag.nodes.position(e.to.as_str()) {
                    Some(t) => t,
                    None => {
                        proof { assert(dag.nodes.has(dag.edges@[jj].to@)); }
                        0
                    },
                };
                proof {
                    lemma_count_drop_one(ne as nat, pending_into(dag, outs, node_id@, jj, t as int), pending_into(dag, outs, node_id@, jj + 1, t as int), jj);
                    assert forall|u: int| 0 <= u < n && u != t implies #[trigger] count_upto(ne as nat, pending_into(dag, outs, node_id@, jj + 1, u))
                        == count_upto(ne as nat, pending_into(dag, outs, node_id@, jj, u)) by {
                        assert forall|i: int| 0 <= i < ne implies #[trigger] pending_into(dag, outs, node_id@, jj, u)(i) == pending_into(dag, outs, node_id@, jj + 1, u)(i) by {
                            if i == jj {
                                assert(keys[t as int] == dag.edges@[jj].to@);
                                if keys[u] == dag.edges@[jj].to@ {
                                    assert(u == t);
                                }
                            }
                        }
                        lemma_count_ext(ne as nat, pending_into(dag, outs, node_id@, jj, u), pending_into(dag, outs, node_id@, jj + 1, u));
                    }
                    // t was awaiting this edge, so it is neither handed out nor ready
                    assert(self.indeg@[t as int] >= 1);
                    assert(!self.dispatched@[t as int]);
                    assert forall|k: int| 0 <= k < self.ready@.len() implies self.ready@[k] != t by {}
                }
                let d = self.indeg[t];
                self.indeg.set(t, d - 1);
                if d - 1 == 0 {
                    let ghost before = self.ready@;
                    self.ready.push(t);
                    proof {
                        crate::dag::lemma_push_contains(before, t);
                        assert(self.ready@.subrange(0, old_ready.len() as int) =~= before.subrange(0, old_ready.len() as int));
                    }
                }
            } else {
                proof {
                    assert forall|u: int| 0 <= u < n implies #[trigger] count_upto(ne as nat, pending_into(dag, outs, node_id@, jj + 1, u))
                        == count_upto(ne as nat, pending_into(dag, outs, node_id@, jj, u)) by {
                        lemma_count_ext(ne as nat, pending_into(dag, outs, node_id@, jj, u), pending_into(dag, outs, node_id@, jj + 1, u));
                    }
                }
            }
            j = j + 1;
        }
        proof {
            assert forall|u: int| 0 <= u < n implies #[trigger] self.indeg@[u] == count_upto(ne as nat, unfired_into(dag, outs, u)) by {
                lemma_count_ext(ne as nat, pending_into(dag, outs, node_id@, ne as int, u), unfired_into(dag, outs, u));
            }
            lemma_index_of(keys, node_id@, v as int);
            self.lemma_ready_exact(dag);
            assert(self.ready_nodes().subrange(0, old_ready.len() as int) =~= old_ready.map_values(|u: usize| u as int));
        }
    }

    /// The run is finished once no node is ready and none is in flight; it
    /// succeeded when every node completed.
    pub fn finish<N>(&self, dag: &Dag<N>) -> (r: KernelResult<()>)
        requires
            self.wf(dag),
        ensures
            r is Ok <==> forall|v: int| 0 <= v < dag.nodes.keys().len() ==> (#[trigger] self.outs()[v]) is Some,
            r is Err ==> (r matches Err(KernelError::InvalidInput(m)) && m@ == not_all_reached_msg()),
    {
        let n = dag.nodes.len();
        let mut v: usize = 0;
        while v < n
            invariant
                n == dag.nodes.keys().len(),
                self.outputs@.len() == n,
                v <= n,
                forall|u: int| 0 <= u < v ==> (#[trigger] self.outs()[u]) is Some,
            decreases n - v,
        {
            if self.outputs[v].is_none() {
                proof { assert(self.outs()[v as int] is None); }
                return Err(KernelError::InvalidInput(not_all_reached()));
            }
            proof { assert(self.outs()[v as int] is Some); }
            v = v + 1;
        }
        Ok(())
    }

    /// Outputs (JSON text) of the completed nodes, keyed by node id.
    pub fn completed_outputs<N>(&self, dag: &Dag<N>) -> (r: NodeMap<String>)
        requires
            self.wf(dag),
        ensures
            forall|s: Seq<char>| #[trigger] r.has(s) <==> exists|v: int| 0 <= v < dag.nodes.keys().len() && dag.nodes.keys()[v] == s && (#[trigger] self.outs()[v]) is Some,
            forall|s: Seq<char>| #[trigger] r.has(s) ==> r.payload(s)@ == self.outs()[dag.nodes.keys().index_of(s)]->0,
    {
        dag.nodes.facts();
        let ghost keys = dag.nodes.keys();
        let n = dag.nodes.len();
        let mut r: NodeMap<String> = NodeMap::new();
        let mut v: usize = 0;
        while v < n
            invariant
                n == keys.len(),
                keys == dag.nodes.keys(),
                keys.no_duplicates(),
                self.outputs@.len() == n,
                v <= n,
                forall|s: Seq<char>| #[trigger] r.has(s) <==> exists|u: int| 0 <= u < v && keys[u] == s && (#[trigger] self.outs()[u]) is Some,
                forall|s: Seq<char>| #[trigger] r.has(s) ==> r.payload(s)@ == self.outs()[keys.index_of(s)]->0,
            decreases n - v,
        {
            let ghost before = r;
            match &self.outputs[v] {
                Some(o) => {
                    let k = dag.nodes.key_at(v).clone();
                    proof {
                        assert(self.outs()[v as int] == Some(o@));
                        lemma_index_of(keys, k@, v as int);
                    }
                    r.insert(k, o.clone());
                    proof {
                        assert forall|s: Seq<char>| #[trigger] r.has(s) <==> exists|u: int| 0 <= u < v + 1 && keys[u] == s && (#[trigger] self.outs()[u]) is Some by {
                            assert(r.keys().to_set().contains(s) == r.has(s));
                            assert(before.keys().to_set().contains(s) == before.has(s));
                            if s == keys[v as int] {
                                assert(self.outs()[v as int] is Some);
                            }
                        }
                        assert forall|s: Seq<char>| #[trigger] r.has(s) implies r.payload(s)@ == self.outs()[keys.index_of(s)]->0 by {
                            assert(r.as_map().dom().contains(s));
                            assert(r.as_map()[s] == r.payload(s));
                            if s != keys[v as int] {
                                assert(before.keys().to_set().contains(s));
                                assert(before.as_map()[s] == before.payload(s));
                            }
                        }
                    }
                },
                None => {
                    proof {
                        assert(self.outs()[v as int] is None);
                        assert forall|s: Seq<char>| #[trigger] r.has(s) <==> exists|u: int| 0 <= u < v + 1 && keys[u] == s && (#[trigger] self.outs()[u]) is Some by {
                            if exists|u: int| 0 <= u < v + 1 && keys[u] == s && (#[trigger] self.outs()[u]) is Some {
                                let u = choose|u: int| 0 <= u < v + 1 && keys[u] == s && (#[trigger] self.outs()[u]) is Some;
                                assert(u != v);
                            }
                        }
                    }
                },
            }
            v = v + 1;
        }
        r
    }
}

/// The message of the error a run that did not reach every node ends with.
pub open spec fn not_all_reached_msg() -> Seq<char> {
    "not all nodes were reached"@
}

fn not_all_reached() -> (r: String)
    ensures
        r@ == not_all_reached_msg(),
{
    String::from_str("not all nodes were reached")
}

} // verus!
