//! Workflow DAG, generic over the node payload. Node outputs and edge
//! conditions carry JSON as text.

use vstd::prelude::*;
use crate::count::{count_upto, lemma_count_bound, lemma_count_ext, lemma_count_drop_one, lemma_count_zero, lemma_count_none, lemma_count_below};
use crate::error::{KernelError, KernelResult};
use crate::nodemap::{NodeMap, keys_sorted, lemma_sorted_no_duplicates};
use crate::outside::{json_pointer_eq, json_pointer_matches};
use crate::text::seq_lt;

verus! {

pub type NodeId = String;

/// A workflow identifier: the sixteen bytes of a UUID.
pub type WorkflowId = [u8; 16];

/// Predicate evaluated on a parent node's output (JSON text) to decide
/// whether the edge fires.
#[derive(Debug)]
pub enum EdgeCondition {
    Always,
    /// The value at JSON pointer `pointer` (such as `/result/ok`) equals the
    /// JSON value written in `value`.
    JsonEq { pointer: String, value: String },
}

impl EdgeCondition {
    /// Does the condition hold of the output `output` (JSON text)?
    pub open spec fn holds(&self, output: Seq<char>) -> bool {
        match self {
            EdgeCondition::Always => true,
            EdgeCondition::JsonEq { pointer, value } => json_pointer_matches(output, pointer@, value@),
        }
    }

    pub fn evaluate(&self, output: &str) -> (r: bool)
        ensures
            r == self.holds(output@),
    {
        match self {
            EdgeCondition::Always => true,
            EdgeCondition::JsonEq { pointer, value } => json_pointer_eq(output, pointer.as_str(), value.as_str()),
        }
    }
}

#[derive(Debug)]
pub struct Edge {
    pub from: NodeId,
    pub to: NodeId,
    pub condition: EdgeCondition,
}

/// Workflow DAG: payloads by node id in ascending id order, and the edges in
/// insertion order.
pub struct Dag<N> {
    pub id: WorkflowId,
    pub name: String,
    pub nodes: NodeMap<N>,
    pub edges: Vec<Edge>,
}

/// The character views of a list of strings.
pub open spec fn views(v: Seq<String>) -> Seq<Seq<char>> {
    v.map_values(|s: String| s@)
}

/// `s` is a node id or the target of some edge.
pub open spec fn is_vertex<N>(dag: &Dag<N>, s: Seq<char>) -> bool {
    dag.nodes.has(s) || exists|i: int| 0 <= i < dag.edges@.len() && #[trigger] dag.edges@[i].to@ == s
}

/// Edge `i` leads into `s`.
pub open spec fn edge_into<N>(dag: &Dag<N>, i: int, s: Seq<char>) -> bool {
    0 <= i < dag.edges@.len() && dag.edges@[i].to@ == s
}

/// `order` lists distinct vertices, and every edge into a listed vertex comes
/// from a vertex listed earlier.
pub open spec fn is_peel_order<N>(dag: &Dag<N>, order: Seq<Seq<char>>) -> bool {
    &&& order.no_duplicates()
    &&& forall|p: int| 0 <= p < order.len() ==> is_vertex(dag, #[trigger] order[p])
    &&& forall|p: int, i: int|
        0 <= p < order.len() && #[trigger] edge_into(dag, i, order[p]) ==> exists|t: int|
            0 <= t < p && #[trigger] order[t] == dag.edges@[i].from@
}

/// No vertex left out of `order` could follow it: each has an edge from a
/// vertex outside `order`.
pub open spec fn is_stuck<N>(dag: &Dag<N>, order: Seq<Seq<char>>) -> bool {
    forall|s: Seq<char>|
        is_vertex(dag, s) && !order.contains(s) ==> exists|i: int|
            #[trigger] edge_into(dag, i, s) && !order.contains(dag.edges@[i].from@)
}

/// A peel order that cannot be extended: the set of vertices that do not
/// depend on a cycle or on an unknown source, in an order that respects edges.
pub open spec fn is_maximal_peel<N>(dag: &Dag<N>, order: Seq<Seq<char>>) -> bool {
    is_peel_order(dag, order) && is_stuck(dag, order)
}

/// Some edge leads into `s`.
pub open spec fn has_edge_into<N>(dag: &Dag<N>, s: Seq<char>) -> bool {
    exists|i: int| #[trigger] edge_into(dag, i, s)
}

/// The first `r` entries of `order` are the vertices no edge leads into, in
/// ascending id order, and some edge leads into each later entry.
pub open spec fn sources_prefix<N>(dag: &Dag<N>, order: Seq<Seq<char>>, r: int) -> bool {
    &&& 0 <= r <= order.len()
    &&& forall|t: int| 0 <= t < r ==> !has_edge_into(dag, #[trigger] order[t])
    &&& forall|t: int| r <= t < order.len() ==> has_edge_into(dag, #[trigger] order[t])
    &&& forall|a: int, b: int| 0 <= a < b < r ==> seq_lt(#[trigger] order[a], #[trigger] order[b])
}

/// Lexicographic order on (position, edge index) pairs.
pub open spec fn lex_lt(a: (int, int), b: (int, int)) -> bool {
    a.0 < b.0 || (a.0 == b.0 && a.1 < b.1)
}

/// Entry `v` of `order` became ready when edge `j`, from the entry at
/// position `h`, was discharged: edge `j` leads from there into `v`, and every
/// edge into `v` comes from an entry before `h`, or from the entry at `h`
/// with an index at most `j`.
pub open spec fn released_at<N>(dag: &Dag<N>, order: Seq<Seq<char>>, v: Seq<char>, h: int, j: int) -> bool {
    &&& 0 <= j < dag.edges@.len()
    &&& dag.edges@[j].to@ == v
    &&& 0 <= h < order.len()
    &&& order[h] == dag.edges@[j].from@
    &&& forall|i: int| #[trigger] edge_into(dag, i, v) ==> exists|p: int|
        0 <= p < order.len() && order[p] == dag.edges@[i].from@ && (p < h || (p == h && i <= j))
}

/// Entry `v` of `order` became ready at some edge.
pub open spec fn was_released<N>(dag: &Dag<N>, order: Seq<Seq<char>>, v: Seq<char>) -> bool {
    exists|h: int, j: int| #[trigger] released_at(dag, order, v, h, j)
}

/// From position `r` on, every entry became ready at some edge, and the
/// entries come in the order in which they became ready: taking entries
/// first come, first served, each one's outgoing edges in edge order.
pub open spec fn ready_in_turn<N>(dag: &Dag<N>, order: Seq<Seq<char>>, r: int) -> bool {
    &&& forall|t: int| r <= t < order.len() ==> #[trigger] was_released(dag, order, order[t])
    &&& forall|a: int, b: int, h1: int, j1: int, h2: int, j2: int|
        r <= a < b < order.len() && #[trigger] released_at(dag, order, order[a], h1, j1)
            && #[trigger] released_at(dag, order, order[b], h2, j2) ==> lex_lt((h1, j1), (h2, j2))
}

/// The order Kahn's algorithm gives with a first-in, first-out queue started
/// with the sources in ascending id order: first the vertices no edge leads
/// into, in ascending id order; then the others in the order they became
/// ready.
pub open spec fn kahn_order<N>(dag: &Dag<N>, order: Seq<Seq<char>>) -> bool {
    exists|r: int| #[trigger] sources_prefix(dag, order, r) && ready_in_turn(dag, order, r)
}

/// Positions below `head` in `q` are taken vertices. Vertex `v` became ready
/// when edge `j`, from the vertex at position `h`, was discharged, and every
/// edge into `v` comes from a taken vertex before `h`, or from the one at
/// `h` with an index at most `j`.
pub open spec fn rel_ok(q: Seq<usize>, froms: Seq<Option<usize>>, tos: Seq<usize>, v: usize, h: int, j: int, head: int) -> bool {
    &&& 0 <= j < tos.len()
    &&& tos[j] == v
    &&& 0 <= h < head
    &&& froms[j] == Some(q[h])
    &&& forall|i: int| 0 <= i < tos.len() && #[trigger] tos[i] == v ==> exists|p: int|
        0 <= p < head && froms[i] == Some(q[p]) && (p < h || (p == h && i <= j))
}

proof fn lemma_rel_ok_grow(q1: Seq<usize>, q2: Seq<usize>, froms: Seq<Option<usize>>, tos: Seq<usize>, v: usize, h: int, j: int, head1: int, head2: int)
    requires
        rel_ok(q1, froms, tos, v, h, j, head1),
        head1 <= head2,
        forall|p: int| 0 <= p < head1 ==> q2[p] == q1[p],
    ensures
        rel_ok(q2, froms, tos, v, h, j, head2),
{
    assert forall|i: int| 0 <= i < tos.len() && #[trigger] tos[i] == v implies exists|p: int|
        0 <= p < head2 && froms[i] == Some(q2[p]) && (p < h || (p == h && i <= j)) by {
        let p = choose|p: int| 0 <= p < head1 && froms[i] == Some(q1[p]) && (p < h || (p == h && i <= j));
        assert(q2[p] == q1[p]);
    }
}

/// The order a first-in, first-out Kahn queue is taken in, read on the
/// vertex names: what `peel` establishes on vertex indices, restated.
proof fn lemma_ready_in_turn<N>(dag: &Dag<N>, ov: Seq<Seq<char>>, vk: Seq<Seq<char>>, q: Seq<usize>,
    froms: Seq<Option<usize>>, tos: Seq<usize>, rel: Seq<(int, int)>, r0: int)
    requires
        ov.len() == q.len(),
        forall|t: int| 0 <= t < q.len() ==> #[trigger] ov[t] == vk[q[t] as int],
        ov.no_duplicates(),
        vk.no_duplicates(),
        tos.len() == dag.edges@.len(),
        froms.len() == dag.edges@.len(),
        forall|i: int| 0 <= i < dag.edges@.len() ==> #[trigger] from_ok(vk, froms[i], dag.edges@[i].from@),
        forall|i: int| 0 <= i < dag.edges@.len() ==> tos[i] < vk.len() && vk[tos[i] as int] == #[trigger] dag.edges@[i].to@,
        forall|t: int| 0 <= t < q.len() ==> #[trigger] q[t] < vk.len(),
        0 <= r0 <= q.len(),
        rel.len() == q.len(),
        forall|t: int| r0 <= t < q.len() ==> #[trigger] rel_ok(q, froms, tos, q[t], rel[t].0, rel[t].1, q.len() as int),
        forall|a: int, b: int| r0 <= a < b < q.len() ==> lex_lt(#[trigger] rel[a], #[trigger] rel[b]),
    ensures
        ready_in_turn(dag, ov, r0),
{
    assert forall|t: int| r0 <= t < ov.len() implies #[trigger] released_at(dag, ov, ov[t], rel[t].0, rel[t].1) by {
        let v = q[t];
        assert(rel_ok(q, froms, tos, v, rel[t].0, rel[t].1, q.len() as int));
        let h = rel[t].0;
        let jx = rel[t].1;
        assert(from_ok(vk, froms[jx], dag.edges@[jx].from@));
        assert(vk[tos[jx] as int] == dag.edges@[jx].to@);
        assert(ov[h] == vk[q[h] as int]);
        assert forall|i: int| #[trigger] edge_into(dag, i, ov[t]) implies exists|p: int| 0 <= p < ov.len()
            && ov[p] == dag.edges@[i].from@ && (p < h || (p == h && i <= jx)) by {
            assert(vk[tos[i] as int] == dag.edges@[i].to@);
            assert(tos[i] == v);
            let p = choose|p: int| 0 <= p < q.len() && froms[i] == Some(q[p]) && (p < h || (p == h && i <= jx));
            assert(from_ok(vk, froms[i], dag.edges@[i].from@));
            assert(ov[p] == vk[q[p] as int]);
        }
    }
    assert forall|t: int| r0 <= t < ov.len() implies #[trigger] was_released(dag, ov, ov[t]) by {
        assert(released_at(dag, ov, ov[t], rel[t].0, rel[t].1));
    }
    assert forall|a: int, b: int, h1: int, j1: int, h2: int, j2: int|
        r0 <= a < b < ov.len() && #[trigger] released_at(dag, ov, ov[a], h1, j1) && #[trigger] released_at(dag, ov, ov[b], h2, j2)
        implies lex_lt((h1, j1), (h2, j2)) by {
        assert(released_at(dag, ov, ov[a], rel[a].0, rel[a].1));
        assert(released_at(dag, ov, ov[b], rel[b].0, rel[b].1));
        lemma_release_unique(dag, ov, ov[a], h1, j1, rel[a].0, rel[a].1);
        lemma_release_unique(dag, ov, ov[b], h2, j2, rel[b].0, rel[b].1);
        assert(lex_lt(rel[a], rel[b]));
    }
}

/// Where an entry became ready is determined by the order.
pub proof fn lemma_release_unique<N>(dag: &Dag<N>, order: Seq<Seq<char>>, v: Seq<char>, h1: int, j1: int, h2: int, j2: int)
    requires
        order.no_duplicates(),
        released_at(dag, order, v, h1, j1),
        released_at(dag, order, v, h2, j2),
    ensures
        h1 == h2,
        j1 == j2,
{
    assert(edge_into(dag, j2, v));
    let p = choose|p: int| 0 <= p < order.len() && order[p] == dag.edges@[j2].from@ && (p < h1 || (p == h1 && j2 <= j1));
    assert(order[p] == order[h2]);
    assert(edge_into(dag, j1, v));
    let p2 = choose|p2: int| 0 <= p2 < order.len() && order[p2] == dag.edges@[j1].from@ && (p2 < h2 || (p2 == h2 && j1 <= j2));
    assert(order[p2] == order[h1]);
}

impl<N> Dag<N> {
    /// Topologically sort the DAG (Kahn's algorithm: the nodes no edge leads
    /// into first, in ascending id order, then the others first come, first
    /// served). Returns `CycleDetected` when fewer vertices than nodes can be
    /// ordered.
    pub fn topo_sort(&self) -> (r: KernelResult<Vec<NodeId>>)
        ensures
            match r {
                Ok(order) => is_maximal_peel(self, views(order@)) && order@.len() == self.nodes.keys().len()
                    && kahn_order(self, views(order@)),
                Err(e) => e is CycleDetected && exists|o: Seq<Seq<char>>|
                    is_maximal_peel(self, o) && o.len() != self.nodes.keys().len(),
            },
    {
        let out = self.peel();
        if out.len() != self.nodes.len() {
            return Err(KernelError::CycleDetected);
        }
        Ok(out)
    }


    /// Edges leading into `node`, in edge order.
    pub fn parents(&self, node: &NodeId) -> (r: Vec<&Edge>)
        ensures
            r@.map_values(|e: &Edge| *e) == self.edges@.filter(|e: Edge| e.to@ == node@),
    {
        let mut r: Vec<&Edge> = Vec::new();
        let mut i: usize = 0;
        while i < self.edges.len()
            invariant
                i <= self.edges@.len(),
                r@.map_values(|e: &Edge| *e) == self.edges@.take(i as int).filter(|e: Edge| e.to@ == node@),
            decreases self.edges@.len() - i,
        {
            proof {
                reveal_with_fuel(Seq::filter, 1);
                assert(self.edges@.take(i + 1).drop_last() =~= self.edges@.take(i as int));
            }
            let e = &self.edges[i];
            if crate::text::str_eq(e.to.as_str(), node.as_str()) {
                r.push(e);
            }
            proof {
                assert(r@.map_values(|e: &Edge| *e) =~= self.edges@.take(i + 1).filter(|e: Edge| e.to@ == node@));
            }
            i = i + 1;
        }
        assert(self.edges@.take(self.edges@.len() as int) =~= self.edges@);
        r
    }

    /// Edges leaving `node`, in edge order.
    pub fn children(&self, node: &NodeId) -> (r: Vec<&Edge>)
        ensures
            r@.map_values(|e: &Edge| *e) == self.edges@.filter(|e: Edge| e.from@ == node@),
    {
        let mut r: Vec<&Edge> = Vec::new();
        let mut i: usize = 0;
        while i < self.edges.len()
            invariant
                i <= self.edges@.len(),
                r@.map_values(|e: &Edge| *e) == self.edges@.take(i as int).filter(|e: Edge| e.from@ == node@),
            decreases self.edges@.len() - i,
        {
            proof {
                reveal_with_fuel(Seq::filter, 1);
                assert(self.edges@.take(i + 1).drop_last() =~= self.edges@.take(i as int));
            }
            let e = &self.edges[i];
            if crate::text::str_eq(e.from.as_str(), node.as_str()) {
                r.push(e);
            }
            proof {
                assert(r@.map_values(|e: &Edge| *e) =~= self.edges@.take(i + 1).filter(|e: Edge| e.from@ == node@));
            }
            i = i + 1;
        }
        assert(self.edges@.take(self.edges@.len() as int) =~= self.edges@);
        r
    }

    /// Kahn's algorithm over all vertices (nodes and edge targets).
    fn peel(&self) -> (r: Vec<NodeId>)
        ensures
            is_maximal_peel(self, views(r@)),
            kahn_order(self, views(r@)),
    {
        self.nodes.facts();
        let ghost E = self.edges@.len();
        // vertex index: node ids and edge targets, ascending
        let mut verts: NodeMap<()> = NodeMap::new();
        let nn = self.nodes.len();
        let mut k: usize = 0;
        while k < nn
            invariant
                nn == self.nodes.keys().len(),
                k <= nn,
                forall|s: Seq<char>| #[trigger] verts.keys().contains(s) <==> (exists|t: int| 0 <= t < k && self.nodes.keys()[t] == s),
            decreases nn - k,
        {
            let key = self.nodes.key_at(k).clone();
            let ghost kv = key@;
            verts.insert(key, ());
            proof {
                assert forall|s: Seq<char>| #[trigger] verts.keys().contains(s) <==> (exists|t: int| 0 <= t < k + 1 && self.nodes.keys()[t] == s) by {
                    assert(verts.keys().to_set().contains(s) == verts.keys().contains(s));
                    if s == kv {
                        assert(self.nodes.keys()[k as int] == s);
                    }
                }
            }
            k = k + 1;
        }
        let ne = self.edges.len();
        let mut k: usize = 0;
        while k < ne
            invariant
                nn == self.nodes.keys().len(),
                ne == self.edges@.len(),
                k <= ne,
                forall|s: Seq<char>| #[trigger] verts.keys().contains(s) <==> (self.nodes.has(s) || exists|t: int| 0 <= t < k && self.edges@[t].to@ == s),
            decreases ne - k,
        {
            let key = self.edges[k].to.clone();
            let ghost kv = key@;
            verts.insert(key, ());
            proof {
                assert forall|s: Seq<char>| #[trigger] verts.keys().contains(s) <==> (self.nodes.has(s) || exists|t: int| 0 <= t < k + 1 && self.edges@[t].to@ == s) by {
                    assert(verts.keys().to_set().contains(s) == verts.keys().contains(s));
                    if s == kv {
                        assert(self.edges@[k as int].to@ == s);
                    }
                }
            }
            k = k + 1;
        }
        verts.facts();
        let ghost vk = verts.keys();
        assert forall|s: Seq<char>| #[trigger] vk.contains(s) <==> is_vertex(self, s) by {
            if vk.contains(s) && !self.nodes.has(s) {
                let t = choose|t: int| 0 <= t < ne && self.edges@[t].to@ == s;
                assert(edge_into(self, t, s));
            }
        }
        let wn = verts.len();
        // endpoints of each edge as vertex indices
        let mut from_idx: Vec<Option<usize>> = Vec::new();
        let mut to_idx: Vec<usize> = Vec::new();
        let mut k: usize = 0;
        while k < ne
            invariant
                ne == self.edges@.len(),
                wn == vk.len(),
                vk == verts.keys(),
                vk.no_duplicates(),
                forall|s: Seq<char>| #[trigger] vk.contains(s) <==> is_vertex(self, s),
                k <= ne,
                from_idx@.len() == k,
                to_idx@.len() == k,
                forall|i: int| 0 <= i < k ==> #[trigger] from_ok(vk, from_idx@[i], self.edges@[i].from@),
                forall|i: int| 0 <= i < k ==> to_idx@[i] < wn && vk[to_idx@[i] as int] == #[trigger] self.edges@[i].to@,
                forall|i: int| 0 <= i < k ==> #[trigger] to_idx@[i] < wn,
            decreases ne - k,
        {
            let f = verts.position(self.edges[k].from.as_str());
            from_idx.push(f);
            let t = verts.position(self.edges[k].to.as_str());
            proof {
                assert(edge_into(self, k as int, self.edges@[k as int].to@));
                assert(is_vertex(self, self.edges@[k as int].to@));
                assert(vk.contains(self.edges@[k as int].to@));
            }
            let t = match t {
                Some(t) => t,
                None => {
                    proof { assert(false); }
                    0
                },
            };
            to_idx.push(t);
            assert(to_idx@[k as int] == t);
            k = k + 1;
        }
        let ghost tos = to_idx@;
        let ghost froms = from_idx@;
        // in-degree of every vertex
        let mut indeg: Vec<usize> = Vec::new();
        let mut v: usize = 0;
        while v < wn
            invariant
                v <= wn,
                indeg@.len() == v,
                forall|u: int| 0 <= u < v ==> indeg@[u] == 0,
            decreases wn - v,
        {
            indeg.push(0);
            v = v + 1;
        }
        let mut k: usize = 0;
        while k < ne
            invariant
                ne == self.edges@.len(),
                k <= ne,
                tos == to_idx@,
                tos.len() == ne,
                forall|i: int| 0 <= i < ne ==> tos[i] < wn,
                indeg@.len() == wn,
                forall|u: int| 0 <= u < wn ==> #[trigger] indeg@[u] == count_upto(k as nat, into_pred(tos, u)),
            decreases ne - k,
        {
            let t = to_idx[k];
            proof {
                lemma_count_bound(k as nat, into_pred(tos, t as int));
                assert forall|u: int| 0 <= u < wn implies #[trigger] count_upto((k + 1) as nat, into_pred(tos, u))
                    == count_upto(k as nat, into_pred(tos, u)) + if u == t { 1nat } else { 0nat } by {}
            }
            let d = indeg[t];
            indeg.set(t, d + 1);
            k = k + 1;
        }
        // Kahn
        let ghost indeg0 = indeg@;
        let mut q: Vec<usize> = Vec::new();
        let mut v: usize = 0;
        while v < wn
            invariant
                v <= wn,
                indeg@.len() == wn,
                forall|t: int| 0 <= t < q@.len() ==> q@[t] < v && indeg@[q@[t] as int] == 0,
                forall|a: int, b: int| 0 <= a < b < q@.len() ==> q@[a] != q@[b],
                forall|a: int, b: int| 0 <= a < b < q@.len() ==> q@[a] < q@[b],
                forall|u: int| 0 <= u < v && indeg@[u] == 0 ==> #[trigger] q@.contains(u as usize),
            decreases wn - v,
        {
            if indeg[v] == 0 {
                let ghost oldq = q@;
                q.push(v);
                proof {
                    lemma_push_contains(oldq, v);
                }
            }
            v = v + 1;
        }
        let ghost q0 = q@;
        proof {
            assert forall|t: int| 0 <= t < q0.len() implies !has_edge_into(self, #[trigger] vk[q0[t] as int]) by {
                let u = q0[t] as int;
                if has_edge_into(self, vk[u]) {
                    let i = choose|i: int| #[trigger] edge_into(self, i, vk[u]);
                    assert(vk[tos[i] as int] == self.edges@[i].to@);
                    assert(tos[i] == u);
                    lemma_count_zero(ne as nat, into_pred(tos, u), i);
                }
            }
            assert forall|u: int| 0 <= u < wn && !q0.contains(u as usize) implies has_edge_into(self, #[trigger] vk[u]) by {
                assert(indeg0[u] != 0);
                if forall|i: int| 0 <= i < ne ==> !#[trigger] into_pred(tos, u)(i) {
                    lemma_count_none(ne as nat, into_pred(tos, u));
                }
                let i = choose|i: int| 0 <= i < ne && #[trigger] into_pred(tos, u)(i);
                assert(vk[tos[i] as int] == self.edges@[i].to@);
                assert(edge_into(self, i, vk[u]));
            }
            assert forall|a: int, b: int| 0 <= a < b < q0.len() implies seq_lt(#[trigger] vk[q0[a] as int], #[trigger] vk[q0[b] as int]) by {
                assert(q0[a] < q0[b]);
            }
        }
        let ghost r0 = q0.len() as int;
        let ghost mut rel: Seq<(int, int)> = Seq::new(q0.len() as nat, |t: int| (0int, 0int));
        let ghost mut done: Seq<bool> = Seq::new(wn as nat, |u: int| false);
        let mut head: usize = 0;
        let mut out: Vec<NodeId> = Vec::new();
        proof {
            assert forall|i: int| 0 <= i < ne implies #[trigger] active(froms, done, i) by {
                assert(from_ok(vk, froms[i], self.edges@[i].from@));
            }
            lemma_count_none(wn as nat, done_pred(done));
            assert forall|u: int| 0 <= u < wn implies #[trigger] indeg@[u] == count_upto(ne as nat, active_into(tos, froms, done, u)) by {
                lemma_count_ext(ne as nat, into_pred(tos, u), active_into(tos, froms, done, u));
            }
        }
        while head < q.len()
            invariant
                ne == self.edges@.len(),
                wn == vk.len(),
                vk == verts.keys(),
                vk.no_duplicates(),
                forall|s: Seq<char>| #[trigger] vk.contains(s) <==> is_vertex(self, s),
                tos == to_idx@,
                froms == from_idx@,
                tos.len() == ne,
                froms.len() == ne,
                forall|i: int| 0 <= i < ne ==> #[trigger] from_ok(vk, froms[i], self.edges@[i].from@),
                forall|i: int| 0 <= i < ne ==> tos[i] < wn && vk[tos[i] as int] == #[trigger] self.edges@[i].to@,
                forall|i: int| 0 <= i < ne ==> #[trigger] tos[i] < wn,
                indeg@.len() == wn,
                done.len() == wn,
                head <= q@.len(),
                count_upto(wn as nat, done_pred(done)) == head,
                forall|t: int| 0 <= t < q@.len() ==> #[trigger] q@[t] < wn,
                forall|a: int, b: int| 0 <= a < b < q@.len() ==> q@[a] != q@[b],
                forall|t: int| 0 <= t < head ==> done[#[trigger] q@[t] as int],
                forall|t: int| head <= t < q@.len() ==> !done[#[trigger] q@[t] as int],
                forall|u: int| 0 <= u < wn && #[trigger] done[u] ==> exists|t: int| 0 <= t < head && q@[t] == u,
                forall|u: int| 0 <= u < wn ==> #[trigger] indeg@[u] == count_upto(ne as nat, active_into(tos, froms, done, u)),
                forall|t: int| head <= t < q@.len() ==> indeg@[#[trigger] q@[t] as int] == 0,
                forall|u: int| 0 <= u < wn && #[trigger] indeg@[u] == 0 ==> q@.contains(u as usize),
                forall|t: int, i: int| 0 <= t < head && 0 <= i < ne && #[trigger] tos[i] == #[trigger] q@[t] ==> popped_before(froms, q@, i, t),
                out@.len() == head,
                forall|t: int| 0 <= t < head ==> #[trigger] out@[t]@ == vk[q@[t] as int],
                q0.len() <= q@.len(),
                forall|t: int| 0 <= t < q0.len() ==> #[trigger] q@[t] == q0[t],
                r0 == q0.len(),
                rel.len() == q@.len(),
                forall|t: int| r0 <= t < q@.len() ==> #[trigger] rel_ok(q@, froms, tos, q@[t], rel[t].0, rel[t].1, head as int),
                forall|t: int| r0 <= t < q@.len() ==> #[trigger] rel[t].0 < head,
                forall|a: int, b: int| r0 <= a < b < q@.len() ==> lex_lt(#[trigger] rel[a], #[trigger] rel[b]),
            decreases wn - head,
        {
            let n = q[head];
            proof {
                lemma_count_below(wn as nat, done_pred(done), n as int);
            }
            // all edges into n are spent: their sources were popped earlier
            proof {
                assert forall|i: int| 0 <= i < ne && tos[i] == n implies popped_before(froms, q@, i, head as int) by {
                    assert(indeg@[n as int] == 0);
                    lemma_count_zero(ne as nat, active_into(tos, froms, done, n as int), i);
                    assert(from_ok(vk, froms[i], self.edges@[i].from@));
                    let u = froms[i]->0;
                    assert(done[u as int]);
                    let t2 = choose|t: int| 0 <= t < head && q@[t] == u;
                    assert(q@[t2] == u);
                }
            }
            let ghost old_done = done;
            assert(!old_done[n as int]);
            proof {
                done = done.update(n as int, true);
                lemma_count_drop_one(wn as nat, done_pred(done), done_pred(old_done), n as int);
            }
            out.push(verts.key_at(n).clone());
            head = head + 1;
            let mut j: usize = 0;
            proof {
                assert forall|i: int| 0 <= i < ne implies #[trigger] from_ok(vk, froms[i], self.edges@[i].from@) by {}
                assert forall|u: int| 0 <= u < wn implies #[trigger] indeg@[u] == count_upto(ne as nat, pending_into(tos, froms, done, n as int, 0, u)) by {
                    assert forall|i: int| 0 <= i < ne implies #[trigger] active_into(tos, froms, old_done, u)(i) == pending_into(tos, froms, done, n as int, 0, u)(i) by {
                        assert(from_ok(vk, froms[i], self.edges@[i].from@));
                        if froms[i] is Some {
                            let w = froms[i]->0;
                            if w != n {
                                assert(done[w as int] == old_done[w as int]);
                            }
                        }
                    }
                    lemma_count_ext(ne as nat, active_into(tos, froms, old_done, u), pending_into(tos, froms, done, n as int, 0, u));
                }
                assert forall|t: int| r0 <= t < q@.len() implies #[trigger] rel_ok(q@, froms, tos, q@[t], rel[t].0, rel[t].1, head as int) by {
                    lemma_rel_ok_grow(q@, q@, froms, tos, q@[t], rel[t].0, rel[t].1, head - 1, head as int);
                }
            }
            while j < ne
                invariant
                    ne == self.edges@.len(),
                    wn == vk.len(),
                    n < wn,
                    n == q@[head - 1],
                    0 < head <= q@.len(),
                    done.len() == wn,
                    done[n as int],
                    tos == to_idx@,
                    froms == from_idx@,
                    tos.len() == ne,
                    froms.len() == ne,
                    forall|i: int| 0 <= i < ne ==> tos[i] < wn,
                    forall|i: int| 0 <= i < ne ==> #[trigger] from_ok(vk, froms[i], self.edges@[i].from@),
                    j <= ne,
                    indeg@.len() == wn,
                    forall|t: int| 0 <= t < q@.len() ==> #[trigger] q@[t] < wn,
                    forall|a: int, b: int| 0 <= a < b < q@.len() ==> q@[a] != q@[b],
                    forall|t: int| 0 <= t < head ==> done[#[trigger] q@[t] as int],
                    forall|t: int| head <= t < q@.len() ==> !done[#[trigger] q@[t] as int],
                    forall|u: int| 0 <= u < wn && #[trigger] done[u] ==> exists|t: int| 0 <= t < head && q@[t] == u,
                    forall|u: int| 0 <= u < wn ==> #[trigger] indeg@[u] == count_upto(ne as nat, pending_into(tos, froms, done, n as int, j as int, u)),
                    forall|t: int| head <= t < q@.len() ==> indeg@[#[trigger] q@[t] as int] == 0,
                    forall|u: int| 0 <= u < wn && #[trigger] indeg@[u] == 0 ==> q@.contains(u as usize),
                    forall|t: int, i: int| 0 <= t < head && 0 <= i < ne && #[trigger] tos[i] == #[trigger] q@[t] ==> popped_before(froms, q@, i, t),
                    vk == verts.keys(),
                    wn == vk.len(),
                    out@.len() == head,
                    forall|t: int| 0 <= t < head ==> #[trigger] out@[t]@ == vk[q@[t] as int],
                    q0.len() <= q@.len(),
                    forall|t: int| 0 <= t < q0.len() ==> #[trigger] q@[t] == q0[t],
                    r0 == q0.len(),
                    rel.len() == q@.len(),
                    forall|t: int| r0 <= t < q@.len() ==> #[trigger] rel_ok(q@, froms, tos, q@[t], rel[t].0, rel[t].1, head as int),
                    forall|t: int| r0 <= t < q@.len() ==> lex_lt(#[trigger] rel[t], (head - 1, j as int)),
                    forall|a: int, b: int| r0 <= a < b < q@.len() ==> lex_lt(#[trigger] rel[a], #[trigger] rel[b]),
                decreases ne - j,
            {
                let ghost jj = j as int;
                if from_idx[j] == Some(n) {
                    let t = to_idx[j];
                    let ghost pold = pending_into(tos, froms, done, n as int, jj, t as int);
                    let ghost pnew = pending_into(tos, froms, done, n as int, jj + 1, t as int);
                    proof {
                        lemma_count_drop_one(ne as nat, pold, pnew, jj);
                        assert forall|u: int| 0 <= u < wn && u != t implies #[trigger] count_upto(ne as nat, pending_into(tos, froms, done, n as int, jj + 1, u))
                            == count_upto(ne as nat, pending_into(tos, froms, done, n as int, jj, u)) by {
                            lemma_count_ext(ne as nat, pending_into(tos, froms, done, n as int, jj, u), pending_into(tos, froms, done, n as int, jj + 1, u));
                        }
                        // t is not queued yet
                        assert forall|tt: int| 0 <= tt < q@.len() implies q@[tt] != t by {
                            if tt >= head {
                            } else if q@[tt] == t {
                                // every edge into q[tt] came from a vertex popped before tt
                                assert(popped_before(froms, q@, jj, tt));
                                let t2 = choose|t2: int| 0 <= t2 < tt && q@[t2] == froms[jj]->0;
                                assert(q@[t2] == n);
                            }
                        }
                    }
                    let d = indeg[t];
                    indeg.set(t, d - 1);
                    if d - 1 == 0 {
                        let ghost oldq = q@;
                        let ghost old_rel = rel;
                        q.push(t);
                        proof {
                            rel = rel.push((head - 1, jj));
                            assert forall|i: int| 0 <= i < ne && #[trigger] tos[i] == t implies exists|p: int|
                                0 <= p < head && froms[i] == Some(q@[p]) && (p < head - 1 || (p == head - 1 && i <= jj)) by {
                                lemma_count_zero(ne as nat, pnew, i);
                                assert(!pending(froms, done, n as int, jj + 1, i));
                                assert(from_ok(vk, froms[i], self.edges@[i].from@));
                                let w = froms[i]->0;
                                assert(w < wn);
                                assert(done[w as int]);
                                assert(exists|t2: int| 0 <= t2 < head && oldq[t2] == w);
                                let p = choose|p: int| 0 <= p < head && oldq[p] == w;
                                assert(q@[p] == w);
                                if w == n {
                                    if p != head - 1 {
                                        assert(oldq[p] == oldq[head - 1]);
                                    }
                                } else {
                                    assert(p != head - 1);
                                }
                            }
                            assert(rel_ok(q@, froms, tos, t, head - 1, jj, head as int));
                            assert forall|tt: int| r0 <= tt < q@.len() implies #[trigger] rel_ok(q@, froms, tos, q@[tt], rel[tt].0, rel[tt].1, head as int) by {
                                if tt < oldq.len() {
                                    lemma_rel_ok_grow(oldq, q@, froms, tos, oldq[tt], old_rel[tt].0, old_rel[tt].1, head as int, head as int);
                                }
                            }
                            lemma_push_contains(oldq, t);
                            assert forall|u: int| 0 <= u < wn && #[trigger] done[u] implies exists|t2: int| 0 <= t2 < head && q@[t2] == u by {
                                let t2 = choose|t2: int| 0 <= t2 < head && oldq[t2] == u;
                                assert(q@[t2] == u);
                            }
                        }
                    }
                } else {
                    proof {
                        assert forall|u: int| 0 <= u < wn implies #[trigger] count_upto(ne as nat, pending_into(tos, froms, done, n as int, jj + 1, u))
                            == count_upto(ne as nat, pending_into(tos, froms, done, n as int, jj, u)) by {
                            lemma_count_ext(ne as nat, pending_into(tos, froms, done, n as int, jj, u), pending_into(tos, froms, done, n as int, jj + 1, u));
                        }
                    }
                }
                j = j + 1;
            }
            proof {
                assert forall|u: int| 0 <= u < wn implies #[trigger] indeg@[u] == count_upto(ne as nat, active_into(tos, froms, done, u)) by {
                    lemma_count_ext(ne as nat, pending_into(tos, froms, done, n as int, ne as int, u), active_into(tos, froms, done, u));
                }
            }
        }
        proof {
            let ov = views(out@);
            assert(ov.len() == head);
            assert forall|t: int| 0 <= t < head implies #[trigger] ov[t] == vk[q@[t] as int] by {}
            // distinct
            assert forall|a: int, b: int| 0 <= a < ov.len() && 0 <= b < ov.len() && a != b implies ov[a] != ov[b] by {
                if ov[a] == ov[b] {
                    assert(vk[q@[a] as int] == vk[q@[b] as int]);
                    if a < b { assert(q@[a] != q@[b]); } else { assert(q@[b] != q@[a]); }
                }
            }
            let r0 = q0.len() as int;
            assert forall|t: int| 0 <= t < r0 implies !has_edge_into(self, #[trigger] ov[t]) by {
                assert(q@[t] == q0[t]);
                assert(!has_edge_into(self, vk[q0[t] as int]));
            }
            assert forall|t: int| r0 <= t < ov.len() implies has_edge_into(self, #[trigger] ov[t]) by {
                let u = q@[t] as int;
                if q0.contains(u as usize) {
                    let t2 = choose|t2: int| 0 <= t2 < q0.len() && q0[t2] == u as usize;
                    assert(q@[t2] == q0[t2]);
                    assert(q@[t2] != q@[t]);
                }
                assert(has_edge_into(self, vk[u]));
            }
            assert forall|a: int, b: int| 0 <= a < b < r0 implies seq_lt(#[trigger] ov[a], #[trigger] ov[b]) by {
                assert(q@[a] == q0[a]);
                assert(q@[b] == q0[b]);
                assert(seq_lt(vk[q0[a] as int], vk[q0[b] as int]));
            }
            assert(sources_prefix(self, ov, r0));
            assert(ov.no_duplicates());
            assert(head == q@.len());
            lemma_ready_in_turn(self, ov, vk, q@, froms, tos, rel, r0);
            assert(sources_prefix(self, ov, r0) && ready_in_turn(self, ov, r0));
            assert forall|p: int| 0 <= p < ov.len() implies is_vertex(self, #[trigger] ov[p]) by {
                assert(vk.contains(vk[q@[p] as int]));
            }
            assert forall|p: int, i: int| 0 <= p < ov.len() && #[trigger] edge_into(self, i, ov[p]) implies exists|t: int|
                0 <= t < p && #[trigger] ov[t] == self.edges@[i].from@ by {
                assert(vk[tos[i] as int] == vk[q@[p] as int]);
                assert(tos[i] == q@[p]);
                assert(popped_before(froms, q@, i, p));
                let t2 = choose|t2: int| 0 <= t2 < p && q@[t2] == froms[i]->0;
                assert(from_ok(vk, froms[i], self.edges@[i].from@));
                assert(ov[t2] == self.edges@[i].from@);
            }
            assert forall|s: Seq<char>| is_vertex(self, s) && !ov.contains(s) implies exists|i: int|
                #[trigger] edge_into(self, i, s) && !ov.contains(self.edges@[i].from@) by {
                assert(vk.contains(s));
                let v = choose|v: int| 0 <= v < vk.len() && vk[v] == s;
                if q@.contains(v as usize) {
                    let t = choose|t: int| 0 <= t < q@.len() && q@[t] == v as usize;
                    assert(ov[t] == s);
                }
                assert(indeg@[v] != 0);
                if forall|i: int| 0 <= i < ne ==> !(tos[i] == v && active(froms, done, i)) {
                    lemma_count_none(ne as nat, active_into(tos, froms, done, v));
                }
                let i = choose|i: int| 0 <= i < ne && tos[i] == v && active(froms, done, i);
                assert(from_ok(vk, froms[i], self.edges@[i].from@));
                assert(edge_into(self, i, s));
                if ov.contains(self.edges@[i].from@) {
                    let t = choose|t: int| 0 <= t < ov.len() && ov[t] == self.edges@[i].from@;
                    assert(vk.contains(self.edges@[i].from@));
                    assert(froms[i] is Some);
                    assert(vk[q@[t] as int] == vk[froms[i]->0 as int]);
                    assert(q@[t] == froms[i]->0);
                    assert(done[q@[t] as int]);
                }
            }
        }
        out
    }
}

pub proof fn lemma_push_contains(s: Seq<usize>, x: usize)
    ensures
        s.push(x).contains(x),
        forall|y: usize| s.contains(y) ==> #[trigger] s.push(x).contains(y),
{
    assert(s.push(x)[s.len() as int] == x);
    assert forall|y: usize| s.contains(y) implies #[trigger] s.push(x).contains(y) by {
        let t = choose|t: int| 0 <= t < s.len() && s[t] == y;
        assert(s.push(x)[t] == y);
    }
}



/// Edge `k` is the first whose endpoints are not both nodes, and `s` is its
/// first missing endpoint (the source if that is missing, else the target).
pub open spec fn first_missing_endpoint<N>(dag: &Dag<N>, k: int, s: Seq<char>) -> bool {
    &&& 0 <= k < dag.edges@.len()
    &&& forall|j: int| 0 <= j < k ==> edge_known(&dag.nodes, #[trigger] dag.edges@[j])
    &&& if !dag.nodes.has(dag.edges@[k].from@) {
        s == dag.edges@[k].from@
    } else {
        !dag.nodes.has(dag.edges@[k].to@) && s == dag.edges@[k].to@
    }
}

/// The endpoint `build` reports is determined by the draft: there is one.
pub proof fn lemma_missing_endpoint_unique<N>(dag: &Dag<N>, s1: Seq<char>, s2: Seq<char>)
    requires
        missing_endpoint(dag, s1),
        missing_endpoint(dag, s2),
    ensures
        s1 == s2,
{
    let k1 = choose|k: int| first_missing_endpoint(dag, k, s1);
    let k2 = choose|k: int| first_missing_endpoint(dag, k, s2);
    if k1 < k2 {
        assert(edge_known(&dag.nodes, dag.edges@[k1]));
    } else if k2 < k1 {
        assert(edge_known(&dag.nodes, dag.edges@[k2]));
    }
}

/// `s` is the first missing endpoint of the first edge that has one.
pub open spec fn missing_endpoint<N>(dag: &Dag<N>, s: Seq<char>) -> bool {
    exists|k: int| first_missing_endpoint(dag, k, s)
}

/// Fluent builder: collect nodes and edges, then `build()` validates them.
pub struct DagBuilder<N> {
    name: String,
    nodes: NodeMap<N>,
    edges: Vec<Edge>,
}

impl<N> DagBuilder<N> {
    /// The DAG this builder describes (its id is chosen by `build`).
    pub closed spec fn draft(&self) -> Dag<N> {
        Dag { id: arbitrary(), name: self.name, nodes: self.nodes, edges: self.edges }
    }

    pub fn new(name: &str) -> (r: Self)
        ensures
            r.draft().name@ == name@,
            r.draft().nodes.keys().len() == 0,
            r.draft().edges@.len() == 0,
    {
        DagBuilder { name: String::from_str(name), nodes: NodeMap::new(), edges: Vec::new() }
    }

    /// Add (or replace) the node `id` with `payload`.
    pub fn node(self, id: &str, payload: N) -> (r: Self)
        ensures
            r.draft().name == self.draft().name,
            r.draft().edges == self.draft().edges,
            r.draft().nodes.as_map() == self.draft().nodes.as_map().insert(id@, payload),
            r.draft().nodes.keys().to_set() == self.draft().nodes.keys().to_set().insert(id@),
    {
        let mut b = self;
        b.nodes.insert(String::from_str(id), payload);
        b
    }

    /// Add an edge `from -> to` guarded by `cond`.
    pub fn edge(self, from: &str, to: &str, cond: EdgeCondition) -> (r: Self)
        ensures
            r.draft().name == self.draft().name,
            r.draft().nodes == self.draft().nodes,
            r.draft().edges@.len() == self.draft().edges@.len() + 1,
            r.draft().edges@.drop_last() == self.draft().edges@,
            r.draft().edges@.last().from@ == from@,
            r.draft().edges@.last().to@ == to@,
            r.draft().edges@.last().condition == cond,
    {
        let mut b = self;
        b.edges.push(Edge { from: String::from_str(from), to: String::from_str(to), condition: cond });
        assert(b.edges@.drop_last() =~= self.edges@);
        b
    }

    /// Validate and produce the DAG: every edge must connect known nodes
    /// (else `NodeNotFound` with the first missing endpoint) and the graph
    /// must be acyclic (else `CycleDetected`). The id is a fresh random UUID.
    pub fn build(self) -> (r: KernelResult<Dag<N>>)
        ensures
            match r {
                Ok(dag) => {
                    &&& dag.id@[6] >> 4u8 == 4u8
                    &&& dag.id@[8] >> 6u8 == 2u8
                    &&& dag.name == self.draft().name
                    &&& dag.nodes == self.draft().nodes
                    &&& dag.edges == self.draft().edges
                    &&& edges_reference_nodes(&dag)
                    &&& has_topological_order(&dag)
                },
                Err(KernelError::NodeNotFound(s)) => missing_endpoint(&self.draft(), s@),
                Err(KernelError::CycleDetected) => edges_reference_nodes(&self.draft()) && !has_topological_order(&self.draft()),
                Err(_) => false,
            },
            r is Err && !edges_reference_nodes(&self.draft()) ==> r matches Err(KernelError::NodeNotFound(_)),
            r is Ok <==> edges_reference_nodes(&self.draft()) && has_topological_order(&self.draft()),
    {
        let ghost draft = self.draft();
        let dag = Dag { id: crate::outside::new_v4_bytes(), name: self.name, nodes: self.nodes, edges: self.edges };
        assert(dag.nodes == draft.nodes && dag.edges == draft.edges);
        let mut i: usize = 0;
        while i < dag.edges.len()
            invariant
                draft == self.draft(),
                dag.nodes == draft.nodes,
                dag.edges == draft.edges,
                i <= dag.edges@.len(),
                forall|j: int| 0 <= j < i ==> edge_known(&dag.nodes, #[trigger] dag.edges@[j]),
            decreases dag.edges@.len() - i,
        {
            if !dag.nodes.contains_key(dag.edges[i].from.as_str()) {
                let s = dag.edges[i].from.clone();
                proof {
                    assert(!edge_known(&draft.nodes, draft.edges@[i as int]));
                    assert(first_missing_endpoint(&draft, i as int, s@));
                    assert(missing_endpoint(&self.draft(), s@));
                }
                return Err(KernelError::NodeNotFound(s));
            }
            if !dag.nodes.contains_key(dag.edges[i].to.as_str()) {
                let s = dag.edges[i].to.clone();
                proof {
                    assert(!edge_known(&draft.nodes, draft.edges@[i as int]));
                    assert(first_missing_endpoint(&draft, i as int, s@));
                    assert(missing_endpoint(&self.draft(), s@));
                }
                return Err(KernelError::NodeNotFound(s));
            }
            i = i + 1;
        }
        assert(edges_reference_nodes(&draft));
        dag.nodes.facts();
        let sorted = dag.topo_sort();
        proof {
            assert(edges_reference_nodes(&dag));
            if sorted is Ok {
                lemma_peel_complete_iff_acyclic(&dag, views(sorted->Ok_0@));
            } else {
                let o = choose|o: Seq<Seq<char>>| is_maximal_peel(&dag, o) && o.len() != dag.nodes.keys().len();
                lemma_peel_complete_iff_acyclic(&dag, o);
            }
            assert(has_topological_order(&dag) == has_topological_order(&draft)) by {
                assert forall|o: Seq<Seq<char>>| is_topological_order(&dag, o) == is_topological_order(&draft, o) by {}
            }
        }
        match sorted {
            Ok(_) => Ok(dag),
            Err(e) => Err(e),
        }
    }
}

/// Every edge connects two nodes of the DAG (what `DagBuilder::build` checks).
pub open spec fn edges_reference_nodes<N>(dag: &Dag<N>) -> bool {
    forall|i: int| 0 <= i < dag.edges@.len() ==> edge_known(&dag.nodes, #[trigger] dag.edges@[i])
}

/// Both endpoints of `e` are nodes.
pub open spec fn edge_known<N>(nodes: &NodeMap<N>, e: Edge) -> bool {
    nodes.has(e.from@) && nodes.has(e.to@)
}

/// `order` lists every node exactly once and every edge goes from an earlier to a later entry.
pub open spec fn is_topological_order<N>(dag: &Dag<N>, order: Seq<Seq<char>>) -> bool {
    &&& order.no_duplicates()
    &&& forall|p: int| 0 <= p < order.len() ==> dag.nodes.has(#[trigger] order[p])
    &&& forall|s: Seq<char>| dag.nodes.has(s) ==> #[trigger] order.contains(s)
    &&& forall|i: int| 0 <= i < dag.edges@.len() ==> #[trigger] goes_forward(order, dag.edges@[i])
}

/// Edge `e` leads from an earlier to a later entry of `order`.
pub open spec fn goes_forward(order: Seq<Seq<char>>, e: Edge) -> bool {
    exists|a: int, b: int| #![trigger order[a], order[b]] 0 <= a < b < order.len() && order[a] == e.from@ && order[b] == e.to@
}

/// The DAG is acyclic: its nodes can be listed so that every edge goes forward.
pub open spec fn has_topological_order<N>(dag: &Dag<N>) -> bool {
    exists|order: Seq<Seq<char>>| is_topological_order(dag, order)
}

proof fn lemma_peel_prefix_in<N>(dag: &Dag<N>, a: Seq<Seq<char>>, b: Seq<Seq<char>>, p: int)
    requires
        is_peel_order(dag, a),
        is_stuck(dag, b),
        0 <= p < a.len(),
    ensures
        b.contains(a[p]),
    decreases p,
{
    if !b.contains(a[p]) {
        assert(is_vertex(dag, a[p]));
        let i = choose|i: int| #[trigger] edge_into(dag, i, a[p]) && !b.contains(dag.edges@[i].from@);
        let t = choose|t: int| 0 <= t < p && #[trigger] a[t] == dag.edges@[i].from@;
        lemma_peel_prefix_in(dag, a, b, t);
    }
}

/// The vertices a maximal peel order lists do not depend on how it was
/// found: any two list the same vertices, hence equally many.
pub proof fn lemma_maximal_peel_unique<N>(dag: &Dag<N>, a: Seq<Seq<char>>, b: Seq<Seq<char>>)
    requires
        is_maximal_peel(dag, a),
        is_maximal_peel(dag, b),
    ensures
        forall|s: Seq<char>| a.contains(s) == b.contains(s),
        a.len() == b.len(),
{
    assert forall|s: Seq<char>| a.contains(s) implies b.contains(s) by {
        let p = choose|p: int| 0 <= p < a.len() && a[p] == s;
        lemma_peel_prefix_in(dag, a, b, p);
    }
    assert forall|s: Seq<char>| b.contains(s) implies a.contains(s) by {
        let p = choose|p: int| 0 <= p < b.len() && b[p] == s;
        lemma_peel_prefix_in(dag, b, a, p);
    }
    a.unique_seq_to_set();
    b.unique_seq_to_set();
    assert(a.to_set() =~= b.to_set());
}

proof fn lemma_topo_prefix_in<N>(dag: &Dag<N>, t: Seq<Seq<char>>, o: Seq<Seq<char>>, k: int)
    requires
        edges_reference_nodes(dag),
        is_topological_order(dag, t),
        is_stuck(dag, o),
        0 <= k < t.len(),
    ensures
        o.contains(t[k]),
    decreases k,
{
    if !o.contains(t[k]) {
        assert(dag.nodes.has(t[k]));
        assert(is_vertex(dag, t[k]));
        let i = choose|i: int| #[trigger] edge_into(dag, i, t[k]) && !o.contains(dag.edges@[i].from@);
        let e = dag.edges@[i];
        assert(goes_forward(t, e));
        let (a, b) = choose|a: int, b: int| #![trigger t[a], t[b]] 0 <= a < b < t.len() && t[a] == e.from@ && t[b] == e.to@;
        assert(t[b] == t[k]);
        assert(b == k);
        lemma_topo_prefix_in(dag, t, o, a);
    }
}

/// For a DAG whose edges connect its nodes, a maximal peel order reaches
/// every node exactly when the DAG is acyclic, and then it is a
/// topological order of the nodes.
pub proof fn lemma_peel_complete_iff_acyclic<N>(dag: &Dag<N>, order: Seq<Seq<char>>)
    requires
        keys_sorted(dag.nodes.keys()),
        edges_reference_nodes(dag),
        is_maximal_peel(dag, order),
    ensures
        (order.len() == dag.nodes.keys().len()) == has_topological_order(dag),
        order.len() == dag.nodes.keys().len() ==> is_topological_order(dag, order),
{
    broadcast use vstd::seq_lib::seq_to_set_is_finite;
    lemma_sorted_no_duplicates(dag.nodes.keys());
    let keys = dag.nodes.keys();
    assert forall|s: Seq<char>| is_vertex(dag, s) implies dag.nodes.has(s) by {
        if !dag.nodes.has(s) {
            let i = choose|i: int| 0 <= i < dag.edges@.len() && #[trigger] dag.edges@[i].to@ == s;
            assert(dag.nodes.has(dag.edges@[i].from@));
        }
    }
    assert(order.to_set().subset_of(keys.to_set()));
    order.unique_seq_to_set();
    keys.unique_seq_to_set();
    vstd::set_lib::lemma_len_subset(order.to_set(), keys.to_set());
    if order.len() == keys.len() {
        vstd::set_lib::lemma_subset_equality(order.to_set(), keys.to_set());
        assert forall|s: Seq<char>| dag.nodes.has(s) implies #[trigger] order.contains(s) by {
            assert(keys.to_set().contains(s));
        }
        assert forall|i: int| 0 <= i < dag.edges@.len() implies #[trigger] goes_forward(order, dag.edges@[i]) by {
            let e = dag.edges@[i];
            assert(order.contains(e.to@));
            let b = choose|b: int| 0 <= b < order.len() && order[b] == e.to@;
            assert(edge_into(dag, i, order[b]));
            let a = choose|a: int| 0 <= a < b && #[trigger] order[a] == dag.edges@[i].from@;
            assert(order[a] == e.from@ && order[b] == e.to@);
        }
        assert(is_topological_order(dag, order));
    } else {
        if has_topological_order(dag) {
            let t = choose|t: Seq<Seq<char>>| is_topological_order(dag, t);
            assert forall|s: Seq<char>| keys.to_set().contains(s) implies order.to_set().contains(s) by {
                assert(t.contains(s));
                let k = choose|k: int| 0 <= k < t.len() && t[k] == s;
                lemma_topo_prefix_in(dag, t, order, k);
            }
            vstd::set_lib::lemma_len_subset(keys.to_set(), order.to_set());
        }
    }
}

/// `f` is the vertex index of the endpoint `s`, or `None` when `s` is not a vertex.
pub open spec fn from_ok(vk: Seq<Seq<char>>, f: Option<usize>, s: Seq<char>) -> bool {
    match f {
        Some(u) => u < vk.len() && vk[u as int] == s,
        None => !vk.contains(s),
    }
}

/// Edge `i` still counts toward its target: its source has not been taken.
pub open spec fn active(froms: Seq<Option<usize>>, done: Seq<bool>, i: int) -> bool {
    !(froms[i] is Some && done[froms[i]->0 as int])
}

/// Edge `i` still counts while the edges of the just-taken vertex `n` are
/// being discharged up to (excluding) index `j`.
pub open spec fn pending(froms: Seq<Option<usize>>, done: Seq<bool>, n: int, j: int, i: int) -> bool {
    active(froms, done, i) || (froms[i] == Some(n as usize) && i >= j)
}

pub open spec fn into_pred(tos: Seq<usize>, u: int) -> spec_fn(int) -> bool {
    |i: int| tos[i] == u
}

pub open spec fn done_pred(done: Seq<bool>) -> spec_fn(int) -> bool {
    |u: int| done[u]
}

pub open spec fn active_into(tos: Seq<usize>, froms: Seq<Option<usize>>, done: Seq<bool>, u: int) -> spec_fn(int) -> bool {
    |i: int| tos[i] == u && active(froms, done, i)
}

pub open spec fn pending_into(tos: Seq<usize>, froms: Seq<Option<usize>>, done: Seq<bool>, n: int, j: int, u: int) -> spec_fn(int) -> bool {
    |i: int| tos[i] == u && pending(froms, done, n, j, i)
}

/// The source of edge `i` was taken at a position before `t`.
pub open spec fn popped_before(froms: Seq<Option<usize>>, q: Seq<usize>, i: int, t: int) -> bool {
    froms[i] is Some && exists|t2: int| 0 <= t2 < t && q[t2] == froms[i]->0
}

} // verus!
