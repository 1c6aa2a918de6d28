//! The graph container: an arena of nodes whose identities stay fixed when
//! other nodes are removed, backed by petgraph's `StableGraph`.

use vstd::prelude::*;
use petgraph::stable_graph::{NodeIndex, StableGraph};
use petgraph::Directed;
use petgraph::algo::kosaraju_scc;
use crate::connectivity::component_of;

verus! {

#[verifier::external_type_specification]
#[verifier::external_body]
#[verifier::reject_recursive_types(N)]
#[verifier::reject_recursive_types(E)]
#[verifier::reject_recursive_types(Ty)]
#[verifier::reject_recursive_types(Ix)]
pub struct ExStableGraph<N, E, Ty, Ix>(StableGraph<N, E, Ty, Ix>);

#[verifier::external_type_specification]
#[verifier::external_body]
pub struct ExDirected(Directed);

/// The petgraph graph that holds the nodes and edges of a [`GraphStore`].
pub type PetGraph = StableGraph<(), (), Directed>;

/// The node indices that are occupied in a `StableGraph`.
pub uninterp spec fn stable_nodes(g: PetGraph) -> Set<usize>;

/// The edges of a `StableGraph`: each occupied edge index with its
/// (source, target) pair.
pub uninterp spec fn stable_edges(g: PetGraph) -> Map<usize, (usize, usize)>;

/// The largest index value petgraph's default `u32` index type can hold.
pub const INDEX_END: usize = 0xffff_ffff;

/// Relies on `StableGraph::new`: a graph with no nodes and no edges.
#[verifier::external_body]
fn pet_new() -> (r: PetGraph)
    ensures
        stable_nodes(r) == Set::<usize>::empty(),
        stable_edges(r).dom() == Set::<usize>::empty(),
{
    StableGraph::new()
}

/// Relies on `StableGraph::clone`: the copy has the same occupied node and
/// edge slots.
#[verifier::external_body]
fn pet_clone(g: &PetGraph) -> (r: PetGraph)
    ensures
        stable_nodes(r) == stable_nodes(*g),
        stable_edges(r) == stable_edges(*g),
{
    g.clone()
}

/// Relies on `StableGraph::add_node`: it fills a vacant slot if there is one
/// and otherwise appends a slot, panicking only when the appended index would
/// be `u32::MAX`; slots are appended only while none is vacant.
#[verifier::external_body]
fn pet_add_node(g: &mut PetGraph) -> (r: usize)
    requires
        stable_nodes(*old(g)).finite(),
        stable_nodes(*old(g)).len() < INDEX_END,
    ensures
        r < INDEX_END,
        !stable_nodes(*old(g)).contains(r),
        stable_nodes(*final(g)) == stable_nodes(*old(g)).insert(r),
        stable_edges(*final(g)) == stable_edges(*old(g)),
{
    g.add_node(()).index()
}

/// Relies on `StableGraph::add_edge`: it panics only if an endpoint is not a
/// node, or when an appended edge index would be `u32::MAX`; the new edge
/// takes a vacant or appended edge slot.
#[verifier::external_body]
fn pet_add_edge(g: &mut PetGraph, a: usize, b: usize) -> (r: usize)
    requires
        a < INDEX_END,
        b < INDEX_END,
        stable_nodes(*old(g)).contains(a),
        stable_nodes(*old(g)).contains(b),
        stable_edges(*old(g)).dom().finite(),
        stable_edges(*old(g)).len() < INDEX_END,
    ensures
        !stable_edges(*old(g)).contains_key(r),
        stable_edges(*final(g)) == stable_edges(*old(g)).insert(r, (a, b)),
        stable_nodes(*final(g)) == stable_nodes(*old(g)),
{
    g.add_edge(NodeIndex::new(a), NodeIndex::new(b), ()).index()
}

/// Relies on `StableGraph::remove_node`: it vacates the node's slot and
/// removes every edge that starts or ends at it; other indices are kept.
/// An index that is not a node leaves the graph as it was.
#[verifier::external_body]
fn pet_remove_node(g: &mut PetGraph, n: usize)
    requires
        n < INDEX_END,
    ensures
        stable_nodes(*final(g)) == stable_nodes(*old(g)).remove(n),
        stable_edges(*final(g)) == edges_without(stable_edges(*old(g)), n),
{
    g.remove_node(NodeIndex::new(n));
}

/// Relies on `StableGraph::node_indices`: the occupied slots in increasing
/// index order.
#[verifier::external_body]
fn pet_node_indices(g: &PetGraph) -> (r: Vec<usize>)
    ensures
        forall|i: int, j: int| 0 <= i < j < r.len() ==> r[i] < r[j],
        forall|x: usize| stable_nodes(*g).contains(x) <==> r@.contains(x),
{
    g.node_indices().map(|n| n.index()).collect()
}

/// Relies on `StableGraph::edges`: for a directed graph, the edges whose
/// source is the given node (none if it is not a node).
#[verifier::external_body]
fn pet_out_degree(g: &PetGraph, n: usize) -> (r: usize)
    requires
        n < INDEX_END,
    ensures
        r == out_edges(stable_edges(*g), n).len(),
{
    g.edges(NodeIndex::new(n)).count()
}

/// Relies on `StableGraph::node_count`: the number of occupied node slots.
#[verifier::external_body]
fn pet_node_count(g: &PetGraph) -> (r: usize)
    ensures
        r == stable_nodes(*g).len(),
{
    g.node_count()
}

/// Relies on `StableGraph::edge_count`: the number of occupied edge slots.
#[verifier::external_body]
fn pet_edge_count(g: &PetGraph) -> (r: usize)
    ensures
        r == stable_edges(*g).len(),
{
    g.edge_count()
}

/// Relies on `petgraph::algo::kosaraju_scc`: the strongly connected
/// components of the graph, each listed once, with every node in exactly one
/// of them.
#[verifier::external_body]
fn pet_components(g: &PetGraph) -> (r: Vec<Vec<usize>>)
    ensures
        forall|i: int| 0 <= i < r.len() ==> r[i]@.len() > 0 && (#[trigger] r[i])@.no_duplicates(),
        forall|i: int, j: int| 0 <= i < r.len() && 0 <= j < r[i].len() ==>
            stable_nodes(*g).contains(#[trigger] r[i][j])
            && r[i]@.to_set() == component_of(stable_nodes(*g), stable_edges(*g), r[i][j]),
        forall|v: usize| stable_nodes(*g).contains(v) ==>
            exists|i: int, j: int| 0 <= i < r.len() && 0 <= j < r[i].len() && #[trigger] r[i][j] == v,
{
    kosaraju_scc(g).into_iter().map(|c| c.into_iter().map(|n| n.index()).collect()).collect()
}

/// The edges of `edges` that neither start nor end at `n`.
pub open spec fn edges_without(edges: Map<usize, (usize, usize)>, n: usize) -> Map<usize, (usize, usize)> {
    edges.restrict(edges.dom().filter(|k: usize| edges[k].0 != n && edges[k].1 != n))
}

/// The indices of the edges that start at `n`.
pub open spec fn out_edges(edges: Map<usize, (usize, usize)>, n: usize) -> Set<usize> {
    edges.dom().filter(|k: usize| edges[k].0 == n)
}

/// A directed graph whose node identities are never renumbered: removing a
/// node leaves every other node's identity as it was.
pub struct GraphStore {
    graph: PetGraph,
}

impl GraphStore {
    /// The identities of the nodes currently in the graph.
    pub closed spec fn nodes(&self) -> Set<usize> {
        stable_nodes(self.graph)
    }

    /// The edges currently in the graph, each under its own edge identity.
    pub closed spec fn edges(&self) -> Map<usize, (usize, usize)> {
        stable_edges(self.graph)
    }

    /// Finitely many nodes and edges, identities and the edge count within the
    /// index limit, and
    /// every edge between two nodes of the graph.
    pub open spec fn wf(&self) -> bool {
        &&& self.nodes().finite()
        &&& self.edges().dom().finite()
        &&& self.edges().len() <= INDEX_END
        &&& forall|n: usize| self.nodes().contains(n) ==> n < INDEX_END
        &&& forall|k: usize| #[trigger] self.edges().contains_key(k) ==>
                self.nodes().contains(self.edges()[k].0) && self.nodes().contains(self.edges()[k].1)
    }

    /// The out-degree of `n` in this graph (0 if `n` is not a node).
    pub open spec fn degree_of(&self, n: usize) -> nat {
        out_edges(self.edges(), n).len()
    }

    /// An empty graph.
    pub fn new() -> (r: GraphStore)
        ensures
            r.wf(),
            r.nodes() == Set::<usize>::empty(),
            r.edges().dom() == Set::<usize>::empty(),
    {
        GraphStore { graph: pet_new() }
    }

    /// Adds a node and returns its identity, which no current node has.
    /// Identities of surviving nodes never change; the identity of a node
    /// removed earlier may be given to the new node.
    pub fn add_node(&mut self) -> (r: usize)
        requires
            old(self).wf(),
            old(self).nodes().len() < INDEX_END,
        ensures
            final(self).wf(),
            !old(self).nodes().contains(r),
            final(self).nodes() == old(self).nodes().insert(r),
            final(self).edges() == old(self).edges(),
    {
        pet_add_node(&mut self.graph)
    }
    /// Adds an edge from `from` to `to` and returns its identity, which no
    /// current edge has. Parallel edges and self-loops are allowed.
    pub fn add_edge(&mut self, from: usize, to: usize) -> (r: usize)
        requires
            old(self).wf(),
            old(self).nodes().contains(from),
            old(self).nodes().contains(to),
            old(self).edges().len() < INDEX_END,
        ensures
            final(self).wf(),
            !old(self).edges().contains_key(r),
            final(self).edges() == old(self).edges().insert(r, (from, to)),
            final(self).nodes() == old(self).nodes(),
    {
        pet_add_edge(&mut self.graph, from, to)
    }

    /// Removes `n` and every edge that starts or ends at it. Removing an
    /// identity that is not a node changes nothing.
    pub fn remove_node(&mut self, n: usize)
        requires
            old(self).wf(),
        ensures
            final(self).wf(),
            final(self).nodes() == old(self).nodes().remove(n),
            final(self).edges() == edges_without(old(self).edges(), n),
    {
        if n < INDEX_END {
            pet_remove_node(&mut self.graph, n);
            proof {
                let oe = old(self).edges();
                assert(self.edges().dom().subset_of(oe.dom()));
                vstd::set_lib::lemma_set_subset_finite(oe.dom(), self.edges().dom());
                vstd::set_lib::lemma_len_subset(self.edges().dom(), oe.dom());
                assert forall|k: usize| #[trigger] self.edges().contains_key(k) implies
                    self.nodes().contains(self.edges()[k].0) && self.nodes().contains(self.edges()[k].1) by {
                    assert(oe.contains_key(k));
                }
            }
        } else {
            assert(self.nodes() =~= self.nodes().remove(n));
            assert(self.edges() =~= edges_without(self.edges(), n));
        }
    }

    /// The identities of the current nodes, in increasing order.
    pub fn node_ids(&self) -> (r: Vec<usize>)
        requires
            self.wf(),
        ensures
            forall|i: int, j: int| 0 <= i < j < r.len() ==> r[i] < r[j],
            forall|x: usize| self.nodes().contains(x) <==> r@.contains(x),
            r@.len() == self.nodes().len(),
    {
        let r = pet_node_indices(&self.graph);
        proof {
            assert(r@.no_duplicates());
            r@.unique_seq_to_set();
            assert(r@.to_set() =~= self.nodes());
        }
        r
    }

    /// The number of nodes.
    pub fn node_count(&self) -> (r: usize)
        ensures
            r == self.nodes().len(),
    {
        pet_node_count(&self.graph)
    }

    /// The number of edges.
    pub fn edge_count(&self) -> (r: usize)
        ensures
            r == self.edges().len(),
    {
        pet_edge_count(&self.graph)
    }

    /// The out-degree of `n`: the number of edges that start at it, or 0 if
    /// `n` is not a node.
    pub fn out_degree(&self, n: usize) -> (r: usize)
        requires
            self.wf(),
        ensures
            r == self.degree_of(n),
    {
        if n < INDEX_END {
            pet_out_degree(&self.graph, n)
        } else {
            assert(out_edges(self.edges(), n) =~= Set::<usize>::empty());
            0
        }
    }

    /// An independent copy with the same nodes and edges.
    pub fn duplicate(&self) -> (r: GraphStore)
        requires
            self.wf(),
        ensures
            r.wf(),
            r.nodes() == self.nodes(),
            r.edges() == self.edges(),
    {
        GraphStore { graph: pet_clone(&self.graph) }
    }

    /// The strongly connected components, each listed once and without
    /// repeats, with every node in exactly one of them.
    pub fn components(&self) -> (r: Vec<Vec<usize>>)
        requires
            self.wf(),
        ensures
            forall|i: int| 0 <= i < r.len() ==> r[i]@.len() > 0 && (#[trigger] r[i])@.no_duplicates(),
            forall|i: int, j: int| 0 <= i < r.len() && 0 <= j < r[i].len() ==>
                self.nodes().contains(#[trigger] r[i][j])
                && r[i]@.to_set() == component_of(self.nodes(), self.edges(), r[i][j]),
            forall|v: usize| self.nodes().contains(v) ==>
                exists|i: int, j: int| 0 <= i < r.len() && 0 <= j < r[i].len() && #[trigger] r[i][j] == v,
    {
        pet_components(&self.graph)
    }
}

} // verus!
