//! Strongly connected components and the size of the largest one.

use vstd::prelude::*;
use crate::graph::GraphStore;

verus! {

/// Some edge of `edges` goes from `a` to `b`.
pub open spec fn has_edge(edges: Map<usize, (usize, usize)>, a: usize, b: usize) -> bool {
    exists|k: usize| edges.contains_key(k) && edges[k] == (a, b)
}

/// `p` is a non-empty walk along edges of `edges`.
pub open spec fn is_walk(edges: Map<usize, (usize, usize)>, p: Seq<usize>) -> bool {
    &&& p.len() >= 1
    &&& forall|i: int| 0 <= i < p.len() - 1 ==> has_edge(edges, #[trigger] p[i], p[i + 1])
}

/// A walk leads from `u` to `v` (every node reaches itself).
pub open spec fn reaches(edges: Map<usize, (usize, usize)>, u: usize, v: usize) -> bool {
    exists|p: Seq<usize>| is_walk(edges, p) && p[0] == u && p.last() == v
}

/// The nodes mutually reachable with `v`: its strongly connected component.
pub open spec fn component_of(nodes: Set<usize>, edges: Map<usize, (usize, usize)>, v: usize) -> Set<usize> {
    nodes.filter(|u: usize| reaches(edges, u, v) && reaches(edges, v, u))
}

/// `s` is the size of the largest strongly connected component, or 0 when
/// there are no nodes.
pub open spec fn is_largest_component_size(nodes: Set<usize>, edges: Map<usize, (usize, usize)>, s: nat) -> bool {
    &&& nodes.is_empty() ==> s == 0
    &&& forall|v: usize| nodes.contains(v) ==> #[trigger] component_of(nodes, edges, v).len() <= s
    &&& !nodes.is_empty() ==> exists|v: usize| nodes.contains(v) && component_of(nodes, edges, v).len() == s
}

/// The size of the largest strongly connected component of `graph`, or 0 for
/// an empty graph.
pub fn largest_component_size(graph: &GraphStore) -> (r: usize)
    requires
        graph.wf(),
    ensures
        is_largest_component_size(graph.nodes(), graph.edges(), r as nat),
{
    let comps = graph.components();
    let mut best: usize = 0;
    let mut i: usize = 0;
    while i < comps.len()
        invariant
            i <= comps.len(),
            forall|j: int| 0 <= j < i ==> comps[j].len() <= best,
            i == 0 ==> best == 0,
            i > 0 ==> exists|j: int| 0 <= j < i && comps[j].len() == best,
        decreases comps.len() - i,
    {
        if comps[i].len() > best {
            best = comps[i].len();
        }
        i = i + 1;
    }
    proof {
        let nodes = graph.nodes();
        let edges = graph.edges();
        assert forall|j: int| 0 <= j < comps.len() implies
            #[trigger] comps[j].len() == component_of(nodes, edges, comps[j][0]).len() by {
            comps[j]@.unique_seq_to_set();
        }
        assert forall|v: usize| nodes.contains(v) implies
            #[trigger] component_of(nodes, edges, v).len() <= best by {
            let (a, b) = choose|a: int, b: int| 0 <= a < comps.len() && 0 <= b < comps[a].len() && #[trigger] comps[a][b] == v;
            comps[a]@.unique_seq_to_set();
        }
        if comps.len() > 0 {
            let j = choose|j: int| 0 <= j < comps.len() && comps[j].len() == best;
            assert(nodes.contains(comps[j][0]));
        } else {
            if !nodes.is_empty() {
                let v = nodes.choose();
                assert(nodes.contains(v));
            }
        }
    }
    best
}

/// A graph with no nodes has largest component size 0.
pub proof fn lemma_empty_graph_largest_component(nodes: Set<usize>, edges: Map<usize, (usize, usize)>, s: nat)
    requires
        nodes.is_empty(),
        is_largest_component_size(nodes, edges, s),
    ensures
        s == 0,
{
}

/// In a graph with nodes and no edges every node is a component of its own,
/// so the largest component size is 1.
pub proof fn lemma_edgeless_graph_largest_component(nodes: Set<usize>, edges: Map<usize, (usize, usize)>, s: nat)
    requires
        nodes.finite(),
        !nodes.is_empty(),
        edges.dom().is_empty(),
        is_largest_component_size(nodes, edges, s),
    ensures
        s == 1,
{
    assert forall|v: usize| nodes.contains(v) implies #[trigger] component_of(nodes, edges, v) == set![v] by {
        let p = seq![v];
        assert(is_walk(edges, p));
        assert(p[0] == v && p.last() == v);
        assert(reaches(edges, v, v));
        assert forall|u: usize| reaches(edges, u, v) implies u == v by {
            let q = choose|q: Seq<usize>| is_walk(edges, q) && q[0] == u && q.last() == v;
            if q.len() > 1 {
                assert(has_edge(edges, q[0], q[1]));
                let k = choose|k: usize| edges.contains_key(k) && edges[k] == (q[0], q[1]);
                assert(edges.dom().contains(k));
            }
        }
        assert(component_of(nodes, edges, v) =~= set![v]);
    }
    let w = choose|w: usize| nodes.contains(w) && component_of(nodes, edges, w).len() == s;
    assert(set![w].len() == 1);
}

} // verus!
