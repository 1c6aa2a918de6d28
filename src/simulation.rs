//! Node-removal simulations: random failures and targeted attacks on the
//! highest out-degree nodes, each recorded as a trace of component sizes.

use vstd::prelude::*;
use rand::Rng;
use crate::graph::{GraphStore, edges_without};
use crate::connectivity::{is_largest_component_size, largest_component_size};
use crate::degree::{identify_supernodes, is_top_ranked};

verus! {

/// The identities named by the first `k` entries of a trace.
pub open spec fn removed_first(t: Seq<(usize, usize)>, k: int) -> Set<usize> {
    Set::new(|x: usize| exists|j: int| 0 <= j < k && t[j].0 == x)
}

/// The edges of `edges` that touch none of the nodes in `gone`.
pub open spec fn edges_after(edges: Map<usize, (usize, usize)>, gone: Set<usize>) -> Map<usize, (usize, usize)> {
    edges.restrict(edges.dom().filter(|k: usize| !gone.contains(edges[k].0) && !gone.contains(edges[k].1)))
}

/// Each entry of `t` names a node of `g` that was still present before that
/// step, and gives the size of the largest strongly connected component of
/// `g` once that node and all nodes of earlier entries are removed.
pub open spec fn is_removal_trace(g: GraphStore, t: Seq<(usize, usize)>) -> bool {
    forall|i: int| 0 <= i < t.len() ==> {
        &&& g.nodes().contains(#[trigger] t[i].0)
        &&& !removed_first(t, i).contains(t[i].0)
        &&& is_largest_component_size(
            g.nodes().difference(removed_first(t, i + 1)),
            edges_after(g.edges(), removed_first(t, i + 1)),
            t[i].1 as nat,
        )
    }
}

/// Relies on `rand::thread_rng` and `Rng::gen_range`: a value drawn from
/// `0..n`, which must not be empty.
#[verifier::external_body]
fn random_below(n: usize) -> (r: usize)
    requires
        n > 0,
    ensures
        r < n,
{
    rand::thread_rng().gen_range(0..n)
}

/// Removing one more node `n` from a graph that already lost `gone`.
proof fn lemma_remove_one(g: GraphStore, t: Seq<(usize, usize)>, n: usize, size: usize)
    ensures
        removed_first(t.push((n, size)), t.len() as int + 1) == removed_first(t, t.len() as int).insert(n),
        g.nodes().difference(removed_first(t, t.len() as int)).remove(n)
            == g.nodes().difference(removed_first(t, t.len() as int).insert(n)),
        edges_without(edges_after(g.edges(), removed_first(t, t.len() as int)), n)
            == edges_after(g.edges(), removed_first(t, t.len() as int).insert(n)),
        forall|k: int| 0 <= k <= t.len() ==> removed_first(t.push((n, size)), k) == removed_first(t, k),
{
    let t2 = t.push((n, size));
    assert(removed_first(t2, t.len() as int + 1) =~= removed_first(t, t.len() as int).insert(n)) by {
        assert(t2[t.len() as int].0 == n);
        assert forall|x: usize| removed_first(t, t.len() as int).contains(x) implies removed_first(t2, t.len() as int + 1).contains(x) by {
            let j = choose|j: int| 0 <= j < t.len() && t[j].0 == x;
            assert(t2[j].0 == x);
        }
    }
    assert(g.nodes().difference(removed_first(t, t.len() as int)).remove(n)
        =~= g.nodes().difference(removed_first(t, t.len() as int).insert(n)));
    assert(edges_without(edges_after(g.edges(), removed_first(t, t.len() as int)), n)
        =~= edges_after(g.edges(), removed_first(t, t.len() as int).insert(n)));
    assert forall|k: int| 0 <= k <= t.len() implies removed_first(t2, k) == removed_first(t, k) by {
        assert forall|x: usize| removed_first(t2, k).contains(x) <==> removed_first(t, k).contains(x) by {
            if removed_first(t2, k).contains(x) {
                let j = choose|j: int| 0 <= j < k && t2[j].0 == x;
                assert(t[j].0 == x);
            }
            if removed_first(t, k).contains(x) {
                let j = choose|j: int| 0 <= j < k && t[j].0 == x;
                assert(t2[j].0 == x);
            }
        }
        assert(removed_first(t2, k) =~= removed_first(t, k));
    }
}

/// Removes the supernodes of `graph` (see [`identify_supernodes`]) one by
/// one, in ranking order, from a private copy, and records after each removal
/// the removed node and the size of the largest strongly connected component.
pub fn simulate_targeted_attacks(graph: &GraphStore, top_n: usize) -> (r: Vec<(usize, usize)>)
    requires
        graph.wf(),
    ensures
        is_removal_trace(*graph, r@),
        exists|s: Seq<(usize, usize)>| #[trigger] is_top_ranked(*graph, top_n, s)
            && s.len() == r.len() && forall|i: int| 0 <= i < r.len() ==> r[i].0 == s[i].0,
{
    let supernodes = identify_supernodes(graph, top_n);
    let mut work = graph.duplicate();
    let mut trace: Vec<(usize, usize)> = Vec::new();
    let mut i: usize = 0;
    proof {
        assert(graph.nodes().difference(removed_first(trace@, 0)) =~= graph.nodes());
        assert(edges_after(graph.edges(), removed_first(trace@, 0)) =~= graph.edges());
    }
    while i < supernodes.len()
        invariant
            graph.wf(),
            work.wf(),
            is_top_ranked(*graph, top_n, supernodes@),
            i <= supernodes.len(),
            trace.len() == i,
            forall|j: int| 0 <= j < i ==> trace[j].0 == supernodes[j].0,
            work.nodes() == graph.nodes().difference(removed_first(trace@, i as int)),
            work.edges() == edges_after(graph.edges(), removed_first(trace@, i as int)),
            is_removal_trace(*graph, trace@),
        decreases supernodes.len() - i,
    {
        let n = supernodes[i].0;
        work.remove_node(n);
        let size = largest_component_size(&work);
        proof {
            lemma_remove_one(*graph, trace@, n, size);
            assert(!removed_first(trace@, i as int).contains(n)) by {
                if removed_first(trace@, i as int).contains(n) {
                    let j = choose|j: int| 0 <= j < i && trace[j].0 == n;
                    assert(supernodes[j].0 == n);
                    assert(crate::degree::ranks_before(*graph, supernodes[j].0, supernodes[i as int].0));
                }
            }
        }
        let ghost t0 = trace@;
        trace.push((n, size));
        proof {
            assert(trace@ == t0.push((n, size)));
            assert forall|j: int| 0 <= j < trace.len() implies {
                &&& graph.nodes().contains(#[trigger] trace@[j].0)
                &&& !removed_first(trace@, j).contains(trace@[j].0)
                &&& is_largest_component_size(
                    graph.nodes().difference(removed_first(trace@, j + 1)),
                    edges_after(graph.edges(), removed_first(trace@, j + 1)),
                    trace@[j].1 as nat,
                )
            } by {
                if j < i {
                    assert(trace@[j] == t0[j]);
                }
            }
        }
        i = i + 1;
    }
    proof {
        assert(is_top_ranked(*graph, top_n, supernodes@));
    }
    trace
}

/// In a set listed by `ids` in increasing order, exactly `k` members are
/// smaller than `ids[k]`.
proof fn lemma_rank(ids: Seq<usize>, s: Set<usize>, k: int)
    requires
        forall|a: int, b: int| 0 <= a < b < ids.len() ==> ids[a] < ids[b],
        forall|x: usize| s.contains(x) <==> ids.contains(x),
        0 <= k < ids.len(),
    ensures
        s.filter(|x: usize| x < ids[k]).len() == k,
{
    let prefix = ids.subrange(0, k);
    let below = s.filter(|y: usize| y < ids[k]);
    assert forall|x: usize| #[trigger] below.contains(x) <==> prefix.to_set().contains(x) by {
        if below.contains(x) {
            let a = choose|a: int| 0 <= a < ids.len() && ids[a] == x;
            if a >= k {
                assert(ids[k] <= ids[a]);
            }
            assert(prefix[a] == x);
        }
        if prefix.to_set().contains(x) {
            let a = choose|a: int| 0 <= a < prefix.len() && prefix[a] == x;
            assert(ids[a] == x);
        }
    }
    assert(below =~= prefix.to_set());
    assert(prefix.no_duplicates());
    prefix.unique_seq_to_set();
}

/// Random failures with the choices given: at step `i`, while nodes remain,
/// the node removed from a private copy of `graph` is the one with exactly
/// `picks[i] % (nodes left)` smaller identities among the nodes left. The
/// trace records each removed node with the size of the largest strongly
/// connected component after its removal, and stops when no node is left.
pub fn simulate_resilience_with_picks(graph: &GraphStore, picks: &Vec<usize>) -> (r: Vec<(usize, usize)>)
    requires
        graph.wf(),
    ensures
        r.len() == if picks.len() < graph.nodes().len() { picks.len() as nat } else { graph.nodes().len() },
        is_removal_trace(*graph, r@),
        forall|i: int| 0 <= i < r.len() ==> graph.nodes().difference(removed_first(r@, i)).filter(
            |x: usize| x < (#[trigger] r[i]).0).len() == picks[i] as nat % (graph.nodes().len() - i) as nat,
{
    let total = graph.node_count();
    let mut work = graph.duplicate();
    let mut trace: Vec<(usize, usize)> = Vec::new();
    let mut i: usize = 0;
    proof {
        assert(graph.nodes().difference(removed_first(trace@, 0)) =~= graph.nodes());
        assert(edges_after(graph.edges(), removed_first(trace@, 0)) =~= graph.edges());
    }
    while i < picks.len() && i < total
        invariant
            graph.wf(),
            work.wf(),
            total == graph.nodes().len(),
            i <= total,
            i <= picks.len(),
            trace.len() == i,
            work.nodes().len() == total - i,
            work.nodes() == graph.nodes().difference(removed_first(trace@, i as int)),
            work.edges() == edges_after(graph.edges(), removed_first(trace@, i as int)),
            is_removal_trace(*graph, trace@),
            forall|j: int| 0 <= j < i ==> graph.nodes().difference(removed_first(trace@, j)).filter(
                |x: usize| x < (#[trigger] trace[j]).0).len() == picks[j] as nat % (graph.nodes().len() - j) as nat,
        decreases total - i,
    {
        let ids = work.node_ids();
        let k = picks[i] % ids.len();
        let n = ids[k];
        proof {
            assert(ids@.contains(n));
            lemma_rank(ids@, work.nodes(), k as int);
        }
        work.remove_node(n);
        let size = largest_component_size(&work);
        proof {
            lemma_remove_one(*graph, trace@, n, size);
        }
        let ghost t0 = trace@;
        trace.push((n, size));
        proof {
            assert(trace@ == t0.push((n, size)));
            assert forall|j: int| 0 <= j < trace.len() implies {
                &&& graph.nodes().contains(#[trigger] trace@[j].0)
                &&& !removed_first(trace@, j).contains(trace@[j].0)
                &&& is_largest_component_size(
                    graph.nodes().difference(removed_first(trace@, j + 1)),
                    edges_after(graph.edges(), removed_first(trace@, j + 1)),
                    trace@[j].1 as nat,
                )
            } by {
                if j < i {
                    assert(trace@[j] == t0[j]);
                }
            }
            assert forall|j: int| 0 <= j < trace.len() implies graph.nodes().difference(removed_first(trace@, j)).filter(
                |x: usize| x < (#[trigger] trace[j]).0).len() == picks[j] as nat % (graph.nodes().len() - j) as nat by {
                if j < i {
                    assert(trace@[j] == t0[j]);
                }
            }
        }
        i = i + 1;
    }
    trace
}

/// Random failures: removes up to `num_removals` nodes, each drawn uniformly
/// from the nodes left in a private copy of `graph`, and records each removed
/// node with the size of the largest strongly connected component after its
/// removal. The trace stops early once no node is left.
pub fn simulate_resilience(graph: &GraphStore, num_removals: usize) -> (r: Vec<(usize, usize)>)
    requires
        graph.wf(),
    ensures
        r.len() == if num_removals < graph.nodes().len() { num_removals as nat } else { graph.nodes().len() },
        is_removal_trace(*graph, r@),
{
    let total = graph.node_count();
    let steps: usize = if num_removals < total { num_removals } else { total };
    let mut picks: Vec<usize> = Vec::new();
    let mut j: usize = 0;
    while j < steps
        invariant
            steps <= total,
            j <= steps,
            picks.len() == j,
        decreases steps - j,
    {
        picks.push(random_below(total - j));
        j = j + 1;
    }
    simulate_resilience_with_picks(graph, &picks)
}

} // verus!
