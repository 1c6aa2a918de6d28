//! Out-degree statistics: the degree distribution and the ranking of nodes
//! by out-degree.

use vstd::prelude::*;
use std::collections::HashMap;
use crate::graph::{GraphStore, INDEX_END};

verus! {

broadcast use vstd::std_specs::hash::group_hash_axioms;

/// The nodes of `among` whose out-degree in `g` is `d`.
pub open spec fn nodes_with_degree(g: GraphStore, among: Set<usize>, d: usize) -> Set<usize> {
    among.filter(|n: usize| g.degree_of(n) == d as nat)
}

/// `m` maps each out-degree that some node of `among` has to the number of
/// such nodes, and holds no other key.
pub open spec fn is_distribution(g: GraphStore, among: Set<usize>, m: Map<usize, usize>) -> bool {
    &&& forall|d: usize| #[trigger] m.contains_key(d) <==> nodes_with_degree(g, among, d).len() > 0
    &&& forall|d: usize| #[trigger] m.contains_key(d) ==> m[d] == nodes_with_degree(g, among, d).len()
}

/// Adding a node outside `among` adds it to the nodes of its own degree only.
proof fn lemma_with_degree_insert(g: GraphStore, among: Set<usize>, n: usize, d: usize)
    requires
        among.finite(),
        !among.contains(n),
    ensures
        nodes_with_degree(g, among, d).finite(),
        g.degree_of(n) == d as nat ==> nodes_with_degree(g, among.insert(n), d)
            == nodes_with_degree(g, among, d).insert(n),
        g.degree_of(n) != d as nat ==> nodes_with_degree(g, among.insert(n), d)
            == nodes_with_degree(g, among, d),
        nodes_with_degree(g, among, d).len() <= among.len(),
{
    vstd::set_lib::lemma_len_subset(nodes_with_degree(g, among, d), among);
    assert(nodes_with_degree(g, among.insert(n), d) =~= if g.degree_of(n) == d as nat {
        nodes_with_degree(g, among, d).insert(n)
    } else {
        nodes_with_degree(g, among, d)
    });
}

/// The degree distribution of `graph`: for each out-degree that occurs, the
/// number of nodes with that out-degree.
pub fn compute_degree_distribution(graph: &GraphStore) -> (r: HashMap<usize, usize>)
    requires
        graph.wf(),
    ensures
        is_distribution(*graph, graph.nodes(), r@),
{
    let ids = graph.node_ids();
    let mut dist: HashMap<usize, usize> = HashMap::new();
    let mut i: usize = 0;
    proof {
        assert(nodes_with_degree(*graph, ids@.subrange(0, 0).to_set(), 0) =~= Set::<usize>::empty());
        assert forall|d: usize| #[trigger] dist@.contains_key(d) <==> nodes_with_degree(*graph, ids@.subrange(0, 0).to_set(), d).len() > 0 by {
            assert(nodes_with_degree(*graph, ids@.subrange(0, 0).to_set(), d) =~= Set::<usize>::empty());
        }
    }
    while i < ids.len()
        invariant
            graph.wf(),
            i <= ids.len(),
            forall|a: int, b: int| 0 <= a < b < ids.len() ==> ids[a] < ids[b],
            is_distribution(*graph, ids@.subrange(0, i as int).to_set(), dist@),
        decreases ids.len() - i,
    {
        let n = ids[i];
        let d = graph.out_degree(n);
        let ghost before = ids@.subrange(0, i as int);
        proof {
            assert(before.no_duplicates());
            before.unique_seq_to_set();
            vstd::seq_lib::seq_to_set_is_finite(before);
            assert(!before.to_set().contains(n)) by {
                if before.contains(n) {
                    let j = choose|j: int| 0 <= j < before.len() && before[j] == n;
                    assert(ids[j] < ids[i as int]);
                }
            }
            lemma_with_degree_insert(*graph, before.to_set(), n, d);
            assert(ids@.subrange(0, i + 1).to_set() =~= before.to_set().insert(n)) by {
                assert(ids@.subrange(0, i + 1) =~= before.push(n));
                before.lemma_push_to_set_commute(n);
            }
        }
        let c: usize = match dist.get(&d) {
            Some(c) => *c,
            None => 0,
        };
        dist.insert(d, c + 1);
        proof {
            let after = ids@.subrange(0, i + 1).to_set();
            assert forall|e: usize| #[trigger] dist@.contains_key(e) <==> nodes_with_degree(*graph, after, e).len() > 0 by {
                lemma_with_degree_insert(*graph, before.to_set(), n, e);
            }
            assert forall|e: usize| #[trigger] dist@.contains_key(e) implies dist@[e] == nodes_with_degree(*graph, after, e).len() by {
                lemma_with_degree_insert(*graph, before.to_set(), n, e);
            }
        }
        i = i + 1;
    }
    proof {
        assert(ids@.subrange(0, ids.len() as int) =~= ids@);
        assert(ids@.to_set() =~= graph.nodes());
    }
    dist
}

/// Node `a` ranks before node `b`: a higher out-degree, or the same
/// out-degree and a smaller identity.
pub open spec fn ranks_before(g: GraphStore, a: usize, b: usize) -> bool {
    g.degree_of(a) > g.degree_of(b) || (g.degree_of(a) == g.degree_of(b) && a < b)
}

/// `s` lists the first `min(top_n, node count)` nodes of `g` in ranking
/// order, each with its out-degree.
pub open spec fn is_top_ranked(g: GraphStore, top_n: usize, s: Seq<(usize, usize)>) -> bool {
    &&& s.len() == if top_n < g.nodes().len() { top_n as nat } else { g.nodes().len() }
    &&& forall|i: int| 0 <= i < s.len() ==> g.nodes().contains(#[trigger] s[i].0) && s[i].1 == g.degree_of(s[i].0)
    &&& forall|i: int, j: int| 0 <= i < j < s.len() ==> ranks_before(g, #[trigger] s[i].0, #[trigger] s[j].0)
    &&& forall|v: usize| g.nodes().contains(v) && s.len() > 0 && (forall|i: int| 0 <= i < s.len() ==> s[i].0 != v)
            ==> ranks_before(g, s.last().0, v)
}

/// The `top_n` nodes of highest out-degree ("supernodes"), highest first,
/// each with its out-degree; equal degrees are ordered by identity. Fewer
/// are returned when the graph has fewer nodes.
pub fn identify_supernodes(graph: &GraphStore, top_n: usize) -> (r: Vec<(usize, usize)>)
    requires
        graph.wf(),
    ensures
        is_top_ranked(*graph, top_n, r@),
        r.len() <= top_n && r.len() <= graph.nodes().len(),
        forall|i: int, j: int| 0 <= i < j < r.len() ==> r[i].1 >= r[j].1,
{
    let g = Ghost(*graph);
    let ids = graph.node_ids();
    let mut degs: Vec<usize> = Vec::new();
    let mut k: usize = 0;
    while k < ids.len()
        invariant
            graph.wf(),
            k <= ids.len(),
            degs.len() == k,
            forall|a: int| 0 <= a < k ==> degs[a] == graph.degree_of(ids[a]),
            ids.len() == graph.nodes().len(),
            forall|x: usize| graph.nodes().contains(x) <==> ids@.contains(x),
            forall|a: int, b: int| 0 <= a < b < ids.len() ==> ids[a] < ids[b],
        decreases ids.len() - k,
    {
        degs.push(graph.out_degree(ids[k]));
        k = k + 1;
    }
    let limit: usize = if top_n < ids.len() { top_n } else { ids.len() };
    let mut r: Vec<(usize, usize)> = Vec::new();
    let ghost mut listed: Set<usize> = Set::empty();
    while r.len() < limit
        invariant
            graph.wf(),
            g@ == *graph,
            limit as nat == if top_n < graph.nodes().len() { top_n as nat } else { graph.nodes().len() },
            r.len() <= limit,
            ids.len() == graph.nodes().len(),
            degs.len() == ids.len(),
            forall|a: int| 0 <= a < ids.len() ==> degs[a] == graph.degree_of(ids[a]),
            forall|x: usize| graph.nodes().contains(x) <==> ids@.contains(x),
            forall|a: int, b: int| 0 <= a < b < ids.len() ==> ids[a] < ids[b],
            listed.finite(),
            listed.len() == r.len(),
            forall|x: usize| listed.contains(x) <==> exists|i: int| 0 <= i < r.len() && r[i].0 == x,
            forall|i: int| 0 <= i < r.len() ==> graph.nodes().contains(#[trigger] r[i].0) && r[i].1 == graph.degree_of(r[i].0),
            forall|i: int, j: int| 0 <= i < j < r.len() ==> ranks_before(g@, #[trigger] r[i].0, #[trigger] r[j].0),
            forall|v: usize| graph.nodes().contains(v) && r.len() > 0 && !listed.contains(v) ==> ranks_before(g@, r@.last().0, v),
        decreases limit - r.len(),
    {
        // Some node is not listed yet, and every such node is a candidate.
        proof {
            if forall|v: usize| graph.nodes().contains(v) ==> listed.contains(v) {
                assert(graph.nodes().subset_of(listed));
                vstd::set_lib::lemma_len_subset(graph.nodes(), listed);
            }
        }
        let mut best: usize = 0;
        let mut found = false;
        let mut j: usize = 0;
        while j < ids.len()
            invariant
                graph.wf(),
                g@ == *graph,
                j <= ids.len(),
                degs.len() == ids.len(),
                forall|a: int| 0 <= a < ids.len() ==> degs[a] == graph.degree_of(ids[a]),
                found ==> best < ids.len(),
                r.len() > 0 ==> r@.last().1 == graph.degree_of(r@.last().0),
                found ==> (r.len() == 0 || ranks_before(g@, r@.last().0, ids[best as int])),
                forall|a: int| 0 <= a < j && (r.len() == 0 || ranks_before(g@, r@.last().0, ids[a])) ==>
                    found && (a == best || ranks_before(g@, ids[best as int], ids[a])),
                forall|a: int, b: int| 0 <= a < b < ids.len() ==> ids[a] < ids[b],
            decreases ids.len() - j,
        {
            let candidate = r.len() == 0 || {
                let (lid, ld) = r[r.len() - 1];
                ld > degs[j] || (ld == degs[j] && lid < ids[j])
            };
            if candidate && (!found || degs[j] > degs[best] || (degs[j] == degs[best] && ids[j] < ids[best])) {
                best = j;
                found = true;
            } else {
                proof {
                    if candidate {
                        assert(best != j ==> ids[best as int] != ids[j as int]);
                    }
                }
            }
            j = j + 1;
        }
        proof {
            let v = choose|v: usize| graph.nodes().contains(v) && !listed.contains(v);
            let a = choose|a: int| 0 <= a < ids.len() && ids[a] == v;
            assert(found);
        }
        let p = ids[best];
        proof {
            if listed.contains(p) {
                let i = choose|i: int| 0 <= i < r.len() && r[i].0 == p;
                if i < r.len() - 1 {
                    assert(ranks_before(g@, r[i].0, r[r.len() - 1].0));
                }
            }
            assert forall|v: usize| graph.nodes().contains(v) && !listed.insert(p).contains(v)
                implies ranks_before(g@, p, v) by {
                let a = choose|a: int| 0 <= a < ids.len() && ids[a] == v;
            }
        }
        let ghost r0 = r@;
        r.push((p, degs[best]));
        proof {
            assert(r@ == r0.push((p, degs[best as int])));
            listed = listed.insert(p);
            assert forall|x: usize| listed.contains(x) <==> exists|i: int| 0 <= i < r.len() && r[i].0 == x by {
                if listed.contains(x) && x != p {
                    let i = choose|i: int| 0 <= i < r0.len() && r0[i].0 == x;
                    assert(r[i].0 == x);
                }
                if x == p {
                    assert(r[r.len() - 1].0 == x);
                }
            }
            assert forall|i: int, j: int| 0 <= i < j < r.len() implies ranks_before(g@, #[trigger] r[i].0, #[trigger] r[j].0) by {
                if j == r.len() - 1 && i < j - 1 {
                    assert(ranks_before(g@, r[i].0, r[j - 1].0));
                }
            }
        }
    }
    proof {
        assert forall|v: usize| graph.nodes().contains(v) && r.len() > 0 && (forall|i: int| 0 <= i < r.len() ==> r[i].0 != v)
            implies ranks_before(g@, r@.last().0, v) by {
            assert(!listed.contains(v));
        }
        assert forall|i: int, j: int| 0 <= i < j < r.len() implies r[i].1 >= r[j].1 by {
            assert(ranks_before(g@, r[i].0, r[j].0));
        }
    }
    r
}

/// The sum of the counts that `m` holds for the degrees below `b`.
pub open spec fn count_total(m: Map<usize, usize>, b: nat) -> nat
    decreases b,
{
    if b == 0 {
        0
    } else {
        count_total(m, (b - 1) as nat) + if m.contains_key((b - 1) as usize) {
            m[(b - 1) as usize] as nat
        } else {
            0
        }
    }
}

/// The counts for degrees below `b` add up to the nodes of degree below `b`.
proof fn lemma_count_total_below(g: GraphStore, m: Map<usize, usize>, b: nat)
    requires
        g.wf(),
        is_distribution(g, g.nodes(), m),
        b <= INDEX_END + 1,
    ensures
        count_total(m, b) == g.nodes().filter(|n: usize| g.degree_of(n) < b).len(),
    decreases b,
{
    let below = g.nodes().filter(|n: usize| g.degree_of(n) < b);
    if b == 0 {
        assert(below =~= Set::<usize>::empty());
    } else {
        let d = (b - 1) as usize;
        lemma_count_total_below(g, m, (b - 1) as nat);
        let lower = g.nodes().filter(|n: usize| g.degree_of(n) < (b - 1) as nat);
        let at = nodes_with_degree(g, g.nodes(), d);
        assert(below =~= lower.union(at));
        assert(lower.disjoint(at));
        vstd::set_lib::lemma_set_subset_finite(g.nodes(), lower);
        vstd::set_lib::lemma_set_subset_finite(g.nodes(), at);
        vstd::set_lib::lemma_set_disjoint_lens(lower, at);
        assert(m.contains_key(d) || at.len() == 0);
    }
}

/// Every node is counted exactly once: the counts of a degree distribution
/// of `g` add up to the number of nodes of `g` (no out-degree exceeds the
/// number of edges).
pub proof fn lemma_distribution_counts_all_nodes(g: GraphStore, m: Map<usize, usize>)
    requires
        g.wf(),
        is_distribution(g, g.nodes(), m),
    ensures
        count_total(m, g.edges().len() + 1) == g.nodes().len(),
{
    lemma_count_total_below(g, m, g.edges().len() + 1);
    assert forall|n: usize| g.nodes().contains(n) implies g.degree_of(n) < g.edges().len() + 1 by {
        vstd::set_lib::lemma_len_subset(crate::graph::out_edges(g.edges(), n), g.edges().dom());
    }
    assert(g.nodes().filter(|n: usize| g.degree_of(n) < g.edges().len() + 1) =~= g.nodes());
}

} // verus!
