//! Building a graph from an edge list whose endpoints are external integer
//! identifiers, and reading such a list from text.

use vstd::prelude::*;
use std::collections::HashMap;
use crate::graph::{GraphStore, INDEX_END};

verus! {

broadcast use vstd::std_specs::hash::group_hash_axioms;

/// The most edges [`graph_from_edges`] accepts: the node and edge identities
/// of the graph must stay below the index limit.
pub const MAX_EDGES: usize = 0x7fff_fffe;

/// `x` is an endpoint of some pair of `pairs`.
pub open spec fn occurs(pairs: Seq<(usize, usize)>, x: usize) -> bool {
    exists|i: int| 0 <= i < pairs.len() && (pairs[i].0 == x || pairs[i].1 == x)
}

/// `ids` sends the identifiers occurring in `pairs` one-to-one onto the nodes
/// of `g`, and `keys` lists the edges of `g`, one for each pair, in order,
/// between the nodes of its endpoints.
pub open spec fn builds(pairs: Seq<(usize, usize)>, g: GraphStore, ids: Map<usize, usize>, keys: Seq<usize>) -> bool {
    &&& forall|x: usize| #[trigger] ids.contains_key(x) <==> occurs(pairs, x)
    &&& forall|x: usize, y: usize| ids.contains_key(x) && ids.contains_key(y) && x != y ==> #[trigger] ids[x] != #[trigger] ids[y]
    &&& forall|x: usize| #[trigger] ids.contains_key(x) ==> g.nodes().contains(ids[x])
    &&& forall|v: usize| g.nodes().contains(v) ==> exists|x: usize| #[trigger] ids.contains_key(x) && ids[x] == v
    &&& keys.len() == pairs.len()
    &&& keys.no_duplicates()
    &&& forall|k: usize| g.edges().contains_key(k) <==> keys.contains(k)
    &&& forall|i: int| 0 <= i < keys.len() ==> g.edges()[#[trigger] keys[i]] == (ids[pairs[i].0], ids[pairs[i].1])
}

/// The node for identifier `x`, added to the graph if `x` has none yet.
fn node_for(g: &mut GraphStore, ids: &mut HashMap<usize, usize>, x: usize) -> (r: usize)
    requires
        old(g).wf(),
        old(g).nodes().len() < INDEX_END,
        forall|y: usize| #[trigger] old(ids)@.contains_key(y) ==> old(g).nodes().contains(old(ids)@[y]),
        forall|v: usize| old(g).nodes().contains(v) ==> exists|y: usize| #[trigger] old(ids)@.contains_key(y) && old(ids)@[y] == v,
    ensures
        final(g).wf(),
        final(ids)@ == old(ids)@.insert(x, r),
        final(g).nodes().contains(r),
        final(g).edges() == old(g).edges(),
        old(ids)@.contains_key(x) ==> r == old(ids)@[x] && final(g).nodes() == old(g).nodes(),
        !old(ids)@.contains_key(x) ==> !old(g).nodes().contains(r) && final(g).nodes() == old(g).nodes().insert(r),
{
    match ids.get(&x) {
        Some(v) => {
            let v = *v;
            proof {
                assert(ids@.insert(x, v) =~= ids@);
            }
            v
        },
        None => {
            let v = g.add_node();
            ids.insert(x, v);
            v
        },
    }
}

/// The graph with one node per distinct identifier of `pairs` and one edge
/// per pair, together with the map from each identifier to its node.
pub fn graph_from_edges(pairs: &Vec<(usize, usize)>) -> (r: (GraphStore, HashMap<usize, usize>))
    requires
        pairs.len() <= MAX_EDGES,
    ensures
        r.0.wf(),
        exists|keys: Seq<usize>| builds(pairs@, r.0, r.1@, keys),
{
    let mut g = GraphStore::new();
    let mut ids: HashMap<usize, usize> = HashMap::new();
    let ghost mut keys: Seq<usize> = Seq::empty();
    let mut i: usize = 0;
    while i < pairs.len()
        invariant
            g.wf(),
            i <= pairs.len(),
            pairs.len() <= MAX_EDGES,
            g.nodes().len() <= 2 * i,
            builds(pairs@.subrange(0, i as int), g, ids@, keys),
        decreases pairs.len() - i,
    {
        let (from, to) = pairs[i];
        let ghost pre = pairs@.subrange(0, i as int);
        let ghost g0 = g;
        let ghost ids0 = ids@;
        let a = node_for(&mut g, &mut ids, from);
        let ghost ids1 = ids@;
        proof {
            assert forall|v: usize| g.nodes().contains(v) implies exists|y: usize| #[trigger] ids@.contains_key(y) && ids@[y] == v by {
                if v != a {
                    assert(g0.nodes().contains(v));
                    let y = choose|y: usize| #[trigger] ids0.contains_key(y) && ids0[y] == v;
                    assert(ids@.contains_key(y) && ids@[y] == v);
                } else {
                    assert(ids@.contains_key(from));
                }
            }
        }
        let b = node_for(&mut g, &mut ids, to);
        proof {
            keys.unique_seq_to_set();
            assert(keys.to_set() =~= g.edges().dom());
        }
        let k = g.add_edge(a, b);
        proof {
            let post = pairs@.subrange(0, i + 1);
            assert(post == pre.push((from, to)));
            let keys0 = keys;
            keys = keys.push(k);
            assert(!keys0.contains(k));
            assert forall|x: usize| #[trigger] ids@.contains_key(x) <==> occurs(post, x) by {
                if occurs(pre, x) {
                    let j = choose|j: int| 0 <= j < pre.len() && (pre[j].0 == x || pre[j].1 == x);
                    assert(post[j] == pre[j]);
                }
                if occurs(post, x) && x != from && x != to {
                    let j = choose|j: int| 0 <= j < post.len() && (post[j].0 == x || post[j].1 == x);
                    assert(pre[j] == post[j]);
                }
                if x == from || x == to {
                    assert(post[i as int] == (from, to));
                }
            }
            assert forall|x: usize, y: usize| ids@.contains_key(x) && ids@.contains_key(y) && x != y
                implies #[trigger] ids@[x] != #[trigger] ids@[y] by {
                if ids0.contains_key(x) && ids0.contains_key(y) {
                } else {
                }
            }
            assert forall|v: usize| g.nodes().contains(v) implies exists|y: usize| #[trigger] ids@.contains_key(y) && ids@[y] == v by {
                if v == b {
                    assert(ids@.contains_key(to));
                } else {
                    let y = choose|y: usize| #[trigger] ids1.contains_key(y) && ids1[y] == v;
                    assert(ids@.contains_key(y) && ids@[y] == v);
                }
            }
            assert forall|kk: usize| g.edges().contains_key(kk) <==> keys.contains(kk) by {
                if keys0.contains(kk) {
                    let j = choose|j: int| 0 <= j < keys0.len() && keys0[j] == kk;
                    assert(keys[j] == kk);
                }
                if keys.contains(kk) && kk != k {
                    let j = choose|j: int| 0 <= j < keys.len() && keys[j] == kk;
                    assert(keys0[j] == kk);
                }
                if kk == k {
                    assert(keys[keys.len() - 1] == k);
                }
            }
            assert forall|j: int| 0 <= j < keys.len() implies g.edges()[#[trigger] keys[j]] == (ids@[post[j].0], ids@[post[j].1]) by {
                if j < keys0.len() {
                    assert(keys[j] == keys0[j]);
                    assert(pre[j] == post[j]);
                    assert(ids0.contains_key(pre[j].0)) by {
                        assert(occurs(pre, pre[j].0));
                    }
                    assert(ids0.contains_key(pre[j].1)) by {
                        assert(occurs(pre, pre[j].1));
                    }
                }
            }
        }
        i = i + 1;
    }
    proof {
        assert(pairs@.subrange(0, pairs.len() as int) =~= pairs@);
    }
    let r = (g, ids);
    proof {
        assert(builds(pairs@, r.0, r.1@, keys));
    }
    r
}

/// The byte `\n`, which ends a line.
pub const NEWLINE: u8 = 10;

/// The byte `#`, which starts a comment line.
pub const HASH: u8 = 35;

/// ASCII whitespace: space, tab, line feed, vertical tab, form feed and
/// carriage return.
pub open spec fn is_space(b: u8) -> bool {
    b == 32 || (9 <= b && b <= 13)
}

/// The lines of `t` that follow a line whose bytes so far are `cur`; a final
/// line without a line feed counts only if it is not empty.
pub open spec fn lines_from(t: Seq<u8>, cur: Seq<u8>) -> Seq<Seq<u8>>
    decreases t.len(),
{
    if t.len() == 0 {
        if cur.len() == 0 { seq![] } else { seq![cur] }
    } else if t[0] == NEWLINE {
        seq![cur] + lines_from(t.drop_first(), seq![])
    } else {
        lines_from(t.drop_first(), cur.push(t[0]))
    }
}

/// The lines of `t`, without their line feeds.
pub open spec fn lines(t: Seq<u8>) -> Seq<Seq<u8>> {
    lines_from(t, seq![])
}

/// The words of `t` that follow a word whose bytes so far are `cur`.
pub open spec fn words_from(t: Seq<u8>, cur: Seq<u8>) -> Seq<Seq<u8>>
    decreases t.len(),
{
    if t.len() == 0 {
        if cur.len() == 0 { seq![] } else { seq![cur] }
    } else if is_space(t[0]) {
        (if cur.len() == 0 { seq![] } else { seq![cur] }) + words_from(t.drop_first(), seq![])
    } else {
        words_from(t.drop_first(), cur.push(t[0]))
    }
}

/// The maximal runs of non-whitespace bytes of `t`.
pub open spec fn words(t: Seq<u8>) -> Seq<Seq<u8>> {
    words_from(t, seq![])
}

/// Every byte of `d` is a decimal digit.
pub open spec fn all_digits(d: Seq<u8>) -> bool {
    forall|i: int| 0 <= i < d.len() ==> 48 <= #[trigger] d[i] && d[i] <= 57
}

/// The number that the decimal digits `d` spell.
pub open spec fn digits_value(d: Seq<u8>) -> nat
    decreases d.len(),
{
    if d.len() == 0 { 0 } else { digits_value(d.drop_last()) * 10 + (d.last() - 48) as nat }
}

/// The non-negative integer that `w` spells: an optional `+`, then at least
/// one decimal digit, with a value that fits in `usize`.
pub open spec fn number_of(w: Seq<u8>) -> Option<usize> {
    let d = if w.len() > 0 && w[0] == 43 { w.drop_first() } else { w };
    if d.len() > 0 && all_digits(d) && digits_value(d) <= usize::MAX {
        Some(digits_value(d) as usize)
    } else {
        None
    }
}

/// What one line of an edge list holds.
#[derive(PartialEq, Eq, Structural, Debug, Clone, Copy)]
pub enum LineOutcome {
    /// A comment, or a line without exactly two words.
    Skip,
    /// An edge between the two identifiers.
    Pair(usize, usize),
    /// Two words, not both identifiers.
    Bad,
}

/// A line starting with `#` is a comment; a line of exactly two words is an
/// edge if both are identifiers and malformed otherwise; any other line is
/// skipped.
pub open spec fn line_outcome(l: Seq<u8>) -> LineOutcome {
    if l.len() > 0 && l[0] == HASH {
        LineOutcome::Skip
    } else if words(l).len() != 2 {
        LineOutcome::Skip
    } else {
        match (number_of(words(l)[0]), number_of(words(l)[1])) {
            (Some(a), Some(b)) => LineOutcome::Pair(a, b),
            _ => LineOutcome::Bad,
        }
    }
}

/// The edges of the lines `ls` in order, or the 1-based number of the first
/// malformed line.
pub open spec fn edges_of_lines(ls: Seq<Seq<u8>>) -> Result<Seq<(usize, usize)>, nat>
    decreases ls.len(),
{
    if ls.len() == 0 {
        Ok(seq![])
    } else {
        match edges_of_lines(ls.drop_last()) {
            Err(e) => Err(e),
            Ok(p) => match line_outcome(ls.last()) {
                LineOutcome::Skip => Ok(p),
                LineOutcome::Pair(a, b) => Ok(p.push((a, b))),
                LineOutcome::Bad => Err(ls.len()),
            },
        }
    }
}

/// An error met at some line stays the answer whatever lines follow.
proof fn lemma_error_sticks(ls: Seq<Seq<u8>>, rest: Seq<Seq<u8>>)
    requires
        edges_of_lines(ls) is Err,
    ensures
        edges_of_lines(ls + rest) == edges_of_lines(ls),
    decreases rest.len(),
{
    if rest.len() > 0 {
        lemma_error_sticks(ls, rest.drop_last());
        assert((ls + rest).drop_last() =~= ls + rest.drop_last());
    }
}

/// The words of a line.
fn split_words(l: &Vec<u8>) -> (r: Vec<Vec<u8>>)
    ensures
        r@.map_values(|w: Vec<u8>| w@) == words(l@),
{
    let mut out: Vec<Vec<u8>> = Vec::new();
    let mut cur: Vec<u8> = Vec::new();
    let mut i: usize = 0;
    proof {
        assert(l@.subrange(0, l.len() as int) =~= l@);
        assert(out@.map_values(|w: Vec<u8>| w@) =~= seq![]);
    }
    while i < l.len()
        invariant
            i <= l.len(),
            words(l@) == out@.map_values(|w: Vec<u8>| w@) + words_from(l@.subrange(i as int, l.len() as int), cur@),
        decreases l.len() - i,
    {
        let b = l[i];
        let ghost rest = l@.subrange(i as int, l.len() as int);
        proof {
            assert(rest[0] == b);
            assert(rest.drop_first() =~= l@.subrange(i + 1, l.len() as int));
        }
        if b == 32 || (9 <= b && b <= 13) {
            if cur.len() > 0 {
                let ghost old_out = out@;
                let w = cur;
                out.push(w);
                proof {
                    assert(out@.map_values(|w: Vec<u8>| w@) =~= old_out.map_values(|w: Vec<u8>| w@) + seq![w@]);
                }
                cur = Vec::new();
            } else {
                proof {
                    assert(seq![] + words_from(rest.drop_first(), seq![]) =~= words_from(rest.drop_first(), seq![]));
                }
            }
            proof {
                assert(cur@ =~= seq![]);
            }
        } else {
            cur.push(b);
        }
        i = i + 1;
    }
    if cur.len() > 0 {
        let ghost old_out = out@;
        out.push(cur);
        proof {
            assert(out@.map_values(|w: Vec<u8>| w@) =~= old_out.map_values(|w: Vec<u8>| w@) + words_from(Seq::<u8>::empty(), out@.last()@));
        }
    } else {
        proof {
            assert(words(l@) =~= out@.map_values(|w: Vec<u8>| w@));
        }
    }
    proof {
        assert(l@.subrange(l.len() as int, l.len() as int) =~= Seq::<u8>::empty());
    }
    out
}

/// The value of all-digit `d` is at least that of each of its prefixes.
proof fn lemma_digits_prefix(d: Seq<u8>, k: int)
    requires
        all_digits(d),
        0 <= k <= d.len(),
    ensures
        digits_value(d.subrange(0, k)) <= digits_value(d),
    decreases d.len(),
{
    if k < d.len() {
        assert(all_digits(d.drop_last()));
        lemma_digits_prefix(d.drop_last(), k);
        assert(d.drop_last().subrange(0, k) =~= d.subrange(0, k));
    } else {
        assert(d.subrange(0, k) =~= d);
    }
}

/// The identifier that the word `w` spells, if it spells one.
pub fn parse_number(w: &Vec<u8>) -> (r: Option<usize>)
    ensures
        r == number_of(w@),
{
    let start: usize = if w.len() > 0 && w[0] == 43 { 1 } else { 0 };
    let ghost d = if w.len() > 0 && w[0] == 43 { w@.drop_first() } else { w@ };
    proof {
        assert(d =~= w@.subrange(start as int, w.len() as int));
    }
    if start >= w.len() {
        return None;
    }
    let mut v: usize = 0;
    let mut j: usize = start;
    proof {
        assert(w@.subrange(start as int, start as int) =~= Seq::<u8>::empty());
    }
    while j < w.len()
        invariant
            start <= j <= w.len(),
            d == w@.subrange(start as int, w.len() as int),
            d == (if w.len() > 0 && w[0] == 43 { w@.drop_first() } else { w@ }),
            all_digits(w@.subrange(start as int, j as int)),
            v as nat == digits_value(w@.subrange(start as int, j as int)),
        decreases w.len() - j,
    {
        let c = w[j];
        let ghost next = w@.subrange(start as int, j + 1);
        proof {
            assert(next.drop_last() =~= w@.subrange(start as int, j as int));
            assert(d[j - start] == c);
        }
        if c < 48 || c > 57 {
            proof {
                assert(!all_digits(d)) by {
                    assert(!(48 <= d[j - start] && d[j - start] <= 57));
                }
            }
            return None;
        }
        let digit = (c - 48) as usize;
        proof {
            assert(all_digits(next));
        }
        proof {
            assert(next.last() == c);
            assert(digits_value(next) == v * 10 + digit);
        }
        if v > (usize::MAX - digit) / 10 {
            proof {
                assert(v * 10 + digit > usize::MAX) by (nonlinear_arith)
                    requires
                        v > (usize::MAX - digit) / 10,
                        digit <= 9;
                if all_digits(d) {
                    assert(d.subrange(0, j + 1 - start) =~= next);
                    lemma_digits_prefix(d, j + 1 - start);
                }
            }
            return None;
        }
        proof {
            assert(v * 10 + digit <= usize::MAX) by (nonlinear_arith)
                requires
                    v <= (usize::MAX - digit) / 10,
                    digit <= 9;
        }
        v = v * 10 + digit;
        j = j + 1;
    }
    Some(v)
}

/// What the line `l` holds (see [`line_outcome`]).
pub fn parse_line(l: &Vec<u8>) -> (r: LineOutcome)
    ensures
        r == line_outcome(l@),
{
    if l.len() > 0 && l[0] == HASH {
        return LineOutcome::Skip;
    }
    let ws = split_words(l);
    proof {
        assert(ws@.map_values(|w: Vec<u8>| w@).len() == ws.len());
    }
    if ws.len() != 2 {
        return LineOutcome::Skip;
    }
    proof {
        assert(ws@.map_values(|w: Vec<u8>| w@)[0] == ws[0]@);
        assert(ws@.map_values(|w: Vec<u8>| w@)[1] == ws[1]@);
    }
    match (parse_number(&ws[0]), parse_number(&ws[1])) {
        (Some(a), Some(b)) => LineOutcome::Pair(a, b),
        _ => LineOutcome::Bad,
    }
}

/// `r` is what [`edges_of_lines`] gives: the same edges, or the same line
/// number.
pub open spec fn agrees(r: Result<Vec<(usize, usize)>, usize>, s: Result<Seq<(usize, usize)>, nat>) -> bool {
    match r {
        Ok(v) => s is Ok && v@ == s->Ok_0,
        Err(n) => s is Err && n as nat == s->Err_0,
    }
}

/// The edges of an edge list, one per line: lines starting with `#` and
/// lines without exactly two words are skipped, and a line of two words that
/// are not both non-negative integers is an error, reported by its 1-based
/// line number.
pub fn parse_edge_list(text: &Vec<u8>) -> (r: Result<Vec<(usize, usize)>, usize>)
    ensures
        agrees(r, edges_of_lines(lines(text@))),
{
    let mut out: Vec<(usize, usize)> = Vec::new();
    let mut cur: Vec<u8> = Vec::new();
    let mut count: usize = 0;
    let mut i: usize = 0;
    let ghost mut done: Seq<Seq<u8>> = seq![];
    proof {
        assert(text@.subrange(0, text.len() as int) =~= text@);
        assert(lines(text@) =~= done + lines_from(text@, seq![]));
        assert(cur@ =~= seq![]);
    }
    while i < text.len()
        invariant
            i <= text.len(),
            lines(text@) == done + lines_from(text@.subrange(i as int, text.len() as int), cur@),
            edges_of_lines(done) == Ok::<Seq<(usize, usize)>, nat>(out@),
            count == done.len(),
            done.len() + cur.len() <= i,
        decreases text.len() - i,
    {
        let b = text[i];
        let ghost rest = text@.subrange(i as int, text.len() as int);
        proof {
            assert(rest[0] == b);
            assert(rest.drop_first() =~= text@.subrange(i + 1, text.len() as int));
        }
        if b == NEWLINE {
            let outcome = parse_line(&cur);
            let ghost done2 = done.push(cur@);
            proof {
                assert(done2.drop_last() =~= done);
                assert(lines(text@) =~= done2 + lines_from(rest.drop_first(), seq![]));
            }
            count = count + 1;
            match outcome {
                LineOutcome::Skip => {},
                LineOutcome::Pair(x, y) => {
                    out.push((x, y));
                },
                LineOutcome::Bad => {
                    proof {
                        lemma_error_sticks(done2, lines_from(rest.drop_first(), seq![]));
                    }
                    return Err(count);
                },
            }
            proof {
                done = done2;
            }
            cur = Vec::new();
            proof {
                assert(cur@ =~= seq![]);
            }
        } else {
            cur.push(b);
        }
        i = i + 1;
    }
    proof {
        assert(text@.subrange(i as int, text.len() as int) =~= Seq::<u8>::empty());
    }
    if cur.len() > 0 {
        let outcome = parse_line(&cur);
        let ghost done2 = done.push(cur@);
        proof {
            assert(done2.drop_last() =~= done);
            assert(lines(text@) =~= done2);
        }
        match outcome {
            LineOutcome::Skip => {},
            LineOutcome::Pair(x, y) => {
                out.push((x, y));
            },
            LineOutcome::Bad => {
                return Err(count + 1);
            },
        }
    } else {
        proof {
            assert(lines(text@) =~= done);
        }
    }
    Ok(out)
}

/// Why an edge list could not be turned into a graph.
#[derive(PartialEq, Eq, Structural, Debug, Clone, Copy)]
pub enum LoadError {
    /// The line with this 1-based number has two words that are not both
    /// non-negative integers.
    Malformed(usize),
    /// The list has more than [`MAX_EDGES`] edges.
    TooManyEdges,
}

/// The graph of an edge list given as text (see [`parse_edge_list`]): one
/// node per distinct identifier and one edge per edge line.
pub fn load_edge_list(text: &Vec<u8>) -> (r: Result<GraphStore, LoadError>)
    ensures
        edges_of_lines(lines(text@)) is Err ==> r == Err::<GraphStore, LoadError>(
            LoadError::Malformed(edges_of_lines(lines(text@))->Err_0 as usize)),
        edges_of_lines(lines(text@)) is Ok && edges_of_lines(lines(text@))->Ok_0.len() > MAX_EDGES
            ==> r == Err::<GraphStore, LoadError>(LoadError::TooManyEdges),
        edges_of_lines(lines(text@)) is Ok && edges_of_lines(lines(text@))->Ok_0.len() <= MAX_EDGES
            ==> r is Ok && r->Ok_0.wf() && exists|ids: Map<usize, usize>, keys: Seq<usize>|
                builds(edges_of_lines(lines(text@))->Ok_0, r->Ok_0, ids, keys),
{
    match parse_edge_list(text) {
        Err(line) => Err(LoadError::Malformed(line)),
        Ok(pairs) => {
            if pairs.len() > MAX_EDGES {
                Err(LoadError::TooManyEdges)
            } else {
                let (g, ids) = graph_from_edges(&pairs);
                proof {
                    let keys = choose|keys: Seq<usize>| builds(pairs@, g, ids@, keys);
                    assert(builds(pairs@, g, ids@, keys));
                }
                Ok(g)
            }
        },
    }
}

} // verus!
