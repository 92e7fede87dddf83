//! The weighted routing graph and its mathematical model: walks, walk costs,
//! and shortest-path distances.

use vstd::prelude::*;

verus! {

/// One node of the routing graph: a waypoint flag ("beer store") and the
/// outgoing edges, each a `(neighbor index, weight)` pair.  Edges are directed
/// arcs out of the owning node; a caller that wants undirected semantics
/// stores each edge on both endpoints.
pub struct Node {
    pub is_waypoint: bool,
    pub edges: Vec<(usize, u64)>,
}

/// A graph is an ordered sequence of nodes addressed by dense indices
/// `0 .. len`.
pub type Graph = Vec<Node>;

/// The mathematical model of a node: the same data with the edge list as a
/// sequence.
#[verifier::ext_equal]
pub ghost struct GNode {
    pub is_waypoint: bool,
    pub edges: Seq<(usize, u64)>,
}

impl View for Node {
    type V = GNode;

    open spec fn view(&self) -> GNode {
        GNode { is_waypoint: self.is_waypoint, edges: self.edges@ }
    }
}

impl Clone for Node {
    /// An exact copy: same waypoint flag, same edge list.
    fn clone(&self) -> (r: Node)
        ensures
            r@ == self@,
    {
        let mut edges: Vec<(usize, u64)> = Vec::new();
        let mut i: usize = 0;
        while i < self.edges.len()
            invariant
                i <= self.edges.len(),
                edges@.len() == i as int,
                forall|k: int| 0 <= k < i ==> #[trigger] edges@[k] == self.edges@[k],
            decreases self.edges.len() - i,
        {
            let e = self.edges[i];
            edges.push(e);
            i = i + 1;
        }
        let r = Node { is_waypoint: self.is_waypoint, edges };
        proof {
            assert(r.edges@ =~= self.edges@);
            assert(r@ =~= self@);
        }
        r
    }
}

/// The model of a whole graph.
pub open spec fn graph_model(g: Seq<Node>) -> Seq<GNode> {
    Seq::new(g.len(), |i: int| g[i]@)
}

/// Well-formedness: every neighbor index is a valid index into the same
/// graph.
pub open spec fn wf(g: Seq<GNode>) -> bool {
    forall|u: int, j: int|
        0 <= u < g.len() && 0 <= j < g[u].edges.len() ==> (#[trigger] g[u].edges[j]).0
            < g.len()
}

/// The largest weight among a node's outgoing edges (0 when there is none).
pub open spec fn max_edge_w(es: Seq<(usize, u64)>) -> int
    decreases es.len(),
{
    if es.len() == 0 {
        0
    } else if es.last().1 > max_edge_w(es.drop_last()) {
        es.last().1 as int
    } else {
        max_edge_w(es.drop_last())
    }
}

/// The largest edge weight anywhere in the graph (0 when there is none).
pub open spec fn max_w(g: Seq<GNode>) -> int
    decreases g.len(),
{
    if g.len() == 0 {
        0
    } else if max_edge_w(g.last().edges) > max_w(g.drop_last()) {
        max_edge_w(g.last().edges)
    } else {
        max_w(g.drop_last())
    }
}

/// A machine limit: every distance a run can store stays below `2^64` when
/// this holds, since a stored distance is at most `len` edge weights and one
/// more weight is added before the next comparison.
pub open spec fn fits(g: Seq<GNode>) -> bool {
    (g.len() + 1) * max_w(g) < 0x1_0000_0000_0000_0000
}

/// There is an edge from `u` to `v` of weight `w`.
pub open spec fn has_edge(g: Seq<GNode>, u: int, v: int, w: int) -> bool {
    0 <= u < g.len() && exists|j: int|
        0 <= j < g[u].edges.len() && (#[trigger] g[u].edges[j]).0 as int == v && g[u].edges[j].1
            as int == w
}

/// The node where a walk that starts at `s` and takes `steps` ends.
pub open spec fn walk_end(s: int, steps: Seq<(usize, u64)>) -> int {
    if steps.len() == 0 {
        s
    } else {
        steps.last().0 as int
    }
}

/// `steps` is a walk out of `s`: each step moves along an edge of the graph,
/// recorded as `(next node, weight of the edge taken)`.
pub open spec fn walk_ok(g: Seq<GNode>, s: int, steps: Seq<(usize, u64)>) -> bool
    decreases steps.len(),
{
    if steps.len() == 0 {
        0 <= s < g.len()
    } else {
        walk_ok(g, s, steps.drop_last()) && has_edge(
            g,
            walk_end(s, steps.drop_last()),
            steps.last().0 as int,
            steps.last().1 as int,
        )
    }
}

/// The total weight of a walk.
pub open spec fn walk_cost(steps: Seq<(usize, u64)>) -> int
    decreases steps.len(),
{
    if steps.len() == 0 {
        0
    } else {
        walk_cost(steps.drop_last()) + steps.last().1
    }
}

/// Some walk from `s` to `t` costs exactly `c`.
pub open spec fn connects(g: Seq<GNode>, s: int, t: int, c: int) -> bool {
    exists|steps: Seq<(usize, u64)>|
        walk_ok(g, s, steps) && walk_end(s, steps) == t && walk_cost(steps) == c
}

/// `d` is the shortest-path distance from `s` to `t`: it is the cost of some
/// walk, and no walk costs less.
pub open spec fn is_dist(g: Seq<GNode>, s: int, t: int, d: int) -> bool {
    connects(g, s, t, d) && forall|c: int| connects(g, s, t, c) ==> d <= c
}

pub proof fn lemma_max_edge_w(es: Seq<(usize, u64)>)
    ensures
        0 <= max_edge_w(es),
        forall|j: int| 0 <= j < es.len() ==> (#[trigger] es[j]).1 <= max_edge_w(es),
    decreases es.len(),
{
    if es.len() > 0 {
        lemma_max_edge_w(es.drop_last());
        assert forall|j: int| 0 <= j < es.len() implies (#[trigger] es[j]).1 <= max_edge_w(es) by {
            if j < es.len() - 1 {
                assert(es.drop_last()[j] == es[j]);
            }
        }
    }
}

pub proof fn lemma_max_w(g: Seq<GNode>)
    ensures
        0 <= max_w(g),
        forall|u: int| 0 <= u < g.len() ==> max_edge_w(#[trigger] g[u].edges) <= max_w(g),
    decreases g.len(),
{
    if g.len() > 0 {
        lemma_max_w(g.drop_last());
        assert forall|u: int| 0 <= u < g.len() implies max_edge_w(#[trigger] g[u].edges) <= max_w(
            g,
        ) by {
            if u < g.len() - 1 {
                assert(g.drop_last()[u] == g[u]);
            }
        }
    }
}

/// Every single edge weight is bounded by `max_w`.
pub proof fn lemma_edge_w_le_max(g: Seq<GNode>, u: int, v: int, w: int)
    requires
        has_edge(g, u, v, w),
    ensures
        0 <= w <= max_w(g),
{
    lemma_max_w(g);
    lemma_max_edge_w(g[u].edges);
}

/// A pointwise bound on edge weights bounds the maximum.
pub proof fn lemma_max_edge_w_le(es: Seq<(usize, u64)>, b: int)
    requires
        forall|j: int| 0 <= j < es.len() ==> (#[trigger] es[j]).1 <= b,
        0 <= b,
    ensures
        max_edge_w(es) <= b,
    decreases es.len(),
{
    if es.len() > 0 {
        assert forall|j: int| 0 <= j < es.drop_last().len() implies (#[trigger] es.drop_last()[j]).1
            <= b by {
            assert(es.drop_last()[j] == es[j]);
        }
        lemma_max_edge_w_le(es.drop_last(), b);
        assert(es.last() == es[es.len() - 1]);
    }
}

pub proof fn lemma_walk_cost_nonneg(steps: Seq<(usize, u64)>)
    ensures
        0 <= walk_cost(steps),
    decreases steps.len(),
{
    if steps.len() > 0 {
        lemma_walk_cost_nonneg(steps.drop_last());
    }
}

/// The end of a well-formed walk over a well-formed graph is a valid index.
pub proof fn lemma_walk_end_in_range(g: Seq<GNode>, s: int, steps: Seq<(usize, u64)>)
    requires
        wf(g),
        walk_ok(g, s, steps),
    ensures
        0 <= walk_end(s, steps) < g.len(),
    decreases steps.len(),
{
    if steps.len() > 0 {
        lemma_walk_end_in_range(g, s, steps.drop_last());
    }
}

/// Two walks compose: a walk from `s` followed by a walk from its end.
pub proof fn lemma_walk_concat(g: Seq<GNode>, s: int, a: Seq<(usize, u64)>, b: Seq<(usize, u64)>)
    requires
        walk_ok(g, s, a),
        walk_ok(g, walk_end(s, a), b),
    ensures
        walk_ok(g, s, a + b),
        walk_end(s, a + b) == walk_end(walk_end(s, a), b),
        walk_cost(a + b) == walk_cost(a) + walk_cost(b),
    decreases b.len(),
{
    if b.len() == 0 {
        assert(a + b =~= a);
    } else {
        lemma_walk_concat(g, s, a, b.drop_last());
        assert((a + b).drop_last() =~= a + b.drop_last());
        assert((a + b).last() == b.last());
    }
}

/// A single edge is a walk of one step.
pub proof fn lemma_walk_step(g: Seq<GNode>, s: int, v: usize, w: u64)
    requires
        has_edge(g, s, v as int, w as int),
    ensures
        walk_ok(g, s, seq![(v, w)]),
        walk_end(s, seq![(v, w)]) == v as int,
        walk_cost(seq![(v, w)]) == w as int,
{
    let steps = seq![(v, w)];
    let nil = Seq::<(usize, u64)>::empty();
    assert(steps.drop_last() =~= nil);
    assert(steps.last() == (v, w));
    assert(walk_ok(g, s, nil));
    assert(walk_cost(nil) == 0);
    assert(walk_ok(g, s, steps));
    assert(walk_cost(steps) == walk_cost(nil) + w);
}

/// A reachable node's distance extends along an outgoing edge.
pub proof fn lemma_connects_extend(g: Seq<GNode>, s: int, u: int, c: int, v: usize, w: u64)
    requires
        connects(g, s, u, c),
        has_edge(g, u, v as int, w as int),
    ensures
        connects(g, s, v as int, c + w as int),
{
    let steps = choose|steps: Seq<(usize, u64)>|
        walk_ok(g, s, steps) && walk_end(s, steps) == u && walk_cost(steps) == c;
    lemma_walk_step(g, u, v, w);
    lemma_walk_concat(g, s, steps, seq![(v, w)]);
    assert(walk_end(s, steps + seq![(v, w)]) == v as int);
    assert(walk_cost(steps + seq![(v, w)]) == c + w as int);
}

} // verus!
