//! Waypoint ("beer store") routing: the shortest path from a source to a
//! target that passes through at least one waypoint node.
//!
//! The technique is graph augmentation: after a first run from the source
//! over the original graph, a synthetic node is appended whose edges lead to
//! every waypoint reached in phase one, each weighted by that waypoint's
//! settled distance.  A second run from the synthetic node then computes, for
//! every target, the least value of `dist(source, w) + dist(w, target)` over
//! all waypoints `w`, and its predecessor tree attaches every reachable
//! target to its best waypoint.

use vstd::prelude::*;

use crate::dijkstra::Dijkstra;
use crate::dijkstra::StateModel;
use crate::dijkstra::Tentative;
use crate::dijkstra::init_model;
use crate::dijkstra::lemma_drained_correct;
use crate::dijkstra::lemma_run_n_props;
use crate::dijkstra::lemma_settled_facts;
use crate::dijkstra::run_n;
use crate::dijkstra::step;
use crate::graph::GNode;
use crate::graph::Graph;
use crate::graph::Node;
use crate::graph::connects;
use crate::graph::fits;
use crate::graph::graph_model;
use crate::graph::has_edge;
use crate::graph::is_dist;
use crate::graph::lemma_max_edge_w_le;
use crate::graph::lemma_max_w;
use crate::graph::lemma_walk_concat;
use crate::graph::lemma_walk_cost_nonneg;
use crate::graph::lemma_walk_end_in_range;
use crate::graph::lemma_walk_step;
use crate::graph::max_edge_w;
use crate::graph::max_w;
use crate::graph::walk_cost;
use crate::graph::walk_end;
use crate::graph::walk_ok;
use crate::graph::wf;

verus! {

/// The synthetic node's edge list built from the first `k` nodes: one edge
/// per waypoint settled in the drained first run, in index order, weighted by
/// its settled distance.
pub open spec fn synth_edges_upto(m: StateModel, k: int) -> Seq<(usize, u64)>
    decreases k,
{
    if k <= 0 {
        Seq::empty()
    } else {
        let rest = synth_edges_upto(m, k - 1);
        if m.graph[k - 1].is_waypoint && m.tent[k - 1] is Settled {
            rest.push(((k - 1) as usize, m.done[k - 1]))
        } else {
            rest
        }
    }
}

pub open spec fn synth_edges(m: StateModel) -> Seq<(usize, u64)> {
    synth_edges_upto(m, m.n())
}

/// The augmented graph: the first run's graph plus the synthetic node, which
/// is no waypoint itself and sits at index `n`.
pub open spec fn aug_model(m: StateModel) -> Seq<GNode> {
    m.graph.push(GNode { is_waypoint: false, edges: synth_edges(m) })
}

/// The machine limit under which both runs fit in `u64` arithmetic: the
/// augmented graph's weights are phase-one distances, themselves sums of at
/// most `len` original weights.
pub open spec fn fits_via(g: Seq<GNode>) -> bool {
    (g.len() + 2) * ((g.len() + 1) * max_w(g)) < 0x1_0000_0000_0000_0000
}

/// Some walk from `s` to `t` through at least one waypoint costs exactly `c`.
pub open spec fn via_connects(g: Seq<GNode>, s: int, t: int, c: int) -> bool {
    exists|w: int, c1: int, c2: int|
        {
            &&& 0 <= w < g.len()
            &&& g[w].is_waypoint
            &&& #[trigger] connects(g, s, w, c1)
            &&& #[trigger] connects(g, w, t, c2)
            &&& c == c1 + c2
        }
}

/// The two drained runs of a completed waypoint-routing preprocess: the first
/// over the original graph, the second over the augmented graph from the
/// synthetic node.
pub open spec fn routed(m1: StateModel, m2: StateModel) -> bool {
    &&& m1.inv()
    &&& step(m1) == m1
    &&& m2.inv()
    &&& step(m2) == m2
    &&& m2.graph == aug_model(m1)
    &&& m2.src() == m1.n()
}

/// Which edges the synthetic node has: exactly one per settled waypoint,
/// weighted by its phase-one distance.
proof fn lemma_synth_edges(m: StateModel, k: int)
    requires
        m.basic(),
        0 <= k <= m.n(),
    ensures
        forall|j: int|
            0 <= j < synth_edges_upto(m, k).len() ==> {
                let e = #[trigger] synth_edges_upto(m, k)[j];
                &&& (e.0 as int) < k
                &&& m.graph[e.0 as int].is_waypoint
                &&& m.tent[e.0 as int] is Settled
                &&& e.1 == m.done[e.0 as int]
            },
        forall|v: int|
            0 <= v < k && m.graph[v].is_waypoint && (#[trigger] m.tent[v]) is Settled
                ==> exists|j: int|
                0 <= j < synth_edges_upto(m, k).len() && (#[trigger] synth_edges_upto(m, k)[j]).0
                    as int == v && synth_edges_upto(m, k)[j].1 == m.done[v],
    decreases k,
{
    if k > 0 {
        lemma_synth_edges(m, k - 1);
        let rest = synth_edges_upto(m, k - 1);
        let cur = synth_edges_upto(m, k);
        if m.graph[k - 1].is_waypoint && m.tent[k - 1] is Settled {
            assert(cur == rest.push(((k - 1) as usize, m.done[k - 1])));
            assert(forall|j: int| 0 <= j < rest.len() ==> cur[j] == #[trigger] rest[j]);
            assert(cur[cur.len() - 1] == ((k - 1) as usize, m.done[k - 1]));
        }
        assert forall|v: int|
            0 <= v < k && m.graph[v].is_waypoint && (#[trigger] m.tent[v]) is Settled
                implies exists|j: int|
            0 <= j < cur.len() && (#[trigger] cur[j]).0 as int == v && cur[j].1 == m.done[v] by {
            if v < k - 1 {
                let j = choose|j: int|
                    0 <= j < rest.len() && (#[trigger] rest[j]).0 as int == v && rest[j].1
                        == m.done[v];
                assert(cur[j] == rest[j]);
            } else {
                assert(cur[cur.len() - 1].0 as int == v && cur[cur.len() - 1].1 == m.done[v]);
            }
        }
    }
}

/// The augmented graph seen from its edges: below `n` it is the original
/// graph; from the synthetic node `n` there is an edge to `v` of weight `w`
/// exactly when `v` is a waypoint settled in the first run at distance `w`.
proof fn lemma_aug_edges(m: StateModel)
    requires
        m.basic(),
    ensures
        aug_model(m).len() == m.n() + 1,
        forall|u: int| 0 <= u < m.n() ==> #[trigger] aug_model(m)[u] == m.graph[u],
        aug_model(m)[m.n()].edges == synth_edges(m),
        !aug_model(m)[m.n()].is_waypoint,
        forall|v: int, w: int|
            #[trigger] has_edge(aug_model(m), m.n(), v, w) <==> (0 <= v < m.n()
                && m.graph[v].is_waypoint && m.tent[v] is Settled && w == m.done[v] as int),
{
    let aug = aug_model(m);
    let n = m.n();
    lemma_synth_edges(m, n);
    assert forall|v: int, w: int|
        #[trigger] has_edge(aug, n, v, w) implies (0 <= v < n && m.graph[v].is_waypoint
        && m.tent[v] is Settled && w == m.done[v] as int) by {
        let j = choose|j: int|
            0 <= j < aug[n].edges.len() && (#[trigger] aug[n].edges[j]).0 as int == v
                && aug[n].edges[j].1 as int == w;
        assert(synth_edges(m)[j] == aug[n].edges[j]);
    }
    assert forall|v: int, w: int|
        (0 <= v < n && m.graph[v].is_waypoint && m.tent[v] is Settled && w == m.done[v] as int)
        implies #[trigger] has_edge(aug, n, v, w) by {
        let j = choose|j: int|
            0 <= j < synth_edges(m).len() && (#[trigger] synth_edges(m)[j]).0 as int == v
                && synth_edges(m)[j].1 == m.done[v];
        assert(aug[n].edges[j] == synth_edges(m)[j]);
    }
}

/// The augmented graph is well formed and its arithmetic still fits, given
/// the stronger machine limit on the original graph.
proof fn lemma_aug_ok(m: StateModel)
    requires
        m.inv(),
        fits_via(m.graph),
    ensures
        wf(aug_model(m)),
        fits(aug_model(m)),
        aug_model(m).len() == m.n() + 1,
{
    let aug = aug_model(m);
    let g = m.graph;
    let n = m.n();
    lemma_aug_edges(m);
    lemma_max_w(g);
    // Well-formedness: original edges stay below n; synthetic edges lead to
    // original nodes.
    assert forall|u: int, j: int|
        0 <= u < aug.len() && 0 <= j < aug[u].edges.len() implies (#[trigger] aug[u].edges[j]).0
        < aug.len() by {
        if u < n {
            assert(aug[u] == g[u]);
            assert((g[u].edges[j]).0 < g.len());
        } else {
            assert(aug[u].edges == synth_edges(m));
            lemma_synth_edges(m, n);
            assert(((synth_edges(m)[j]).0 as int) < n);
        }
    }
    // Every synthetic weight is a settled distance, at most n * max_w(g).
    assert forall|j: int|
        0 <= j < synth_edges(m).len() implies (#[trigger] synth_edges(m)[j]).1 as int <= n
        * max_w(g) by {
        lemma_synth_edges(m, n);
        let v = synth_edges(m)[j].0 as int;
        lemma_settled_facts(m, v);
        vstd::arithmetic::mul::lemma_mul_inequality(m.order.len() as int, n, max_w(g));
    }
    assert(0 <= n * max_w(g)) by (nonlinear_arith)
        requires 0 <= n && 0 <= max_w(g);
    lemma_max_edge_w_le(synth_edges(m), n * max_w(g));
    // max_w(aug) is bounded by (n + 1) * max_w(g).
    assert(aug.drop_last() =~= g);
    assert(aug.last() == GNode { is_waypoint: false, edges: synth_edges(m) });
    assert(max_w(aug) == if max_edge_w(synth_edges(m)) > max_w(g) {
        max_edge_w(synth_edges(m))
    } else {
        max_w(g)
    });
    assert(max_w(g) <= (n + 1) * max_w(g)) by (nonlinear_arith)
        requires 0 <= n && 0 <= max_w(g);
    assert(n * max_w(g) <= (n + 1) * max_w(g)) by (nonlinear_arith)
        requires 0 <= n && 0 <= max_w(g);
    assert(max_w(aug) <= (n + 1) * max_w(g));
    // And then (aug.len() + 1) * max_w(aug) <= (n + 2) * ((n + 1) * max_w(g)).
    vstd::arithmetic::mul::lemma_mul_inequality(max_w(aug), (n + 1) * max_w(g), n + 2);
    assert((n + 2) * max_w(aug) == max_w(aug) * (n + 2)) by (nonlinear_arith);
    assert((n + 2) * ((n + 1) * max_w(g)) == ((n + 1) * max_w(g)) * (n + 2))
        by (nonlinear_arith);
    assert((aug.len() + 1) * max_w(aug) == (n + 2) * max_w(aug));
}

/// A walk of the original graph is a walk of the augmented graph: node
/// indices below `n` keep their edges.
proof fn lemma_lift_walk(g: Seq<GNode>, aug: Seq<GNode>, s: int, steps: Seq<(usize, u64)>)
    requires
        wf(g),
        aug.len() == g.len() + 1,
        forall|u: int| 0 <= u < g.len() ==> #[trigger] aug[u] == g[u],
        walk_ok(g, s, steps),
    ensures
        walk_ok(aug, s, steps),
    decreases steps.len(),
{
    if steps.len() > 0 {
        lemma_lift_walk(g, aug, s, steps.drop_last());
        let u = walk_end(s, steps.drop_last());
        lemma_walk_end_in_range(g, s, steps.drop_last());
        let j = choose|j: int|
            0 <= j < g[u].edges.len() && (#[trigger] g[u].edges[j]).0 as int == steps.last().0
                as int && g[u].edges[j].1 as int == steps.last().1 as int;
        assert(aug[u].edges[j] == g[u].edges[j]);
    }
}

/// Any source-to-target cost through a waypoint is matched or beaten by an
/// augmented-graph walk from the synthetic node.
proof fn lemma_via_to_aug(m1: StateModel, m2: StateModel, t: int, c: int)
    requires
        routed(m1, m2),
        0 <= t < m1.n(),
        via_connects(m1.graph, m1.src(), t, c),
    ensures
        exists|c3: int| 0 <= c3 <= c && #[trigger] connects(m2.graph, m2.src(), t, c3),
{
    let g = m1.graph;
    let aug = m2.graph;
    let s = m1.src();
    let n = m1.n();
    let (w, c1, c2) = choose|w: int, c1: int, c2: int|
        {
            &&& 0 <= w < g.len()
            &&& g[w].is_waypoint
            &&& #[trigger] connects(g, s, w, c1)
            &&& #[trigger] connects(g, w, t, c2)
            &&& c == c1 + c2
        };
    lemma_drained_correct(m1);
    lemma_aug_edges(m1);
    // The waypoint is settled in phase one (otherwise it is unreachable) and
    // its distance is at most c1.
    assert(m1.tent[w] is Settled);
    assert(is_dist(g, s, w, m1.done[w] as int));
    assert(m1.done[w] as int <= c1);
    // Build the augmented walk: the synthetic edge to w, then the walk to t.
    assert(has_edge(aug, n, w as int, m1.done[w] as int));
    lemma_walk_step(aug, n, w as usize, m1.done[w]);
    let steps2 = choose|steps2: Seq<(usize, u64)>|
        walk_ok(g, w, steps2) && walk_end(w, steps2) == t && walk_cost(steps2) == c2;
    lemma_lift_walk(g, aug, w, steps2);
    lemma_walk_concat(aug, n, seq![(w as usize, m1.done[w])], steps2);
    let all = seq![(w as usize, m1.done[w])] + steps2;
    assert(walk_end(n, all) == t);
    assert(walk_cost(all) == m1.done[w] as int + c2);
    assert(connects(aug, n, t, m1.done[w] as int + c2));
    lemma_walk_cost_nonneg(all);
    assert(m2.src() == n);
}

/// Build the augmented graph from a drained first run: a copy of the
/// original nodes plus the synthetic node at index `n`.
#[verifier::loop_isolation(false)]
pub fn augment(first: &Dijkstra) -> (r: Graph)
    requires
        first@.inv(),
    ensures
        graph_model(r@) == aug_model(first@),
{
    let ghost m = first@;
    let n = first.graph.len();
    let mut out: Vec<Node> = Vec::new();
    let mut i: usize = 0;
    while i < n
        invariant
            i <= n,
            out@.len() == i as int,
            forall|k: int| 0 <= k < i ==> #[trigger] out@[k]@ == m.graph[k],
        decreases n - i,
    {
        let nd = (&first.graph[i]).clone();
        out.push(nd);
        i = i + 1;
    }
    let mut synth: Vec<(usize, u64)> = Vec::new();
    let mut k: usize = 0;
    while k < n
        invariant
            k <= n,
            synth@ == synth_edges_upto(m, k as int),
        decreases n - k,
    {
        if first.graph[k].is_waypoint {
            match first.tentative[k] {
                Tentative::Settled => {
                    synth.push((k, first.done_distances[k]));
                },
                _ => {},
            }
        }
        k = k + 1;
        proof {
            assert(synth@ =~= synth_edges_upto(m, k as int));
        }
    }
    out.push(Node { is_waypoint: false, edges: synth });
    proof {
        assert(graph_model(out@) =~= aug_model(m));
    }
    out
}

/// Run the full two-phase preprocess from `start`: drain a run over the
/// original graph, then drain a run from the synthetic node over the
/// augmented graph.  The two predecessor trees can then answer any number of
/// queries without recomputation.
pub fn beer_route(graph: Graph, start: usize) -> (r: (Dijkstra, Dijkstra))
    requires
        wf(graph_model(graph@)),
        fits_via(graph_model(graph@)),
        start < graph@.len(),
    ensures
        routed(r.0@, r.1@),
        r.0@ == run_n(init_model(graph_model(graph@), start as int), graph@.len()),
        r.1@ == run_n(
            init_model(aug_model(r.0@), graph@.len() as int),
            (graph@.len() + 1) as nat,
        ),
        r.0@.src() == start as int,
        r.0@.graph == graph_model(graph@),
        r.0@.n() == graph@.len(),
{
    let ghost gm = graph_model(graph@);
    proof {
        // The routing limit implies the single-run limit.
        lemma_max_w(gm);
        let nn = gm.len() as int;
        assert((nn + 1) * max_w(gm) <= (nn + 2) * ((nn + 1) * max_w(gm))) by (nonlinear_arith)
            requires
                0 <= nn,
                0 <= max_w(gm),
        ;
    }
    let mut first = Dijkstra::new(graph, start);
    proof {
        lemma_run_n_props(init_model(gm, start as int), gm.len());
    }
    first.drain();
    proof {
        lemma_aug_ok(first@);
    }
    let aug = augment(&first);
    proof {
        assert(aug@.len() == graph_model(aug@).len());
        assert(aug@.len() == gm.len() + 1);
    }
    let n = aug.len() - 1;
    let mut second = Dijkstra::new(aug, n);
    proof {
        lemma_run_n_props(init_model(graph_model(aug@), n as int), (gm.len() + 1) as nat);
    }
    second.drain();
    (first, second)
}

/// The node sequence a walk traces out: the start node, then every step's
/// target in order.
pub open spec fn path_nodes(s: int, steps: Seq<(usize, u64)>) -> Seq<usize> {
    Seq::new(
        steps.len() + 1,
        |i: int|
            if i == 0 {
                s as usize
            } else {
                steps[i - 1].0
            },
    )
}

/// A graph without waypoints admits no source-to-target cost through a
/// waypoint at all: every query must report unreachable.
pub proof fn lemma_no_waypoints_unreachable(g: Seq<GNode>, s: int, t: int, c: int)
    requires
        forall|v: int| 0 <= v < g.len() ==> !(#[trigger] g[v]).is_waypoint,
    ensures
        !via_connects(g, s, t, c),
{
}

/// What a successful query returns: the node sequence of an actual walk
/// from the source to `end` whose cost is minimal among all source-to-target
/// costs through a waypoint, and which itself passes through a waypoint.
pub open spec fn found_path_ok(g: Seq<GNode>, s: int, end: int, p: Seq<usize>) -> bool {
    exists|steps: Seq<(usize, u64)>, c: int|
        {
            &&& #[trigger] walk_ok(g, s, steps)
            &&& walk_end(s, steps) == end
            &&& walk_cost(steps) == c
            &&& p == path_nodes(s, steps)
            &&& exists|i: int| 0 <= i < p.len() && g[#[trigger] p[i] as int].is_waypoint
            &&& #[trigger] via_connects(g, s, end, c)
            &&& forall|c2: int| #[trigger] via_connects(g, s, end, c2) ==> c <= c2
        }
}

/// Walk both predecessor trees to answer one query: the shortest path from
/// the first run's source to `end` that passes through at least one
/// waypoint, or `None` when no such path exists.
///
/// On success the returned node sequence traces an actual walk from source
/// to target through a waypoint whose total weight is minimal among all
/// source-to-target costs through any waypoint.
#[verifier::rlimit(60)]
#[verifier::loop_isolation(false)]
pub fn query(first: &Dijkstra, second: &Dijkstra, end: usize) -> (r: Option<Vec<usize>>)
    requires
        routed(first@, second@),
        (end as int) < first@.n(),
    ensures
        match r {
            None => forall|c: int|
                !(#[trigger] via_connects(first@.graph, first@.src(), end as int, c)),
            Some(path) => found_path_ok(first@.graph, first@.src(), end as int, path@),
        },
{
    let ghost m1 = first@;
    let ghost m2 = second@;
    let ghost g = m1.graph;
    let ghost s = m1.src();
    let fake = first.graph.len();
    proof {
        lemma_aug_edges(m1);
        lemma_drained_correct(m1);
        lemma_drained_correct(m2);
        assert(fake as int == m1.n());
        assert(m2.n() == m1.n() + 1);
    }
    let settled2 = match second.tentative[end] {
        Tentative::Settled => true,
        _ => false,
    };
    if !settled2 {
        proof {
            assert forall|c: int|
                !(#[trigger] via_connects(first@.graph, first@.src(), end as int, c)) by {
                if via_connects(g, s, end as int, c) {
                    lemma_via_to_aug(m1, m2, end as int, c);
                    let c3 = choose|c3: int|
                        0 <= c3 <= c && #[trigger] connects(m2.graph, m2.src(), end as int, c3);
                    assert(!connects(m2.graph, m2.src(), end as int, c3));
                    assert(false);
                }
            }
        }
        return None;
    }
    // Phase-2 chain: climb the second tree from the target up to the node
    // whose predecessor is the synthetic index; that node is the attaching
    // waypoint.
    let mut cur: usize = end;
    let mut rev2: Vec<usize> = Vec::new();
    rev2.push(end);
    let ghost mut steps2: Seq<(usize, u64)> = Seq::empty();
    let ghost mut k2: int = choose|k: int| 0 <= k < m2.order.len() && m2.order[k] == end as int;
    let mut wstar: Option<usize> = None;
    while wstar.is_none()
        invariant
            cur < fake,
            m2.tent[cur as int] is Settled,
            0 <= k2 < m2.order.len(),
            m2.order[k2] == cur as int,
            walk_ok(g, cur as int, steps2),
            walk_end(cur as int, steps2) == end as int,
            walk_cost(steps2) == m2.done[end as int] as int - m2.done[cur as int] as int,
            rev2@.len() == steps2.len() + 1,
            forall|i: int|
                0 <= i < rev2@.len() ==> #[trigger] rev2@[i] == path_nodes(cur as int, steps2)[
                    steps2.len() - i],
            wstar is Some ==> wstar == Some(cur) && g[cur as int].is_waypoint
                && m1.tent[cur as int] is Settled && m2.done[cur as int] == m1.done[cur as int],
        decreases k2 + (if wstar is Some {
            0int
        } else {
            1int
        }),
    {
        proof {
            if k2 == 0 {
                assert(m2.order[0] == m2.src());
                assert(false);
            }
            assert(m2.tree_at(k2));
        }
        let p = second.predecessors[cur].unwrap();
        let ghost pw = choose|w: int|
            has_edge(m2.graph, p as int, cur as int, w) && m2.done[cur as int] as int == m2.done[
                p as int] as int + w;
        if p == fake {
            proof {
                assert((p as int) == m1.n());
                assert(has_edge(aug_model(m1), m1.n(), cur as int, pw));
                assert(g[cur as int].is_waypoint && m1.tent[cur as int] is Settled && pw
                    == m1.done[cur as int] as int);
                assert(m2.done[m2.src()] == 0);
                assert(m2.done[cur as int] as int == pw);
            }
            wstar = Some(cur);
        } else {
            proof {
                let i = choose|i: int| 0 <= i < k2 && m2.order[i] == p as int;
                assert(0 <= (p as int) && (p as int) < m2.n());
                assert((p as int) < m1.n());
                assert(m2.tent[p as int] is Settled);
                // The tree edge lies between original nodes, so it is an
                // edge of the original graph.
                assert(aug_model(m1)[p as int] == g[p as int]);
                assert(has_edge(g, p as int, cur as int, pw));
                assert(0 <= pw < 0x1_0000_0000_0000_0000);
                lemma_walk_step(g, p as int, cur, pw as u64);
                lemma_walk_concat(g, p as int, seq![(cur, pw as u64)], steps2);
                let old_steps = steps2;
                let old_cur = cur as int;
                steps2 = seq![(cur, pw as u64)] + old_steps;
                k2 = i;
                assert(walk_end(p as int, steps2) == end as int);
                assert(walk_cost(steps2) == m2.done[end as int] as int - m2.done[p as int] as int);
                assert forall|q: int|
                    0 <= q < rev2@.len() + 1 implies (if q < rev2@.len() {
                    rev2@[q]
                } else {
                    p
                }) == path_nodes(p as int, steps2)[steps2.len() - q] by {
                    if q < rev2@.len() {
                        assert(rev2@[q] == path_nodes(old_cur, old_steps)[old_steps.len() - q]);
                        if old_steps.len() - q == 0 {
                            assert(path_nodes(p as int, steps2)[1] == steps2[0].0);
                        } else {
                            assert(steps2[old_steps.len() - q] == old_steps[old_steps.len() - q
                                - 1]);
                        }
                    }
                }
            }
            rev2.push(p);
            cur = p;
        }
    }
    let ws = cur;
    // Phase-1 chain: climb the first tree from the waypoint to the source.
    let mut cur1: usize = ws;
    let mut rev1: Vec<usize> = Vec::new();
    rev1.push(ws);
    let ghost mut steps1: Seq<(usize, u64)> = Seq::empty();
    let ghost mut k1: int = choose|k: int| 0 <= k < m1.order.len() && m1.order[k] == ws as int;
    let mut climbing = true;
    while climbing
        invariant
            cur1 < fake,
            m1.tent[cur1 as int] is Settled,
            0 <= k1 < m1.order.len(),
            m1.order[k1] == cur1 as int,
            walk_ok(g, cur1 as int, steps1),
            walk_end(cur1 as int, steps1) == ws as int,
            walk_cost(steps1) == m1.done[ws as int] as int - m1.done[cur1 as int] as int,
            rev1@.len() == steps1.len() + 1,
            forall|i: int|
                0 <= i < rev1@.len() ==> #[trigger] rev1@[i] == path_nodes(cur1 as int, steps1)[
                    steps1.len() - i],
            !climbing ==> cur1 as int == s,
        decreases k1 + (if climbing {
            1int
        } else {
            0int
        }),
    {
        match first.predecessors[cur1] {
            Some(p) => {
                proof {
                    if k1 == 0 {
                        assert(m1.order[0] == s);
                        assert(m1.pred[s] is None);
                        assert(false);
                    }
                    assert(m1.tree_at(k1));
                    let pw = choose|w: int|
                        has_edge(g, p as int, cur1 as int, w) && m1.done[cur1 as int] as int
                            == m1.done[p as int] as int + w;
                    let i = choose|i: int| 0 <= i < k1 && m1.order[i] == p as int;
                    assert(m1.tent[p as int] is Settled);
                    assert(0 <= pw < 0x1_0000_0000_0000_0000);
                    lemma_walk_step(g, p as int, cur1, pw as u64);
                    lemma_walk_concat(g, p as int, seq![(cur1, pw as u64)], steps1);
                    let old_steps = steps1;
                    let old_cur = cur1 as int;
                    steps1 = seq![(cur1, pw as u64)] + old_steps;
                    k1 = i;
                    assert(walk_end(p as int, steps1) == ws as int);
                    assert(walk_cost(steps1) == m1.done[ws as int] as int - m1.done[p as int]
                        as int);
                    assert forall|q: int|
                        0 <= q < rev1@.len() + 1 implies (if q < rev1@.len() {
                        rev1@[q]
                    } else {
                        p
                    }) == path_nodes(p as int, steps1)[steps1.len() - q] by {
                        if q < rev1@.len() {
                            assert(rev1@[q] == path_nodes(old_cur, old_steps)[old_steps.len()
                                - q]);
                            if old_steps.len() - q == 0 {
                                assert(path_nodes(p as int, steps1)[1] == steps1[0].0);
                            } else {
                                assert(steps1[old_steps.len() - q] == old_steps[old_steps.len() - q
                                    - 1]);
                            }
                        }
                    }
                }
                rev1.push(p);
                cur1 = p;
            },
            None => {
                proof {
                    if k1 >= 1 {
                        assert(m1.tree_at(k1));
                        assert(false);
                    }
                    assert(m1.order[0] == s);
                }
                climbing = false;
            },
        }
    }
    // Assemble: the phase-1 chain reversed (source to waypoint), then the
    // phase-2 chain reversed without its last entry (waypoint to target).
    let ghost full = steps1 + steps2;
    proof {
        lemma_walk_concat(g, s, steps1, steps2);
        assert(m1.done[s] == 0);
        assert(walk_cost(full) == m2.done[end as int] as int);
    }
    let mut path: Vec<usize> = Vec::new();
    let mut idx: usize = rev1.len();
    while idx > 0
        invariant
            idx <= rev1.len(),
            path@.len() == rev1@.len() - idx,
            forall|q: int|
                0 <= q < path@.len() ==> #[trigger] path@[q] == rev1@[rev1@.len() - 1 - q],
        decreases idx,
    {
        idx = idx - 1;
        let x = rev1[idx];
        path.push(x);
    }
    let mut idx2: usize = rev2.len() - 1;
    while idx2 > 0
        invariant
            idx2 <= rev2@.len() - 1,
            path@.len() == rev1@.len() + (rev2@.len() - 1 - idx2),
            forall|q: int|
                0 <= q < rev1@.len() ==> #[trigger] path@[q] == rev1@[rev1@.len() - 1 - q],
            forall|q: int|
                rev1@.len() <= q < path@.len() ==> #[trigger] path@[q] == rev2@[rev2@.len() - 2 - (
                q - rev1@.len())],
        decreases idx2,
    {
        idx2 = idx2 - 1;
        let x = rev2[idx2];
        path.push(x);
    }
    proof {
        // The assembled vector is exactly the node sequence of the full walk.
        assert forall|q: int| 0 <= q < path@.len() implies #[trigger] path@[q] == path_nodes(
            s,
            full,
        )[q] by {
            if q < rev1@.len() {
                assert(path@[q] == rev1@[rev1@.len() - 1 - q]);
                assert(rev1@[rev1@.len() - 1 - q] == path_nodes(s, steps1)[q]);
                if q > 0 {
                    assert(full[q - 1] == steps1[q - 1]);
                }
            } else {
                assert(path@[q] == rev2@[rev2@.len() - 2 - (q - rev1@.len())]);
                assert(rev2@[rev2@.len() - 2 - (q - rev1@.len())] == path_nodes(ws as int, steps2)[
                    q - rev1@.len() + 1]);
                assert(full[q - 1] == steps2[q - 1 - steps1.len()]);
            }
        }
        assert(path@ =~= path_nodes(s, full));
        // Its cost is minimal among all costs through a waypoint.
        let c = m2.done[end as int] as int;
        let c1 = m1.done[ws as int] as int;
        let c2 = c - c1;
        assert(connects(g, s, ws as int, c1));
        assert(connects(g, ws as int, end as int, c2));
        assert(via_connects(g, s, end as int, c));
        assert forall|cx: int|
            #[trigger] via_connects(g, s, end as int, cx) implies c <= cx by {
            lemma_via_to_aug(m1, m2, end as int, cx);
            let c3 = choose|c3: int|
                0 <= c3 <= cx && #[trigger] connects(m2.graph, m2.src(), end as int, c3);
            assert(is_dist(m2.graph, m2.src(), end as int, m2.done[end as int] as int));
        }
        // The waypoint sits on the path.
        assert(path@[rev1@.len() - 1] == rev1@[0]);
        assert(rev1@[0] == ws);
        assert(g[path@[rev1@.len() - 1] as int].is_waypoint);
        // Hand the existential its witnesses: the concatenated walk and its
        // cost.
        assert(walk_ok(first@.graph, first@.src(), full));
        assert(walk_end(first@.src(), full) == end as int);
        assert(walk_cost(full) == c);
        assert(path@ == path_nodes(first@.src(), full));
        assert(0 <= rev1@.len() - 1 < path@.len());
        assert(first@.graph[path@[rev1@.len() - 1] as int].is_waypoint);
        assert(via_connects(first@.graph, first@.src(), end as int, c));
        assert(forall|c2: int|
            #[trigger] via_connects(first@.graph, first@.src(), end as int, c2) ==> c <= c2);
        assert(found_path_ok(first@.graph, first@.src(), end as int, path@));
    }
    Some(path)
}

/// An exact copy of a graph, node by node.
fn clone_graph(g: &Graph) -> (r: Graph)
    ensures
        graph_model(r@) == graph_model(g@),
{
    let mut out: Vec<Node> = Vec::new();
    let mut i: usize = 0;
    while i < g.len()
        invariant
            i <= g.len(),
            out@.len() == i as int,
            forall|k: int| 0 <= k < i ==> #[trigger] out@[k]@ == g@[k]@,
        decreases g.len() - i,
    {
        let nd = (&g[i]).clone();
        out.push(nd);
        i = i + 1;
    }
    proof {
        assert(graph_model(out@) =~= graph_model(g@));
    }
    out
}

/// The one-shot query: run the whole two-phase preprocess on a copy of the
/// graph and answer a single target.  For repeated targets against the same
/// source, run [`beer_route`] once and call [`query`] per target instead.
pub fn find_path(graph: &Graph, start: usize, end: usize) -> (r: Option<Vec<usize>>)
    requires
        wf(graph_model(graph@)),
        fits_via(graph_model(graph@)),
        start < graph@.len(),
        end < graph@.len(),
    ensures
        match r {
            None => forall|c: int|
                !(#[trigger] via_connects(graph_model(graph@), start as int, end as int, c)),
            Some(path) => found_path_ok(
                graph_model(graph@),
                start as int,
                end as int,
                path@,
            ),
        },
{
    let copy = clone_graph(graph);
    let (first, second) = beer_route(copy, start);
    query(&first, &second, end)
}

} // verus!
