//! The incremental shortest-path engine: one call to [`Dijkstra::advance`]
//! performs exactly one relaxation-then-selection round and yields the tree
//! edge that finalized the selected node.
//!
//! The whole step is pinned down by the spec function [`step`]: the result of
//! `advance` is a mathematical function of the state before the call, so two
//! runs over the same graph and source produce the same ordered edge
//! sequence, tie-breaks included (the lowest index wins among equal tentative
//! distances).

use vstd::prelude::*;

use crate::graph::Graph;
use crate::graph::GNode;
use crate::graph::Node;
use crate::graph::connects;
use crate::graph::fits;
use crate::graph::graph_model;
use crate::graph::has_edge;
use crate::graph::is_dist;
use crate::graph::lemma_connects_extend;
use crate::graph::lemma_edge_w_le_max;
use crate::graph::lemma_max_w;
use crate::graph::lemma_walk_concat;
use crate::graph::lemma_walk_cost_nonneg;
use crate::graph::lemma_walk_end_in_range;
use crate::graph::lemma_walk_step;
use crate::graph::max_w;
use crate::graph::walk_cost;
use crate::graph::walk_end;
use crate::graph::walk_ok;
use crate::graph::wf;

verus! {

/// The three-way per-node state: not yet reached, reached with a tentative
/// distance that is not final, or settled for good.
#[derive(Clone, Copy, PartialEq, Eq, Structural, Debug)]
pub enum Tentative {
    Unreached,
    Frontier(u64),
    Settled,
}

/// The tentative distance carried by a `Frontier` value (0 otherwise).
pub open spec fn fval(t: Tentative) -> int {
    match t {
        Tentative::Frontier(d) => d as int,
        _ => 0,
    }
}

/// The payload of a predecessor entry (0 when there is none; every use is
/// guarded by `is Some`).
pub open spec fn pred_val(p: Option<usize>) -> usize {
    match p {
        Some(q) => q,
        None => 0,
    }
}

/// The mathematical model of one engine run.
#[verifier::ext_equal]
pub ghost struct StateModel {
    pub graph: Seq<GNode>,
    pub tent: Seq<Tentative>,
    pub done: Seq<u64>,
    pub pred: Seq<Option<usize>>,
    pub current: int,
    pub order: Seq<int>,
}

/// Relax a single edge `e` out of the current node against the working pair
/// of `(tentative, predecessor)` columns.
pub open spec fn relax_edge(
    m: StateModel,
    tp: (Seq<Tentative>, Seq<Option<usize>>),
    e: (usize, u64),
) -> (Seq<Tentative>, Seq<Option<usize>>) {
    let v = e.0 as int;
    let cand = m.done[m.current] as int + e.1 as int;
    match tp.0[v] {
        Tentative::Unreached => (
            tp.0.update(v, Tentative::Frontier(cand as u64)),
            tp.1.update(v, Some(m.current as usize)),
        ),
        Tentative::Frontier(d) => if cand < d as int {
            (
                tp.0.update(v, Tentative::Frontier(cand as u64)),
                tp.1.update(v, Some(m.current as usize)),
            )
        } else {
            tp
        },
        Tentative::Settled => tp,
    }
}

/// Relax the first `j` outgoing edges of the current node, in order.
pub open spec fn relax_upto(m: StateModel, j: int) -> (Seq<Tentative>, Seq<Option<usize>>)
    decreases j,
{
    if j <= 0 {
        (m.tent, m.pred)
    } else {
        relax_edge(m, relax_upto(m, j - 1), m.graph[m.current].edges[j - 1])
    }
}

/// The `(tentative, predecessor)` columns after relaxing every outgoing edge
/// of the current node.
pub open spec fn relaxed(m: StateModel) -> (Seq<Tentative>, Seq<Option<usize>>) {
    relax_upto(m, m.graph[m.current].edges.len() as int)
}

/// The frontier node with the smallest tentative distance, the smallest index
/// winning ties; `None` when no frontier node exists.  This forward scan with
/// a strict comparison is the selection rule of the engine.
pub open spec fn pick(t: Seq<Tentative>) -> Option<int>
    decreases t.len(),
{
    if t.len() == 0 {
        None
    } else {
        let k = t.len() - 1;
        match (pick(t.drop_last()), t[k]) {
            (None, Tentative::Frontier(d)) => Some(k),
            (Some(b), Tentative::Frontier(d)) => if (d as int) < fval(t[b]) {
                Some(k)
            } else {
                Some(b)
            },
            (r, _) => r,
        }
    }
}

/// One full engine step: relax the current node's edges, then settle the
/// picked frontier node, if any.
pub open spec fn step(m: StateModel) -> StateModel {
    let (rt, rp) = relaxed(m);
    match pick(rt) {
        None => StateModel { tent: rt, pred: rp, ..m },
        Some(b) => StateModel {
            graph: m.graph,
            tent: rt.update(b, Tentative::Settled),
            done: m.done.update(b, fval(rt[b]) as u64),
            pred: rp,
            current: b,
            order: m.order.push(b),
        },
    }
}

/// The tree edge `(predecessor, node)` that a step yields, if any.
pub open spec fn step_edge(m: StateModel) -> Option<(usize, usize)> {
    let (rt, rp) = relaxed(m);
    match pick(rt) {
        None => None,
        Some(b) => Some((pred_val(rp[b]), b as usize)),
    }
}

/// The state of a fresh run: everything unreached except the source, which is
/// settled at distance 0 and is the initial current node.
pub open spec fn init_model(g: Seq<GNode>, s: int) -> StateModel {
    StateModel {
        graph: g,
        tent: Seq::new(
            g.len(),
            |v: int|
                if v == s {
                    Tentative::Settled
                } else {
                    Tentative::Unreached
                },
        ),
        done: Seq::new(g.len(), |v: int| 0u64),
        pred: Seq::new(g.len(), |v: int| None::<usize>),
        current: s,
        order: seq![s],
    }
}

/// The state after `k` engine steps.
pub open spec fn run_n(m: StateModel, k: nat) -> StateModel
    decreases k,
{
    if k == 0 {
        m
    } else {
        run_n(step(m), (k - 1) as nat)
    }
}

impl StateModel {
    pub open spec fn n(self) -> int {
        self.graph.len() as int
    }

    /// The source of the run: the first node ever settled.
    pub open spec fn src(self) -> int {
        self.order[0]
    }

    /// Shape of the state: array lengths, the settlement order as a duplicate
    /// free list of valid indices that agrees with the `Settled` marks, the
    /// current node as the most recent settlement, and the source pinned at
    /// distance 0 with no predecessor.
    pub open spec fn basic(self) -> bool {
        &&& wf(self.graph)
        &&& fits(self.graph)
        &&& self.n() <= usize::MAX as int
        &&& self.tent.len() == self.n()
        &&& self.done.len() == self.n()
        &&& self.pred.len() == self.n()
        &&& 1 <= self.order.len() <= self.n()
        &&& self.order.no_duplicates()
        &&& forall|k: int| 0 <= k < self.order.len() ==> 0 <= #[trigger] self.order[k] < self.n()
        &&& self.current == self.order.last()
        &&& self.done[self.src()] == 0
        &&& self.pred[self.src()] is None
        &&& forall|v: int|
            0 <= v < self.n() ==> ((#[trigger] self.tent[v]) is Settled <==> self.order.contains(
                v,
            ))
    }

    /// Settlement order is non-decreasing in settled distance.
    pub open spec fn sorted(self) -> bool {
        forall|i: int, j: int|
            0 <= i <= j < self.order.len() ==> self.done[#[trigger] self.order[i]] as int
                <= self.done[#[trigger] self.order[j]] as int
    }

    /// Settled distances stay below `order.len() * max_w`, which keeps every
    /// sum the engine forms inside `u64`.
    pub open spec fn bounded(self) -> bool {
        forall|k: int|
            0 <= k < self.order.len() ==> self.done[#[trigger] self.order[k]] as int
                <= self.order.len() * max_w(self.graph)
    }

    pub open spec fn tree_at(self, k: int) -> bool {
        let v = self.order[k];
        let p = pred_val(self.pred[v]) as int;
        &&& self.pred[v] is Some
        &&& exists|i: int| 0 <= i < k && self.order[i] == p
        &&& exists|w: int|
            has_edge(self.graph, p, v, w) && self.done[v] as int == self.done[p] as int + w
    }

    /// Every settled node except the source records the tree edge that
    /// finalized it: a predecessor settled strictly earlier and an edge whose
    /// weight accounts exactly for the distance difference.
    pub open spec fn tree(self) -> bool {
        forall|k: int| 1 <= k < self.order.len() ==> #[trigger] self.tree_at(k)
    }

    pub open spec fn frontier_at(self, v: int) -> bool {
        let p = pred_val(self.pred[v]) as int;
        &&& self.pred[v] is Some
        &&& 0 <= p < self.n()
        &&& self.tent[p] is Settled
        &&& exists|w: int|
            has_edge(self.graph, p, v, w) && fval(self.tent[v]) == self.done[p] as int + w
    }

    /// Every frontier value is a settled distance plus one edge weight.
    pub open spec fn frontier_ok(self) -> bool {
        forall|v: int|
            0 <= v < self.n() && (#[trigger] self.tent[v]) is Frontier ==> self.frontier_at(v)
    }

    /// Unreached nodes have never been touched.
    pub open spec fn unreached_ok(self) -> bool {
        forall|v: int|
            0 <= v < self.n() && (#[trigger] self.tent[v]) is Unreached ==> self.pred[v] is None
    }

    /// Settled distances are true shortest-path distances from the source.
    pub open spec fn reach_min(self) -> bool {
        forall|v: int|
            0 <= v < self.n() && (#[trigger] self.tent[v]) is Settled ==> is_dist(
                self.graph,
                self.src(),
                v,
                self.done[v] as int,
            )
    }

    /// Frontier values are costs of actual walks from the source.
    pub open spec fn frontier_reach(self) -> bool {
        forall|v: int|
            0 <= v < self.n() && (#[trigger] self.tent[v]) is Frontier ==> connects(
                self.graph,
                self.src(),
                v,
                fval(self.tent[v]),
            )
    }

    pub open spec fn closed_edge(self, u: int, e: (usize, u64)) -> bool {
        let v = e.0 as int;
        self.tent[v] is Settled || (self.tent[v] is Frontier && fval(self.tent[v])
            <= self.done[u] as int + e.1 as int)
    }

    /// Every settled node other than `ex` has had its edges relaxed: each
    /// neighbor is settled or sits on the frontier at no more than the
    /// settled distance plus the edge weight.  Between steps the exception is
    /// the current node, whose edges the next step will relax.
    pub open spec fn closure_except(self, ex: int) -> bool {
        forall|u: int, j: int|
            0 <= u < self.n() && self.tent[u] is Settled && u != ex && 0 <= j
                < self.graph[u].edges.len() ==> self.closed_edge(
                u,
                #[trigger] self.graph[u].edges[j],
            )
    }

    /// No frontier value undercuts a settled distance.
    pub open spec fn settled_le_frontier(self) -> bool {
        forall|u: int, v: int|
            0 <= u < self.n() && 0 <= v < self.n() && (#[trigger] self.tent[u]) is Settled && (
            #[trigger] self.tent[v]) is Frontier ==> self.done[u] as int <= fval(self.tent[v])
    }

    /// The run invariant, true between any two `advance` calls.
    pub open spec fn inv(self) -> bool {
        &&& self.basic()
        &&& self.sorted()
        &&& self.bounded()
        &&& self.tree()
        &&& self.frontier_ok()
        &&& self.unreached_ok()
        &&& self.reach_min()
        &&& self.frontier_reach()
        &&& self.closure_except(self.current)
        &&& self.settled_le_frontier()
    }

    /// No frontier node remains: the run is exhausted.
    pub open spec fn drained(self) -> bool {
        forall|v: int| 0 <= v < self.n() ==> !((#[trigger] self.tent[v]) is Frontier)
    }
}

/// A fresh run satisfies the invariant.
pub proof fn lemma_init_inv(g: Seq<GNode>, s: int)
    requires
        wf(g),
        fits(g),
        g.len() <= usize::MAX,
        0 <= s < g.len(),
    ensures
        init_model(g, s).inv(),
{
    let m = init_model(g, s);
    lemma_max_w(g);
    let nil = Seq::<(usize, u64)>::empty();
    assert(walk_ok(g, s, nil) && walk_end(s, nil) == s && walk_cost(nil) == 0);
    assert(connects(g, s, s, 0));
    assert forall|c: int| connects(g, s, s, c) implies 0 <= c by {
        let steps = choose|steps: Seq<(usize, u64)>|
            walk_ok(g, s, steps) && walk_end(s, steps) == s && walk_cost(steps) == c;
        lemma_walk_cost_nonneg(steps);
    }
    assert(m.order.contains(s)) by {
        assert(m.order[0] == s);
    }
    assert forall|v: int| 0 <= v < m.n() && m.order.contains(v) implies v == s by {
        let k = choose|k: int| 0 <= k < m.order.len() && m.order[k] == v;
    }
    assert(m.basic());
    assert(m.reach_min());
}

/// A duplicate-free sequence of indices below `n` has at most `n` elements.
proof fn lemma_distinct_in_range_len(s: Seq<int>, n: int)
    requires
        s.no_duplicates(),
        forall|k: int| 0 <= k < s.len() ==> 0 <= #[trigger] s[k] < n,
        0 <= n,
    ensures
        s.len() <= n,
{
    s.unique_seq_to_set();
    let r = vstd::set_lib::set_int_range(0, n);
    vstd::set_lib::lemma_int_range(0, n);
    assert forall|x: int| s.to_set().contains(x) implies r.contains(x) by {
        let k = choose|k: int| 0 <= k < s.len() && s[k] == x;
    }
    vstd::set_lib::lemma_len_subset(s.to_set(), r);
}

/// What `pick` returns: `None` exactly when no frontier node exists, else the
/// frontier node with the least tentative value and, among those, the least
/// index.
proof fn lemma_pick_props(t: Seq<Tentative>)
    ensures
        match pick(t) {
            None => forall|v: int| 0 <= v < t.len() ==> !((#[trigger] t[v]) is Frontier),
            Some(b) => {
                &&& 0 <= b < t.len()
                &&& t[b] is Frontier
                &&& forall|v: int|
                    0 <= v < t.len() && (#[trigger] t[v]) is Frontier ==> fval(t[b]) <= fval(t[v])
                &&& forall|v: int|
                    0 <= v < b && (#[trigger] t[v]) is Frontier ==> fval(t[b]) < fval(t[v])
            },
        },
    decreases t.len(),
{
    if t.len() > 0 {
        lemma_pick_props(t.drop_last());
        assert(forall|v: int| 0 <= v < t.len() - 1 ==> t.drop_last()[v] == #[trigger] t[v]);
    }
}

/// Settled nodes sit in the order list, under the distance bound, and no
/// further from the source than the current node.
pub proof fn lemma_settled_facts(m: StateModel, u: int)
    requires
        m.basic(),
        m.sorted(),
        m.bounded(),
        0 <= u < m.n(),
        m.tent[u] is Settled,
    ensures
        m.order.contains(u),
        m.done[u] as int <= m.done[m.current] as int,
        m.done[u] as int <= m.order.len() * max_w(m.graph),
{
    let i = choose|i: int| 0 <= i < m.order.len() && m.order[i] == u;
    assert(m.order[m.order.len() - 1] == m.current);
    assert(m.done[m.order[i]] as int <= m.done[m.order[m.order.len() - 1]] as int);
    assert(m.done[m.order[i]] as int <= m.order.len() * max_w(m.graph));
}

/// Any sum a relaxation can form stays below `2^64`.
proof fn lemma_cand_fits(m: StateModel, u: int, w: int)
    requires
        m.basic(),
        m.sorted(),
        m.bounded(),
        0 <= u < m.n(),
        m.tent[u] is Settled,
        0 <= w <= max_w(m.graph),
    ensures
        0 <= m.done[u] as int + w < 0x1_0000_0000_0000_0000,
{
    lemma_settled_facts(m, u);
    lemma_max_w(m.graph);
    vstd::arithmetic::mul::lemma_mul_inequality(
        m.order.len() as int,
        m.n(),
        max_w(m.graph),
    );
    assert((m.n() + 1) * max_w(m.graph) == m.n() * max_w(m.graph) + max_w(m.graph))
        by (nonlinear_arith);
}

/// The properties of the working columns after relaxing the first `j` edges
/// of the current node.
spec fn frontier_state_at(m: StateModel, j: int, v: int) -> bool {
    let rt = relax_upto(m, j).0;
    let rp = relax_upto(m, j).1;
    let p = pred_val(rp[v]) as int;
    &&& rp[v] is Some
    &&& 0 <= p < m.n()
    &&& m.tent[p] is Settled
    &&& exists|w: int|
        has_edge(m.graph, p, v, w) && fval(rt[v]) == m.done[p] as int + w
}

spec fn closed_in(m: StateModel, j: int, u: int, e: (usize, u64)) -> bool {
    let rt = relax_upto(m, j).0;
    let v = e.0 as int;
    rt[v] is Settled || (rt[v] is Frontier && fval(rt[v]) <= m.done[u] as int + e.1 as int)
}

spec fn relax_props(m: StateModel, j: int) -> bool {
    let rt = relax_upto(m, j).0;
    let rp = relax_upto(m, j).1;
    &&& rt.len() == m.n()
    &&& rp.len() == m.n()
    &&& (forall|v: int|
        0 <= v < m.n() ==> (((#[trigger] rt[v]) is Settled) <==> m.tent[v] is Settled))
    &&& (forall|v: int|
        0 <= v < m.n() && (#[trigger] rt[v]) is Settled ==> rt[v] == m.tent[v] && rp[v]
            == m.pred[v])
    &&& (forall|v: int|
        0 <= v < m.n() && (#[trigger] m.tent[v]) is Frontier ==> rt[v] is Frontier && fval(rt[v])
            <= fval(m.tent[v]))
    &&& (forall|v: int|
        0 <= v < m.n() && (#[trigger] rt[v]) is Unreached ==> m.tent[v] is Unreached && rp[v]
            is None)
    &&& (forall|v: int|
        0 <= v < m.n() && (#[trigger] rt[v]) is Frontier ==> frontier_state_at(m, j, v))
    &&& (forall|v: int|
        0 <= v < m.n() && (#[trigger] rt[v]) is Frontier ==> connects(
            m.graph,
            m.src(),
            v,
            fval(rt[v]),
        ))
    &&& (forall|v: int|
        0 <= v < m.n() && (#[trigger] rt[v]) is Frontier ==> m.done[m.current] as int <= fval(
            rt[v],
        ))
    &&& (forall|jj: int|
        0 <= jj < j ==> closed_in(m, j, m.current, #[trigger] m.graph[m.current].edges[jj]))
}

proof fn lemma_relax_props(m: StateModel, j: int)
    requires
        m.inv(),
        0 <= j <= m.graph[m.current].edges.len(),
    ensures
        relax_props(m, j),
    decreases j,
{
    assert(m.order.contains(m.current)) by {
        assert(m.order[m.order.len() - 1] == m.current);
    }
    assert(m.tent[m.current] is Settled);
    if j == 0 {
        // The untouched columns: everything follows from the run invariant.
        assert forall|v: int|
            0 <= v < m.n() && (#[trigger] m.tent[v]) is Frontier implies frontier_state_at(
            m,
            0,
            v,
        ) by {
            assert(m.frontier_at(v));
        }
        assert forall|v: int|
            0 <= v < m.n() && (#[trigger] m.tent[v]) is Frontier implies m.done[m.current] as int
            <= fval(m.tent[v]) by {
            assert(m.tent[m.current] is Settled);
        }
    } else {
        lemma_relax_props(m, j - 1);
        let rt0 = relax_upto(m, j - 1).0;
        let rp0 = relax_upto(m, j - 1).1;
        let rt = relax_upto(m, j).0;
        let rp = relax_upto(m, j).1;
        let e = m.graph[m.current].edges[j - 1];
        let v = e.0 as int;
        assert(0 <= v < m.n()) by {
            assert((m.graph[m.current].edges[j - 1]).0 < m.graph.len());
        }
        assert(has_edge(m.graph, m.current, v, e.1 as int)) by {
            assert((m.graph[m.current].edges[j - 1]).0 as int == v);
        }
        lemma_edge_w_le_max(m.graph, m.current, v, e.1 as int);
        lemma_cand_fits(m, m.current, e.1 as int);
        let cand = m.done[m.current] as int + e.1 as int;
        assert((cand as u64) as int == cand);
        let improves = match rt0[v] {
            Tentative::Unreached => true,
            Tentative::Frontier(d) => cand < d as int,
            Tentative::Settled => false,
        };
        if improves {
            assert(rt =~= rt0.update(v, Tentative::Frontier(cand as u64)));
            assert(rp =~= rp0.update(v, Some(m.current as usize)));
            assert(fval(rt[v]) == cand);
            // The new frontier entry is a real walk: the current node's
            // settled distance is achieved, extended by this edge.
            assert(connects(m.graph, m.src(), m.current, m.done[m.current] as int)) by {
                assert(m.reach_min());
            }
            lemma_connects_extend(
                m.graph,
                m.src(),
                m.current,
                m.done[m.current] as int,
                e.0,
                e.1,
            );
            assert forall|v2: int|
                0 <= v2 < m.n() && (#[trigger] rt[v2]) is Frontier implies frontier_state_at(
                m,
                j,
                v2,
            ) by {
                if v2 == v {
                    assert(rp[v2] == Some(m.current as usize));
                } else {
                    assert(rt[v2] == rt0[v2] && rp[v2] == rp0[v2]);
                    assert(frontier_state_at(m, j - 1, v2));
                }
            }
            assert forall|jj: int|
                0 <= jj < j implies closed_in(m, j, m.current, #[trigger] m.graph[m.current].edges[jj]) by {
                let e2 = m.graph[m.current].edges[jj];
                if jj < j - 1 {
                    assert(closed_in(m, j - 1, m.current, e2));
                    if e2.0 as int == v {
                        // The target was on the frontier (a settled target is
                        // never updated) and its value only shrank.
                        assert(rt0[v] is Frontier);
                        assert(fval(rt[v]) <= fval(rt0[v]));
                    }
                } else {
                    assert(e2 == e);
                    assert(fval(rt[v]) == m.done[m.current] as int + e.1 as int);
                }
            }
        } else {
            assert(rt == rt0 && rp == rp0);
            assert forall|jj: int|
                0 <= jj < j implies closed_in(m, j, m.current, #[trigger] m.graph[m.current].edges[jj]) by {
                let e2 = m.graph[m.current].edges[jj];
                if jj < j - 1 {
                    assert(closed_in(m, j - 1, m.current, e2));
                } else {
                    assert(e2 == e);
                    match rt0[v] {
                        Tentative::Unreached => {
                            assert(false);
                        },
                        Tentative::Frontier(d) => {
                            assert(d as int <= cand);
                        },
                        Tentative::Settled => {},
                    }
                }
            }
            assert forall|v2: int|
                0 <= v2 < m.n() && (#[trigger] rt[v2]) is Frontier implies frontier_state_at(
                m,
                j,
                v2,
            ) by {
                assert(frontier_state_at(m, j - 1, v2));
            }
        }
    }
}

/// The cut argument: while the relaxed columns still hold an unsettled
/// frontier minimum `b`, no walk from the source to any unsettled node can
/// cost less than `b`'s tentative value.
proof fn lemma_walk_lb(m: StateModel, b: int, steps: Seq<(usize, u64)>)
    requires
        m.inv(),
        relax_props(m, m.graph[m.current].edges.len() as int),
        ({
            let rt = relaxed(m).0;
            &&& 0 <= b < m.n()
            &&& rt[b] is Frontier
            &&& forall|v: int|
                0 <= v < m.n() && (#[trigger] rt[v]) is Frontier ==> fval(rt[b]) <= fval(rt[v])
        }),
        walk_ok(m.graph, m.src(), steps),
        !(m.tent[walk_end(m.src(), steps)] is Settled),
    ensures
        fval(relaxed(m).0[b]) <= walk_cost(steps),
    decreases steps.len(),
{
    let g = m.graph;
    let s = m.src();
    let rt = relaxed(m).0;
    let full = m.graph[m.current].edges.len() as int;
    let t = walk_end(s, steps);
    if steps.len() == 0 {
        // The walk ends at the source, which is settled: contradiction.
        assert(m.order.contains(s)) by {
            assert(m.order[0] == s);
        }
        assert(false);
    } else {
        let prefix = steps.drop_last();
        let u = walk_end(s, prefix);
        let w = steps.last().1 as int;
        lemma_walk_end_in_range(g, s, prefix);
        lemma_walk_cost_nonneg(prefix);
        if m.tent[u] is Settled {
            // The walk's cost up to u is at least u's settled distance, and
            // the edge u -> t was relaxed, so t's frontier value is at most
            // done[u] + w >= b's minimum.
            assert(is_dist(g, s, u, m.done[u] as int)) by {
                assert(m.reach_min());
            }
            assert(connects(g, s, u, walk_cost(prefix)));
            assert(m.done[u] as int <= walk_cost(prefix));
            let jj = choose|jj: int|
                0 <= jj < g[u].edges.len() && (#[trigger] g[u].edges[jj]).0 as int == t
                    && g[u].edges[jj].1 as int == w;
            if u == m.current {
                assert(closed_in(m, full, m.current, g[u].edges[jj]));
            } else {
                // Settled nodes other than the current one were closed
                // already, and relaxation only lowers frontier values.
                assert(m.closed_edge(u, g[u].edges[jj]));
                assert(rt[t] is Frontier && fval(rt[t]) <= m.done[u] as int + w);
            }
            assert(rt[t] is Frontier && fval(rt[t]) <= m.done[u] as int + w);
            assert(fval(rt[b]) <= fval(rt[t]));
        } else {
            lemma_walk_lb(m, b, prefix);
            assert(w >= 0);
        }
    }
}

/// One engine step preserves the run invariant; the settlement order grows by
/// the picked node, or stays put when the run is exhausted.
#[verifier::rlimit(100)]
pub proof fn lemma_step_preserves_inv(m: StateModel)
    requires
        m.inv(),
    ensures
        step(m).inv(),
        step(m).graph == m.graph,
        step(m).src() == m.src(),
        match pick(relaxed(m).0) {
            None => step(m).order == m.order,
            Some(b) => step(m).order == m.order.push(b),
        },
{
    let g = m.graph;
    let n = m.n();
    let s = m.src();
    let full = g[m.current].edges.len() as int;
    lemma_relax_props(m, full);
    let rt = relaxed(m).0;
    let rp = relaxed(m).1;
    lemma_pick_props(rt);
    lemma_max_w(g);
    let m1 = step(m);
    assert(m.order.contains(m.current)) by {
        assert(m.order[m.order.len() - 1] == m.current);
    }
    assert(m.order.contains(s)) by {
        assert(m.order[0] == s);
    }
    assert(m.tent[m.current] is Settled);
    assert(m.tent[s] is Settled);
    match pick(rt) {
        None => {
            assert(m1.tent == rt && m1.pred == rp && m1.done == m.done && m1.order == m.order
                && m1.current == m.current && m1.graph == g);
            assert(m1.src() == s);
            assert(m1.pred[s] == m.pred[s]);
            assert(m1.basic());
            assert(m1.sorted());
            assert(m1.bounded());
            assert forall|k: int| 1 <= k < m1.order.len() implies #[trigger] m1.tree_at(k) by {
                assert(m.tree_at(k));
                let v = m.order[k];
                assert(m.order.contains(v));
                assert(m.tent[v] is Settled);
                let p = pred_val(m.pred[v]) as int;
                let i = choose|i: int| 0 <= i < k && m.order[i] == p;
                let w = choose|w: int|
                    has_edge(g, p, v, w) && m.done[v] as int == m.done[p] as int + w;
                assert(m1.pred[v] == m.pred[v]);
                assert(m1.order[i] == p);
                assert(has_edge(g, p, v, w) && m1.done[v] as int == m1.done[p] as int + w);
            }
            assert(m1.frontier_ok());
            assert(m1.unreached_ok());
            assert(m1.reach_min());
            assert(m1.frontier_reach());
            assert forall|u: int, jj: int|
                0 <= u < n && m1.tent[u] is Settled && u != m1.current && 0 <= jj
                    < g[u].edges.len() implies m1.closed_edge(u, #[trigger] g[u].edges[jj]) by {
                let e = g[u].edges[jj];
                let t = e.0 as int;
                assert(0 <= t < n);
                assert(m.tent[u] is Settled);
                assert(m.closed_edge(u, e));
                if m.tent[t] is Frontier {
                    assert(rt[t] is Frontier);
                    assert(false);
                }
            }
            assert(m1.settled_le_frontier());
            assert(m1.inv());
        },
        Some(b) => {
            assert(rt[b] is Frontier);
            assert(!(m.tent[b] is Settled));
            assert(!m.order.contains(b));
            let db = fval(rt[b]);
            assert(frontier_state_at(m, full, b));
            let pb = pred_val(rp[b]) as int;
            assert(m.tent[pb] is Settled);
            let wb = choose|w: int| has_edge(g, pb, b, w) && fval(rt[b]) == m.done[pb] as int + w;
            lemma_settled_facts(m, pb);
            lemma_edge_w_le_max(g, pb, b, wb);
            assert(db == m.done[pb] as int + wb);
            assert(db <= m.order.len() * max_w(g) + max_w(g));
            assert((m.order.len() as int + 1) * max_w(g) == m.order.len() as int * max_w(g)
                + max_w(g)) by (nonlinear_arith);
            vstd::arithmetic::mul::lemma_mul_inequality(m.order.len() as int + 1, n + 1, max_w(g));
            assert(db <= (m.order.len() + 1) * max_w(g));
            assert(db < 0x1_0000_0000_0000_0000);
            assert((db as u64) as int == db);
            assert(m1.tent == rt.update(b, Tentative::Settled));
            assert(m1.done == m.done.update(b, db as u64));
            assert(m1.pred == rp);
            assert(m1.order == m.order.push(b));
            assert(m1.current == b);
            assert(b != s);
            // The order list stays duplicate-free and within range.
            assert forall|i: int, j: int|
                0 <= i < m1.order.len() && 0 <= j < m1.order.len() && i != j implies m1.order[i]
                    != m1.order[j] by {
                if i < m.order.len() && j < m.order.len() {
                    assert(m.order[i] == m1.order[i] && m.order[j] == m1.order[j]);
                } else if j == m.order.len() && i < m.order.len() {
                    assert(m1.order[i] == m.order[i] && m1.order[j] == b);
                } else if i == m.order.len() && j < m.order.len() {
                    assert(m1.order[j] == m.order[j] && m1.order[i] == b);
                }
            }
            assert(m1.order.no_duplicates());
            lemma_distinct_in_range_len(m1.order, n);
            assert(m1.order[0] == s);
            assert(m1.src() == s);
            assert(m1.done[s] == 0);
            assert(m1.pred[s] == m.pred[s]);
            assert(m1.current == m1.order.last());
            assert forall|v: int|
                0 <= v < n implies ((#[trigger] m1.tent[v]) is Settled <==> m1.order.contains(
                v,
            )) by {
                if v == b {
                    assert(m1.order[m1.order.len() - 1] == b);
                } else {
                    if m1.order.contains(v) {
                        let i = choose|i: int| 0 <= i < m1.order.len() && m1.order[i] == v;
                        assert(i < m.order.len() && m.order[i] == v);
                        assert(m.order.contains(v));
                    }
                    if m.order.contains(v) {
                        let i = choose|i: int| 0 <= i < m.order.len() && m.order[i] == v;
                        assert(m1.order[i] == v);
                    }
                }
            }
            assert(m1.basic());
            // Sorted: the new settlement is no closer than any earlier one.
            assert forall|i: int, j: int|
                0 <= i <= j < m1.order.len() implies m1.done[#[trigger] m1.order[i]] as int
                    <= m1.done[#[trigger] m1.order[j]] as int by {
                if j < m.order.len() {
                    assert(m.done[m.order[i]] as int <= m.done[m.order[j]] as int);
                    assert(m.order[i] != b && m.order[j] != b);
                } else if i < m.order.len() {
                    let u = m.order[i];
                    assert(m.order.contains(u));
                    assert(m.tent[u] is Settled);
                    lemma_settled_facts(m, u);
                    assert(m.done[m.current] as int <= db);
                    assert(u != b);
                }
            }
            assert(m1.sorted());
            assert forall|k: int|
                0 <= k < m1.order.len() implies m1.done[#[trigger] m1.order[k]] as int
                    <= m1.order.len() * max_w(g) by {
                vstd::arithmetic::mul::lemma_mul_inequality(
                    m.order.len() as int,
                    m.order.len() as int + 1,
                    max_w(g),
                );
                if k < m.order.len() {
                    assert(m.done[m.order[k]] as int <= m.order.len() * max_w(g));
                    assert(m.order[k] != b);
                }
            }
            assert(m1.bounded());
            assert forall|k: int| 1 <= k < m1.order.len() implies #[trigger] m1.tree_at(k) by {
                if k < m.order.len() {
                    assert(m.tree_at(k));
                    let v = m.order[k];
                    assert(m.order.contains(v));
                    assert(m.tent[v] is Settled);
                    assert(v != b);
                    let p = pred_val(m.pred[v]) as int;
                    let i = choose|i: int| 0 <= i < k && m.order[i] == p;
                    let w = choose|w: int|
                        has_edge(g, p, v, w) && m.done[v] as int == m.done[p] as int + w;
                    assert(m.order.contains(p));
                    assert(m.tent[p] is Settled);
                    assert(p != b);
                    assert(m1.pred[v] == rp[v] && rp[v] == m.pred[v]);
                    assert(m1.order[i] == p && m1.order[k] == v);
                    assert(has_edge(g, p, v, w) && m1.done[v] as int == m1.done[p] as int + w);
                } else {
                    let i = choose|i: int| 0 <= i < m.order.len() && m.order[i] == pb;
                    assert(m1.order[i] == pb && m1.order[k] == b);
                    assert(pb != b);
                    assert(m1.pred[b] == rp[b]);
                    assert(has_edge(g, pb, b, wb) && m1.done[b] as int == m1.done[pb] as int
                        + wb);
                }
            }
            assert(m1.tree());
            assert forall|v: int|
                0 <= v < n && (#[trigger] m1.tent[v]) is Frontier implies m1.frontier_at(v) by {
                assert(v != b && rt[v] is Frontier);
                assert(frontier_state_at(m, full, v));
                let p = pred_val(rp[v]) as int;
                assert(m.tent[p] is Settled);
                assert(p != b);
                assert(rt[p] is Settled);
                assert(m1.tent[p] is Settled);
                let w = choose|w: int|
                    has_edge(g, p, v, w) && fval(rt[v]) == m.done[p] as int + w;
                assert(has_edge(g, p, v, w) && fval(m1.tent[v]) == m1.done[p] as int + w);
            }
            assert(m1.frontier_ok());
            assert(m1.unreached_ok());
            // The settled node's distance is the true shortest distance: it
            // is achieved, and the cut argument bounds every other walk.
            assert forall|c: int| connects(g, s, b, c) implies db <= c by {
                let steps = choose|steps: Seq<(usize, u64)>|
                    walk_ok(g, s, steps) && walk_end(s, steps) == b && walk_cost(steps) == c;
                lemma_walk_lb(m, b, steps);
            }
            assert(connects(g, s, b, db));
            assert(is_dist(g, s, b, db));
            assert forall|v: int|
                0 <= v < n && (#[trigger] m1.tent[v]) is Settled implies is_dist(
                g,
                m1.src(),
                v,
                m1.done[v] as int,
            ) by {
                if v != b {
                    assert(m.tent[v] is Settled);
                    assert(m1.done[v] == m.done[v]);
                }
            }
            assert(m1.reach_min());
            assert(m1.frontier_reach());
            assert forall|u: int, jj: int|
                0 <= u < n && m1.tent[u] is Settled && u != m1.current && 0 <= jj
                    < g[u].edges.len() implies m1.closed_edge(u, #[trigger] g[u].edges[jj]) by {
                let e = g[u].edges[jj];
                let t = e.0 as int;
                assert(0 <= t < n);
                assert(u != b);
                assert(m.tent[u] is Settled);
                assert(m1.done[u] == m.done[u]);
                if u == m.current {
                    assert(closed_in(m, full, m.current, e));
                } else {
                    assert(m.closed_edge(u, e));
                    if m.tent[t] is Frontier {
                        assert(rt[t] is Frontier && fval(rt[t]) <= fval(m.tent[t]));
                    }
                }
                if t != b {
                    assert(m1.tent[t] == rt[t]);
                }
            }
            assert(m1.closure_except(m1.current));
            assert forall|u: int, v: int|
                0 <= u < n && 0 <= v < n && (#[trigger] m1.tent[u]) is Settled && (
                #[trigger] m1.tent[v]) is Frontier implies m1.done[u] as int <= fval(
                m1.tent[v],
            ) by {
                assert(v != b && rt[v] is Frontier);
                assert(fval(rt[b]) <= fval(rt[v]));
                if u == b {
                    assert(m1.done[u] as int == db);
                } else {
                    assert(m.tent[u] is Settled);
                    lemma_settled_facts(m, u);
                    assert(m.done[m.current] as int <= fval(rt[v]));
                }
            }
            assert(m1.settled_le_frontier());
            assert(m1.inv());
        },
    }
}

/// When no frontier node remains after relaxation, a step changes nothing.
pub proof fn lemma_fixpoint(m: StateModel)
    requires
        m.inv(),
        pick(relaxed(m).0) is None,
    ensures
        step(m) == m,
{
    let full = m.graph[m.current].edges.len() as int;
    lemma_relax_props(m, full);
    let rt = relaxed(m).0;
    let rp = relaxed(m).1;
    lemma_pick_props(rt);
    assert forall|v: int| 0 <= v < m.n() implies rt[v] == m.tent[v] && rp[v] == m.pred[v] by {
        match m.tent[v] {
            Tentative::Settled => {},
            Tentative::Frontier(_) => {
                assert(rt[v] is Frontier);
                assert(false);
            },
            Tentative::Unreached => {
                assert(!(rt[v] is Settled));
                assert(!(rt[v] is Frontier));
                assert(rt[v] is Unreached);
                assert(m.pred[v] is None && rp[v] is None);
            },
        }
    }
    assert(rt =~= m.tent);
    assert(rp =~= m.pred);
    assert(step(m) =~= m);
}

/// Once every settled node's edges are relaxed and no frontier remains, every
/// walk from the source stays inside the settled set.
proof fn lemma_closed_walk(m: StateModel, steps: Seq<(usize, u64)>)
    requires
        m.basic(),
        m.drained(),
        m.closure_except(-1),
        walk_ok(m.graph, m.src(), steps),
    ensures
        m.tent[walk_end(m.src(), steps)] is Settled,
    decreases steps.len(),
{
    let g = m.graph;
    let s = m.src();
    if steps.len() == 0 {
        assert(m.order.contains(s)) by {
            assert(m.order[0] == s);
        }
    } else {
        lemma_closed_walk(m, steps.drop_last());
        let u = walk_end(s, steps.drop_last());
        let t = steps.last().0 as int;
        let w = steps.last().1 as int;
        lemma_walk_end_in_range(g, s, steps.drop_last());
        let jj = choose|jj: int|
            0 <= jj < g[u].edges.len() && (#[trigger] g[u].edges[jj]).0 as int == t
                && g[u].edges[jj].1 as int == w;
        assert(m.closed_edge(u, g[u].edges[jj]));
        assert(0 <= t < m.n());
    }
}

/// The exhausted run computes exactly the single-source shortest paths: every
/// settled distance is the true distance, and nodes left unsettled are simply
/// not reachable from the source.
pub proof fn lemma_drained_correct(m: StateModel)
    requires
        m.inv(),
        step(m) == m,
    ensures
        m.drained(),
        forall|v: int|
            0 <= v < m.n() && (#[trigger] m.tent[v]) is Settled ==> is_dist(
                m.graph,
                m.src(),
                v,
                m.done[v] as int,
            ),
        forall|v: int, c: int|
            0 <= v < m.n() && !(m.tent[v] is Settled) ==> !(#[trigger] connects(
                m.graph,
                m.src(),
                v,
                c,
            )),
{
    let g = m.graph;
    let full = g[m.current].edges.len() as int;
    lemma_relax_props(m, full);
    let rt = relaxed(m).0;
    lemma_pick_props(rt);
    if pick(rt) is Some {
        assert(step(m).order.len() == m.order.len() + 1);
        assert(false);
    }
    assert(step(m).tent == rt);
    assert(rt == m.tent);
    assert forall|v: int| 0 <= v < m.n() implies !((#[trigger] m.tent[v]) is Frontier) by {
        assert(!(rt[v] is Frontier));
    }
    assert forall|u: int, jj: int|
        0 <= u < m.n() && m.tent[u] is Settled && u != -1 && 0 <= jj
            < g[u].edges.len() implies m.closed_edge(u, #[trigger] g[u].edges[jj]) by {
        let e = g[u].edges[jj];
        if u == m.current {
            assert(closed_in(m, full, m.current, e));
        } else {
            assert(m.closed_edge(u, e));
        }
    }
    assert(m.closure_except(-1));
    assert forall|v: int, c: int|
        0 <= v < m.n() && !(m.tent[v] is Settled) implies !(#[trigger] connects(
        g,
        m.src(),
        v,
        c,
    )) by {
        if connects(g, m.src(), v, c) {
            let steps = choose|steps: Seq<(usize, u64)>|
                walk_ok(g, m.src(), steps) && walk_end(m.src(), steps) == v && walk_cost(steps)
                    == c;
            lemma_closed_walk(m, steps);
        }
    }
}

/// Monotonic settlement: the settled distances, read in settlement order,
/// never decrease.
pub proof fn lemma_monotonic_settlement(m: StateModel)
    requires
        m.inv(),
    ensures
        forall|i: int, j: int|
            0 <= i <= j < m.order.len() ==> m.done[#[trigger] m.order[i]] as int <= m.done[
                #[trigger] m.order[j]] as int,
{
}

/// Single settlement: no node is ever settled twice, and every settled
/// node's predecessor (the source has none) was settled strictly earlier.
pub proof fn lemma_single_settlement(m: StateModel)
    requires
        m.inv(),
    ensures
        m.order.no_duplicates(),
        m.pred[m.src()] is None,
        forall|k: int|
            1 <= k < m.order.len() ==> m.pred[#[trigger] m.order[k]] is Some && exists|i: int|
                0 <= i < k && m.order[i] == pred_val(m.pred[m.order[k]]) as int,
{
    assert forall|k: int|
        1 <= k < m.order.len() implies m.pred[#[trigger] m.order[k]] is Some && exists|i: int|
        0 <= i < k && m.order[i] == pred_val(m.pred[m.order[k]]) as int by {
        assert(m.tree_at(k));
    }
}

/// A source without outgoing edges exhausts immediately: the first step
/// yields no edge and leaves the fresh state unchanged.
pub proof fn lemma_no_edges_exhausted(g: Seq<GNode>, s: int)
    requires
        wf(g),
        fits(g),
        g.len() <= usize::MAX,
        0 <= s < g.len(),
        g[s].edges.len() == 0,
    ensures
        step_edge(init_model(g, s)) is None,
        step(init_model(g, s)) == init_model(g, s),
{
    let m = init_model(g, s);
    lemma_init_inv(g, s);
    lemma_pick_props(relaxed(m).0);
    if pick(relaxed(m).0) is Some {
        let b = choose|b: int| pick(relaxed(m).0) == Some(b);
        assert(relaxed(m).0 == m.tent);
        assert(false);
    }
    lemma_fixpoint(m);
}

/// Running `a + b` steps is running `a` steps, then `b` more.
pub proof fn lemma_run_n_compose(m: StateModel, a: nat, b: nat)
    ensures
        run_n(m, a + b) == run_n(run_n(m, a), b),
    decreases a,
{
    if a > 0 {
        lemma_run_n_compose(step(m), (a - 1) as nat, b);
        assert(run_n(m, a + b) == run_n(step(m), (a + b - 1) as nat));
    }
}

/// Extra steps change nothing once the state is a fixpoint.
pub proof fn lemma_run_n_stable(m: StateModel, k: nat)
    requires
        step(m) == m,
    ensures
        run_n(m, k) == m,
    decreases k,
{
    if k > 0 {
        lemma_run_n_stable(m, (k - 1) as nat);
    }
}

/// A run keeps its invariant, graph and source through any number of steps.
pub proof fn lemma_run_n_props(m: StateModel, k: nat)
    requires
        m.inv(),
    ensures
        run_n(m, k).inv(),
        run_n(m, k).graph == m.graph,
        run_n(m, k).src() == m.src(),
    decreases k,
{
    if k > 0 {
        lemma_step_preserves_inv(m);
        lemma_run_n_props(step(m), (k - 1) as nat);
    }
}

/// One incremental Dijkstra run over an immutable graph.  The run owns the
/// graph plus the per-node columns; `order` is the ghost settlement history
/// that the contracts speak of.
pub struct Dijkstra {
    pub graph: Graph,
    pub tentative: Vec<Tentative>,
    pub done_distances: Vec<u64>,
    pub predecessors: Vec<Option<usize>>,
    pub current: usize,
    pub order: Ghost<Seq<int>>,
}

impl View for Dijkstra {
    type V = StateModel;

    open spec fn view(&self) -> StateModel {
        StateModel {
            graph: graph_model(self.graph@),
            tent: self.tentative@,
            done: self.done_distances@,
            pred: self.predecessors@,
            current: self.current as int,
            order: self.order@,
        }
    }
}

impl Dijkstra {
    /// Start a run: every node unreached except `start`, which is settled at
    /// distance 0 and is the initial current node.
    pub fn new(input: Graph, start: usize) -> (r: Dijkstra)
        requires
            wf(graph_model(input@)),
            fits(graph_model(input@)),
            start < input@.len(),
        ensures
            r@ == init_model(graph_model(input@), start as int),
            r@.inv(),
    {
        let n = input.len();
        let mut tentative: Vec<Tentative> = Vec::new();
        let mut done_distances: Vec<u64> = Vec::new();
        let mut predecessors: Vec<Option<usize>> = Vec::new();
        let mut i: usize = 0;
        while i < n
            invariant
                i <= n,
                tentative@.len() == i as int,
                done_distances@.len() == i as int,
                predecessors@.len() == i as int,
                forall|v: int|
                    0 <= v < i ==> #[trigger] tentative@[v] == (if v == start as int {
                        Tentative::Settled
                    } else {
                        Tentative::Unreached
                    }),
                forall|v: int| 0 <= v < i ==> #[trigger] done_distances@[v] == 0u64,
                forall|v: int| 0 <= v < i ==> #[trigger] predecessors@[v] is None,
            decreases n - i,
        {
            if i == start {
                tentative.push(Tentative::Settled);
            } else {
                tentative.push(Tentative::Unreached);
            }
            done_distances.push(0);
            predecessors.push(None);
            i = i + 1;
        }
        let ghost ord: Seq<int> = seq![start as int];
        let r = Dijkstra {
            graph: input,
            tentative,
            done_distances,
            predecessors,
            current: start,
            order: Ghost(ord),
        };
        proof {
            let gm = graph_model(r.graph@);
            let m = init_model(gm, start as int);
            assert(r@.tent =~= m.tent);
            assert(r@.done =~= m.done);
            assert(r@.pred =~= m.pred);
            assert(r@ =~= m);
            lemma_init_inv(gm, start as int);
        }
        r
    }

    /// Perform one relaxation-then-selection round: relax every outgoing edge
    /// of the current node, then settle the frontier node with the least
    /// tentative distance (lowest index on ties).  Returns the newly
    /// finalized tree edge `(predecessor, node)`, or `None` once the run is
    /// exhausted; an exhausted run never changes again.
    #[verifier::loop_isolation(false)]
    pub fn advance(&mut self) -> (r: Option<(usize, usize)>)
        requires
            old(self)@.inv(),
        ensures
            final(self)@ == step(old(self)@),
            r == step_edge(old(self)@),
            final(self)@.inv(),
    {
        let ghost m0 = self@;
        let cur = self.current;
        proof {
            assert(m0.order.contains(m0.current)) by {
                assert(m0.order[m0.order.len() - 1] == m0.current);
            }
            assert(m0.tent[cur as int] is Settled);
        }
        let cur_dist = self.done_distances[cur];
        let num = self.graph[cur].edges.len();
        let mut j: usize = 0;
        while j < num
            invariant
                j <= num,
                num == m0.graph[m0.current].edges.len(),
                graph_model(self.graph@) == m0.graph,
                self.current == cur,
                self.done_distances@ == m0.done,
                self.order@ == m0.order,
                self.tentative@ == relax_upto(m0, j as int).0,
                self.predecessors@ == relax_upto(m0, j as int).1,
            decreases num - j,
        {
            proof {
                lemma_relax_props(m0, j as int);
            }
            let (v, w) = self.graph[cur].edges[j];
            proof {
                assert((m0.graph[m0.current].edges[j as int]).0 < m0.graph.len());
                assert(has_edge(m0.graph, m0.current, v as int, w as int)) by {
                    assert((m0.graph[m0.current].edges[j as int]).0 as int == v as int);
                }
                lemma_edge_w_le_max(m0.graph, m0.current, v as int, w as int);
                lemma_cand_fits(m0, m0.current, w as int);
            }
            match self.tentative[v] {
                Tentative::Unreached => {
                    self.tentative.set(v, Tentative::Frontier(cur_dist + w));
                    self.predecessors.set(v, Some(cur));
                },
                Tentative::Frontier(d) => {
                    if cur_dist + w < d {
                        self.tentative.set(v, Tentative::Frontier(cur_dist + w));
                        self.predecessors.set(v, Some(cur));
                    }
                },
                Tentative::Settled => {},
            }
            j = j + 1;
            proof {
                assert(self.tentative@ =~= relax_upto(m0, j as int).0);
                assert(self.predecessors@ =~= relax_upto(m0, j as int).1);
            }
        }
        proof {
            lemma_relax_props(m0, num as int);
            assert(self.tentative@ == relaxed(m0).0);
            assert(self.predecessors@ == relaxed(m0).1);
        }
        let n = self.tentative.len();
        let mut best: Option<usize> = None;
        let mut best_val: u64 = 0;
        let mut v: usize = 0;
        while v < n
            invariant
                v <= n,
                n as int == m0.n(),
                graph_model(self.graph@) == m0.graph,
                self.current == cur,
                self.done_distances@ == m0.done,
                self.order@ == m0.order,
                self.tentative@ == relaxed(m0).0,
                self.predecessors@ == relaxed(m0).1,
                match best {
                    None => pick(relaxed(m0).0.take(v as int)) is None,
                    Some(bu) => {
                        &&& pick(relaxed(m0).0.take(v as int)) == Some(bu as int)
                        &&& (bu as int) < v as int
                        &&& relaxed(m0).0[bu as int] == Tentative::Frontier(best_val)
                    },
                },
            decreases n - v,
        {
            match self.tentative[v] {
                Tentative::Frontier(d) => {
                    if best.is_none() || d < best_val {
                        best = Some(v);
                        best_val = d;
                    }
                },
                _ => {},
            }
            v = v + 1;
            proof {
                let rt = relaxed(m0).0;
                assert(rt.take(v as int).drop_last() =~= rt.take(v as int - 1));
                assert(rt.take(v as int).last() == rt[v as int - 1]);
            }
        }
        proof {
            assert(relaxed(m0).0.take(n as int) =~= relaxed(m0).0);
        }
        match best {
            None => {
                proof {
                    assert(pick(relaxed(m0).0) is None);
                    assert(self@ =~= step(m0));
                    lemma_step_preserves_inv(m0);
                }
                None
            },
            Some(b) => {
                proof {
                    assert(pick(relaxed(m0).0) == Some(b as int));
                    lemma_relax_props(m0, num as int);
                    assert(relaxed(m0).0[b as int] is Frontier);
                    assert(frontier_state_at(m0, num as int, b as int));
                    assert(self.predecessors@[b as int] is Some);
                }
                let p = self.predecessors[b].unwrap();
                self.tentative.set(b, Tentative::Settled);
                self.done_distances.set(b, best_val);
                self.current = b;
                proof {
                    self.order@ = self.order@.push(b as int);
                    assert(self@.tent =~= relaxed(m0).0.update(b as int, Tentative::Settled));
                    assert(self@.done =~= m0.done.update(
                        b as int,
                        fval(relaxed(m0).0[b as int]) as u64,
                    ));
                    assert(self@ =~= step(m0));
                    lemma_step_preserves_inv(m0);
                }
                Some((p, b))
            },
        }
    }

    /// Run the engine to exhaustion.  The result is exactly `n` spec-level
    /// steps from the starting state (a step is the identity once the run is
    /// exhausted), so the drained state is a function of graph and source.
    #[verifier::loop_isolation(false)]
    pub fn drain(&mut self)
        requires
            old(self)@.inv(),
        ensures
            final(self)@ == run_n(old(self)@, old(self)@.graph.len()),
            final(self)@.inv(),
            final(self)@.drained(),
            step(final(self)@) == final(self)@,
    {
        let ghost m0 = self@;
        let ghost mut i: nat = 0nat;
        let mut more = true;
        while more
            invariant
                self@.inv(),
                self@ == run_n(m0, i),
                self@.graph == m0.graph,
                more ==> self@.order.len() == m0.order.len() + i,
                !more ==> step(self@) == self@ && i <= m0.graph.len(),
            decreases m0.graph.len() - self@.order.len() + (if more {
                1int
            } else {
                0int
            }),
        {
            let ghost prev = self@;
            let r = self.advance();
            proof {
                i = i + 1;
                lemma_run_n_compose(m0, (i - 1) as nat, 1nat);
                assert(run_n(step(prev), 0nat) == step(prev));
                assert(run_n(prev, 1nat) == step(prev));
                assert(self@ == run_n(m0, i));
            }
            match r {
                None => {
                    more = false;
                    proof {
                        if pick(relaxed(prev).0) is Some {
                            assert(step_edge(prev) is Some);
                        }
                        lemma_fixpoint(prev);
                        assert(self@ == prev);
                        assert(step(self@) == self@);
                        assert(prev.order.len() <= prev.n());
                    }
                },
                Some(_) => {
                    proof {
                        if pick(relaxed(prev).0) is None {
                            assert(step_edge(prev) is None);
                        }
                        lemma_step_preserves_inv(prev);
                        assert(self@.order.len() == prev.order.len() + 1);
                    }
                },
            }
        }
        proof {
            lemma_run_n_compose(m0, i, (m0.graph.len() - i) as nat);
            lemma_run_n_stable(self@, (m0.graph.len() - i) as nat);
            assert(self@ == run_n(m0, m0.graph.len()));
            lemma_drained_correct(self@);
        }
    }
}

} // verus!
