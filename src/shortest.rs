use vstd::prelude::*;
use crate::graph::{
    Edge, Graph, MAX_COST, MAX_NODES, MAX_EDGES, edge_ok, edges_ok, is_walk, walk_cost,
    has_negative_cycle, is_shortest, lemma_walk_push, is_bidirectional, lemma_reverse_walk,
    lemma_short_walk,
};

verus! {

/// Failure of the offline shortest-path computation.
#[derive(Clone, Copy, Debug, PartialEq, Eq, Structural)]
pub enum PrecomputeError {
    /// Relaxation still improved a distance after the pass bound.
    NegativeCycle,
}

/// Precomputed all-pairs distances and predecessor edges.
///
/// `dist[s][v]` is the least walk cost from `s` to `v` (`None`: unreachable);
/// `pred[s][v]` is the index of the last edge of one least-cost walk.
#[derive(Clone, Debug)]
pub struct DistanceTable {
    pub dist: Vec<Vec<Option<i64>>>,
    pub pred: Vec<Vec<Option<usize>>>,
}

/// Every edge leaving a reached node is already relaxed in `row`.
pub open spec fn row_relaxed(edges: Seq<Edge>, row: Seq<Option<i64>>) -> bool {
    forall|i: int| 0 <= i < edges.len() ==> #[trigger] edge_relaxed(edges, row, i)
}

/// Edge `i` cannot lower the entry of its target in `row`.
pub open spec fn edge_relaxed(edges: Seq<Edge>, row: Seq<Option<i64>>, i: int) -> bool {
    row[edges[i].from as int] is Some ==> {
        &&& row[edges[i].to as int] is Some
        &&& row[edges[i].to as int]->0 <= row[edges[i].from as int]->0 + edges[i].cost
    }
}

/// The predecessor edge of each reached node other than `s` ends in it and
/// comes from a reached node, and its cost is exactly accounted for.
pub open spec fn preds_tight(
    edges: Seq<Edge>,
    s: int,
    row: Seq<Option<i64>>,
    pred: Seq<Option<usize>>,
) -> bool {
    forall|v: int|
        0 <= v < row.len() && v != s && (#[trigger] row[v]) is Some ==> {
            &&& pred[v] is Some
            &&& pred[v]->0 < edges.len()
            &&& edges[pred[v]->0 as int].to == v
            &&& row[edges[pred[v]->0 as int].from as int] is Some
            &&& row[v]->0 == row[edges[pred[v]->0 as int].from as int]->0
                + edges[pred[v]->0 as int].cost
        }
}

impl DistanceTable {
    /// The table holds, for graph `g`, every least walk cost and tight predecessors.
    pub open spec fn is_table_of(&self, g: &Graph) -> bool {
        &&& g.wf()
        &&& self.dist@.len() == g.n
        &&& self.pred@.len() == g.n
        &&& forall|s: int| 0 <= s < g.n ==> {
            &&& (#[trigger] self.dist@[s])@.len() == g.n
            &&& self.pred@[s]@.len() == g.n
            &&& self.dist@[s]@[s] == Some(0i64)
            &&& preds_tight(g.edges@, s, self.dist@[s]@, self.pred@[s]@)
            &&& exists|h: Seq<int>| row_ranked(g.edges@, s, self.dist@[s]@, self.pred@[s]@, h)
        }
        &&& forall|s: int, v: int|
            0 <= s < g.n && 0 <= v < g.n ==> #[trigger] is_shortest(
                g.edges@,
                s,
                v,
                self.dist@[s]@[v],
            )
    }
}

/// In a relaxed row, a walk from a reached node `x` to `v` bounds the entry of `v`.
pub proof fn lemma_relaxed_walk(
    edges: Seq<Edge>,
    row: Seq<Option<i64>>,
    x: int,
    v: int,
    w: Seq<int>,
)
    requires
        row_relaxed(edges, row),
        edges_ok(edges, row.len() as int),
        0 <= x < row.len(),
        row[x] is Some,
        is_walk(edges, x, v, w),
    ensures
        row[v] is Some,
        row[v]->0 <= row[x]->0 + walk_cost(edges, w),
    decreases w.len(),
{
    if w.len() > 0 {
        let e = w.last();
        let u = edges[e].from as int;
        lemma_relaxed_walk(edges, row, x, u, w.drop_last());
        assert(edge_ok(edges[e], row.len() as int));
        assert(edge_relaxed(edges, row, e));
    }
}

/// Every walk from `s` with at most `k` edges bounds the entry of its end.
pub open spec fn walks_bound(edges: Seq<Edge>, s: int, row: Seq<Option<i64>>, k: int) -> bool {
    forall|v: int, w: Seq<int>|
        0 <= v < row.len() && #[trigger] is_walk(edges, s, v, w) && w.len() <= k ==> row[v] is Some
            && row[v]->0 <= walk_cost(edges, w)
}

/// Every walk from `s` with `k + 1` edges whose last edge comes before `j`
/// bounds the entry of its end.
pub open spec fn walks_bound_upto(
    edges: Seq<Edge>,
    s: int,
    row: Seq<Option<i64>>,
    k: int,
    j: int,
) -> bool {
    forall|v: int, w: Seq<int>|
        0 <= v < row.len() && #[trigger] is_walk(edges, s, v, w) && w.len() == k + 1 && w.last()
            < j ==> row[v] is Some && row[v]->0 <= walk_cost(edges, w)
}

/// Relaxing edge `j` keeps the walk bounds of the current pass and extends
/// them to walks whose last edge is `j`.
proof fn lemma_pass_step(
    edges: Seq<Edge>,
    n: int,
    s: int,
    before: Seq<Option<i64>>,
    after: Seq<Option<i64>>,
    j: int,
    pass: int,
)
    requires
        edges_ok(edges, n),
        0 <= j < edges.len(),
        0 <= pass,
        before.len() == n,
        after.len() == n,
        walks_bound(edges, s, before, pass),
        walks_bound_upto(edges, s, before, pass, j),
        forall|v: int| 0 <= v < n && (#[trigger] before[v]) is Some ==>
            after[v] is Some && after[v]->0 <= before[v]->0,
        before[edges[j].from as int] is Some ==> {
            &&& after[edges[j].to as int] is Some
            &&& after[edges[j].to as int]->0 <= before[edges[j].from as int]->0 + edges[j].cost
        },
    ensures
        walks_bound(edges, s, after, pass),
        walks_bound_upto(edges, s, after, pass, j + 1),
{
    assert(edge_ok(edges[j], n));
    assert forall|v: int, w: Seq<int>|
        0 <= v < after.len() && #[trigger] is_walk(edges, s, v, w) && w.len() <= pass implies after[v]
        is Some && after[v]->0 <= walk_cost(edges, w) by {
        assert(before[v] is Some);
    }
    assert forall|v: int, w: Seq<int>|
        0 <= v < after.len() && #[trigger] is_walk(edges, s, v, w) && w.len() == pass + 1 && w.last()
            < j + 1 implies after[v] is Some && after[v]->0 <= walk_cost(edges, w) by {
        if w.last() < j {
            assert(before[v] is Some);
        } else {
            let u = edges[j].from as int;
            assert(w.last() == j);
            assert(is_walk(edges, s, u, w.drop_last()));
            assert(before[u] is Some);
        }
    }
}

/// Along each predecessor edge of a reached node other than `s`, the rank
/// drops.
pub open spec fn row_ranked(
    edges: Seq<Edge>,
    s: int,
    row: Seq<Option<i64>>,
    pred: Seq<Option<usize>>,
    h: Seq<int>,
) -> bool {
    &&& h.len() == row.len()
    &&& forall|v: int|
        0 <= v < row.len() && v != s && (#[trigger] row[v]) is Some ==> h[edges[pred[v]->0 as int].from as int]
            < h[v]
}

/// While relaxing, each predecessor edge either drops the rank or is not
/// yet tight.
pub open spec fn rank_inv(
    edges: Seq<Edge>,
    s: int,
    row: Seq<Option<i64>>,
    pred: Seq<Option<usize>>,
    h: Seq<int>,
) -> bool {
    &&& h.len() == row.len()
    &&& forall|v: int|
        0 <= v < row.len() && v != s && (#[trigger] row[v]) is Some ==> {
            let f = edges[pred[v]->0 as int].from as int;
            h[f] < h[v] || row[v]->0 > row[f]->0 + edges[pred[v]->0 as int].cost
        }
}

/// A relaxation that lowers the entry of an edge's target keeps the rank
/// invariant once the target's rank is set one above its new predecessor's.
proof fn lemma_rank_step(
    edges: Seq<Edge>,
    n: int,
    s: int,
    row: Seq<Option<i64>>,
    pred: Seq<Option<usize>>,
    row2: Seq<Option<i64>>,
    pred2: Seq<Option<usize>>,
    h: Seq<int>,
    ji: usize,
    bound: int,
    wit: Seq<Seq<int>>,
)
    requires
        edges_ok(edges, n),
        ji < edges.len(),
        row_inv(edges, n, s, row, pred, wit, bound),
        rank_inv(edges, s, row, pred, h),
        row[edges[ji as int].from as int] is Some,
        row[edges[ji as int].to as int] is None || row[edges[ji as int].from as int]->0 + edges[ji as int].cost
            < row[edges[ji as int].to as int]->0,
        row2 == row.update(
            edges[ji as int].to as int,
            Some((row[edges[ji as int].from as int]->0 + edges[ji as int].cost) as i64),
        ),
        -bound <= row[edges[ji as int].from as int]->0 + edges[ji as int].cost <= bound,
        bound <= 4_100_000_000_000_000_000,
        pred2 == pred.update(edges[ji as int].to as int, Some(ji)),
    ensures
        rank_inv(
            edges,
            s,
            row2,
            pred2,
            h.update(edges[ji as int].to as int, h[edges[ji as int].from as int] + 1),
        ),
{
    let j = ji as int;
    let u = edges[j].from as int;
    let t = edges[j].to as int;
    let h2 = h.update(t, h[u] + 1);
    assert(edge_ok(edges[j], n));
    assert forall|v: int| 0 <= v < row2.len() && v != s && (#[trigger] row2[v]) is Some implies {
        let f = edges[pred2[v]->0 as int].from as int;
        h2[f] < h2[v] || row2[v]->0 > row2[f]->0 + edges[pred2[v]->0 as int].cost
    } by {
        let cand = row[u]->0 + edges[j].cost;
        assert(row2[t] == Some(cand as i64));
        assert((cand as i64) as int == cand);
        if v == t {
            assert(pred2[v] == Some(ji));
            if u == t {
                assert(edges[j].cost < 0);
                assert(row2[v]->0 > row2[u]->0 + edges[j].cost);
            } else {
                assert(h2[u] == h[u]);
                assert(h2[u] < h2[v]);
            }
        } else {
            assert(row2[v] == row[v]);
            assert(pred2[v] == pred[v]);
            assert(row[v] is Some);
            let p = pred[v]->0 as int;
            assert(edge_ok(edges[p], n));
            let f = edges[p].from as int;
            assert(row[f] is Some);
            if f == t {
                assert(row[t] is Some);
                assert(cand < row[t]->0);
                assert(row[v]->0 >= row[f]->0 + edges[p].cost);
                assert(row2[v]->0 > row2[f]->0 + edges[p].cost);
            } else {
                assert(row2[f] == row[f]);
                assert(h2[f] == h[f] && h2[v] == h[v]);
                assert(h[f] < h[v] || row[v]->0 > row[f]->0 + edges[p].cost);
            }
        }
    }
}

/// Invariant of one source's relaxation: entries are witnessed by walks,
/// predecessors never overstate an entry, and all entries stay within `bound`.
pub open spec fn row_inv(
    edges: Seq<Edge>,
    n: int,
    s: int,
    row: Seq<Option<i64>>,
    pred: Seq<Option<usize>>,
    wit: Seq<Seq<int>>,
    bound: int,
) -> bool {
    &&& row.len() == n
    &&& pred.len() == n
    &&& wit.len() == n
    &&& 0 <= s < n
    &&& row[s] is Some
    &&& row[s]->0 <= 0
    &&& forall|v: int|
        0 <= v < n && (#[trigger] row[v]) is Some ==> {
            &&& is_walk(edges, s, v, wit[v])
            &&& walk_cost(edges, wit[v]) == row[v]->0
            &&& -bound <= row[v]->0 <= bound
        }
    &&& forall|v: int|
        0 <= v < n && v != s && (#[trigger] row[v]) is Some ==> {
            &&& pred[v] is Some
            &&& pred[v]->0 < edges.len()
            &&& edges[pred[v]->0 as int].to == v
            &&& row[edges[pred[v]->0 as int].from as int] is Some
            &&& row[v]->0 >= row[edges[pred[v]->0 as int].from as int]->0
                + edges[pred[v]->0 as int].cost
        }
}

proof fn lemma_bound(k: int, n: int, m: int)
    requires
        0 <= k <= n * m,
        0 <= n <= MAX_NODES,
        0 <= m <= MAX_EDGES,
    ensures
        (k + 1) * MAX_COST <= 4_100_000_000_000_000_000,
{
    assert(n * m <= MAX_NODES * MAX_EDGES) by (nonlinear_arith)
        requires 0 <= n <= MAX_NODES, 0 <= m <= MAX_EDGES;
}

#[verifier::rlimit(40)]
/// Relaxes edge `j` in `row`, keeping the invariant with a bound one cost larger.
fn relax_edge(
    edges: &Vec<Edge>,
    n: usize,
    s: usize,
    j: usize,
    row: &mut Vec<Option<i64>>,
    pred: &mut Vec<Option<usize>>,
    wit: Ghost<Seq<Seq<int>>>,
    bound: Ghost<int>,
) -> (r: (bool, Ghost<Seq<Seq<int>>>))
    requires
        edges_ok(edges@, n as int),
        j < edges@.len(),
        0 <= bound@,
        bound@ + MAX_COST <= 4_100_000_000_000_000_000,
        row_inv(edges@, n as int, s as int, old(row)@, old(pred)@, wit@, bound@),
    ensures
        row_inv(edges@, n as int, s as int, final(row)@, final(pred)@, r.1@, bound@ + MAX_COST),
        r.0 == (final(row)@ != old(row)@),
        final(row)@[s as int]->0 <= old(row)@[s as int]->0,
        forall|v: int| 0 <= v < n && (#[trigger] old(row)@[v]) is Some ==>
            final(row)@[v] is Some && final(row)@[v]->0 <= old(row)@[v]->0,
        old(row)@[edges@[j as int].from as int] is Some ==> {
            &&& final(row)@[edges@[j as int].to as int] is Some
            &&& final(row)@[edges@[j as int].to as int]->0 <= old(row)@[edges@[j as int].from as int]->0
                + edges@[j as int].cost
        },
        !r.0 ==> final(row)@ == old(row)@ && final(pred)@ == old(pred)@,
        r.0 ==> {
            let u = edges@[j as int].from as int;
            let t = edges@[j as int].to as int;
            &&& old(row)@[u] is Some
            &&& old(row)@[t] is None || old(row)@[u]->0 + edges@[j as int].cost < old(row)@[t]->0
            &&& final(row)@ == old(row)@.update(
                t,
                Some((old(row)@[u]->0 + edges@[j as int].cost) as i64),
            )
            &&& final(pred)@ == old(pred)@.update(t, Some(j))
        },
{
    let e = edges[j];
    assert(edge_ok(edges@[j as int], n as int));
    match row[e.from] {
        None => (false, wit),
        Some(du) => {
            let cand = du + e.cost;
            let better = match row[e.to] {
                None => true,
                Some(dv) => cand < dv,
            };
            if better {
                let ghost old_row = row@;
                let ghost old_pred = pred@;
                let ghost nw = wit@.update(e.to as int, wit@[e.from as int].push(j as int));
                proof {
                    lemma_walk_push(edges@, s as int, e.from as int, wit@[e.from as int], j as int);
                }
                row.set(e.to, Some(cand));
                pred.set(e.to, Some(j));
                proof {
                    let t = e.to as int;
                    let nb = bound@ + MAX_COST;
                    assert forall|v: int| 0 <= v < n && (#[trigger] row@[v]) is Some implies {
                        &&& is_walk(edges@, s as int, v, nw[v])
                        &&& walk_cost(edges@, nw[v]) == row@[v]->0
                        &&& -nb <= row@[v]->0 <= nb
                    } by {
                        if v != t {
                            assert(old_row[v] is Some);
                        }
                    }
                    assert forall|v: int|
                        0 <= v < n && v != s && (#[trigger] row@[v]) is Some implies {
                        &&& pred@[v] is Some
                        &&& pred@[v]->0 < edges@.len()
                        &&& edges@[pred@[v]->0 as int].to == v
                        &&& row@[edges@[pred@[v]->0 as int].from as int] is Some
                        &&& row@[v]->0 >= row@[edges@[pred@[v]->0 as int].from as int]->0
                            + edges@[pred@[v]->0 as int].cost
                    } by {
                        if v != t {
                            assert(old_row[v] is Some);
                            assert(pred@[v] == old_pred[v]);
                            assert(row@[v] == old_row[v]);
                            let p = edges@[pred@[v]->0 as int].from as int;
                            assert(edge_ok(edges@[pred@[v]->0 as int], n as int));
                            assert(old_row[p] is Some);
                            if p == t {
                                assert(row@[p]->0 < old_row[p]->0);
                            } else {
                                assert(row@[p] == old_row[p]);
                            }
                        } else if e.from as int == t {
                            assert(old_row[t] == Some(du));
                            assert(e.cost < 0);
                        } else {
                            assert(row@[e.from as int] == Some(du));
                        }
                    }
                    assert forall|v: int| 0 <= v < n && (#[trigger] old_row[v]) is Some implies
                        row@[v] is Some && row@[v]->0 <= old_row[v]->0 by {}
                }
                assert(row@ != old_row) by {
                    assert(old_row[e.to as int] != Some(cand));
                }
                (true, Ghost(nw))
            } else {
                (false, wit)
            }
        },
    }
}

/// Computes least walk costs from `s` by repeated relaxation of every edge,
/// at most `n - 1` passes, then one more pass that must find nothing to improve.
/// Returns `None` when that last pass still improves an entry.
#[verifier::rlimit(80)]
fn single_source(g: &Graph, s: usize) -> (r: Option<(Vec<Option<i64>>, Vec<Option<usize>>)>)
    requires
        g.wf(),
        s < g.n,
    ensures
        match r {
            Some((row, pred)) => {
                &&& row@.len() == g.n
                &&& pred@.len() == g.n
                &&& row@[s as int] == Some(0i64)
                &&& preds_tight(g.edges@, s as int, row@, pred@)
                &&& forall|v: int| 0 <= v < g.n ==> #[trigger] is_shortest(
                    g.edges@,
                    s as int,
                    v,
                    row@[v],
                )
            },
            None => has_negative_cycle(g.edges@, g.n as int),
        },
        r is Some ==> exists|h: Seq<int>| #[trigger] row_ranked(g.edges@, s as int, (r->0).0@, (r->0).1@, h),
{
    let n = g.n;
    let m = g.edges.len();
    let mut row: Vec<Option<i64>> = Vec::new();
    let mut pred: Vec<Option<usize>> = Vec::new();
    let mut i: usize = 0;
    while i < n
        invariant
            i <= n,
            row@.len() == i,
            pred@.len() == i,
            forall|k: int| 0 <= k < i ==> row@[k] is None,
        decreases n - i,
    {
        row.push(None);
        pred.push(None);
        i = i + 1;
    }
    row.set(s, Some(0));
    let ghost mut wit: Seq<Seq<int>> = Seq::new(n as nat, |v: int| Seq::<int>::empty());
    let ghost mut steps: int = 0;
    let ghost mut h: Seq<int> = Seq::<int>::new(n as nat, |v: int| 0);
    proof {
        assert(is_walk(g.edges@, s as int, s as int, wit[s as int]));
        assert forall|v: int| 0 <= v < n && (#[trigger] row@[v]) is Some implies v == s by {}
    }
    let mut pass: usize = 0;
    let mut changed = true;
    while pass + 1 < n && changed
        invariant
            g.wf(),
            n == g.n,
            m == g.edges@.len(),
            pass <= n,
            0 <= steps <= pass * m,
            row_inv(g.edges@, n as int, s as int, row@, pred@, wit, steps * MAX_COST),
            rank_inv(g.edges@, s as int, row@, pred@, h),
            walks_bound(g.edges@, s as int, row@, pass as int),
            !changed ==> row_relaxed(g.edges@, row@),
        decreases n - pass,
    {
        changed = false;
        let ghost start_row = row@;
        let mut j: usize = 0;
        while j < m
            invariant
                g.wf(),
                n == g.n,
                m == g.edges@.len(),
                pass + 1 < n,
                j <= m,
                0 <= steps <= pass * m + j,
                row_inv(g.edges@, n as int, s as int, row@, pred@, wit, steps * MAX_COST),
                rank_inv(g.edges@, s as int, row@, pred@, h),
                walks_bound(g.edges@, s as int, row@, pass as int),
                walks_bound_upto(g.edges@, s as int, row@, pass as int, j as int),
                !changed ==> row@ == start_row,
                !changed ==> forall|i: int| 0 <= i < j ==> #[trigger] edge_relaxed(g.edges@, row@, i),
            decreases m - j,
        {
            proof {
                assert(pass * m + j <= n * m) by (nonlinear_arith)
                    requires pass + 1 < n, j < m;
                lemma_bound(steps, n as int, m as int);
            }
            let ghost before = row@;
            let ghost before_pred = pred@;
            let ghost before_wit = wit;
            let (c, w2) = relax_edge(
                &g.edges,
                n,
                s,
                j,
                &mut row,
                &mut pred,
                Ghost(wit),
                Ghost(steps * MAX_COST),
            );
            proof {
                if c {
                    let u = g.edges@[j as int].from as int;
                    let t = g.edges@[j as int].to as int;
                    assert(edge_ok(g.edges@[j as int], n as int));
                    lemma_rank_step(
                        g.edges@,
                        n as int,
                        s as int,
                        before,
                        before_pred,
                        row@,
                        pred@,
                        h,
                        j,
                        steps * MAX_COST + MAX_COST,
                        before_wit,
                    );
                    h = h.update(t, h[u] + 1);
                }
                wit = w2@;
                steps = steps + 1;
                lemma_pass_step(g.edges@, n as int, s as int, before, row@, j as int, pass as int);
                let edges = g.edges@;
                if !(changed || c) {
                    assert forall|i: int| 0 <= i < j + 1 implies #[trigger] edge_relaxed(edges, row@, i) by {
                        if i == j {
                            assert(before == row@);
                        }
                    }
                }
            }
            changed = changed || c;
            j = j + 1;
        }
        proof {
            assert(pass * m + m == (pass + 1) * m) by (nonlinear_arith);
            let edges = g.edges@;
            assert forall|v: int, w: Seq<int>|
                0 <= v < row@.len() && #[trigger] is_walk(edges, s as int, v, w) && w.len() <= pass + 1
                implies row@[v] is Some && row@[v]->0 <= walk_cost(edges, w) by {
                if w.len() == pass + 1 {
                    assert(0 <= w.last() < m);
                }
            }
        }
        pass = pass + 1;
    }
    proof {
        assert(steps <= n * m) by (nonlinear_arith)
            requires steps <= pass * m, pass <= n, 0 <= m;
        lemma_bound(steps, n as int, m as int);
    }
    let ghost bound = steps * MAX_COST;
    proof {
        let edges = g.edges@;
        if !has_negative_cycle(edges, n as int) && changed {
            assert forall|i: int| 0 <= i < edges.len() implies #[trigger] edge_relaxed(edges, row@, i) by {
                let e = edges[i];
                assert(edge_ok(e, n as int));
                let u = e.from as int;
                if row@[u] is Some {
                    lemma_walk_push(edges, s as int, u, wit[u], i);
                    let w = wit[u].push(i);
                    lemma_short_walk(edges, n as int, s as int, e.to as int, w);
                    let w2 = choose|w2: Seq<int>|
                        #[trigger] is_walk(edges, s as int, e.to as int, w2) && w2.len() < n
                            && walk_cost(edges, w2) <= walk_cost(edges, w);
                    assert(is_walk(edges, s as int, e.to as int, w2));
                }
            }
        }
    }
    let mut j: usize = 0;
    while j < m
        invariant
            g.wf(),
            n == g.n,
            m == g.edges@.len(),
            j <= m,
            0 <= bound,
            bound + MAX_COST <= 4_100_000_000_000_000_000,
            row_inv(g.edges@, n as int, s as int, row@, pred@, wit, bound),
            rank_inv(g.edges@, s as int, row@, pred@, h),
            forall|i: int| 0 <= i < j ==> #[trigger] edge_relaxed(g.edges@, row@, i),
            !has_negative_cycle(g.edges@, n as int) ==> row_relaxed(g.edges@, row@),
        decreases m - j,
    {
        let e = g.edges[j];
        proof {
            assert(edge_ok(g.edges@[j as int], n as int));
        }
        match row[e.from] {
            None => {},
            Some(du) => {
                let cand = du + e.cost;
                match row[e.to] {
                    None => {
                        proof {
                            assert(!edge_relaxed(g.edges@, row@, j as int));
                        }
                        return None;
                    },
                    Some(dv) => {
                        if cand < dv {
                            proof {
                                assert(!edge_relaxed(g.edges@, row@, j as int));
                            }
                            return None;
                        }
                    },
                }
            },
        }
        j = j + 1;
    }
    proof {
        let edges = g.edges@;
        assert(row_relaxed(edges, row@));
        lemma_relaxed_walk(edges, row@, s as int, s as int, wit[s as int]);
        assert forall|v: int| 0 <= v < n implies #[trigger] is_shortest(
            edges,
            s as int,
            v,
            row@[v],
        ) by {
            assert forall|w: Seq<int>| #[trigger] is_walk(edges, s as int, v, w) implies row@[v] is Some
                && row@[v]->0 <= walk_cost(edges, w) by {
                lemma_relaxed_walk(edges, row@, s as int, v, w);
            }
            if row@[v] is Some {
                assert(is_walk(edges, s as int, v, wit[v]));
            }
        }
        assert forall|v: int|
            0 <= v < row@.len() && v != s && (#[trigger] row@[v]) is Some implies {
            &&& pred@[v] is Some
            &&& pred@[v]->0 < edges.len()
            &&& edges[pred@[v]->0 as int].to == v
            &&& row@[edges[pred@[v]->0 as int].from as int] is Some
            &&& row@[v]->0 == row@[edges[pred@[v]->0 as int].from as int]->0
                + edges[pred@[v]->0 as int].cost
        } by {
            assert(edge_relaxed(edges, row@, pred@[v]->0 as int));
        }
        assert(row_ranked(edges, s as int, row@, pred@, h));
    }
    let r = Some((row, pred));
    proof {
        let rr = r->0;
        assert(rr.0@ == row@ && rr.1@ == pred@);
        assert(row_ranked(g.edges@, s as int, rr.0@, rr.1@, h));
    }
    r
}

/// Runs the relaxation from every source and gathers the rows into a table.
/// Fails with `NegativeCycle`, and builds no table, as soon as one source does.
pub fn offline_bellman_ford(g: &Graph) -> (r: Result<DistanceTable, PrecomputeError>)
    requires
        g.wf(),
    ensures
        r is Ok ==> r->Ok_0.is_table_of(g),
        r is Err <==> has_negative_cycle(g.edges@, g.n as int),
{
    let n = g.n;
    let mut dist: Vec<Vec<Option<i64>>> = Vec::new();
    let mut pred: Vec<Vec<Option<usize>>> = Vec::new();
    let mut s: usize = 0;
    while s < n
        invariant
            g.wf(),
            n == g.n,
            s <= n,
            dist@.len() == s,
            pred@.len() == s,
            forall|k: int| 0 <= k < s ==> {
                &&& (#[trigger] dist@[k])@.len() == n
                &&& pred@[k]@.len() == n
                &&& dist@[k]@[k] == Some(0i64)
                &&& preds_tight(g.edges@, k, dist@[k]@, pred@[k]@)
                &&& exists|h: Seq<int>| row_ranked(g.edges@, k, dist@[k]@, pred@[k]@, h)
            },
            forall|k: int, v: int|
                0 <= k < s && 0 <= v < n ==> #[trigger] is_shortest(
                    g.edges@,
                    k,
                    v,
                    dist@[k]@[v],
                ),
        decreases n - s,
    {
        let ghost old_dist = dist@;
        let ghost old_pred = pred@;
        match single_source(g, s) {
            None => {
                return Err(PrecomputeError::NegativeCycle);
            },
            Some((row, p)) => {
                let ghost hs = choose|h: Seq<int>| #[trigger] row_ranked(g.edges@, s as int, row@, p@, h);
                dist.push(row);
                pred.push(p);
                proof {
                    assert forall|k: int| 0 <= k < s + 1 implies exists|h: Seq<int>|
                        row_ranked(g.edges@, k, (#[trigger] dist@[k])@, pred@[k]@, h) by {
                        if k == s {
                            assert(row_ranked(g.edges@, k, dist@[k]@, pred@[k]@, hs));
                        } else {
                            assert(dist@[k] == old_dist[k] && pred@[k] == old_pred[k]);
                        }
                    }
                    assert forall|k: int, v: int| 0 <= k < s + 1 && 0 <= v < n implies
                        #[trigger] is_shortest(g.edges@, k, v, dist@[k]@[v]) by {
                        if k == s {
                            assert(is_shortest(g.edges@, s as int, v, row@[v]));
                        }
                    }
                }
                s = s + 1;
            },
        }
    }
    let t = DistanceTable { dist, pred };
    proof {
        assert(t.is_table_of(g));
        lemma_table_no_negative_cycle(g, t);
    }
    Ok(t)
}

/// A table of a graph rules out closed walks of negative cost.
pub proof fn lemma_table_no_negative_cycle(g: &Graph, t: DistanceTable)
    requires
        t.is_table_of(g),
    ensures
        !has_negative_cycle(g.edges@, g.n as int),
{
    if has_negative_cycle(g.edges@, g.n as int) {
        let (x, w) = choose|x: int, w: Seq<int>|
            0 <= x < g.n && #[trigger] is_walk(g.edges@, x, x, w) && walk_cost(g.edges@, w) < 0;
        assert(t.dist@[x]@[x] == Some(0i64));
        assert(is_shortest(g.edges@, x, x, t.dist@[x]@[x]));
    }
}

/// Every node is at distance zero from itself in any table of a graph.
pub proof fn lemma_self_distance_zero(g: &Graph, t: DistanceTable, a: int)
    requires
        t.is_table_of(g),
        0 <= a < g.n,
    ensures
        t.dist@[a]@[a] == Some(0i64),
{
}

/// Two tables of the same graph hold the same distances: the precomputation
/// is deterministic in what it reports.
pub proof fn lemma_tables_agree(g: &Graph, t1: DistanceTable, t2: DistanceTable, a: int, b: int)
    requires
        t1.is_table_of(g),
        t2.is_table_of(g),
        0 <= a < g.n,
        0 <= b < g.n,
    ensures
        t1.dist@[a]@[b] == t2.dist@[a]@[b],
{
    let d1 = t1.dist@[a]@[b];
    let d2 = t2.dist@[a]@[b];
    assert(is_shortest(g.edges@, a, b, d1));
    assert(is_shortest(g.edges@, a, b, d2));
    if d1 is Some {
        let w1 = choose|w: Seq<int>| #[trigger] is_walk(g.edges@, a, b, w) && walk_cost(g.edges@, w) == d1->0;
        assert(is_walk(g.edges@, a, b, w1));
    }
    if d2 is Some {
        let w2 = choose|w: Seq<int>| #[trigger] is_walk(g.edges@, a, b, w) && walk_cost(g.edges@, w) == d2->0;
        assert(is_walk(g.edges@, a, b, w2));
    }
}

/// Where every edge can be travelled both ways at one cost, the distance
/// from `a` to `b` equals the distance from `b` to `a`.
pub proof fn lemma_symmetric_distances(g: &Graph, t: DistanceTable, a: int, b: int)
    requires
        t.is_table_of(g),
        is_bidirectional(g.edges@),
        0 <= a < g.n,
        0 <= b < g.n,
    ensures
        t.dist@[a]@[b] == t.dist@[b]@[a],
{
    let e = g.edges@;
    let dab = t.dist@[a]@[b];
    let dba = t.dist@[b]@[a];
    assert(is_shortest(e, a, b, dab));
    assert(is_shortest(e, b, a, dba));
    if dab is Some {
        let w = choose|w: Seq<int>| #[trigger] is_walk(e, a, b, w) && walk_cost(e, w) == dab->0;
        lemma_reverse_walk(e, a, b, w);
        let r = choose|r: Seq<int>| #[trigger] is_walk(e, b, a, r) && walk_cost(e, r) == walk_cost(e, w);
        assert(is_walk(e, b, a, r));
    }
    if dba is Some {
        let w = choose|w: Seq<int>| #[trigger] is_walk(e, b, a, w) && walk_cost(e, w) == dba->0;
        lemma_reverse_walk(e, b, a, w);
        let r = choose|r: Seq<int>| #[trigger] is_walk(e, a, b, r) && walk_cost(e, r) == walk_cost(e, w);
        assert(is_walk(e, a, b, r));
    }
}

} // verus!
