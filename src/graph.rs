use vstd::prelude::*;

verus! {

/// Largest magnitude of a single edge cost.
pub const MAX_COST: i64 = 4_000_000_000;

/// Largest number of nodes a graph may hold.
pub const MAX_NODES: usize = 10_000;

/// Largest number of edges a graph may hold.
pub const MAX_EDGES: usize = 100_000;

/// A directed, weighted edge between two node ids.
#[derive(Clone, Copy, Debug, PartialEq, Eq, Structural)]
pub struct Edge {
    pub from: usize,
    pub to: usize,
    pub cost: i64,
}

/// A road graph: nodes are `0..n`, edges are held in one list.
#[derive(Clone, Debug)]
pub struct Graph {
    pub n: usize,
    pub edges: Vec<Edge>,
}

pub open spec fn edge_ok(e: Edge, n: int) -> bool {
    &&& 0 <= e.from < n
    &&& 0 <= e.to < n
    &&& -MAX_COST <= e.cost <= MAX_COST
}

pub open spec fn edges_ok(edges: Seq<Edge>, n: int) -> bool {
    forall|i: int| 0 <= i < edges.len() ==> #[trigger] edge_ok(edges[i], n)
}

/// `w` is a sequence of edge indices leading from node `from` to node `to`.
pub open spec fn is_walk(edges: Seq<Edge>, from: int, to: int, w: Seq<int>) -> bool
    decreases w.len(),
{
    if w.len() == 0 {
        from == to
    } else {
        let last = w.last();
        &&& 0 <= last < edges.len()
        &&& edges[last].to == to
        &&& is_walk(edges, from, edges[last].from as int, w.drop_last())
    }
}

/// Sum of the costs of the edges of `w`.
pub open spec fn walk_cost(edges: Seq<Edge>, w: Seq<int>) -> int
    decreases w.len(),
{
    if w.len() == 0 {
        0
    } else {
        walk_cost(edges, w.drop_last()) + edges[w.last()].cost
    }
}

/// The nodes that walk `w` visits, starting at `from`.
pub open spec fn walk_nodes(edges: Seq<Edge>, from: int, w: Seq<int>) -> Seq<int>
    decreases w.len(),
{
    if w.len() == 0 {
        seq![from]
    } else {
        walk_nodes(edges, from, w.drop_last()).push(edges[w.last()].to as int)
    }
}

/// Some closed walk of negative total cost exists.
pub open spec fn has_negative_cycle(edges: Seq<Edge>, n: int) -> bool {
    exists|x: int, w: Seq<int>|
        0 <= x < n && #[trigger] is_walk(edges, x, x, w) && walk_cost(edges, w) < 0
}

/// `d` is the least cost of a walk from `s` to `v`, or `None` when no walk exists.
pub open spec fn is_shortest(edges: Seq<Edge>, s: int, v: int, d: Option<i64>) -> bool {
    &&& forall|w: Seq<int>| #[trigger]
        is_walk(edges, s, v, w) ==> d is Some && d->0 <= walk_cost(edges, w)
    &&& d is Some ==> exists|w: Seq<int>|
        #[trigger] is_walk(edges, s, v, w) && walk_cost(edges, w) == d->0
}

impl Graph {
    /// Every edge names nodes of the graph and the sizes stay within the limits.
    pub open spec fn wf(&self) -> bool {
        &&& self.n <= MAX_NODES
        &&& self.edges@.len() <= MAX_EDGES
        &&& edges_ok(self.edges@, self.n as int)
    }
}

/// Appending an edge that starts where a walk ends extends the walk.
pub proof fn lemma_walk_push(edges: Seq<Edge>, from: int, mid: int, w: Seq<int>, e: int)
    requires
        is_walk(edges, from, mid, w),
        0 <= e < edges.len(),
        edges[e].from == mid,
    ensures
        is_walk(edges, from, edges[e].to as int, w.push(e)),
        walk_cost(edges, w.push(e)) == walk_cost(edges, w) + edges[e].cost,
        walk_nodes(edges, from, w.push(e)) == walk_nodes(edges, from, w).push(
            edges[e].to as int,
        ),
{
    assert(w.push(e).drop_last() =~= w);
}

/// Prepending an edge that ends where a walk starts extends the walk.
pub proof fn lemma_walk_prepend(edges: Seq<Edge>, mid: int, to: int, w: Seq<int>, e: int)
    requires
        is_walk(edges, mid, to, w),
        0 <= e < edges.len(),
        edges[e].to == mid,
    ensures
        is_walk(edges, edges[e].from as int, to, seq![e] + w),
        walk_cost(edges, seq![e] + w) == edges[e].cost + walk_cost(edges, w),
        walk_nodes(edges, edges[e].from as int, seq![e] + w) == seq![edges[e].from as int]
            + walk_nodes(edges, mid, w),
    decreases w.len(),
{
    let f = edges[e].from as int;
    if w.len() == 0 {
        assert((seq![e] + w).drop_last() =~= Seq::<int>::empty());
        assert(seq![e] + w =~= seq![e]);
        assert(is_walk(edges, f, f, Seq::<int>::empty()));
        assert(walk_cost(edges, Seq::<int>::empty()) == 0);
        assert(walk_nodes(edges, f, Seq::<int>::empty()) =~= seq![f]);
        assert(seq![f] + seq![mid] =~= seq![f, mid]);
    } else {
        let last = w.last();
        lemma_walk_prepend(edges, mid, edges[last].from as int, w.drop_last(), e);
        assert((seq![e] + w).drop_last() =~= seq![e] + w.drop_last());
        assert((seq![e] + w).last() == last);
        let ww = seq![e] + w;
        assert(is_walk(edges, f, edges[last].from as int, ww.drop_last()));
        assert(is_walk(edges, f, to, ww));
        assert(walk_cost(edges, ww) == walk_cost(edges, ww.drop_last()) + edges[last].cost);
        assert(seq![f] + walk_nodes(edges, mid, w.drop_last()).push(edges[last].to as int)
            =~= (seq![f] + walk_nodes(edges, mid, w.drop_last())).push(edges[last].to as int));
    }
}

/// The nodes a walk visits from a node of the graph are nodes of the graph.
pub proof fn lemma_walk_nodes_in_range(edges: Seq<Edge>, n: int, from: int, to: int, w: Seq<int>)
    requires
        edges_ok(edges, n),
        0 <= from < n,
        is_walk(edges, from, to, w),
    ensures
        forall|i: int|
            0 <= i < walk_nodes(edges, from, w).len() ==> 0 <= #[trigger] walk_nodes(
                edges,
                from,
                w,
            )[i] < n,
        walk_nodes(edges, from, w).len() == w.len() + 1,
    decreases w.len(),
{
    if w.len() > 0 {
        let last = w.last();
        lemma_walk_nodes_in_range(edges, n, from, edges[last].from as int, w.drop_last());
        assert(edge_ok(edges[last], n));
    }
}

/// Every edge has a reverse edge of the same cost.
pub open spec fn is_bidirectional(edges: Seq<Edge>) -> bool {
    forall|i: int|
        0 <= i < edges.len() ==> exists|j: int|
            0 <= j < edges.len() && #[trigger] edges[j].from == (#[trigger] edges[i]).to
                && edges[j].to == edges[i].from && edges[j].cost == edges[i].cost
}

/// In a bidirectional graph every walk can be travelled backwards at the same cost.
pub proof fn lemma_reverse_walk(edges: Seq<Edge>, a: int, b: int, w: Seq<int>)
    requires
        is_bidirectional(edges),
        is_walk(edges, a, b, w),
    ensures
        exists|r: Seq<int>| #[trigger] is_walk(edges, b, a, r) && walk_cost(edges, r) == walk_cost(edges, w),
    decreases w.len(),
{
    if w.len() == 0 {
        assert(is_walk(edges, b, a, Seq::<int>::empty()));
    } else {
        let e = w.last();
        let u = edges[e].from as int;
        lemma_reverse_walk(edges, a, u, w.drop_last());
        let r0 = choose|r: Seq<int>| #[trigger] is_walk(edges, u, a, r) && walk_cost(edges, r)
            == walk_cost(edges, w.drop_last());
        let j = choose|j: int|
            0 <= j < edges.len() && #[trigger] edges[j].from == edges[e].to && edges[j].to
                == edges[e].from && edges[j].cost == edges[e].cost;
        lemma_walk_prepend(edges, u, a, r0, j);
        assert(is_walk(edges, b, a, seq![j] + r0));
    }
}

/// Cutting a walk after `i` edges gives a walk to its `i`-th node and one from it.
pub proof fn lemma_walk_split(edges: Seq<Edge>, a: int, c: int, w: Seq<int>, i: int)
    requires
        is_walk(edges, a, c, w),
        0 <= i <= w.len(),
    ensures
        walk_nodes(edges, a, w).len() == w.len() + 1,
        walk_nodes(edges, a, w)[w.len() as int] == c,
        is_walk(edges, a, walk_nodes(edges, a, w)[i], w.subrange(0, i)),
        is_walk(edges, walk_nodes(edges, a, w)[i], c, w.subrange(i, w.len() as int)),
        walk_cost(edges, w) == walk_cost(edges, w.subrange(0, i)) + walk_cost(
            edges,
            w.subrange(i, w.len() as int),
        ),
        walk_nodes(edges, a, w.subrange(0, i)) == walk_nodes(edges, a, w).subrange(0, i + 1),
    decreases w.len(),
{
    let ns = walk_nodes(edges, a, w);
    if w.len() == 0 {
        assert(w.subrange(0, 0) =~= w);
        assert(w.subrange(0, 0) =~= w.subrange(0, w.len() as int));
        assert(ns =~= ns.subrange(0, 1));
    } else {
        let wl = w.drop_last();
        let last = w.last();
        let u = edges[last].from as int;
        if i == w.len() {
            lemma_walk_split(edges, a, u, wl, 0);
            lemma_walk_split(edges, a, u, wl, wl.len() as int);
            assert(w.subrange(0, i) =~= w);
            assert(w.subrange(i, w.len() as int) =~= Seq::<int>::empty());
            assert(ns =~= ns.subrange(0, i + 1));
        } else {
            lemma_walk_split(edges, a, u, wl, i);
            let nl = walk_nodes(edges, a, wl);
            assert(ns == nl.push(edges[last].to as int));
            assert(ns[i] == nl[i]);
            assert(wl.subrange(0, i) =~= w.subrange(0, i));
            let tail = wl.subrange(i, wl.len() as int);
            lemma_walk_push(edges, nl[i], u, tail, last);
            assert(tail.push(last) =~= w.subrange(i, w.len() as int));
            assert(nl.subrange(0, i + 1) =~= ns.subrange(0, i + 1));
        }
    }
}

/// Joining a walk to `b` with a walk from `b` gives one walk whose cost is the sum.
pub proof fn lemma_walk_concat(edges: Seq<Edge>, a: int, b: int, c: int, w1: Seq<int>, w2: Seq<int>)
    requires
        is_walk(edges, a, b, w1),
        is_walk(edges, b, c, w2),
    ensures
        is_walk(edges, a, c, w1 + w2),
        walk_cost(edges, w1 + w2) == walk_cost(edges, w1) + walk_cost(edges, w2),
    decreases w2.len(),
{
    if w2.len() == 0 {
        assert(w1 + w2 =~= w1);
    } else {
        let last = w2.last();
        lemma_walk_concat(edges, a, b, edges[last].from as int, w1, w2.drop_last());
        assert((w1 + w2).drop_last() =~= w1 + w2.drop_last());
        assert((w1 + w2).last() == last);
    }
}

/// Without closed walks of negative cost, every walk from a node of the graph
/// can be replaced by one with fewer than `n` edges and no greater cost.
pub proof fn lemma_short_walk(edges: Seq<Edge>, n: int, s: int, v: int, w: Seq<int>)
    requires
        edges_ok(edges, n),
        !has_negative_cycle(edges, n),
        0 <= s < n,
        is_walk(edges, s, v, w),
    ensures
        exists|w2: Seq<int>|
            #[trigger] is_walk(edges, s, v, w2) && w2.len() < n && walk_cost(edges, w2) <= walk_cost(
                edges,
                w,
            ),
    decreases w.len(),
{
    if w.len() < n {
        assert(is_walk(edges, s, v, w));
    } else {
        let ns = walk_nodes(edges, s, w);
        lemma_walk_nodes_in_range(edges, n, s, v, w);
        let (i, j) = lemma_repeated_node(ns, n);
        lemma_walk_split(edges, s, v, w, j);
        let p = w.subrange(0, j);
        let d = w.subrange(j, w.len() as int);
        lemma_walk_split(edges, s, ns[j], p, i);
        let x = ns[i];
        assert(walk_nodes(edges, s, p)[i] == x);
        let a = p.subrange(0, i);
        let cyc = p.subrange(i, p.len() as int);
        assert(is_walk(edges, x, x, cyc));
        assert(walk_cost(edges, cyc) >= 0);
        lemma_walk_concat(edges, s, x, v, a, d);
        lemma_short_walk(edges, n, s, v, a + d);
        let w2 = choose|w2: Seq<int>|
            #[trigger] is_walk(edges, s, v, w2) && w2.len() < n && walk_cost(edges, w2) <= walk_cost(
                edges,
                a + d,
            );
        assert(is_walk(edges, s, v, w2));
    }
}

/// A sequence longer than `n` of values in `0..n` repeats a value.
pub proof fn lemma_repeated_node(ns: Seq<int>, n: int) -> (r: (int, int))
    requires
        ns.len() > n,
        0 <= n,
        forall|k: int| 0 <= k < ns.len() ==> 0 <= #[trigger] ns[k] < n,
    ensures
        0 <= r.0 < r.1 < ns.len(),
        ns[r.0] == ns[r.1],
{
    if ns.no_duplicates() {
        ns.unique_seq_to_set();
        let range = Set::new(|k: int| 0 <= k < n);
        vstd::set_lib::lemma_int_range(0, n);
        assert(range =~= vstd::set_lib::set_int_range(0, n));
        assert(ns.to_set().subset_of(range));
        vstd::set_lib::lemma_len_subset(ns.to_set(), range);
        assert(false);
        (0, 0)
    } else {
        let (i, j) = choose|i: int, j: int| 0 <= i < ns.len() && 0 <= j < ns.len() && i != j && ns[i] == ns[j];
        if i < j {
            (i, j)
        } else {
            (j, i)
        }
    }
}

} // verus!
