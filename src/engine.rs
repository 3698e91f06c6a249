use vstd::prelude::*;
use crate::graph::{
    Graph, edge_ok, is_walk, walk_cost, walk_nodes, is_shortest, lemma_walk_prepend,
    lemma_repeated_node,
};
use crate::shortest::{DistanceTable, row_ranked};

verus! {

/// Why a route query has no answer.
#[derive(Clone, Copy, Debug, PartialEq, Eq, Structural)]
pub enum RouteError {
    /// No walk leads from the origin to the target.
    Unreachable,
    /// An endpoint is not a node of the network.
    OffNetwork,
    /// The predecessor walk did not reach the origin within the node count.
    InternalConsistency,
}

/// Why an assignment query has no answer.
#[derive(Clone, Copy, Debug, PartialEq, Eq, Structural)]
pub enum AssignmentError {
    /// The candidate list is empty.
    NoCandidate,
    /// No candidate can be reached from the origin.
    AllUnreachable,
    /// The incident lies near no node of the network.
    OffNetwork,
}

/// Node ids as mathematical integers.
pub open spec fn node_ids(p: Seq<usize>) -> Seq<int> {
    p.map_values(|x: usize| x as int)
}

/// An immutable graph bundled with its precomputed distance table.
#[derive(Clone, Debug)]
pub struct Dispatcher {
    pub graph: Graph,
    pub table: DistanceTable,
}

impl Dispatcher {
    /// The table is the one of the graph.
    pub open spec fn wf(&self) -> bool {
        self.table.is_table_of(&self.graph)
    }

    /// Distance from `a` to `b`; `None` when unreachable or not a node.
    pub open spec fn dist(&self, a: int, b: int) -> Option<i64> {
        if 0 <= a < self.graph.n && 0 <= b < self.graph.n {
            self.table.dist@[a]@[b]
        } else {
            None
        }
    }

    pub fn new(graph: Graph, table: DistanceTable) -> (r: Dispatcher)
        requires
            table.is_table_of(&graph),
        ensures
            r.wf(),
            r.graph == graph,
            r.table == table,
    {
        Dispatcher { graph, table }
    }

    pub fn node_count(&self) -> (r: usize)
        ensures
            r == self.graph.n,
    {
        self.graph.n
    }

    /// The precomputed least cost from `a` to `b`, or `None` when `b` cannot
    /// be reached from `a` or either is not a node.
    pub fn distance(&self, a: usize, b: usize) -> (r: Option<i64>)
        requires
            self.wf(),
        ensures
            r == self.dist(a as int, b as int),
            a < self.graph.n && b < self.graph.n ==> is_shortest(
                self.graph.edges@,
                a as int,
                b as int,
                r,
            ),
    {
        if a < self.graph.n && b < self.graph.n {
            proof {
                assert(self.table.dist@[a as int]@.len() == self.graph.n);
            }
            self.table.dist[a][b]
        } else {
            None
        }
    }

    /// The nodes of a least-cost walk from `a` to `b`, found by following
    /// predecessor edges back from `b`.
    pub fn route(&self, a: usize, b: usize) -> (r: Result<Vec<usize>, RouteError>)
        requires
            self.wf(),
        ensures
            (r == Err::<Vec<usize>, RouteError>(RouteError::OffNetwork)) <==> (a >= self.graph.n
                || b >= self.graph.n),
            (r == Err::<Vec<usize>, RouteError>(RouteError::Unreachable)) <==> (a < self.graph.n
                && b < self.graph.n && self.dist(a as int, b as int) is None),
            a < self.graph.n && b < self.graph.n && self.dist(a as int, b as int) is Some ==> r is Ok,
            r is Ok ==> exists|w: Seq<int>|
                {
                    &&& #[trigger] is_walk(self.graph.edges@, a as int, b as int, w)
                    &&& walk_cost(self.graph.edges@, w) == self.dist(a as int, b as int)->0
                    &&& node_ids(r->Ok_0@) == walk_nodes(self.graph.edges@, a as int, w)
                },
    {
        let n = self.graph.n;
        if a >= n || b >= n {
            return Err(RouteError::OffNetwork);
        }
        let ghost edges = self.graph.edges@;
        proof {
            assert(self.table.dist@[a as int]@.len() == n);
        }
        let row = &self.table.dist[a];
        let prow = &self.table.pred[a];
        if row[b].is_none() {
            return Err(RouteError::Unreachable);
        }
        let mut path: Vec<usize> = Vec::new();
        path.push(b);
        let mut cur = b;
        let ghost mut w: Seq<int> = Seq::empty();
        let mut steps: usize = 0;
        let ghost h = choose|h: Seq<int>| row_ranked(edges, a as int, row@, prow@, h);
        let ghost mut seen: Seq<int> = seq![b as int];
        proof {
            assert(node_ids(path@) =~= seq![b as int]);
            assert(walk_nodes(edges, b as int, w) == seq![b as int]);
        }
        while cur != a
            invariant
                self.wf(),
                n == self.graph.n,
                edges == self.graph.edges@,
                row@ == self.table.dist@[a as int]@,
                prow@ == self.table.pred@[a as int]@,
                a < n,
                b < n,
                cur < n,
                steps <= n,
                row@[cur as int] is Some,
                row@[b as int] is Some,
                is_walk(edges, cur as int, b as int, w),
                walk_cost(edges, w) + row@[cur as int]->0 == row@[b as int]->0,
                node_ids(path@) == walk_nodes(edges, cur as int, w),
                row_ranked(edges, a as int, row@, prow@, h),
                seen.len() == steps + 1,
                seen.last() == cur,
                forall|i: int| 0 <= i < seen.len() ==> 0 <= #[trigger] seen[i] < n,
                forall|i: int, j: int| 0 <= i < j < seen.len() ==> h[#[trigger] seen[i]] > h[#[trigger] seen[j]],
            decreases n - steps,
        {
            if steps >= n {
                proof {
                    let (i, j) = lemma_repeated_node(seen, n as int);
                    assert(h[seen[i]] > h[seen[j]]);
                }
                return Err(RouteError::InternalConsistency);
            }
            let e = prow[cur].unwrap();
            let from = self.graph.edges[e].from;
            proof {
                assert(edge_ok(edges[e as int], n as int));
                lemma_walk_prepend(edges, cur as int, b as int, w, e as int);
                w = seq![e as int] + w;
            }
            let ghost before = path@;
            path.insert(0, from);
            proof {
                assert(node_ids(path@) =~= seq![from as int] + node_ids(before));
            }
            proof {
                assert(h[from as int] < h[cur as int]);
                let old_seen = seen;
                seen = seen.push(from as int);
                assert forall|i: int, j: int| 0 <= i < j < seen.len() implies h[#[trigger] seen[i]]
                    > h[#[trigger] seen[j]] by {
                    if j == seen.len() - 1 {
                        if i < old_seen.len() - 1 {
                            assert(h[old_seen[i]] > h[old_seen[old_seen.len() - 1]]);
                        }
                    } else {
                        assert(seen[i] == old_seen[i] && seen[j] == old_seen[j]);
                    }
                }
            }
            cur = from;
            steps = steps + 1;
        }
        proof {
            assert(self.table.dist@[a as int]@[a as int] == Some(0i64));
        }
        Ok(path)
    }

    /// `c` is a reachable candidate with the least distance from `origin`,
    /// the lowest id among candidates at that distance.
    pub open spec fn is_nearest(&self, origin: int, cands: Seq<usize>, c: usize) -> bool {
        &&& cands.contains(c)
        &&& self.dist(origin, c as int) is Some
        &&& forall|i: int|
            0 <= i < cands.len() && (#[trigger] self.dist(origin, cands[i] as int)) is Some ==> {
                let d = self.dist(origin, c as int)->0;
                let di = self.dist(origin, cands[i] as int)->0;
                d < di || (d == di && c <= cands[i])
            }
    }

    /// The candidate closest to `origin`; ties go to the lowest id.
    pub fn nearest(&self, origin: usize, candidates: &Vec<usize>) -> (r: Result<
        usize,
        AssignmentError,
    >)
        requires
            self.wf(),
        ensures
            (r == Err::<usize, AssignmentError>(AssignmentError::NoCandidate)) <==> candidates@.len()
                == 0,
            (r == Err::<usize, AssignmentError>(AssignmentError::AllUnreachable)) <==> (
            candidates@.len() > 0 && forall|i: int|
                0 <= i < candidates@.len() ==> (#[trigger] self.dist(
                    origin as int,
                    candidates@[i] as int,
                )) is None),
            r is Ok ==> self.is_nearest(origin as int, candidates@, r->Ok_0),
            r is Err ==> r->Err_0 is NoCandidate || r->Err_0 is AllUnreachable,
    {
        if candidates.len() == 0 {
            return Err(AssignmentError::NoCandidate);
        }
        let mut best: Option<(usize, i64)> = None;
        let mut i: usize = 0;
        while i < candidates.len()
            invariant
                self.wf(),
                i <= candidates@.len(),
                best is None ==> forall|k: int|
                    0 <= k < i ==> (#[trigger] self.dist(origin as int, candidates@[k] as int)) is None,
                best is Some ==> {
                    let (c, d) = best->0;
                    &&& candidates@.subrange(0, i as int).contains(c)
                    &&& self.dist(origin as int, c as int) == Some(d)
                    &&& forall|k: int|
                        0 <= k < i && (#[trigger] self.dist(origin as int, candidates@[k] as int)) is Some
                            ==> {
                            let dk = self.dist(origin as int, candidates@[k] as int)->0;
                            d < dk || (d == dk && c <= candidates@[k])
                        }
                },
            decreases candidates@.len() - i,
        {
            let c = candidates[i];
            let ghost prev = best;
            match self.distance(origin, c) {
                None => {},
                Some(d) => {
                    let take = match best {
                        None => true,
                        Some((bc, bd)) => d < bd || (d == bd && c < bc),
                    };
                    if take {
                        best = Some((c, d));
                    }
                },
            }
            proof {
                if best is Some {
                    let (bc, bd) = best->0;
                    if prev is Some && best == prev {
                        let k = choose|k: int| 0 <= k < i && candidates@.subrange(0, i as int)[k] == bc;
                        assert(candidates@.subrange(0, i as int + 1)[k] == bc);
                    } else {
                        assert(candidates@.subrange(0, i as int + 1)[i as int] == bc);
                    }
                }
            }
            i = i + 1;
        }
        match best {
            None => Err(AssignmentError::AllUnreachable),
            Some((c, _)) => {
                proof {
                    assert(candidates@.subrange(0, candidates@.len() as int) =~= candidates@);
                }
                Ok(c)
            },
        }
    }
}

} // verus!
