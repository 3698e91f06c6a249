use vstd::prelude::*;
use crate::graph::{Edge, Graph, MAX_COST, MAX_NODES, MAX_EDGES, edges_ok, edge_ok};

verus! {

/// Two coordinates closer than this (in coordinate units, summed over both
/// axes) denote the same intersection.
pub const SNAP_TOLERANCE: i64 = 10;

/// A geographic position in fixed-point units (latitude, longitude).
#[derive(Clone, Copy, Debug, PartialEq, Eq, Structural)]
pub struct Coord {
    pub lat: i32,
    pub lon: i32,
}

/// A road piece between two positions. Without an explicit weight its cost
/// is the coordinate gap between its ends; a one-way segment yields one edge.
#[derive(Clone, Copy, Debug, PartialEq, Eq, Structural)]
pub struct Segment {
    pub a: Coord,
    pub b: Coord,
    pub weight: Option<i64>,
    pub oneway: bool,
}

/// Why a set of points and segments does not make a graph.
#[derive(Clone, Copy, Debug, PartialEq, Eq, Structural)]
pub enum TopologyError {
    /// A segment end lies near no point.
    Unresolved,
    /// A segment's cost exceeds the supported magnitude.
    CostOutOfRange,
    /// More nodes or edges than a graph may hold.
    TooLarge,
}

/// Deduplicated node positions together with the graph over them.
#[derive(Clone, Debug)]
pub struct Topology {
    pub nodes: Vec<Coord>,
    pub graph: Graph,
}

pub open spec fn abs_int(x: int) -> int {
    if x < 0 { -x } else { x }
}

/// Distance between two positions: the sum of the axis differences.
pub open spec fn gap(p: Coord, q: Coord) -> int {
    abs_int(p.lat - q.lat) + abs_int(p.lon - q.lon)
}

pub open spec fn within(p: Coord, q: Coord) -> bool {
    gap(p, q) <= SNAP_TOLERANCE
}

/// Among the first `k` nodes, the one within tolerance of `c` that is
/// nearest to it, the lowest index on ties.
pub open spec fn best_node(nodes: Seq<Coord>, c: Coord, k: int) -> Option<int>
    decreases k,
{
    if k <= 0 {
        None
    } else {
        let prev = best_node(nodes, c, k - 1);
        if within(nodes[k - 1], c) && (prev is None || gap(nodes[k - 1], c) < gap(
            nodes[prev->0],
            c,
        )) {
            Some(k - 1)
        } else {
            prev
        }
    }
}

/// The node that position `c` snaps to, if any.
pub open spec fn snap(nodes: Seq<Coord>, c: Coord) -> Option<int> {
    best_node(nodes, c, nodes.len() as int)
}

/// Node positions: each point joins the node it snaps to, or starts a new one.
pub open spec fn snap_nodes(points: Seq<Coord>) -> Seq<Coord>
    decreases points.len(),
{
    if points.len() == 0 {
        Seq::empty()
    } else {
        let prev = snap_nodes(points.drop_last());
        if snap(prev, points.last()) is None {
            prev.push(points.last())
        } else {
            prev
        }
    }
}

pub open spec fn segment_cost(s: Segment) -> int {
    match s.weight {
        Some(w) => w as int,
        None => gap(s.a, s.b),
    }
}

/// Both ends snap to nodes and the cost is within the supported magnitude.
pub open spec fn segment_ok(nodes: Seq<Coord>, s: Segment) -> bool {
    &&& snap(nodes, s.a) is Some
    &&& snap(nodes, s.b) is Some
    &&& -MAX_COST <= segment_cost(s) <= MAX_COST
}

/// The edges a usable segment contributes; none when both ends snap to one node.
pub open spec fn segment_edges(nodes: Seq<Coord>, s: Segment) -> Seq<Edge> {
    let u = snap(nodes, s.a)->0;
    let v = snap(nodes, s.b)->0;
    let c = segment_cost(s) as i64;
    if u == v {
        Seq::empty()
    } else if s.oneway {
        seq![Edge { from: u as usize, to: v as usize, cost: c }]
    } else {
        seq![Edge { from: u as usize, to: v as usize, cost: c }, Edge { from: v as usize, to: u as usize, cost: c }]
    }
}

pub open spec fn all_edges(nodes: Seq<Coord>, segs: Seq<Segment>) -> Seq<Edge>
    decreases segs.len(),
{
    if segs.len() == 0 {
        Seq::empty()
    } else {
        all_edges(nodes, segs.drop_last()) + segment_edges(nodes, segs.last())
    }
}

fn gap_of(p: Coord, q: Coord) -> (r: i64)
    ensures
        r == gap(p, q),
{
    let dlat: i64 = p.lat as i64 - q.lat as i64;
    let dlon: i64 = p.lon as i64 - q.lon as i64;
    let alat: i64 = if dlat < 0 { -dlat } else { dlat };
    let alon: i64 = if dlon < 0 { -dlon } else { dlon };
    alat + alon
}

/// The node that `c` snaps to: the nearest within tolerance, lowest index on ties.
pub fn resolve(nodes: &Vec<Coord>, c: Coord) -> (r: Option<usize>)
    ensures
        match r {
            Some(i) => snap(nodes@, c) == Some(i as int),
            None => snap(nodes@, c) is None,
        },
{
    let mut best: Option<usize> = None;
    let mut best_gap: i64 = 0;
    let mut k: usize = 0;
    while k < nodes.len()
        invariant
            k <= nodes@.len(),
            match best {
                Some(i) => best_node(nodes@, c, k as int) == Some(i as int) && best_gap == gap(
                    nodes@[i as int],
                    c,
                ),
                None => best_node(nodes@, c, k as int) is None,
            },
        decreases nodes@.len() - k,
    {
        let g = gap_of(nodes[k], c);
        if g <= SNAP_TOLERANCE && (best.is_none() || g < best_gap) {
            best = Some(k);
            best_gap = g;
        }
        k = k + 1;
    }
    best
}

/// The points and segments make a graph within the supported limits.
pub open spec fn topology_ok(points: Seq<Coord>, segs: Seq<Segment>) -> bool {
    let nodes = snap_nodes(points);
    &&& nodes.len() <= MAX_NODES
    &&& forall|i: int| 0 <= i < segs.len() ==> #[trigger] segment_ok(nodes, segs[i])
    &&& all_edges(nodes, segs).len() <= MAX_EDGES
}

/// A snapped index is one of the nodes scanned.
pub proof fn lemma_best_node_range(nodes: Seq<Coord>, c: Coord, k: int)
    ensures
        best_node(nodes, c, k) is Some ==> 0 <= best_node(nodes, c, k)->0 < k,
    decreases k,
{
    if k > 0 {
        lemma_best_node_range(nodes, c, k - 1);
    }
}

/// Snaps the points to nodes, then turns every segment into edges between
/// the nodes its ends snap to.
pub fn construct_topology(points: &Vec<Coord>, segments: &Vec<Segment>) -> (r: Result<
    Topology,
    TopologyError,
>)
    ensures
        r is Ok <==> topology_ok(points@, segments@),
        r is Ok ==> {
            let t = r->Ok_0;
            &&& t.nodes@ == snap_nodes(points@)
            &&& t.graph.n == t.nodes@.len()
            &&& t.graph.edges@ == all_edges(t.nodes@, segments@)
            &&& t.graph.wf()
        },
        r == Err::<Topology, TopologyError>(TopologyError::Unresolved) ==> exists|i: int|
            0 <= i < segments@.len() && {
                ||| snap(snap_nodes(points@), (#[trigger] segments@[i]).a) is None
                ||| snap(snap_nodes(points@), segments@[i].b) is None
            },
        r == Err::<Topology, TopologyError>(TopologyError::CostOutOfRange) ==> exists|i: int|
            0 <= i < segments@.len() && !(-MAX_COST <= segment_cost(#[trigger] segments@[i])
                <= MAX_COST),
        r == Err::<Topology, TopologyError>(TopologyError::TooLarge) ==> snap_nodes(points@).len()
            > MAX_NODES || all_edges(snap_nodes(points@), segments@).len() > MAX_EDGES,
{
    let mut nodes: Vec<Coord> = Vec::new();
    let mut k: usize = 0;
    while k < points.len()
        invariant
            k <= points@.len(),
            nodes@ == snap_nodes(points@.subrange(0, k as int)),
        decreases points@.len() - k,
    {
        let p = points[k];
        proof {
            assert(points@.subrange(0, k as int + 1).drop_last() =~= points@.subrange(0, k as int));
        }
        if resolve(&nodes, p).is_none() {
            nodes.push(p);
        }
        k = k + 1;
    }
    proof {
        assert(points@.subrange(0, points@.len() as int) =~= points@);
    }
    if nodes.len() > MAX_NODES {
        return Err(TopologyError::TooLarge);
    }
    let n = nodes.len();
    let mut edges: Vec<Edge> = Vec::new();
    let mut i: usize = 0;
    while i < segments.len()
        invariant
            n == nodes@.len(),
            n <= MAX_NODES,
            nodes@ == snap_nodes(points@),
            i <= segments@.len(),
            edges@ == all_edges(nodes@, segments@.subrange(0, i as int)),
            edges_ok(edges@, n as int),
            edges@.len() <= 2 * i,
            forall|j: int| 0 <= j < i ==> #[trigger] segment_ok(nodes@, segments@[j]),
        decreases segments@.len() - i,
    {
        let seg = segments[i];
        let u = match resolve(&nodes, seg.a) {
            Some(u) => u,
            None => {
                proof {
                    assert(!segment_ok(nodes@, segments@[i as int]));
                }
                return Err(TopologyError::Unresolved);
            },
        };
        let v = match resolve(&nodes, seg.b) {
            Some(v) => v,
            None => {
                proof {
                    assert(!segment_ok(nodes@, segments@[i as int]));
                }
                return Err(TopologyError::Unresolved);
            },
        };
        let cost: i64 = match seg.weight {
            Some(w) => w,
            None => gap_of(seg.a, seg.b),
        };
        if cost < -MAX_COST || cost > MAX_COST {
            proof {
                assert(!segment_ok(nodes@, segments@[i as int]));
            }
            return Err(TopologyError::CostOutOfRange);
        }
        proof {
            lemma_best_node_range(nodes@, seg.a, n as int);
            lemma_best_node_range(nodes@, seg.b, n as int);
            assert(segments@.subrange(0, i as int + 1).drop_last() =~= segments@.subrange(0, i as int));
            assert(segments@.subrange(0, i as int + 1).last() == seg);
        }
        let ghost before = edges@;
        if u != v {
            edges.push(Edge { from: u, to: v, cost });
            if !seg.oneway {
                edges.push(Edge { from: v, to: u, cost });
            }
        }
        proof {
            assert(edges@ =~= before + segment_edges(nodes@, seg));
            assert forall|j: int| 0 <= j < edges@.len() implies #[trigger] edge_ok(edges@[j], n as int) by {
                if j < before.len() {
                    assert(edges@[j] == before[j]);
                }
            }
        }
        i = i + 1;
    }
    proof {
        assert(segments@.subrange(0, segments@.len() as int) =~= segments@);
    }
    if edges.len() > MAX_EDGES {
        return Err(TopologyError::TooLarge);
    }
    Ok(Topology { nodes, graph: Graph { n, edges } })
}

} // verus!
