use vstd::prelude::*;
use crate::graph::{has_negative_cycle, is_walk, walk_cost, walk_nodes, lemma_walk_nodes_in_range};
use crate::parser::{ParseError, parse_road_data, parse_lines, split};
use crate::shortest::{offline_bellman_ford, lemma_tables_agree};
use crate::engine::{Dispatcher, RouteError, AssignmentError, node_ids};
use crate::topology::{
    Coord, Segment, TopologyError, construct_topology, resolve, snap, snap_nodes, all_edges,
    topology_ok, lemma_best_node_range,
};

verus! {

/// Why an initialization left the installed instance as it was.
#[derive(Clone, Copy, Debug, PartialEq, Eq, Structural)]
pub enum InitError {
    Parse(ParseError),
    Topology(TopologyError),
    NegativeCycle,
}

/// An installed network: node positions and the engine over them.
#[derive(Clone, Debug)]
pub struct Instance {
    pub nodes: Vec<Coord>,
    pub engine: Dispatcher,
}

impl Instance {
    pub open spec fn wf(&self) -> bool {
        &&& self.engine.wf()
        &&& self.nodes@.len() == self.engine.graph.n
    }

    /// The instance built from `points` and `segments`.
    pub open spec fn built_from(&self, points: Seq<Coord>, segments: Seq<Segment>) -> bool {
        &&& self.wf()
        &&& self.nodes@ == snap_nodes(points)
        &&& self.engine.graph.edges@ == all_edges(self.nodes@, segments)
    }
}

/// The node id a resource position stands for; `nodes.len()`, which names
/// no node, when it lies off the network.
pub open spec fn resource_id(nodes: Seq<Coord>, c: Coord) -> usize {
    match snap(nodes, c) {
        Some(i) => i as usize,
        None => nodes.len() as usize,
    }
}

pub open spec fn resource_ids(nodes: Seq<Coord>, rs: Seq<Coord>) -> Seq<usize> {
    rs.map_values(|c: Coord| resource_id(nodes, c))
}

/// The single holder of the current instance. An instance is replaced whole,
/// never changed in place; a failed rebuild leaves the current one installed.
pub struct DispatchState {
    current: Option<Instance>,
}

impl DispatchState {
    pub closed spec fn instance(&self) -> Option<Instance> {
        self.current
    }

    pub open spec fn wf(&self) -> bool {
        self.instance() is Some ==> self.instance()->0.wf()
    }

    pub fn new() -> (r: DispatchState)
        ensures
            r.wf(),
            r.instance() is None,
    {
        DispatchState { current: None }
    }

    /// Whether an instance has been installed.
    pub fn is_ready(&self) -> (r: bool)
        ensures
            r == self.instance() is Some,
    {
        self.current.is_some()
    }

    /// Read access to the installed instance, if any.
    pub fn current(&self) -> (r: Option<&Instance>)
        ensures
            match r {
                Some(i) => self.instance() == Some(*i),
                None => self.instance() is None,
            },
    {
        match &self.current {
            Some(i) => Some(i),
            None => None,
        }
    }

    /// Replaces the current instance by `inst`.
    pub fn install(&mut self, inst: Instance)
        requires
            inst.wf(),
        ensures
            final(self).wf(),
            final(self).instance() == Some(inst),
    {
        self.current = Some(inst);
    }

    /// Builds an instance from points and segments and installs it; on any
    /// failure the current instance stays as it was.
    pub fn build_and_install(&mut self, points: &Vec<Coord>, segments: &Vec<Segment>) -> (r: Result<
        (),
        InitError,
    >)
        requires
            old(self).wf(),
        ensures
            final(self).wf(),
            r is Err ==> final(self).instance() == old(self).instance(),
            r is Ok ==> final(self).instance() is Some && final(self).instance()->0.built_from(
                points@,
                segments@,
            ),
            !topology_ok(points@, segments@) ==> r is Err && r->Err_0 is Topology,
            topology_ok(points@, segments@) && has_negative_cycle(
                all_edges(snap_nodes(points@), segments@),
                snap_nodes(points@).len() as int,
            ) ==> r == Err::<(), InitError>(InitError::NegativeCycle),
            topology_ok(points@, segments@) && !has_negative_cycle(
                all_edges(snap_nodes(points@), segments@),
                snap_nodes(points@).len() as int,
            ) ==> r is Ok,
    {
        let topo = match construct_topology(points, segments) {
            Ok(t) => t,
            Err(e) => {
                return Err(InitError::Topology(e));
            },
        };
        let table = match offline_bellman_ford(&topo.graph) {
            Ok(t) => t,
            Err(_) => {
                return Err(InitError::NegativeCycle);
            },
        };
        let engine = Dispatcher::new(topo.graph, table);
        let inst = Instance { nodes: topo.nodes, engine };
        self.install(inst);
        Ok(())
    }

    /// Reads road data, builds an instance from it and installs it; on any
    /// failure the current instance stays as it was.
    pub fn initialize(&mut self, raw: &Vec<u8>) -> (r: Result<(), InitError>)
        requires
            old(self).wf(),
        ensures
            final(self).wf(),
            r is Err ==> final(self).instance() == old(self).instance(),
            match parse_lines(split(raw@, 10)) {
                Err((i, k)) => r == Err::<(), InitError>(
                    InitError::Parse(ParseError { line: i as usize, kind: k }),
                ),
                Ok((points, segments, _)) => {
                    &&& r is Ok ==> final(self).instance() is Some && final(self).instance()->0.built_from(points, segments)
                    &&& !topology_ok(points, segments) ==> r is Err && r->Err_0 is Topology
                    &&& topology_ok(points, segments) && has_negative_cycle(
                        all_edges(snap_nodes(points), segments),
                        snap_nodes(points).len() as int,
                    ) ==> r == Err::<(), InitError>(InitError::NegativeCycle)
                    &&& topology_ok(points, segments) && !has_negative_cycle(
                        all_edges(snap_nodes(points), segments),
                        snap_nodes(points).len() as int,
                    ) ==> r is Ok
                },
            },
    {
        match parse_road_data(raw) {
            Err(e) => Err(InitError::Parse(e)),
            Ok(data) => self.build_and_install(&data.points, &data.segments),
        }
    }

    /// The node positions of a least-cost route between the nodes that `a`
    /// and `b` snap to.
    pub fn route_between(&self, a: Coord, b: Coord) -> (r: Result<Vec<Coord>, RouteError>)
        requires
            self.wf(),
        ensures
            self.instance() is None ==> r == Err::<Vec<Coord>, RouteError>(RouteError::OffNetwork),
            self.instance() is Some ==> {
                let inst = self.instance()->0;
                let u = snap(inst.nodes@, a);
                let v = snap(inst.nodes@, b);
                &&& (r == Err::<Vec<Coord>, RouteError>(RouteError::OffNetwork)) <==> (u is None
                    || v is None)
                &&& (r == Err::<Vec<Coord>, RouteError>(RouteError::Unreachable)) <==> (u is Some
                    && v is Some && inst.engine.dist(u->0, v->0) is None)
                &&& u is Some && v is Some && inst.engine.dist(u->0, v->0) is Some ==> r is Ok
                &&& r is Ok ==> exists|w: Seq<int>|
                    {
                        let ns = walk_nodes(inst.engine.graph.edges@, u->0, w);
                        &&& #[trigger] is_walk(inst.engine.graph.edges@, u->0, v->0, w)
                        &&& walk_cost(inst.engine.graph.edges@, w) == inst.engine.dist(
                            u->0,
                            v->0,
                        )->0
                        &&& r->Ok_0@.len() == ns.len()
                        &&& forall|i: int|
                            0 <= i < ns.len() ==> r->Ok_0@[i] == #[trigger] inst.nodes@[ns[i]]
                    }
            },
    {
        let inst = match &self.current {
            None => {
                return Err(RouteError::OffNetwork);
            },
            Some(inst) => inst,
        };
        let u = match resolve(&inst.nodes, a) {
            Some(u) => u,
            None => {
                return Err(RouteError::OffNetwork);
            },
        };
        let v = match resolve(&inst.nodes, b) {
            Some(v) => v,
            None => {
                return Err(RouteError::OffNetwork);
            },
        };
        proof {
            lemma_best_node_range(inst.nodes@, a, inst.nodes@.len() as int);
            lemma_best_node_range(inst.nodes@, b, inst.nodes@.len() as int);
        }
        let path = match inst.engine.route(u, v) {
            Ok(p) => p,
            Err(e) => {
                return Err(e);
            },
        };
        let ghost w = choose|w: Seq<int>|
            {
                &&& #[trigger] is_walk(inst.engine.graph.edges@, u as int, v as int, w)
                &&& walk_cost(inst.engine.graph.edges@, w) == inst.engine.dist(
                    u as int,
                    v as int,
                )->0
                &&& node_ids(path@) == walk_nodes(inst.engine.graph.edges@, u as int, w)
            };
        proof {
            let edges = inst.engine.graph.edges@;
            lemma_walk_nodes_in_range(edges, inst.nodes@.len() as int, u as int, v as int, w);
            assert forall|j: int| 0 <= j < path@.len() implies #[trigger] path@[j] < inst.nodes@.len() by {
                assert(node_ids(path@)[j] == path@[j] as int);
            }
        }
        let mut out: Vec<Coord> = Vec::new();
        let mut i: usize = 0;
        while i < path.len()
            invariant
                inst.wf(),
                i <= path@.len(),
                out@.len() == i,
                forall|j: int| 0 <= j < path@.len() ==> #[trigger] path@[j] < inst.nodes@.len(),
                forall|j: int| 0 <= j < i ==> out@[j] == #[trigger] inst.nodes@[path@[j] as int],
            decreases path@.len() - i,
        {
            out.push(inst.nodes[path[i]]);
            i = i + 1;
        }
        proof {
            let ns = walk_nodes(inst.engine.graph.edges@, u as int, w);
            assert forall|i: int| 0 <= i < ns.len() implies out@[i] == #[trigger] inst.nodes@[ns[i]] by {
                assert(node_ids(path@)[i] == path@[i] as int);
            }
        }
        Ok(out)
    }

    /// The resource position whose node is nearest to the incident's node;
    /// resources off the network count as unreachable, ties go to the lowest
    /// node id and then to the first such resource.
    pub fn nearest_resource(&self, incident: Coord, resources: &Vec<Coord>) -> (r: Result<
        Coord,
        AssignmentError,
    >)
        requires
            self.wf(),
            resources@.len() < usize::MAX,
        ensures
            (r == Err::<Coord, AssignmentError>(AssignmentError::NoCandidate)) <==> resources@.len()
                == 0,
            resources@.len() > 0 && self.instance() is None ==> r == Err::<Coord, AssignmentError>(
                AssignmentError::OffNetwork,
            ),
            self.instance() is Some ==> {
                let inst = self.instance()->0;
                let o = snap(inst.nodes@, incident);
                let ids = resource_ids(inst.nodes@, resources@);
                &&& (r == Err::<Coord, AssignmentError>(AssignmentError::OffNetwork)) <==> (
                resources@.len() > 0 && o is None)
                &&& (r == Err::<Coord, AssignmentError>(AssignmentError::AllUnreachable)) <==> (
                resources@.len() > 0 && o is Some && forall|i: int|
                    0 <= i < ids.len() ==> (#[trigger] inst.engine.dist(o->0, ids[i] as int)) is None)
                &&& r is Ok ==> {
                    &&& inst.engine.is_nearest(o->0, ids, resource_id(inst.nodes@, r->Ok_0))
                    &&& exists|k: int|
                        0 <= k < resources@.len() && #[trigger] resources@[k] == r->Ok_0 && forall|i: int|
                            0 <= i < k ==> #[trigger] ids[i] != ids[k]
                }
            },
    {
        if resources.len() == 0 {
            return Err(AssignmentError::NoCandidate);
        }
        let inst = match &self.current {
            None => {
                return Err(AssignmentError::OffNetwork);
            },
            Some(inst) => inst,
        };
        let o = match resolve(&inst.nodes, incident) {
            Some(o) => o,
            None => {
                return Err(AssignmentError::OffNetwork);
            },
        };
        let ghost nodes = inst.nodes@;
        let mut ids: Vec<usize> = Vec::new();
        let mut i: usize = 0;
        while i < resources.len()
            invariant
                inst.wf(),
                nodes == inst.nodes@,
                i <= resources@.len(),
                ids@ == resource_ids(nodes, resources@.subrange(0, i as int)),
                self.current == Some(*inst),
                snap(nodes, incident) == Some(o as int),
            decreases resources@.len() - i,
        {
            let id = match resolve(&inst.nodes, resources[i]) {
                Some(k) => k,
                None => inst.nodes.len(),
            };
            proof {
                assert(resources@.subrange(0, i as int + 1) =~= resources@.subrange(0, i as int).push(
                    resources@[i as int],
                ));
            }
            ids.push(id);
            proof {
                assert(ids@ =~= resource_ids(nodes, resources@.subrange(0, i as int + 1)));
            }
            i = i + 1;
        }
        proof {
            assert(resources@.subrange(0, resources@.len() as int) =~= resources@);
        }
        let c = match inst.engine.nearest(o, &ids) {
            Ok(c) => c,
            Err(e) => {
                proof {
                    assert(ids@.len() == resources@.len());
                }
                return Err(e);
            },
        };
        let mut k: usize = 0;
        while k < ids.len()
            invariant
                k <= ids@.len(),
                ids@.len() == resources@.len(),
                ids@ == resource_ids(nodes, resources@),
                ids@.contains(c),
                resources@.len() > 0,
                self.current == Some(*inst),
                nodes == inst.nodes@,
                snap(nodes, incident) == Some(o as int),
                inst.engine.is_nearest(o as int, ids@, c),
                forall|j: int| 0 <= j < k ==> ids@[j] != c,
            decreases ids@.len() - k,
        {
            if ids[k] == c {
                proof {
                    assert(ids@[k as int] == resource_id(nodes, resources@[k as int]));
                }
                return Ok(resources[k]);
            }
            k = k + 1;
        }
        Err(AssignmentError::AllUnreachable)
    }
}

/// Two instances built from the same points and segments report the same
/// distance between any two nodes.
pub proof fn lemma_rebuild_same_distances(
    i1: Instance,
    i2: Instance,
    points: Seq<Coord>,
    segments: Seq<Segment>,
    a: int,
    b: int,
)
    requires
        i1.built_from(points, segments),
        i2.built_from(points, segments),
    ensures
        i1.engine.dist(a, b) == i2.engine.dist(a, b),
{
    let g1 = i1.engine.graph;
    let g2 = i2.engine.graph;
    assert(g1.n == g2.n);
    assert(g1.edges@ == g2.edges@);
    if 0 <= a < g1.n && 0 <= b < g1.n {
        assert(i2.engine.table.is_table_of(&g1));
        lemma_tables_agree(&g1, i1.engine.table, i2.engine.table, a, b);
    }
}

} // verus!
