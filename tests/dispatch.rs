use police_dispatch::digest::fast_sha256;
use police_dispatch::engine::{AssignmentError, Dispatcher, RouteError};
use police_dispatch::graph::{Edge, Graph};
use police_dispatch::owner::{DispatchState, InitError};
use police_dispatch::parser::{parse_bounded, parse_road_data, split_bytes, ParseError, ParseErrorKind};
use police_dispatch::shortest::{offline_bellman_ford, PrecomputeError};
use police_dispatch::topology::{construct_topology, resolve, Coord, Segment, TopologyError};

fn edge(from: usize, to: usize, cost: i64) -> Edge {
    Edge { from, to, cost }
}

fn engine(n: usize, edges: Vec<Edge>) -> Dispatcher {
    let g = Graph { n, edges };
    let t = offline_bellman_ford(&g).expect("no negative cycle");
    Dispatcher::new(g, t)
}

fn chain() -> Dispatcher {
    engine(4, vec![edge(0, 1, 1), edge(1, 2, 1), edge(2, 3, 1), edge(0, 3, 10)])
}

fn c(lat: i32, lon: i32) -> Coord {
    Coord { lat, lon }
}

fn road(a: Coord, b: Coord, weight: Option<i64>, oneway: bool) -> Segment {
    Segment { a, b, weight, oneway }
}

#[test]
fn four_node_chain_distance_and_route() {
    let d = chain();
    assert_eq!(d.distance(0, 3), Some(3));
    assert_eq!(d.route(0, 3), Ok(vec![0, 1, 2, 3]));
}

#[test]
fn self_distance_is_zero() {
    let d = engine(5, vec![edge(0, 1, 4), edge(1, 0, -2), edge(2, 3, 7), edge(3, 4, 0)]);
    for a in 0..5 {
        assert_eq!(d.distance(a, a), Some(0));
        assert_eq!(d.route(a, a), Ok(vec![a]));
    }
}

#[test]
fn isolated_node_is_unreachable() {
    let d = engine(5, vec![edge(0, 1, 1), edge(1, 2, 1), edge(2, 3, 1), edge(0, 3, 10)]);
    assert_eq!(d.distance(0, 4), None);
    assert_eq!(d.route(0, 4), Err(RouteError::Unreachable));
}

#[test]
fn route_cost_matches_distance() {
    let edges = vec![edge(0, 1, 5), edge(0, 2, 2), edge(2, 1, 1), edge(1, 3, 3), edge(2, 3, 9)];
    let d = engine(4, edges.clone());
    let path = d.route(0, 3).unwrap();
    assert_eq!(path, vec![0, 2, 1, 3]);
    let mut sum = 0;
    for w in path.windows(2) {
        sum += edges
            .iter()
            .filter(|e| e.from == w[0] && e.to == w[1])
            .map(|e| e.cost)
            .min()
            .unwrap();
    }
    assert_eq!(Some(sum), d.distance(0, 3));
    assert_eq!(d.distance(0, 3), Some(6));
}

#[test]
fn negative_edge_without_cycle() {
    let d = engine(3, vec![edge(0, 1, 4), edge(0, 2, 1), edge(1, 2, -5)]);
    assert_eq!(d.distance(0, 2), Some(-1));
    assert_eq!(d.route(0, 2), Ok(vec![0, 1, 2]));
}

#[test]
fn negative_cycle_is_rejected() {
    let g = Graph { n: 3, edges: vec![edge(0, 1, 1), edge(1, 2, -3), edge(2, 1, 1)] };
    assert_eq!(offline_bellman_ford(&g).err(), Some(PrecomputeError::NegativeCycle));
    let g = Graph { n: 1, edges: vec![edge(0, 0, -1)] };
    assert_eq!(offline_bellman_ford(&g).err(), Some(PrecomputeError::NegativeCycle));
}

#[test]
fn directional_distances_differ() {
    let d = engine(2, vec![edge(0, 1, 2)]);
    assert_eq!(d.distance(0, 1), Some(2));
    assert_eq!(d.distance(1, 0), None);
    assert_eq!(d.route(1, 0), Err(RouteError::Unreachable));
}

#[test]
fn bidirectional_distances_agree() {
    let mut edges = vec![];
    for (a, b, w) in [(0, 1, 3), (1, 2, 4), (0, 2, 9), (2, 3, 1)] {
        edges.push(edge(a, b, w));
        edges.push(edge(b, a, w));
    }
    let d = engine(4, edges);
    for a in 0..4 {
        for b in 0..4 {
            assert_eq!(d.distance(a, b), d.distance(b, a));
        }
    }
    assert_eq!(d.distance(0, 3), Some(8));
}

#[test]
fn out_of_range_nodes() {
    let d = chain();
    assert_eq!(d.distance(0, 9), None);
    assert_eq!(d.route(9, 0), Err(RouteError::OffNetwork));
}

#[test]
fn nearest_empty_and_mixed() {
    let d = engine(5, vec![edge(0, 1, 1), edge(1, 2, 1), edge(2, 3, 1), edge(0, 3, 10)]);
    assert_eq!(d.nearest(0, &vec![]), Err(AssignmentError::NoCandidate));
    assert_eq!(d.nearest(0, &vec![4, 2]), Ok(2));
    assert_eq!(d.nearest(0, &vec![4]), Err(AssignmentError::AllUnreachable));
}

#[test]
fn nearest_breaks_ties_by_lowest_id() {
    let d = engine(4, vec![edge(0, 3, 2), edge(0, 2, 2), edge(0, 1, 5)]);
    assert_eq!(d.nearest(0, &vec![3, 1, 2]), Ok(2));
}

#[test]
fn resolve_picks_nearest_lowest() {
    let nodes = vec![c(0, 0), c(10, 0), c(4, 0), c(6, 0)];
    assert_eq!(resolve(&nodes, c(5, 0)), Some(2));
    assert_eq!(resolve(&nodes, c(9, 0)), Some(1));
    assert_eq!(resolve(&nodes, c(100, 100)), None);
}

#[test]
fn topology_snaps_and_builds_edges() {
    let points = vec![c(0, 0), c(3, 2), c(100, 0), c(200, 0)];
    let segs = vec![
        road(c(1, 1), c(100, 1), None, false),
        road(c(100, 0), c(200, 0), Some(7), true),
        road(c(0, 0), c(2, 2), Some(5), false),
    ];
    let t = construct_topology(&points, &segs).unwrap();
    assert_eq!(t.nodes, vec![c(0, 0), c(100, 0), c(200, 0)]);
    assert_eq!(t.graph.n, 3);
    assert_eq!(t.graph.edges, vec![edge(0, 1, 99), edge(1, 0, 99), edge(1, 2, 7)]);
}

#[test]
fn topology_errors() {
    let points = vec![c(0, 0), c(100, 0)];
    let far = vec![road(c(0, 0), c(500, 0), None, false)];
    assert_eq!(construct_topology(&points, &far).err(), Some(TopologyError::Unresolved));
    let heavy = vec![road(c(0, 0), c(100, 0), Some(5_000_000_000), false)];
    assert_eq!(construct_topology(&points, &heavy).err(), Some(TopologyError::CostOutOfRange));
    let long = vec![road(c(0, 0), c(100, 0), Some(4_000_000_000), true)];
    let t = construct_topology(&points, &long).unwrap();
    assert_eq!(t.graph.edges, vec![edge(0, 1, 4_000_000_000)]);
}

#[test]
fn zero_segments_initialize() {
    let mut s = DispatchState::new();
    assert!(!s.is_ready());
    let points = vec![c(0, 0), c(100, 0), c(200, 0)];
    assert_eq!(s.build_and_install(&points, &vec![]), Ok(()));
    assert!(s.is_ready());
    let inst = s.current().unwrap();
    for a in 0..3 {
        for b in 0..3 {
            let expected = if a == b { Some(0) } else { None };
            assert_eq!(inst.engine.distance(a, b), expected);
        }
    }
    assert_eq!(s.route_between(c(0, 0), c(100, 0)), Err(RouteError::Unreachable));
}

#[test]
fn uninitialized_queries_degrade() {
    let s = DispatchState::new();
    assert_eq!(s.route_between(c(0, 0), c(1, 1)), Err(RouteError::OffNetwork));
    assert_eq!(s.nearest_resource(c(0, 0), &vec![c(1, 1)]), Err(AssignmentError::OffNetwork));
    assert_eq!(s.nearest_resource(c(0, 0), &vec![]), Err(AssignmentError::NoCandidate));
}

fn city() -> (Vec<Coord>, Vec<Segment>) {
    let points = vec![c(0, 0), c(100, 0), c(200, 0), c(300, 0), c(900, 900)];
    let segs = vec![
        road(c(0, 0), c(100, 0), Some(1), true),
        road(c(100, 0), c(200, 0), Some(1), true),
        road(c(200, 0), c(300, 0), Some(1), true),
        road(c(0, 0), c(300, 0), Some(10), true),
    ];
    (points, segs)
}

#[test]
fn coordinate_route_and_assignment() {
    let (points, segs) = city();
    let mut s = DispatchState::new();
    assert_eq!(s.build_and_install(&points, &segs), Ok(()));
    assert_eq!(
        s.route_between(c(1, 1), c(300, 2)),
        Ok(vec![c(0, 0), c(100, 0), c(200, 0), c(300, 0)])
    );
    assert_eq!(s.route_between(c(5000, 0), c(0, 0)), Err(RouteError::OffNetwork));
    assert_eq!(
        s.nearest_resource(c(0, 0), &vec![c(900, 900), c(200, 1)]),
        Ok(c(200, 1))
    );
    assert_eq!(
        s.nearest_resource(c(0, 0), &vec![c(900, 900), c(7000, 0)]),
        Err(AssignmentError::AllUnreachable)
    );
    assert_eq!(s.nearest_resource(c(5000, 0), &vec![c(0, 0)]), Err(AssignmentError::OffNetwork));
}

#[test]
fn reinitialize_is_deterministic() {
    let (points, segs) = city();
    let mut s1 = DispatchState::new();
    let mut s2 = DispatchState::new();
    assert_eq!(s1.build_and_install(&points, &segs), Ok(()));
    assert_eq!(s2.build_and_install(&points, &segs), Ok(()));
    assert_eq!(s1.build_and_install(&points, &segs), Ok(()));
    let e1 = &s1.current().unwrap().engine;
    let e2 = &s2.current().unwrap().engine;
    assert_eq!(e1.table.dist, e2.table.dist);
    assert_eq!(e1.table.pred, e2.table.pred);
}

#[test]
fn negative_cycle_keeps_prior_instance() {
    let (points, segs) = city();
    let mut s = DispatchState::new();
    assert_eq!(s.build_and_install(&points, &segs), Ok(()));
    let before = s.current().unwrap().engine.table.dist.clone();
    let bad = vec![
        road(c(0, 0), c(100, 0), Some(1), true),
        road(c(100, 0), c(0, 0), Some(-3), true),
    ];
    assert_eq!(s.build_and_install(&points, &bad), Err(InitError::NegativeCycle));
    assert!(s.is_ready());
    assert_eq!(s.current().unwrap().engine.table.dist, before);
    let unresolved = vec![road(c(0, 0), c(5000, 0), None, false)];
    assert_eq!(
        s.build_and_install(&points, &unresolved),
        Err(InitError::Topology(TopologyError::Unresolved))
    );
    assert_eq!(s.current().unwrap().engine.table.dist, before);
}

#[test]
fn sha256_hex_digest() {
    assert_eq!(
        fast_sha256("abc"),
        "ba7816bf8f01cfea414140de5dae2223b00361a396177a9cb410ff61f20015ad"
    );
    assert_eq!(
        fast_sha256(""),
        "e3b0c44298fc1c149afbf4c8996fb92427ae41e4649b934ca495991b7852b855"
    );
}

#[test]
fn parse_points_and_segments() {
    let text = b"P 0 0\nP -100 250\n\nS 0 0 -100 250 - 2\nS 1 1 1 1 7 1\nS 5 6 7 8 -12 1\n".to_vec();
    let d = parse_road_data(&text).unwrap();
    assert_eq!(d.points, vec![c(0, 0), c(-100, 250)]);
    assert_eq!(
        d.segments,
        vec![road(c(0, 0), c(-100, 250), None, false), road(c(5, 6), c(7, 8), Some(-12), true)]
    );
    assert_eq!(d.dropped, 1);
}

#[test]
fn parse_errors_name_line_and_kind() {
    let bad = |t: &[u8]| parse_road_data(&t.to_vec()).err();
    assert_eq!(
        bad(b"P 0 0\nL 1 2\n"),
        Some(ParseError { line: 1, kind: ParseErrorKind::UnsupportedGeometry })
    );
    assert_eq!(
        bad(b"P 0\n"),
        Some(ParseError { line: 0, kind: ParseErrorKind::MissingCoordinates })
    );
    assert_eq!(
        bad(b"\nS 0 0 1 x - 2\n"),
        Some(ParseError { line: 1, kind: ParseErrorKind::BadNumber })
    );
    assert_eq!(
        bad(b"S 0 0 1 1 - 3"),
        Some(ParseError { line: 0, kind: ParseErrorKind::BadNumber })
    );
    assert_eq!(
        bad(b"P 2147483648 0"),
        Some(ParseError { line: 0, kind: ParseErrorKind::BadNumber })
    );
}

#[test]
fn numbers_and_splitting() {
    assert_eq!(parse_bounded(&b"-42".to_vec(), 100), Some(-42));
    assert_eq!(parse_bounded(&b"101".to_vec(), 100), None);
    assert_eq!(parse_bounded(&b"-".to_vec(), 100), None);
    assert_eq!(parse_bounded(&b"".to_vec(), 100), None);
    assert_eq!(parse_bounded(&b"1a".to_vec(), 100), None);
    assert_eq!(
        split_bytes(&b"a b  c".to_vec(), b' '),
        vec![b"a".to_vec(), b"b".to_vec(), vec![], b"c".to_vec()]
    );
}

#[test]
fn initialize_from_text() {
    let mut s = DispatchState::new();
    assert_eq!(s.initialize(&b"P 0 0\nP 100 0\nP 200 0\n".to_vec()), Ok(()));
    assert!(s.is_ready());
    assert_eq!(s.route_between(c(0, 0), c(200, 0)), Err(RouteError::Unreachable));
    assert_eq!(s.route_between(c(0, 0), c(0, 0)), Ok(vec![c(0, 0)]));
    let text = b"P 0 0\nP 100 0\nP 200 0\nS 0 0 100 0 - 2\nS 100 0 200 0 5 1\n".to_vec();
    assert_eq!(s.initialize(&text), Ok(()));
    assert_eq!(s.route_between(c(200, 0), c(100, 0)), Err(RouteError::Unreachable));
    assert_eq!(s.route_between(c(0, 0), c(200, 0)), Ok(vec![c(0, 0), c(100, 0), c(200, 0)]));
    assert_eq!(s.current().unwrap().engine.distance(0, 2), Some(105));
    assert_eq!(
        s.initialize(&b"P 0 0\nQ\n".to_vec()),
        Err(InitError::Parse(ParseError { line: 1, kind: ParseErrorKind::UnsupportedGeometry }))
    );
    assert_eq!(s.current().unwrap().engine.distance(0, 2), Some(105));
}

#[test]
fn reversed_chain_needs_every_pass() {
    let d = engine(6, vec![edge(4, 5, 1), edge(3, 4, 1), edge(2, 3, 1), edge(1, 2, 1), edge(0, 1, 1)]);
    assert_eq!(d.distance(0, 5), Some(5));
    assert_eq!(d.route(0, 5), Ok(vec![0, 1, 2, 3, 4, 5]));
    assert_eq!(d.distance(5, 0), None);
}

#[test]
fn zero_cost_cycle_is_accepted() {
    let d = engine(3, vec![edge(0, 1, 2), edge(1, 0, -2), edge(1, 2, 4)]);
    assert_eq!(d.distance(0, 0), Some(0));
    assert_eq!(d.distance(1, 0), Some(-2));
    assert_eq!(d.distance(1, 2), Some(4));
    assert_eq!(d.distance(0, 2), Some(6));
    assert_eq!(d.route(1, 2), Ok(vec![1, 2]));
}

#[test]
fn single_edge_routes_one_way() {
    let d = engine(2, vec![edge(0, 1, 1)]);
    assert_eq!(d.route(0, 1), Ok(vec![0, 1]));
    assert_eq!(d.route(1, 0), Err(RouteError::Unreachable));
    assert_eq!(d.distance(1, 0), None);
}

#[test]
fn nearest_resource_returns_first_of_shared_node() {
    let (points, segs) = city();
    let mut s = DispatchState::new();
    assert_eq!(s.build_and_install(&points, &segs), Ok(()));
    assert_eq!(
        s.nearest_resource(c(0, 0), &vec![c(200, 3), c(201, 0), c(100, 9)]),
        Ok(c(100, 9))
    );
    assert_eq!(
        s.nearest_resource(c(0, 0), &vec![c(202, 0), c(200, 3)]),
        Ok(c(202, 0))
    );
}

#[test]
fn large_costs_are_accepted() {
    let d = engine(3, vec![edge(0, 1, 4_000_000_000), edge(1, 2, 4_000_000_000)]);
    assert_eq!(d.distance(0, 2), Some(8_000_000_000));
}
