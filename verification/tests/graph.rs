use dzr::geom::UNIT;
use dzr::graph::{EdgeInfo, Graph, HalfEdge, Movement, NodeInfo, NodeOffset, RoutingGoal};
use dzr::towers::{Provider, Tower, TowerType};

const EARTH_RADIUS: f64 = 6_371_007.2;

// The haversine distance in millimetres between two points given in
// degrees times 10,000,000.
fn haversine(a: (i64, i64), b: (i64, i64)) -> u64 {
    let a = (a.0 as f64 / 10_000_000.0, a.1 as f64 / 10_000_000.0);
    let b = (b.0 as f64 / 10_000_000.0, b.1 as f64 / 10_000_000.0);
    let theta1 = a.0.to_radians();
    let theta2 = b.0.to_radians();
    let delta_theta = (b.0 - a.0).to_radians();
    let delta_lambda = (b.1 - a.1).to_radians();
    let h = (delta_theta / 2.0).sin().powi(2)
        + theta1.cos() * theta2.cos() * (delta_lambda / 2.0).sin().powi(2);
    let c = 2.0 * h.sqrt().asin();
    (EARTH_RADIUS * c * 1000.0).round() as u64
}

fn manhattan(a: (i64, i64), b: (i64, i64)) -> u64 {
    a.0.abs_diff(b.0) + a.1.abs_diff(b.1)
}

// The plane in which a degree is a millimetre.
fn plain(point: (i64, i64), _lat0: i64) -> (i64, i64) {
    point
}

// Five nodes: 1, 2 and 3 on a line, 4 off it, 5 on its own.
//
//   1 --1000--> 2 --1000--> 3      speed 1, the second closed to pedestrians
//   1 --6000--> 4 --6000--> 3      speed 10
//   3 --2000--> 1                  speed 1, closed to cars
//
// Telekom has a tower at node 4 that reaches 3000, Vodafone one at node 2
// that reaches 500. The towers of O2 reach nothing.
fn square() -> (Graph, Vec<Tower>) {
    let nodes = vec![
        NodeInfo::new(1, 0, 0, 0),
        NodeInfo::new(2, 1000, 0, 0),
        NodeInfo::new(3, 2000, 0, 0),
        NodeInfo::new(4, 1000, 5000, 0),
        NodeInfo::new(5, 2000, 5000, 0),
    ];
    let mut back = EdgeInfo::new(3, 1, 0, 1);
    back.not_for_cars();
    let mut lane = EdgeInfo::new(2, 3, 0, 1);
    lane.not_for_pedestrians();
    let edges = vec![
        EdgeInfo::new(1, 2, 0, 1),
        lane,
        EdgeInfo::new(1, 4, 0, 10),
        EdgeInfo::new(4, 3, 0, 10),
        back,
    ];
    let mut towers = vec![
        Tower { radio: TowerType::LTE, net: Provider::Telekom, lat: 1000, lon: 5000, range: 3000 },
        Tower { radio: TowerType::GSM, net: Provider::Vodafone, lat: 1000, lon: 0, range: 500 },
        Tower { radio: TowerType::UMTS, net: Provider::O2, lat: 0, lon: 0, range: 0 },
        Tower { radio: TowerType::UMTS, net: Provider::O2, lat: 2000, lon: 5000, range: 0 },
    ];
    let g = Graph::new(nodes, edges, &mut towers, &manhattan, &plain);
    (g, towers)
}

fn id(g: &Graph, osm_id: usize) -> usize {
    g.node_info.iter().position(|n| n.osm_id == osm_id).unwrap()
}

#[test]
fn graph_creation() {
    let mut towers = Vec::new();
    let g = Graph::new(
        vec![
            NodeInfo::new(23, 23_000_000, 33_000_000, 12),
            NodeInfo::new(27, 23_000_000, 33_000_000, 12),
            NodeInfo::new(53, 23_000_000, 33_000_000, 12),
            NodeInfo::new(36, 23_000_000, 33_000_000, 12),
            NodeInfo::new(78, 24_000_000, 34_000_000, 12),
        ],
        vec![
            EdgeInfo::new(23, 27, 1, 1),
            EdgeInfo::new(23, 53, 1, 1),
            EdgeInfo::new(53, 36, 1, 1),
            EdgeInfo::new(23, 36, 1, 1),
            EdgeInfo::new(53, 78, 1, 1),
        ],
        &mut towers,
        &haversine,
        &plain,
    );
    let exp = vec![
        NodeOffset::new(0),
        NodeOffset::new(3),
        NodeOffset::new(3),
        NodeOffset::new(5),
        NodeOffset::new(5),
        NodeOffset::new(5),
    ];
    assert_eq!(g.node_offsets.len(), exp.len());
    assert_eq!(g.node_offsets, exp);

    assert_eq!(g.outgoing_edges_for(0).len(), 3);
    let mut iter = g.outgoing_edges_for(2);
    assert_eq!(
        Some((
            3,
            &HalfEdge { endpoint: 3, length: 0, time: 0, for_cars: true, for_pedestrians: true },
        )),
        iter.next()
    );
    assert_eq!(
        Some((
            4,
            &HalfEdge {
                endpoint: 4,
                length: 15_718_743,
                time: 15_718_743,
                for_cars: true,
                for_pedestrians: true,
            },
        )),
        iter.next()
    );
    assert_eq!(None, iter.next());
}

#[test]
fn offsets_never_decrease_and_end_at_the_edge_count() {
    let (g, _) = square();
    assert_eq!(g.node_count() + 1, g.node_offsets.len());
    assert_eq!(0, g.node_offsets[0].0);
    for i in 0..g.node_count() {
        assert!(g.node_offsets[i].0 <= g.node_offsets[i + 1].0);
    }
    assert_eq!(g.edges.len(), g.node_offsets[g.node_count()].0);
    assert_eq!(5, g.edges.len());
}

#[test]
fn lengths_come_from_the_metric_and_times_from_the_speed() {
    let (g, _) = square();
    let one = id(&g, 1);
    let four = id(&g, 4);
    let mut seen = 0;
    let mut iter = g.outgoing_edges_for(one);
    while let Some((_, e)) = iter.next() {
        if e.endpoint == four {
            assert_eq!(6000, e.length);
            assert_eq!(600, e.time);
            seen += 1;
        } else {
            assert_eq!(id(&g, 2), e.endpoint);
            assert_eq!(1000, e.length);
            assert_eq!(1000, e.time);
            seen += 1;
        }
    }
    assert_eq!(2, seen);
}

#[test]
fn an_edge_of_speed_zero_takes_forever() {
    let nodes = vec![NodeInfo::new(1, 0, 0, 0), NodeInfo::new(2, 10, 0, 0)];
    let edges = vec![EdgeInfo::new(1, 2, 0, 0)];
    let mut towers = Vec::new();
    let g = Graph::new(nodes, edges, &mut towers, &manhattan, &plain);
    assert_eq!(10, g.edges[0].length);
    assert_eq!(u64::MAX, g.edges[0].time);
}

#[test]
fn repeated_edges_are_dropped_and_the_first_is_kept() {
    let nodes = vec![NodeInfo::new(7, 0, 0, 0), NodeInfo::new(8, 10, 0, 0)];
    let mut second = EdgeInfo::new(7, 8, 0, 2);
    second.not_for_cars();
    let edges = vec![EdgeInfo::new(8, 7, 0, 5), EdgeInfo::new(7, 8, 0, 1), second];
    let mut towers = Vec::new();
    let g = Graph::new(nodes, edges, &mut towers, &manhattan, &plain);
    assert_eq!(2, g.edges.len());
    assert_eq!(
        HalfEdge { endpoint: 1, length: 10, time: 10, for_cars: true, for_pedestrians: true },
        g.edges[0]
    );
    assert_eq!(
        HalfEdge { endpoint: 0, length: 10, time: 2, for_cars: true, for_pedestrians: true },
        g.edges[1]
    );
    assert_eq!(vec![NodeOffset(0), NodeOffset(1), NodeOffset(2)], g.node_offsets);
}

#[test]
fn coverage_is_the_union_of_the_sections_of_a_provider() {
    let (g, towers) = square();
    assert_eq!(4, towers.len());
    let telekom = g.coverage.get_all(Some(Provider::Telekom)).unwrap();
    let vodafone = g.coverage.get_all(Some(Provider::Vodafone)).unwrap();
    let o2 = g.coverage.get_all(Some(Provider::O2)).unwrap();
    assert_eq!(g.edges.len(), telekom.len());
    assert_eq!(g.edges.len(), vodafone.len());
    assert_eq!(g.edges.len(), o2.len());
    let four = id(&g, 4);
    let mut seen = 0;
    for n in 0..g.node_count() {
        let mut iter = g.outgoing_edges_for(n);
        while let Some((e, edge)) = iter.next() {
            if n == four || edge.endpoint == four {
                // 3000 of the 5099.02 that the edge is long
                assert_eq!(631_734_289, telekom[e]);
                assert_eq!(0, vodafone[e]);
            } else {
                assert_eq!(0, telekom[e]);
                assert_eq!(UNIT / 2, vodafone[e]);
            }
            assert_eq!(0, o2[e]);
            seen += 1;
        }
    }
    assert_eq!(5, seen);
    assert!(g.coverage.get_all(None).is_none());
}

#[test]
fn shortest_route_by_car() {
    let (g, _) = square();
    let mut d = g.dijkstra();
    let r = d
        .distance(id(&g, 1), id(&g, 3), RoutingGoal::Length, Movement::Car, None)
        .unwrap();
    let seq: Vec<usize> = r.node_seq.iter().cloned().collect();
    assert_eq!(vec![id(&g, 1), id(&g, 2), id(&g, 3)], seq);
    assert_eq!(2000, r.distance);
    assert_eq!(2000, r.travel_time);
}

#[test]
fn fastest_route_by_car() {
    let (g, _) = square();
    let mut d = g.dijkstra();
    let r = d
        .distance(id(&g, 1), id(&g, 3), RoutingGoal::Speed, Movement::Car, None)
        .unwrap();
    let seq: Vec<usize> = r.node_seq.iter().cloned().collect();
    assert_eq!(vec![id(&g, 1), id(&g, 4), id(&g, 3)], seq);
    assert_eq!(12000, r.distance);
    assert_eq!(1200, r.travel_time);
}

#[test]
fn on_foot_the_goal_is_the_length_and_the_speed_is_three() {
    let (g, _) = square();
    let mut d = g.dijkstra();
    // the short way is closed to pedestrians between 2 and 3
    let r = d
        .distance(id(&g, 1), id(&g, 3), RoutingGoal::Speed, Movement::Foot, None)
        .unwrap();
    let seq: Vec<usize> = r.node_seq.iter().cloned().collect();
    assert_eq!(vec![id(&g, 1), id(&g, 4), id(&g, 3)], seq);
    assert_eq!(12000, r.distance);
    assert_eq!(2000 + 2000, r.travel_time);
    let one_step = d
        .distance(id(&g, 1), id(&g, 2), RoutingGoal::Speed, Movement::Foot, None)
        .unwrap();
    assert_eq!(1000, one_step.distance);
    assert_eq!(333, one_step.travel_time);
}

#[test]
fn edges_closed_to_the_movement_are_not_used() {
    let (g, _) = square();
    let mut d = g.dijkstra();
    assert!(d
        .distance(id(&g, 3), id(&g, 1), RoutingGoal::Length, Movement::Car, None)
        .is_none());
    let r = d
        .distance(id(&g, 3), id(&g, 1), RoutingGoal::Length, Movement::Foot, None)
        .unwrap();
    let seq: Vec<usize> = r.node_seq.iter().cloned().collect();
    assert_eq!(vec![id(&g, 3), id(&g, 1)], seq);
    assert_eq!(2000, r.distance);
    assert_eq!(666, r.travel_time);
}

#[test]
fn no_route_to_a_node_without_incoming_edges() {
    let (g, _) = square();
    let mut d = g.dijkstra();
    assert!(d
        .distance(id(&g, 1), id(&g, 5), RoutingGoal::Length, Movement::Car, None)
        .is_none());
    assert!(d
        .distance(id(&g, 5), id(&g, 1), RoutingGoal::Speed, Movement::Foot, None)
        .is_none());
}

#[test]
fn route_to_the_source_itself_is_the_source() {
    let (g, _) = square();
    let mut d = g.dijkstra();
    let r = d
        .distance(id(&g, 2), id(&g, 2), RoutingGoal::Length, Movement::Car, None)
        .unwrap();
    let seq: Vec<usize> = r.node_seq.iter().cloned().collect();
    assert_eq!(vec![id(&g, 2)], seq);
    assert_eq!(0, r.distance);
    assert_eq!(0, r.travel_time);
}

#[test]
fn coverage_turns_the_route_to_the_covered_edges() {
    let (g, _) = square();
    let mut d = g.dijkstra();
    // uncovered, the short way costs 2000 * (2^52 + 1); covered to 0.588,
    // the long way costs 2 * 3399
    let r = d
        .distance(id(&g, 1), id(&g, 3), RoutingGoal::Length, Movement::Car, Some(Provider::Telekom))
        .unwrap();
    let seq: Vec<usize> = r.node_seq.iter().cloned().collect();
    assert_eq!(vec![id(&g, 1), id(&g, 4), id(&g, 3)], seq);
    // the totals are those of the edges, whatever the scaled cost
    assert_eq!(12000, r.distance);
    assert_eq!(1200, r.travel_time);
    // half covered, each step of the short way costs 666
    let v = d
        .distance(
            id(&g, 1),
            id(&g, 3),
            RoutingGoal::Length,
            Movement::Car,
            Some(Provider::Vodafone),
        )
        .unwrap();
    let seq: Vec<usize> = v.node_seq.iter().cloned().collect();
    assert_eq!(vec![id(&g, 1), id(&g, 2), id(&g, 3)], seq);
    // no coverage anywhere scales all edges alike
    let o = d
        .distance(id(&g, 1), id(&g, 3), RoutingGoal::Length, Movement::Car, Some(Provider::O2))
        .unwrap();
    let seq: Vec<usize> = o.node_seq.iter().cloned().collect();
    assert_eq!(vec![id(&g, 1), id(&g, 2), id(&g, 3)], seq);
    assert_eq!(2000, o.distance);
    // the fastest way with coverage: 600 / 1.765 twice against 1000 * (2^52 + 1)
    let f = d
        .distance(id(&g, 1), id(&g, 3), RoutingGoal::Speed, Movement::Car, Some(Provider::Telekom))
        .unwrap();
    assert_eq!(3, f.node_seq.len());
    assert_eq!(12000, f.distance);
}

#[test]
fn an_engine_can_be_used_again() {
    let (g, _) = square();
    let mut d = g.dijkstra();
    for _ in 0..3 {
        let r = d
            .distance(id(&g, 1), id(&g, 3), RoutingGoal::Length, Movement::Car, None)
            .unwrap();
        assert_eq!(2000, r.distance);
        let s = d
            .distance(id(&g, 4), id(&g, 3), RoutingGoal::Length, Movement::Car, None)
            .unwrap();
        assert_eq!(6000, s.distance);
        assert_eq!(2, s.node_seq.len());
        assert!(d
            .distance(id(&g, 2), id(&g, 1), RoutingGoal::Length, Movement::Car, None)
            .is_none());
    }
}

#[test]
fn next_node_to_is_the_nearest_node() {
    let (g, _) = square();
    let n = g.next_node_to(900, 100, &manhattan).unwrap();
    assert_eq!(2, n.1.osm_id);
    assert_eq!(id(&g, 2), n.0);
    let m = g.next_node_to(1900, 4950, &manhattan).unwrap();
    assert_eq!(5, m.1.osm_id);
    assert!(g.next_node_to(2001, 50, &manhattan).is_none());
}

#[test]
fn half_edge_answers() {
    let e = HalfEdge { endpoint: 0, length: 90, time: 7, for_cars: true, for_pedestrians: false };
    assert!(!e.is_not_for(&Movement::Car));
    assert!(e.is_not_for(&Movement::Foot));
    assert_eq!(90, e.get_cost(&RoutingGoal::Length));
    assert_eq!(7, e.get_cost(&RoutingGoal::Speed));
    assert_eq!(7, e.get_time(&Movement::Car));
    assert_eq!(30, e.get_time(&Movement::Foot));
}

#[test]
fn edge_info_starts_open_to_all() {
    let mut e = EdgeInfo::new(3, 4, 5, 6);
    assert_eq!(3, e.source);
    assert_eq!(4, e.dest);
    assert_eq!(5, e.length);
    assert_eq!(6, e.speed);
    assert!(e.for_cars && e.for_pedestrians);
    e.not_for_cars();
    assert!(!e.for_cars && e.for_pedestrians);
    e.not_for_pedestrians();
    assert!(!e.for_cars && !e.for_pedestrians);
}

#[test]
fn calculate_coverage_measures_every_edge() {
    let nodes = vec![NodeInfo::new(4, 0, 0, 0), NodeInfo::new(9, 1000, 0, 0)];
    let mut edges = vec![EdgeInfo::new(0, 1, 1000, 1), EdgeInfo::new(1, 0, 1000, 1)];
    let mut towers = vec![
        Tower { radio: TowerType::UMTS, net: Provider::Vodafone, lat: 1000, lon: 0, range: 250 },
        Tower { radio: TowerType::LTE, net: Provider::Telekom, lat: 0, lon: 0, range: 500 },
    ];
    let c = Graph::calculate_coverage(&nodes, &mut edges, &mut towers, &manhattan, &plain);
    assert_eq!(Provider::Telekom, towers[0].net);
    assert_eq!(&vec![UNIT / 2, UNIT / 2], c.get_all(Some(Provider::Telekom)).unwrap());
    assert_eq!(&vec![UNIT / 4, UNIT / 4], c.get_all(Some(Provider::Vodafone)).unwrap());
    assert_eq!(&vec![0, 0], c.get_all(Some(Provider::O2)).unwrap());
    assert_eq!(2, edges.len());
}

#[test]
fn nodes_are_equal_if_their_ids_are() {
    assert!(NodeInfo::new(7, 1, 2, 3) == NodeInfo::new(7, 4, 5, 6));
    assert!(NodeInfo::new(7, 1, 2, 3) != NodeInfo::new(8, 1, 2, 3));
}

#[test]
fn a_built_graph_is_valid_and_a_broken_one_is_not() {
    let (mut g, _) = square();
    assert!(g.is_valid());
    let last = g.node_offsets.len() - 1;
    g.node_offsets[last] = NodeOffset(4);
    assert!(!g.is_valid());
    g.node_offsets[last] = NodeOffset(5);
    assert!(g.is_valid());
    g.node_offsets[1] = NodeOffset(6);
    assert!(!g.is_valid());
    let (mut h, _) = square();
    h.edges[0].endpoint = 5;
    assert!(!h.is_valid());
    let (mut k, _) = square();
    k.node_info.swap(0, 4);
    assert!(!k.is_valid());
    let (mut l, _) = square();
    l.edges.pop();
    assert!(!l.is_valid());
    let (mut m, _) = square();
    m.grid.b_box.lat_max += 1;
    assert!(!m.is_valid());
}

#[test]
fn edges_must_name_known_nodes() {
    let nodes = vec![NodeInfo::new(1, 0, 0, 0), NodeInfo::new(2, 1, 1, 0)];
    assert!(Graph::edges_known(&nodes, &[EdgeInfo::new(1, 2, 0, 1), EdgeInfo::new(2, 2, 0, 1)]));
    assert!(!Graph::edges_known(&nodes, &[EdgeInfo::new(1, 3, 0, 1)]));
    assert!(!Graph::edges_known(&nodes, &[EdgeInfo::new(0, 1, 0, 1)]));
    assert!(Graph::edges_known(&nodes, &[]));
    assert!(!Graph::edges_known(&[], &[EdgeInfo::new(1, 2, 0, 1)]));
}

// Two ways of the same cost from node 1 to node 4, over node 2 and over
// node 3, and a way back inside each pair that costs nothing.
fn diamond() -> Graph {
    let nodes = vec![
        NodeInfo::new(1, 0, 0, 0),
        NodeInfo::new(2, 10, 0, 0),
        NodeInfo::new(3, 0, 10, 0),
        NodeInfo::new(4, 10, 10, 0),
        NodeInfo::new(5, 10, 10, 0),
    ];
    let edges = vec![
        EdgeInfo::new(1, 3, 0, 1),
        EdgeInfo::new(1, 2, 0, 1),
        EdgeInfo::new(3, 4, 0, 1),
        EdgeInfo::new(2, 4, 0, 1),
        EdgeInfo::new(4, 5, 0, 1),
        EdgeInfo::new(5, 4, 0, 1),
    ];
    let mut towers = Vec::new();
    Graph::new(nodes, edges, &mut towers, &manhattan, &plain)
}

#[test]
fn of_routes_that_cost_the_same_the_one_over_the_lesser_node_is_found() {
    let g = diamond();
    let mut d = g.dijkstra();
    let r = d
        .distance(id(&g, 1), id(&g, 4), RoutingGoal::Length, Movement::Car, None)
        .unwrap();
    let seq: Vec<usize> = r.node_seq.iter().cloned().collect();
    let over = id(&g, 2).min(id(&g, 3));
    assert_eq!(vec![id(&g, 1), over, id(&g, 4)], seq);
    assert_eq!(20, r.distance);
    assert_eq!(20, r.travel_time);
}

#[test]
fn a_way_around_that_costs_nothing_is_not_taken() {
    let g = diamond();
    let mut d = g.dijkstra();
    for node in [4, 5] {
        let r = d
            .distance(id(&g, node), id(&g, node), RoutingGoal::Length, Movement::Car, None)
            .unwrap();
        let seq: Vec<usize> = r.node_seq.iter().cloned().collect();
        assert_eq!(vec![id(&g, node)], seq);
        assert_eq!(0, r.distance);
        assert_eq!(0, r.travel_time);
    }
    let r = d
        .distance(id(&g, 4), id(&g, 5), RoutingGoal::Speed, Movement::Foot, None)
        .unwrap();
    assert_eq!(2, r.node_seq.len());
    assert_eq!(0, r.distance);
}

#[test]
fn a_used_engine_answers_as_a_fresh_one() {
    for g in [diamond(), square().0] {
        let n = g.node_count();
        let mut used = g.dijkstra();
        for round in 0..2 {
            for s in 0..n {
                for t in 0..n {
                    for (goal, movement, provider) in [
                        (RoutingGoal::Length, Movement::Car, None),
                        (RoutingGoal::Speed, Movement::Car, Some(Provider::Telekom)),
                        (RoutingGoal::Speed, Movement::Foot, Some(Provider::Vodafone)),
                    ] {
                        let mut fresh = g.dijkstra();
                        let first = fresh.distance(s, t, goal, movement, provider);
                        let later = used.distance(s, t, goal, movement, provider);
                        assert_eq!(first.is_some(), later.is_some(), "round {}", round);
                        if let (Some(first), Some(later)) = (first, later) {
                            assert_eq!(first.node_seq, later.node_seq);
                            assert_eq!(first.distance, later.distance);
                            assert_eq!(first.travel_time, later.travel_time);
                        }
                    }
                }
            }
        }
    }
}
