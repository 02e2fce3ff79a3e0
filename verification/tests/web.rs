use dzr::graph::{EdgeInfo, Graph, Movement, NodeInfo, RoutingGoal};
use dzr::grid::BoundingBox;
use dzr::towers::{Provider, Tower, TowerType};
use dzr::web::{
    goal_from_str, low_coverage_edges, movement_from_str, parse_route_query, provider_from_str,
    towers_within, ParseQueryErr,
};

fn items(pairs: &[(&str, &str)]) -> Vec<(String, String)> {
    pairs.iter().map(|(k, v)| (k.to_string(), v.to_string())).collect()
}

fn manhattan(a: (i64, i64), b: (i64, i64)) -> u64 {
    a.0.abs_diff(b.0) + a.1.abs_diff(b.1)
}

// The plane in which a degree is a millimetre.
fn plain(point: (i64, i64), _lat0: i64) -> (i64, i64) {
    point
}

#[test]
fn names_of_goals_movements_and_providers() {
    assert!(matches!(goal_from_str("length"), Ok(RoutingGoal::Length)));
    assert!(matches!(goal_from_str("speed"), Ok(RoutingGoal::Speed)));
    assert!(matches!(goal_from_str("Speed"), Err(ParseQueryErr::ParseErr)));
    assert!(matches!(movement_from_str("car"), Ok(Movement::Car)));
    assert!(matches!(movement_from_str("foot"), Ok(Movement::Foot)));
    assert!(matches!(movement_from_str("bike"), Err(ParseQueryErr::ParseErr)));
    assert!(matches!(provider_from_str("telekom"), Ok(Provider::Telekom)));
    assert!(matches!(provider_from_str("vodafone"), Ok(Provider::Vodafone)));
    assert!(matches!(provider_from_str("o2"), Ok(Provider::O2)));
    assert!(matches!(provider_from_str("O2"), Err(ParseQueryErr::ParseErr)));
    assert!(matches!("speed".parse::<RoutingGoal>(), Ok(RoutingGoal::Speed)));
    assert!(matches!("foot".parse::<Movement>(), Ok(Movement::Foot)));
    assert!(matches!("o2".parse::<Provider>(), Ok(Provider::O2)));
    assert!(matches!("".parse::<Provider>(), Err(ParseQueryErr::ParseErr)));
}

#[test]
fn a_full_query_is_read() {
    let q = parse_route_query(&items(&[
        ("s", "12"),
        ("t", "7"),
        ("goal", "speed"),
        ("move", "foot"),
        ("provider", "vodafone"),
        ("zoom", "3"),
    ]))
    .ok()
    .unwrap();
    assert_eq!(12, q.s);
    assert_eq!(7, q.t);
    assert_eq!(RoutingGoal::Speed, q.goal);
    assert_eq!(Movement::Foot, q.movement);
    assert_eq!(Some(Provider::Vodafone), q.provider);
}

#[test]
fn a_short_query_has_defaults_and_later_items_win() {
    let q = parse_route_query(&items(&[("t", "1"), ("s", "2"), ("s", "3")])).ok().unwrap();
    assert_eq!(3, q.s);
    assert_eq!(1, q.t);
    assert_eq!(RoutingGoal::Length, q.goal);
    assert_eq!(Movement::Car, q.movement);
    assert_eq!(None, q.provider);
}

#[test]
fn a_query_without_source_or_target_is_refused() {
    assert!(matches!(
        parse_route_query(&items(&[("t", "1")])),
        Err(ParseQueryErr::ItemNotPresen("No parameter \"s\" present"))
    ));
    assert!(matches!(
        parse_route_query(&items(&[("s", "1")])),
        Err(ParseQueryErr::ItemNotPresen("No parameter \"t\" present"))
    ));
    assert!(matches!(
        parse_route_query(&items(&[])),
        Err(ParseQueryErr::ItemNotPresen("No parameter \"s\" present"))
    ));
}

#[test]
fn a_query_with_a_value_that_cannot_be_read_is_refused() {
    for bad in [("s", "x"), ("t", "-1"), ("goal", "fast"), ("move", "fly"), ("provider", "eplus")]
    {
        let r = parse_route_query(&items(&[("s", "1"), bad, ("t", "2")]));
        assert!(matches!(r, Err(ParseQueryErr::ParseErr)), "{:?}", bad);
    }
}

#[test]
fn towers_of_a_provider_inside_a_box() {
    let t = |net, lat, lon| Tower { radio: TowerType::LTE, net, lat, lon, range: 1 };
    let towers = vec![
        t(Provider::O2, 5, 5),
        t(Provider::Telekom, 5, 5),
        t(Provider::O2, 11, 5),
        t(Provider::O2, 10, 0),
        t(Provider::O2, 0, -1),
    ];
    let mut bbox = BoundingBox::new();
    bbox.add_coord(&(10i64, 10i64));
    bbox.add_coord(&(0i64, 0i64));
    let found = towers_within(&towers, &bbox, Provider::O2);
    let places: Vec<(i64, i64)> = found.iter().map(|t| (t.lat, t.lon)).collect();
    assert_eq!(vec![(5, 5), (10, 0)], places);
    assert!(towers_within(&towers, &bbox, Provider::Vodafone).is_empty());
    assert!(towers_within(&towers, &BoundingBox::new(), Provider::O2).is_empty());
}

#[test]
fn edges_with_little_coverage_inside_a_box() {
    let nodes = vec![
        NodeInfo::new(1, 0, 0, 0),
        NodeInfo::new(2, 1000, 0, 0),
        NodeInfo::new(3, 2000, 0, 0),
    ];
    let edges = vec![
        EdgeInfo::new(1, 2, 0, 1),
        EdgeInfo::new(2, 3, 0, 1),
        EdgeInfo::new(2, 1, 0, 1),
        EdgeInfo::new(3, 1, 0, 1),
    ];
    // O2 covers a little more than half of the edges between 1 and 2, half
    // of the edge from 2 to 3, and a quarter and a little more than a
    // quarter of the edge from 3 to 1
    let mut towers = vec![
        Tower { radio: TowerType::LTE, net: Provider::O2, lat: 0, lon: 0, range: 501 },
        Tower { radio: TowerType::LTE, net: Provider::O2, lat: 2000, lon: 0, range: 500 },
    ];
    let g = Graph::new(nodes, edges, &mut towers, &manhattan, &plain);
    let id = |osm: usize| g.node_info.iter().position(|n| n.osm_id == osm).unwrap();
    let mut all = BoundingBox::new();
    all.add_coord(&(0i64, 0i64));
    all.add_coord(&(2000i64, 0i64));
    // half covered counts as little, a little more than half does not
    assert_eq!(vec![(id(2), id(3))], low_coverage_edges(&g, &all, Provider::O2));
    assert_eq!(
        vec![(id(1), id(2)), (id(2), id(1)), (id(2), id(3)), (id(3), id(1))],
        low_coverage_edges(&g, &all, Provider::Telekom)
    );
    let mut corner = BoundingBox::new();
    corner.add_coord(&(1500i64, 0i64));
    corner.add_coord(&(2000i64, 0i64));
    assert!(low_coverage_edges(&g, &corner, Provider::O2).is_empty());
    assert_eq!(vec![(id(3), id(1))], low_coverage_edges(&g, &corner, Provider::Vodafone));
    assert!(low_coverage_edges(&g, &BoundingBox::new(), Provider::O2).is_empty());
}
