use dzr::geom::Coord;
use dzr::graph::NodeInfo;
use dzr::grid::{BoundingBox, Grid};
use dzr::towers::{Provider, Tower, TowerType};

const EARTH_RADIUS: f64 = 6_371_007.2;

// The haversine distance in millimetres between two points given in
// degrees times 10,000,000.
fn haversine(a: (i64, i64), b: (i64, i64)) -> u64 {
    let a = (a.0 as f64 / 10_000_000.0, a.1 as f64 / 10_000_000.0);
    let b = (b.0 as f64 / 10_000_000.0, b.1 as f64 / 10_000_000.0);
    let theta1 = a.0.to_radians();
    let theta2 = b.0.to_radians();
    let delta_theta = (b.0 - a.0).to_radians();
    let delta_lambda = (b.1 - a.1).to_radians();
    let h = (delta_theta / 2.0).sin().powi(2)
        + theta1.cos() * theta2.cos() * (delta_lambda / 2.0).sin().powi(2);
    let c = 2.0 * h.sqrt().asin();
    (EARTH_RADIUS * c * 1000.0).round() as u64
}

fn manhattan(a: (i64, i64), b: (i64, i64)) -> u64 {
    a.0.abs_diff(b.0) + a.1.abs_diff(b.1)
}

fn node(lat: i64, long: i64) -> NodeInfo {
    NodeInfo { lat, long, ..Default::default() }
}

fn tower(lat: i64, lon: i64) -> Tower {
    Tower { radio: TowerType::LTE, net: Provider::O2, lat, lon, range: 1 }
}

#[test]
fn add_node_to_bounding_box() {
    let mut b = BoundingBox::new();
    let n = NodeInfo::new(1, 11_000_000, 12_000_000, 0);
    assert!(!b.contains_point(n.lat, n.long));
    b.add_coord(&n);
    assert!(b.contains_point(n.lat, n.long));
}

#[test]
fn bounding_box_is_the_hull() {
    let mut b = BoundingBox::new();
    b.add_coord(&(5i64, -7i64));
    b.add_coord(&(-3i64, 9i64));
    assert_eq!(-3, b.lat_min);
    assert_eq!(5, b.lat_max);
    assert_eq!(-7, b.long_min);
    assert_eq!(9, b.long_max);
    assert!(b.contains_point(5, 9));
    assert!(b.contains_point(-3, -7));
    assert!(b.contains_point(0, 0));
    assert!(!b.contains_point(6, 0));
    assert!(!b.contains_point(0, -8));
}

#[test]
fn converting_coord_to_index() {
    let mut nodes = vec![node(34_000_000, 51_000_000), node(44_000_000, 61_000_000)];
    let g = Grid::new(&mut nodes, 10);

    let index = g.coord_to_index(41_200_000, 57_300_000);
    assert_eq!(index.unwrap(), 67)
}

#[test]
fn converting_coord_to_index2() {
    let mut nodes = vec![node(34_000_000, 51_000_000), node(44_000_000, 56_000_000)];
    let g = Grid::new(&mut nodes, 10);

    let index = g.coord_to_index(41_200_000, 53_800_000);
    assert_eq!(index.unwrap(), 57)
}

#[test]
fn converting_coord_to_index_edge_points() {
    let mut nodes = vec![node(34_000_000, 51_000_000), node(44_000_000, 56_000_000)];
    let g = Grid::new(&mut nodes, 10);

    let index = g.coord_to_index(44_000_000, 56_000_000);
    assert_eq!(index.unwrap(), 99)
}

#[test]
fn grid_cell_of_the_far_corner() {
    let mut nodes = vec![node(34_000_000, 51_000_000), node(44_000_000, 61_000_000)];
    let g = Grid::new(&mut nodes, 10);
    assert_eq!(Ok(67), g.coord_to_index(41_200_000, 57_300_000));
    assert_eq!(Ok(99), g.coord_to_index(44_000_000, 61_000_000));
    assert_eq!(Ok(0), g.coord_to_index(34_000_000, 51_000_000));
}

#[test]
fn point_outside_the_box_has_no_cell() {
    let mut nodes = vec![node(34_000_000, 51_000_000), node(44_000_000, 61_000_000)];
    let g = Grid::new(&mut nodes, 10);
    assert_eq!(Err(()), g.coord_to_index(33_999_999, 55_000_000));
    assert_eq!(Err(()), g.coord_to_index(40_000_000, 61_000_001));
}

#[test]
fn box_of_one_point_has_one_cell_in_use() {
    let mut nodes = vec![node(7, 7), node(7, 7)];
    let g = Grid::new(&mut nodes, 4);
    assert_eq!(Ok(0), g.coord_to_index(7, 7));
    assert_eq!(Err(()), g.coord_to_index(7, 8));
    assert_eq!(g.offset_array[0], 0);
    assert_eq!(g.offset_array[1], 2);
    assert_eq!(g.offset_array[16], 2);
}

#[test]
fn grid_sorts_items_by_cell_and_keeps_their_order_within_a_cell() {
    let mut nodes = vec![
        NodeInfo::new(1, 9, 9, 0),
        NodeInfo::new(2, 0, 0, 0),
        NodeInfo::new(3, 9, 0, 0),
        NodeInfo::new(4, 0, 1, 0),
        NodeInfo::new(5, 0, 9, 0),
    ];
    let g = Grid::new(&mut nodes, 2);
    let ids: Vec<usize> = nodes.iter().map(|n| n.osm_id).collect();
    assert_eq!(vec![2, 4, 3, 5, 1], ids);
    assert_eq!(vec![0, 2, 3, 4, 5], g.offset_array);
    assert_eq!(2, g.side_length);
    assert_eq!(0, g.b_box.lat_min);
    assert_eq!(9, g.b_box.lat_max);
}

#[test]
fn nearest_neighbor_2_points() {
    let mut nodes = vec![
        NodeInfo::new(0, 102_000_000, 304_000_000, 0),
        NodeInfo::new(1, 205_000_000, 401_000_000, 0),
    ];
    let g = Grid::new(&mut nodes, 10);
    let n = g.nearest_neighbor(103_000_000, 305_000_000, &nodes, &haversine).unwrap();
    assert_eq!(0, n.0);
}

#[test]
fn nearest_neighbor_2_points_other_point() {
    let mut nodes = vec![
        NodeInfo::new(0, 102_000_000, 304_000_000, 0),
        NodeInfo::new(1, 205_000_000, 401_000_000, 0),
    ];
    let g = Grid::new(&mut nodes, 10);
    let n = g.nearest_neighbor(205_000_000, 401_000_000, &nodes, &haversine).unwrap();
    assert_eq!(1, n.0);
}

#[test]
fn nearest_neighbor_2_points_different_cell() {
    let mut nodes = vec![
        NodeInfo::new(0, 102_000_000, 304_000_000, 0),
        NodeInfo::new(1, 205_000_000, 401_000_000, 0),
    ];
    let g = Grid::new(&mut nodes, 10);
    let n = g.nearest_neighbor(190_000_000, 380_000_000, &nodes, &haversine).unwrap();
    assert_eq!(1, n.0);
}

#[test]
fn nearest_neighbor_outside_the_box_fails() {
    let mut nodes = vec![
        NodeInfo::new(0, 102_000_000, 304_000_000, 0),
        NodeInfo::new(1, 205_000_000, 401_000_000, 0),
    ];
    let g = Grid::new(&mut nodes, 10);
    assert!(g.nearest_neighbor(101_000_000, 305_000_000, &nodes, &haversine).is_err());
}

#[test]
fn nearest_neighbor_without_nodes_fails() {
    let mut nodes: Vec<NodeInfo> = Vec::new();
    let g = Grid::new(&mut nodes, 10);
    assert!(g.nearest_neighbor(0, 0, &nodes, &haversine).is_err());
}

#[test]
fn nearest_neighbor_returns_the_node_and_takes_the_first_of_equals() {
    let mut nodes = vec![
        NodeInfo::new(10, 0, 0, 1),
        NodeInfo::new(11, 0, 40, 2),
        NodeInfo::new(12, 0, 60, 3),
        NodeInfo::new(13, 0, 100, 4),
    ];
    let g = Grid::new(&mut nodes, 10);
    let n = g.nearest_neighbor(0, 50, &nodes, &manhattan).unwrap();
    assert_eq!(1, n.0);
    assert_eq!(11, n.1.osm_id);
    assert_eq!(2, n.1.height);
    let m = g.nearest_neighbor(0, 52, &nodes, &manhattan).unwrap();
    assert_eq!(2, m.0);
    assert_eq!(12, m.1.osm_id);
}

#[test]
fn nearest_neighbor_looks_beyond_the_first_ring() {
    let mut nodes = vec![NodeInfo::new(1, 0, 0, 0), NodeInfo::new(2, 100, 100, 0)];
    let g = Grid::new(&mut nodes, 10);
    let n = g.nearest_neighbor(40, 40, &nodes, &manhattan).unwrap();
    assert_eq!(0, n.0);
    let m = g.nearest_neighbor(60, 60, &nodes, &manhattan).unwrap();
    assert_eq!(1, m.0);
}

#[test]
fn adjacent_towers_come_ring_by_ring() {
    let mut towers = vec![tower(0, 0), tower(100, 100), tower(50, 50), tower(55, 55)];
    let g = Grid::new(&mut towers, 10);
    // a cell measures 20 by the metric below: only ring 0 and ring 1 are in reach of 10
    let span = |a: (i64, i64), b: (i64, i64)| 2 * manhattan(a, b);
    let found = g.adjacent_towers(&(50i64, 50i64), 10, &towers, &span).unwrap();
    // ring 0 is one cell, ring 1 has eight
    assert_eq!(9, found.len());
    let all: Vec<(i64, i64)> =
        found.iter().flat_map(|part| part.iter()).map(|t| (t.lat(), t.lon())).collect();
    assert_eq!(vec![(50, 50), (55, 55)], all);
}

#[test]
fn adjacent_towers_with_a_far_reach_are_all_towers() {
    let mut towers = vec![tower(0, 0), tower(100, 100), tower(50, 50), tower(55, 55)];
    let g = Grid::new(&mut towers, 10);
    let found = g.adjacent_towers(&(50i64, 50i64), 1_000_000, &towers, &manhattan).unwrap();
    assert_eq!(100, found.len());
    let count: usize = found.iter().map(|part| part.len()).sum();
    assert_eq!(4, count);
}

#[test]
fn adjacent_towers_within_reach_zero_still_cover_two_rings() {
    let mut towers = vec![tower(0, 0), tower(100, 100)];
    let g = Grid::new(&mut towers, 10);
    // ring 1 is never out of reach: (1 - 1) * span is not more than 0
    let found = g.adjacent_towers(&(0i64, 0i64), 0, &towers, &manhattan).unwrap();
    assert_eq!(4, found.len());
    assert_eq!(1, found[0].len());
}

#[test]
fn adjacent_towers_outside_the_box_fail() {
    let mut towers = vec![tower(0, 0), tower(100, 100)];
    let g = Grid::new(&mut towers, 10);
    assert!(g.adjacent_towers(&(101i64, 50i64), 10, &towers, &manhattan).is_err());
}

#[test]
fn a_grid_indexes_its_own_items_only() {
    let mut nodes = vec![
        NodeInfo::new(1, 9, 9, 0),
        NodeInfo::new(2, 0, 0, 0),
        NodeInfo::new(3, 9, 0, 0),
        NodeInfo::new(4, 0, 1, 0),
    ];
    let unsorted = nodes.clone();
    let mut g = Grid::new(&mut nodes, 2);
    assert!(g.is_index_of(&nodes));
    assert!(!g.is_index_of(&unsorted));
    assert!(!g.is_index_of(&nodes[..3]));
    g.offset_array[1] = 1;
    assert!(!g.is_index_of(&nodes));
    g.offset_array[1] = 2;
    assert!(g.is_index_of(&nodes));
    g.side_length = 0;
    assert!(!g.is_index_of(&nodes));
}
