use dzr::graph::components::UnionFind;
use dzr::graph::{EdgeInfo, Graph, NodeInfo};
use dzr::towers::Tower;

fn manhattan(a: (i64, i64), b: (i64, i64)) -> u64 {
    a.0.abs_diff(b.0) + a.1.abs_diff(b.1)
}

fn plain(point: (i64, i64), _lat0: i64) -> (i64, i64) {
    point
}

fn graph(nodes: usize, edges: &[(usize, usize)]) -> Graph {
    let node_info: Vec<NodeInfo> =
        (0..nodes).map(|i| NodeInfo::new(i, (i % 7) as i64, (i / 7) as i64, 0)).collect();
    let edge_infos: Vec<EdgeInfo> =
        edges.iter().map(|&(s, t)| EdgeInfo::new(s, t, 0, 1)).collect();
    let mut towers: Vec<Tower> = Vec::new();
    Graph::new(node_info, edge_infos, &mut towers, &manhattan, &plain)
}

#[test]
fn a_graph_without_nodes_has_no_component() {
    assert_eq!(0, graph(0, &[]).count_components());
}

#[test]
fn nodes_without_edges_are_components_of_their_own() {
    assert_eq!(1, graph(1, &[]).count_components());
    assert_eq!(6, graph(6, &[]).count_components());
}

#[test]
fn the_direction_of_an_edge_does_not_count() {
    assert_eq!(1, graph(3, &[(0, 1), (2, 1)]).count_components());
    assert_eq!(1, graph(3, &[(1, 0), (1, 2)]).count_components());
    assert_eq!(2, graph(3, &[(2, 0)]).count_components());
    assert_eq!(2, graph(3, &[(1, 1), (2, 0), (0, 2)]).count_components());
}

#[test]
fn components_of_a_larger_graph() {
    // a ring of five, a chain of three, a pair, a loop, and nine nodes on their own
    let edges = [
        (0, 1),
        (1, 2),
        (2, 3),
        (3, 4),
        (4, 0),
        (10, 11),
        (12, 11),
        (15, 16),
        (16, 15),
        (19, 19),
    ];
    assert_eq!(1 + 1 + 1 + 10, graph(20, &edges).count_components());
}

#[test]
fn union_find_joins_classes() {
    let mut u = UnionFind::new(6);
    assert_eq!(6, u.count_roots());
    for i in 0..6 {
        assert_eq!(i, u.find(i));
    }
    u.union(0, 1);
    u.union(2, 3);
    assert_eq!(4, u.count_roots());
    assert_eq!(u.find(0), u.find(1));
    assert_eq!(u.find(2), u.find(3));
    assert_ne!(u.find(0), u.find(2));
    u.union(1, 3);
    assert_eq!(3, u.count_roots());
    assert_eq!(u.find(0), u.find(2));
    u.union(3, 0);
    assert_eq!(3, u.count_roots());
    u.union(4, 4);
    assert_eq!(3, u.count_roots());
    assert_ne!(u.find(4), u.find(5));
    assert_ne!(u.find(4), u.find(0));
}

#[test]
fn the_larger_class_keeps_its_root() {
    let mut u = UnionFind::new(4);
    u.union(0, 1);
    let root = u.find(0);
    u.union(2, 0);
    assert_eq!(root, u.find(2));
    u.union(0, 3);
    assert_eq!(root, u.find(3));
    assert_eq!(1, u.count_roots());
}
