//! The road graph: nodes, edges and the adjacency array built from them.

pub mod alg;
pub mod components;
pub mod heap;

use vstd::prelude::*;
use std::collections::HashMap;
use crate::geom::{Coord, TuplePoint};
use crate::grid::{Grid, NodeInfoWithIndex};
use crate::order::{
    apply_order,
    covers,
    group_offsets,
    grouped,
    is_offsets,
    is_stable_order,
    key_before,
    lemma_offsets,
    never_decreases,
    permuted,
    stable_order,
};
use crate::towers::{edge_coverage, flat, is_edge_coverage, Coverage, Provider, Tower};
pub use self::alg::{Movement, RoutingGoal};

verus! {

/// The position of a node in the node array.
pub type NodeId = usize;

/// The id that a node has outside the graph.
pub type OsmNodeId = usize;

/// A latitude in degrees scaled by 10,000,000.
pub type Latitude = i64;

/// A longitude in degrees scaled by 10,000,000.
pub type Longitude = i64;

/// A length in millimetres.
pub type Length = u64;

/// A speed, in the same unit for all edges.
pub type Speed = usize;

/// A height above sea level.
pub type Height = usize;

/// The speed of a pedestrian: three metres per second.
pub const FOOT_SPEED: u64 = 3;

/// The side length of the grids over the nodes and over the towers.
pub const GRID_SIDE: usize = 100;

/// Towers are looked up within this distance, in millimetres, plus the
/// length of the edge, of the source of an edge.
pub const COVERAGE_RADIUS: u128 = 15_000_000;

/// The time that an edge of the given length takes at the given speed. An
/// edge of speed zero takes longer than any other.
pub open spec fn travel_time(length: u64, speed: usize) -> u64 {
    if speed == 0 {
        u64::MAX
    } else {
        (length as int / speed as int) as u64
    }
}

/// The stored form of an edge.
pub open spec fn half_edge_of(e: EdgeInfo) -> HalfEdge {
    HalfEdge {
        endpoint: e.dest,
        length: e.length,
        time: travel_time(e.length, e.speed),
        for_cars: e.for_cars,
        for_pedestrians: e.for_pedestrians,
    }
}

/// The stored forms of the edges.
pub open spec fn half_edges(edges: Seq<EdgeInfo>) -> Seq<HalfEdge> {
    Seq::new(edges.len(), |i: int| half_edge_of(edges[i]))
}

/// The sorting key of an edge: its source, then its destination.
pub open spec fn edge_key(e: EdgeInfo) -> u128 {
    (e.source * 0x1_0000_0000_0000_0000 + e.dest) as u128
}

/// The sorting keys of the edges.
pub open spec fn edge_keys(edges: Seq<EdgeInfo>) -> Seq<u128> {
    Seq::new(edges.len(), |i: int| edge_key(edges[i]))
}

/// The sources of the edges.
pub open spec fn sources(edges: Seq<EdgeInfo>) -> Seq<usize> {
    Seq::new(edges.len(), |i: int| edges[i].source)
}

/// The offsets as plain numbers.
pub open spec fn plain(offsets: Seq<NodeOffset>) -> Seq<usize> {
    Seq::new(offsets.len(), |i: int| offsets[i].0)
}

/// Two edges join the same pair of nodes.
pub open spec fn same_pair(a: EdgeInfo, b: EdgeInfo) -> bool {
    a.source == b.source && a.dest == b.dest
}

/// The edges without those that join the same pair of nodes as the edge
/// before them.
pub open spec fn deduped(edges: Seq<EdgeInfo>) -> Seq<EdgeInfo>
    decreases edges.len(),
{
    if edges.len() == 0 {
        Seq::empty()
    } else if edges.len() >= 2 && same_pair(edges[edges.len() - 2], edges.last()) {
        deduped(edges.drop_last())
    } else {
        deduped(edges.drop_last()).push(edges.last())
    }
}

/// Every edge joins two of `count` nodes.
pub open spec fn within(edges: Seq<EdgeInfo>, count: int) -> bool {
    forall|i: int|
        0 <= i < edges.len() ==> (#[trigger] edges[i]).source < count && edges[i].dest < count
}

/// The external ids of all the edges are ids of nodes.
pub open spec fn known(nodes: Seq<NodeInfo>, edges: Seq<EdgeInfo>) -> bool {
    forall|i: int|
        0 <= i < edges.len() ==> has_id(nodes, (#[trigger] edges[i]).source) && has_id(
            nodes,
            edges[i].dest,
        )
}

/// Some node has the external id `id`.
pub open spec fn has_id(nodes: Seq<NodeInfo>, id: usize) -> bool {
    exists|j: int| 0 <= j < nodes.len() && (#[trigger] nodes[j]).osm_id == id
}

/// `index` is the position of the last node with the external id `id`.
pub open spec fn is_index_of(nodes: Seq<NodeInfo>, id: usize, index: usize) -> bool {
    &&& index < nodes.len()
    &&& nodes[index as int].osm_id == id
    &&& forall|j: int| index < j < nodes.len() ==> (#[trigger] nodes[j]).osm_id != id
}

/// The position of a node as a pair of latitude and longitude.
pub open spec fn place(n: NodeInfo) -> TuplePoint {
    (n.lat, n.long)
}

/// `resolved[i]` is `input[i]` with the external ids replaced by the
/// positions of the nodes, and with a length that `dist` gives for the two
/// nodes.
pub open spec fn resolves<F: Fn(TuplePoint, TuplePoint) -> u64>(
    nodes: Seq<NodeInfo>,
    dist: &F,
    input: Seq<EdgeInfo>,
    resolved: Seq<EdgeInfo>,
) -> bool {
    &&& resolved.len() == input.len()
    &&& forall|i: int|
        0 <= i < input.len() ==> {
            &&& is_index_of(nodes, input[i].source, (#[trigger] resolved[i]).source)
            &&& is_index_of(nodes, input[i].dest, resolved[i].dest)
            &&& dist.ensures(
                (
                    place(nodes[resolved[i].source as int]),
                    place(nodes[resolved[i].dest as int]),
                ),
                resolved[i].length,
            )
            &&& resolved[i].speed == input[i].speed
            &&& resolved[i].for_cars == input[i].for_cars
            &&& resolved[i].for_pedestrians == input[i].for_pedestrians
        }
}

/// `parts` holds the towers that are looked at for an edge that starts at
/// `s`: those in reach of `radius` if `s` lies in the grid of the towers,
/// else none.
pub open spec fn near<F: Fn(TuplePoint, TuplePoint) -> u64>(
    grid: &Grid,
    dist: &F,
    towers: Seq<Tower>,
    s: NodeInfo,
    radius: u128,
    parts: Seq<&[Tower]>,
) -> bool {
    if grid.b_box.contains(s.lat, s.long) {
        grid.is_adjacent(dist, grid.cell_of(s.lat, s.long), radius, towers, parts)
    } else {
        parts.len() == 0
    }
}

/// `result` is the coverage of the edge `e` by the towers near its source.
pub open spec fn covers_edge<
    F: Fn(TuplePoint, TuplePoint) -> u64,
    G: Fn(TuplePoint, i64) -> TuplePoint,
>(
    grid: &Grid,
    towers: Seq<Tower>,
    nodes: Seq<NodeInfo>,
    e: EdgeInfo,
    dist: &F,
    project: &G,
    result: (u64, u64, u64),
) -> bool {
    exists|parts: Seq<&[Tower]>|
        {
            &&& #[trigger] near(
                grid,
                dist,
                towers,
                nodes[e.source as int],
                (COVERAGE_RADIUS + e.length) as u128,
                parts,
            )
            &&& is_edge_coverage(
                project,
                nodes[e.source as int],
                nodes[e.dest as int],
                flat(parts),
                result,
            )
        }
}

/// The store holds the coverage of every edge by the towers, which `grid`
/// indexes.
pub open spec fn covers_all<
    F: Fn(TuplePoint, TuplePoint) -> u64,
    G: Fn(TuplePoint, i64) -> TuplePoint,
>(
    coverage: &Coverage,
    upto: int,
    grid: &Grid,
    towers: Seq<Tower>,
    nodes: Seq<NodeInfo>,
    edges: Seq<EdgeInfo>,
    dist: &F,
    project: &G,
) -> bool {
    forall|n: int|
        0 <= n < upto ==> covers_edge(
            grid,
            towers,
            nodes,
            #[trigger] edges[n],
            dist,
            project,
            (
                coverage.values(Provider::Telekom)[n],
                coverage.values(Provider::Vodafone)[n],
                coverage.values(Provider::O2)[n],
            ),
        )
}

/// A node of the road network.
#[derive(Default, Debug, Clone, Copy)]
pub struct NodeInfo {
    pub osm_id: OsmNodeId,
    pub lat: Latitude,
    pub long: Longitude,
    pub height: Height,
}

impl NodeInfo {
    /// A node with the given id, position and height.
    pub fn new(osm_id: OsmNodeId, lat: Latitude, long: Longitude, height: Height) -> (n: NodeInfo)
        ensures
            n == (NodeInfo { osm_id, lat, long, height }),
    {
        NodeInfo { osm_id, lat, long, height }
    }
}

impl PartialEq for NodeInfo {
    fn eq(&self, other: &NodeInfo) -> (r: bool) {
        self.osm_id == other.osm_id
    }
}

impl vstd::std_specs::cmp::PartialEqSpecImpl for NodeInfo {
    open spec fn obeys_eq_spec() -> bool {
        true
    }

    open spec fn eq_spec(&self, other: &NodeInfo) -> bool {
        self.osm_id == other.osm_id
    }
}

impl Eq for NodeInfo {

}

impl Coord for NodeInfo {
    open spec fn lat_spec(&self) -> i64 {
        self.lat
    }

    open spec fn lon_spec(&self) -> i64 {
        self.long
    }

    #[inline]
    fn lat(&self) -> (r: i64) {
        self.lat
    }

    #[inline]
    fn lon(&self) -> (r: i64) {
        self.long
    }
}

/// A directed edge as it is handed to the graph builder.
#[derive(Debug, Clone, Copy, PartialEq, Eq, Structural)]
pub struct EdgeInfo {
    pub source: NodeId,
    pub dest: NodeId,
    pub length: Length,
    pub speed: Speed,
    pub for_cars: bool,
    pub for_pedestrians: bool,
}

impl EdgeInfo {
    /// An edge open to cars and pedestrians.
    pub fn new(source: NodeId, dest: NodeId, length: Length, speed: Speed) -> (e: EdgeInfo)
        ensures
            e == (EdgeInfo { source, dest, length, speed, for_cars: true, for_pedestrians: true }),
    {
        EdgeInfo { source, dest, length, speed, for_cars: true, for_pedestrians: true }
    }

    /// Prevent routes for cars from using this edge
    pub fn not_for_cars(&mut self)
        ensures
            *final(self) == (EdgeInfo { for_cars: false, ..*old(self) }),
    {
        self.for_cars = false;
    }

    /// Prevent routes for pedestrians from using this edge
    pub fn not_for_pedestrians(&mut self)
        ensures
            *final(self) == (EdgeInfo { for_pedestrians: false, ..*old(self) }),
    {
        self.for_pedestrians = false;
    }
}

/// HalfEdge structs do not need both endpoints as one of them can be
/// concluded from its position in the offset array
#[derive(Debug, Clone, Copy, PartialEq, Eq, Structural)]
pub struct HalfEdge {
    pub endpoint: NodeId,
    pub length: Length,
    pub time: Length,
    pub for_cars: bool,
    pub for_pedestrians: bool,
}

impl HalfEdge {
    /// Whether the edge is closed to the given kind of movement.
    pub open spec fn closed_for(&self, movement: Movement) -> bool {
        match movement {
            Movement::Car => !self.for_cars,
            Movement::Foot => !self.for_pedestrians,
        }
    }

    /// What the edge costs under the given routing goal.
    pub open spec fn cost(&self, goal: RoutingGoal) -> u64 {
        match goal {
            RoutingGoal::Length => self.length,
            RoutingGoal::Speed => self.time,
        }
    }

    /// How long the given kind of movement takes to pass the edge.
    pub open spec fn duration(&self, movement: Movement) -> u64 {
        match movement {
            Movement::Car => self.time,
            Movement::Foot => self.length / FOOT_SPEED,
        }
    }

    /// Check if this edges is available for the chosen Movement type
    #[inline]
    pub fn is_not_for(&self, movement: &Movement) -> (r: bool)
        ensures
            r == self.closed_for(*movement),
    {
        match *movement {
            Movement::Car => !self.for_cars,
            Movement::Foot => !self.for_pedestrians,
        }
    }

    /// Extract cost according to given routing goal
    #[inline]
    pub fn get_cost(&self, goal: &RoutingGoal) -> (r: u64)
        ensures
            r == self.cost(*goal),
    {
        match *goal {
            RoutingGoal::Length => self.length,
            RoutingGoal::Speed => self.time,
        }
    }

    /// calculate needed time according to given routing goal
    #[inline]
    pub fn get_time(&self, movement: &Movement) -> (r: u64)
        ensures
            r == self.duration(*movement),
    {
        match *movement {
            Movement::Car => self.time,
            Movement::Foot => self.length / FOOT_SPEED,
        }
    }
}

/// Where the edges that leave a node start in the edge array.
#[derive(Clone, Copy, PartialEq, Eq, Debug, Structural)]
pub struct NodeOffset(pub usize);

impl NodeOffset {
    /// The offset of a node whose edges start at `out_start`.
    pub fn new(out_start: usize) -> (o: NodeOffset)
        ensures
            o.0 == out_start,
    {
        NodeOffset(out_start)
    }
}

/// A road graph in adjacency-array form.
pub struct Graph {
    pub node_info: Vec<NodeInfo>,
    pub node_offsets: Vec<NodeOffset>,
    pub edges: Vec<HalfEdge>,
    pub grid: Grid,
    pub coverage: Coverage,
}

impl Graph {
    /// The number of nodes.
    pub open spec fn size(&self) -> int {
        self.node_info@.len() as int
    }

    /// The adjacency array is sound: one offset per node and one more, the
    /// offsets never decrease and end at the number of edges, every edge
    /// leads to a node, and every edge has its coverage.
    pub open spec fn wf(&self) -> bool {
        &&& self.node_offsets@.len() == self.size() + 1
        &&& self.node_offsets@[0].0 == 0
        &&& forall|i: int, j: int|
            0 <= i <= j <= self.size() ==> self.node_offsets@[i].0 <= self.node_offsets@[j].0
        &&& self.node_offsets@[self.size()].0 == self.edges@.len()
        &&& forall|e: int|
            0 <= e < self.edges@.len() ==> (#[trigger] self.edges@[e]).endpoint < self.size()
        &&& self.coverage.wf()
        &&& self.coverage.size() == self.edges@.len()
        &&& self.grid.indexes(self.node_info@)
    }

    /// Half-edge `e` leads from node `u` to node `v`.
    pub open spec fn has_edge(&self, u: int, e: int, v: int) -> bool {
        &&& 0 <= u < self.size()
        &&& self.node_offsets@[u].0 <= e < self.node_offsets@[u + 1].0
        &&& self.edges@[e].endpoint == v
    }

    /// The graph was built from `nodes`, `edges` and `towers`: the nodes are
    /// stored in the order of their grid, the edges are resolved, sorted by
    /// source and destination, freed of repeated pairs and stored as
    /// half-edges, and the coverage of each is measured.
    pub open spec fn built<
        F: Fn(TuplePoint, TuplePoint) -> u64,
        G: Fn(TuplePoint, i64) -> TuplePoint,
    >(
        &self,
        nodes: Seq<NodeInfo>,
        edges: Seq<EdgeInfo>,
        towers: Seq<Tower>,
        dist: &F,
        project: &G,
    ) -> bool {
        &&& self.grid.side_length == GRID_SIDE
        &&& exists|order: Seq<usize>| #[trigger]
            is_stable_order(self.grid.keys(nodes), order) && self.node_info@ == permuted(
                nodes,
                order,
            )
        &&& exists|resolved: Seq<EdgeInfo>, order: Seq<usize>, tower_grid: Grid|
            {
                let kept = deduped(permuted(resolved, order));
                &&& #[trigger] resolves(self.node_info@, dist, edges, resolved)
                &&& #[trigger] is_stable_order(edge_keys(resolved), order)
                &&& self.edges@ == half_edges(kept)
                &&& is_offsets(sources(kept), self.size(), plain(self.node_offsets@))
                &&& tower_grid.side_length == GRID_SIDE
                &&& #[trigger] tower_grid.indexes(towers)
                &&& covers_all(
                    &self.coverage,
                    kept.len() as int,
                    &tower_grid,
                    towers,
                    self.node_info@,
                    kept,
                    dist,
                    project,
                )
            }
    }

    /// Builds the graph: lays the grid over the nodes, replaces the external
    /// ids of the edges by positions in the node array and measures the
    /// edges with `dist`, sorts the edges and drops repeated ones, builds
    /// the offset array and the half-edges, and measures the
    /// coverage of every edge by the towers near it.
    pub fn new<
        F: Fn(TuplePoint, TuplePoint) -> u64,
        G: Fn(TuplePoint, i64) -> TuplePoint,
    >(
        node_info: Vec<NodeInfo>,
        edge_infos: Vec<EdgeInfo>,
        towers: &mut Vec<Tower>,
        dist: &F,
        project: &G,
    ) -> (g: Graph)
        requires
            known(node_info@, edge_infos@),
            node_info@.len() < usize::MAX,
            forall|a: TuplePoint, b: TuplePoint| dist.requires((a, b)),
            forall|point: TuplePoint, lat0: i64| project.requires((point, lat0)),
        ensures
            g.wf(),
            forall|i: int|
                0 <= i < g.size() ==> (#[trigger] g.node_offsets@[i]).0 <= g.node_offsets@[i
                    + 1].0,
            g.node_offsets@[g.size()].0 == g.edges@.len(),
            g.built(node_info@, edge_infos@, final(towers)@, dist, project),
            exists|order: Seq<usize>| #[trigger]
                covers(order, 0, old(towers)@.len() as int) && final(towers)@ == permuted(
                    old(towers)@,
                    order,
                ),
    {
        let ghost nodes_in = node_info@;
        let ghost edges_in = edge_infos@;
        let mut node_info = node_info;
        let mut edge_infos = edge_infos;
        let grid = Grid::new(&mut node_info, GRID_SIDE);
        proof {
            let order = choose|order: Seq<usize>| #[trigger]
                is_stable_order(grid.keys(nodes_in), order) && node_info@ == permuted(
                    nodes_in,
                    order,
                );
            assert forall|i: int| 0 <= i < edges_in.len() implies has_id(
                node_info@,
                (#[trigger] edges_in[i]).source,
            ) && has_id(node_info@, edges_in[i].dest) by {
                lemma_id_kept(nodes_in, order, edges_in[i].source);
                lemma_id_kept(nodes_in, order, edges_in[i].dest);
            }
        }
        Graph::rename_node_ids_and_calculate_distance(node_info.as_slice(), &mut edge_infos, dist);
        let ghost resolved = edge_infos@;
        let node_count: usize = node_info.len();
        let (node_offsets, edges) = Graph::calc_node_offsets(node_count, &mut edge_infos);
        let ghost kept = edge_infos@;
        let (coverage, Ghost(tower_grid)) = Graph::measure_coverage(
            node_info.as_slice(),
            &edge_infos,
            towers,
            dist,
            project,
        );
        let g = Graph { node_info, node_offsets, edges, grid, coverage };
        proof {
            lemma_offsets(sources(kept), node_count as int, plain(g.node_offsets@));
            assert forall|i: int, j: int| 0 <= i <= j <= g.size() implies g.node_offsets@[i].0
                <= g.node_offsets@[j].0 by {
                assert(plain(g.node_offsets@)[i] <= plain(g.node_offsets@)[j]);
            }
            assert(plain(g.node_offsets@)[0] == 0);
            assert(plain(g.node_offsets@)[g.size()] == kept.len());
            assert forall|e: int| 0 <= e < g.edges@.len() implies (#[trigger] g.edges@[e]).endpoint
                < g.size() by {
                assert(g.edges@[e] == half_edge_of(kept[e]));
            }
            let order = choose|order: Seq<usize>| #[trigger]
                is_stable_order(edge_keys(resolved), order) && kept == deduped(
                    permuted(resolved, order),
                );
            assert(resolves(g.node_info@, dist, edges_in, resolved));
            assert(is_stable_order(edge_keys(resolved), order));
            assert(tower_grid.indexes(towers@));
        }
        g
    }

    /// Creates the offset array of HalfEdges by sorting the edges by
    /// source and target node and then iterating over all edges and
    /// updating the Offsets
    fn calc_node_offsets(node_count: usize, edges: &mut Vec<EdgeInfo>) -> (r: (
        Vec<NodeOffset>,
        Vec<HalfEdge>,
    ))
        requires
            within(old(edges)@, node_count as int),
            node_count < usize::MAX,
        ensures
            exists|order: Seq<usize>| #[trigger]
                is_stable_order(edge_keys(old(edges)@), order) && final(edges)@ == deduped(
                    permuted(old(edges)@, order),
                ),
            within(final(edges)@, node_count as int),
            grouped(sources(final(edges)@), node_count as int),
            forall|i: int, j: int|
                0 <= i < j < final(edges)@.len() ==> edge_key(final(edges)@[i]) < edge_key(
                    final(edges)@[j],
                ),
            is_offsets(sources(final(edges)@), node_count as int, plain(r.0@)),
            r.1@ == half_edges(final(edges)@),
    {
        let n: usize = edges.len();
        let mut keys: Vec<u128> = Vec::new();
        let mut i: usize = 0;
        while i < n
            invariant
                i <= n,
                n == edges@.len(),
                edges@ == old(edges)@,
                keys@.len() == i,
                forall|k: int| 0 <= k < i ==> (#[trigger] keys@[k]) == edge_key(edges@[k]),
            decreases n - i,
        {
            let e = edges[i];
            keys.push(e.source as u128 * 0x1_0000_0000_0000_0000 + e.dest as u128);
            i += 1;
        }
        assert(keys@ =~= edge_keys(edges@));
        let order = stable_order(&keys);
        let sorted = apply_order(edges, &order);
        let ghost before = edges@;
        proof {
            assert forall|a: int, b: int| 0 <= a <= b < n implies edge_key(sorted@[a]) <= edge_key(
                sorted@[b],
            ) by {
                if a < b {
                    assert(key_before(keys@, order@[a] as int, order@[b] as int));
                }
            }
            assert(within(sorted@, node_count as int)) by {
                assert forall|k: int| 0 <= k < sorted@.len() implies (#[trigger] sorted@[k]).source
                    < node_count && sorted@[k].dest < node_count by {
                    assert(sorted@[k] == before[order@[k] as int]);
                }
            }
            assert(sorted@.take(0) =~= Seq::<EdgeInfo>::empty());
        }
        let mut kept: Vec<EdgeInfo> = Vec::new();
        let mut i: usize = 0;
        while i < n
            invariant
                i <= n,
                n == sorted@.len(),
                within(sorted@, node_count as int),
                forall|a: int, b: int|
                    0 <= a <= b < n ==> edge_key(sorted@[a]) <= edge_key(sorted@[b]),
                kept@ == deduped(sorted@.take(i as int)),
                within(kept@, node_count as int),
                (i > 0) == (kept@.len() > 0),
                i > 0 ==> edge_key(kept@.last()) == edge_key(sorted@[i - 1]),
                forall|a: int, b: int|
                    0 <= a < b < kept@.len() ==> edge_key(kept@[a]) < edge_key(kept@[b]),
            decreases n - i,
        {
            let e = sorted[i];
            proof {
                let upto = sorted@.take(i + 1);
                assert(upto.drop_last() =~= sorted@.take(i as int));
                assert(upto.last() == e);
                if i > 0 {
                    assert(upto[upto.len() - 2] == sorted@[i - 1]);
                    assert(edge_key(sorted@[i - 1]) <= edge_key(sorted@[i as int]));
                }
            }
            let repeated: bool = i > 0 && sorted[i - 1].source == e.source && sorted[i - 1].dest
                == e.dest;
            if !repeated {
                proof {
                    let ghost old_kept = kept@;
                    assert forall|a: int| 0 <= a < old_kept.len() implies edge_key(old_kept[a])
                        < edge_key(e) by {
                        if a < old_kept.len() - 1 {
                            assert(edge_key(old_kept[a]) < edge_key(old_kept[old_kept.len() - 1]));
                        }
                    }
                }
                kept.push(e);
            }
            i += 1;
        }
        proof {
            assert(sorted@.take(n as int) =~= sorted@);
        }
        let mut origins: Vec<usize> = Vec::new();
        let mut i: usize = 0;
        while i < kept.len()
            invariant
                i <= kept@.len(),
                origins@.len() == i,
                forall|k: int| 0 <= k < i ==> (#[trigger] origins@[k]) == kept@[k].source,
            decreases kept@.len() - i,
        {
            origins.push(kept[i].source);
            i += 1;
        }
        proof {
            assert(origins@ =~= sources(kept@));
            assert forall|a: int, b: int| 0 <= a <= b < origins@.len() implies origins@[a]
                <= origins@[b] by {
                if a < b {
                    assert(edge_key(kept@[a]) < edge_key(kept@[b]));
                }
            }
        }
        let offsets = group_offsets(&origins, node_count);
        let mut node_offsets: Vec<NodeOffset> = Vec::new();
        let mut i: usize = 0;
        while i < offsets.len()
            invariant
                i <= offsets@.len(),
                node_offsets@.len() == i,
                forall|k: int| 0 <= k < i ==> (#[trigger] node_offsets@[k]).0 == offsets@[k],
            decreases offsets@.len() - i,
        {
            node_offsets.push(NodeOffset::new(offsets[i]));
            i += 1;
        }
        proof {
            assert(plain(node_offsets@) =~= offsets@);
        }
        *edges = kept;
        let out_edges = Graph::create_half_edges(edges.as_slice());
        (node_offsets, out_edges)
    }

    /// The stored forms of the edges.
    fn create_half_edges(edges: &[EdgeInfo]) -> (r: Vec<HalfEdge>)
        ensures
            r@ == half_edges(edges@),
    {
        let mut out: Vec<HalfEdge> = Vec::new();
        let mut i: usize = 0;
        while i < edges.len()
            invariant
                i <= edges@.len(),
                out@.len() == i,
                forall|k: int| 0 <= k < i ==> (#[trigger] out@[k]) == half_edge_of(edges@[k]),
            decreases edges@.len() - i,
        {
            let e = edges[i];
            let time: u64 = if e.speed == 0 {
                u64::MAX
            } else {
                e.length / (e.speed as u64)
            };
            out.push(
                HalfEdge {
                    endpoint: e.dest,
                    length: e.length,
                    time,
                    for_cars: e.for_cars,
                    for_pedestrians: e.for_pedestrians,
                },
            );
            i += 1;
        }
        assert(out@ =~= half_edges(edges@));
        out
    }

    /// Replaces the external ids of the edges by the positions of the nodes
    /// in `nodes`, and sets the length of each edge to the distance of its
    /// nodes.
    fn rename_node_ids_and_calculate_distance<F: Fn(TuplePoint, TuplePoint) -> u64>(
        nodes: &[NodeInfo],
        edges: &mut Vec<EdgeInfo>,
        dist: &F,
    )
        requires
            known(nodes@, old(edges)@),
            forall|a: TuplePoint, b: TuplePoint| dist.requires((a, b)),
        ensures
            resolves(nodes@, dist, old(edges)@, final(edges)@),
            within(final(edges)@, nodes@.len() as int),
    {
        broadcast use vstd::std_specs::hash::group_hash_axioms;

        let mut map: HashMap<usize, usize> = HashMap::new();
        let mut i: usize = 0;
        while i < nodes.len()
            invariant
                i <= nodes@.len(),
                forall|id: usize| #[trigger]
                    map@.contains_key(id) ==> map@[id] < i && nodes@[map@[id] as int].osm_id == id
                        && forall|j: int| map@[id] < j < i ==> (#[trigger] nodes@[j]).osm_id != id,
                forall|j: int| 0 <= j < i ==> map@.contains_key((#[trigger] nodes@[j]).osm_id),
            decreases nodes@.len() - i,
        {
            map.insert(nodes[i].osm_id, i);
            i += 1;
        }
        let n: usize = edges.len();
        let mut k: usize = 0;
        while k < n
            invariant
                k <= n,
                n == edges@.len(),
                n == old(edges)@.len(),
                known(nodes@, old(edges)@),
                forall|a: TuplePoint, b: TuplePoint| dist.requires((a, b)),
                forall|id: usize| #[trigger]
                    map@.contains_key(id) ==> is_index_of(nodes@, id, map@[id]),
                forall|j: int| 0 <= j < nodes@.len() ==> map@.contains_key(
                    (#[trigger] nodes@[j]).osm_id,
                ),
                forall|j: int| k <= j < n ==> edges@[j] == old(edges)@[j],
                resolves(nodes@, dist, old(edges)@.take(k as int), edges@.take(k as int)),
            decreases n - k,
        {
            let e = edges[k];
            proof {
                assert(has_id(nodes@, old(edges)@[k as int].source));
                assert(has_id(nodes@, old(edges)@[k as int].dest));
            }
            let source_id: usize = match map.get(&e.source) {
                Some(index) => *index,
                None => vstd::pervasive::unreached(),
            };
            let dest_id: usize = match map.get(&e.dest) {
                Some(index) => *index,
                None => vstd::pervasive::unreached(),
            };
            let source = nodes[source_id];
            let dest = nodes[dest_id];
            let length: u64 = dist((source.lat, source.long), (dest.lat, dest.long));
            let ghost before = edges@;
            edges[k] = EdgeInfo {
                source: source_id,
                dest: dest_id,
                length,
                speed: e.speed,
                for_cars: e.for_cars,
                for_pedestrians: e.for_pedestrians,
            };
            proof {
                let input = old(edges)@.take(k + 1);
                let output = edges@.take(k + 1);
                assert forall|i: int| 0 <= i < input.len() implies {
                    &&& is_index_of(nodes@, input[i].source, (#[trigger] output[i]).source)
                    &&& is_index_of(nodes@, input[i].dest, output[i].dest)
                    &&& dist.ensures(
                        (
                            place(nodes@[output[i].source as int]),
                            place(nodes@[output[i].dest as int]),
                        ),
                        output[i].length,
                    )
                    &&& output[i].speed == input[i].speed
                    &&& output[i].for_cars == input[i].for_cars
                    &&& output[i].for_pedestrians == input[i].for_pedestrians
                } by {
                    if i < k {
                        assert(output[i] == before.take(k as int)[i]);
                        assert(input[i] == old(edges)@.take(k as int)[i]);
                    }
                }
            }
            k += 1;
        }
        proof {
            assert(edges@.take(n as int) =~= edges@);
            assert(old(edges)@.take(n as int) =~= old(edges)@);
        }
    }

    /// The coverage of every edge by the towers near it. The towers are
    /// sorted by the cells of the grid that is laid over them.
    pub fn calculate_coverage<
        F: Fn(TuplePoint, TuplePoint) -> u64,
        G: Fn(TuplePoint, i64) -> TuplePoint,
    >(
        nodes: &[NodeInfo],
        edges: &mut Vec<EdgeInfo>,
        towers: &mut Vec<Tower>,
        dist: &F,
        project: &G,
    ) -> (coverage: Coverage)
        requires
            within(old(edges)@, nodes@.len() as int),
            forall|a: TuplePoint, b: TuplePoint| dist.requires((a, b)),
            forall|point: TuplePoint, lat0: i64| project.requires((point, lat0)),
        ensures
            final(edges)@ == old(edges)@,
            coverage.wf(),
            coverage.size() == old(edges)@.len(),
            exists|order: Seq<usize>| #[trigger]
                covers(order, 0, old(towers)@.len() as int) && final(towers)@ == permuted(
                    old(towers)@,
                    order,
                ),
            exists|grid: Grid|
                {
                    &&& grid.side_length == GRID_SIDE
                    &&& #[trigger] grid.indexes(final(towers)@)
                    &&& covers_all(
                        &coverage,
                        old(edges)@.len() as int,
                        &grid,
                        final(towers)@,
                        nodes@,
                        old(edges)@,
                        dist,
                        project,
                    )
                },
    {
        let (coverage, Ghost(grid)) = Graph::measure_coverage(nodes, edges, towers, dist, project);
        proof {
            assert(grid.indexes(towers@));
        }
        coverage
    }

    /// The coverage of every edge, and the grid over the towers that was
    /// used to find the towers near an edge.
    fn measure_coverage<
        F: Fn(TuplePoint, TuplePoint) -> u64,
        G: Fn(TuplePoint, i64) -> TuplePoint,
    >(
        nodes: &[NodeInfo],
        edges: &Vec<EdgeInfo>,
        towers: &mut Vec<Tower>,
        dist: &F,
        project: &G,
    ) -> (r: (Coverage, Ghost<Grid>))
        requires
            within(edges@, nodes@.len() as int),
            forall|a: TuplePoint, b: TuplePoint| dist.requires((a, b)),
            forall|point: TuplePoint, lat0: i64| project.requires((point, lat0)),
        ensures
            r.0.wf(),
            r.0.size() == edges@.len(),
            exists|order: Seq<usize>| #[trigger]
                covers(order, 0, old(towers)@.len() as int) && final(towers)@ == permuted(
                    old(towers)@,
                    order,
                ),
            r.1@.side_length == GRID_SIDE,
            r.1@.indexes(final(towers)@),
            covers_all(
                &r.0,
                edges@.len() as int,
                &r.1@,
                final(towers)@,
                nodes@,
                edges@,
                dist,
                project,
            ),
    {
        let ghost towers_in = towers@;
        let grid = Grid::new(towers, GRID_SIDE);
        proof {
            let order = choose|order: Seq<usize>| #[trigger]
                is_stable_order(grid.keys(towers_in), order) && towers@ == permuted(
                    towers_in,
                    order,
                );
            assert(covers(order, 0, towers_in.len() as int));
        }
        let mut coverage = Coverage::new(edges.len());
        let count: usize = edges.len();
        let mut n: usize = 0;
        while n < count
            invariant
                n <= count,
                count == edges@.len(),
                within(edges@, nodes@.len() as int),
                forall|a: TuplePoint, b: TuplePoint| dist.requires((a, b)),
                forall|point: TuplePoint, lat0: i64| project.requires((point, lat0)),
                grid.indexes(towers@),
                coverage.wf(),
                coverage.size() == count,
                covers_all(&coverage, n as int, &grid, towers@, nodes@, edges@, dist, project),
            decreases count - n,
        {
            let e = edges[n];
            let source = nodes[e.source];
            let dest = nodes[e.dest];
            let radius: u128 = COVERAGE_RADIUS + e.length as u128;
            let parts: Vec<&[Tower]> = match grid.adjacent_towers(
                &source,
                radius,
                towers.as_slice(),
                dist,
            ) {
                Ok(parts) => parts,
                Err(_) => Vec::new(),
            };
            proof {
                assert(near(&grid, dist, towers@, source, radius, parts@));
            }
            let ghost looked = parts@;
            let (tele, voda, o2) = edge_coverage(&source, &dest, parts, project);
            let ghost before = coverage;
            coverage.set(&Provider::Telekom, n, tele);
            coverage.set(&Provider::Vodafone, n, voda);
            coverage.set(&Provider::O2, n, o2);
            proof {
                assert(covers_edge(&grid, towers@, nodes@, edges@[n as int], dist, project, (tele, voda, o2)));
                assert forall|m: int| 0 <= m < n + 1 implies covers_edge(
                    &grid,
                    towers@,
                    nodes@,
                    #[trigger] edges@[m],
                    dist,
                    project,
                    (
                        coverage.values(Provider::Telekom)[m],
                        coverage.values(Provider::Vodafone)[m],
                        coverage.values(Provider::O2)[m],
                    ),
                ) by {
                    if m < n {
                        assert(coverage.values(Provider::Telekom)[m] == before.values(
                            Provider::Telekom,
                        )[m]);
                        assert(coverage.values(Provider::Vodafone)[m] == before.values(
                            Provider::Vodafone,
                        )[m]);
                        assert(coverage.values(Provider::O2)[m] == before.values(Provider::O2)[m]);
                    }
                }
            }
            n += 1;
        }
        (coverage, Ghost(grid))
    }

    /// The node nearest to the point, as `dist` measures it; `None` if the
    /// point lies outside the bounding box of the nodes.
    pub fn next_node_to<F: Fn(TuplePoint, TuplePoint) -> u64>(
        &self,
        lat: i64,
        long: i64,
        dist: &F,
    ) -> (r: Option<NodeInfoWithIndex>)
        requires
            self.wf(),
            forall|a: TuplePoint, b: TuplePoint| dist.requires((a, b)),
        ensures
            match r {
                Some(found) => {
                    &&& self.grid.b_box.contains(lat, long)
                    &&& found.0 < self.size()
                    &&& found.1 == self.node_info@[found.0 as int]
                    &&& self.grid.is_nearest(dist, lat, long, self.node_info@, found.0 as int)
                },
                None => !self.grid.b_box.contains(lat, long),
            },
    {
        match self.grid.nearest_neighbor(lat, long, self.node_info.as_slice(), dist) {
            Ok(found) => Some(found),
            Err(_) => None,
        }
    }

    /// In a sound graph there is one offset for every node and one more,
    /// the first is zero, none is less than the one before it, the last is
    /// the number of half-edges, and every provider has a fraction for every
    /// half-edge.
    pub proof fn lemma_offsets_hold(&self)
        requires
            self.wf(),
        ensures
            self.node_offsets@.len() == self.size() + 1,
            self.node_offsets@[0].0 == 0,
            forall|i: int|
                0 <= i < self.size() ==> (#[trigger] self.node_offsets@[i]).0
                    <= self.node_offsets@[i + 1].0,
            self.node_offsets@[self.size()].0 == self.edges@.len(),
            forall|p: Provider| (#[trigger] self.coverage.values(p)).len() == self.edges@.len(),
    {
    }

    /// Whether the graph is sound.
    pub fn is_valid(&self) -> (r: bool)
        ensures
            r == self.wf(),
    {
        let n: usize = self.node_info.len();
        let m: usize = self.node_offsets.len();
        if n == usize::MAX || m != n + 1 {
            return false;
        }
        if self.node_offsets[0].0 != 0 || self.node_offsets[n].0 != self.edges.len() {
            return false;
        }
        let mut offsets: Vec<usize> = Vec::new();
        let mut i: usize = 0;
        while i <= n
            invariant
                i <= n + 1,
                n < usize::MAX,
                n + 1 == self.node_offsets@.len(),
                offsets@.len() == i,
                forall|k: int| 0 <= k < i ==> (#[trigger] offsets@[k]) == self.node_offsets@[k].0,
            decreases n + 1 - i,
        {
            offsets.push(self.node_offsets[i].0);
            i += 1;
        }
        if !never_decreases(&offsets) {
            proof {
                if self.wf() {
                    assert forall|a: int, b: int| 0 <= a <= b < offsets@.len() implies offsets@[a]
                        <= offsets@[b] by {
                        assert(self.node_offsets@[a].0 <= self.node_offsets@[b].0);
                    }
                }
            }
            return false;
        }
        proof {
            assert forall|a: int, b: int| 0 <= a <= b <= self.size() implies self.node_offsets@[a].0
                <= self.node_offsets@[b].0 by {
                assert(offsets@[a] <= offsets@[b]);
            }
        }
        let mut e: usize = 0;
        while e < self.edges.len()
            invariant
                e <= self.edges@.len(),
                n == self.size(),
                forall|k: int| 0 <= k < e ==> (#[trigger] self.edges@[k]).endpoint < n,
            decreases self.edges@.len() - e,
        {
            if self.edges[e].endpoint >= n {
                return false;
            }
            e += 1;
        }
        self.coverage.is_valid() && self.coverage.len() == self.edges.len()
            && self.grid.is_index_of(self.node_info.as_slice())
    }

    /// Whether the external ids of all the edges are ids of nodes.
    pub fn edges_known(nodes: &[NodeInfo], edges: &[EdgeInfo]) -> (r: bool)
        ensures
            r == known(nodes@, edges@),
    {
        broadcast use vstd::std_specs::hash::group_hash_axioms;

        let mut map: HashMap<usize, usize> = HashMap::new();
        let mut i: usize = 0;
        while i < nodes.len()
            invariant
                i <= nodes@.len(),
                forall|id: usize| #[trigger]
                    map@.contains_key(id) ==> map@[id] < i && nodes@[map@[id] as int].osm_id == id,
                forall|j: int| 0 <= j < i ==> map@.contains_key((#[trigger] nodes@[j]).osm_id),
            decreases nodes@.len() - i,
        {
            map.insert(nodes[i].osm_id, i);
            i += 1;
        }
        let mut k: usize = 0;
        while k < edges.len()
            invariant
                k <= edges@.len(),
                forall|id: usize| #[trigger]
                    map@.contains_key(id) ==> map@[id] < nodes@.len() && nodes@[map@[id] as int].osm_id
                        == id,
                forall|j: int| 0 <= j < nodes@.len() ==> map@.contains_key(
                    (#[trigger] nodes@[j]).osm_id,
                ),
                forall|j: int|
                    0 <= j < k ==> has_id(nodes@, (#[trigger] edges@[j]).source) && has_id(
                        nodes@,
                        edges@[j].dest,
                    ),
            decreases edges@.len() - k,
        {
            let e = edges[k];
            if map.get(&e.source).is_none() || map.get(&e.dest).is_none() {
                proof {
                    if has_id(nodes@, e.source) && has_id(nodes@, e.dest) {
                        let a = choose|j: int|
                            0 <= j < nodes@.len() && (#[trigger] nodes@[j]).osm_id == e.source;
                        let b = choose|j: int|
                            0 <= j < nodes@.len() && (#[trigger] nodes@[j]).osm_id == e.dest;
                        assert(map@.contains_key(nodes@[a].osm_id));
                        assert(map@.contains_key(nodes@[b].osm_id));
                    }
                }
                return false;
            }
            proof {
                assert(map@.contains_key(e.source));
                assert(map@.contains_key(e.dest));
                assert(nodes@[map@[e.source] as int].osm_id == e.source);
                assert(nodes@[map@[e.dest] as int].osm_id == e.dest);
            }
            k += 1;
        }
        true
    }

    /// The number of nodes.
    pub fn node_count(&self) -> (n: usize)
        ensures
            n == self.size(),
    {
        self.node_info.len()
    }

    /// Returns an iterator over HalfEdges going out of node with ID id.
    /// The iterator yields tuples in the form (EdgeId, HalfEdge)
    pub fn outgoing_edges_for(&self, id: NodeId) -> (iter: EdgeIter<'_>)
        requires
            self.wf(),
            id < self.size(),
        ensures
            iter.wf(),
            iter.edges() == self.edges@,
            iter.start() == self.node_offsets@[id as int].0,
            iter.stop() == self.node_offsets@[id + 1].0,
            iter.position() == iter.start(),
    {
        assert(id + 1 < self.node_offsets.len());
        EdgeIter {
            start: self.node_offsets[id].0,
            stop: self.node_offsets[id + 1].0,
            position: self.node_offsets[id].0,
            edges: &self.edges,
        }
    }
}

/// The edges that leave one node, each with its index in the edge array.
#[derive(Debug)]
pub struct EdgeIter<'a> {
    start: usize,
    stop: usize,
    position: usize,
    edges: &'a Vec<HalfEdge>,
}

impl<'a> EdgeIter<'a> {
    /// The edge array that the iterator walks.
    pub closed spec fn edges(&self) -> Seq<HalfEdge> {
        self.edges@
    }

    /// The index of the node's first edge.
    pub closed spec fn start(&self) -> usize {
        self.start
    }

    /// The index after the node's last edge.
    pub closed spec fn stop(&self) -> usize {
        self.stop
    }

    /// The index of the edge that is yielded next.
    pub closed spec fn position(&self) -> usize {
        self.position
    }

    /// The range lies inside the edge array and the position inside the range.
    pub open spec fn wf(&self) -> bool {
        self.start() <= self.position() <= self.stop() <= self.edges().len()
    }

    /// Yields the next edge with its index, or `None` after the last one.
    pub fn next(&mut self) -> (r: Option<(usize, &'a HalfEdge)>)
        requires
            old(self).wf(),
        ensures
            final(self).wf(),
            final(self).edges() == old(self).edges(),
            final(self).start() == old(self).start(),
            final(self).stop() == old(self).stop(),
            match r {
                Some((index, edge)) => {
                    &&& index == old(self).position()
                    &&& index < old(self).stop()
                    &&& *edge == old(self).edges()[index as int]
                    &&& final(self).position() == index + 1
                },
                None => {
                    &&& old(self).position() == old(self).stop()
                    &&& final(self).position() == old(self).position()
                },
            },
    {
        if self.position >= self.stop {
            None
        } else {
            let item = (self.position, &self.edges[self.position]);
            self.position += 1;
            Some(item)
        }
    }

    /// The number of edges that leave the node.
    pub fn len(&self) -> (n: usize)
        requires
            self.wf(),
        ensures
            n == self.stop() - self.start(),
    {
        self.stop - self.start
    }
}

/// Rearranging the nodes keeps their external ids.
proof fn lemma_id_kept(nodes: Seq<NodeInfo>, order: Seq<usize>, id: usize)
    requires
        covers(order, 0, nodes.len() as int),
        nodes.len() <= usize::MAX,
        has_id(nodes, id),
    ensures
        has_id(permuted(nodes, order), id),
{
    let j = choose|j: int| 0 <= j < nodes.len() && (#[trigger] nodes[j]).osm_id == id;
    assert(order.contains(j as usize));
    let k = choose|k: int| 0 <= k < order.len() && order[k] == j as usize;
    assert(permuted(nodes, order)[k].osm_id == id);
}

} // verus!
