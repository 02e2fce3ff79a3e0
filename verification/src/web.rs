//! Reading the queries of the web interface, and the selections of edges
//! and towers that it shows.

use vstd::prelude::*;
use std::str::FromStr;
use crate::geom::UNIT;
use crate::graph::{Graph, Movement, NodeId, RoutingGoal};
use crate::grid::BoundingBox;
use crate::pbf::{number_of, parse_number, same};
use crate::towers::{Provider, Tower};

verus! {

/// An edge counts as badly covered if no more than this much of it is
/// covered: one half, in units of `1 / UNIT`.
pub const LOW_COVERAGE: u64 = 536_870_912;

/// Why a query could not be read.
#[derive(Debug)]
pub enum ParseQueryErr {
    ParseErr,
    ItemNotPresen(&'static str),
}

/// A query for a route.
pub struct DijkQuery {
    pub s: NodeId,
    pub t: NodeId,
    pub goal: RoutingGoal,
    pub movement: Movement,
    pub provider: Option<Provider>,
}

/// The routing goal that the text names.
pub open spec fn goal_of(s: Seq<char>) -> Option<RoutingGoal> {
    if s == "length"@ {
        Some(RoutingGoal::Length)
    } else if s == "speed"@ {
        Some(RoutingGoal::Speed)
    } else {
        None
    }
}

/// The kind of movement that the text names.
pub open spec fn movement_of(s: Seq<char>) -> Option<Movement> {
    if s == "car"@ {
        Some(Movement::Car)
    } else if s == "foot"@ {
        Some(Movement::Foot)
    } else {
        None
    }
}

/// The provider that the text names.
pub open spec fn provider_of(s: Seq<char>) -> Option<Provider> {
    if s == "telekom"@ {
        Some(Provider::Telekom)
    } else if s == "vodafone"@ {
        Some(Provider::Vodafone)
    } else if s == "o2"@ {
        Some(Provider::O2)
    } else {
        None
    }
}

/// Reads a routing goal: `length` or `speed`.
pub fn goal_from_str(string: &str) -> (r: Result<RoutingGoal, ParseQueryErr>)
    ensures
        match r {
            Ok(goal) => goal_of(string@) == Some(goal),
            Err(e) => goal_of(string@).is_none() && e is ParseErr,
        },
{
    if same(string, "length") {
        Ok(RoutingGoal::Length)
    } else if same(string, "speed") {
        Ok(RoutingGoal::Speed)
    } else {
        Err(ParseQueryErr::ParseErr)
    }
}

/// Reads a kind of movement: `car` or `foot`.
pub fn movement_from_str(string: &str) -> (r: Result<Movement, ParseQueryErr>)
    ensures
        match r {
            Ok(movement) => movement_of(string@) == Some(movement),
            Err(e) => movement_of(string@).is_none() && e is ParseErr,
        },
{
    if same(string, "car") {
        Ok(Movement::Car)
    } else if same(string, "foot") {
        Ok(Movement::Foot)
    } else {
        Err(ParseQueryErr::ParseErr)
    }
}

/// Reads a provider: `telekom`, `vodafone` or `o2`.
pub fn provider_from_str(string: &str) -> (r: Result<Provider, ParseQueryErr>)
    ensures
        match r {
            Ok(provider) => provider_of(string@) == Some(provider),
            Err(e) => provider_of(string@).is_none() && e is ParseErr,
        },
{
    if same(string, "telekom") {
        Ok(Provider::Telekom)
    } else if same(string, "vodafone") {
        Ok(Provider::Vodafone)
    } else if same(string, "o2") {
        Ok(Provider::O2)
    } else {
        Err(ParseQueryErr::ParseErr)
    }
}

impl FromStr for RoutingGoal {
    type Err = ParseQueryErr;

    /// Reads the goal that the text names; any other text is a
    /// `ParseErr`.
    fn from_str(string: &str) -> (r: Result<Self, Self::Err>)
        ensures
            match r {
                Ok(goal) => goal_of(string@) == Some(goal),
                Err(e) => goal_of(string@).is_none() && e is ParseErr,
            },
    {
        goal_from_str(string)
    }
}

impl FromStr for Movement {
    type Err = ParseQueryErr;

    /// Reads the movement that the text names; any other text is a
    /// `ParseErr`.
    fn from_str(string: &str) -> (r: Result<Self, Self::Err>)
        ensures
            match r {
                Ok(movement) => movement_of(string@) == Some(movement),
                Err(e) => movement_of(string@).is_none() && e is ParseErr,
            },
    {
        movement_from_str(string)
    }
}

impl FromStr for Provider {
    type Err = ParseQueryErr;

    /// Reads the provider that the text names; any other text is a
    /// `ParseErr`.
    fn from_str(string: &str) -> (r: Result<Self, Self::Err>)
        ensures
            match r {
                Ok(provider) => provider_of(string@) == Some(provider),
                Err(e) => provider_of(string@).is_none() && e is ParseErr,
            },
    {
        provider_from_str(string)
    }
}

/// The query before any item is read: no source and no target, the
/// shortest route by car, no provider.
pub open spec fn blank() -> DijkQuery {
    DijkQuery {
        s: usize::MAX,
        t: usize::MAX,
        goal: RoutingGoal::Length,
        movement: Movement::Car,
        provider: None,
    }
}

/// The query after one more item, or `None` if the value of the item
/// cannot be read. Items with other keys than `s`, `t`, `goal`, `move` and
/// `provider` change nothing.
pub open spec fn with_item(q: DijkQuery, key: Seq<char>, value: Seq<char>) -> Option<DijkQuery> {
    if key == "s"@ {
        match number_of(value) {
            Some(s) => Some(DijkQuery { s, ..q }),
            None => None,
        }
    } else if key == "t"@ {
        match number_of(value) {
            Some(t) => Some(DijkQuery { t, ..q }),
            None => None,
        }
    } else if key == "goal"@ {
        match goal_of(value) {
            Some(goal) => Some(DijkQuery { goal, ..q }),
            None => None,
        }
    } else if key == "move"@ {
        match movement_of(value) {
            Some(movement) => Some(DijkQuery { movement, ..q }),
            None => None,
        }
    } else if key == "provider"@ {
        match provider_of(value) {
            Some(provider) => Some(DijkQuery { provider: Some(provider), ..q }),
            None => None,
        }
    } else {
        Some(q)
    }
}

/// The query after all the items, or `None` if one of them cannot be read.
pub open spec fn with_items(items: Seq<(String, String)>) -> Option<DijkQuery>
    decreases items.len(),
{
    if items.len() == 0 {
        Some(blank())
    } else {
        match with_items(items.drop_last()) {
            Some(q) => with_item(q, items.last().0@, items.last().1@),
            None => None,
        }
    }
}

/// Reads a query for a route from the items of a form, each a key with its
/// value. The source `s` and the target `t` must be there.
pub fn parse_route_query(items: &Vec<(String, String)>) -> (r: Result<DijkQuery, ParseQueryErr>)
    ensures
        match r {
            Ok(q) => with_items(items@) == Some(q) && q.s != usize::MAX && q.t != usize::MAX,
            Err(ParseQueryErr::ParseErr) => with_items(items@).is_none(),
            Err(ParseQueryErr::ItemNotPresen(what)) => {
                &&& with_items(items@).is_some()
                &&& if with_items(items@).unwrap().s == usize::MAX {
                    what@ == "No parameter \"s\" present"@
                } else {
                    with_items(items@).unwrap().t == usize::MAX && what@
                        == "No parameter \"t\" present"@
                }
            },
        },
{
    let mut s: NodeId = usize::MAX;
    let mut t: NodeId = usize::MAX;
    let mut goal = RoutingGoal::Length;
    let mut movement = Movement::Car;
    let mut provider: Option<Provider> = None;
    let mut i: usize = 0;
    proof {
        assert(items@.take(0) =~= Seq::<(String, String)>::empty());
    }
    while i < items.len()
        invariant
            i <= items@.len(),
            with_items(items@.take(i as int)) == Some(DijkQuery { s, t, goal, movement, provider }),
        decreases items@.len() - i,
    {
        let key: &str = items[i].0.as_str();
        let value: &str = items[i].1.as_str();
        proof {
            assert(items@.take(i + 1).drop_last() =~= items@.take(i as int));
            assert(items@.take(i + 1).last() == items@[i as int]);
        }
        let ghost before = DijkQuery { s, t, goal, movement, provider };
        let mut failed: bool = false;
        if same(key, "s") {
            match parse_number(value) {
                Some(n) => {
                    s = n;
                },
                None => {
                    failed = true;
                },
            }
        } else if same(key, "t") {
            match parse_number(value) {
                Some(n) => {
                    t = n;
                },
                None => {
                    failed = true;
                },
            }
        } else if same(key, "goal") {
            match goal_from_str(value) {
                Ok(g) => {
                    goal = g;
                },
                Err(_) => {
                    failed = true;
                },
            }
        } else if same(key, "move") {
            match movement_from_str(value) {
                Ok(m) => {
                    movement = m;
                },
                Err(_) => {
                    failed = true;
                },
            }
        } else if same(key, "provider") {
            match provider_from_str(value) {
                Ok(p) => {
                    provider = Some(p);
                },
                Err(_) => {
                    failed = true;
                },
            }
        }
        if failed {
            proof {
                assert(with_item(before, key@, value@).is_none());
                lemma_failure_stays(items@, i + 1);
            }
            return Err(ParseQueryErr::ParseErr);
        }
        i += 1;
    }
    proof {
        assert(items@.take(items@.len() as int) =~= items@);
    }
    if s == usize::MAX {
        return Err(ParseQueryErr::ItemNotPresen("No parameter \"s\" present"));
    }
    if t == usize::MAX {
        return Err(ParseQueryErr::ItemNotPresen("No parameter \"t\" present"));
    }
    Ok(DijkQuery { s, t, goal, movement, provider })
}

/// Once an item cannot be read, the query cannot be read.
proof fn lemma_failure_stays(items: Seq<(String, String)>, k: int)
    requires
        0 <= k <= items.len(),
        with_items(items.take(k)).is_none(),
    ensures
        with_items(items).is_none(),
    decreases items.len() - k,
{
    if k < items.len() {
        assert(items.take(k + 1).drop_last() =~= items.take(k));
        lemma_failure_stays(items, k + 1);
    } else {
        assert(items.take(k) =~= items);
    }
}

/// The badly covered edges among the half-edges of node `node` below index
/// `upto`: each as the pair of `node` and its endpoint.
pub open spec fn low_edges_of(g: &Graph, provider: Provider, node: int, upto: int) -> Seq<
    (usize, usize),
>
    decreases upto - g.node_offsets@[node].0,
{
    if upto <= g.node_offsets@[node].0 {
        Seq::empty()
    } else if g.coverage.values(provider)[upto - 1] <= LOW_COVERAGE {
        low_edges_of(g, provider, node, upto - 1).push(
            (node as usize, g.edges@[upto - 1].endpoint),
        )
    } else {
        low_edges_of(g, provider, node, upto - 1)
    }
}

/// The badly covered edges that leave one of the first `upto` nodes from
/// inside the box.
pub open spec fn low_edges(g: &Graph, bbox: BoundingBox, provider: Provider, upto: int) -> Seq<
    (usize, usize),
>
    decreases upto,
{
    if upto <= 0 {
        Seq::empty()
    } else if bbox.contains(g.node_info@[upto - 1].lat, g.node_info@[upto - 1].long) {
        low_edges(g, bbox, provider, upto - 1) + low_edges_of(
            g,
            provider,
            upto - 1,
            g.node_offsets@[upto].0 as int,
        )
    } else {
        low_edges(g, bbox, provider, upto - 1)
    }
}

/// The edges of which `provider` covers no more than half and which leave
/// a node inside the box, each as the pair of its two nodes, in the order
/// of the edge array.
pub fn low_coverage_edges(graph: &Graph, bbox: &BoundingBox, provider: Provider) -> (r: Vec<
    (usize, usize),
>)
    requires
        graph.wf(),
    ensures
        r@ == low_edges(graph, *bbox, provider, graph.size()),
{
    let coverage: &Vec<u64> = match graph.coverage.get_all(Some(provider)) {
        Some(coverage) => coverage,
        None => vstd::pervasive::unreached(),
    };
    let mut edges: Vec<(usize, usize)> = Vec::new();
    let n: usize = graph.node_count();
    let mut n_i: usize = 0;
    while n_i < n
        invariant
            graph.wf(),
            n == graph.size(),
            n_i <= n,
            coverage@ == graph.coverage.values(provider),
            edges@ == low_edges(graph, *bbox, provider, n_i as int),
        decreases n - n_i,
    {
        let node = graph.node_info[n_i];
        if bbox.contains_point(node.lat, node.long) {
            let ghost base = edges@;
            let mut iter = graph.outgoing_edges_for(n_i);
            proof {
                assert(base + low_edges_of(graph, provider, n_i as int, iter.position() as int)
                    =~= base);
            }
            loop
                invariant_except_break
                    iter.wf(),
                    iter.edges() == graph.edges@,
                    iter.start() == graph.node_offsets@[n_i as int].0,
                    iter.stop() == graph.node_offsets@[n_i + 1].0,
                    edges@ == base + low_edges_of(
                        graph,
                        provider,
                        n_i as int,
                        iter.position() as int,
                    ),
                invariant
                    graph.wf(),
                    n_i < n,
                    n == graph.size(),
                    coverage@ == graph.coverage.values(provider),
                ensures
                    edges@ == base + low_edges_of(
                        graph,
                        provider,
                        n_i as int,
                        graph.node_offsets@[n_i + 1].0 as int,
                    ),
                decreases iter.stop() - iter.position(),
            {
                let (e_i, e) = match iter.next() {
                    Some(item) => item,
                    None => {
                        break ;
                    },
                };
                proof {
                    assert(graph.coverage.size() == graph.edges@.len());
                    assert(graph.coverage.values(provider).len() == graph.coverage.size());
                }
                let cov: u64 = coverage[e_i];
                let ghost before = edges@;
                if cov <= LOW_COVERAGE {
                    edges.push((n_i, e.endpoint));
                }
                proof {
                    let sofar = low_edges_of(graph, provider, n_i as int, e_i as int);
                    if cov <= LOW_COVERAGE {
                        assert(edges@ =~= base + sofar.push((n_i, e.endpoint)));
                    }
                }
            }
        }
        n_i += 1;
    }
    edges
}

/// The towers of `provider` inside the box, in their order.
pub open spec fn towers_in(towers: Seq<Tower>, bbox: BoundingBox, provider: Provider) -> Seq<Tower>
    decreases towers.len(),
{
    if towers.len() == 0 {
        Seq::empty()
    } else if towers.last().net == provider && bbox.contains(towers.last().lat, towers.last().lon) {
        towers_in(towers.drop_last(), bbox, provider).push(towers.last())
    } else {
        towers_in(towers.drop_last(), bbox, provider)
    }
}

/// The towers of `provider` that stand inside the box.
pub fn towers_within(towers: &[Tower], bbox: &BoundingBox, provider: Provider) -> (r: Vec<Tower>)
    ensures
        r@ == towers_in(towers@, *bbox, provider),
{
    let mut found: Vec<Tower> = Vec::new();
    let mut i: usize = 0;
    proof {
        assert(towers@.take(0) =~= Seq::<Tower>::empty());
    }
    while i < towers.len()
        invariant
            i <= towers@.len(),
            found@ == towers_in(towers@.take(i as int), *bbox, provider),
        decreases towers@.len() - i,
    {
        let t = towers[i];
        proof {
            assert(towers@.take(i + 1).drop_last() =~= towers@.take(i as int));
            assert(towers@.take(i + 1).last() == t);
        }
        if t.net == provider && bbox.contains_point(t.lat, t.lon) {
            found.push(t);
        }
        i += 1;
    }
    proof {
        assert(towers@.take(towers@.len() as int) =~= towers@);
    }
    found
}

} // verus!
