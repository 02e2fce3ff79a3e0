//! Shortest routes by Dijkstra's algorithm.

use vstd::prelude::*;
use vstd::multiset::*;
use vstd::set_lib::*;
use std::collections::VecDeque;
use super::heap::{comes_before, least, CostHeap, NodeCost};
use super::{Graph, NodeId};
use crate::geom::UNIT;
use crate::towers::Provider;

verus! {

/// What a route is to make small.
#[derive(Debug, Clone, Copy, PartialEq, Eq, Structural)]
pub enum RoutingGoal {
    Length,
    Speed,
}

/// How the traveller moves.
#[derive(Debug, Clone, Copy, PartialEq, Eq, Structural)]
pub enum Movement {
    Car,
    Foot,
}

/// The cost that stands for "not reached".
pub const UNREACHED: u128 = u128::MAX;

/// `(1 + eps) / eps` for `eps = 2^-52`, the machine epsilon of a double.
pub const COST_NUMERATOR: u128 = 4_503_599_627_370_497;

/// `3 / (UNIT * eps)`: what one unit of coverage adds to the denominator of
/// the scaling factor, once numerator and denominator are divided by `eps`.
pub const COVERAGE_WEIGHT: u128 = 12_582_912;

/// The cost `raw` scaled by `(1 + eps) / (3 * c + eps)`, where `c` is the
/// covered fraction `coverage / UNIT` of the edge; unscaled without coverage.
pub open spec fn scaled(raw: int, coverage: Option<int>) -> int {
    match coverage {
        Some(c) => raw * (COST_NUMERATOR as int) / (c * (COVERAGE_WEIGHT as int) + 1),
        None => raw,
    }
}

/// The goal that is pursued: on foot only the length counts.
pub open spec fn effective_goal(goal: RoutingGoal, movement: Movement) -> RoutingGoal {
    match movement {
        Movement::Car => goal,
        Movement::Foot => RoutingGoal::Length,
    }
}

impl Graph {
    /// What half-edge `e` costs under `goal` when the coverage of `provider`
    /// is preferred.
    pub open spec fn edge_cost(&self, e: int, goal: RoutingGoal, provider: Option<Provider>) -> int {
        scaled(
            self.edges@[e].cost(goal) as int,
            match provider {
                Some(p) => Some(self.coverage.values(p)[e] as int),
                None => None,
            },
        )
    }

    /// The total cost of the half-edges `edges`.
    pub open spec fn total_cost(
        &self,
        edges: Seq<usize>,
        goal: RoutingGoal,
        provider: Option<Provider>,
    ) -> int
        decreases edges.len(),
    {
        if edges.len() == 0 {
            0
        } else {
            self.total_cost(edges.drop_last(), goal, provider) + self.edge_cost(
                edges.last() as int,
                goal,
                provider,
            )
        }
    }

    /// The total length of the half-edges `edges`.
    pub open spec fn total_length(&self, edges: Seq<usize>) -> int
        decreases edges.len(),
    {
        if edges.len() == 0 {
            0
        } else {
            self.total_length(edges.drop_last()) + self.edges@[edges.last() as int].length
        }
    }

    /// The total time that `movement` takes along the half-edges `edges`.
    pub open spec fn total_time(&self, edges: Seq<usize>, movement: Movement) -> int
        decreases edges.len(),
    {
        if edges.len() == 0 {
            0
        } else {
            self.total_time(edges.drop_last(), movement) + self.edges@[edges.last() as int].duration(
                movement,
            )
        }
    }

    /// A routing engine for this graph.
    pub fn dijkstra(&self) -> (d: Dijkstra<'_>)
        requires
            self.wf(),
        ensures
            d.wf(),
            d.graph() == *self,
    {
        let n = self.node_count();
        let mut dist: Vec<u128> = Vec::new();
        let mut i: usize = 0;
        while i < n
            invariant
                i <= n,
                dist@.len() == i,
                forall|j: int| 0 <= j < i ==> dist@[j] == UNREACHED,
            decreases n - i,
        {
            dist.push(UNREACHED);
            i += 1;
        }
        Dijkstra { dist, touched: Vec::new(), graph: self }
    }
}

/// A walk through the graph: the nodes it visits and the half-edges it takes
/// from each to the next.
pub struct Walk {
    pub nodes: Seq<usize>,
    pub edges: Seq<usize>,
}

impl Walk {
    /// The walk that stays at `v`.
    pub open spec fn start(v: usize) -> Walk {
        Walk { nodes: seq![v], edges: Seq::empty() }
    }

    /// The walk extended by half-edge `e` to node `v`.
    pub open spec fn step(self, e: usize, v: usize) -> Walk {
        Walk { nodes: self.nodes.push(v), edges: self.edges.push(e) }
    }

    /// The walk without its last step.
    pub open spec fn back(self) -> Walk {
        Walk { nodes: self.nodes.drop_last(), edges: self.edges.drop_last() }
    }

    /// Each half-edge leads from its node to the next and is open to
    /// `movement`.
    pub open spec fn valid(self, g: &Graph, movement: Movement) -> bool {
        &&& self.nodes.len() == self.edges.len() + 1
        &&& self.nodes[0] < g.size()
        &&& forall|i: int|
            0 <= i < self.edges.len() ==> g.has_edge(
                self.nodes[i] as int,
                #[trigger] self.edges[i] as int,
                self.nodes[i + 1] as int,
            ) && !g.edges@[self.edges[i] as int].closed_for(movement)
    }

    /// The walk is valid and leads from `from` to `to`.
    pub open spec fn leads(self, g: &Graph, movement: Movement, from: usize, to: usize) -> bool {
        &&& self.valid(g, movement)
        &&& self.nodes[0] == from
        &&& self.nodes.last() == to
    }
}

/// A route through the graph with its length and the time it takes.
pub struct Route {
    pub distance: u128,
    pub travel_time: u128,
    pub node_seq: NodeSequence,
}

/// The nodes of a route, from its source to its destination.
pub type NodeSequence = VecDeque<usize>;

/// What a query asks for, but for its destination: where the route
/// starts, the goal that is pursued, the kind of movement and the provider.
pub struct Query {
    pub source: usize,
    pub goal: RoutingGoal,
    pub movement: Movement,
    pub provider: Option<Provider>,
}

/// What a search works on: the label and the predecessor of every node,
/// and the queue.
pub struct Machine {
    pub dist: Seq<u128>,
    pub prev: Seq<usize>,
    pub heap: Multiset<NodeCost>,
}

impl Machine {
    /// The search before its first step: the source has the label zero and
    /// is alone in the queue, no other node is reached, and every node is
    /// its own predecessor.
    pub open spec fn start(g: &Graph, q: Query) -> Machine {
        Machine {
            dist: Seq::new(
                g.size() as nat,
                |i: int|
                    if i == q.source {
                        0u128
                    } else {
                        UNREACHED
                    },
            ),
            prev: Seq::new(g.size() as nat, |i: int| i as usize),
            heap: Multiset::empty().insert(
                NodeCost { node: q.source, cost: 0, time: 0, distance: 0 },
            ),
        }
    }

    /// The search after half-edge `e` of the node of `entry` is looked at:
    /// if the half-edge is open and the way over it costs less than the
    /// label of its endpoint, and less than can be counted, the endpoint
    /// gets that cost as its label and the node as its predecessor, and
    /// goes into the queue with the time and the length of the way.
    pub open spec fn relax_edge(self, g: &Graph, q: Query, entry: NodeCost, e: int) -> Machine {
        let edge = g.edges@[e];
        let cost = entry.cost + g.edge_cost(e, q.goal, q.provider);
        if edge.closed_for(q.movement) || cost > u128::MAX || cost
            >= self.dist[edge.endpoint as int] {
            self
        } else {
            Machine {
                dist: self.dist.update(edge.endpoint as int, cost as u128),
                prev: self.prev.update(edge.endpoint as int, entry.node),
                heap: self.heap.insert(
                    NodeCost {
                        node: edge.endpoint,
                        cost: cost as u128,
                        time: (entry.time + edge.duration(q.movement)) as u128,
                        distance: (entry.distance + edge.length) as u128,
                    },
                ),
            }
        }
    }

    /// The search after the half-edges of the node of `entry` below index
    /// `upto` are looked at, one after the other.
    pub open spec fn relax_upto(self, g: &Graph, q: Query, entry: NodeCost, upto: int) -> Machine
        decreases upto - g.node_offsets@[entry.node as int].0,
    {
        if upto <= g.node_offsets@[entry.node as int].0 {
            self
        } else {
            self.relax_upto(g, q, entry, upto - 1).relax_edge(g, q, entry, upto - 1)
        }
    }

    /// The search is over: the queue is empty, or the destination is the
    /// first to leave it.
    pub open spec fn done(self, dest: usize) -> bool {
        self.heap.len() == 0 || least(self.heap).node == dest
    }

    /// One step of the search: the first entry leaves the queue, and
    /// unless it costs more than the label of its node, all the half-edges
    /// of the node are looked at.
    pub open spec fn step(self, g: &Graph, q: Query) -> Machine {
        let entry = least(self.heap);
        let rest = Machine { heap: self.heap.remove(entry), ..self };
        if entry.cost > self.dist[entry.node as int] {
            rest
        } else {
            rest.relax_upto(g, q, entry, g.node_offsets@[entry.node + 1].0 as int)
        }
    }

    /// The search after the given number of steps.
    pub open spec fn after(g: &Graph, q: Query, steps: nat) -> Machine
        decreases steps,
    {
        if steps == 0 {
            Machine::start(g, q)
        } else {
            Machine::after(g, q, (steps - 1) as nat).step(g, q)
        }
    }

    /// What a search that is over has found: nothing if the queue is empty,
    /// else the nodes from the source to the destination, each the
    /// predecessor of the next, with the length and the time of the first
    /// entry of the queue.
    pub open spec fn found(self, g: &Graph, q: Query, dest: usize) -> Option<
        (Seq<usize>, u128, u128),
    > {
        if self.heap.len() == 0 {
            None
        } else {
            Some(
                (
                    trace(self.prev, q.source, dest, g.size() as nat),
                    least(self.heap).distance,
                    least(self.heap).time,
                ),
            )
        }
    }
}

/// The nodes from `source` to `node`, each the predecessor of the next, as
/// far as `fuel` steps back lead.
pub open spec fn trace(prev: Seq<usize>, source: usize, node: usize, fuel: nat) -> Seq<usize>
    decreases fuel,
{
    if node == source || fuel == 0 {
        seq![node]
    } else {
        trace(prev, source, prev[node as int], (fuel - 1) as nat).push(node)
    }
}

/// The search for a route to `dest` is over after `steps` steps, and not
/// before.
pub open spec fn halts_after(g: &Graph, q: Query, dest: usize, steps: nat) -> bool {
    &&& Machine::after(g, q, steps).done(dest)
    &&& forall|k: nat| k < steps ==> !(#[trigger] Machine::after(g, q, k)).done(dest)
}

/// The answer to a query, as the graph and the query alone determine it:
/// what the search has found when it is over. Of routes that cost the same,
/// the search finds the one whose entries leave the queue first.
pub open spec fn answer(
    g: &Graph,
    source: usize,
    dest: usize,
    goal: RoutingGoal,
    movement: Movement,
    provider: Option<Provider>,
) -> Option<(Seq<usize>, u128, u128)> {
    let q = Query { source, goal: effective_goal(goal, movement), movement, provider };
    Machine::after(g, q, choose|steps: nat| halts_after(g, q, dest, steps)).found(g, q, dest)
}

/// The nodes, the length and the time of a route.
pub open spec fn told(r: Option<Route>) -> Option<(Seq<usize>, u128, u128)> {
    match r {
        Some(route) => Some((route.node_seq@, route.distance, route.travel_time)),
        None => None,
    }
}

/// A search is over after one number of steps only.
proof fn lemma_halts_once(g: &Graph, q: Query, dest: usize, steps: nat)
    requires
        halts_after(g, q, dest, steps),
    ensures
        (choose|s: nat| halts_after(g, q, dest, s)) == steps,
{
    let c = choose|s: nat| halts_after(g, q, dest, s);
    assert(halts_after(g, q, dest, c));
    if c < steps {
        assert(!Machine::after(g, q, c).done(dest));
    }
    if steps < c {
        assert(!Machine::after(g, q, steps).done(dest));
    }
}

/// The labels, the predecessors and the queue of a search.
spec fn machine(st: Search) -> Machine {
    Machine { dist: st.dist, prev: st.prev, heap: st.heap }
}

/// The state of a search: the labels of the nodes, the walk behind each
/// label, the nodes whose label is final, the queue, and the node whose
/// edges are being relaxed with the index of the next of them.
struct Search {
    dist: Seq<u128>,
    prev: Seq<usize>,
    tree: Seq<Walk>,
    settled: Set<int>,
    heap: Multiset<NodeCost>,
    expanding: int,
    upto: int,
}

/// The index of the first half-edge of node `u`.
spec fn lo(g: &Graph, u: int) -> int {
    g.node_offsets@[u].0 as int
}

/// The index after the last half-edge of node `u`.
spec fn hi(g: &Graph, u: int) -> int {
    g.node_offsets@[u + 1].0 as int
}

/// The queue entry that belongs to the current label of `v`.
spec fn canonical(g: &Graph, q: Query, st: Search, v: int) -> NodeCost {
    NodeCost {
        node: v as usize,
        cost: st.dist[v],
        time: g.total_time(st.tree[v].edges, q.movement) as u128,
        distance: g.total_length(st.tree[v].edges) as u128,
    }
}

/// The label of `v` is the cost of its walk, which comes from the source
/// and, but for its last step, is the walk of a settled node.
spec fn label_ok(g: &Graph, q: Query, st: Search, v: int) -> bool {
    let w = st.tree[v];
    &&& w.leads(g, q.movement, q.source, v as usize)
    &&& g.total_cost(w.edges, q.goal, q.provider) == st.dist[v]
    &&& w.edges.len() + (if st.settled.contains(v) {
        1int
    } else {
        0int
    }) <= st.settled.len()
    &&& if v == q.source {
        w.edges.len() == 0
    } else {
        let u = st.prev[v];
        &&& w.edges.len() > 0
        &&& st.settled.contains(u as int)
        &&& w.back() == st.tree[u as int]
    }
}

/// A queue entry costs no less than the label of its node, and if it costs
/// the same it is the canonical entry.
spec fn entry_ok(g: &Graph, q: Query, st: Search, e: NodeCost) -> bool {
    &&& e.node < g.size()
    &&& st.dist[e.node as int] <= e.cost < UNREACHED
    &&& (e.cost == st.dist[e.node as int] ==> e == canonical(g, q, st, e.node as int))
}

/// The half-edges of `u` below index `upto` cannot improve a label.
spec fn relaxed(g: &Graph, q: Query, st: Search, u: int, upto: int) -> bool {
    forall|e: int|
        lo(g, u) <= e < upto && e < hi(g, u) && !(#[trigger] g.edges@[e]).closed_for(q.movement)
            ==> st.dist[g.edges@[e].endpoint as int] <= st.dist[u] + g.edge_cost(
            e,
            q.goal,
            q.provider,
        )
}

/// The label of the settled node `u` is final, and its half-edges are
/// relaxed.
spec fn settled_ok(g: &Graph, q: Query, st: Search, u: int) -> bool {
    &&& 0 <= u < g.size()
    &&& st.dist[u] < UNREACHED
    &&& forall|w: Walk| #[trigger]
        w.leads(g, q.movement, q.source, u as usize) ==> st.dist[u] <= g.total_cost(
            w.edges,
            q.goal,
            q.provider,
        )
    &&& relaxed(
        g,
        q,
        st,
        u,
        if u == st.expanding {
            st.upto
        } else {
            hi(g, u)
        },
    )
}

/// How often the canonical entry of `v` is in the queue.
spec fn pending(st: Search, v: int) -> nat {
    if !st.settled.contains(v) && st.dist[v] < UNREACHED {
        1
    } else {
        0
    }
}

/// The invariant of the search.
#[verifier::opaque]
spec fn inv(g: &Graph, q: Query, st: Search) -> bool {
    let n = g.size();
    &&& n <= usize::MAX
    &&& st.dist.len() == n
    &&& st.prev.len() == n
    &&& st.tree.len() == n
    &&& q.source < n
    &&& st.dist[q.source as int] == 0
    &&& st.settled.finite()
    &&& forall|v: int| 0 <= v < n && st.dist[v] < UNREACHED ==> #[trigger] label_ok(g, q, st, v)
    &&& forall|e: NodeCost| #[trigger] st.heap.contains(e) ==> entry_ok(g, q, st, e)
    &&& forall|v: int|
        0 <= v < n ==> #[trigger] st.heap.count(canonical(g, q, st, v)) == pending(st, v)
    &&& forall|u: int| #[trigger] st.settled.contains(u) ==> settled_ok(g, q, st, u)
}

/// No scaled cost is negative.
proof fn lemma_edge_cost_bounds(g: &Graph, e: int, goal: RoutingGoal, provider: Option<Provider>)
    requires
        g.wf(),
        0 <= e < g.edges@.len(),
    ensures
        0 <= g.edge_cost(e, goal, provider),
{
    match provider {
        Some(p) => {
            let raw = g.edges@[e].cost(goal) as int;
            let c = g.coverage.values(p)[e] as int;
            let d = c * (COVERAGE_WEIGHT as int) + 1;
            assert(0 <= c);
            assert(d > 0) by (nonlinear_arith)
                requires
                    d == c * (COVERAGE_WEIGHT as int) + 1,
                    0 <= c,
                    COVERAGE_WEIGHT == 12_582_912,
            ;
            assert(0 <= raw * (COST_NUMERATOR as int)) by (nonlinear_arith)
                requires
                    0 <= raw,
                    COST_NUMERATOR == 4_503_599_627_370_497,
            ;
            vstd::arithmetic::div_mod::lemma_div_pos_is_pos(raw * (COST_NUMERATOR as int), d);
        },
        None => {},
    }
}

/// The totals of an extended walk.
proof fn lemma_totals_of_step(g: &Graph, q: Query, w: Walk, e: usize, v: usize)
    ensures
        g.total_cost(w.step(e, v).edges, q.goal, q.provider) == g.total_cost(
            w.edges,
            q.goal,
            q.provider,
        ) + g.edge_cost(e as int, q.goal, q.provider),
        g.total_time(w.step(e, v).edges, q.movement) == g.total_time(w.edges, q.movement)
            + g.edges@[e as int].duration(q.movement),
        g.total_length(w.step(e, v).edges) == g.total_length(w.edges) + g.edges@[e as int].length,
        w.step(e, v).back() == w,
{
    assert(w.edges.push(e).drop_last() =~= w.edges);
    assert(w.nodes.push(v).drop_last() =~= w.nodes);
}

/// Time and length of a walk are bounded by the number of its steps.
proof fn lemma_totals_bounded(g: &Graph, edges: Seq<usize>, movement: Movement)
    ensures
        0 <= g.total_time(edges, movement) <= edges.len() * u64::MAX,
        0 <= g.total_length(edges) <= edges.len() * u64::MAX,
    decreases edges.len(),
{
    if edges.len() > 0 {
        lemma_totals_bounded(g, edges.drop_last(), movement);
        assert((edges.len() - 1) * u64::MAX + u64::MAX == edges.len() * u64::MAX)
            by (nonlinear_arith);
    }
}

/// The cost of a valid walk is not negative, and no less than the cost of
/// the walk without its last step.
proof fn lemma_cost_grows(g: &Graph, q: Query, w: Walk)
    requires
        g.wf(),
        w.valid(g, q.movement),
    ensures
        0 <= g.total_cost(w.edges, q.goal, q.provider),
        w.edges.len() > 0 ==> w.back().valid(g, q.movement) && g.total_cost(
            w.back().edges,
            q.goal,
            q.provider,
        ) <= g.total_cost(w.edges, q.goal, q.provider),
    decreases w.edges.len(),
{
    if w.edges.len() > 0 {
        let b = w.back();
        assert forall|i: int| 0 <= i < b.edges.len() implies g.has_edge(
            b.nodes[i] as int,
            #[trigger] b.edges[i] as int,
            b.nodes[i + 1] as int,
        ) && !g.edges@[b.edges[i] as int].closed_for(q.movement) by {
            assert(b.edges[i] == w.edges[i]);
        }
        lemma_cost_grows(g, q, b);
        let last = w.edges.len() - 1;
        assert(g.has_edge(w.nodes[last] as int, w.edges[last] as int, w.nodes[last + 1] as int));
        lemma_edge_cost_bounds(g, w.edges.last() as int, q.goal, q.provider);
    }
}

/// Every walk from the source either costs too much to count, ends at a
/// settled node whose label it does not beat, or is no cheaper than some
/// entry of the queue.
proof fn lemma_frontier(g: &Graph, q: Query, st: Search, w: Walk)
    requires
        g.wf(),
        inv(g, q, st),
        st.expanding == -1,
        w.valid(g, q.movement),
        w.nodes[0] == q.source,
    ensures
        g.total_cost(w.edges, q.goal, q.provider) >= UNREACHED || (st.settled.contains(
            w.nodes.last() as int,
        ) && st.dist[w.nodes.last() as int] <= g.total_cost(w.edges, q.goal, q.provider)) || (
        exists|e: NodeCost| #[trigger]
            st.heap.contains(e) && e.cost <= g.total_cost(w.edges, q.goal, q.provider)),
    decreases w.edges.len(),
{
    reveal(inv);
    let cost = g.total_cost(w.edges, q.goal, q.provider);
    let x = w.nodes.last() as int;
    lemma_cost_grows(g, q, w);
    if w.edges.len() == 0 {
        assert(x == q.source);
        if !st.settled.contains(x) {
            let e = canonical(g, q, st, x);
            assert(st.heap.count(e) == pending(st, x));
            assert(st.heap.contains(e));
        }
    } else {
        let b = w.back();
        lemma_frontier(g, q, st, b);
        let last = w.edges.len() - 1;
        let y = w.nodes[last] as int;
        let e = w.edges[last] as int;
        assert(b.nodes.last() == w.nodes[last]);
        assert(g.has_edge(y, w.edges[last] as int, w.nodes[last + 1] as int));
        let back_cost = g.total_cost(b.edges, q.goal, q.provider);
        if back_cost >= UNREACHED {
        } else if st.settled.contains(y) && st.dist[y] <= back_cost {
            assert(settled_ok(g, q, st, y));
            assert(relaxed(g, q, st, y, hi(g, y)));
            assert(!g.edges@[e].closed_for(q.movement));
            assert(st.dist[x] <= st.dist[y] + g.edge_cost(e, q.goal, q.provider));
            assert(cost == back_cost + g.edge_cost(e, q.goal, q.provider));
            if cost < UNREACHED && !st.settled.contains(x) {
                let c = canonical(g, q, st, x);
                assert(st.heap.count(c) == pending(st, x));
                assert(st.heap.contains(c));
            }
        } else {
            let o = choose|o: NodeCost| #[trigger] st.heap.contains(o) && o.cost <= back_cost;
            assert(st.heap.contains(o) && o.cost <= cost);
        }
    }
}

/// The state in which a search starts.
proof fn lemma_initial(g: &Graph, q: Query, st: Search)
    requires
        g.wf(),
        q.source < g.size() <= usize::MAX,
        st.dist.len() == g.size(),
        st.prev.len() == g.size(),
        forall|v: int| 0 <= v < g.size() && v != q.source ==> st.dist[v] == UNREACHED,
        st.dist[q.source as int] == 0,
        st.tree == Seq::new(g.size() as nat, |v: int| Walk::start(v as usize)),
        st.settled == Set::<int>::empty(),
        st.heap == Multiset::<NodeCost>::empty().insert(
            NodeCost { node: q.source, cost: 0, time: 0, distance: 0 },
        ),
    ensures
        inv(g, q, st),
{
    reveal(inv);
    let first = NodeCost { node: q.source, cost: 0, time: 0, distance: 0 };
    let s = q.source as int;
    assert(st.tree[s] == Walk::start(q.source));
    assert(canonical(g, q, st, s) == first);
    assert(label_ok(g, q, st, s));
    assert forall|e: NodeCost| #[trigger] st.heap.contains(e) implies entry_ok(g, q, st, e) by {
        assert(e == first);
    }
    assert forall|v: int| 0 <= v < g.size() implies #[trigger] st.heap.count(
        canonical(g, q, st, v),
    ) == pending(st, v) by {
        if v != s {
            assert(canonical(g, q, st, v).node != first.node);
        }
    }
}

/// What the invariant says of an entry of the queue.
proof fn lemma_entry(g: &Graph, q: Query, st: Search, e: NodeCost)
    requires
        inv(g, q, st),
        st.heap.contains(e),
    ensures
        e.node < g.size(),
        st.dist.len() == g.size(),
        st.dist[e.node as int] <= e.cost < UNREACHED,
{
    reveal(inv);
    assert(entry_ok(g, q, st, e));
}

/// A stale entry can be dropped from the queue.
proof fn lemma_drop_stale(g: &Graph, q: Query, st: Search, e: NodeCost) -> (st2: Search)
    requires
        inv(g, q, st),
        st.heap.contains(e),
        e.cost > st.dist[e.node as int],
    ensures
        st2 == (Search { heap: st.heap.remove(e), ..st }),
        inv(g, q, st2),
{
    reveal(inv);
    let st2 = Search { heap: st.heap.remove(e), ..st };
    assert forall|o: NodeCost| #[trigger] st2.heap.contains(o) implies entry_ok(g, q, st2, o) by {
        assert(st.heap.contains(o));
        assert(entry_ok(g, q, st, o));
        assert(canonical(g, q, st2, o.node as int) == canonical(g, q, st, o.node as int));
    }
    assert forall|v: int| 0 <= v < g.size() implies #[trigger] st2.heap.count(
        canonical(g, q, st2, v),
    ) == pending(st2, v) by {
        assert(canonical(g, q, st2, v) == canonical(g, q, st, v));
        assert(st.heap.count(canonical(g, q, st, v)) == pending(st, v));
        assert(entry_ok(g, q, st, e));
        assert(canonical(g, q, st, v) != e);
    }
    assert forall|v: int| 0 <= v < g.size() && st2.dist[v] < UNREACHED implies #[trigger] label_ok(
        g,
        q,
        st2,
        v,
    ) by {
        assert(label_ok(g, q, st, v));
    }
    assert forall|u: int| #[trigger] st2.settled.contains(u) implies settled_ok(g, q, st2, u) by {
        assert(settled_ok(g, q, st, u));
        assert(relaxed(g, q, st, u, if u == st.expanding { st.upto } else { hi(g, u) }));
    }
    st2
}

/// The cheapest entry of the queue, if it is not stale, settles its node.
proof fn lemma_settle(g: &Graph, q: Query, st: Search, e: NodeCost) -> (st2: Search)
    requires
        g.wf(),
        inv(g, q, st),
        st.expanding == -1,
        st.heap.contains(e),
        forall|o: NodeCost| st.heap.contains(o) ==> e.cost <= o.cost,
        e.cost <= st.dist[e.node as int],
    ensures
        st2 == (Search {
            settled: st.settled.insert(e.node as int),
            heap: st.heap.remove(e),
            expanding: e.node as int,
            upto: lo(g, e.node as int),
            ..st
        }),
        inv(g, q, st2),
        !st.settled.contains(e.node as int),
        st2.settled.len() == st.settled.len() + 1,
        st2.settled.len() <= g.size(),
        e == canonical(g, q, st, e.node as int),
        forall|w: Walk| #[trigger]
            w.leads(g, q.movement, q.source, e.node) ==> e.cost <= g.total_cost(
                w.edges,
                q.goal,
                q.provider,
            ),
{
    reveal(inv);
    let v = e.node as int;
    let st2 = Search {
        settled: st.settled.insert(v),
        heap: st.heap.remove(e),
        expanding: v,
        upto: lo(g, v),
        ..st
    };
    assert(entry_ok(g, q, st, e));
    assert(e == canonical(g, q, st, v));
    assert(st.heap.count(canonical(g, q, st, v)) == pending(st, v));
    assert(!st.settled.contains(v));
    assert forall|w: Walk| #[trigger] w.leads(g, q.movement, q.source, e.node) implies e.cost
        <= g.total_cost(w.edges, q.goal, q.provider) by {
        lemma_frontier(g, q, st, w);
        let cost = g.total_cost(w.edges, q.goal, q.provider);
        if cost < UNREACHED {
            let o = choose|o: NodeCost| #[trigger] st.heap.contains(o) && o.cost <= cost;
            assert(e.cost <= o.cost);
        }
    }
    assert forall|o: NodeCost| #[trigger] st2.heap.contains(o) implies entry_ok(g, q, st2, o) by {
        assert(st.heap.contains(o));
        assert(entry_ok(g, q, st, o));
        assert(canonical(g, q, st2, o.node as int) == canonical(g, q, st, o.node as int));
    }
    assert forall|x: int| 0 <= x < g.size() implies #[trigger] st2.heap.count(
        canonical(g, q, st2, x),
    ) == pending(st2, x) by {
        assert(canonical(g, q, st2, x) == canonical(g, q, st, x));
        assert(st.heap.count(canonical(g, q, st, x)) == pending(st, x));
        if x != v {
            assert(canonical(g, q, st, x).node != e.node);
        }
    }
    assert forall|x: int| 0 <= x < g.size() && st2.dist[x] < UNREACHED implies #[trigger] label_ok(
        g,
        q,
        st2,
        x,
    ) by {
        assert(label_ok(g, q, st, x));
    }
    assert forall|u: int| #[trigger] st2.settled.contains(u) implies settled_ok(g, q, st2, u) by {
        if u != v {
            assert(settled_ok(g, q, st, u));
            assert(relaxed(g, q, st, u, hi(g, u)));
        }
    }
    assert(st2.settled.subset_of(set_int_range(0, g.size()))) by {
        assert forall|u: int| st2.settled.contains(u) implies set_int_range(0, g.size()).contains(
            u,
        ) by {
            assert(settled_ok(g, q, st2, u));
        }
    }
    lemma_int_range(0, g.size());
    lemma_len_subset(st2.settled, set_int_range(0, g.size()));
    st2
}

/// A half-edge that is closed, or that does not improve the label of its
/// endpoint, is relaxed.
proof fn lemma_pass(g: &Graph, q: Query, st: Search, e: int) -> (st2: Search)
    requires
        g.wf(),
        inv(g, q, st),
        st.settled.contains(st.expanding),
        st.upto == e,
        lo(g, st.expanding) <= e < hi(g, st.expanding),
        g.edges@[e].closed_for(q.movement) || st.dist[g.edges@[e].endpoint as int]
            <= st.dist[st.expanding] + g.edge_cost(e, q.goal, q.provider),
    ensures
        st2 == (Search { upto: e + 1, ..st }),
        inv(g, q, st2),
{
    reveal(inv);
    let st2 = Search { upto: e + 1, ..st };
    assert forall|o: NodeCost| #[trigger] st2.heap.contains(o) implies entry_ok(g, q, st2, o) by {
        assert(entry_ok(g, q, st, o));
        assert(canonical(g, q, st2, o.node as int) == canonical(g, q, st, o.node as int));
    }
    assert forall|x: int| 0 <= x < g.size() implies #[trigger] st2.heap.count(
        canonical(g, q, st2, x),
    ) == pending(st2, x) by {
        assert(canonical(g, q, st2, x) == canonical(g, q, st, x));
        assert(st.heap.count(canonical(g, q, st, x)) == pending(st, x));
    }
    assert forall|x: int| 0 <= x < g.size() && st2.dist[x] < UNREACHED implies #[trigger] label_ok(
        g,
        q,
        st2,
        x,
    ) by {
        assert(label_ok(g, q, st, x));
    }
    assert forall|u: int| #[trigger] st2.settled.contains(u) implies settled_ok(g, q, st2, u) by {
        assert(settled_ok(g, q, st, u));
        assert(relaxed(g, q, st, u, if u == st.expanding { st.upto } else { hi(g, u) }));
    }
    st2
}

/// Once all half-edges of the expanded node are relaxed, no node is being
/// expanded.
proof fn lemma_done(g: &Graph, q: Query, st: Search) -> (st2: Search)
    requires
        inv(g, q, st),
        st.settled.contains(st.expanding),
        st.upto >= hi(g, st.expanding),
    ensures
        st2 == (Search { expanding: -1, upto: 0, ..st }),
        inv(g, q, st2),
{
    reveal(inv);
    let st2 = Search { expanding: -1, upto: 0, ..st };
    assert forall|o: NodeCost| #[trigger] st2.heap.contains(o) implies entry_ok(g, q, st2, o) by {
        assert(entry_ok(g, q, st, o));
        assert(canonical(g, q, st2, o.node as int) == canonical(g, q, st, o.node as int));
    }
    assert forall|x: int| 0 <= x < g.size() implies #[trigger] st2.heap.count(
        canonical(g, q, st2, x),
    ) == pending(st2, x) by {
        assert(canonical(g, q, st2, x) == canonical(g, q, st, x));
        assert(st.heap.count(canonical(g, q, st, x)) == pending(st, x));
    }
    assert forall|x: int| 0 <= x < g.size() && st2.dist[x] < UNREACHED implies #[trigger] label_ok(
        g,
        q,
        st2,
        x,
    ) by {
        assert(label_ok(g, q, st, x));
    }
    assert forall|u: int| #[trigger] st2.settled.contains(u) implies settled_ok(g, q, st2, u) by {
        assert(settled_ok(g, q, st, u));
        assert(relaxed(g, q, st, u, if u == st.expanding { st.upto } else { hi(g, u) }));
    }
    st2
}

/// The accumulators of the node that is being expanded leave room for one
/// more half-edge.
proof fn lemma_room(g: &Graph, q: Query, st: Search, v: int)
    requires
        g.wf(),
        inv(g, q, st),
        st.settled.contains(v),
        st.settled.len() <= g.size(),
        g.size() <= usize::MAX,
    ensures
        0 <= v < g.size(),
        st.dist[v] < UNREACHED,
        canonical(g, q, st, v).time == g.total_time(st.tree[v].edges, q.movement),
        canonical(g, q, st, v).distance == g.total_length(st.tree[v].edges),
        canonical(g, q, st, v).time + u64::MAX <= u128::MAX,
        canonical(g, q, st, v).distance + u64::MAX <= u128::MAX,
{
    reveal(inv);
    assert(settled_ok(g, q, st, v));
    assert(label_ok(g, q, st, v));
    let len = st.tree[v].edges.len() as int;
    lemma_totals_bounded(g, st.tree[v].edges, q.movement);
    assert(len + 1 <= usize::MAX);
    assert(len * u64::MAX + u64::MAX <= usize::MAX * u64::MAX) by (nonlinear_arith)
        requires
            0 <= len,
            len + 1 <= usize::MAX,
    ;
    assert(usize::MAX * u64::MAX <= u128::MAX) by (nonlinear_arith)
        requires
            usize::MAX <= 0xffff_ffff_ffff_ffff,
            u64::MAX == 0xffff_ffff_ffff_ffff,
            u128::MAX == 0xffff_ffff_ffff_ffff_ffff_ffff_ffff_ffff,
    ;
}

/// A half-edge that improves the label of its endpoint: the label, the
/// walk and the queue entry of the endpoint are replaced.
proof fn lemma_improve(g: &Graph, q: Query, st: Search, e: int, next: NodeCost) -> (st2: Search)
    requires
        g.wf(),
        inv(g, q, st),
        st.settled.contains(st.expanding),
        st.settled.len() <= g.size(),
        g.size() <= usize::MAX,
        st.upto == e,
        lo(g, st.expanding) <= e < hi(g, st.expanding),
        !g.edges@[e].closed_for(q.movement),
        next.node == g.edges@[e].endpoint,
        next.cost == st.dist[st.expanding] + g.edge_cost(e, q.goal, q.provider),
        next.cost < st.dist[next.node as int],
        next.time == canonical(g, q, st, st.expanding).time + g.edges@[e].duration(q.movement),
        next.distance == canonical(g, q, st, st.expanding).distance + g.edges@[e].length,
    ensures
        st2 == (Search {
            dist: st.dist.update(next.node as int, next.cost),
            prev: st.prev.update(next.node as int, st.expanding as usize),
            tree: st.tree.update(
                next.node as int,
                st.tree[st.expanding].step(e as usize, next.node),
            ),
            heap: st.heap.insert(next),
            upto: e + 1,
            ..st
        }),
        inv(g, q, st2),
        next.node != st.expanding,
        canonical(g, q, st2, st.expanding) == canonical(g, q, st, st.expanding),
{
    reveal(inv);
    let v = st.expanding;
    let x = next.node as int;
    lemma_room(g, q, st, v);
    assert(settled_ok(g, q, st, v));
    assert(label_ok(g, q, st, v));
    let wv = st.tree[v];
    let wx = wv.step(e as usize, next.node);
    let st2 = Search {
        dist: st.dist.update(x, next.cost),
        prev: st.prev.update(x, v as usize),
        tree: st.tree.update(x, wx),
        heap: st.heap.insert(next),
        upto: e + 1,
        ..st
    };
    assert(0 <= e < g.edges@.len());
    assert(g.has_edge(v, e, x));
    lemma_totals_of_step(g, q, wv, e as usize, next.node);
    lemma_edge_cost_bounds(g, e, q.goal, q.provider);
    // the new walk
    assert(wx.valid(g, q.movement)) by {
        assert forall|i: int| 0 <= i < wx.edges.len() implies g.has_edge(
            wx.nodes[i] as int,
            #[trigger] wx.edges[i] as int,
            wx.nodes[i + 1] as int,
        ) && !g.edges@[wx.edges[i] as int].closed_for(q.movement) by {
            if i < wv.edges.len() {
                assert(wx.edges[i] == wv.edges[i]);
            }
        }
    }
    assert(wx.leads(g, q.movement, q.source, next.node));
    // the endpoint is not settled, and is neither the source nor the node itself
    if st.settled.contains(x) {
        assert(settled_ok(g, q, st, x));
        assert(wx.leads(g, q.movement, q.source, x as usize));
    }
    assert(x != v);
    assert(x != q.source);
    assert(canonical(g, q, st2, x) == next);
    assert forall|y: int| 0 <= y < g.size() && y != x implies canonical(g, q, st2, y) == canonical(
        g,
        q,
        st,
        y,
    ) by {}
    assert forall|o: NodeCost| #[trigger] st2.heap.contains(o) implies entry_ok(g, q, st2, o) by {
        if o != next {
            assert(st.heap.contains(o));
            assert(entry_ok(g, q, st, o));
        }
    }
    assert forall|y: int| 0 <= y < g.size() implies #[trigger] st2.heap.count(
        canonical(g, q, st2, y),
    ) == pending(st2, y) by {
        if y == x {
            if st.heap.contains(next) {
                assert(entry_ok(g, q, st, next));
            }
            assert(st.heap.count(next) == 0);
        } else {
            assert(st.heap.count(canonical(g, q, st, y)) == pending(st, y));
            assert(canonical(g, q, st, y).node != next.node);
        }
    }
    assert forall|y: int| 0 <= y < g.size() && st2.dist[y] < UNREACHED implies #[trigger] label_ok(
        g,
        q,
        st2,
        y,
    ) by {
        if y != x {
            assert(label_ok(g, q, st, y));
            if y != q.source {
                assert(st.prev[y] as int != x);
            }
        }
    }
    assert forall|u: int| #[trigger] st2.settled.contains(u) implies settled_ok(g, q, st2, u) by {
        assert(settled_ok(g, q, st, u));
        let bound = if u == st.expanding { st.upto } else { hi(g, u) };
        assert(relaxed(g, q, st, u, bound));
        assert(u != x);
    }
    st2
}

/// Every label that differs from "not reached" belongs to a noted node.
spec fn noted(dist: Seq<u128>, touched: Seq<usize>) -> bool {
    forall|v: int|
        0 <= v < dist.len() ==> (#[trigger] dist[v]) == UNREACHED || touched.contains(v as usize)
}

/// A label may change once its node is noted.
proof fn lemma_note(dist: Seq<u128>, touched: Seq<usize>, x: usize, c: u128)
    requires
        noted(dist, touched),
        x < dist.len(),
    ensures
        noted(dist.update(x as int, c), touched.push(x)),
{
    let dist2 = dist.update(x as int, c);
    let touched2 = touched.push(x);
    assert forall|v: int| 0 <= v < dist2.len() implies (#[trigger] dist2[v]) == UNREACHED
        || touched2.contains(v as usize) by {
        if v == x {
            assert(touched2[touched.len() as int] == x);
        } else if dist[v] != UNREACHED {
            let k = choose|k: int| 0 <= k < touched.len() && touched[k] == v as usize;
            assert(touched2[k] == v as usize);
        }
    }
}

/// A noted node whose label is reset need not be noted any longer.
proof fn lemma_forget(dist: Seq<u128>, touched: Seq<usize>)
    requires
        noted(dist, touched),
        touched.len() > 0,
        touched.last() < dist.len(),
        dist.len() <= usize::MAX,
    ensures
        noted(dist.update(touched.last() as int, UNREACHED), touched.drop_last()),
{
    let dist2 = dist.update(touched.last() as int, UNREACHED);
    let touched2 = touched.drop_last();
    assert forall|v: int| 0 <= v < dist2.len() implies (#[trigger] dist2[v]) == UNREACHED
        || touched2.contains(v as usize) by {
        if v != touched.last() && dist[v] != UNREACHED {
            let k = choose|k: int| 0 <= k < touched.len() && touched[k] == v as usize;
            assert(touched2[k] == v as usize);
        }
    }
}

/// The routing engine: a graph with the scratch space of a search.
pub struct Dijkstra<'a> {
    dist: Vec<u128>,
    touched: Vec<NodeId>,
    graph: &'a Graph,
}

impl<'a> Dijkstra<'a> {
    /// The graph that the engine searches.
    pub closed spec fn graph(&self) -> Graph {
        *self.graph
    }

    /// The graph is sound, and every label that a search has changed is
    /// noted for the next reset.
    pub closed spec fn wf(&self) -> bool {
        &&& self.graph.wf()
        &&& self.dist@.len() == self.graph.size()
        &&& forall|i: int| 0 <= i < self.touched@.len() ==> self.touched@[i] < self.graph.size()
        &&& noted(self.dist@, self.touched@)
    }

    /// The cheapest route from `source` to `dest` for the given kind of
    /// movement, or `None` if there is none that costs less than
    /// `UNREACHED`. On foot the goal is the length. With a provider, every
    /// edge costs more the less of it the provider covers. The route comes
    /// with its length and the time it takes, whatever the cost counted.
    pub fn distance(
        &mut self,
        source: NodeId,
        dest: NodeId,
        goal: RoutingGoal,
        movement: Movement,
        provider: Option<Provider>,
    ) -> (r: Option<Route>)
        requires
            old(self).wf(),
            source < old(self).graph().size(),
            dest < old(self).graph().size(),
        ensures
            final(self).wf(),
            final(self).graph() == old(self).graph(),
            match r {
                Some(route) => route.node_seq@.len() >= 1 && route.node_seq@[0] == source
                    && route.node_seq@.last() == dest && exists|w: Walk|
                    {
                        &&& #[trigger] w.leads(&old(self).graph(), movement, source, dest)
                        &&& route.node_seq@ == w.nodes
                        &&& route.distance == old(self).graph().total_length(w.edges)
                        &&& route.travel_time == old(self).graph().total_time(w.edges, movement)
                        &&& old(self).graph().total_cost(
                            w.edges,
                            effective_goal(goal, movement),
                            provider,
                        ) < UNREACHED
                        &&& forall|p: Walk| #[trigger]
                            p.leads(&old(self).graph(), movement, source, dest) ==> old(
                                self,
                            ).graph().total_cost(
                                w.edges,
                                effective_goal(goal, movement),
                                provider,
                            ) <= old(self).graph().total_cost(
                                p.edges,
                                effective_goal(goal, movement),
                                provider,
                            )
                    },
                None => forall|p: Walk| #[trigger]
                    p.leads(&old(self).graph(), movement, source, dest) ==> old(
                        self,
                    ).graph().total_cost(p.edges, effective_goal(goal, movement), provider)
                        >= UNREACHED,
            },
            told(r) == answer(&old(self).graph(), source, dest, goal, movement, provider),
            source == dest ==> match r {
                Some(route) => route.node_seq@ == seq![source] && route.distance == 0
                    && route.travel_time == 0,
                None => false,
            },
    {
        let target = match movement {
            Movement::Car => goal,
            Movement::Foot => RoutingGoal::Length,
        };
        let graph = self.graph;
        let coverage = graph.coverage.get_all(provider);
        let n = graph.node_count();
        let mut prev: Vec<usize> = Vec::new();
        let mut i: usize = 0;
        while i < n
            invariant
                i <= n,
                prev@.len() == i,
                forall|k: int| 0 <= k < i ==> prev@[k] == k,
            decreases n - i,
        {
            prev.push(i);
            i += 1;
        }
        self.reset_state();
        proof {
            lemma_note(self.dist@, self.touched@, source, 0);
        }
        self.dist[source] = 0;
        self.touched.push(source);
        let mut heap = CostHeap::new();
        heap.push(NodeCost { node: source, cost: 0, time: 0, distance: 0 });
        let ghost q = Query { source, goal: target, movement, provider };
        let ghost mut st = Search {
            dist: self.dist@,
            prev: prev@,
            tree: Seq::new(n as nat, |v: int| Walk::start(v as usize)),
            settled: Set::<int>::empty(),
            heap: heap@,
            expanding: -1,
            upto: 0,
        };
        let ghost mut steps: nat = 0;
        proof {
            lemma_initial(graph, q, st);
            let first = Machine::start(graph, q);
            assert(st.dist =~= first.dist);
            assert(st.prev =~= first.prev);
            assert(st.heap =~= first.heap);
        }
        loop
            invariant
                machine(st) == Machine::after(graph, q, steps),
                forall|k: nat| k < steps ==> !(#[trigger] Machine::after(graph, q, k)).done(dest),
                self.graph == graph,
                *graph == old(self).graph(),
                self.wf(),
                graph.wf(),
                n == graph.size(),
                source < n,
                dest < n,
                q == (Query { source, goal: target, movement, provider }),
                target == effective_goal(goal, movement),
                heap.wf(),
                st.heap == heap@,
                st.dist == self.dist@,
                st.prev == prev@,
                prev@.len() == n,
                st.expanding == -1,
                inv(graph, q, st),
                !st.settled.contains(dest as int),
                st.settled.finite(),
                st.settled.len() <= n,
                match provider {
                    Some(p) => coverage.is_some() && coverage.unwrap()@ == graph.coverage.values(p),
                    None => coverage.is_none(),
                },
            decreases n - st.settled.len(), heap@.len(),
        {
            let entry = match heap.pop() {
                Some(entry) => entry,
                None => {
                    proof {
                        assert forall|p: Walk| #[trigger]
                            p.leads(graph, movement, source, dest) implies graph.total_cost(
                            p.edges,
                            target,
                            provider,
                        ) >= UNREACHED by {
                            lemma_frontier(graph, q, st, p);
                        }
                        if source == dest {
                            let stay = Walk::start(source);
                            assert(stay.leads(graph, movement, source, dest));
                            assert(graph.total_cost(stay.edges, target, provider) == 0);
                        }
                        assert(machine(st).done(dest));
                        lemma_halts_once(graph, q, dest, steps);
                    }
                    return None;
                },
            };
            let NodeCost { node, cost, time, distance } = entry;
            let ghost before = machine(st);
            proof {
                lemma_entry(graph, q, st, entry);
                assert(before.heap.count(entry) > 0);
                assert(before.heap.len() > 0);
                assert(forall|o: NodeCost| st.heap.contains(o) ==> entry.cost <= o.cost) by {
                    assert forall|o: NodeCost| st.heap.contains(o) implies entry.cost <= o.cost by {
                        assert(comes_before(entry, o));
                    }
                }
            }
            if node == dest {
                proof {
                    if cost > self.dist@[node as int] {
                        reveal(inv);
                        let c = canonical(graph, q, st, node as int);
                        assert(st.heap.count(c) == pending(st, node as int));
                        assert(st.heap.contains(c));
                    }
                    let ghost settled = lemma_settle(graph, q, st, entry);
                    lemma_room(graph, q, settled, node as int);
                    assert(canonical(graph, q, settled, node as int) == canonical(
                        graph,
                        q,
                        st,
                        node as int,
                    ));
                }
                let node_seq = reconstruct(graph, Ghost(q), Ghost(st), &prev, source, dest);
                proof {
                    assert(before.done(dest));
                    lemma_halts_once(graph, q, dest, steps);
                    reveal(inv);
                    assert(label_ok(graph, q, st, dest as int));
                    lemma_trace(graph, q, st, dest as int, n as nat);
                    let w = st.tree[dest as int];
                    assert(label_ok(graph, q, st, dest as int));
                    assert(w.leads(graph, movement, source, dest));
                    assert(cost == graph.total_cost(w.edges, target, provider));
                    assert(distance == graph.total_length(w.edges));
                    assert(time == graph.total_time(w.edges, movement));
                    assert forall|p: Walk| #[trigger]
                        p.leads(graph, movement, source, dest) implies graph.total_cost(
                        w.edges,
                        target,
                        provider,
                    ) <= graph.total_cost(p.edges, target, provider) by {}
                    if source == dest {
                        assert(w.edges.len() == 0);
                        assert(w.nodes =~= seq![source]);
                    }
                }
                return Some(Route { node_seq, distance, travel_time: time });
            }
            proof {
                assert(!before.done(dest));
            }
            if cost > self.dist[node] {
                proof {
                    st = lemma_drop_stale(graph, q, st, entry);
                    assert(machine(st) == before.step(graph, q));
                    steps = steps + 1;
                }
                continue ;
            }
            proof {
                st = lemma_settle(graph, q, st, entry);
                lemma_room(graph, q, st, node as int);
            }
            let ghost settled = st.settled;
            let ghost rest = machine(st);
            let mut iter = graph.outgoing_edges_for(node);
            loop
                invariant_except_break
                    self.graph == graph,
                    self.wf(),
                    graph.wf(),
                    n == graph.size(),
                    source < n,
                    dest < n,
                    node < n,
                    node != dest,
                    q == (Query { source, goal: target, movement, provider }),
                    heap.wf(),
                    st.heap == heap@,
                    st.dist == self.dist@,
                    st.prev == prev@,
                    prev@.len() == n,
                    st.settled == settled,
                    st.expanding == node,
                    st.upto == iter.position(),
                    st.settled.contains(node as int),
                    inv(graph, q, st),
                    !st.settled.contains(dest as int),
                    st.settled.finite(),
                    st.settled.len() <= n,
                    iter.wf(),
                    iter.edges() == graph.edges@,
                    iter.start() == lo(graph, node as int),
                    iter.stop() == hi(graph, node as int),
                    entry == (NodeCost { node, cost, time, distance }),
                    machine(st) == rest.relax_upto(graph, q, entry, iter.position() as int),
                    cost == self.dist@[node as int],
                    time == canonical(graph, q, st, node as int).time,
                    distance == canonical(graph, q, st, node as int).distance,
                    time + u64::MAX <= u128::MAX,
                    distance + u64::MAX <= u128::MAX,
                    match provider {
                        Some(p) => coverage.is_some() && coverage.unwrap()@
                            == graph.coverage.values(p),
                        None => coverage.is_none(),
                    },
                ensures
                    self.graph == graph,
                    self.wf(),
                    heap.wf(),
                    st.heap == heap@,
                    st.dist == self.dist@,
                    st.prev == prev@,
                    prev@.len() == n,
                    st.settled == settled,
                    st.expanding == -1,
                    inv(graph, q, st),
                    machine(st) == rest.relax_upto(graph, q, entry, hi(graph, node as int)),
                decreases iter.stop() - iter.position(),
            {
                let ghost sofar = machine(st);
                let (index, edge) = match iter.next() {
                    Some(item) => item,
                    None => {
                        proof {
                            st = lemma_done(graph, q, st);
                        }
                        break ;
                    },
                };
                proof {
                    assert(rest.relax_upto(graph, q, entry, index + 1) == sofar.relax_edge(
                        graph,
                        q,
                        entry,
                        index as int,
                    ));
                }
                if edge.is_not_for(&movement) {
                    proof {
                        st = lemma_pass(graph, q, st, index as int);
                    }
                    continue ;
                }
                assert(graph.coverage.size() == graph.edges@.len());
                let weight = scaled_cost(edge.get_cost(&target), coverage, index);
                let next_cost = match cost.checked_add(weight) {
                    Some(sum) => sum,
                    None => {
                        proof {
                            st = lemma_pass(graph, q, st, index as int);
                        }
                        continue ;
                    },
                };
                let endpoint = edge.endpoint;
                if next_cost < self.dist[endpoint] {
                    let next = NodeCost {
                        node: endpoint,
                        cost: next_cost,
                        time: time + edge.get_time(&movement) as u128,
                        distance: distance + edge.length as u128,
                    };
                    proof {
                        st = lemma_improve(graph, q, st, index as int, next);
                        lemma_note(self.dist@, self.touched@, endpoint, next_cost);
                        assert(machine(st) == sofar.relax_edge(graph, q, entry, index as int));
                    }
                    prev[endpoint] = node;
                    self.dist[endpoint] = next_cost;
                    self.touched.push(endpoint);
                    heap.push(next);
                } else {
                    proof {
                        st = lemma_pass(graph, q, st, index as int);
                    }
                }
            }
            proof {
                assert(machine(st) == before.step(graph, q));
                steps = steps + 1;
            }
        }
    }

    /// Sets every label that the last search changed back to "not reached".
    #[inline]
    fn reset_state(&mut self)
        requires
            old(self).wf(),
        ensures
            final(self).wf(),
            final(self).graph == old(self).graph,
            final(self).touched@.len() == 0,
            forall|v: int| 0 <= v < final(self).dist@.len() ==> final(self).dist@[v] == UNREACHED,
    {
        loop
            invariant
                self.wf(),
                self.graph == old(self).graph,
            ensures
                self.wf(),
                self.graph == old(self).graph,
                self.touched@.len() == 0,
            decreases self.touched@.len(),
        {
            let size: usize = self.dist.len();
            proof {
                if self.touched@.len() > 0 {
                    lemma_forget(self.dist@, self.touched@);
                }
            }
            let node = match self.touched.pop() {
                Some(node) => node,
                None => {
                    break ;
                },
            };
            self.dist[node] = UNREACHED;
        }
        proof {
            assert forall|v: int| 0 <= v < self.dist@.len() implies self.dist@[v] == UNREACHED by {
                if self.dist@[v] != UNREACHED {
                    assert(self.touched@.contains(v as usize));
                }
            }
        }
    }
}

/// The raw cost of an edge scaled by the coverage of the edge, if coverage
/// counts.
#[inline]
fn scaled_cost(raw: u64, coverage: Option<&Vec<u64>>, index: usize) -> (r: u128)
    requires
        match coverage {
            Some(c) => index < c@.len() && c@[index as int] <= UNIT,
            None => true,
        },
    ensures
        r == scaled(
            raw as int,
            match coverage {
                Some(c) => Some(c@[index as int] as int),
                None => None,
            },
        ),
{
    match coverage {
        Some(cov) => {
            let c: u128 = cov[index] as u128;
            (raw as u128 * COST_NUMERATOR) / (c * COVERAGE_WEIGHT + 1)
        },
        None => raw as u128,
    }
}

/// The predecessors of a node with a label lead back to the source along
/// the walk of the node.
proof fn lemma_trace(g: &Graph, q: Query, st: Search, v: int, fuel: nat)
    requires
        inv(g, q, st),
        0 <= v < g.size(),
        st.dist[v] < UNREACHED,
        fuel >= st.tree[v].edges.len(),
    ensures
        trace(st.prev, q.source, v as usize, fuel) == st.tree[v].nodes,
    decreases st.tree[v].edges.len(),
{
    reveal(inv);
    assert(label_ok(g, q, st, v));
    let w = st.tree[v];
    if v == q.source {
        assert(w.nodes =~= seq![v as usize]);
    } else {
        let u = st.prev[v];
        assert(settled_ok(g, q, st, u as int));
        assert(w.back() == st.tree[u as int]);
        lemma_trace(g, q, st, u as int, (fuel - 1) as nat);
        assert(w.nodes =~= w.back().nodes.push(v as usize));
    }
}

/// Follows the predecessors from `dest` back to `source`.
fn reconstruct(
    graph: &Graph,
    Ghost(q): Ghost<Query>,
    Ghost(st): Ghost<Search>,
    prev: &Vec<usize>,
    source: usize,
    dest: usize,
) -> (path: NodeSequence)
    requires
        graph.wf(),
        inv(graph, q, st),
        q.source == source,
        st.prev == prev@,
        dest < graph.size(),
        st.dist[dest as int] < UNREACHED,
    ensures
        path@ == st.tree[dest as int].nodes,
{
    let mut path: VecDeque<usize> = VecDeque::new();
    let mut cur: usize = dest;
    proof {
        reveal(inv);
        assert(st.tree[dest as int].nodes + path@ =~= st.tree[dest as int].nodes);
    }
    while cur != source
        invariant
            inv(graph, q, st),
            q.source == source,
            st.prev == prev@,
            cur < graph.size(),
            st.dist[cur as int] < UNREACHED,
            st.tree[dest as int].nodes == st.tree[cur as int].nodes + path@,
        decreases st.tree[cur as int].edges.len(),
    {
        proof {
            reveal(inv);
            assert(label_ok(graph, q, st, cur as int));
            let u = st.prev[cur as int];
            assert(settled_ok(graph, q, st, u as int));
            let w = st.tree[cur as int];
            assert(w.nodes =~= w.back().nodes.push(cur));
            assert(w.back().nodes.push(cur) + path@ =~= w.back().nodes + (seq![cur] + path@));
        }
        let ghost rest = path@;
        let ghost at = cur;
        path.push_front(cur);
        cur = prev[cur];
        proof {
            assert(path@ =~= seq![at] + rest);
        }
    }
    let ghost rest = path@;
    proof {
        reveal(inv);
        assert(label_ok(graph, q, st, cur as int));
        let w = st.tree[cur as int];
        assert(w.nodes =~= seq![cur]);
    }
    path.push_front(cur);
    proof {
        assert(path@ =~= seq![cur] + rest);
    }
    path
}

} // verus!
