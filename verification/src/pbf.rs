//! What the tags of a way say about the road, and the edges that a way
//! gives.

use vstd::prelude::*;
use crate::graph::{EdgeInfo, NodeId, Speed};

verus! {

/// The length that an edge has before the graph measures it.
pub const UNMEASURED: u64 = 0;

/// Whether `c` is a decimal digit.
pub open spec fn is_digit(c: char) -> bool {
    '0' <= c && c <= '9'
}

/// The number that the decimal digits `s` write.
pub open spec fn digits_value(s: Seq<char>) -> int
    decreases s.len(),
{
    if s.len() == 0 {
        0
    } else {
        digits_value(s.drop_last()) * 10 + (s.last() as int - '0' as int)
    }
}

/// The text without a leading plus sign.
pub open spec fn unsigned(s: Seq<char>) -> Seq<char> {
    if s.len() > 0 && s[0] == '+' {
        s.skip(1)
    } else {
        s
    }
}

/// The number that the text writes: decimal digits, at least one, after an
/// optional plus sign, if the number fits the machine.
pub open spec fn number_of(s: Seq<char>) -> Option<usize> {
    if unsigned(s).len() > 0 && (forall|i: int|
        0 <= i < unsigned(s).len() ==> is_digit(#[trigger] unsigned(s)[i])) && digits_value(
        unsigned(s),
    ) <= usize::MAX {
        Some(digits_value(unsigned(s)) as usize)
    } else {
        None
    }
}

/// The truth value that the text writes.
pub open spec fn truth_of(s: Seq<char>) -> Option<bool> {
    if s == "true"@ {
        Some(true)
    } else if s == "false"@ {
        Some(false)
    } else {
        None
    }
}

/// The number of a longer text of digits is no less than that of its start.
proof fn lemma_digits_grow(s: Seq<char>, k: int)
    requires
        0 <= k <= s.len(),
        forall|i: int| 0 <= i < s.len() ==> is_digit(#[trigger] s[i]),
    ensures
        0 <= digits_value(s.take(k)) <= digits_value(s),
    decreases s.len() - k,
{
    lemma_digits_value_bounds(s.take(k));
    if k < s.len() {
        lemma_digits_grow(s, k + 1);
        assert(s.take(k + 1).drop_last() =~= s.take(k));
        assert(s.take(k + 1).last() == s[k]);
    } else {
        assert(s.take(k) =~= s);
    }
}

/// The number of a text of digits is not negative.
proof fn lemma_digits_value_bounds(s: Seq<char>)
    requires
        forall|i: int| 0 <= i < s.len() ==> is_digit(#[trigger] s[i]),
    ensures
        0 <= digits_value(s),
    decreases s.len(),
{
    if s.len() > 0 {
        assert forall|i: int| 0 <= i < s.drop_last().len() implies is_digit(
            #[trigger] s.drop_last()[i],
        ) by {
            assert(s.drop_last()[i] == s[i]);
        }
        lemma_digits_value_bounds(s.drop_last());
        assert(is_digit(s[s.len() - 1]));
    }
}

/// Whether two texts are the same.
pub fn same(a: &str, b: &str) -> (r: bool)
    ensures
        r == (a@ == b@),
{
    let n: usize = a.unicode_len();
    if n != b.unicode_len() {
        return false;
    }
    let mut i: usize = 0;
    while i < n
        invariant
            i <= n,
            n == a@.len(),
            n == b@.len(),
            forall|k: int| 0 <= k < i ==> a@[k] == b@[k],
        decreases n - i,
    {
        if a.get_char(i) != b.get_char(i) {
            return false;
        }
        i += 1;
    }
    assert(a@ =~= b@);
    true
}

/// The value of a decimal digit, or `None` for any other character.
fn digit(c: char) -> (r: Option<usize>)
    ensures
        match r {
            Some(d) => is_digit(c) && d == c as int - '0' as int,
            None => !is_digit(c),
        },
{
    match c {
        '0' => Some(0),
        '1' => Some(1),
        '2' => Some(2),
        '3' => Some(3),
        '4' => Some(4),
        '5' => Some(5),
        '6' => Some(6),
        '7' => Some(7),
        '8' => Some(8),
        '9' => Some(9),
        _ => None,
    }
}

/// Reads a number as the standard library does for an unsigned integer.
pub fn parse_number(s: &str) -> (r: Option<usize>)
    ensures
        r == number_of(s@),
{
    let n: usize = s.unicode_len();
    let start: usize = if n > 0 && s.get_char(0) == '+' {
        1
    } else {
        0
    };
    let ghost body = unsigned(s@);
    if start == n {
        return None;
    }
    let mut value: usize = 0;
    let mut i: usize = start;
    while i < n
        invariant
            start <= i <= n,
            n == s@.len(),
            body == s@.skip(start as int),
            body == unsigned(s@),
            forall|k: int| 0 <= k < i - start ==> is_digit(#[trigger] body[k]),
            value == digits_value(body.take(i - start)),
        decreases n - i,
    {
        let d: usize = match digit(s.get_char(i)) {
            Some(d) => d,
            None => {
                proof {
                    assert(!is_digit(body[i - start]));
                }
                return None;
            },
        };
        proof {
            assert(body.take(i - start + 1).drop_last() =~= body.take(i - start));
            assert(body.take(i - start + 1).last() == body[i - start]);
        }
        let next: Option<usize> = match value.checked_mul(10) {
            Some(tens) => tens.checked_add(d),
            None => None,
        };
        value = match next {
            Some(sum) => sum,
            None => {
                proof {
                    if forall|k: int| 0 <= k < body.len() ==> is_digit(#[trigger] body[k]) {
                        lemma_digits_grow(body, i - start + 1);
                    }
                }
                return None;
            },
        };
        i += 1;
    }
    proof {
        assert(body.take(n - start) =~= body);
    }
    Some(value)
}

/// Reads a truth value as the standard library does.
pub fn parse_truth(s: &str) -> (r: Option<bool>)
    ensures
        r == truth_of(s@),
{
    proof {
        reveal_strlit("true");
        reveal_strlit("false");
    }
    if same(s, "true") {
        Some(true)
    } else if same(s, "false") {
        Some(false)
    } else {
        None
    }
}

/// The tag has the given value.
pub open spec fn is_value(tag: Option<&str>, value: &str) -> bool {
    match tag {
        Some(t) => t@ == value@,
        None => false,
    }
}

/// Whether the tag is there and has the given value.
pub fn has_value(tag: Option<&str>, value: &str) -> (r: bool)
    ensures
        r == is_value(tag, value),
{
    match tag {
        Some(t) => same(t, value),
        None => false,
    }
}

/// The speed of a way: what its `maxspeed` tag says if that is a number,
/// else 130 on a motorway, 50 on a residential street and 100 elsewhere.
pub open spec fn speed_of(maxspeed: Option<&str>, highway: Option<&str>) -> Speed {
    if maxspeed.is_some() && number_of(maxspeed.unwrap()@).is_some() {
        number_of(maxspeed.unwrap()@).unwrap()
    } else if is_value(highway, "motorway") {
        130
    } else if is_value(highway, "residential") {
        50
    } else {
        100
    }
}

/// The speed of a way with the given `maxspeed` and `highway` tags.
pub fn determine_speed(maxspeed: Option<&str>, highway: Option<&str>) -> (speed: Speed)
    ensures
        speed == speed_of(maxspeed, highway),
{
    let limit: Option<usize> = match maxspeed {
        Some(s) => parse_number(s),
        None => None,
    };
    match limit {
        Some(speed) => speed,
        None => {
            if has_value(highway, "motorway") {
                130
            } else if has_value(highway, "residential") {
                50
            } else {
                100
            }
        },
    }
}

/// Whether a way can be used in one direction only: what its `oneway` tag
/// says if that is a truth value; else motorways, and nothing else, are one
/// way.
pub open spec fn one_way(oneway: Option<&str>, highway: Option<&str>) -> bool {
    if oneway.is_some() && truth_of(oneway.unwrap()@).is_some() {
        truth_of(oneway.unwrap()@).unwrap()
    } else {
        is_value(highway, "motorway")
    }
}

/// Whether a way with the given `oneway` and `highway` tags is one way.
pub fn is_one_way(oneway: Option<&str>, highway: Option<&str>) -> (r: bool)
    ensures
        r == one_way(oneway, highway),
{
    let rule: Option<bool> = match oneway {
        Some(s) => parse_truth(s),
        None => None,
    };
    match rule {
        Some(rule) => rule,
        None => has_value(highway, "motorway"),
    }
}

/// The kinds of way that are closed to cars.
pub open spec fn closed_to_cars(highway: Option<&str>) -> bool {
    is_value(highway, "footway") || is_value(highway, "bridleway") || is_value(highway, "steps")
        || is_value(highway, "path") || is_value(highway, "cycleway") || is_value(
        highway,
        "track",
    ) || is_value(highway, "proposed") || is_value(highway, "construction") || is_value(
        highway,
        "pedestrian",
    )
}

/// Whether a way with the given `highway` tag is closed to cars.
pub fn is_not_for_cars(highway: Option<&str>) -> (r: bool)
    ensures
        r == closed_to_cars(highway),
{
    has_value(highway, "footway") || has_value(highway, "bridleway") || has_value(
        highway,
        "steps",
    ) || has_value(highway, "path") || has_value(highway, "cycleway") || has_value(
        highway,
        "track",
    ) || has_value(highway, "proposed") || has_value(highway, "construction") || has_value(
        highway,
        "pedestrian",
    )
}

/// The kinds of way that are closed to pedestrians: the large roads, unless
/// the way has a sidewalk.
pub open spec fn closed_to_pedestrians(highway: Option<&str>, sidewalk: Option<&str>) -> bool {
    if sidewalk.is_some() && !is_value(sidewalk, "no") {
        false
    } else {
        is_value(highway, "motorway") || is_value(highway, "trunk") || is_value(
            highway,
            "proposed",
        ) || is_value(highway, "construction") || is_value(highway, "primary")
    }
}

/// Whether a way with the given `highway` and `sidewalk` tags is closed to
/// pedestrians.
pub fn is_not_for_pedestrians(highway: Option<&str>, sidewalk: Option<&str>) -> (r: bool)
    ensures
        r == closed_to_pedestrians(highway, sidewalk),
{
    let has_side_walk: bool = match sidewalk {
        Some(s) => !same(s, "no"),
        None => false,
    };
    if has_side_walk {
        return false;
    }
    has_value(highway, "motorway") || has_value(highway, "trunk") || has_value(
        highway,
        "proposed",
    ) || has_value(highway, "construction") || has_value(highway, "primary")
}

/// The edge from `source` to `dest` of a way with the given speed and
/// closures.
pub open spec fn way_edge(
    source: NodeId,
    dest: NodeId,
    speed: Speed,
    no_cars: bool,
    no_pedestrians: bool,
) -> EdgeInfo {
    EdgeInfo {
        source,
        dest,
        length: UNMEASURED,
        speed,
        for_cars: !no_cars,
        for_pedestrians: no_cars || !no_pedestrians,
    }
}

/// The edges between two neighbours `a` and `b` of a way: none if the way
/// is closed to all, else the edge from `a` to `b`, followed by the edge
/// back unless the way is one way.
pub open spec fn step_edges(
    a: NodeId,
    b: NodeId,
    speed: Speed,
    is_one_way: bool,
    no_cars: bool,
    no_pedestrians: bool,
) -> Seq<EdgeInfo> {
    if no_cars && no_pedestrians {
        Seq::empty()
    } else if is_one_way {
        seq![way_edge(a, b, speed, no_cars, no_pedestrians)]
    } else {
        seq![
            way_edge(a, b, speed, no_cars, no_pedestrians),
            way_edge(b, a, speed, no_cars, no_pedestrians),
        ]
    }
}

/// The edges of a way through `nodes`, step by step.
pub open spec fn edges_of_way(
    nodes: Seq<NodeId>,
    speed: Speed,
    is_one_way: bool,
    no_cars: bool,
    no_pedestrians: bool,
) -> Seq<EdgeInfo>
    decreases nodes.len(),
{
    if nodes.len() < 2 {
        Seq::empty()
    } else {
        edges_of_way(nodes.drop_last(), speed, is_one_way, no_cars, no_pedestrians) + step_edges(
            nodes[nodes.len() - 2],
            nodes.last(),
            speed,
            is_one_way,
            no_cars,
            no_pedestrians,
        )
    }
}

/// The edges that a way through `nodes` gives.
pub fn way_edges(
    nodes: &[NodeId],
    speed: Speed,
    is_one_way: bool,
    no_cars: bool,
    no_pedestrians: bool,
) -> (edges: Vec<EdgeInfo>)
    ensures
        edges@ == edges_of_way(nodes@, speed, is_one_way, no_cars, no_pedestrians),
{
    let mut edges: Vec<EdgeInfo> = Vec::new();
    if nodes.len() < 2 {
        return edges;
    }
    let count: usize = nodes.len();
    let mut index: usize = 0;
    proof {
        assert(nodes@.take(1).len() < 2);
    }
    while index + 1 < count
        invariant
            count == nodes@.len(),
            index + 1 <= nodes@.len(),
            edges@ == edges_of_way(
                nodes@.take(index + 1),
                speed,
                is_one_way,
                no_cars,
                no_pedestrians,
            ),
        decreases nodes@.len() - index,
    {
        let node: NodeId = nodes[index];
        let next: NodeId = nodes[index + 1];
        let ghost before = edges@;
        proof {
            let upto = nodes@.take(index + 2);
            assert(upto.drop_last() =~= nodes@.take(index + 1));
            assert(upto[upto.len() - 2] == node);
            assert(upto.last() == next);
        }
        if !(no_cars && no_pedestrians) {
            let mut edge = EdgeInfo::new(node, next, UNMEASURED, speed);
            if no_cars {
                edge.not_for_cars();
            } else if no_pedestrians {
                edge.not_for_pedestrians();
            }
            edges.push(edge);
            if !is_one_way {
                let mut edge = EdgeInfo::new(next, node, UNMEASURED, speed);
                if no_cars {
                    edge.not_for_cars();
                } else if no_pedestrians {
                    edge.not_for_pedestrians();
                }
                edges.push(edge);
            }
        }
        proof {
            assert(edges@ =~= before + step_edges(
                node,
                next,
                speed,
                is_one_way,
                no_cars,
                no_pedestrians,
            ));
        }
        index += 1;
    }
    proof {
        assert(nodes@.take(nodes@.len() as int) =~= nodes@);
    }
    edges
}

} // verus!
