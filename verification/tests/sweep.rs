use dzr::geom::{intersect, SegmentSection, UNIT};
use dzr::graph::{EdgeInfo, Graph, Movement, NodeInfo, RoutingGoal};
use dzr::grid::radius::RadiusIter;
use dzr::grid::Grid;
use dzr::order::stable_order;
use dzr::towers::{accumulate_sections, Provider, Tower, TowerType};

// A small generator of numbers that look random.
struct Numbers(u64);

impl Numbers {
    fn next(&mut self) -> u64 {
        self.0 = self.0.wrapping_mul(6364136223846793005).wrapping_add(1442695040888963407);
        self.0 >> 33
    }

    fn below(&mut self, n: u64) -> u64 {
        self.next() % n
    }
}

fn manhattan(a: (i64, i64), b: (i64, i64)) -> u64 {
    a.0.abs_diff(b.0) + a.1.abs_diff(b.1)
}

fn plain(point: (i64, i64), _lat0: i64) -> (i64, i64) {
    point
}

#[test]
fn rings_hold_the_cells_at_their_distance() {
    for size in 1..8isize {
        for center in 0..size * size {
            let (cx, cy) = (center % size, center / size);
            let mut met = 0;
            for radius in 0..size + 2 {
                let mut expected = Vec::new();
                for c in 0..size * size {
                    let (x, y) = (c % size, c / size);
                    if (x - cx).abs().max((y - cy).abs()) == radius {
                        expected.push(c as usize);
                    }
                }
                let mut r = RadiusIter::new(center, size, radius);
                let mut found = Vec::new();
                while let Some(c) = r.next() {
                    found.push(c);
                }
                assert_eq!(expected, found, "size {} center {} radius {}", size, center, radius);
                assert_eq!(None, r.next());
                if radius >= 1 {
                    assert!(found.len() <= 8 * radius as usize);
                } else {
                    assert_eq!(vec![center as usize], found);
                }
                met += found.len();
            }
            assert_eq!((size * size) as usize, met);
        }
    }
}

#[test]
fn stable_order_agrees_with_a_stable_sort() {
    let mut numbers = Numbers(7);
    for round in 0..50 {
        let keys: Vec<u128> = (0..round * 3).map(|_| numbers.below(10) as u128).collect();
        let mut expected: Vec<usize> = (0..keys.len()).collect();
        expected.sort_by_key(|&i| keys[i]);
        assert_eq!(expected, stable_order(&keys));
    }
}

#[test]
fn union_length_agrees_with_counting() {
    let mut numbers = Numbers(11);
    for round in 0..200 {
        let count = numbers.below(8) as usize;
        let mut sections = Vec::new();
        let mut covered = vec![false; 64];
        for _ in 0..count {
            let a = numbers.below(65) as i64;
            let b = numbers.below(65) as i64;
            sections.push(SegmentSection::new(a, b));
            for t in a.min(b)..a.max(b) {
                covered[t as usize] = true;
            }
        }
        let expected = covered.iter().filter(|c| **c).count() as u64;
        assert_eq!(expected, accumulate_sections(sections), "round {}", round);
    }
}

#[test]
fn intersection_is_the_run_of_points_in_the_disk() {
    let mut numbers = Numbers(13);
    let inside = |a: (i64, i64), b: (i64, i64), c: (i64, i64), r: u64, k: i128| {
        let unit = UNIT as i128;
        let x = unit * (a.0 - c.0) as i128 + k * (b.0 - a.0) as i128;
        let y = unit * (a.1 - c.1) as i128 + k * (b.1 - a.1) as i128;
        x * x + y * y <= (unit * r as i128) * (unit * r as i128)
    };
    for round in 0..2000 {
        let mut coord = || numbers.below(41) as i64 - 20;
        let a = (coord(), coord());
        let b = (coord(), coord());
        let c = (coord(), coord());
        let r = numbers.below(30);
        let s = intersect(&a, &b, &c, r);
        let (start, end) = (s.start_point() as i128, s.end_point() as i128);
        if start == 0 && end == 0 {
            // nothing but, at most, the start of the segment lies in the disk,
            // or the line does no more than touch the circle
            let u = (b.0 - a.0, b.1 - a.1);
            let v = (a.0 - c.0, a.1 - c.1);
            let alpha = (u.0 * u.0 + u.1 * u.1) as i128;
            let beta = (u.0 * v.0 + u.1 * v.1) as i128;
            let gamma = (v.0 * v.0 + v.1 * v.1) as i128 - (r * r) as i128;
            if beta * beta - alpha * gamma > 0 {
                for k in [1, 2, UNIT as i128 / 2, UNIT as i128 - 1, UNIT as i128] {
                    assert!(!inside(a, b, c, r, k), "round {}", round);
                }
            }
        } else {
            assert!(inside(a, b, c, r, start), "round {}", round);
            assert!(inside(a, b, c, r, end), "round {}", round);
            assert!(inside(a, b, c, r, (start + end) / 2), "round {}", round);
            if start > 0 {
                assert!(!inside(a, b, c, r, start - 1), "round {}", round);
            }
            if end < UNIT as i128 {
                assert!(!inside(a, b, c, r, end + 1), "round {}", round);
            }
        }
    }
}

#[test]
fn intersection_far_out_is_the_run_of_points_in_the_disk() {
    let mut numbers = Numbers(23);
    // sums of squares of numbers below 2^95, as a high and a low part
    let square_sum = |x: i128, y: i128| -> (u128, u128) {
        let wide = |v: i128| -> (u128, u128) {
            let v = v.unsigned_abs();
            let (h, l) = (v >> 64, v & 0xffff_ffff_ffff_ffff);
            // (h * 2^64 + l)^2 = h^2 * 2^128 + 2 * h * l * 2^64 + l^2
            let mid = 2 * h * l;
            let (low, carry) = (l * l).overflowing_add(mid << 64);
            (h * h + (mid >> 64) + carry as u128, low)
        };
        let (a, b) = (wide(x), wide(y));
        let (low, carry) = a.1.overflowing_add(b.1);
        (a.0 + b.0 + carry as u128, low)
    };
    let inside = |a: (i64, i64), b: (i64, i64), c: (i64, i64), r: u64, k: i128| {
        let unit = UNIT as i128;
        let x = unit * (a.0 as i128 - c.0 as i128) + k * (b.0 as i128 - a.0 as i128);
        let y = unit * (a.1 as i128 - c.1 as i128) + k * (b.1 as i128 - a.1 as i128);
        square_sum(x, y) <= square_sum(unit * r as i128, 0)
    };
    for round in 0..2000 {
        let shift = numbers.below(40) as u32;
        let mut coord = || ((numbers.next() << 33 | numbers.next()) as i64) >> shift;
        let a = (coord(), coord());
        let b = (coord(), coord());
        let c = (coord(), coord());
        let r = (coord() as u64) >> numbers.below(3);
        let s = intersect(&a, &b, &c, r);
        let (start, end) = (s.start_point() as i128, s.end_point() as i128);
        if start == 0 && end == 0 {
            for k in [1, 2, UNIT as i128 / 3, UNIT as i128 / 2, UNIT as i128 - 1, UNIT as i128] {
                assert!(!inside(a, b, c, r, k), "round {}", round);
            }
        } else {
            assert!(inside(a, b, c, r, start), "round {}", round);
            assert!(inside(a, b, c, r, end), "round {}", round);
            assert!(inside(a, b, c, r, (start + end) / 2), "round {}", round);
            if start > 0 {
                assert!(!inside(a, b, c, r, start - 1), "round {}", round);
            }
            if end < UNIT as i128 {
                assert!(!inside(a, b, c, r, end + 1), "round {}", round);
            }
        }
    }
}

#[test]
fn nearest_neighbor_agrees_with_a_search_of_all_nodes() {
    let mut numbers = Numbers(17);
    for round in 0..60 {
        let count = 1 + numbers.below(30) as usize;
        let mut nodes: Vec<NodeInfo> = (0..count)
            .map(|i| NodeInfo::new(i, numbers.below(1000) as i64, numbers.below(1000) as i64, 0))
            .collect();
        let side = 1 + numbers.below(12) as usize;
        let g = Grid::new(&mut nodes, side);
        for _ in 0..20 {
            let lat = numbers.below(1000) as i64;
            let long = numbers.below(1000) as i64;
            let found = g.nearest_neighbor(lat, long, &nodes, &manhattan);
            if g.b_box.contains_point(lat, long) {
                let found = found.unwrap();
                let least = nodes.iter().map(|n| manhattan((lat, long), (n.lat, n.long))).min();
                assert_eq!(
                    least.unwrap(),
                    manhattan((lat, long), (found.1.lat, found.1.long)),
                    "round {}",
                    round
                );
                assert_eq!(nodes[found.0].osm_id, found.1.osm_id);
            } else {
                assert!(found.is_err());
            }
        }
    }
}

#[test]
fn routes_are_as_cheap_as_any() {
    let mut numbers = Numbers(19);
    for round in 0..40 {
        let count = 2 + numbers.below(7) as usize;
        let nodes: Vec<NodeInfo> = (0..count)
            .map(|i| NodeInfo::new(i, numbers.below(50) as i64, numbers.below(50) as i64, 0))
            .collect();
        let mut edges = Vec::new();
        for _ in 0..numbers.below(20) {
            let mut e = EdgeInfo::new(
                numbers.below(count as u64) as usize,
                numbers.below(count as u64) as usize,
                0,
                1 + numbers.below(4) as usize,
            );
            if numbers.below(5) == 0 {
                e.not_for_cars();
            }
            edges.push(e);
        }
        let mut towers = vec![
            Tower { radio: TowerType::LTE, net: Provider::O2, lat: 0, lon: 0, range: 30 },
            Tower { radio: TowerType::LTE, net: Provider::O2, lat: 49, lon: 49, range: 20 },
        ];
        let g = Graph::new(nodes, edges, &mut towers, &manhattan, &plain);
        assert!(g.is_valid());
        let n = g.node_count();
        let coverage = g.coverage.get_all(Some(Provider::O2)).unwrap().clone();
        let scale: u128 = (1 << 52) + 1;
        for (goal, provider) in [
            (RoutingGoal::Length, None),
            (RoutingGoal::Speed, None),
            (RoutingGoal::Length, Some(Provider::O2)),
        ] {
            // the least costs from node 0, by relaxing all edges again and again
            let mut least: Vec<Option<u128>> = vec![None; n];
            least[0] = Some(0);
            for _ in 0..n {
                for u in 0..n {
                    let mut iter = g.outgoing_edges_for(u);
                    while let Some((e, edge)) = iter.next() {
                        if !edge.for_cars {
                            continue;
                        }
                        let raw = if goal == RoutingGoal::Length { edge.length } else { edge.time };
                        let cost = match provider {
                            Some(_) => raw as u128 * scale / (coverage[e] as u128 * 12_582_912 + 1),
                            None => raw as u128,
                        };
                        if let Some(base) = least[u] {
                            let next = base + cost;
                            if least[edge.endpoint].map_or(true, |old| next < old) {
                                least[edge.endpoint] = Some(next);
                            }
                        }
                    }
                }
            }
            let mut d = g.dijkstra();
            for dest in 0..n {
                let route = d.distance(0, dest, goal, Movement::Car, provider);
                assert_eq!(least[dest].is_some(), route.is_some(), "round {}", round);
                if let Some(route) = route {
                    // the cost of the route, step by step
                    let seq: Vec<usize> = route.node_seq.iter().cloned().collect();
                    assert_eq!(0, seq[0]);
                    assert_eq!(dest, seq[seq.len() - 1]);
                    let mut cost: u128 = 0;
                    let mut length: u128 = 0;
                    let mut time: u128 = 0;
                    for step in seq.windows(2) {
                        let mut iter = g.outgoing_edges_for(step[0]);
                        let mut taken = None;
                        while let Some((e, edge)) = iter.next() {
                            if edge.endpoint == step[1] && edge.for_cars {
                                taken = Some((e, *edge));
                            }
                        }
                        let (e, edge) = taken.unwrap();
                        let raw = if goal == RoutingGoal::Length { edge.length } else { edge.time };
                        cost += match provider {
                            Some(_) => raw as u128 * scale / (coverage[e] as u128 * 12_582_912 + 1),
                            None => raw as u128,
                        };
                        length += edge.length as u128;
                        time += edge.time as u128;
                    }
                    assert_eq!(least[dest].unwrap(), cost, "round {}", round);
                    assert_eq!(length, route.distance);
                    assert_eq!(time, route.travel_time);
                }
            }
        }
    }
}
