use dzr::graph::heap::{CostHeap, NodeCost};
use dzr::order::{apply_order, group_offsets, never_decreases, stable_order};
use dzr::wide::Wide;

#[test]
fn stable_order_sorts_and_keeps_equal_keys_in_order() {
    let keys: Vec<u128> = vec![5, 1, 5, 0, 1, 9, 0];
    assert_eq!(vec![3, 6, 1, 4, 0, 2, 5], stable_order(&keys));
}

#[test]
fn stable_order_of_nothing_and_of_one() {
    assert_eq!(Vec::<usize>::new(), stable_order(&Vec::new()));
    assert_eq!(vec![0], stable_order(&vec![u128::MAX]));
}

#[test]
fn apply_order_rearranges() {
    let items = vec!['a', 'b', 'c', 'd'];
    assert_eq!(vec!['c', 'a', 'd', 'b'], apply_order(&items, &vec![2, 0, 3, 1]));
}

#[test]
fn group_offsets_count_the_keys_below() {
    let keys: Vec<usize> = vec![0, 0, 2, 2, 2, 5];
    assert_eq!(vec![0, 2, 2, 5, 5, 5, 6], group_offsets(&keys, 6));
    assert_eq!(vec![0, 0, 0], group_offsets(&Vec::new(), 2));
    assert_eq!(vec![0], group_offsets(&Vec::new(), 0));
}

#[test]
fn heap_gives_the_cheapest_first() {
    let mut heap = CostHeap::new();
    assert_eq!(0, heap.len());
    assert!(heap.pop().is_none());
    for (node, cost) in [(1usize, 50u128), (2, 10), (3, 40), (4, 10), (5, 0), (6, 99)] {
        heap.push(NodeCost { node, cost, time: 2 * cost, distance: 3 * cost });
    }
    assert_eq!(6, heap.len());
    let mut costs = Vec::new();
    while let Some(e) = heap.pop() {
        assert_eq!(2 * e.cost, e.time);
        assert_eq!(3 * e.cost, e.distance);
        costs.push(e.cost);
    }
    assert_eq!(vec![0, 10, 10, 40, 50, 99], costs);
    assert_eq!(0, heap.len());
}

#[test]
fn never_decreases_looks_at_every_step() {
    assert!(never_decreases(&vec![]));
    assert!(never_decreases(&vec![3]));
    assert!(never_decreases(&vec![1, 1, 2, 5, 5]));
    assert!(!never_decreases(&vec![1, 2, 1]));
    assert!(!never_decreases(&vec![2, 1]));
}

#[test]
fn entries_that_cost_the_same_leave_by_node_time_and_distance() {
    let mut heap = CostHeap::new();
    let entries = [
        NodeCost { node: 4, cost: 7, time: 1, distance: 1 },
        NodeCost { node: 2, cost: 7, time: 9, distance: 0 },
        NodeCost { node: 2, cost: 7, time: 3, distance: 8 },
        NodeCost { node: 2, cost: 7, time: 3, distance: 5 },
        NodeCost { node: 9, cost: 6, time: 9, distance: 9 },
        NodeCost { node: 0, cost: 8, time: 0, distance: 0 },
        NodeCost { node: 2, cost: 7, time: 3, distance: 5 },
    ];
    for e in entries {
        heap.push(e);
    }
    let mut left = Vec::new();
    while let Some(e) = heap.pop() {
        left.push((e.cost, e.node, e.time, e.distance));
    }
    assert_eq!(
        vec![
            (6, 9, 9, 9),
            (7, 2, 3, 5),
            (7, 2, 3, 5),
            (7, 2, 3, 8),
            (7, 2, 9, 0),
            (7, 4, 1, 1),
            (8, 0, 0, 0),
        ],
        left
    );
}

#[test]
fn wide_numbers_multiply_add_and_compare() {
    let most: u128 = (1 << 96) - 1;
    assert!(Wide::product(0, most).is_zero());
    assert!(!Wide::product(1, 1).is_zero());
    assert!(Wide::product(3, 4).same(&Wide::product(2, 6)));
    assert!(Wide::product(1 << 95, 1 << 95)
        .same(&Wide::product(1 << 94, most).sum(&Wide::product(1 << 94, 1))));
    assert!(Wide::product(most, most).le(&Wide::product(most, most)));
    assert!(Wide::product(most - 1, most).le(&Wide::product(most, most)));
    assert!(!Wide::product(most, most).le(&Wide::product(most - 1, most)));
    // 3^2 + 4^2 = 5^2, scaled by 2^90
    let scale: u128 = 1 << 90;
    let legs = Wide::product(3 * scale, 3 * scale).sum(&Wide::product(4 * scale, 4 * scale));
    assert!(legs.same(&Wide::product(5 * scale, 5 * scale)));
    assert!(!legs.same(&Wide::product(5 * scale, 5 * scale + 1)));
    assert!(legs.le(&Wide::product(5 * scale, 5 * scale + 1)));
    // the low parts carry into the high part
    let low = Wide::product(1 << 48, (1 << 48) - 1);
    assert!(low.sum(&Wide::product(1 << 48, 1)).same(&Wide::product(1 << 48, 1 << 48)));
}
