//! A priority queue of tentative node costs, cheapest first.

use vstd::prelude::*;
use vstd::multiset::*;
use vstd::seq_lib::*;

verus! {

/// A node with what it costs to reach it along some route, and how long and
/// how far that route is.
#[derive(Debug, Clone, Copy, PartialEq, Eq, Structural)]
pub struct NodeCost {
    pub node: usize,
    pub cost: u128,
    pub time: u128,
    pub distance: u128,
}

/// The order in which entries leave the queue: the cheaper first, and of
/// entries that cost the same the one of the lesser node, then of the
/// lesser time, then of the lesser distance.
pub open spec fn comes_before(a: NodeCost, b: NodeCost) -> bool {
    a.cost < b.cost || (a.cost == b.cost && (a.node < b.node || (a.node == b.node && (a.time
        < b.time || (a.time == b.time && a.distance <= b.distance)))))
}

/// The entry that leaves the queue first.
pub open spec fn least(entries: Multiset<NodeCost>) -> NodeCost {
    choose|e: NodeCost|
        entries.contains(e) && forall|x: NodeCost|
            #[trigger] entries.contains(x) ==> comes_before(e, x)
}

/// An entry that comes before all the others is the entry that leaves the
/// queue first.
pub proof fn lemma_least(entries: Multiset<NodeCost>, e: NodeCost)
    requires
        entries.contains(e),
        forall|x: NodeCost| #[trigger] entries.contains(x) ==> comes_before(e, x),
    ensures
        least(entries) == e,
{
    let c = least(entries);
    assert(comes_before(c, e));
    assert(comes_before(e, c));
}

/// Whether `a` leaves the queue no later than `b`.
fn precedes(a: &NodeCost, b: &NodeCost) -> (r: bool)
    ensures
        r == comes_before(*a, *b),
{
    a.cost < b.cost || (a.cost == b.cost && (a.node < b.node || (a.node == b.node && (a.time
        < b.time || (a.time == b.time && a.distance <= b.distance)))))
}

/// Every entry comes no earlier than its parent in the implicit tree.
pub open spec fn heap_ordered(s: Seq<NodeCost>) -> bool {
    forall|j: int| 0 < j < s.len() ==> comes_before(s[(j - 1) / 2], #[trigger] s[j])
}

/// The order holds everywhere but between `i` and its parent, and the
/// children of `i` come no earlier than the parent of `i`.
spec fn ordered_but_above(s: Seq<NodeCost>, i: int) -> bool {
    &&& forall|j: int| 0 < j < s.len() && j != i ==> comes_before(s[(j - 1) / 2], #[trigger] s[j])
    &&& forall|j: int|
        0 < j < s.len() && (j - 1) / 2 == i && i > 0 ==> comes_before(s[(i - 1) / 2], #[trigger] s[j])
}

/// The order holds everywhere but between `i` and its children, and the
/// children of `i` come no earlier than the parent of `i`.
spec fn ordered_but_below(s: Seq<NodeCost>, i: int) -> bool {
    &&& forall|j: int|
        0 < j < s.len() && (j - 1) / 2 != i ==> comes_before(s[(j - 1) / 2], #[trigger] s[j])
    &&& forall|j: int|
        0 < j < s.len() && (j - 1) / 2 == i && i > 0 ==> comes_before(s[(i - 1) / 2], #[trigger] s[j])
}

/// In an ordered heap no entry comes before the first.
proof fn lemma_root_is_min(s: Seq<NodeCost>, i: int)
    requires
        heap_ordered(s),
        0 <= i < s.len(),
    ensures
        comes_before(s[0], s[i]),
    decreases i,
{
    if i > 0 {
        assert(comes_before(s[(i - 1) / 2], s[i]));
        lemma_root_is_min(s, (i - 1) / 2);
    }
}

/// Exchanging two entries keeps the multiset of entries.
proof fn lemma_swap_keeps_entries(s: Seq<NodeCost>, i: int, j: int)
    requires
        0 <= i < s.len(),
        0 <= j < s.len(),
    ensures
        s.update(i, s[j]).update(j, s[i]).to_multiset() == s.to_multiset(),
{
    broadcast use vstd::multiset::group_multiset_axioms;

    to_multiset_update(s, i, s[j]);
    to_multiset_update(s.update(i, s[j]), j, s[i]);
    s.to_multiset_ensures();
    assert(s.contains(s[i]));
    assert(s.contains(s[j]));
    assert(s.update(i, s[j]).update(j, s[i]).to_multiset() =~= s.to_multiset());
}

/// A binary min-heap of node costs, ordered by `comes_before`.
pub struct CostHeap {
    items: Vec<NodeCost>,
}

impl CostHeap {
    /// The entries of the heap.
    pub closed spec fn view(&self) -> Multiset<NodeCost> {
        self.items@.to_multiset()
    }

    /// The internal order of the heap.
    pub closed spec fn wf(&self) -> bool {
        heap_ordered(self.items@)
    }

    /// An empty heap.
    pub fn new() -> (h: CostHeap)
        ensures
            h.wf(),
            h@ == Multiset::<NodeCost>::empty(),
    {
        let h = CostHeap { items: Vec::new() };
        assert(h.items@.to_multiset() =~= Multiset::<NodeCost>::empty()) by {
            h.items@.to_multiset_ensures();
        }
        h
    }

    /// The number of entries.
    pub fn len(&self) -> (n: usize)
        ensures
            n == self@.len(),
    {
        proof {
            self.items@.to_multiset_ensures();
        }
        self.items.len()
    }

    /// Adds an entry.
    pub fn push(&mut self, entry: NodeCost)
        requires
            old(self).wf(),
        ensures
            final(self).wf(),
            final(self)@ == old(self)@.insert(entry),
    {
        proof {
            to_multiset_build(self.items@, entry);
        }
        self.items.push(entry);
        let mut i: usize = self.items.len() - 1;
        while i > 0 && !precedes(&self.items[(i - 1) / 2], &self.items[i])
            invariant
                i < self.items@.len(),
                self.items@.to_multiset() == old(self)@.insert(entry),
                ordered_but_above(self.items@, i as int),
            decreases i,
        {
            let parent: usize = (i - 1) / 2;
            let above = self.items[parent];
            let below = self.items[i];
            proof {
                lemma_swap_keeps_entries(self.items@, parent as int, i as int);
            }
            self.items[parent] = below;
            self.items[i] = above;
            i = parent;
        }
    }

    /// Takes out the entry that comes before all the others, or returns
    /// `None` if the heap is empty.
    pub fn pop(&mut self) -> (r: Option<NodeCost>)
        requires
            old(self).wf(),
        ensures
            final(self).wf(),
            match r {
                Some(entry) => {
                    &&& old(self)@.contains(entry)
                    &&& final(self)@ == old(self)@.remove(entry)
                    &&& forall|other: NodeCost|
                        #[trigger] old(self)@.contains(other) ==> comes_before(entry, other)
                    &&& entry == least(old(self)@)
                },
                None => old(self)@.len() == 0 && final(self)@ == old(self)@,
            },
    {
        broadcast use vstd::multiset::group_multiset_axioms;

        let ghost before = self.items@;
        proof {
            before.to_multiset_ensures();
        }
        if self.items.len() == 0 {
            return None;
        }
        let last = self.items.pop().unwrap();
        let root = if self.items.len() == 0 {
            last
        } else {
            self.items[0]
        };
        proof {
            assert(before.remove(before.len() - 1) =~= self.items@);
            assert forall|other: NodeCost| #[trigger]
                before.to_multiset().contains(other) implies comes_before(root, other) by {
                assert(before.contains(other));
                let k = choose|k: int| 0 <= k < before.len() && before[k] == other;
                lemma_root_is_min(before, k);
            }
            assert(before.contains(root));
            assert(before.contains(last));
            lemma_least(before.to_multiset(), root);
        }
        if self.items.len() == 0 {
            assert(self.items@.to_multiset() =~= before.to_multiset().remove(root));
            return Some(root);
        }
        proof {
            to_multiset_update(self.items@, 0, last);
        }
        self.items[0] = last;
        assert(self.items@.to_multiset() =~= before.to_multiset().remove(root));
        let n: usize = self.items.len();
        let mut i: usize = 0;
        loop
            invariant
                i < n,
                n == self.items@.len(),
                self.items@.to_multiset() == before.to_multiset().remove(root),
                ordered_but_below(self.items@, i as int),
            ensures
                heap_ordered(self.items@),
                self.items@.to_multiset() == before.to_multiset().remove(root),
            decreases n - i,
        {
            if i >= n / 2 {
                break ;
            }
            let left: usize = 2 * i + 1;
            let right: usize = left + 1;
            let mut least: usize = left;
            if right < n && !precedes(&self.items[left], &self.items[right]) {
                least = right;
            }
            if precedes(&self.items[i], &self.items[least]) {
                break ;
            }
            let above = self.items[i];
            let below = self.items[least];
            proof {
                lemma_swap_keeps_entries(self.items@, i as int, least as int);
            }
            self.items[i] = below;
            self.items[least] = above;
            i = least;
        }
        Some(root)
    }
}

} // verus!
