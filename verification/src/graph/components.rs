//! Counting the components of a graph with a weighted union-find.

use vstd::prelude::*;
use vstd::relations::*;
use vstd::set_lib::*;
use super::Graph;

verus! {

/// A partition of the numbers below `size` into classes, each a tree with
/// one of its members at the root.
pub struct UnionFind {
    parent: Vec<usize>,
    weight: Vec<usize>,
    rank: Ghost<Seq<nat>>,
}

impl UnionFind {
    /// How many numbers the partition holds.
    pub closed spec fn size(&self) -> int {
        self.parent@.len() as int
    }

    /// The step from `i` towards its root leads upwards.
    spec fn climbs(&self, i: int) -> bool {
        &&& 0 <= i < self.size()
        &&& self.parent@[i] != i
        &&& self.parent@[i] < self.size()
        &&& self.rank@[i] < self.rank@[self.parent@[i] as int] < self.size()
    }

    /// Where the steps from `i` upwards end.
    spec fn top(&self, i: int) -> int
        decreases self.size() - self.rank@[i],
    {
        if self.climbs(i) {
            self.top(self.parent@[i] as int)
        } else {
            i
        }
    }

    /// The root of the class of `i`.
    pub closed spec fn root(&self, i: int) -> int {
        self.top(i)
    }

    /// Whether `i` and `j` are in one class.
    pub open spec fn same(&self, i: int, j: int) -> bool {
        self.root(i) == self.root(j)
    }

    /// The members of the class with root `r`.
    pub open spec fn members(&self, r: int) -> Set<int> {
        Set::new(|i: int| 0 <= i < self.size() && self.root(i) == r)
    }

    /// The roots of the classes.
    pub open spec fn roots(&self) -> Set<int> {
        Set::new(|i: int| 0 <= i < self.size() && self.root(i) == i)
    }

    /// Every member leads upwards to the root of its class, which knows how
    /// many members the class has.
    pub closed spec fn wf(&self) -> bool {
        &&& self.weight@.len() == self.size()
        &&& self.rank@.len() == self.size()
        &&& forall|i: int| 0 <= i < self.size() ==> (#[trigger] self.parent@[i]) < self.size()
        &&& forall|i: int| 0 <= i < self.size() ==> (#[trigger] self.rank@[i]) < self.size()
        &&& forall|i: int|
            0 <= i < self.size() && self.parent@[i] != i ==> (#[trigger] self.rank@[i])
                < self.rank@[self.parent@[i] as int]
        &&& forall|i: int|
            0 <= i < self.size() && self.parent@[i] == i ==> self.rank@[i] < (
            #[trigger] self.weight@[i]) && self.weight@[i] == self.members(i).len()
    }

    /// The class of a number has a root, which is its own root, and no
    /// member ranks above it.
    pub proof fn lemma_root(&self, i: int)
        requires
            self.wf(),
            0 <= i < self.size(),
        ensures
            0 <= self.root(i) < self.size(),
            self.root(self.root(i)) == self.root(i),
            self.members(self.root(i)).contains(i),
            self.roots().contains(self.root(i)),
    {
        self.lemma_climb(i);
    }

    /// What the steps upwards from `i` lead to.
    proof fn lemma_climb(&self, i: int)
        requires
            self.wf(),
            0 <= i < self.size(),
        ensures
            0 <= self.root(i) < self.size(),
            self.parent@[self.root(i)] == self.root(i),
            self.root(self.root(i)) == self.root(i),
            self.rank@[i] <= self.rank@[self.root(i)],
            self.parent@[i] != i ==> self.rank@[i] < self.rank@[self.root(i)],
            self.parent@[i] != i ==> self.root(i) == self.root(self.parent@[i] as int),
            self.parent@[i] == i <==> self.root(i) == i,
        decreases self.size() - self.rank@[i],
    {
        if self.parent@[i] != i {
            let p = self.parent@[i] as int;
            assert(self.rank@[i] < self.rank@[p]);
            self.lemma_climb(p);
        }
    }

    /// A class has no more members than there are numbers.
    proof fn lemma_members_bounded(&self, r: int)
        ensures
            self.members(r).finite(),
            self.members(r).len() <= self.size(),
    {
        lemma_int_range(0, self.size());
        assert(self.members(r).subset_of(set_int_range(0, self.size())));
        lemma_len_subset(self.members(r), set_int_range(0, self.size()));
    }

    /// Hanging `x` directly under its root changes no root.
    proof fn lemma_short_cut_keeps_root(&self, after: &UnionFind, x: int, j: int)
        requires
            self.wf(),
            0 <= x < self.size(),
            self.parent@[x] != x,
            after.parent@ == self.parent@.update(x, self.root(x) as usize),
            after.weight@ == self.weight@,
            after.rank@ == self.rank@,
            0 <= j < self.size(),
        ensures
            after.root(j) == self.root(j),
        decreases self.size() - self.rank@[j],
    {
        self.lemma_climb(x);
        self.lemma_climb(j);
        let r = self.root(x);
        if j == x {
            assert(after.climbs(x));
            assert(!after.climbs(r));
            assert(after.top(x) == after.top(r));
            assert(after.top(r) == r);
        } else if self.parent@[j] != j {
            let p = self.parent@[j] as int;
            assert(self.rank@[j] < self.rank@[p]);
            assert(after.climbs(j));
            assert(self.climbs(j));
            self.lemma_short_cut_keeps_root(after, x, p);
            assert(after.top(j) == after.top(p));
            assert(self.top(j) == self.top(p));
        } else {
            assert(!after.climbs(j));
            assert(!self.climbs(j));
        }
    }

    /// Hanging `x` directly under its root keeps the partition.
    proof fn lemma_short_cut(&self, after: &UnionFind, x: int)
        requires
            self.wf(),
            0 <= x < self.size(),
            self.parent@[x] != x,
            after.parent@ == self.parent@.update(x, self.root(x) as usize),
            after.weight@ == self.weight@,
            after.rank@ == self.rank@,
        ensures
            after.wf(),
            after.size() == self.size(),
            forall|j: int| 0 <= j < self.size() ==> after.root(j) == self.root(j),
    {
        self.lemma_climb(x);
        assert forall|j: int| 0 <= j < self.size() implies after.root(j) == self.root(j) by {
            self.lemma_short_cut_keeps_root(after, x, j);
        }
        assert forall|i: int| 0 <= i < self.size() implies after.members(i) == self.members(i) by {
            assert(after.members(i) =~= self.members(i));
        }
        assert forall|i: int|
            0 <= i < after.size() && after.parent@[i] == i implies after.rank@[i] < (
        #[trigger] after.weight@[i]) && after.weight@[i] == after.members(i).len() by {
            assert(self.parent@[i] == i);
            assert(after.members(i) == self.members(i));
        }
    }

    /// Hanging the root `small` under the root `big` moves the members of
    /// `small` to the class of `big`.
    proof fn lemma_link_moves_root(&self, after: &UnionFind, small: int, big: int, j: int)
        requires
            self.wf(),
            0 <= small < self.size(),
            0 <= big < self.size(),
            small != big,
            self.parent@[small] == small,
            self.parent@[big] == big,
            after.parent@ == self.parent@.update(small, big as usize),
            after.rank@ == self.rank@.update(
                big,
                if self.rank@[big] > self.rank@[small] {
                    self.rank@[big]
                } else {
                    self.rank@[small] + 1
                },
            ),
            after.rank@[big] < self.size(),
            after.weight@.len() == self.size(),
            0 <= j < self.size(),
        ensures
            after.root(j) == if self.root(j) == small {
                big
            } else {
                self.root(j)
            },
        decreases self.size() - self.rank@[j],
    {
        self.lemma_climb(j);
        if j == small {
            assert(after.climbs(small));
            assert(!after.climbs(big));
            assert(after.top(small) == after.top(big));
            assert(after.top(big) == big);
            assert(!self.climbs(small));
        } else if self.parent@[j] != j {
            let p = self.parent@[j] as int;
            assert(self.rank@[j] < self.rank@[p]);
            assert(after.rank@[j] == self.rank@[j]);
            assert(after.rank@[p] >= self.rank@[p]);
            assert(after.climbs(j));
            assert(self.climbs(j));
            self.lemma_link_moves_root(after, small, big, p);
            assert(after.top(j) == after.top(p));
            assert(self.top(j) == self.top(p));
        } else {
            assert(!after.climbs(j));
            assert(!self.climbs(j));
        }
    }

    /// A partition of `n` numbers into classes of one.
    pub fn new(n: usize) -> (u: UnionFind)
        ensures
            u.wf(),
            u.size() == n,
            forall|i: int| 0 <= i < n ==> u.root(i) == i,
    {
        let mut parent: Vec<usize> = Vec::new();
        let mut weight: Vec<usize> = Vec::new();
        let mut i: usize = 0;
        while i < n
            invariant
                i <= n,
                parent@.len() == i,
                weight@.len() == i,
                forall|k: int| 0 <= k < i ==> parent@[k] == k && weight@[k] == 1,
            decreases n - i,
        {
            parent.push(i);
            weight.push(1);
            i += 1;
        }
        let u = UnionFind { parent, weight, rank: Ghost(Seq::new(n as nat, |k: int| 0nat)) };
        proof {
            assert forall|k: int| 0 <= k < n implies u.root(k) == k by {
                assert(!u.climbs(k));
            }
            assert forall|k: int| 0 <= k < u.size() && u.parent@[k] == k implies u.rank@[k] < (
            #[trigger] u.weight@[k]) && u.weight@[k] == u.members(k).len() by {
                assert(u.members(k) =~= set![k]);
            }
        }
        u
    }

    /// The root of the class of `i`. The members on the way to the root are
    /// hung directly under it.
    pub fn find(&mut self, i: usize) -> (r: usize)
        requires
            old(self).wf(),
            i < old(self).size(),
        ensures
            final(self).wf(),
            final(self).size() == old(self).size(),
            r == old(self).root(i as int),
            forall|j: int| 0 <= j < old(self).size() ==> final(self).root(j) == old(self).root(j),
    {
        let mut r: usize = i;
        proof {
            self.lemma_climb(i as int);
        }
        while self.parent[r] != r
            invariant
                self.wf(),
                *self == *old(self),
                r < self.size(),
                self.root(r as int) == self.root(i as int),
            decreases self.size() - self.rank@[r as int],
        {
            proof {
                self.lemma_climb(r as int);
            }
            r = self.parent[r];
        }
        proof {
            self.lemma_climb(r as int);
        }
        let mut x: usize = i;
        while self.parent[x] != x
            invariant
                self.wf(),
                self.size() == old(self).size(),
                self.rank@ == old(self).rank@,
                x < self.size(),
                r < self.size(),
                self.root(x as int) == r,
                r == old(self).root(i as int),
                forall|j: int| 0 <= j < old(self).size() ==> self.root(j) == old(self).root(j),
            decreases self.size() - self.rank@[x as int],
        {
            let next: usize = self.parent[x];
            let ghost before = *self;
            proof {
                before.lemma_climb(x as int);
            }
            self.parent[x] = r;
            proof {
                before.lemma_short_cut(&*self, x as int);
            }
            x = next;
        }
        r
    }

    /// Joins the classes of `a` and `b`: the root of the class with fewer
    /// members is hung under the other root.
    pub fn union(&mut self, a: usize, b: usize)
        requires
            old(self).wf(),
            a < old(self).size(),
            b < old(self).size(),
        ensures
            final(self).wf(),
            final(self).size() == old(self).size(),
            forall|i: int, j: int|
                0 <= i < old(self).size() && 0 <= j < old(self).size() ==> (final(self).same(i, j)
                    <==> old(self).same(i, j) || (old(self).same(i, a as int) && old(self).same(
                    j,
                    b as int,
                )) || (old(self).same(i, b as int) && old(self).same(j, a as int))),
    {
        let ra: usize = self.find(a);
        let rb: usize = self.find(b);
        if ra == rb {
            return ;
        }
        proof {
            self.lemma_climb(a as int);
            self.lemma_climb(b as int);
        }
        let (small, big): (usize, usize) = if self.weight[ra] < self.weight[rb] {
            (ra, rb)
        } else {
            (rb, ra)
        };
        let n: usize = self.parent.len();
        let ghost before = *self;
        proof {
            before.lemma_members_bounded(small as int);
            before.lemma_members_bounded(big as int);
            before.lemma_members_bounded(-1);
            let both = before.members(small as int).union(before.members(big as int));
            assert(before.members(small as int).disjoint(before.members(big as int)));
            lemma_set_disjoint_lens(before.members(small as int), before.members(big as int));
            lemma_int_range(0, before.size());
            assert(both.subset_of(set_int_range(0, before.size())));
            lemma_len_subset(both, set_int_range(0, before.size()));
            assert(before.weight@[small as int] + before.weight@[big as int] <= n);
        }
        self.parent[small] = big;
        self.weight[big] = self.weight[big] + self.weight[small];
        proof {
            let top: nat = if before.rank@[big as int] > before.rank@[small as int] {
                before.rank@[big as int]
            } else {
                before.rank@[small as int] + 1
            };
            self.rank@ = before.rank@.update(big as int, top);
        }
        proof {
            let after = *self;
            assert forall|j: int| 0 <= j < before.size() implies after.root(j) == if before.root(j)
                == small {
                big as int
            } else {
                before.root(j)
            } by {
                before.lemma_link_moves_root(&after, small as int, big as int, j);
            }
            assert(after.members(big as int) =~= before.members(small as int).union(
                before.members(big as int),
            )) by {
                assert forall|j: int| 0 <= j < before.size() implies (after.root(j) == big
                    <==> before.root(j) == small || before.root(j) == big) by {
                    before.lemma_climb(j);
                }
            }
            assert forall|i: int|
                0 <= i < after.size() && after.parent@[i] == i implies after.rank@[i] < (
            #[trigger] after.weight@[i]) && after.weight@[i] == after.members(i).len() by {
                if i != big {
                    assert(after.members(i) =~= before.members(i)) by {
                        assert forall|j: int| 0 <= j < before.size() implies (after.root(j) == i
                            <==> before.root(j) == i) by {
                            before.lemma_climb(j);
                        }
                    }
                }
            }
            assert forall|i: int|
                0 <= i < after.size() && after.parent@[i] != i implies (#[trigger] after.rank@[i])
                < after.rank@[after.parent@[i] as int] by {
                if i != small {
                    assert(before.parent@[i] != i);
                    assert(before.rank@[i] < before.rank@[before.parent@[i] as int]);
                }
            }
        }
    }

    /// The number of classes.
    pub fn count_roots(&self) -> (r: usize)
        requires
            self.wf(),
        ensures
            r == self.roots().len(),
    {
        let n: usize = self.parent.len();
        let mut count: usize = 0;
        let mut i: usize = 0;
        let ghost mut seen: Set<int> = Set::empty();
        while i < n
            invariant
                self.wf(),
                n == self.size(),
                i <= n,
                count <= i,
                seen.finite(),
                count == seen.len(),
                seen == Set::new(|k: int| 0 <= k < i && self.root(k) == k),
            decreases n - i,
        {
            proof {
                self.lemma_climb(i as int);
            }
            let ghost more = Set::new(|k: int| 0 <= k < i + 1 && self.root(k) == k);
            if self.parent[i] == i {
                proof {
                    assert(more =~= seen.insert(i as int));
                    seen = more;
                }
                count += 1;
            } else {
                proof {
                    assert(more =~= seen);
                    seen = more;
                }
            }
            i += 1;
        }
        proof {
            assert(seen =~= self.roots());
        }
        count
    }
}

impl Graph {
    /// Half-edge `e` joins the nodes `u` and `v`, in one direction or the
    /// other.
    pub open spec fn linked_by(&self, u: int, e: int, v: int) -> bool {
        self.has_edge(u, e, v) || self.has_edge(v, e, u)
    }

    /// A half-edge joins the nodes `u` and `v`.
    pub open spec fn linked(&self, u: int, v: int) -> bool {
        exists|e: int| #[trigger] self.linked_by(u, e, v)
    }

    /// `path` leads from `u` to `v` along half-edges, whatever their
    /// direction.
    pub open spec fn is_way(&self, path: Seq<int>, u: int, v: int) -> bool {
        &&& path.len() >= 1
        &&& path[0] == u
        &&& path.last() == v
        &&& forall|i: int| 0 <= i < path.len() ==> 0 <= #[trigger] path[i] < self.size()
        &&& forall|i: int| 0 <= i < path.len() - 1 ==> self.linked(#[trigger] path[i], path[i + 1])
    }

    /// The nodes `u` and `v` belong to one component: some way leads from
    /// one to the other.
    pub open spec fn joined(&self, u: int, v: int) -> bool {
        exists|path: Seq<int>| #[trigger] self.is_way(path, u, v)
    }

    /// `label` gives every node a node of its component, the same to all
    /// the nodes of a component, and that node to itself.
    pub open spec fn labels_components(&self, label: Seq<int>) -> bool {
        &&& label.len() == self.size()
        &&& forall|u: int|
            0 <= u < self.size() ==> 0 <= #[trigger] label[u] < self.size() && label[label[u]]
                == label[u]
        &&& forall|u: int, v: int|
            0 <= u < self.size() && 0 <= v < self.size() ==> (#[trigger] label[u] == #[trigger] label[v]
                <==> self.joined(u, v))
    }

    /// The nodes that `label` gives to themselves: one for each component.
    pub open spec fn heads(&self, label: Seq<int>) -> Set<int> {
        Set::new(|i: int| 0 <= i < self.size() && label[i] == i)
    }

    /// However the components are labelled, there are as many heads: the
    /// number of components.
    pub proof fn lemma_heads_count(&self, first: Seq<int>, second: Seq<int>)
        requires
            self.labels_components(first),
            self.labels_components(second),
        ensures
            self.heads(first).finite(),
            self.heads(first).len() == self.heads(second).len(),
    {
        let a = self.heads(first);
        let b = self.heads(second);
        let f = |h: int| second[h];
        lemma_int_range(0, self.size());
        assert(a.subset_of(set_int_range(0, self.size())));
        lemma_len_subset(a, set_int_range(0, self.size()));
        assert forall|x: int, y: int| a.contains(x) && a.contains(y) && #[trigger] f(x)
            == #[trigger] f(y) implies x == y by {
            assert(second[x] == second[y]);
            assert(self.joined(x, y));
            assert(first[x] == first[y]);
        }
        assert(injective_on(f, a));
        assert forall|h: int| b.contains(h) implies a.map(f).contains(h) by {
            let g = first[h];
            assert(first[g] == first[h]);
            assert(self.joined(g, h));
            assert(second[g] == second[h]);
            assert(a.contains(g) && f(g) == h);
        }
        assert forall|h: int| a.map(f).contains(h) implies b.contains(h) by {
            let g = choose|g: int| a.contains(g) && f(g) == h;
            assert(second[second[g]] == second[g]);
        }
        assert(a.map(f) =~= b);
        lemma_map_size(a, b, f);
    }

    /// Every node is joined to itself.
    pub proof fn lemma_joined_self(&self, u: int)
        requires
            0 <= u < self.size(),
        ensures
            self.joined(u, u),
    {
        assert(self.is_way(seq![u], u, u));
    }

    /// The two ends of a half-edge are joined.
    pub proof fn lemma_joined_step(&self, u: int, v: int)
        requires
            0 <= u < self.size(),
            0 <= v < self.size(),
            self.linked(u, v),
        ensures
            self.joined(u, v),
    {
        assert(self.is_way(seq![u, v], u, v));
    }

    /// Being joined goes both ways.
    pub proof fn lemma_joined_back(&self, u: int, v: int)
        requires
            self.joined(u, v),
        ensures
            self.joined(v, u),
    {
        let path = choose|path: Seq<int>| #[trigger] self.is_way(path, u, v);
        let back = Seq::new(path.len(), |i: int| path[path.len() - 1 - i]);
        assert forall|i: int| 0 <= i < back.len() - 1 implies self.linked(
            #[trigger] back[i],
            back[i + 1],
        ) by {
            let k = path.len() - 2 - i;
            assert(self.linked(path[k], path[k + 1]));
            let e = choose|e: int| #[trigger] self.linked_by(path[k], e, path[k + 1]);
            assert(self.linked_by(path[k + 1], e, path[k]));
        }
        assert(self.is_way(back, v, u));
    }

    /// Nodes joined to one node are joined to each other.
    pub proof fn lemma_joined_on(&self, u: int, v: int, w: int)
        requires
            self.joined(u, v),
            self.joined(v, w),
        ensures
            self.joined(u, w),
    {
        let first = choose|path: Seq<int>| #[trigger] self.is_way(path, u, v);
        let second = choose|path: Seq<int>| #[trigger] self.is_way(path, v, w);
        let both = first + second.skip(1);
        assert forall|i: int| 0 <= i < both.len() - 1 implies self.linked(
            #[trigger] both[i],
            both[i + 1],
        ) by {
            if i < first.len() - 1 {
                assert(self.linked(first[i], first[i + 1]));
            } else {
                let k = i - (first.len() - 1);
                assert(self.linked(second[k], second[k + 1]));
                assert(both[i] == second[k]);
            }
        }
        assert forall|i: int| 0 <= i < both.len() implies 0 <= #[trigger] both[i] < self.size() by {
            if i >= first.len() {
                assert(both[i] == second[i - first.len() + 1]);
            }
        }
        assert(self.is_way(both, u, w));
    }

    /// The half-edges of `u` below index `upto` lead to nodes of the class
    /// of `u`.
    pub open spec fn spread_upto(&self, classes: &UnionFind, u: int, upto: int) -> bool {
        forall|e: int|
            self.node_offsets@[u].0 <= e < upto && e < self.node_offsets@[u + 1].0
                ==> classes.same(u, (#[trigger] self.edges@[e]).endpoint as int)
    }

    /// All the half-edges of `u` lead to nodes of the class of `u`.
    pub open spec fn spread(&self, classes: &UnionFind, u: int) -> bool {
        self.spread_upto(classes, u, self.node_offsets@[u + 1].0 as int)
    }

    /// Where the two ends of every half-edge are in one class, so are the
    /// two ends of every way.
    proof fn lemma_way_in_class(&self, classes: &UnionFind, path: Seq<int>, u: int, v: int)
        requires
            self.wf(),
            forall|x: int| 0 <= x < self.size() ==> #[trigger] self.spread(classes, x),
            self.is_way(path, u, v),
        ensures
            classes.same(u, v),
        decreases path.len(),
    {
        if path.len() > 1 {
            let last = path.len() - 1;
            let a = path[last - 1];
            let front = path.drop_last();
            assert forall|i: int| 0 <= i < front.len() - 1 implies self.linked(
                #[trigger] front[i],
                front[i + 1],
            ) by {
                assert(self.linked(path[i], path[i + 1]));
            }
            assert(self.is_way(front, u, a));
            self.lemma_way_in_class(classes, front, u, a);
            assert(self.linked(path[last - 1], path[last - 1 + 1]));
            let e = choose|e: int| #[trigger] self.linked_by(a, e, v);
            if self.has_edge(a, e, v) {
                assert(self.spread(classes, a));
                assert(classes.same(a, self.edges@[e].endpoint as int));
            } else {
                assert(self.spread(classes, v));
                assert(classes.same(v, self.edges@[e].endpoint as int));
            }
        }
    }

    /// The number of components of the graph. The nodes are gone through,
    /// and from each that has not been met the nodes that half-edges lead to
    /// are looked up one after the other; the two ends of every half-edge
    /// on the way are put into one class, and the classes are counted.
    pub fn count_components(&self) -> (r: usize)
        requires
            self.wf(),
        ensures
            exists|label: Seq<int>| #[trigger]
                self.labels_components(label) && r == self.heads(label).len(),
    {
        let n: usize = self.node_count();
        let mut classes = UnionFind::new(n);
        let mut visited: Vec<bool> = Vec::new();
        let mut i: usize = 0;
        while i < n
            invariant
                i <= n,
                visited@.len() == i,
                forall|k: int| 0 <= k < i ==> !visited@[k],
            decreases n - i,
        {
            visited.push(false);
            i += 1;
        }
        let mut stack: Vec<usize> = Vec::new();
        let ghost mut marked: Set<int> = Set::empty();
        proof {
            assert forall|a: int, b: int|
                0 <= a < n && 0 <= b < n && classes.same(a, b) implies self.joined(a, b) by {
                self.lemma_joined_self(a);
            }
            assert(marked =~= Set::new(|k: int| 0 <= k < n && visited@[k]));
        }
        let mut start: usize = 0;
        while start < n
            invariant
                self.wf(),
                n == self.size(),
                start <= n,
                classes.wf(),
                classes.size() == n,
                visited@.len() == n,
                stack@.len() == 0,
                marked.finite(),
                marked == Set::new(|k: int| 0 <= k < n && visited@[k]),
                forall|k: int| 0 <= k < start ==> visited@[k],
                forall|a: int, b: int|
                    0 <= a < n && 0 <= b < n && classes.same(a, b) ==> self.joined(a, b),
                forall|u: int| 0 <= u < n && visited@[u] ==> #[trigger] self.spread(&classes, u),
            decreases n - start,
        {
            if !visited[start] {
                visited[start] = true;
                stack.push(start);
                proof {
                    assert(Set::new(|k: int| 0 <= k < n && visited@[k]) =~= marked.insert(
                        start as int,
                    ));
                    marked = marked.insert(start as int);
                    assert(stack@[0] == start);
                    assert(stack@.contains(start));
                    lemma_int_range(0, n as int);
                    assert(marked.subset_of(set_int_range(0, n as int)));
                    lemma_len_subset(marked, set_int_range(0, n as int));
                }
                while stack.len() > 0
                    invariant
                        self.wf(),
                        n == self.size(),
                        start < n,
                        classes.wf(),
                        classes.size() == n,
                        visited@.len() == n,
                        marked.finite(),
                        marked.len() <= n,
                        marked == Set::new(|k: int| 0 <= k < n && visited@[k]),
                        forall|k: int| 0 <= k <= start ==> visited@[k],
                        forall|k: int|
                            0 <= k < stack@.len() ==> (#[trigger] stack@[k]) < n
                                && visited@[stack@[k] as int],
                        forall|a: int, b: int|
                            0 <= a < n && 0 <= b < n && classes.same(a, b) ==> self.joined(a, b),
                        forall|u: int|
                            0 <= u < n && visited@[u] && !stack@.contains(u as usize)
                                ==> #[trigger] self.spread(&classes, u),
                    decreases n - marked.len(), stack@.len(),
                {
                    let ghost below = stack@;
                    let ghost marked_before = marked;
                    let node: usize = stack.pop().unwrap();
                    let ghost rest = stack@;
                    proof {
                        assert(below[below.len() - 1] == node);
                        assert forall|u: int|
                            0 <= u < n && u != node && visited@[u] && !rest.contains(
                                u as usize,
                            ) implies #[trigger] self.spread(&classes, u) by {
                            if below.contains(u as usize) {
                                let k = choose|k: int| 0 <= k < below.len() && below[k] == u as usize;
                                assert(rest[k] == u as usize);
                            }
                        }
                        assert forall|k: int| 0 <= k < rest.len() implies (#[trigger] rest[k]) < n
                            && visited@[rest[k] as int] by {
                            assert(rest[k] == below[k]);
                        }
                    }
                    let mut iter = self.outgoing_edges_for(node);
                    loop
                        invariant_except_break
                            iter.wf(),
                            iter.edges() == self.edges@,
                            iter.start() == self.node_offsets@[node as int].0,
                            iter.stop() == self.node_offsets@[node + 1].0,
                            self.spread_upto(&classes, node as int, iter.position() as int),
                        invariant
                            self.wf(),
                            n == self.size(),
                            node < n,
                            start < n,
                            visited@[node as int],
                            classes.wf(),
                            classes.size() == n,
                            visited@.len() == n,
                            marked.finite(),
                            marked.len() <= n,
                            marked_before.finite(),
                            marked_before.len() <= n,
                            marked == Set::new(|k: int| 0 <= k < n && visited@[k]),
                            forall|k: int| 0 <= k <= start ==> visited@[k],
                            (marked == marked_before && stack@ == rest) || marked.len()
                                > marked_before.len(),
                            marked.len() >= marked_before.len(),
                            forall|k: int|
                                0 <= k < stack@.len() ==> (#[trigger] stack@[k]) < n
                                    && visited@[stack@[k] as int],
                            forall|a: int, b: int|
                                0 <= a < n && 0 <= b < n && classes.same(a, b) ==> self.joined(
                                    a,
                                    b,
                                ),
                            forall|u: int|
                                0 <= u < n && u != node && visited@[u] && !stack@.contains(
                                    u as usize,
                                ) ==> #[trigger] self.spread(&classes, u),
                        ensures
                            self.spread(&classes, node as int),
                            (marked == marked_before && stack@ == rest) || marked.len()
                                > marked_before.len(),
                        decreases iter.stop() - iter.position(),
                    {
                        let (index, edge) = match iter.next() {
                            Some(item) => item,
                            None => {
                                break ;
                            },
                        };
                        let next: usize = edge.endpoint;
                        let ghost before = classes;
                        classes.union(node, next);
                        proof {
                            assert(self.has_edge(node as int, index as int, next as int));
                            assert(self.linked_by(node as int, index as int, next as int));
                            self.lemma_joined_step(node as int, next as int);
                            self.lemma_joined_back(node as int, next as int);
                            assert forall|a: int, b: int|
                                0 <= a < n && 0 <= b < n && classes.same(
                                    a,
                                    b,
                                ) implies self.joined(a, b) by {
                                if before.same(a, b) {
                                } else if before.same(a, node as int) && before.same(
                                    b,
                                    next as int,
                                ) {
                                    self.lemma_joined_back(b, next as int);
                                    self.lemma_joined_on(a, node as int, next as int);
                                    self.lemma_joined_on(a, next as int, b);
                                } else {
                                    self.lemma_joined_back(b, node as int);
                                    self.lemma_joined_on(a, next as int, node as int);
                                    self.lemma_joined_on(a, node as int, b);
                                }
                            }
                            assert forall|e: int|
                                self.node_offsets@[node as int].0 <= e < index + 1 && e
                                    < self.node_offsets@[node + 1].0 implies classes.same(
                                node as int,
                                (#[trigger] self.edges@[e]).endpoint as int,
                            ) by {
                                if e < index {
                                    assert(before.same(
                                        node as int,
                                        self.edges@[e].endpoint as int,
                                    ));
                                } else {
                                    classes.lemma_root(node as int);
                                    before.lemma_root(node as int);
                                    before.lemma_root(next as int);
                                }
                            }
                            assert forall|u: int|
                                0 <= u < n && u != node && visited@[u] && !stack@.contains(
                                    u as usize,
                                ) implies #[trigger] self.spread(&classes, u) by {
                                assert(self.spread(&before, u));
                                assert forall|e: int|
                                    self.node_offsets@[u].0 <= e < self.node_offsets@[u + 1].0
                                        implies classes.same(
                                    u,
                                    (#[trigger] self.edges@[e]).endpoint as int,
                                ) by {
                                    assert(before.same(u, self.edges@[e].endpoint as int));
                                }
                            }
                        }
                        if !visited[next] {
                            let ghost stack_before = stack@;
                            visited[next] = true;
                            stack.push(next);
                            proof {
                                assert(Set::new(|k: int| 0 <= k < n && visited@[k])
                                    =~= marked.insert(next as int));
                                marked = marked.insert(next as int);
                                lemma_int_range(0, n as int);
                                assert(marked.subset_of(set_int_range(0, n as int)));
                                lemma_len_subset(marked, set_int_range(0, n as int));
                                assert forall|u: int|
                                    0 <= u < n && u != node && visited@[u] && !stack@.contains(
                                        u as usize,
                                    ) implies #[trigger] self.spread(&classes, u) by {
                                    assert(stack@[stack_before.len() as int] == next);
                                    if stack_before.contains(u as usize) {
                                        let k = choose|k: int|
                                            0 <= k < stack_before.len() && stack_before[k]
                                                == u as usize;
                                        assert(stack@[k] == u as usize);
                                    }
                                }
                            }
                        }
                    }
                }
            }
            start += 1;
        }
        let r = classes.count_roots();
        proof {
            let label = Seq::new(n as nat, |i: int| classes.root(i));
            assert forall|u: int| 0 <= u < self.size() implies 0 <= #[trigger] label[u]
                < self.size() && label[label[u]] == label[u] by {
                classes.lemma_root(u);
            }
            assert forall|u: int, v: int|
                0 <= u < self.size() && 0 <= v < self.size() implies (#[trigger] label[u]
                == #[trigger] label[v] <==> self.joined(u, v)) by {
                if self.joined(u, v) {
                    let path = choose|path: Seq<int>| #[trigger] self.is_way(path, u, v);
                    self.lemma_way_in_class(&classes, path, u, v);
                }
            }
            assert(self.labels_components(label));
            assert(self.heads(label) =~= classes.roots());
        }
        r
    }
}

} // verus!
