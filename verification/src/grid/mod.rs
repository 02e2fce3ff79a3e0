//! A uniform grid over points on the sphere.

pub mod radius;

use vstd::prelude::*;
use crate::geom::{Coord, TuplePoint};
use crate::graph::NodeInfo;
use crate::towers::Tower;
use self::radius::{chebyshev, lemma_ring_is_exact, on_ring, ring, RadiusIter};
use crate::order::{
    apply_order,
    group_offsets,
    grouped,
    is_offsets,
    is_stable_order,
    key_before,
    lemma_offsets_are_unique,
    never_decreases,
    permuted,
    stable_order,
};

verus! {

/// The smallest box of latitudes and longitudes around a set of points.
#[derive(Debug, Clone, Copy)]
pub struct BoundingBox {
    pub lat_min: i64,
    pub lat_max: i64,
    pub long_min: i64,
    pub long_max: i64,
}

impl BoundingBox {
    /// The box that holds no point.
    pub open spec fn empty() -> BoundingBox {
        BoundingBox { lat_min: i64::MAX, lat_max: i64::MIN, long_min: i64::MAX, long_max: i64::MIN }
    }

    /// Whether the point lies in the closed box.
    pub open spec fn contains(self, lat: i64, long: i64) -> bool {
        self.lat_min <= lat && lat <= self.lat_max && self.long_min <= long && long
            <= self.long_max
    }

    /// The smallest box that holds this box and the point.
    pub open spec fn extended(self, lat: i64, long: i64) -> BoundingBox {
        BoundingBox {
            lat_min: if self.lat_min > lat {
                lat
            } else {
                self.lat_min
            },
            lat_max: if self.lat_max < lat {
                lat
            } else {
                self.lat_max
            },
            long_min: if self.long_min > long {
                long
            } else {
                self.long_min
            },
            long_max: if self.long_max < long {
                long
            } else {
                self.long_max
            },
        }
    }

    /// The smallest box that holds all the items.
    pub open spec fn hull<C: Coord>(items: Seq<C>) -> BoundingBox
        decreases items.len(),
    {
        if items.len() == 0 {
            BoundingBox::empty()
        } else {
            BoundingBox::hull(items.drop_last()).extended(
                items.last().lat_spec(),
                items.last().lon_spec(),
            )
        }
    }

    /// The hull of a set of items holds each of them, and no point if there
    /// are no items.
    pub proof fn lemma_hull_holds<C: Coord>(items: Seq<C>)
        ensures
            forall|i: int|
                0 <= i < items.len() ==> BoundingBox::hull(items).contains(
                    (#[trigger] items[i]).lat_spec(),
                    items[i].lon_spec(),
                ),
            items.len() == 0 ==> forall|lat: i64, long: i64|
                !BoundingBox::hull(items).contains(lat, long),
        decreases items.len(),
    {
        if items.len() > 0 {
            let rest = items.drop_last();
            BoundingBox::lemma_hull_holds(rest);
            assert forall|i: int| 0 <= i < items.len() implies BoundingBox::hull(items).contains(
                (#[trigger] items[i]).lat_spec(),
                items[i].lon_spec(),
            ) by {
                if i < rest.len() {
                    assert(rest[i] == items[i]);
                    assert(BoundingBox::hull(rest).contains(rest[i].lat_spec(), rest[i].lon_spec()));
                }
            }
        }
    }

    /// The box that holds no point.
    pub fn new() -> (b: BoundingBox)
        ensures
            b == BoundingBox::empty(),
    {
        BoundingBox { lat_min: i64::MAX, lat_max: i64::MIN, long_min: i64::MAX, long_max: i64::MIN }
    }

    /// Whether the point lies in the closed box.
    pub fn contains_point(&self, lat: i64, long: i64) -> (r: bool)
        ensures
            r == self.contains(lat, long),
    {
        self.lat_min <= lat && lat <= self.lat_max && self.long_min <= long && long
            <= self.long_max
    }

    /// Widens the box so that it holds the point.
    pub fn add_coord<C: Coord>(&mut self, n: &C)
        ensures
            *final(self) == old(self).extended(n.lat_spec(), n.lon_spec()),
    {
        if self.lat_min > n.lat() {
            self.lat_min = n.lat()
        }
        if self.long_min > n.lon() {
            self.long_min = n.lon()
        }
        if self.lat_max < n.lat() {
            self.lat_max = n.lat()
        }
        if self.long_max < n.lon() {
            self.long_max = n.lon()
        }
    }
}

/// The strip, of `side` equal strips of a span of width `width`, in which a
/// point at distance `dif` from the start of the span lies. The end of the
/// span belongs to the last strip.
pub open spec fn axis_cell(dif: int, width: int, side: int) -> int {
    if width <= 0 {
        0
    } else if dif * side / width >= side {
        side - 1
    } else {
        dif * side / width
    }
}

/// A strip index is a number below the side.
pub proof fn lemma_axis_cell(dif: int, width: int, side: int)
    requires
        0 <= dif,
        0 < side,
    ensures
        0 <= axis_cell(dif, width, side) < side,
{
    if width > 0 {
        assert(0 <= dif * side) by (nonlinear_arith)
            requires
                0 <= dif,
                0 < side,
        ;
        vstd::arithmetic::div_mod::lemma_div_pos_is_pos(dif * side, width);
    }
}

/// A square grid of cells laid over a bounding box, with the items of each
/// cell stored next to each other.
#[derive(Debug)]
pub struct Grid {
    pub b_box: BoundingBox,
    pub side_length: usize,
    pub offset_array: Vec<usize>,
}

/// A node with its position in the node array.
#[derive(Debug, Clone, Copy)]
pub struct NodeInfoWithIndex(pub usize, pub NodeInfo);

/// The positions of the items of cell `c`.
pub open spec fn cell_range(offsets: Seq<usize>, c: int) -> Seq<int> {
    Seq::new((offsets[c + 1] - offsets[c]) as nat, |t: int| offsets[c] + t)
}

/// The positions of the items of the given cells, cell by cell.
pub open spec fn positions(offsets: Seq<usize>, cells: Seq<usize>) -> Seq<int>
    decreases cells.len(),
{
    if cells.len() == 0 {
        Seq::empty()
    } else {
        positions(offsets, cells.drop_last()) + cell_range(offsets, cells.last() as int)
    }
}

/// The cells of the rings of radius below `rings` around `center`, ring by
/// ring.
pub open spec fn cells_within(center: int, size: int, rings: int) -> Seq<usize>
    decreases rings,
{
    if rings <= 0 {
        Seq::empty()
    } else {
        cells_within(center, size, rings - 1) + ring(center, size, rings - 1)
    }
}

/// The index of the first of the least distances in `obs`, or `-1` if
/// there are none.
pub open spec fn first_least(obs: Seq<u64>) -> int
    decreases obs.len(),
{
    if obs.len() == 0 {
        -1
    } else if first_least(obs.drop_last()) < 0 || obs.last() < obs[first_least(obs.drop_last())] {
        obs.len() - 1
    } else {
        first_least(obs.drop_last())
    }
}

/// `first_least` is an index of `obs` unless `obs` is empty, and no
/// distance is less than the one it points to, nor an earlier one as small.
pub proof fn lemma_first_least(obs: Seq<u64>)
    ensures
        -1 <= first_least(obs) < obs.len(),
        obs.len() > 0 ==> first_least(obs) >= 0,
        forall|t: int| 0 <= t < obs.len() ==> obs[first_least(obs)] <= #[trigger] obs[t],
        forall|t: int| 0 <= t < first_least(obs) ==> obs[first_least(obs)] < #[trigger] obs[t],
    decreases obs.len(),
{
    if obs.len() > 0 {
        let rest = obs.drop_last();
        lemma_first_least(rest);
        assert forall|t: int| 0 <= t < obs.len() implies obs[first_least(obs)] <= #[trigger] obs[t] by {
            if t < rest.len() {
                assert(rest[t] == obs[t]);
            }
        }
        assert forall|t: int| 0 <= t < first_least(obs) implies obs[first_least(obs)]
            < #[trigger] obs[t] by {
            assert(rest[t] == obs[t]);
        }
    }
}

/// The positions of two lists of cells, one after the other.
pub proof fn lemma_positions_add(offsets: Seq<usize>, a: Seq<usize>, b: Seq<usize>)
    ensures
        positions(offsets, a + b) == positions(offsets, a) + positions(offsets, b),
    decreases b.len(),
{
    if b.len() == 0 {
        assert(a + b =~= a);
        assert(positions(offsets, a) + positions(offsets, b) =~= positions(offsets, a));
    } else {
        lemma_positions_add(offsets, a, b.drop_last());
        assert((a + b).drop_last() =~= a + b.drop_last());
        assert((a + b).last() == b.last());
        assert(positions(offsets, a + b) =~= positions(offsets, a) + positions(offsets, b));
    }
}

/// What was seen within fewer rings was seen first.
pub proof fn lemma_within_grows(offsets: Seq<usize>, center: int, size: int, r: int, s: int)
    requires
        r <= s,
    ensures
        positions(offsets, cells_within(center, size, r)).is_prefix_of(
            positions(offsets, cells_within(center, size, s)),
        ),
    decreases s - r,
{
    if r < s {
        lemma_within_grows(offsets, center, size, r, s - 1);
        if s > 0 {
            lemma_positions_add(
                offsets,
                cells_within(center, size, s - 1),
                ring(center, size, s - 1),
            );
        } else {
            assert(cells_within(center, size, s - 1) =~= cells_within(center, size, s));
        }
    }
}

impl Grid {
    /// The grid has at least one cell, and no more than can be counted.
    pub open spec fn shaped(&self) -> bool {
        1 <= self.side_length && self.side_length * self.side_length < isize::MAX
    }

    /// The index of the cell in which a point of the bounding box lies:
    /// `y * side_length + x`, where `x` is the strip of the latitude and `y`
    /// the strip of the longitude.
    pub open spec fn cell_of(&self, lat: i64, long: i64) -> int {
        axis_cell(
            long - self.b_box.long_min,
            self.b_box.long_max - self.b_box.long_min,
            self.side_length as int,
        ) * self.side_length + axis_cell(
            lat - self.b_box.lat_min,
            self.b_box.lat_max - self.b_box.lat_min,
            self.side_length as int,
        )
    }

    /// The cell of each item.
    pub open spec fn cells<C: Coord>(&self, items: Seq<C>) -> Seq<usize> {
        Seq::new(
            items.len(),
            |i: int| self.cell_of(items[i].lat_spec(), items[i].lon_spec()) as usize,
        )
    }

    /// The sorting keys of the items: their cells.
    pub open spec fn keys<C: Coord>(&self, items: Seq<C>) -> Seq<u128> {
        Seq::new(
            items.len(),
            |i: int| self.cell_of(items[i].lat_spec(), items[i].lon_spec()) as u128,
        )
    }

    /// The grid indexes `items`: its box is their hull, they are stored by
    /// non-decreasing cell, and the items of cell `c` are those from position
    /// `offset_array[c]` up to `offset_array[c + 1]`.
    pub open spec fn indexes<C: Coord>(&self, items: Seq<C>) -> bool {
        &&& self.shaped()
        &&& self.b_box == BoundingBox::hull(items)
        &&& grouped(self.cells(items), self.side_length * self.side_length)
        &&& is_offsets(
            self.cells(items),
            self.side_length * self.side_length,
            self.offset_array@,
        )
    }

    /// The cell of a point of the bounding box is a cell of the grid.
    pub proof fn lemma_cell_in_grid(&self, lat: i64, long: i64)
        requires
            self.shaped(),
            self.b_box.contains(lat, long),
        ensures
            0 <= self.cell_of(lat, long) < self.side_length * self.side_length,
    {
        let side = self.side_length as int;
        let y = axis_cell(
            long - self.b_box.long_min,
            self.b_box.long_max - self.b_box.long_min,
            side,
        );
        let x = axis_cell(lat - self.b_box.lat_min, self.b_box.lat_max - self.b_box.lat_min, side);
        lemma_axis_cell(long - self.b_box.long_min, self.b_box.long_max - self.b_box.long_min, side);
        lemma_axis_cell(lat - self.b_box.lat_min, self.b_box.lat_max - self.b_box.lat_min, side);
        assert(0 <= y * side && y * side + side <= side * side) by (nonlinear_arith)
            requires
                0 <= y < side,
        ;
    }

    /// Creates Grid of size `size` with the data in `coords`. The
    /// values in `coords` will be sorted by their cell index inside
    /// the grid.
    pub fn new<C: Coord + Copy>(coords: &mut Vec<C>, size: usize) -> (g: Grid)
        requires
            1 <= size,
            size * size < isize::MAX,
        ensures
            g.side_length == size,
            g.b_box == BoundingBox::hull(old(coords)@),
            g.indexes(final(coords)@),
            exists|order: Seq<usize>| #[trigger]
                is_stable_order(g.keys(old(coords)@), order) && final(coords)@ == permuted(
                    old(coords)@,
                    order,
                ),
    {
        let mut b_box = BoundingBox::new();
        let n: usize = coords.len();
        let mut i: usize = 0;
        while i < n
            invariant
                i <= n,
                n == coords@.len(),
                coords@ == old(coords)@,
                b_box == BoundingBox::hull(coords@.take(i as int)),
            decreases n - i,
        {
            proof {
                assert(coords@.take(i + 1).drop_last() =~= coords@.take(i as int));
            }
            b_box.add_coord(&coords[i]);
            i += 1;
        }
        proof {
            assert(coords@.take(n as int) =~= coords@);
            BoundingBox::lemma_hull_holds(coords@);
        }
        let g = Grid { b_box, side_length: size, offset_array: Vec::new() };
        let mut keys: Vec<u128> = Vec::new();
        let mut i: usize = 0;
        while i < n
            invariant
                i <= n,
                n == coords@.len(),
                coords@ == old(coords)@,
                g.shaped(),
                g.b_box == BoundingBox::hull(coords@),
                g.side_length == size,
                forall|k: int|
                    0 <= k < n ==> g.b_box.contains(
                        (#[trigger] coords@[k]).lat_spec(),
                        coords@[k].lon_spec(),
                    ),
                keys@.len() == i,
                forall|k: int|
                    0 <= k < i ==> (#[trigger] keys@[k]) == g.cell_of(
                        coords@[k].lat_spec(),
                        coords@[k].lon_spec(),
                    ),
            decreases n - i,
        {
            let cell: usize = match g.coord_to_index(coords[i].lat(), coords[i].lon()) {
                Ok(cell) => cell,
                Err(_) => {
                    proof {
                        assert(g.b_box.contains(coords@[i as int].lat_spec(), coords@[i as int].lon_spec()));
                    }
                    vstd::pervasive::unreached()
                },
            };
            keys.push(cell as u128);
            i += 1;
        }
        let order = stable_order(&keys);
        let ghost before = coords@;
        proof {
            assert(keys@ =~= g.keys(before)) by {
                assert forall|k: int| 0 <= k < n implies keys@[k] == g.keys(before)[k] by {
                    g.lemma_cell_in_grid(before[k].lat_spec(), before[k].lon_spec());
                }
            }
        }
        let sorted = apply_order(coords, &order);
        let mut cells: Vec<usize> = Vec::new();
        let mut i: usize = 0;
        while i < n
            invariant
                i <= n,
                n == before.len(),
                n == order@.len(),
                keys@ == g.keys(before),
                g.shaped(),
                is_stable_order(keys@, order@),
                sorted@ == permuted(before, order@),
                forall|k: int|
                    0 <= k < n ==> g.b_box.contains(
                        (#[trigger] before[k]).lat_spec(),
                        before[k].lon_spec(),
                    ),
                cells@.len() == i,
                forall|k: int| 0 <= k < i ==> (#[trigger] cells@[k]) == g.cells(sorted@)[k],
            decreases n - i,
        {
            let from: usize = order[i];
            proof {
                g.lemma_cell_in_grid(before[from as int].lat_spec(), before[from as int].lon_spec());
            }
            cells.push(keys[from] as usize);
            i += 1;
        }
        proof {
            assert(cells@ =~= g.cells(sorted@));
            assert forall|k: int| 0 <= k < cells@.len() implies (#[trigger] cells@[k]) < size
                * size by {
                let from = order@[k] as int;
                g.lemma_cell_in_grid(before[from].lat_spec(), before[from].lon_spec());
            }
            assert forall|a: int, b: int| 0 <= a <= b < cells@.len() implies cells@[a]
                <= cells@[b] by {
                if a < b {
                    assert(key_before(keys@, order@[a] as int, order@[b] as int));
                    g.lemma_cell_in_grid(
                        before[order@[a] as int].lat_spec(),
                        before[order@[a] as int].lon_spec(),
                    );
                    g.lemma_cell_in_grid(
                        before[order@[b] as int].lat_spec(),
                        before[order@[b] as int].lon_spec(),
                    );
                }
            }
        }
        let offset_array = group_offsets(&cells, size * size);
        let grid = Grid { b_box, side_length: size, offset_array };
        *coords = sorted;
        proof {
            lemma_hull_of_permuted(before, order@);
            assert(grid.keys(before) =~= g.keys(before));
            assert(grid.cells(coords@) =~= g.cells(coords@));
            assert(is_stable_order(grid.keys(before), order@));
        }
        grid
    }

    /// `span` is a size of a cell in the unit of `dist`: the smaller of the
    /// width and the height of the bounding box, each as `dist` measures it
    /// between two corners and divided by the side length.
    pub open spec fn span_measured<F: Fn(TuplePoint, TuplePoint) -> u64>(
        &self,
        dist: &F,
        span: u64,
    ) -> bool {
        exists|w: u64, h: u64|
            {
                &&& #[trigger] dist.ensures(
                    (
                        (self.b_box.lat_max, self.b_box.long_max),
                        (self.b_box.lat_min, self.b_box.long_max),
                    ),
                    w,
                )
                &&& #[trigger] dist.ensures(
                    (
                        (self.b_box.lat_max, self.b_box.long_max),
                        (self.b_box.lat_max, self.b_box.long_min),
                    ),
                    h,
                )
                &&& span == if w / (self.side_length as u64) <= h / (self.side_length as u64) {
                    w / (self.side_length as u64)
                } else {
                    h / (self.side_length as u64)
                }
            }
    }

    /// No point in ring `r` or beyond can be nearer than `limit`: every
    /// ring before it is at least `(r - 1) * span` away.
    pub open spec fn out_of_reach(r: int, span: u64, limit: int) -> bool {
        (r - 1) * span > limit
    }

    /// The search for the nearest item gives up before ring `r`: the grid
    /// has no such ring, or the best of what the rings before it held is
    /// nearer than anything in ring `r` or beyond can be.
    pub open spec fn gives_up(&self, center: int, r: int, span: u64, obs: Seq<u64>) -> bool {
        let seen = obs.take(
            positions(
                self.offset_array@,
                cells_within(center, self.side_length as int, r),
            ).len() as int,
        );
        r >= self.side_length || (first_least(seen) >= 0 && Grid::out_of_reach(
            r,
            span,
            seen[first_least(seen)] as int,
        ))
    }

    /// A search around `(lat, long)` that looked at `rings` rings, measured
    /// the distances `obs` to the items it met, in the order in which it met
    /// them, and found the item at position `found` to be the first of the
    /// nearest.
    pub open spec fn searched<F: Fn(TuplePoint, TuplePoint) -> u64>(
        &self,
        dist: &F,
        lat: i64,
        long: i64,
        nodes: Seq<NodeInfo>,
        rings: int,
        span: u64,
        obs: Seq<u64>,
        found: int,
    ) -> bool {
        let center = self.cell_of(lat, long);
        let scan = positions(
            self.offset_array@,
            cells_within(center, self.side_length as int, rings),
        );
        &&& self.span_measured(dist, span)
        &&& 0 <= rings <= self.side_length
        &&& obs.len() == scan.len()
        &&& forall|t: int|
            0 <= t < scan.len() ==> dist.ensures(
                ((lat, long), (nodes[scan[t]].lat, nodes[scan[t]].long)),
                #[trigger] obs[t],
            )
        &&& self.gives_up(center, rings, span, obs)
        &&& forall|r: int| 0 <= r < rings ==> !#[trigger] self.gives_up(center, r, span, obs)
        &&& first_least(obs) >= 0
        &&& found == scan[first_least(obs)]
    }

    /// Some search around `(lat, long)` found the item at position `found`
    /// to be the first of the nearest.
    pub open spec fn is_nearest<F: Fn(TuplePoint, TuplePoint) -> u64>(
        &self,
        dist: &F,
        lat: i64,
        long: i64,
        nodes: Seq<NodeInfo>,
        found: int,
    ) -> bool {
        exists|rings: int, span: u64, obs: Seq<u64>| #[trigger]
            self.searched(dist, lat, long, nodes, rings, span, obs, found)
    }

    /// `parts` holds the items of the cells around `center` up to the first
    /// ring that is out of reach of `max_dist`.
    pub open spec fn is_adjacent<T, F: Fn(TuplePoint, TuplePoint) -> u64>(
        &self,
        dist: &F,
        center: int,
        max_dist: u128,
        items: Seq<T>,
        parts: Seq<&[T]>,
    ) -> bool {
        exists|rings: int, span: u64| #[trigger]
            self.gathered(dist, center, max_dist, items, rings, span, parts)
    }

    /// The node at position `j` is no nearer than the best of a search: the
    /// search measured it and found it no nearer, or it lies on a ring so
    /// far out that nothing on it can be as near, if a ring of radius `r`
    /// is at least `(r - 1) * span` away.
    pub open spec fn no_nearer(
        &self,
        lat: i64,
        long: i64,
        nodes: Seq<NodeInfo>,
        rings: int,
        span: u64,
        obs: Seq<u64>,
        j: int,
    ) -> bool {
        let center = self.cell_of(lat, long);
        let scan = positions(
            self.offset_array@,
            cells_within(center, self.side_length as int, rings),
        );
        let best = obs[first_least(obs)];
        let cell = self.cell_of(nodes[j].lat, nodes[j].long);
        if ring_of(center, self.side_length as int, cell) < rings {
            exists|t: int| 0 <= t < scan.len() && #[trigger] scan[t] == j && best <= obs[t]
        } else {
            (ring_of(center, self.side_length as int, cell) - 1) * span > best
        }
    }

    /// The node that a search found is the nearest of all that it measured,
    /// and it measured every node of the rings that it looked at. Every
    /// other node lies on a ring of which the search knew that nothing on it
    /// can be as near.
    pub proof fn lemma_nearest_is_least<F: Fn(TuplePoint, TuplePoint) -> u64>(
        &self,
        dist: &F,
        lat: i64,
        long: i64,
        nodes: Seq<NodeInfo>,
        rings: int,
        span: u64,
        obs: Seq<u64>,
        found: int,
    )
        requires
            self.indexes(nodes),
            self.b_box.contains(lat, long),
            self.searched(dist, lat, long, nodes, rings, span, obs, found),
        ensures
            0 <= found < nodes.len(),
            forall|j: int|
                0 <= j < nodes.len() ==> #[trigger] self.no_nearer(
                    lat,
                    long,
                    nodes,
                    rings,
                    span,
                    obs,
                    j,
                ),
    {
        let side = self.side_length as int;
        let center = self.cell_of(lat, long);
        let offsets = self.offset_array@;
        let inner = cells_within(center, side, rings);
        let scan = positions(offsets, inner);
        let best = obs[first_least(obs)];
        let cells = self.cells(nodes);
        lemma_side_fits(side);
        self.lemma_cell_in_grid(lat, long);
        crate::order::lemma_offsets(cells, side * side, offsets);
        lemma_first_least(obs);
        assert forall|t: int| 0 <= t < inner.len() implies offsets[(#[trigger] inner[t]) as int]
            <= offsets[inner[t] + 1] by {
            assert(inner.contains(inner[t]));
            lemma_cells_within(center, side, rings, inner[t]);
        }
        assert(0 <= found < nodes.len()) by {
            let f = first_least(obs);
            assert(scan.contains(scan[f]));
            lemma_positions(offsets, inner, found);
            let t = choose|t: int|
                0 <= t < inner.len() && offsets[(#[trigger] inner[t]) as int] <= found
                    < offsets[inner[t] + 1];
            assert(inner.contains(inner[t]));
            lemma_cells_within(center, side, rings, inner[t]);
            assert(offsets[inner[t] + 1] <= offsets[side * side]);
        }
        assert forall|j: int| 0 <= j < nodes.len() implies #[trigger] self.no_nearer(
            lat,
            long,
            nodes,
            rings,
            span,
            obs,
            j,
        ) by {
            let cell = self.cell_of(nodes[j].lat, nodes[j].long);
            BoundingBox::lemma_hull_holds(nodes);
            assert(self.b_box.contains(nodes[j].lat_spec(), nodes[j].lon_spec()));
            self.lemma_cell_in_grid(nodes[j].lat, nodes[j].long);
            assert(cells[j] == cell);
            assert(offsets[cells[j] as int] <= j < offsets[cells[j] + 1]);
            lemma_cells_within(center, side, rings, cell as usize);
            let k = ring_of(center, side, cell);
            if k < rings {
                assert(inner.contains(cell as usize));
                let u = choose|u: int| 0 <= u < inner.len() && inner[u] == cell as usize;
                assert(offsets[inner[u] as int] <= j < offsets[inner[u] + 1]);
                lemma_positions(offsets, inner, j);
                assert(scan.contains(j));
                let t = choose|t: int| 0 <= t < scan.len() && scan[t] == j;
                assert(best <= obs[t]);
            } else {
                vstd::arithmetic::div_mod::lemma_fundamental_div_mod(cell, side);
                vstd::arithmetic::div_mod::lemma_fundamental_div_mod(center, side);
                vstd::arithmetic::div_mod::lemma_mod_bound(cell, side);
                vstd::arithmetic::div_mod::lemma_mod_bound(center, side);
                lemma_row_in_grid(cell, side);
                lemma_row_in_grid(center, side);
                assert(k < side);
                assert(self.gives_up(center, rings, span, obs));
                assert(obs.take(scan.len() as int) =~= obs);
                assert((rings - 1) * span > best);
                assert((k - 1) * span >= (rings - 1) * span) by (nonlinear_arith)
                    requires
                        k >= rings,
                        span >= 0,
                ;
            }
        }
    }

    /// The item at position `j` was gathered, or is out of reach: it is
    /// one of a part, the items of its cell, or it lies on a ring so far
    /// out that everything on it is farther away than `max_dist`, if a ring
    /// of radius `r` is at least `(r - 1) * span` away.
    pub open spec fn held_or_far<C: Coord>(
        &self,
        center: int,
        max_dist: u128,
        items: Seq<C>,
        rings: int,
        span: u64,
        parts: Seq<&[C]>,
        j: int,
    ) -> bool {
        let cell = self.cell_of(items[j].lat_spec(), items[j].lon_spec());
        let first = self.offset_array@[cell] as int;
        let after = self.offset_array@[cell + 1] as int;
        if ring_of(center, self.side_length as int, cell) < rings {
            exists|t: int|
                0 <= t < parts.len() && first <= j < after && (#[trigger] parts[t])@
                    == items.subrange(first, after) && parts[t]@[j - first] == items[j]
        } else {
            Grid::out_of_reach(ring_of(center, self.side_length as int, cell), span, max_dist as int)
        }
    }

    /// What was gathered around a point holds every item of the rings that
    /// were looked at, and every other item lies on a ring that is out of
    /// reach of `max_dist`.
    pub proof fn lemma_gathered_is_all<C: Coord, F: Fn(TuplePoint, TuplePoint) -> u64>(
        &self,
        dist: &F,
        lat: i64,
        long: i64,
        max_dist: u128,
        items: Seq<C>,
        rings: int,
        span: u64,
        parts: Seq<&[C]>,
    )
        requires
            self.indexes(items),
            self.b_box.contains(lat, long),
            self.gathered(dist, self.cell_of(lat, long), max_dist, items, rings, span, parts),
        ensures
            forall|j: int|
                0 <= j < items.len() ==> #[trigger] self.held_or_far(
                    self.cell_of(lat, long),
                    max_dist,
                    items,
                    rings,
                    span,
                    parts,
                    j,
                ),
    {
        let side = self.side_length as int;
        let center = self.cell_of(lat, long);
        let offsets = self.offset_array@;
        let inner = cells_within(center, side, rings);
        let cells = self.cells(items);
        lemma_side_fits(side);
        self.lemma_cell_in_grid(lat, long);
        crate::order::lemma_offsets(cells, side * side, offsets);
        BoundingBox::lemma_hull_holds(items);
        assert forall|j: int| 0 <= j < items.len() implies #[trigger] self.held_or_far(
            center,
            max_dist,
            items,
            rings,
            span,
            parts,
            j,
        ) by {
            let cell = self.cell_of(items[j].lat_spec(), items[j].lon_spec());
            assert(self.b_box.contains(items[j].lat_spec(), items[j].lon_spec()));
            self.lemma_cell_in_grid(items[j].lat_spec(), items[j].lon_spec());
            assert(cells[j] == cell);
            assert(offsets[cells[j] as int] <= j < offsets[cells[j] + 1]);
            assert(offsets[cell + 1] <= offsets[side * side]);
            lemma_cells_within(center, side, rings, cell as usize);
            let k = ring_of(center, side, cell);
            if k < rings {
                assert(inner.contains(cell as usize));
                let t = choose|t: int| 0 <= t < inner.len() && inner[t] == cell as usize;
                let first = offsets[cell] as int;
                let after = offsets[cell + 1] as int;
                assert(Grid::holds(offsets, items, inner, parts));
                assert(parts.len() == inner.len());
                assert(parts[t]@ == items.subrange(first, after));
                assert(items.subrange(first, after)[j - first] == items[j]);
                assert(0 <= t < parts.len() && first <= j < after && parts[t]@ == items.subrange(
                    first,
                    after,
                ) && parts[t]@[j - first] == items[j]);
            } else {
                lemma_row_in_grid(cell, side);
                lemma_row_in_grid(center, side);
                vstd::arithmetic::div_mod::lemma_mod_bound(cell, side);
                vstd::arithmetic::div_mod::lemma_mod_bound(center, side);
                assert(k < side);
                assert(Grid::out_of_reach(rings, span, max_dist as int));
                assert((k - 1) * span >= (rings - 1) * span) by (nonlinear_arith)
                    requires
                        k >= rings,
                        span >= 0,
                ;
            }
        }
    }

    /// A grid with a point in its box has items, and all the rings around
    /// the point together hold one.
    proof fn lemma_some_node_within(&self, lat: i64, long: i64, nodes: Seq<NodeInfo>)
        requires
            self.indexes(nodes),
            self.b_box.contains(lat, long),
        ensures
            positions(
                self.offset_array@,
                cells_within(
                    self.cell_of(lat, long),
                    self.side_length as int,
                    self.side_length as int,
                ),
            ).len() > 0,
    {
        let side = self.side_length as int;
        let center = self.cell_of(lat, long);
        let offsets = self.offset_array@;
        let all = cells_within(center, side, side);
        let cells = self.cells(nodes);
        BoundingBox::lemma_hull_holds(nodes);
        assert(nodes.len() > 0);
        lemma_side_fits(side);
        self.lemma_cell_in_grid(lat, long);
        crate::order::lemma_offsets(cells, side * side, offsets);
        let cell = self.cell_of(nodes[0].lat, nodes[0].long);
        assert(self.b_box.contains(nodes[0].lat_spec(), nodes[0].lon_spec()));
        self.lemma_cell_in_grid(nodes[0].lat, nodes[0].long);
        assert(cells[0] == cell);
        assert(offsets[cells[0] as int] <= 0 < offsets[cells[0] + 1]);
        lemma_row_in_grid(cell, side);
        lemma_row_in_grid(center, side);
        vstd::arithmetic::div_mod::lemma_mod_bound(cell, side);
        vstd::arithmetic::div_mod::lemma_mod_bound(center, side);
        assert(ring_of(center, side, cell) < side);
        lemma_cells_within(center, side, side, cell as usize);
        assert(all.contains(cell as usize));
        let u = choose|u: int| 0 <= u < all.len() && all[u] == cell as usize;
        assert forall|t: int| 0 <= t < all.len() implies offsets[(#[trigger] all[t]) as int]
            <= offsets[all[t] + 1] by {
            assert(all.contains(all[t]));
            lemma_cells_within(center, side, side, all[t]);
        }
        assert(offsets[all[u] as int] <= 0 < offsets[all[u] + 1]);
        lemma_positions(offsets, all, 0);
        assert(positions(offsets, all).contains(0));
    }

    /// The smaller of the width and the height of a cell.
    fn cell_measure<F: Fn(TuplePoint, TuplePoint) -> u64>(&self, dist: &F) -> (span: u64)
        requires
            self.shaped(),
            forall|a: TuplePoint, b: TuplePoint| dist.requires((a, b)),
        ensures
            self.span_measured(dist, span),
    {
        let side: u64 = self.side_length as u64;
        let w: u64 = dist(
            (self.b_box.lat_max, self.b_box.long_max),
            (self.b_box.lat_min, self.b_box.long_max),
        );
        let h: u64 = dist(
            (self.b_box.lat_max, self.b_box.long_max),
            (self.b_box.lat_max, self.b_box.long_min),
        );
        let cell_width: u64 = w / side;
        let cell_height: u64 = h / side;
        if cell_width <= cell_height {
            cell_width
        } else {
            cell_height
        }
    }

    /// The node nearest to `(lat, long)`, as `dist` measures it. The cells
    /// are searched ring by ring around the cell of the point, until no
    /// farther ring can hold a nearer node. Of several nearest nodes the one
    /// met first is returned. Fails if the point is outside the bounding box.
    pub fn nearest_neighbor<'a, F: Fn(TuplePoint, TuplePoint) -> u64>(
        &self,
        lat: i64,
        long: i64,
        nodes: &'a [NodeInfo],
        dist: &F,
    ) -> (r: Result<NodeInfoWithIndex, ()>)
        requires
            self.indexes(nodes@),
            forall|a: TuplePoint, b: TuplePoint| dist.requires((a, b)),
        ensures
            match r {
                Ok(found) => {
                    &&& self.b_box.contains(lat, long)
                    &&& found.0 < nodes@.len()
                    &&& found.1 == nodes@[found.0 as int]
                    &&& self.is_nearest(dist, lat, long, nodes@, found.0 as int)
                },
                Err(_) => !self.b_box.contains(lat, long),
            },
    {
        let side: usize = self.side_length;
        let index: usize = match self.coord_to_index(lat, long) {
            Ok(index) => index,
            Err(_) => {
                return Err(());
            },
        };
        let cell_measure: u64 = self.cell_measure(dist);
        let ghost center = index as int;
        let ghost offsets = self.offset_array@;
        proof {
            crate::order::lemma_offsets(self.cells(nodes@), side * side, offsets);
        }
        let mut radius: usize = 0;
        let mut best: Option<(u64, usize)> = None;
        let ghost mut scan: Seq<int> = Seq::empty();
        let ghost mut obs: Seq<u64> = Seq::empty();
        loop
            invariant
                self.indexes(nodes@),
                forall|a: TuplePoint, b: TuplePoint| dist.requires((a, b)),
                side == self.side_length,
                offsets == self.offset_array@,
                center == index == self.cell_of(lat, long),
                index < side * side,
                self.span_measured(dist, cell_measure),
                offsets.len() == side * side + 1,
                forall|c: int, d: int| 0 <= c <= d <= side * side ==> offsets[c] <= offsets[d],
                offsets[side * side] == nodes@.len(),
                radius <= side,
                scan == positions(offsets, cells_within(center, side as int, radius as int)),
                obs.len() == scan.len(),
                forall|t: int|
                    0 <= t < scan.len() ==> 0 <= #[trigger] scan[t] < nodes@.len(),
                forall|t: int|
                    0 <= t < scan.len() ==> dist.ensures(
                        ((lat, long), (nodes@[scan[t]].lat, nodes@[scan[t]].long)),
                        #[trigger] obs[t],
                    ),
                match best {
                    Some((d, i)) => first_least(obs) >= 0 && d == obs[first_least(obs)] && i
                        == scan[first_least(obs)],
                    None => obs.len() == 0,
                },
                forall|r: int| 0 <= r < radius ==> !#[trigger] self.gives_up(
                    center,
                    r,
                    cell_measure,
                    obs,
                ),
            ensures
                radius <= side,
                scan == positions(offsets, cells_within(center, side as int, radius as int)),
                obs.len() == scan.len(),
                forall|t: int|
                    0 <= t < scan.len() ==> 0 <= #[trigger] scan[t] < nodes@.len(),
                forall|t: int|
                    0 <= t < scan.len() ==> dist.ensures(
                        ((lat, long), (nodes@[scan[t]].lat, nodes@[scan[t]].long)),
                        #[trigger] obs[t],
                    ),
                match best {
                    Some((d, i)) => first_least(obs) >= 0 && d == obs[first_least(obs)] && i
                        == scan[first_least(obs)],
                    None => obs.len() == 0,
                },
                forall|r: int| 0 <= r < radius ==> !#[trigger] self.gives_up(
                    center,
                    r,
                    cell_measure,
                    obs,
                ),
                self.gives_up(center, radius as int, cell_measure, obs),
            decreases side - radius,
        {
            proof {
                assert(obs.take(obs.len() as int) =~= obs);
                lemma_first_least(obs);
            }
            if radius >= side {
                break ;
            }
            let stop: bool = match best {
                Some((d, _)) => beyond(radius, cell_measure, d as u128),
                None => false,
            };
            if stop {
                break ;
            }
            let ghost seen = obs;
            let ghost inner = cells_within(center, side as int, radius as int);
            proof {
                lemma_side_fits(side as int);
            }
            let mut iter = RadiusIter::new(index as isize, side as isize, radius as isize);
            let ghost cells = ring(center, side as int, radius as int);
            let ghost mut done: int = 0;
            proof {
                lemma_ring_is_exact(center, side as int, radius as int);
                assert(inner + cells.take(0) =~= inner);
                assert(cells.skip(0) =~= cells);
                assert forall|c: usize| cells.contains(c) implies c < side * side by {
                    assert(on_ring(c as int, center, side as int, radius as int));
                }
            }
            loop
                invariant_except_break
                    iter.wf(),
                    0 <= done <= cells.len(),
                    iter@ == cells.skip(done),
                invariant
                    self.indexes(nodes@),
                    forall|a: TuplePoint, b: TuplePoint| dist.requires((a, b)),
                    side == self.side_length,
                    offsets == self.offset_array@,
                    offsets.len() == side * side + 1,
                forall|c: int, d: int| 0 <= c <= d <= side * side ==> offsets[c] <= offsets[d],
                    offsets[side * side] == nodes@.len(),
                    forall|c: usize| cells.contains(c) ==> c < side * side,
                    scan == positions(offsets, inner + cells.take(done)),
                    obs.len() == scan.len(),
                    seen.len() <= obs.len(),
                    obs.take(seen.len() as int) == seen,
                    forall|t: int|
                        0 <= t < scan.len() ==> 0 <= #[trigger] scan[t] < nodes@.len(),
                    forall|t: int|
                        0 <= t < scan.len() ==> dist.ensures(
                            ((lat, long), (nodes@[scan[t]].lat, nodes@[scan[t]].long)),
                            #[trigger] obs[t],
                        ),
                    match best {
                        Some((d, i)) => first_least(obs) >= 0 && d == obs[first_least(obs)] && i
                            == scan[first_least(obs)],
                        None => obs.len() == 0,
                    },
                ensures
                    done == cells.len(),
                decreases cells.len() - done,
            {
                let cell: usize = match iter.next() {
                    Some(cell) => cell,
                    None => {
                        break ;
                    },
                };
                proof {
                    assert(cells.skip(done)[0] == cells[done]);
                    assert(cells.contains(cell));
                    assert(cell < side * side);
                    assert(offsets[cell as int] <= offsets[cell + 1] <= offsets[side * side]);
                }
                let start: usize = self.offset_array[cell];
                let end: usize = self.offset_array[cell + 1];
                let ghost base = scan;
                let ghost range = cell_range(offsets, cell as int);
                let mut i: usize = start;
                proof {
                    assert(base + range.take(0) =~= base);
                }
                while i < end
                    invariant
                        forall|a: TuplePoint, b: TuplePoint| dist.requires((a, b)),
                        start <= i <= end <= nodes@.len(),
                        range == cell_range(offsets, cell as int),
                        range.len() == end - start,
                        start == offsets[cell as int],
                        scan == base + range.take(i - start),
                        obs.len() == scan.len(),
                        seen.len() <= obs.len(),
                        obs.take(seen.len() as int) == seen,
                        forall|t: int|
                            0 <= t < scan.len() ==> 0 <= #[trigger] scan[t] < nodes@.len(),
                        forall|t: int|
                            0 <= t < scan.len() ==> dist.ensures(
                                ((lat, long), (nodes@[scan[t]].lat, nodes@[scan[t]].long)),
                                #[trigger] obs[t],
                            ),
                        match best {
                            Some((d, i)) => first_least(obs) >= 0 && d == obs[first_least(obs)]
                                && i == scan[first_least(obs)],
                            None => obs.len() == 0,
                        },
                    decreases end - i,
                {
                    let d: u64 = dist((lat, long), (nodes[i].lat, nodes[i].long));
                    let better: bool = match best {
                        Some((least, _)) => d < least,
                        None => true,
                    };
                    proof {
                        let ghost before = obs;
                        lemma_first_least(obs);
                        assert(range[i - start] == i);
                        assert(range.take(i - start).push(i as int) =~= range.take(i - start + 1));
                        assert((base + range.take(i - start)).push(i as int) =~= base + range.take(
                            i - start + 1,
                        ));
                        scan = scan.push(i as int);
                        obs = obs.push(d);
                        assert(obs.drop_last() =~= before);
                        assert(obs.take(seen.len() as int) =~= before.take(seen.len() as int));
                    }
                    if better {
                        best = Some((d, i));
                    }
                    i += 1;
                }
                proof {
                    assert(range.take(end - start) =~= range);
                    let ghost sofar = inner + cells.take(done);
                    assert(sofar.push(cell) =~= inner + cells.take(done + 1));
                    assert(sofar.push(cell).drop_last() =~= sofar);
                    done = done + 1;
                }
            }
            proof {
                assert(cells.take(cells.len() as int) =~= cells);
                assert forall|r: int| 0 <= r <= radius implies !#[trigger] self.gives_up(
                    center,
                    r,
                    cell_measure,
                    obs,
                ) by {
                    lemma_within_grows(offsets, center, side as int, r, radius as int);
                    let len = positions(offsets, cells_within(center, side as int, r)).len() as int;
                    assert(len <= seen.len());
                    assert(obs.take(len) =~= seen.take(len));
                    assert(!self.gives_up(center, r, cell_measure, seen));
                }
            }
            radius += 1;
        }
        match best {
            Some((_, i)) => {
                proof {
                    lemma_first_least(obs);
                    assert(0 <= scan[first_least(obs)] < nodes@.len());
                }
                let found = NodeInfoWithIndex(i, nodes[i]);
                proof {
                    assert(found.0 == i);
                    assert(self.searched(
                        dist,
                        lat,
                        long,
                        nodes@,
                        radius as int,
                        cell_measure,
                        obs,
                        found.0 as int,
                    ));
                    assert(self.is_nearest(dist, lat, long, nodes@, found.0 as int));
                }
                Ok(found)
            },
            None => {
                proof {
                    assert(radius == side);
                    self.lemma_some_node_within(lat, long, nodes@);
                }
                Err(())
            },
        }
    }

    /// The towers of the cells around `coords`, cell by cell and ring by
    /// ring, up to the first ring all of which is farther away than
    /// `max_dist`, as `dist` measures the size of a cell. Fails if the point
    /// is outside the bounding box.
    pub fn adjacent_towers<'a, C: Coord, F: Fn(TuplePoint, TuplePoint) -> u64>(
        &self,
        coords: &C,
        max_dist: u128,
        towers: &'a [Tower],
        dist: &F,
    ) -> (r: Result<Vec<&'a [Tower]>, ()>)
        requires
            self.indexes(towers@),
            forall|a: TuplePoint, b: TuplePoint| dist.requires((a, b)),
        ensures
            match r {
                Ok(found) => {
                    &&& self.b_box.contains(coords.lat_spec(), coords.lon_spec())
                    &&& self.is_adjacent(
                        dist,
                        self.cell_of(coords.lat_spec(), coords.lon_spec()),
                        max_dist,
                        towers@,
                        found@,
                    )
                },
                Err(_) => !self.b_box.contains(coords.lat_spec(), coords.lon_spec()),
            },
    {
        let side: usize = self.side_length;
        let index: usize = match self.coord_to_index(coords.lat(), coords.lon()) {
            Ok(index) => index,
            Err(_) => {
                return Err(());
            },
        };
        let cell_measure: u64 = self.cell_measure(dist);
        let ghost center = index as int;
        let ghost offsets = self.offset_array@;
        proof {
            crate::order::lemma_offsets(self.cells(towers@), side * side, offsets);
        }
        let mut radius: usize = 0;
        let mut result: Vec<&'a [Tower]> = Vec::new();
        loop
            invariant
                self.indexes(towers@),
                side == self.side_length,
                offsets == self.offset_array@,
                center == index,
                index < side * side,
                offsets.len() == side * side + 1,
                forall|c: int, d: int| 0 <= c <= d <= side * side ==> offsets[c] <= offsets[d],
                offsets[side * side] == towers@.len(),
                radius <= side,
                Grid::holds(
                    offsets,
                    towers@,
                    cells_within(center, side as int, radius as int),
                    result@,
                ),
                forall|r: int|
                    0 <= r < radius ==> !#[trigger] Grid::out_of_reach(r, cell_measure, max_dist as int),
            ensures
                radius <= side,
                Grid::holds(
                    offsets,
                    towers@,
                    cells_within(center, side as int, radius as int),
                    result@,
                ),
                forall|r: int|
                    0 <= r < radius ==> !#[trigger] Grid::out_of_reach(r, cell_measure, max_dist as int),
                radius == side || Grid::out_of_reach(radius as int, cell_measure, max_dist as int),
            decreases side - radius,
        {
            if radius >= side {
                break ;
            }
            if beyond(radius, cell_measure, max_dist) {
                break ;
            }
            let ghost inner = cells_within(center, side as int, radius as int);
            proof {
                lemma_side_fits(side as int);
            }
            let mut iter = RadiusIter::new(index as isize, side as isize, radius as isize);
            let ghost cells = ring(center, side as int, radius as int);
            let ghost mut done: int = 0;
            proof {
                lemma_ring_is_exact(center, side as int, radius as int);
                assert(inner + cells.take(0) =~= inner);
                assert(cells.skip(0) =~= cells);
                assert forall|c: usize| cells.contains(c) implies c < side * side by {
                    assert(on_ring(c as int, center, side as int, radius as int));
                }
            }
            loop
                invariant_except_break
                    iter.wf(),
                    0 <= done <= cells.len(),
                    iter@ == cells.skip(done),
                invariant
                    side == self.side_length,
                    offsets == self.offset_array@,
                    offsets.len() == side * side + 1,
                forall|c: int, d: int| 0 <= c <= d <= side * side ==> offsets[c] <= offsets[d],
                    offsets[side * side] == towers@.len(),
                    forall|c: usize| cells.contains(c) ==> c < side * side,
                    self.shaped(),
                    Grid::holds(offsets, towers@, inner + cells.take(done), result@),
                ensures
                    done == cells.len(),
                decreases cells.len() - done,
            {
                let cell: usize = match iter.next() {
                    Some(cell) => cell,
                    None => {
                        break ;
                    },
                };
                proof {
                    assert(cells.skip(done)[0] == cells[done]);
                    assert(cells.contains(cell));
                    assert(cell < side * side);
                    assert(offsets[cell as int] <= offsets[cell + 1] <= offsets[side * side]);
                }
                let start: usize = self.offset_array[cell];
                let end: usize = self.offset_array[cell + 1];
                let part: &'a [Tower] = &towers[start..end];
                result.push(part);
                proof {
                    assert((inner + cells.take(done)).push(cell) =~= inner + cells.take(done + 1));
                    done = done + 1;
                }
            }
            proof {
                assert(cells.take(cells.len() as int) =~= cells);
            }
            radius += 1;
        }
        proof {
            assert(center == self.cell_of(coords.lat_spec(), coords.lon_spec()));
            assert(self.gathered(
                dist,
                self.cell_of(coords.lat_spec(), coords.lon_spec()),
                max_dist,
                towers@,
                radius as int,
                cell_measure,
                result@,
            ));
            assert(self.is_adjacent(
                dist,
                self.cell_of(coords.lat_spec(), coords.lon_spec()),
                max_dist,
                towers@,
                result@,
            ));
        }
        Ok(result)
    }

    /// `parts` holds, for each of `cells` in turn, the items of that cell.
    pub open spec fn holds<T>(
        offsets: Seq<usize>,
        items: Seq<T>,
        cells: Seq<usize>,
        parts: Seq<&[T]>,
    ) -> bool {
        &&& parts.len() == cells.len()
        &&& forall|t: int|
            0 <= t < cells.len() ==> (#[trigger] parts[t])@ == items.subrange(
                offsets[cells[t] as int] as int,
                offsets[cells[t] + 1] as int,
            )
    }

    /// `parts` holds the items of the cells of the first `rings` rings
    /// around `center`, where `rings` is the first ring that the grid does
    /// not have or that is out of reach of `max_dist`.
    pub open spec fn gathered<T, F: Fn(TuplePoint, TuplePoint) -> u64>(
        &self,
        dist: &F,
        center: int,
        max_dist: u128,
        items: Seq<T>,
        rings: int,
        span: u64,
        parts: Seq<&[T]>,
    ) -> bool {
        &&& self.span_measured(dist, span)
        &&& 0 <= rings <= self.side_length
        &&& rings == self.side_length || Grid::out_of_reach(rings, span, max_dist as int)
        &&& forall|r: int| 0 <= r < rings ==> !#[trigger] Grid::out_of_reach(r, span, max_dist as int)
        &&& Grid::holds(
            self.offset_array@,
            items,
            cells_within(center, self.side_length as int, rings),
            parts,
        )
    }

    /// Whether the grid indexes `items`.
    pub fn is_index_of<C: Coord>(&self, items: &[C]) -> (r: bool)
        ensures
            r == self.indexes(items@),
    {
        let side: usize = self.side_length;
        let count: usize = match side.checked_mul(side) {
            Some(count) => count,
            None => {
                return false;
            },
        };
        if side < 1 || count >= isize::MAX as usize {
            return false;
        }
        let n: usize = items.len();
        let mut b_box = BoundingBox::new();
        let mut i: usize = 0;
        while i < n
            invariant
                i <= n,
                n == items@.len(),
                b_box == BoundingBox::hull(items@.take(i as int)),
            decreases n - i,
        {
            proof {
                assert(items@.take(i + 1).drop_last() =~= items@.take(i as int));
            }
            b_box.add_coord(&items[i]);
            i += 1;
        }
        proof {
            assert(items@.take(n as int) =~= items@);
            BoundingBox::lemma_hull_holds(items@);
        }
        if b_box.lat_min != self.b_box.lat_min || b_box.lat_max != self.b_box.lat_max
            || b_box.long_min != self.b_box.long_min || b_box.long_max != self.b_box.long_max {
            return false;
        }
        let mut cells: Vec<usize> = Vec::new();
        let mut i: usize = 0;
        while i < n
            invariant
                i <= n,
                n == items@.len(),
                self.shaped(),
                count == self.side_length * self.side_length,
                self.b_box == BoundingBox::hull(items@),
                forall|k: int|
                    0 <= k < n ==> self.b_box.contains(
                        (#[trigger] items@[k]).lat_spec(),
                        items@[k].lon_spec(),
                    ),
                cells@.len() == i,
                forall|k: int| 0 <= k < i ==> (#[trigger] cells@[k]) == self.cells(items@)[k],
                forall|k: int| 0 <= k < i ==> (#[trigger] cells@[k]) < count,
            decreases n - i,
        {
            let cell: usize = match self.coord_to_index(items[i].lat(), items[i].lon()) {
                Ok(cell) => cell,
                Err(_) => {
                    proof {
                        assert(self.b_box.contains(
                            items@[i as int].lat_spec(),
                            items@[i as int].lon_spec(),
                        ));
                    }
                    vstd::pervasive::unreached()
                },
            };
            cells.push(cell);
            i += 1;
        }
        proof {
            assert(cells@ =~= self.cells(items@));
        }
        if !never_decreases(&cells) {
            return false;
        }
        let expected = group_offsets(&cells, count);
        if expected.len() != self.offset_array.len() {
            return false;
        }
        let mut c: usize = 0;
        while c < expected.len()
            invariant
                c <= expected@.len(),
                expected@.len() == self.offset_array@.len(),
                forall|k: int| 0 <= k < c ==> expected@[k] == self.offset_array@[k],
                is_offsets(cells@, count as int, expected@),
                cells@ == self.cells(items@),
                count == self.side_length * self.side_length,
            decreases expected@.len() - c,
        {
            if expected[c] != self.offset_array[c] {
                proof {
                    if is_offsets(cells@, count as int, self.offset_array@) {
                        lemma_offsets_are_unique(
                            cells@,
                            count as int,
                            expected@,
                            self.offset_array@,
                        );
                    }
                }
                return false;
            }
            c += 1;
        }
        proof {
            assert(expected@ =~= self.offset_array@);
        }
        true
    }

    /// Converts coordinates to a index inside the grid.
    /// Returns error if the coordinates are not inside the grid
    pub fn coord_to_index(&self, lat: i64, long: i64) -> (r: Result<usize, ()>)
        requires
            self.shaped(),
        ensures
            match r {
                Ok(cell) => self.b_box.contains(lat, long) && cell == self.cell_of(lat, long)
                    && cell < self.side_length * self.side_length,
                Err(_) => !self.b_box.contains(lat, long),
            },
    {
        if !self.b_box.contains_point(lat, long) {
            return Err(());
        }
        proof {
            self.lemma_cell_in_grid(lat, long);
            lemma_axis_cell(
                long - self.b_box.long_min,
                self.b_box.long_max - self.b_box.long_min,
                self.side_length as int,
            );
            lemma_axis_cell(
                lat - self.b_box.lat_min,
                self.b_box.lat_max - self.b_box.lat_min,
                self.side_length as int,
            );
        }
        let x: usize = strip(lat, self.b_box.lat_min, self.b_box.lat_max, self.side_length);
        let y: usize = strip(long, self.b_box.long_min, self.b_box.long_max, self.side_length);
        assert(y * self.side_length + self.side_length <= self.side_length * self.side_length)
            by (nonlinear_arith)
            requires
                0 <= y < self.side_length,
        ;
        Ok(y * self.side_length + x)
    }
}

/// The radius of the ring around `center` on which cell `c` lies.
pub open spec fn ring_of(center: int, size: int, c: int) -> int {
    chebyshev(c % size, c / size, center % size, center / size)
}

/// A concatenation holds what either part holds.
proof fn lemma_add_contains<T>(a: Seq<T>, b: Seq<T>, x: T)
    ensures
        (a + b).contains(x) <==> a.contains(x) || b.contains(x),
{
    if a.contains(x) {
        let i = choose|i: int| 0 <= i < a.len() && a[i] == x;
        assert((a + b)[i] == x);
    }
    if b.contains(x) {
        let i = choose|i: int| 0 <= i < b.len() && b[i] == x;
        assert((a + b)[a.len() + i] == x);
    }
    if (a + b).contains(x) {
        let i = choose|i: int| 0 <= i < (a + b).len() && (a + b)[i] == x;
        if i < a.len() {
            assert(a[i] == x);
        } else {
            assert(b[i - a.len()] == x);
        }
    }
}

/// The rings of radius below `rings` hold exactly the cells that lie on a
/// ring of such a radius.
pub proof fn lemma_cells_within(center: int, size: int, rings: int, c: usize)
    requires
        0 < size,
        size * size <= usize::MAX,
        0 <= rings,
    ensures
        cells_within(center, size, rings).contains(c) <==> 0 <= c < size * size && ring_of(
            center,
            size,
            c as int,
        ) < rings,
    decreases rings,
{
    assert(ring_of(center, size, c as int) >= 0);
    if rings > 0 {
        lemma_cells_within(center, size, rings - 1, c);
        lemma_ring_is_exact(center, size, rings - 1);
        lemma_add_contains(cells_within(center, size, rings - 1), ring(center, size, rings - 1), c);
        assert(ring(center, size, rings - 1).contains(c) <==> on_ring(
            c as int,
            center,
            size,
            rings - 1,
        ));
    } else {
        assert(cells_within(center, size, rings) =~= Seq::<usize>::empty());
    }
}

/// The positions of some cells are the positions that lie in one of them.
pub proof fn lemma_positions(offsets: Seq<usize>, cells: Seq<usize>, i: int)
    requires
        forall|t: int|
            0 <= t < cells.len() ==> offsets[(#[trigger] cells[t]) as int] <= offsets[cells[t]
                + 1],
    ensures
        positions(offsets, cells).contains(i) <==> exists|t: int|
            0 <= t < cells.len() && offsets[(#[trigger] cells[t]) as int] <= i < offsets[cells[t]
                + 1],
    decreases cells.len(),
{
    if cells.len() > 0 {
        let rest = cells.drop_last();
        let last = cells.last() as int;
        assert forall|t: int| 0 <= t < rest.len() implies offsets[(#[trigger] rest[t]) as int]
            <= offsets[rest[t] + 1] by {
            assert(rest[t] == cells[t]);
        }
        lemma_positions(offsets, rest, i);
        lemma_add_contains(positions(offsets, rest), cell_range(offsets, last), i);
        let range = cell_range(offsets, last);
        assert(cells[cells.len() - 1] == last);
        assert(offsets[last] <= offsets[last + 1]);
        if range.contains(i) {
            let u = choose|u: int| 0 <= u < range.len() && range[u] == i;
            assert(offsets[last] <= i < offsets[last + 1]);
        }
        if offsets[last] <= i < offsets[last + 1] {
            assert(range[i - offsets[last]] == i);
        }
        if positions(offsets, rest).contains(i) {
            let t = choose|t: int|
                0 <= t < rest.len() && offsets[(#[trigger] rest[t]) as int] <= i < offsets[rest[t]
                    + 1];
            assert(cells[t] == rest[t]);
        }
        if exists|t: int|
            0 <= t < cells.len() && offsets[(#[trigger] cells[t]) as int] <= i < offsets[cells[t]
                + 1] {
            let t = choose|t: int|
                0 <= t < cells.len() && offsets[(#[trigger] cells[t]) as int] <= i
                    < offsets[cells[t] + 1];
            if t < rest.len() {
                assert(rest[t] == cells[t]);
            }
        }
    }
}

/// Whether everything in ring `radius` or beyond is farther away than
/// `limit`, when a cell measures `span`.
fn beyond(radius: usize, span: u64, limit: u128) -> (r: bool)
    ensures
        r == Grid::out_of_reach(radius as int, span, limit as int),
{
    if radius == 0 {
        assert((radius - 1) * span <= 0) by (nonlinear_arith)
            requires
                radius == 0,
                0 <= span,
        ;
        return false;
    }
    assert((radius - 1) * span <= 0xffff_ffff_ffff_ffff * 0xffff_ffff_ffff_ffff)
        by (nonlinear_arith)
        requires
            0 <= radius - 1 <= 0xffff_ffff_ffff_ffff,
            0 <= span <= 0xffff_ffff_ffff_ffff,
    ;
    (radius - 1) as u128 * (span as u128) > limit
}

/// The row of a cell of the grid is a row of the grid.
proof fn lemma_row_in_grid(c: int, side: int)
    requires
        0 < side,
        0 <= c < side * side,
    ensures
        0 <= c / side < side,
{
    vstd::arithmetic::div_mod::lemma_fundamental_div_mod(c, side);
    vstd::arithmetic::div_mod::lemma_mod_bound(c, side);
    let y = c / side;
    assert(side * y == y * side) by (nonlinear_arith);
    if y >= side {
        assert(y * side >= side * side) by (nonlinear_arith)
            requires
                y >= side,
                side > 0,
        ;
    }
    if y < 0 {
        assert(y * side <= -side) by (nonlinear_arith)
            requires
                y <= -1,
                side > 0,
        ;
    }
}

/// The side of a grid fits a signed index, and so does every cell.
proof fn lemma_side_fits(side: int)
    requires
        1 <= side,
        side * side < isize::MAX,
    ensures
        side <= side * side,
        side < isize::MAX,
        side * side <= usize::MAX,
{
    assert(side <= side * side) by (nonlinear_arith)
        requires
            1 <= side,
    ;
}

/// The strip of `value` among `side` equal strips of the span from `min` to
/// `max`.
fn strip(value: i64, min: i64, max: i64, side: usize) -> (cell: usize)
    requires
        min <= value <= max,
        1 <= side,
        side * side < isize::MAX,
    ensures
        cell == axis_cell(value - min, max - min, side as int),
        cell < side,
{
    proof {
        lemma_axis_cell(value - min, max - min, side as int);
    }
    if max == min {
        return 0;
    }
    let dif: u128 = (value as i128 - min as i128) as u128;
    let width: u128 = (max as i128 - min as i128) as u128;
    assert(side <= 0x7fff_ffff_ffff_ffff) by (nonlinear_arith)
        requires
            1 <= side,
            side * side < isize::MAX,
            isize::MAX <= 0x7fff_ffff_ffff_ffff,
    ;
    assert(dif * side <= 0xffff_ffff_ffff_ffff * 0x7fff_ffff_ffff_ffff) by (nonlinear_arith)
        requires
            0 <= dif <= 0xffff_ffff_ffff_ffff,
            0 <= side <= 0x7fff_ffff_ffff_ffff,
    ;
    let scaled: u128 = dif * (side as u128) / width;
    if scaled >= side as u128 {
        side - 1
    } else {
        scaled as usize
    }
}

/// Rearranging items does not change their hull.
pub proof fn lemma_hull_of_permuted<C: Coord>(items: Seq<C>, order: Seq<usize>)
    requires
        crate::order::covers(order, 0, items.len() as int),
        items.len() <= usize::MAX,
    ensures
        BoundingBox::hull(permuted(items, order)) == BoundingBox::hull(items),
{
    lemma_hull_is_tight(items);
    lemma_hull_is_tight(permuted(items, order));
    let a = BoundingBox::hull(items);
    let b = BoundingBox::hull(permuted(items, order));
    let p = permuted(items, order);
    if items.len() > 0 {
        assert forall|i: int| 0 <= i < items.len() implies b.contains(
            (#[trigger] items[i]).lat_spec(),
            items[i].lon_spec(),
        ) by {
            assert(order.contains(i as usize));
            let k = choose|k: int| 0 <= k < order.len() && order[k] == i as usize;
            assert(p[k] == items[i]);
        }
        assert forall|k: int| 0 <= k < p.len() implies a.contains(
            (#[trigger] p[k]).lat_spec(),
            p[k].lon_spec(),
        ) by {
            assert(p[k] == items[order[k] as int]);
        }
    }
}

/// Each side of the hull of some items is reached by one of them, and the
/// hull holds them all.
proof fn lemma_hull_is_tight<C: Coord>(items: Seq<C>)
    ensures
        items.len() == 0 ==> BoundingBox::hull(items) == BoundingBox::empty(),
        forall|i: int|
            0 <= i < items.len() ==> BoundingBox::hull(items).contains(
                (#[trigger] items[i]).lat_spec(),
                items[i].lon_spec(),
            ),
        items.len() > 0 ==> {
            &&& exists|i: int|
                0 <= i < items.len() && (#[trigger] items[i]).lat_spec() == BoundingBox::hull(
                    items,
                ).lat_min
            &&& exists|i: int|
                0 <= i < items.len() && (#[trigger] items[i]).lat_spec() == BoundingBox::hull(
                    items,
                ).lat_max
            &&& exists|i: int|
                0 <= i < items.len() && (#[trigger] items[i]).lon_spec() == BoundingBox::hull(
                    items,
                ).long_min
            &&& exists|i: int|
                0 <= i < items.len() && (#[trigger] items[i]).lon_spec() == BoundingBox::hull(
                    items,
                ).long_max
        },
    decreases items.len(),
{
    BoundingBox::lemma_hull_holds(items);
    if items.len() > 0 {
        let rest = items.drop_last();
        let last = items.len() - 1;
        let h = BoundingBox::hull(items);
        let r = BoundingBox::hull(rest);
        lemma_hull_is_tight(rest);
        if rest.len() == 0 {
            assert(items[last].lat_spec() == h.lat_min);
            assert(items[last].lat_spec() == h.lat_max);
            assert(items[last].lon_spec() == h.long_min);
            assert(items[last].lon_spec() == h.long_max);
        } else {
            if h.lat_min == r.lat_min {
                let i = choose|i: int| 0 <= i < rest.len() && (#[trigger] rest[i]).lat_spec() == r.lat_min;
                assert(items[i].lat_spec() == h.lat_min);
            } else {
                assert(items[last].lat_spec() == h.lat_min);
            }
            if h.lat_max == r.lat_max {
                let i = choose|i: int| 0 <= i < rest.len() && (#[trigger] rest[i]).lat_spec() == r.lat_max;
                assert(items[i].lat_spec() == h.lat_max);
            } else {
                assert(items[last].lat_spec() == h.lat_max);
            }
            if h.long_min == r.long_min {
                let i = choose|i: int| 0 <= i < rest.len() && (#[trigger] rest[i]).lon_spec() == r.long_min;
                assert(items[i].lon_spec() == h.long_min);
            } else {
                assert(items[last].lon_spec() == h.long_min);
            }
            if h.long_max == r.long_max {
                let i = choose|i: int| 0 <= i < rest.len() && (#[trigger] rest[i]).lon_spec() == r.long_max;
                assert(items[i].lon_spec() == h.long_max);
            } else {
                assert(items[last].lon_spec() == h.long_max);
            }
        }
    }
}

} // verus!
