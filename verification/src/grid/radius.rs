//! Rings of grid cells at a fixed Chebyshev distance around a centre cell.

use vstd::prelude::*;
use vstd::arithmetic::div_mod::*;
use vstd::relations::*;
use vstd::set_lib::*;

verus! {

/// Absolute value.
pub open spec fn abs(a: int) -> int {
    if a < 0 {
        -a
    } else {
        a
    }
}

/// Chebyshev distance between the points `(x1, y1)` and `(x2, y2)`.
pub open spec fn chebyshev(x1: int, y1: int, x2: int, y2: int) -> int {
    if abs(x1 - x2) >= abs(y1 - y2) {
        abs(x1 - x2)
    } else {
        abs(y1 - y2)
    }
}

/// Whether cell `c` of a grid of side `size` lies at Chebyshev distance
/// `radius` from cell `center`. Cell `c` sits in column `c % size` of row
/// `c / size`.
pub open spec fn on_ring(c: int, center: int, size: int, radius: int) -> bool {
    &&& 0 <= c < size * size
    &&& chebyshev(c % size, c / size, center % size, center / size) == radius
}

/// The cells of the ring whose index is at least `from`, in increasing order.
pub open spec fn ring_from(from: int, center: int, size: int, radius: int) -> Seq<usize>
    decreases size * size - from,
{
    if from < 0 || from >= size * size {
        Seq::empty()
    } else if on_ring(from, center, size, radius) {
        seq![from as usize] + ring_from(from + 1, center, size, radius)
    } else {
        ring_from(from + 1, center, size, radius)
    }
}

/// All cells of the ring of the given radius around `center`, row by row
/// from the top and from left to right within a row.
pub open spec fn ring(center: int, size: int, radius: int) -> Seq<usize> {
    ring_from(0, center, size, radius)
}

/// Row-major order on points.
pub open spec fn before(x1: int, y1: int, x2: int, y2: int) -> bool {
    y1 < y2 || (y1 == y2 && x1 < x2)
}

/// The index of a point in the grid is its row-major position.
proof fn lemma_index_of_point(x: int, y: int, size: int)
    requires
        0 <= x < size,
        0 <= y,
    ensures
        (y * size + x) % size == x,
        (y * size + x) / size == y,
        0 <= y * size + x,
        y < size ==> y * size + x < size * size,
{
    lemma_fundamental_div_mod_converse(y * size + x, size, y, x);
    assert(0 <= y * size) by (nonlinear_arith)
        requires
            0 <= y,
            0 < size,
    ;
    if y < size {
        assert(y * size + size <= size * size) by (nonlinear_arith)
            requires
                0 <= y < size,
        ;
    }
}

/// Every cell index decomposes into a point of the grid.
proof fn lemma_point_of_index(c: int, size: int)
    requires
        0 <= c < size * size,
        0 < size,
    ensures
        0 <= c % size < size,
        0 <= c / size < size,
        c == (c / size) * size + c % size,
{
    lemma_fundamental_div_mod(c, size);
    lemma_mod_bound(c, size);
    let y = c / size;
    assert(c == size * y + c % size);
    assert(size * y == y * size) by (nonlinear_arith);
    if y >= size {
        assert(y * size >= size * size) by (nonlinear_arith)
            requires
                y >= size,
                size > 0,
        ;
    }
    if y < 0 {
        assert(y * size <= -size) by (nonlinear_arith)
            requires
                y <= -1,
                size > 0,
        ;
    }
}

/// Row-major order on points agrees with the order of their indices.
proof fn lemma_order_of_points(x1: int, y1: int, x2: int, y2: int, size: int)
    requires
        0 <= x1 < size,
        0 <= x2 < size,
    ensures
        before(x1, y1, x2, y2) <==> y1 * size + x1 < y2 * size + x2,
{
    if y1 < y2 {
        assert(y1 * size + size <= y2 * size) by (nonlinear_arith)
            requires
                y1 < y2,
                size > 0,
        ;
    } else if y2 < y1 {
        assert(y2 * size + size <= y1 * size) by (nonlinear_arith)
            requires
                y2 < y1,
                size > 0,
        ;
    }
}

/// Two numbers below the side of a grid add up to less than its cell count.
proof fn lemma_sum_fits(a: int, b: int, size: int)
    requires
        0 <= a < size,
        0 <= b < size,
    ensures
        a + b < size * size,
{
    assert((size - 1) * (size - 1) >= 0) by (nonlinear_arith);
    assert(size * size == (size - 1) * (size - 1) + 2 * size - 1) by (nonlinear_arith);
}

/// Cells between `a` and `b` that are all off the ring can be skipped.
proof fn lemma_skip(a: int, b: int, center: int, size: int, radius: int)
    requires
        0 <= a <= b,
        forall|d: int| a <= d < b ==> !on_ring(d, center, size, radius),
    ensures
        ring_from(a, center, size, radius) == ring_from(b, center, size, radius),
    decreases b - a,
{
    if a < b {
        lemma_skip(a + 1, b, center, size, radius);
        if a >= size * size {
            assert(b >= size * size);
        }
    }
}

/// What `ring_from` holds: ring cells from `from` on, each once, in
/// increasing order, and all of them.
proof fn lemma_ring_from(from: int, center: int, size: int, radius: int)
    requires
        0 <= from,
        size * size <= usize::MAX,
    ensures
        forall|i: int|
            0 <= i < ring_from(from, center, size, radius).len() ==> from <= (#[trigger] ring_from(
                from,
                center,
                size,
                radius,
            )[i]) && on_ring(ring_from(from, center, size, radius)[i] as int, center, size, radius),
        forall|i: int, j: int|
            0 <= i < j < ring_from(from, center, size, radius).len() ==> ring_from(
                from,
                center,
                size,
                radius,
            )[i] < ring_from(from, center, size, radius)[j],
        forall|c: int|
            from <= c && on_ring(c, center, size, radius) ==> ring_from(
                from,
                center,
                size,
                radius,
            ).contains(c as usize),
    decreases size * size - from,
{
    let r = ring_from(from, center, size, radius);
    if from < size * size {
        lemma_ring_from(from + 1, center, size, radius);
        let rest = ring_from(from + 1, center, size, radius);
        if on_ring(from, center, size, radius) {
            assert(r == seq![from as usize] + rest);
            assert(r[0] == from as usize);
            assert forall|i: int| 1 <= i < r.len() implies r[i] == rest[i - 1] by {}
            assert forall|c: int| from <= c && on_ring(c, center, size, radius) implies r.contains(
                c as usize,
            ) by {
                if c != from {
                    assert(rest.contains(c as usize));
                    let i = choose|i: int| 0 <= i < rest.len() && rest[i] == c as usize;
                    assert(r[i + 1] == c as usize);
                }
            }
            assert forall|i: int, j: int| 0 <= i < j < r.len() implies r[i] < r[j] by {
                assert(r[j] == rest[j - 1]);
                if i > 0 {
                    assert(r[i] == rest[i - 1]);
                }
            }
        } else {
            assert(r == rest);
        }
    }
}

/// A ring holds exactly the cells of the grid at the given Chebyshev distance
/// from the centre, each of them once and in increasing order.
pub proof fn lemma_ring_is_exact(center: int, size: int, radius: int)
    requires
        0 < size,
        size * size <= usize::MAX,
    ensures
        ring(center, size, radius).no_duplicates(),
        forall|c: usize|
            ring(center, size, radius).contains(c) <==> on_ring(c as int, center, size, radius),
        forall|i: int, j: int|
            0 <= i < j < ring(center, size, radius).len() ==> ring(center, size, radius)[i] < ring(
                center,
                size,
                radius,
            )[j],
{
    lemma_ring_from(0, center, size, radius);
    let r = ring(center, size, radius);
    assert forall|c: usize| r.contains(c) implies on_ring(c as int, center, size, radius) by {
        let i = choose|i: int| 0 <= i < r.len() && r[i] == c;
        assert(on_ring(r[i] as int, center, size, radius));
    }
    assert forall|i: int, j: int| 0 <= i < r.len() && 0 <= j < r.len() && i != j implies r[i]
        != r[j] by {
        if i < j {
            assert(r[i] < r[j]);
        } else {
            assert(r[j] < r[i]);
        }
    }
}

/// The place of a cell of a ring on the way round the ring: first the top
/// row, then the bottom row, then the left and the right column between
/// them.
spec fn place_on_ring(c: usize, center: int, size: int, radius: int) -> int {
    let dx = c as int % size - center % size;
    let dy = c as int / size - center / size;
    if dy == -radius {
        dx + radius
    } else if dy == radius {
        3 * radius + 1 + dx
    } else if dx == -radius {
        5 * radius + 1 + dy
    } else {
        7 * radius + dy
    }
}

/// A ring of radius zero is its centre, and a ring of a greater radius has
/// no more than eight cells for each step of the radius.
pub proof fn lemma_ring_len(center: int, size: int, radius: int)
    requires
        0 < size,
        size * size <= usize::MAX,
        0 <= center < size * size,
        0 <= radius,
    ensures
        radius == 0 ==> ring(center, size, radius) == seq![center as usize],
        radius >= 1 ==> ring(center, size, radius).len() <= 8 * radius,
{
    lemma_ring_is_exact(center, size, radius);
    let r = ring(center, size, radius);
    let cells = r.to_set();
    r.unique_seq_to_set();
    if radius == 0 {
        lemma_point_of_index(center, size);
        assert(on_ring(center, center, size, radius));
        assert(r.contains(center as usize));
        assert forall|c: usize| cells.contains(c) implies c == center by {
            assert(r.contains(c));
            assert(on_ring(c as int, center, size, radius));
            lemma_point_of_index(c as int, size);
        }
        assert(cells =~= set![center as usize]);
        assert(r.len() == 1);
        assert(r.contains(r[0]));
        assert(r =~= seq![center as usize]);
    } else {
        let f = |c: usize| place_on_ring(c, center, size, radius);
        assert forall|a: usize, b: usize| cells.contains(a) && cells.contains(b) && #[trigger] f(a)
            == #[trigger] f(b) implies a == b by {
            assert(r.contains(a) && r.contains(b));
            assert(on_ring(a as int, center, size, radius));
            assert(on_ring(b as int, center, size, radius));
            lemma_point_of_index(a as int, size);
            lemma_point_of_index(b as int, size);
            assert(a as int % size == b as int % size);
            assert(a as int / size == b as int / size);
        }
        assert(injective_on(f, cells));
        let places = cells.map(f);
        lemma_map_size(cells, places, f);
        assert forall|p: int| places.contains(p) implies set_int_range(0, 8 * radius).contains(
            p,
        ) by {
            let c = choose|c: usize| cells.contains(c) && f(c) == p;
            assert(r.contains(c));
            assert(on_ring(c as int, center, size, radius));
        }
        lemma_int_range(0, 8 * radius);
        lemma_len_subset(places, set_int_range(0, 8 * radius));
    }
}

/// A point of the grid.
#[derive(Clone, Copy, Debug)]
struct Point {
    x: isize,
    y: isize,
    grid_size: isize,
}

impl Point {
    /// The point lies in a grid whose cells can be counted.
    spec fn in_grid(&self) -> bool {
        &&& 0 <= self.x < self.grid_size
        &&& 0 <= self.y < self.grid_size
        &&& self.grid_size * self.grid_size <= isize::MAX
    }

    /// The index of the cell at the point.
    spec fn index(&self) -> int {
        self.y * self.grid_size + self.x
    }

    /// The point of the cell with the given index.
    fn from_index(index: isize, grid_size: isize) -> (p: Point)
        requires
            0 < grid_size,
            grid_size * grid_size <= isize::MAX,
            0 <= index < grid_size * grid_size,
        ensures
            p.in_grid(),
            p.grid_size == grid_size,
            p.index() == index,
            p.x == (index as int) % (grid_size as int),
            p.y == (index as int) / (grid_size as int),
    {
        proof {
            lemma_point_of_index(index as int, grid_size as int);
        }
        let y: isize = index / grid_size;
        let x: isize = index % grid_size;
        Point { x, y, grid_size }
    }

    /// The index of the cell at the point.
    fn to_index(&self) -> (index: usize)
        requires
            self.in_grid(),
        ensures
            index == self.index(),
            0 <= index < self.grid_size * self.grid_size,
            (index as int) % (self.grid_size as int) == self.x,
            (index as int) / (self.grid_size as int) == self.y,
    {
        proof {
            lemma_index_of_point(self.x as int, self.y as int, self.grid_size as int);
        }
        let row: isize = self.y * self.grid_size;
        (row + self.x) as usize
    }
}

/// Walks the cells of one ring around a centre cell: those at Chebyshev
/// distance exactly `radius` that lie inside the grid.
pub struct RadiusIter {
    center: Point,
    grid_size: isize,
    radius: isize,
    next_point: Option<Point>,
}

impl RadiusIter {
    /// Whether `(x, y)` is a point of the grid on the ring.
    spec fn ring_point(&self, x: int, y: int) -> bool {
        &&& 0 <= x < self.grid_size
        &&& 0 <= y < self.grid_size
        &&& chebyshev(x, y, self.center.x as int, self.center.y as int) == self.radius
    }

    /// No point of the ring lies strictly between `(x1, y1)` and `(x2, y2)`.
    spec fn none_between(&self, x1: int, y1: int, x2: int, y2: int) -> bool {
        forall|x: int, y: int|
            before(x1, y1, x, y) && before(x, y, x2, y2) ==> !self.ring_point(x, y)
    }

    /// The internal invariant of the iterator.
    pub closed spec fn wf(&self) -> bool {
        &&& 0 < self.grid_size
        &&& self.center.in_grid()
        &&& self.center.grid_size == self.grid_size
        &&& 0 <= self.radius
        &&& (self.radius >= self.grid_size ==> self.next_point.is_none())
        &&& match self.next_point {
            Some(p) => p.in_grid() && p.grid_size == self.grid_size && self.ring_point(
                p.x as int,
                p.y as int,
            ),
            None => true,
        }
    }

    /// The cells that the iterator has yet to yield, in the order in which
    /// it yields them.
    pub closed spec fn view(&self) -> Seq<usize> {
        match self.next_point {
            Some(p) => ring_from(
                p.index(),
                self.center.index(),
                self.grid_size as int,
                self.radius as int,
            ),
            None => Seq::empty(),
        }
    }

    /// The ring of the given radius around cell `center` in a grid of side
    /// `grid_size`.
    pub fn new(center: isize, grid_size: isize, radius: isize) -> (rad: RadiusIter)
        requires
            0 < grid_size,
            grid_size * grid_size <= isize::MAX,
            0 <= center < grid_size * grid_size,
            0 <= radius,
        ensures
            rad.wf(),
            rad@ == ring(center as int, grid_size as int, radius as int),
    {
        let center_point = Point::from_index(center, grid_size);
        let mut rad = RadiusIter { center: center_point, grid_size, radius, next_point: None };
        let start = RadiusIter::calculate_starting_point(&rad);
        proof {
            rad.lemma_gap(-1, 0, start);
        }
        rad.next_point = start;
        rad
    }

    /// Yields the next cell of the ring, or `None` once the ring is exhausted.
    pub fn next(&mut self) -> (r: Option<usize>)
        requires
            old(self).wf(),
        ensures
            final(self).wf(),
            match r {
                Some(c) => old(self)@.len() > 0 && c == old(self)@[0] && final(self)@ == old(
                    self,
                )@.skip(1),
                None => old(self)@.len() == 0 && final(self)@.len() == 0,
            },
    {
        let cur = match self.next_point {
            Some(p) => p,
            None => {
                return None;
            },
        };
        let index = cur.to_index();
        let next = self.successor(&cur);
        proof {
            self.lemma_gap(cur.x as int, cur.y as int, next);
            let rest = ring_from(
                index + 1,
                self.center.index(),
                self.grid_size as int,
                self.radius as int,
            );
            assert(on_ring(
                index as int,
                self.center.index(),
                self.grid_size as int,
                self.radius as int,
            )) by {
                lemma_index_of_point(
                    self.center.x as int,
                    self.center.y as int,
                    self.grid_size as int,
                );
            }
            assert(self@ == seq![index] + rest);
            assert((seq![index] + rest).skip(1) =~= rest);
        }
        self.next_point = next;
        Some(index)
    }

    /// What follows `(x, y)` on the ring: the claim that `next` is the first
    /// ring point after it, turned into a statement about `ring_from`.
    proof fn lemma_gap(&self, x: int, y: int, next: Option<Point>)
        requires
            0 < self.grid_size,
            self.center.in_grid(),
            self.center.grid_size == self.grid_size,
            -1 <= x < self.grid_size,
            0 <= y < self.grid_size,
            match next {
                Some(q) => q.in_grid() && q.grid_size == self.grid_size && before(
                    x,
                    y,
                    q.x as int,
                    q.y as int,
                ) && self.none_between(x, y, q.x as int, q.y as int),
                None => self.none_between(x, y, 0, self.grid_size as int),
            },
        ensures
            ring_from(
                y * self.grid_size + x + 1,
                self.center.index(),
                self.grid_size as int,
                self.radius as int,
            ) == match next {
                Some(q) => ring_from(
                    q.index(),
                    self.center.index(),
                    self.grid_size as int,
                    self.radius as int,
                ),
                None => Seq::empty(),
            },
    {
        let size = self.grid_size as int;
        let center = self.center.index();
        let a = y * size + x + 1;
        let b = match next {
            Some(q) => q.index(),
            None => size * size,
        };
        lemma_index_of_point(self.center.x as int, self.center.y as int, size);
        assert(0 <= y * size) by (nonlinear_arith)
            requires
                0 <= y,
                0 < size,
        ;
        assert(y * size + size <= size * size) by (nonlinear_arith)
            requires
                0 <= y < size,
        ;
        match next {
            Some(q) => {
                lemma_index_of_point(q.x as int, q.y as int, size);
                if y < q.y {
                    assert(y * size + size <= q.y * size) by (nonlinear_arith)
                        requires
                            y < q.y,
                            size > 0,
                    ;
                }
            },
            None => {},
        }
        assert(a <= b);
        assert forall|d: int| a <= d < b implies !on_ring(d, center, size, self.radius as int) by {
            if 0 <= d < size * size {
                lemma_point_of_index(d, size);
                let dx = d % size;
                let dy = d / size;
                if x >= 0 {
                    lemma_order_of_points(x, y, dx, dy, size);
                } else {
                    if dy < y {
                        assert(dy * size + size <= y * size) by (nonlinear_arith)
                            requires
                                dy < y,
                                size > 0,
                        ;
                    }
                }
                assert(before(x, y, dx, dy));
                match next {
                    Some(q) => {
                        lemma_order_of_points(dx, dy, q.x as int, q.y as int, size);
                    },
                    None => {},
                }
                assert(!self.ring_point(dx, dy));
            }
        }
        lemma_skip(a, b, center, size, self.radius as int);
    }

    /// The first point of the ring in row `y` or below.
    fn row_start(&self, y: isize) -> (r: Option<Point>)
        requires
            0 < self.grid_size,
            self.center.in_grid(),
            self.center.grid_size == self.grid_size,
            0 <= self.radius < self.grid_size,
            0 <= y <= self.grid_size,
            self.center.y - self.radius <= y,
        ensures
            match r {
                Some(q) => q.in_grid() && q.grid_size == self.grid_size && self.ring_point(
                    q.x as int,
                    q.y as int,
                ) && y <= q.y && self.none_between(-1, y as int, q.x as int, q.y as int),
                None => self.none_between(-1, y as int, 0, self.grid_size as int),
            },
    {
        let cx: isize = self.center.x;
        let cy: isize = self.center.y;
        let k: isize = self.radius;
        let size: isize = self.grid_size;
        proof {
            lemma_sum_fits(cx as int, k as int, size as int);
            lemma_sum_fits(cy as int, k as int, size as int);
        }
        let left: isize = if cx - k < 0 {
            0
        } else {
            cx - k
        };
        if y >= size || y > cy + k {
            return None;
        }
        if y - cy == k || cy - y == k {
            return Some(Point { x: left, y, grid_size: size });
        }
        if cx - k >= 0 {
            Some(Point { x: cx - k, y, grid_size: size })
        } else if cx + k < size {
            Some(Point { x: cx + k, y, grid_size: size })
        } else if cy + k < size {
            Some(Point { x: left, y: cy + k, grid_size: size })
        } else {
            None
        }
    }

    /// The first point of the ring after `cur`.
    fn successor(&self, cur: &Point) -> (r: Option<Point>)
        requires
            self.wf(),
            cur.in_grid(),
            cur.grid_size == self.grid_size,
            self.ring_point(cur.x as int, cur.y as int),
        ensures
            match r {
                Some(q) => q.in_grid() && q.grid_size == self.grid_size && self.ring_point(
                    q.x as int,
                    q.y as int,
                ) && before(cur.x as int, cur.y as int, q.x as int, q.y as int)
                    && self.none_between(cur.x as int, cur.y as int, q.x as int, q.y as int),
                None => self.none_between(
                    cur.x as int,
                    cur.y as int,
                    0,
                    self.grid_size as int,
                ),
            },
    {
        let cx: isize = self.center.x;
        let cy: isize = self.center.y;
        let k: isize = self.radius;
        let size: isize = self.grid_size;
        if k >= size {
            return None;
        }
        proof {
            lemma_sum_fits(cx as int, k as int, size as int);
        }
        if cur.y - cy == k || cy - cur.y == k {
            if cur.x + 1 < size && cur.x + 1 <= cx + k {
                return Some(Point { x: cur.x + 1, y: cur.y, grid_size: size });
            }
        } else if cur.x < cx + k && cx + k < size {
            return Some(Point { x: cx + k, y: cur.y, grid_size: size });
        }
        self.row_start(cur.y + 1)
    }

    /// The first point of the ring, if it has one inside the grid.
    fn calculate_starting_point(rad_iter: &RadiusIter) -> (r: Option<Point>)
        requires
            0 < rad_iter.grid_size,
            rad_iter.center.in_grid(),
            rad_iter.center.grid_size == rad_iter.grid_size,
            0 <= rad_iter.radius,
        ensures
            rad_iter.radius >= rad_iter.grid_size ==> r.is_none(),
            match r {
                Some(q) => q.in_grid() && q.grid_size == rad_iter.grid_size
                    && rad_iter.ring_point(q.x as int, q.y as int) && rad_iter.none_between(
                    -1,
                    0,
                    q.x as int,
                    q.y as int,
                ),
                None => rad_iter.none_between(-1, 0, 0, rad_iter.grid_size as int),
            },
    {
        if rad_iter.radius >= rad_iter.grid_size {
            return None;
        }
        let top: isize = if rad_iter.center.y - rad_iter.radius < 0 {
            0
        } else {
            rad_iter.center.y - rad_iter.radius
        };
        rad_iter.row_start(top)
    }
}

} // verus!
