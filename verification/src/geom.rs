//! Coordinates and sections of a segment.

use vstd::prelude::*;
use crate::wide::{Wide, LIMB};

verus! {

/// The denominator of a fraction of a segment: a section from `0` to `UNIT`
/// is the whole segment.
pub const UNIT: u64 = 1_073_741_824;

/// Uniform access to things that have a position on the sphere, in degrees
/// scaled by 10,000,000.
pub trait Coord {
    /// The latitude.
    spec fn lat_spec(&self) -> i64;

    /// The longitude.
    spec fn lon_spec(&self) -> i64;

    /// The latitude.
    fn lat(&self) -> (r: i64)
        ensures
            r == self.lat_spec(),
    ;

    /// The longitude.
    fn lon(&self) -> (r: i64)
        ensures
            r == self.lon_spec(),
    ;
}

/// A position as a pair of latitude and longitude.
pub type TuplePoint = (i64, i64);

impl Coord for TuplePoint {
    open spec fn lat_spec(&self) -> i64 {
        self.0
    }

    open spec fn lon_spec(&self) -> i64 {
        self.1
    }

    #[inline]
    fn lat(&self) -> (r: i64) {
        self.0
    }

    #[inline]
    fn lon(&self) -> (r: i64) {
        self.1
    }
}

/// Uniform access to points of the plane, in millimetres.
pub trait Point {
    /// The first coordinate.
    spec fn x_spec(&self) -> i64;

    /// The second coordinate.
    spec fn y_spec(&self) -> i64;

    /// The first coordinate.
    fn x(&self) -> (r: i64)
        ensures
            r == self.x_spec(),
    ;

    /// The second coordinate.
    fn y(&self) -> (r: i64)
        ensures
            r == self.y_spec(),
    ;
}

impl Point for TuplePoint {
    open spec fn x_spec(&self) -> i64 {
        self.0
    }

    open spec fn y_spec(&self) -> i64 {
        self.1
    }

    #[inline]
    fn x(&self) -> (r: i64) {
        self.0
    }

    #[inline]
    fn y(&self) -> (r: i64) {
        self.1
    }
}

/// Whether the point at the fraction `k / UNIT` of the segment from `a` to
/// `b` lies in the closed disk of radius `r` around `c`. The point is `a +
/// (k / UNIT) * (b - a)`; it is compared after scaling by `UNIT`.
pub open spec fn lies_in_disk(a: TuplePoint, b: TuplePoint, c: TuplePoint, r: u64, k: int) -> bool {
    (UNIT * (a.0 - c.0) + k * (b.0 - a.0)) * (UNIT * (a.0 - c.0) + k * (b.0 - a.0)) + (UNIT * (a.1
        - c.1) + k * (b.1 - a.1)) * (UNIT * (a.1 - c.1) + k * (b.1 - a.1)) <= (UNIT * r) * (UNIT
        * r)
}

/// Whether the line through `a` and `b` crosses the circle of radius `r`
/// around `c` in two points: with `u = b - a` and `v = a - c`, the
/// discriminant `(u.v)^2 - (u.u) * (v.v - r^2)` is positive.
pub open spec fn crosses(a: TuplePoint, b: TuplePoint, c: TuplePoint, r: u64) -> bool {
    let ux = b.0 - a.0;
    let uy = b.1 - a.1;
    let vx = a.0 - c.0;
    let vy = a.1 - c.1;
    (ux * vx + uy * vy) * (ux * vx + uy * vy) - (ux * ux + uy * uy) * (vx * vx + vy * vy - r * r)
        > 0
}

/// The coefficients of the squared distance to the centre along a segment,
/// less the squared radius: at the fraction `k / UNIT` it is `(alpha * k^2
/// + 2 * beta * UNIT * k + gamma * UNIT^2) / UNIT^2`.
struct Quadratic {
    alpha: int,
    beta: int,
    gamma: int,
}

impl Quadratic {
    /// The value at `k`, scaled by `UNIT^2`.
    spec fn value(self, k: int) -> int {
        self.alpha * k * k + 2 * self.beta * UNIT * k + self.gamma * UNIT * UNIT
    }

    /// The value at `k + 1` less the value at `k`.
    spec fn slope(self, k: int) -> int {
        self.alpha * (2 * k + 1) + 2 * self.beta * UNIT
    }

    /// Half the slope of the curve at `k`, scaled by `UNIT`.
    spec fn lean(self, k: int) -> int {
        self.alpha * k + self.beta * UNIT
    }

    /// The discriminant.
    spec fn discriminant(self) -> int {
        self.beta * self.beta - self.alpha * self.gamma
    }

    /// From one point to the next the value grows by the slope.
    proof fn lemma_step(self, k: int)
        ensures
            self.value(k + 1) - self.value(k) == self.slope(k),
    {
        assert(self.alpha * (k + 1) * (k + 1) == self.alpha * k * k + self.alpha * (2 * k + 1))
            by (nonlinear_arith);
        assert(2 * self.beta * UNIT * (k + 1) == 2 * self.beta * UNIT * k + 2 * self.beta * UNIT)
            by (nonlinear_arith);
    }

    /// The slope never falls.
    proof fn lemma_slope_grows(self, j: int, k: int)
        requires
            0 <= self.alpha,
            j <= k,
        ensures
            self.slope(j) <= self.slope(k),
    {
        assert(self.alpha * (2 * j + 1) <= self.alpha * (2 * k + 1)) by (nonlinear_arith)
            requires
                0 <= self.alpha,
                j <= k,
        ;
    }

    /// Where the slope is not positive the value does not grow.
    proof fn lemma_descends(self, m: int, j: int, k: int)
        requires
            0 <= self.alpha,
            m <= 0 || self.slope(m - 1) <= 0,
            0 <= j <= k <= m,
        ensures
            self.value(j) >= self.value(k),
        decreases k - j,
    {
        if j < k {
            self.lemma_descends(m, j, k - 1);
            self.lemma_step(k - 1);
            self.lemma_slope_grows(k - 1, m - 1);
        }
    }

    /// Where the slope is positive the value grows.
    proof fn lemma_ascends(self, m: int, j: int, k: int)
        requires
            0 <= self.alpha,
            self.slope(m) > 0,
            m <= j <= k,
        ensures
            self.value(j) <= self.value(k),
        decreases k - j,
    {
        if j < k {
            self.lemma_ascends(m, j, k - 1);
            self.lemma_step(k - 1);
            self.lemma_slope_grows(m, k - 1);
        }
    }

    /// The value and the lean at a point give the discriminant.
    proof fn lemma_discriminant(self, k: int)
        ensures
            self.alpha * self.value(k) == self.lean(k) * self.lean(k) - (UNIT * UNIT)
                * self.discriminant(),
    {
        let a = self.alpha;
        let b = self.beta;
        let g = self.gamma;
        let u = UNIT as int;
        let p = a * k;
        let s = b * u;
        let akk = a * k * k;
        let buk = 2 * b * u * k;
        let guu = g * u * u;
        assert(self.value(k) == akk + buk + guu);
        assert(a * (akk + buk + guu) == a * akk + a * buk + a * guu) by (nonlinear_arith);
        assert(a * akk == p * p) by (nonlinear_arith)
            requires
                akk == a * k * k,
                p == a * k,
        ;
        assert(a * buk == 2 * (p * s)) by (nonlinear_arith)
            requires
                buk == 2 * b * u * k,
                p == a * k,
                s == b * u,
        ;
        assert((p + s) * (p + s) == p * p + 2 * (p * s) + s * s) by (nonlinear_arith);
        assert((u * u) * (b * b - a * g) == s * s - a * guu) by (nonlinear_arith)
            requires
                s == b * u,
                guu == g * u * u,
        ;
    }

    /// Where a point lies in the disk, the line crosses the circle, unless
    /// it touches the circle in that very point.
    proof fn lemma_crossing(self, k: int)
        requires
            0 < self.alpha,
            self.value(k) <= 0,
        ensures
            self.discriminant() >= 0,
            self.discriminant() > 0 <==> self.value(k) < 0 || self.lean(k) != 0,
    {
        self.lemma_discriminant(k);
        let d = self.discriminant();
        let w = self.lean(k);
        let v = self.value(k);
        let uu = UNIT * UNIT;
        assert(w * w >= 0) by (nonlinear_arith);
        assert(self.alpha * v <= 0) by (nonlinear_arith)
            requires
                0 < self.alpha,
                v <= 0,
        ;
        assert(uu * d >= 0);
        assert(d >= 0) by (nonlinear_arith)
            requires
                uu * d >= 0,
                uu > 0,
        ;
        if v < 0 {
            assert(self.alpha * v < 0) by (nonlinear_arith)
                requires
                    0 < self.alpha,
                    v < 0,
            ;
            assert(d != 0) by (nonlinear_arith)
                requires
                    uu * d > 0,
            ;
        } else if w != 0 {
            assert(w * w > 0) by (nonlinear_arith)
                requires
                    w != 0,
            ;
            assert(d != 0) by (nonlinear_arith)
                requires
                    uu * d > 0,
            ;
        } else {
            assert(w * w == 0) by (nonlinear_arith)
                requires
                    w == 0,
            ;
            assert(d == 0) by (nonlinear_arith)
                requires
                    uu * d == 0,
                    uu > 0,
            ;
        }
    }

    /// Two points in the disk are on a line that crosses the circle.
    proof fn lemma_two_points(self, j: int, k: int)
        requires
            0 < self.alpha,
            j < k,
            self.value(j) <= 0,
            self.value(k) <= 0,
        ensures
            self.discriminant() > 0,
    {
        self.lemma_crossing(j);
        self.lemma_crossing(k);
        if self.discriminant() == 0 {
            assert(self.alpha * k - self.alpha * j == 0);
            assert(self.alpha * (k - j) == self.alpha * k - self.alpha * j) by (nonlinear_arith);
            assert(self.alpha * (k - j) > 0) by (nonlinear_arith)
                requires
                    0 < self.alpha,
                    j < k,
            ;
        }
    }
}

/// A segment as `intersect` sees it: the step `u` from its start to its end,
/// and the step `v` from the centre of the disk to its start.
struct Segment {
    ux: i128,
    uy: i128,
    vx: i128,
    vy: i128,
}

/// The absolute value.
spec fn size(x: int) -> int {
    if x < 0 {
        -x
    } else {
        x
    }
}

/// The square of a number is the square of its size.
proof fn lemma_size_square(x: int)
    ensures
        size(x) * size(x) == x * x,
{
    assert((-x) * (-x) == x * x) by (nonlinear_arith);
}

/// The product of two numbers: the product of their sizes, with a minus
/// sign if one of the two is negative.
proof fn lemma_signed_product(x: int, y: int)
    ensures
        x * y == if (x < 0) != (y < 0) {
            -(size(x) * size(y))
        } else {
            size(x) * size(y)
        },
{
    assert((-x) * (-y) == x * y) by (nonlinear_arith);
    assert((-x) * y == -(x * y)) by (nonlinear_arith);
    assert(x * (-y) == -(x * y)) by (nonlinear_arith);
}

/// The size of a number whose size is below 2^95.
fn magnitude(x: i128) -> (m: u128)
    requires
        -0x8000_0000_0000_0000_0000_0000 < x < 0x8000_0000_0000_0000_0000_0000,
    ensures
        m == size(x as int),
        m < LIMB,
{
    if x < 0 {
        (-x) as u128
    } else {
        x as u128
    }
}

impl Segment {
    /// The steps are differences of coordinates.
    spec fn bounded(self) -> bool {
        &&& -0x1_0000_0000_0000_0000 < self.ux < 0x1_0000_0000_0000_0000
        &&& -0x1_0000_0000_0000_0000 < self.uy < 0x1_0000_0000_0000_0000
        &&& -0x1_0000_0000_0000_0000 < self.vx < 0x1_0000_0000_0000_0000
        &&& -0x1_0000_0000_0000_0000 < self.vy < 0x1_0000_0000_0000_0000
    }

    /// The first coordinate of the point at `k`, from the centre and scaled
    /// by `UNIT`.
    spec fn x_at(self, k: int) -> int {
        UNIT * self.vx + k * self.ux
    }

    /// The second coordinate of the point at `k`, from the centre and
    /// scaled by `UNIT`.
    spec fn y_at(self, k: int) -> int {
        UNIT * self.vy + k * self.uy
    }

    /// The squared distance of the point at `k` from the centre, scaled by
    /// `UNIT^2`.
    spec fn distance2(self, k: int) -> int {
        self.x_at(k) * self.x_at(k) + self.y_at(k) * self.y_at(k)
    }

    /// The quadratic of the segment and a disk of radius `r`.
    spec fn quadratic(self, r: int) -> Quadratic {
        Quadratic {
            alpha: self.ux * self.ux + self.uy * self.uy,
            beta: self.ux * self.vx + self.uy * self.vy,
            gamma: self.vx * self.vx + self.vy * self.vy - r * r,
        }
    }

    /// The squared distance is the quadratic plus the squared radius.
    proof fn lemma_quadratic(self, r: int, k: int)
        ensures
            self.distance2(k) == self.quadratic(r).value(k) + (UNIT * r) * (UNIT * r),
            self.ux * self.x_at(k) + self.uy * self.y_at(k) == self.quadratic(r).lean(k),
    {
        lemma_expand(self.ux as int, self.uy as int, self.vx as int, self.vy as int, r, k);
        let ux = self.ux as int;
        let uy = self.uy as int;
        let vx = self.vx as int;
        let vy = self.vy as int;
        let u = UNIT as int;
        assert(ux * (u * vx + k * ux) == u * (ux * vx) + k * (ux * ux)) by (nonlinear_arith);
        assert(uy * (u * vy + k * uy) == u * (uy * vy) + k * (uy * uy)) by (nonlinear_arith);
        assert((ux * ux + uy * uy) * k == k * (ux * ux) + k * (uy * uy)) by (nonlinear_arith);
        assert((ux * vx + uy * vy) * u == u * (ux * vx) + u * (uy * vy)) by (nonlinear_arith);
    }

    /// One coordinate of the point at `k`.
    fn along(v: i128, u: i128, k: u64) -> (x: i128)
        requires
            -0x1_0000_0000_0000_0000 < v < 0x1_0000_0000_0000_0000,
            -0x1_0000_0000_0000_0000 < u < 0x1_0000_0000_0000_0000,
            k <= UNIT,
        ensures
            x == UNIT * v + k * u,
            -0x8000_0000_0000_0000_0000_0000 < x < 0x8000_0000_0000_0000_0000_0000,
    {
        proof {
            assert(-0x4000_0000_0000_0000_0000_0000 <= k * u <= 0x4000_0000_0000_0000_0000_0000)
                by (nonlinear_arith)
                requires
                    0 <= k <= 0x4000_0000,
                    -0x1_0000_0000_0000_0000 < u < 0x1_0000_0000_0000_0000,
            ;
        }
        (UNIT as i128) * v + (k as i128) * u
    }

    /// The squared distance of the point at `k` from the centre.
    fn reach(&self, k: u64) -> (w: Wide)
        requires
            self.bounded(),
            k <= UNIT,
        ensures
            w.wf(),
            w.value() == self.distance2(k as int),
    {
        let x: u128 = magnitude(Segment::along(self.vx, self.ux, k));
        let y: u128 = magnitude(Segment::along(self.vy, self.uy, k));
        proof {
            lemma_size_square(self.x_at(k as int));
            lemma_size_square(self.y_at(k as int));
        }
        Wide::product(x, x).sum(&Wide::product(y, y))
    }

    /// Whether the point after `k` is farther from the centre than the
    /// point at `k`.
    fn rises(&self, k: u64) -> (r: bool)
        requires
            self.bounded(),
            k < UNIT,
        ensures
            r == (self.distance2(k + 1) > self.distance2(k as int)),
    {
        !self.reach(k + 1).le(&self.reach(k))
    }

    /// Whether the step of the segment is at right angles to the way from
    /// the centre to the point at `k`.
    fn at_right_angles(&self, k: u64) -> (r: bool)
        requires
            self.bounded(),
            k <= UNIT,
        ensures
            r == (self.ux * self.x_at(k as int) + self.uy * self.y_at(k as int) == 0),
    {
        let x: i128 = Segment::along(self.vx, self.ux, k);
        let y: i128 = Segment::along(self.vy, self.uy, k);
        let first = Wide::product(magnitude(self.ux), magnitude(x));
        let second = Wide::product(magnitude(self.uy), magnitude(y));
        let first_down: bool = (self.ux < 0) != (x < 0);
        let second_down: bool = (self.uy < 0) != (y < 0);
        proof {
            lemma_signed_product(self.ux as int, x as int);
            lemma_signed_product(self.uy as int, y as int);
            first.lemma_value();
            second.lemma_value();
        }
        if first.is_zero() {
            second.is_zero()
        } else {
            first_down != second_down && first.same(&second)
        }
    }
}

/// `s` is the section of the segment from `a` to `b` that lies in the disk
/// of radius `r` around `c`: if the line through `a` and `b` crosses the
/// circle and some point `k / UNIT` of the segment lies in the disk, the
/// section reaches from the first to the last such point; else it is the
/// empty section at the start of the segment.
pub open spec fn is_section_in_disk(
    a: TuplePoint,
    b: TuplePoint,
    c: TuplePoint,
    r: u64,
    s: SegmentSection,
) -> bool {
    if crosses(a, b, c, r) && exists|k: int| 0 <= k <= UNIT && #[trigger] lies_in_disk(a, b, c, r, k) {
        &&& 0 <= s.start() <= s.end() <= UNIT
        &&& forall|k: int|
            0 <= k <= UNIT ==> (#[trigger] lies_in_disk(a, b, c, r, k) <==> s.start() <= k
                <= s.end())
    } else {
        s.start() == 0 && s.end() == 0
    }
}

/// Intersect a line segment defined by points `a` and `b` with a circle
/// with center `center` and radius `r`.
pub fn intersect<P: Point>(a: &P, b: &P, center: &P, r: u64) -> (s: SegmentSection)
    ensures
        is_section_in_disk(
            (a.x_spec(), a.y_spec()),
            (b.x_spec(), b.y_spec()),
            (center.x_spec(), center.y_spec()),
            r,
            s,
        ),
{
    let ghost pa = (a.x_spec(), a.y_spec());
    let ghost pb = (b.x_spec(), b.y_spec());
    let ghost pc = (center.x_spec(), center.y_spec());
    let seg = Segment {
        ux: b.x() as i128 - a.x() as i128,
        uy: b.y() as i128 - a.y() as i128,
        vx: a.x() as i128 - center.x() as i128,
        vy: a.y() as i128 - center.y() as i128,
    };
    let ghost q = seg.quadratic(r as int);
    proof {
        assert(crosses(pa, pb, pc, r) == (q.discriminant() > 0));
        assert forall|k: int| lies_in_disk(pa, pb, pc, r, k) <==> q.value(k) <= 0 by {
            seg.lemma_quadratic(r as int, k);
        }
    }
    if seg.ux == 0 && seg.uy == 0 {
        proof {
            assert(q.alpha == 0 && q.beta == 0) by (nonlinear_arith)
                requires
                    seg.ux == 0,
                    seg.uy == 0,
                    q.alpha == seg.ux * seg.ux + seg.uy * seg.uy,
                    q.beta == seg.ux * seg.vx + seg.uy * seg.vy,
            ;
            assert(q.discriminant() == 0) by (nonlinear_arith)
                requires
                    q.alpha == 0,
                    q.beta == 0,
                    q.discriminant() == q.beta * q.beta - q.alpha * q.gamma,
            ;
        }
        return SegmentSection::empty();
    }
    proof {
        assert(q.alpha > 0) by (nonlinear_arith)
            requires
                seg.ux != 0 || seg.uy != 0,
                q.alpha == seg.ux * seg.ux + seg.uy * seg.uy,
        ;
    }
    let radius: u128 = (UNIT as u128) * (r as u128);
    let bound = Wide::product(radius, radius);
    // the point of the segment nearest to the centre
    let mut low: u64 = 0;
    let mut high: u64 = UNIT;
    while low < high
        invariant
            seg.bounded(),
            q == seg.quadratic(r as int),
            q.alpha > 0,
            0 <= low <= high <= UNIT,
            low == 0 || q.slope(low - 1) <= 0,
            high == UNIT || q.slope(high as int) > 0,
        decreases high - low,
    {
        let mid: u64 = low + (high - low) / 2;
        proof {
            seg.lemma_quadratic(r as int, mid as int);
            seg.lemma_quadratic(r as int, mid + 1);
            q.lemma_step(mid as int);
        }
        if seg.rises(mid) {
            high = mid;
        } else {
            low = mid + 1;
        }
    }
    let nearest: u64 = low;
    proof {
        assert forall|k: int| 0 <= k <= UNIT implies q.value(nearest as int) <= q.value(k) by {
            if k <= nearest {
                q.lemma_descends(nearest as int, k, nearest as int);
            } else {
                q.lemma_ascends(nearest as int, nearest as int, k);
            }
        }
        seg.lemma_quadratic(r as int, nearest as int);
    }
    if !seg.reach(nearest).le(&bound) {
        return SegmentSection::empty();
    }
    // the first point in the disk
    let mut low: u64 = 0;
    let mut high: u64 = nearest;
    while low < high
        invariant
            seg.bounded(),
            bound.wf(),
            bound.value() == (UNIT * r) * (UNIT * r),
            q == seg.quadratic(r as int),
            q.alpha > 0,
            0 <= low <= high <= nearest <= UNIT,
            nearest == 0 || q.slope(nearest - 1) <= 0,
            q.value(high as int) <= 0,
            forall|k: int| 0 <= k < low ==> q.value(k) > 0,
        decreases high - low,
    {
        let mid: u64 = low + (high - low) / 2;
        proof {
            seg.lemma_quadratic(r as int, mid as int);
        }
        if seg.reach(mid).le(&bound) {
            high = mid;
        } else {
            proof {
                assert forall|k: int| 0 <= k < mid + 1 implies q.value(k) > 0 by {
                    q.lemma_descends(nearest as int, k, mid as int);
                }
            }
            low = mid + 1;
        }
    }
    let start: u64 = low;
    // the last point in the disk
    let mut low: u64 = nearest;
    let mut high: u64 = UNIT;
    while low < high
        invariant
            seg.bounded(),
            bound.wf(),
            bound.value() == (UNIT * r) * (UNIT * r),
            q == seg.quadratic(r as int),
            q.alpha > 0,
            0 <= nearest <= low <= high <= UNIT,
            nearest == UNIT || q.slope(nearest as int) > 0,
            q.value(low as int) <= 0,
            forall|k: int| high < k <= UNIT ==> q.value(k) > 0,
        decreases high - low,
    {
        let mid: u64 = low + (high - low + 1) / 2;
        proof {
            seg.lemma_quadratic(r as int, mid as int);
        }
        if seg.reach(mid).le(&bound) {
            low = mid;
        } else {
            proof {
                assert forall|k: int| mid <= k <= UNIT implies q.value(k) > 0 by {
                    q.lemma_ascends(nearest as int, mid as int, k);
                }
            }
            high = mid - 1;
        }
    }
    let end: u64 = low;
    proof {
        assert forall|k: int| 0 <= k <= UNIT implies (q.value(k) <= 0 <==> start <= k <= end) by {
            if start <= k <= nearest {
                q.lemma_descends(nearest as int, start as int, k);
            }
            if nearest <= k <= end && nearest < UNIT {
                q.lemma_ascends(nearest as int, k, end as int);
            }
        }
        assert(lies_in_disk(pa, pb, pc, r, nearest as int));
        seg.lemma_quadratic(r as int, start as int);
        q.lemma_crossing(start as int);
        if start < end {
            q.lemma_two_points(start as int, end as int);
        }
    }
    // a line that touches the circle in the one point found does not cross it
    if start == end && seg.reach(start).le(&bound) && bound.le(&seg.reach(start))
        && seg.at_right_angles(start) {
        return SegmentSection::empty();
    }
    SegmentSection { start, end }
}

/// The square of a sum of two products.
proof fn lemma_square_of_sum(a: int, x: int, k: int, y: int)
    ensures
        (a * x + k * y) * (a * x + k * y) == a * a * (x * x) + 2 * a * k * (y * x) + k * k * (y
            * y),
{
    let p = a * x;
    let q = k * y;
    assert((p + q) * (p + q) == p * p + 2 * (p * q) + q * q) by (nonlinear_arith);
    assert(p * p == a * a * (x * x)) by (nonlinear_arith)
        requires
            p == a * x,
    ;
    assert(q * q == k * k * (y * y)) by (nonlinear_arith)
        requires
            q == k * y,
    ;
    let yx = y * x;
    assert(p * q == a * k * yx) by (nonlinear_arith)
        requires
            p == a * x,
            q == k * y,
            yx == y * x,
    ;
    assert(2 * a * k * yx == 2 * (a * k * yx)) by (nonlinear_arith);
    assert((a * x + k * y) * (a * x + k * y) == (p + q) * (p + q));
}

/// The squared distance along the segment, written out.
proof fn lemma_expand(ux: int, uy: int, vx: int, vy: int, r: int, k: int)
    ensures
        (UNIT * vx + k * ux) * (UNIT * vx + k * ux) + (UNIT * vy + k * uy) * (UNIT * vy + k * uy)
            - (UNIT * r) * (UNIT * r) == (ux * ux + uy * uy) * k * k + 2 * (ux * vx + uy * vy)
            * UNIT * k + (vx * vx + vy * vy - r * r) * UNIT * UNIT,
{
    let unit: int = UNIT as int;
    lemma_square_of_sum(unit, vx, k, ux);
    lemma_square_of_sum(unit, vy, k, uy);
    let uu = unit * unit;
    let kk = k * k;
    let uk = unit * k;
    let xx = ux * ux;
    let yy = uy * uy;
    let xv = ux * vx;
    let yv = uy * vy;
    let vv = vx * vx;
    let ww = vy * vy;
    let rr = r * r;
    assert((unit * r) * (unit * r) == uu * rr) by (nonlinear_arith)
        requires
            uu == unit * unit,
            rr == r * r,
    ;
    assert((xx + yy) * k * k == kk * xx + kk * yy) by (nonlinear_arith)
        requires
            kk == k * k,
    ;
    assert(2 * (xv + yv) * unit * k == 2 * uk * xv + 2 * uk * yv) by (nonlinear_arith)
        requires
            uk == unit * k,
    ;
    assert((vv + ww - rr) * unit * unit == uu * vv + uu * ww - uu * rr) by (nonlinear_arith)
        requires
            uu == unit * unit,
    ;
    assert(2 * unit * k * xv == 2 * uk * xv) by (nonlinear_arith)
        requires
            uk == unit * k,
    ;
    assert(2 * unit * k * yv == 2 * uk * yv) by (nonlinear_arith)
        requires
            uk == unit * k,
    ;
}

/// A closed section of a segment, from the fraction `start / UNIT` of its
/// length to the fraction `end / UNIT`.
#[derive(Debug, Clone, Copy, PartialEq, Eq, PartialOrd, Ord)]
pub struct SegmentSection {
    start: u64,
    end: u64,
}

/// The smaller of two numbers.
pub open spec fn min(a: int, b: int) -> int {
    if a <= b {
        a
    } else {
        b
    }
}

/// The larger of two numbers.
pub open spec fn max(a: int, b: int) -> int {
    if a >= b {
        a
    } else {
        b
    }
}

/// A position along the segment, brought into the range from `0` to `UNIT`.
pub open spec fn normalized(value: int) -> int {
    if value < 0 {
        0
    } else if value > UNIT {
        UNIT as int
    } else {
        value
    }
}

impl SegmentSection {
    /// A section starts before it ends and ends on the segment.
    #[verifier::type_invariant]
    pub closed spec fn wf(self) -> bool {
        self.start <= self.end <= UNIT
    }

    /// Where the section starts.
    pub closed spec fn start(self) -> int {
        self.start as int
    }

    /// Where the section ends.
    pub closed spec fn end(self) -> int {
        self.end as int
    }

    /// The length of the section.
    pub open spec fn span(self) -> int {
        self.end() - self.start()
    }

    /// Whether two sections share a point.
    pub open spec fn overlaps(self, other: SegmentSection) -> bool {
        max(self.start(), other.start()) <= min(self.end(), other.end())
    }

    /// The section that encloses both sections.
    pub closed spec fn merged(self, other: SegmentSection) -> SegmentSection {
        SegmentSection {
            start: if self.start < other.start {
                self.start
            } else {
                other.start
            },
            end: if self.end > other.end {
                self.end
            } else {
                other.end
            },
        }
    }

    /// What the bounds of a section say.
    pub proof fn lemma_bounds(self)
        requires
            self.wf(),
        ensures
            0 <= self.start() <= self.end() <= UNIT,
    {
    }

    /// The merge of two sections starts where the first of them starts and
    /// ends where the last of them ends.
    pub proof fn lemma_merged(self, other: SegmentSection)
        requires
            self.wf(),
            other.wf(),
        ensures
            self.merged(other).wf(),
            self.merged(other).start() == min(self.start(), other.start()),
            self.merged(other).end() == max(self.end(), other.end()),
    {
    }

    /// Merging does not depend on the order of the two sections, and the
    /// merge is at least as long as either of them.
    pub proof fn lemma_merge_laws(self, other: SegmentSection)
        requires
            self.wf(),
            other.wf(),
        ensures
            self.merged(other) == other.merged(self),
            self.merged(other).span() >= self.span(),
            self.merged(other).span() >= other.span(),
    {
    }

    /// The section that holds the start of the segment only.
    pub fn empty() -> (s: SegmentSection)
        ensures
            s.start() == 0,
            s.end() == 0,
    {
        SegmentSection { start: 0, end: 0 }
    }

    /// The section between two positions, each brought onto the segment.
    pub fn new(first: i64, second: i64) -> (s: SegmentSection)
        ensures
            s.start() == normalized(min(first as int, second as int)),
            s.end() == normalized(max(first as int, second as int)),
    {
        let low: i64 = if first <= second {
            first
        } else {
            second
        };
        let high: i64 = if first >= second {
            first
        } else {
            second
        };
        let start = SegmentSection::normalize(low);
        let end = SegmentSection::normalize(high);
        SegmentSection { start, end }
    }

    /// The position brought onto the segment.
    fn normalize(value: i64) -> (r: u64)
        ensures
            r == normalized(value as int),
    {
        if value < 0 {
            0
        } else if value > UNIT as i64 {
            UNIT
        } else {
            value as u64
        }
    }

    /// Whether the section has no length.
    pub fn is_empty(&self) -> (r: bool)
        ensures
            r == (self.span() <= 0),
    {
        proof {
            use_type_invariant(self);
        }
        self.length() == 0
    }

    /// Whether the section is the whole segment.
    pub fn is_full(&self) -> (r: bool)
        ensures
            r == (self.span() >= UNIT),
    {
        self.length() >= UNIT
    }

    /// Whether the two sections share a point.
    pub fn is_overlapping(&self, other: &Self) -> (r: bool)
        ensures
            r == self.overlaps(*other),
    {
        proof {
            use_type_invariant(self);
            use_type_invariant(other);
        }
        if self.start < other.start {
            self.end >= other.start
        } else {
            other.end >= self.start
        }
    }

    /// The section that encloses both sections.
    pub fn merge(&self, other: &Self) -> (s: SegmentSection)
        ensures
            s == self.merged(*other),
            s.start() == min(self.start(), other.start()),
            s.end() == max(self.end(), other.end()),
    {
        proof {
            use_type_invariant(self);
            use_type_invariant(other);
        }
        let start = if self.start < other.start {
            self.start
        } else {
            other.start
        };
        let end = if self.end > other.end {
            self.end
        } else {
            other.end
        };
        SegmentSection { start, end }
    }

    /// The length of the section, in units of `1 / UNIT`.
    pub fn length(&self) -> (r: u64)
        ensures
            r == self.span(),
            r <= UNIT,
    {
        proof {
            use_type_invariant(self);
        }
        self.end - self.start
    }

    /// The start of the section, in units of `1 / UNIT`.
    pub fn start_point(&self) -> (r: u64)
        ensures
            r == self.start(),
    {
        self.start
    }

    /// The end of the section, in units of `1 / UNIT`.
    pub fn end_point(&self) -> (r: u64)
        ensures
            r == self.end(),
    {
        self.end
    }
}

} // verus!
