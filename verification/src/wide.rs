//! Numbers of up to 216 bits: what squares of scaled coordinates need.

use vstd::prelude::*;

verus! {

/// Two to the power 48.
pub const HALF: u128 = 0x1_0000_0000_0000;

/// Two to the power 96.
pub const LIMB: u128 = 0x1_0000_0000_0000_0000_0000_0000;

/// A number `high * LIMB + low`.
#[derive(Clone, Copy, Debug)]
pub struct Wide {
    high: u128,
    low: u128,
}

/// A product is bounded by the product of the bounds.
pub proof fn lemma_product_bound(x: int, y: int, bx: int, by: int)
    requires
        0 <= x <= bx,
        0 <= y <= by,
    ensures
        0 <= x * y <= bx * by,
{
    assert(0 <= x * y <= bx * by) by (nonlinear_arith)
        requires
            0 <= x <= bx,
            0 <= y <= by,
    ;
}

/// The product of two numbers, each written as a high and a low half.
proof fn lemma_halves(xh: int, xl: int, yh: int, yl: int, h: int)
    ensures
        (xh * h + xl) * (yh * h + yl) == (xh * yh) * (h * h) + (xh * yl + xl * yh) * h + xl * yl,
{
    let a = xh * h;
    let b = yh * h;
    assert((a + xl) * (b + yl) == a * b + a * yl + xl * b + xl * yl) by (nonlinear_arith);
    assert(a * b == (xh * yh) * (h * h)) by (nonlinear_arith)
        requires
            a == xh * h,
            b == yh * h,
    ;
    assert(a * yl == (xh * yl) * h) by (nonlinear_arith)
        requires
            a == xh * h,
    ;
    assert(xl * b == (xl * yh) * h) by (nonlinear_arith)
        requires
            b == yh * h,
    ;
    assert((xh * yl + xl * yh) * h == (xh * yl) * h + (xl * yh) * h) by (nonlinear_arith);
}

impl Wide {
    /// The number.
    pub closed spec fn value(self) -> int {
        self.high * LIMB + self.low
    }

    /// The low part is below `LIMB`, and the high part leaves room for a
    /// sum.
    pub closed spec fn wf(self) -> bool {
        self.low < LIMB && self.high < 0x1_0000_0000_0000_0000_0000_0000_0000
    }

    /// A well-formed number is not negative.
    pub proof fn lemma_value(self)
        requires
            self.wf(),
        ensures
            0 <= self.value(),
    {
    }

    /// The product of two numbers below `LIMB`.
    pub fn product(x: u128, y: u128) -> (w: Wide)
        requires
            x < LIMB,
            y < LIMB,
        ensures
            w.wf(),
            w.value() == x * y,
            w.value() < LIMB * LIMB,
    {
        let xh: u128 = x / HALF;
        let xl: u128 = x % HALF;
        let yh: u128 = y / HALF;
        let yl: u128 = y % HALF;
        proof {
            lemma_product_bound(xh as int, yh as int, HALF - 1, HALF - 1);
            lemma_product_bound(xh as int, yl as int, HALF - 1, HALF - 1);
            lemma_product_bound(xl as int, yh as int, HALF - 1, HALF - 1);
            lemma_product_bound(xl as int, yl as int, HALF - 1, HALF - 1);
            lemma_halves(xh as int, xl as int, yh as int, yl as int, HALF as int);
            lemma_product_bound(x as int, y as int, LIMB - 1, LIMB - 1);
        }
        let hh: u128 = xh * yh;
        let mid: u128 = xh * yl + xl * yh;
        let ll: u128 = xl * yl;
        let mq: u128 = mid / HALF;
        let mr: u128 = mid % HALF;
        let t: u128 = mr * HALF + ll;
        let carry: u128 = t / LIMB;
        let low: u128 = t % LIMB;
        let w = Wide { high: hh + mq + carry, low };
        proof {
            assert(HALF * HALF == LIMB);
            assert(x == xh * HALF + xl);
            assert(y == yh * HALF + yl);
            assert(x * y == hh * (HALF * HALF) + mid * HALF + ll);
            assert(hh * (HALF * HALF) == hh * LIMB) by (nonlinear_arith)
                requires
                    HALF * HALF == LIMB,
            ;
            assert(mid == mq * HALF + mr);
            assert(mid * HALF == mq * LIMB + mr * HALF) by (nonlinear_arith)
                requires
                    mid == mq * HALF + mr,
                    HALF * HALF == LIMB,
            ;
            assert(t == carry * LIMB + low);
            assert(w.high * LIMB == hh * LIMB + mq * LIMB + carry * LIMB) by (nonlinear_arith)
                requires
                    w.high == hh + mq + carry,
            ;
        }
        w
    }

    /// The sum of two numbers.
    pub fn sum(&self, other: &Wide) -> (w: Wide)
        requires
            self.wf(),
            other.wf(),
            self.value() < LIMB * LIMB,
            other.value() < LIMB * LIMB,
        ensures
            w.wf(),
            w.value() == self.value() + other.value(),
    {
        proof {
            assert(self.high < LIMB) by (nonlinear_arith)
                requires
                    self.high * LIMB + self.low < LIMB * LIMB,
                    self.low >= 0,
                    LIMB > 0,
            ;
            assert(other.high < LIMB) by (nonlinear_arith)
                requires
                    other.high * LIMB + other.low < LIMB * LIMB,
                    other.low >= 0,
                    LIMB > 0,
            ;
        }
        let t: u128 = self.low + other.low;
        let carry: u128 = t / LIMB;
        let low: u128 = t % LIMB;
        Wide { high: self.high + other.high + carry, low }
    }

    /// Whether this number is no greater than the other.
    pub fn le(&self, other: &Wide) -> (r: bool)
        requires
            self.wf(),
            other.wf(),
        ensures
            r == (self.value() <= other.value()),
    {
        self.high < other.high || (self.high == other.high && self.low <= other.low)
    }

    /// Whether the two numbers are the same.
    pub fn same(&self, other: &Wide) -> (r: bool)
        requires
            self.wf(),
            other.wf(),
        ensures
            r == (self.value() == other.value()),
    {
        self.high == other.high && self.low == other.low
    }

    /// Whether the number is zero.
    pub fn is_zero(&self) -> (r: bool)
        requires
            self.wf(),
        ensures
            r == (self.value() == 0),
    {
        self.high == 0 && self.low == 0
    }
}

} // verus!
