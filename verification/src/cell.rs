//! Coordinates, bounding boxes and grid-cell keys, with the floor and ceiling
//! divisions that map a coordinate to the cell containing it.

use vstd::prelude::*;
use vstd::arithmetic::div_mod::{lemma_fundamental_div_mod, lemma_fundamental_div_mod_converse};

verus! {

/// A position in fixed-point subunits.
#[derive(Clone, Copy, PartialEq, Eq, Structural, Debug)]
pub struct Point {
    pub x: i64,
    pub y: i64,
}

/// An axis-aligned bounding box given by its lower and upper corners.
#[derive(Clone, Copy, PartialEq, Eq, Structural, Debug)]
pub struct Aabb {
    pub min: Point,
    pub max: Point,
}

/// The integer coordinates of one grid cell.
#[derive(Clone, Copy, PartialEq, Eq, Structural, Debug)]
pub struct CellKey {
    pub x: i64,
    pub y: i64,
}

impl Aabb {
    /// A box is well formed when its corners are ordered on both axes.
    /// The lower corner must exceed `i64::MIN` so that the ceiling division
    /// of the upper corner stays within the machine range.
    pub open spec fn wf(self) -> bool {
        &&& self.min.x <= self.max.x
        &&& self.min.y <= self.max.y
        &&& i64::MIN < self.min.x
        &&& i64::MIN < self.min.y
    }
}

/// A tile size is valid when it is positive and fits the signed machine word.
pub open spec fn valid_tile(t: int) -> bool {
    1 <= t <= i64::MAX
}

/// Mathematical floor division: for `t > 0` the Euclidean quotient is the
/// floor of the rational quotient.
pub open spec fn floor_div(a: int, t: int) -> int {
    a / t
}

/// Mathematical ceiling division, as the negated floor of the negation.
pub open spec fn ceil_div(a: int, t: int) -> int {
    -((-a) / t)
}

/// The key of the cell containing a point: floor division on both axes.
pub open spec fn point_key(p: Point, t: int) -> CellKey {
    CellKey { x: floor_div(p.x as int, t) as i64, y: floor_div(p.y as int, t) as i64 }
}

/// Floor division keeps its result between the argument and zero.
pub proof fn lemma_floor_div_bounds(a: int, t: int)
    requires
        1 <= t,
    ensures
        a >= 0 ==> 0 <= floor_div(a, t) <= a,
        a < 0 ==> a <= floor_div(a, t) <= 0,
{
    lemma_fundamental_div_mod(a, t);
    let q = a / t;
    let r = a % t;
    assert(0 <= r < t);
    if a >= 0 {
        if q < 0 {
            assert(t * q <= q) by (nonlinear_arith)
                requires t >= 1 && q < 0;
            assert(false);
        }
        if q > a {
            assert(t * q >= q) by (nonlinear_arith)
                requires t >= 1 && q > 0;
            assert(false);
        }
    } else {
        if q > 0 {
            assert(t * q >= q) by (nonlinear_arith)
                requires t >= 1 && q > 0;
            assert(false);
        }
        if q < a {
            // q + 1 <= a < 0, so t * (q + 1) <= q + 1 and the remainder
            // a - t * q = a - t * (q + 1) + t would reach t.
            assert(t * (q + 1) <= q + 1) by (nonlinear_arith)
                requires t >= 1 && q + 1 <= 0;
            assert(t * q == t * (q + 1) - t) by (nonlinear_arith);
            assert(false);
        }
    }
}

/// Ceiling division keeps its result between zero and the argument.
pub proof fn lemma_ceil_div_bounds(a: int, t: int)
    requires
        1 <= t,
    ensures
        a >= 0 ==> 0 <= ceil_div(a, t) <= a,
        a < 0 ==> a <= ceil_div(a, t) <= 0,
{
    lemma_floor_div_bounds(-a, t);
}

/// Floor division is monotone in its dividend.
pub proof fn lemma_floor_div_mono(a: int, b: int, t: int)
    requires
        1 <= t,
        a <= b,
    ensures
        floor_div(a, t) <= floor_div(b, t),
{
    vstd::arithmetic::div_mod::lemma_div_is_ordered(a, b, t);
}

/// The floor of a quotient never exceeds its ceiling.
pub proof fn lemma_floor_le_ceil(a: int, b: int, t: int)
    requires
        1 <= t,
        a <= b,
    ensures
        floor_div(a, t) <= ceil_div(b, t),
{
    lemma_fundamental_div_mod(b, t);
    lemma_fundamental_div_mod(-b, t);
    let q = b / t;
    let r = b % t;
    let qn = (-b) / t;
    let rn = (-b) % t;
    assert(0 <= r < t && 0 <= rn < t);
    // b = q t + r and -b = qn t + rn give 0 = (q + qn) t + (r + rn),
    // so q + qn is 0 or -1 and the ceiling is q or q + 1.
    assert(t * q + t * qn == t * (q + qn)) by (nonlinear_arith);
    assert((q + qn) * t == -(r + rn));
    if q + qn <= -2 {
        assert((q + qn) * t <= -2 * t) by (nonlinear_arith)
            requires t >= 1 && q + qn <= -2;
        assert(false);
    }
    if q + qn >= 1 {
        assert((q + qn) * t >= t) by (nonlinear_arith)
            requires t >= 1 && q + qn >= 1;
        assert(false);
    }
    lemma_floor_div_mono(a, b, t);
}

/// When the tile does not divide the coordinate, the ceiling is one above the
/// floor; when it does, the two agree.
pub proof fn lemma_floor_ceil_gap(a: int, t: int)
    requires
        1 <= t,
    ensures
        a % t == 0 ==> ceil_div(a, t) == floor_div(a, t),
        a % t != 0 ==> ceil_div(a, t) == floor_div(a, t) + 1,
{
    lemma_fundamental_div_mod(a, t);
    let q = a / t;
    let r = a % t;
    assert(0 <= r < t);
    if r == 0 {
        assert(-a == (-q) * t + 0) by (nonlinear_arith)
            requires a == t * q;
        lemma_fundamental_div_mod_converse(-a, t, -q, 0);
    } else {
        assert(-a == (-q - 1) * t + (t - r)) by (nonlinear_arith)
            requires a == t * q + r;
        lemma_fundamental_div_mod_converse(-a, t, -q - 1, t - r);
    }
}

/// Exact floor division on machine integers.
pub fn floor_div_i64(a: i64, t: i64) -> (q: i64)
    requires
        1 <= t,
    ensures
        q == floor_div(a as int, t as int),
{
    proof {
        lemma_floor_div_bounds(a as int, t as int);
    }
    if a >= 0 {
        let q = a / t;
        proof {
            lemma_fundamental_div_mod(a as int, t as int);
        }
        q
    } else {
        let m = -(a + 1);
        let qm = m / t;
        proof {
            lemma_fundamental_div_mod(m as int, t as int);
            let rm = (m as int) % (t as int);
            assert(a as int == (-1 - qm) * (t as int) + ((t as int) - 1 - rm)) by (nonlinear_arith)
                requires m as int == (t as int) * (qm as int) + rm && a as int == -1 - (m as int);
            lemma_fundamental_div_mod_converse(a as int, t as int, -1 - qm, t - 1 - rm);
            lemma_floor_div_bounds(m as int, t as int);
        }
        -1 - qm
    }
}

/// Exact ceiling division on machine integers.
pub fn ceil_div_i64(a: i64, t: i64) -> (q: i64)
    requires
        1 <= t,
        i64::MIN < a,
    ensures
        q == ceil_div(a as int, t as int),
{
    if a >= 1 {
        let f = floor_div_i64(a - 1, t);
        proof {
            lemma_floor_div_bounds(a - 1, t as int);
            lemma_fundamental_div_mod((a - 1) as int, t as int);
            let q1 = (a - 1) as int / (t as int);
            let r1 = (a - 1) as int % (t as int);
            assert(-a as int == (-q1 - 1) * (t as int) + ((t as int) - 1 - r1)) by (nonlinear_arith)
                requires (a - 1) as int == (t as int) * q1 + r1;
            lemma_fundamental_div_mod_converse(-a as int, t as int, -q1 - 1, t - 1 - r1);
        }
        f + 1
    } else {
        let n = -a;
        let q = n / t;
        proof {
            lemma_fundamental_div_mod(n as int, t as int);
            lemma_floor_div_bounds(n as int, t as int);
        }
        -q
    }
}

} // verus!
