//! Points and vectors in three dimensions, over fixed-point scalars.

use crate::scalar::{
    div_trunc, isqrt, isqrt_ceil, lemma_mul_within, lemma_sqrt_floor, sqrt_ceil,
    sqrt_floor, trunc_div, within, COORD_MAX, ONE,
};
use vstd::prelude::*;

verus! {

/// Largest magnitude of a component of a vector between two points.
pub const EDGE_MAX: i64 = 2199023255552;

/// Largest magnitude of a component that `normalize` accepts.
pub const WIDE_MAX: i128 = 19342813113834066795298816;

/// Components above this magnitude are scaled down by `NORMALIZE_SHIFT`
/// before their squares are summed.
pub const NORMALIZE_SMALL: i128 = 1152921504606846976;

/// What `normalize` divides large inputs by.
pub const NORMALIZE_SHIFT: i128 = 16777216;

/// Vectors whose components all lie within this magnitude are scaled up
/// by `NORMALIZE_GROW` before their squares are summed, so that short
/// vectors lose no precision.
pub const NORMALIZE_TINY: i128 = 1073741824;

/// What `normalize` multiplies short inputs by.
pub const NORMALIZE_GROW: i128 = 1073741824;

/// Three mathematical integers: what every point and vector stands for.
pub struct V3 {
    pub x: int,
    pub y: int,
    pub z: int,
}

impl V3 {
    /// The dot product.
    pub open spec fn dot(self, o: V3) -> int {
        self.x * o.x + self.y * o.y + self.z * o.z
    }

    /// The cross product.
    pub open spec fn cross(self, o: V3) -> V3 {
        V3 {
            x: self.y * o.z - self.z * o.y,
            y: self.z * o.x - self.x * o.z,
            z: self.x * o.y - self.y * o.x,
        }
    }

    /// The component-wise sum.
    pub open spec fn plus(self, o: V3) -> V3 {
        V3 { x: self.x + o.x, y: self.y + o.y, z: self.z + o.z }
    }

    /// The component-wise difference.
    pub open spec fn minus(self, o: V3) -> V3 {
        V3 { x: self.x - o.x, y: self.y - o.y, z: self.z - o.z }
    }

    /// The squared length.
    pub open spec fn norm2(self) -> int {
        self.dot(self)
    }

    /// Every component has magnitude at most `m`.
    pub open spec fn within(self, m: int) -> bool {
        within(self.x, m) && within(self.y, m) && within(self.z, m)
    }

    /// The zero vector.
    pub open spec fn is_zero(self) -> bool {
        self.x == 0 && self.y == 0 && self.z == 0
    }

    /// The point with these coordinates.
    pub open spec fn as_point(self) -> Point3 {
        Point3 { x: self.x as i64, y: self.y as i64, z: self.z as i64 }
    }

    /// The vector with these components.
    pub open spec fn as_vector(self) -> Vector3 {
        Vector3 { x: self.x as i64, y: self.y as i64, z: self.z as i64 }
    }

    /// Whether the vector can stand for a direction: it is no longer than
    /// one world unit.
    pub open spec fn is_direction(self) -> bool {
        self.norm2() <= ONE * ONE
    }

    /// Whether the vector is one world unit long, up to rounding: no
    /// longer, and shorter by less than four raw units.
    pub open spec fn is_unit(self) -> bool {
        ONE * ONE - 7 * ONE <= self.norm2() <= ONE * ONE
    }
}

/// The vector that `normalized` takes the length of: `v` itself, or `v`
/// scaled up when it is short, or scaled down when it is long.
pub open spec fn rescaled(v: V3) -> V3 {
    if v.within(NORMALIZE_TINY as int) {
        V3 { x: v.x * NORMALIZE_GROW, y: v.y * NORMALIZE_GROW, z: v.z * NORMALIZE_GROW }
    } else if v.within(NORMALIZE_SMALL as int) {
        v
    } else {
        V3 {
            x: div_trunc(v.x, NORMALIZE_SHIFT as int),
            y: div_trunc(v.y, NORMALIZE_SHIFT as int),
            z: div_trunc(v.z, NORMALIZE_SHIFT as int),
        }
    }
}

/// The vector of length (at most) `ONE` along `v`: the vector is first
/// rescaled, then every component is multiplied by `ONE` and divided by
/// the length rounded up, rounding toward zero. The zero vector stays zero.
pub open spec fn normalized(v: V3) -> V3 {
    let w = rescaled(v);
    let n = sqrt_ceil(w.norm2());
    if n == 0 {
        V3 { x: 0, y: 0, z: 0 }
    } else {
        V3 {
            x: div_trunc(w.x * ONE, n),
            y: div_trunc(w.y * ONE, n),
            z: div_trunc(w.z * ONE, n),
        }
    }
}

/// A point in space.
#[derive(Clone, Copy, Debug, PartialEq, Eq)]
pub struct Point3 {
    pub x: i64,
    pub y: i64,
    pub z: i64,
}

/// A displacement in space.
#[derive(Clone, Copy, Debug, PartialEq, Eq)]
pub struct Vector3 {
    pub x: i64,
    pub y: i64,
    pub z: i64,
}

/// A vector whose components are products of scalars.
#[derive(Clone, Copy, Debug, PartialEq, Eq)]
pub struct Wide3 {
    pub x: i128,
    pub y: i128,
    pub z: i128,
}

impl View for Point3 {
    type V = V3;

    open spec fn view(&self) -> V3 {
        V3 { x: self.x as int, y: self.y as int, z: self.z as int }
    }
}

impl View for Vector3 {
    type V = V3;

    open spec fn view(&self) -> V3 {
        V3 { x: self.x as int, y: self.y as int, z: self.z as int }
    }
}

impl View for Wide3 {
    type V = V3;

    open spec fn view(&self) -> V3 {
        V3 { x: self.x as int, y: self.y as int, z: self.z as int }
    }
}

impl Point3 {
    /// A point is well formed when its coordinates lie within `COORD_MAX`.
    pub open spec fn wf(&self) -> bool {
        self@.within(COORD_MAX as int)
    }

    /// The point of the three coordinates given.
    pub fn new(x: i64, y: i64, z: i64) -> (p: Point3)
        ensures
            p.x == x,
            p.y == y,
            p.z == z,
    {
        Point3 { x, y, z }
    }

    /// Whether the point is well formed.
    pub fn in_range(&self) -> (b: bool)
        ensures
            b == self.wf(),
    {
        -COORD_MAX <= self.x && self.x <= COORD_MAX && -COORD_MAX <= self.y && self.y <= COORD_MAX
            && -COORD_MAX <= self.z && self.z <= COORD_MAX
    }

    /// The vector from `other` to `self`.
    pub fn minus(&self, other: &Point3) -> (v: Vector3)
        requires
            self@.within(EDGE_MAX as int),
            other@.within(EDGE_MAX as int),
        ensures
            v@ == self@.minus(other@),
    {
        Vector3 { x: self.x - other.x, y: self.y - other.y, z: self.z - other.z }
    }
}

impl Vector3 {
    /// The vector of the three components given.
    pub fn new(x: i64, y: i64, z: i64) -> (v: Vector3)
        ensures
            v.x == x,
            v.y == y,
            v.z == z,
    {
        Vector3 { x, y, z }
    }

    /// Whether this is the zero vector.
    pub fn is_zero(&self) -> (b: bool)
        ensures
            b == self@.is_zero(),
    {
        self.x == 0 && self.y == 0 && self.z == 0
    }

    /// The dot product, kept exactly.
    pub fn dot(&self, other: &Vector3) -> (d: i128)
        requires
            self@.within(4611686018427387904),
            other@.within(4611686018427387904),
        ensures
            d == self@.dot(other@),
    {
        proof {
            lemma_mul_within(self.x as int, other.x as int, 4611686018427387904, 4611686018427387904);
            lemma_mul_within(self.y as int, other.y as int, 4611686018427387904, 4611686018427387904);
            lemma_mul_within(self.z as int, other.z as int, 4611686018427387904, 4611686018427387904);
        }
        (self.x as i128) * (other.x as i128) + (self.y as i128) * (other.y as i128) + (self.z as i128)
            * (other.z as i128)
    }

    /// The dot product with a vector of products, kept exactly.
    pub fn dot_wide(&self, other: &Wide3) -> (d: i128)
        requires
            self@.within(EDGE_MAX as int),
            other@.within(WIDE_MAX as int),
        ensures
            d == self@.dot(other@),
    {
        proof {
            lemma_mul_within(self.x as int, other.x as int, EDGE_MAX as int, WIDE_MAX as int);
            lemma_mul_within(self.y as int, other.y as int, EDGE_MAX as int, WIDE_MAX as int);
            lemma_mul_within(self.z as int, other.z as int, EDGE_MAX as int, WIDE_MAX as int);
        }
        (self.x as i128) * other.x + (self.y as i128) * other.y + (self.z as i128) * other.z
    }

    /// The cross product, kept exactly.
    pub fn cross(&self, other: &Vector3) -> (c: Wide3)
        requires
            self@.within(EDGE_MAX as int),
            other@.within(EDGE_MAX as int),
        ensures
            c@ == self@.cross(other@),
            c@.within(WIDE_MAX as int),
    {
        proof {
            let m: int = EDGE_MAX as int;
            lemma_mul_within(self.y as int, other.z as int, m, m);
            lemma_mul_within(self.z as int, other.y as int, m, m);
            lemma_mul_within(self.z as int, other.x as int, m, m);
            lemma_mul_within(self.x as int, other.z as int, m, m);
            lemma_mul_within(self.x as int, other.y as int, m, m);
            lemma_mul_within(self.y as int, other.x as int, m, m);
        }
        Wide3 {
            x: (self.y as i128) * (other.z as i128) - (self.z as i128) * (other.y as i128),
            y: (self.z as i128) * (other.x as i128) - (self.x as i128) * (other.z as i128),
            z: (self.x as i128) * (other.y as i128) - (self.y as i128) * (other.x as i128),
        }
    }

    /// The same vector with wide components.
    pub fn widen(&self) -> (w: Wide3)
        ensures
            w@ == self@,
    {
        Wide3 { x: self.x as i128, y: self.y as i128, z: self.z as i128 }
    }
}

/// A normalized vector is no longer than one world unit.
pub proof fn lemma_normalized_is_direction(v: V3)
    ensures
        normalized(v).is_direction(),
        normalized(v).within(ONE as int),
{
    let w = rescaled(v);
    let s = w.norm2();
    assert(0 <= s) by (nonlinear_arith)
        requires
            s == w.x * w.x + w.y * w.y + w.z * w.z,
    ;
    lemma_sqrt_floor(s);
    let n = sqrt_ceil(s);
    let f = sqrt_floor(s);
    assert(s <= n * n) by (nonlinear_arith)
        requires
            f * f <= s < (f + 1) * (f + 1),
            n == if f * f == s {
                f
            } else {
                f + 1
            },
    ;
    let d = normalized(v);
    if n == 0 {
        assert(d == V3 { x: 0, y: 0, z: 0 });
        assert(d.norm2() == 0) by (nonlinear_arith)
            requires
                d.x == 0,
                d.y == 0,
                d.z == 0,
                d.norm2() == d.x * d.x + d.y * d.y + d.z * d.z,
        ;
    } else {
        lemma_trunc_scaled(w.x, n);
        lemma_trunc_scaled(w.y, n);
        lemma_trunc_scaled(w.z, n);
        assert(d.x == div_trunc(w.x * ONE, n));
        let n2 = n * n;
        let o2 = ONE * ONE;
        let dx = d.x * d.x;
        let dy = d.y * d.y;
        let dz = d.z * d.z;
        let wx = w.x * w.x;
        let wy = w.y * w.y;
        let wz = w.z * w.z;
        lemma_square_product(d.x, n);
        lemma_square_product(d.y, n);
        lemma_square_product(d.z, n);
        lemma_square_product(w.x, ONE as int);
        lemma_square_product(w.y, ONE as int);
        lemma_square_product(w.z, ONE as int);
        assert((dx + dy + dz) * n2 == dx * n2 + dy * n2 + dz * n2) by (nonlinear_arith);
        assert((wx + wy + wz) * o2 == wx * o2 + wy * o2 + wz * o2) by (nonlinear_arith);
        assert((wx + wy + wz) * o2 <= n2 * o2) by (nonlinear_arith)
            requires
                wx + wy + wz <= n2,
                0 <= o2,
        ;
        assert(dx + dy + dz <= o2) by (nonlinear_arith)
            requires
                (dx + dy + dz) * n2 <= n2 * o2,
                n2 > 0,
        ;
    }
    lemma_direction_within(d);
}

/// The components of a direction have magnitude at most `ONE`.
pub proof fn lemma_direction_within(d: V3)
    requires
        d.is_direction(),
    ensures
        d.within(ONE as int),
{
    assert(d.within(ONE as int)) by (nonlinear_arith)
        requires
            d.x * d.x + d.y * d.y + d.z * d.z <= 65536 * 65536,
            ONE == 65536,
    ;
}

proof fn lemma_square_product(a: int, b: int)
    by (nonlinear_arith)
    ensures
        (a * b) * (a * b) == (a * a) * (b * b),
        0 <= a * a,
        b != 0 ==> b * b > 0,
{
}

proof fn lemma_trunc_scaled(a: int, n: int)
    requires
        n > 0,
    ensures
        (div_trunc(a * ONE, n) * n) * (div_trunc(a * ONE, n) * n) <= (a * ONE) * (a * ONE),
{
    let p = a * ONE;
    let q = div_trunc(p, n);
    if p < 0 {
        vstd::arithmetic::div_mod::lemma_fundamental_div_mod(-p, n);
        vstd::arithmetic::div_mod::lemma_mod_bound(-p, n);
        let k = (-p) / n;
        vstd::arithmetic::div_mod::lemma_div_pos_is_pos(-p, n);
        assert((q * n) * (q * n) <= p * p) by (nonlinear_arith)
            requires
                q == -k,
                0 <= k,
                -p == n * k + (-p) % n,
                0 <= (-p) % n,
                n > 0,
        ;
    } else {
        vstd::arithmetic::div_mod::lemma_fundamental_div_mod(p, n);
        vstd::arithmetic::div_mod::lemma_mod_bound(p, n);
        vstd::arithmetic::div_mod::lemma_div_pos_is_pos(p, n);
        assert((q * n) * (q * n) <= p * p) by (nonlinear_arith)
            requires
                0 <= q,
                p == n * q + p % n,
                0 <= p % n,
                n > 0,
        ;
    }
}

/// The squared distance between two points, kept exactly.
pub fn distance2(a: &Point3, b: &Point3) -> (d: i128)
    requires
        a@.within(EDGE_MAX as int),
        b@.within(EDGE_MAX as int),
    ensures
        d == a@.minus(b@).norm2(),
        d >= 0,
{
    let v: Vector3 = a.minus(b);
    let d: i128 = v.dot(&v);
    assert(d >= 0) by (nonlinear_arith)
        requires
            d == v.x * v.x + v.y * v.y + v.z * v.z,
    ;
    d
}

/// The distance between two points, rounded down.
pub fn distance(a: &Point3, b: &Point3) -> (d: i64)
    requires
        a@.within(EDGE_MAX as int),
        b@.within(EDGE_MAX as int),
    ensures
        d == sqrt_floor(a@.minus(b@).norm2()),
        0 <= d <= 8 * EDGE_MAX,
{
    let d2: i128 = distance2(a, b);
    let r: u64 = isqrt(d2 as u128);
    proof {
        let v = a@.minus(b@);
        lemma_mul_within(v.x, v.x, 2 * EDGE_MAX, 2 * EDGE_MAX);
        lemma_mul_within(v.y, v.y, 2 * EDGE_MAX, 2 * EDGE_MAX);
        lemma_mul_within(v.z, v.z, 2 * EDGE_MAX, 2 * EDGE_MAX);
        lemma_sqrt_floor(d2 as int);
        let m: int = 8 * EDGE_MAX;
        assert(r <= m) by (nonlinear_arith)
            requires
                r * r <= d2,
                d2 <= 3 * ((2 * EDGE_MAX) * (2 * EDGE_MAX)),
                EDGE_MAX == 2199023255552,
                m == 8 * EDGE_MAX,
                0 <= r,
        ;
    }
    r as i64
}

impl Wide3 {
    /// The vector of length (at most) `ONE` along this one.
    pub fn normalize(&self) -> (d: Vector3)
        requires
            self@.within(WIDE_MAX as int),
        ensures
            d@ == normalized(self@),
            d@.is_direction(),
            d@.within(ONE as int),
            self@.is_zero() ==> d@.is_zero(),
            !self@.is_zero() ==> d@.is_unit(),
    {
        proof {
            if self@.is_zero() {
                lemma_normalized_zero(self@);
            } else {
                lemma_normalized_is_unit(self@);
            }
        }
        let small: bool = -NORMALIZE_SMALL <= self.x && self.x <= NORMALIZE_SMALL
            && -NORMALIZE_SMALL <= self.y && self.y <= NORMALIZE_SMALL
            && -NORMALIZE_SMALL <= self.z && self.z <= NORMALIZE_SMALL;
        let tiny: bool = -NORMALIZE_TINY <= self.x && self.x <= NORMALIZE_TINY && -NORMALIZE_TINY
            <= self.y && self.y <= NORMALIZE_TINY && -NORMALIZE_TINY <= self.z && self.z
            <= NORMALIZE_TINY;
        let w: Wide3 = if tiny {
            Wide3 {
                x: self.x * NORMALIZE_GROW,
                y: self.y * NORMALIZE_GROW,
                z: self.z * NORMALIZE_GROW,
            }
        } else if small {
            *self
        } else {
            Wide3 {
                x: trunc_div(self.x, NORMALIZE_SHIFT),
                y: trunc_div(self.y, NORMALIZE_SHIFT),
                z: trunc_div(self.z, NORMALIZE_SHIFT),
            }
        };
        proof {
            lemma_shift_small(self.x as int);
            lemma_shift_small(self.y as int);
            lemma_shift_small(self.z as int);
            let m: int = NORMALIZE_SMALL as int;
            lemma_mul_within(w.x as int, w.x as int, m, m);
            lemma_mul_within(w.y as int, w.y as int, m, m);
            lemma_mul_within(w.z as int, w.z as int, m, m);
            assert(0 <= w.x * w.x && 0 <= w.y * w.y && 0 <= w.z * w.z) by (nonlinear_arith);
            lemma_normalized_is_direction(self@);
        }
        let s: i128 = w.x * w.x + w.y * w.y + w.z * w.z;
        let n: u128 = isqrt_ceil(s as u128);
        if n == 0 {
            Vector3 { x: 0, y: 0, z: 0 }
        } else {
            let x: i128 = trunc_div(w.x * (ONE as i128), n as i128);
            let y: i128 = trunc_div(w.y * (ONE as i128), n as i128);
            let z: i128 = trunc_div(w.z * (ONE as i128), n as i128);
            Vector3 { x: x as i64, y: y as i64, z: z as i64 }
        }
    }
}

proof fn lemma_shift_small(a: int)
    requires
        within(a, WIDE_MAX as int),
    ensures
        within(div_trunc(a, NORMALIZE_SHIFT as int), NORMALIZE_SMALL as int),
{
    if a < 0 {
        vstd::arithmetic::div_mod::lemma_div_is_ordered(-a, WIDE_MAX as int, NORMALIZE_SHIFT as int);
        vstd::arithmetic::div_mod::lemma_div_pos_is_pos(-a, NORMALIZE_SHIFT as int);
    } else {
        vstd::arithmetic::div_mod::lemma_div_is_ordered(a, WIDE_MAX as int, NORMALIZE_SHIFT as int);
        vstd::arithmetic::div_mod::lemma_div_pos_is_pos(a, NORMALIZE_SHIFT as int);
    }
}

/// The squared dot product of two vectors is at most the product of
/// their squared lengths.
pub proof fn lemma_cauchy_schwarz(a: V3, b: V3)
    ensures
        a.dot(b) * a.dot(b) <= a.norm2() * b.norm2(),
        a.dot(b) * a.dot(b) + a.cross(b).norm2() == a.norm2() * b.norm2(),
{
    let c = a.cross(b);
    let xx = a.x * b.x;
    let yy = a.y * b.y;
    let zz = a.z * b.z;
    let xy = a.x * b.y;
    let yx = a.y * b.x;
    let yz = a.y * b.z;
    let zy = a.z * b.y;
    let zx = a.z * b.x;
    let xz = a.x * b.z;
    lemma_swap_factors(a.x, b.x, a.y, b.y);
    lemma_swap_factors(a.x, b.x, a.z, b.z);
    lemma_swap_factors(a.y, b.y, a.z, b.z);
    assert(xx * yy == xy * yx);
    assert(xx * zz == xz * zx);
    assert(yy * zz == yz * zy);
    let d = xx + yy + zz;
    assert(d * d == xx * xx + yy * yy + zz * zz + 2 * (xx * yy) + 2 * (xx * zz) + 2 * (yy * zz))
        by (nonlinear_arith)
        requires
            d == xx + yy + zz,
    ;
    assert((yz - zy) * (yz - zy) == yz * yz + zy * zy - 2 * (yz * zy)) by (nonlinear_arith);
    assert((zx - xz) * (zx - xz) == zx * zx + xz * xz - 2 * (xz * zx)) by (nonlinear_arith);
    assert((xy - yx) * (xy - yx) == xy * xy + yx * yx - 2 * (xy * yx)) by (nonlinear_arith);
    let ax = a.x * a.x;
    let ay = a.y * a.y;
    let az = a.z * a.z;
    let bx = b.x * b.x;
    let by = b.y * b.y;
    let bz = b.z * b.z;
    lemma_swap_factors(a.x, a.x, b.x, b.x);
    lemma_swap_factors(a.x, a.x, b.y, b.y);
    lemma_swap_factors(a.x, a.x, b.z, b.z);
    lemma_swap_factors(a.y, a.y, b.x, b.x);
    lemma_swap_factors(a.y, a.y, b.y, b.y);
    lemma_swap_factors(a.y, a.y, b.z, b.z);
    lemma_swap_factors(a.z, a.z, b.x, b.x);
    lemma_swap_factors(a.z, a.z, b.y, b.y);
    lemma_swap_factors(a.z, a.z, b.z, b.z);
    lemma_sum_times(ax, ay, az, bx + by + bz);
    lemma_times_sum(ax, bx + by, bz);
    lemma_times_sum(ax, bx, by);
    lemma_times_sum(ay, bx + by, bz);
    lemma_times_sum(ay, bx, by);
    lemma_times_sum(az, bx + by, bz);
    lemma_times_sum(az, bx, by);
    assert(0 <= c.norm2()) by (nonlinear_arith)
        requires
            c.norm2() == c.x * c.x + c.y * c.y + c.z * c.z,
    ;
}

/// The factors of a product of two products can change places.
pub proof fn lemma_swap_factors(a: int, b: int, c: int, d: int)
    by (nonlinear_arith)
    ensures
        (a * b) * (c * d) == (a * d) * (c * b),
        (a * b) * (c * d) == (a * c) * (b * d),
{
}

/// The dot product of two directions lies within `ONE * ONE`.
pub proof fn lemma_direction_dot(a: V3, b: V3)
    requires
        a.is_direction(),
        b.is_direction(),
    ensures
        -(ONE * ONE) <= a.dot(b) <= ONE * ONE,
{
    lemma_cauchy_schwarz(a, b);
    let p = a.dot(b);
    let na = a.norm2();
    let nb = b.norm2();
    assert(0 <= na && 0 <= nb) by (nonlinear_arith)
        requires
            na == a.x * a.x + a.y * a.y + a.z * a.z,
            nb == b.x * b.x + b.y * b.y + b.z * b.z,
    ;
    assert(na * nb <= 4294967296 * 4294967296) by (nonlinear_arith)
        requires
            0 <= na <= 4294967296,
            0 <= nb <= 4294967296,
    ;
    if p > 4294967296 {
        assert(p * p > 4294967296 * 4294967296) by (nonlinear_arith)
            requires
                p > 4294967296,
        ;
    }
    if p < -4294967296 {
        assert(p * p > 4294967296 * 4294967296) by (nonlinear_arith)
            requires
                p < -4294967296,
        ;
    }
}

/// Three factors in another order.
pub proof fn lemma_three_factors(a: int, b: int, c: int)
    by (nonlinear_arith)
    ensures
        a * (b * c) == b * (c * a),
        a * (b * c) == c * (a * b),
        a * (b * c) == a * (c * b),
        a * (b * c) == b * (a * c),
        a * (b * c) == c * (b * a),
{
}

/// A sum of three numbers times a number.
pub proof fn lemma_sum_times(a: int, b: int, c: int, p: int)
    by (nonlinear_arith)
    ensures
        (a + b + c) * p == a * p + b * p + c * p,
{
}

/// The negative of a number times a number.
pub proof fn lemma_negated_product(a: int, b: int)
    by (nonlinear_arith)
    ensures
        (-a) * b == -(a * b),
{
}

/// A number times a sum.
pub proof fn lemma_times_sum(a: int, p: int, q: int)
    by (nonlinear_arith)
    ensures
        a * (p + q) == a * p + a * q,
{
}

/// A product does not depend on the order of its factors.
pub proof fn lemma_commutes(a: int, b: int)
    by (nonlinear_arith)
    ensures
        a * b == b * a,
{
}

/// A number times a difference.
pub proof fn lemma_times_difference(a: int, p: int, q: int)
    by (nonlinear_arith)
    ensures
        a * (p - q) == a * p - a * q,
{
}

/// The triple product `a . (b x c)` keeps its value when the three
/// vectors change places in a cycle, and is zero when two of them are
/// the same.
pub proof fn lemma_triple_product(a: V3, b: V3, c: V3)
    ensures
        a.dot(b.cross(c)) == b.dot(c.cross(a)),
        a.dot(a.cross(b)) == 0,
        b.dot(a.cross(b)) == 0,
{
    lemma_times_difference(a.x, b.y * c.z, b.z * c.y);
    lemma_times_difference(a.y, b.z * c.x, b.x * c.z);
    lemma_times_difference(a.z, b.x * c.y, b.y * c.x);
    lemma_times_difference(b.x, c.y * a.z, c.z * a.y);
    lemma_times_difference(b.y, c.z * a.x, c.x * a.z);
    lemma_times_difference(b.z, c.x * a.y, c.y * a.x);
    lemma_three_factors(a.x, b.y, c.z);
    lemma_three_factors(a.x, b.z, c.y);
    lemma_three_factors(a.y, b.z, c.x);
    lemma_three_factors(a.y, b.x, c.z);
    lemma_three_factors(a.z, b.x, c.y);
    lemma_three_factors(a.z, b.y, c.x);
    assert(a.dot(b.cross(c)) == b.dot(c.cross(a)));
    lemma_times_difference(a.x, a.y * b.z, a.z * b.y);
    lemma_times_difference(a.y, a.z * b.x, a.x * b.z);
    lemma_times_difference(a.z, a.x * b.y, a.y * b.x);
    lemma_three_factors(a.x, a.y, b.z);
    lemma_three_factors(a.x, a.z, b.y);
    lemma_three_factors(a.y, a.z, b.x);
    lemma_three_factors(a.y, a.x, b.z);
    lemma_three_factors(a.z, a.x, b.y);
    lemma_three_factors(a.z, a.y, b.x);
    assert(a.dot(a.cross(b)) == 0);
    lemma_times_difference(b.x, a.y * b.z, a.z * b.y);
    lemma_times_difference(b.y, a.z * b.x, a.x * b.z);
    lemma_times_difference(b.z, a.x * b.y, a.y * b.x);
    lemma_three_factors(b.x, a.y, b.z);
    lemma_three_factors(b.x, a.z, b.y);
    lemma_three_factors(b.y, a.z, b.x);
    lemma_three_factors(b.y, a.x, b.z);
    lemma_three_factors(b.z, a.x, b.y);
    lemma_three_factors(b.z, a.y, b.x);
    assert(b.dot(a.cross(b)) == 0);
}

/// What rounding toward zero takes from a product: the square of the
/// rounded quotient times the divisor is at least the square of the
/// product less twice the product's magnitude times the divisor.
proof fn lemma_trunc_loss(a: int, n: int)
    requires
        n > 0,
    ensures
        ({
            let p = a * ONE;
            let q = div_trunc(p, n);
            (q * n) * (q * n) >= p * p - 2 * (if p < 0 {
                -p
            } else {
                p
            }) * n
        }),
{
    let p = a * ONE;
    let q = div_trunc(p, n);
    let m = if p < 0 {
        -p
    } else {
        p
    };
    vstd::arithmetic::div_mod::lemma_fundamental_div_mod(m, n);
    vstd::arithmetic::div_mod::lemma_mod_bound(m, n);
    vstd::arithmetic::div_mod::lemma_div_pos_is_pos(m, n);
    let k = m / n;
    let e = m % n;
    assert(q == k || q == -k);
    assert((q * n) * (q * n) == (k * n) * (k * n)) by (nonlinear_arith)
        requires
            q == k || q == -k,
    ;
    assert(p * p == m * m) by (nonlinear_arith)
        requires
            m == p || m == -p,
    ;
    assert((k * n) * (k * n) >= m * m - 2 * m * n) by (nonlinear_arith)
        requires
            m == n * k + e,
            0 <= e < n,
            0 <= k,
            0 <= m,
    ;
}

/// A component is no larger in magnitude than the length rounded up.
proof fn lemma_component_within_length(c: int, s: int, n: int)
    requires
        0 <= c * c <= s,
        s <= n * n,
        0 <= n,
    ensures
        -n <= c <= n,
{
    if c > n {
        assert(c * c > n * n) by (nonlinear_arith)
            requires
                c > n,
                n >= 0,
        ;
    }
    if c < -n {
        assert(c * c > n * n) by (nonlinear_arith)
            requires
                c < -n,
                n >= 0,
        ;
    }
}

/// A vector that is not zero is rescaled to one with a large component.
proof fn lemma_rescaled_is_long(v: V3)
    requires
        !v.is_zero(),
    ensures
        rescaled(v).norm2() >= NORMALIZE_GROW * NORMALIZE_GROW,
{
    let w = rescaled(v);
    let g = NORMALIZE_GROW as int;
    assert(0 <= w.x * w.x && 0 <= w.y * w.y && 0 <= w.z * w.z) by (nonlinear_arith);
    if v.within(NORMALIZE_TINY as int) {
        lemma_grown_is_long(v.x);
        lemma_grown_is_long(v.y);
        lemma_grown_is_long(v.z);
    } else if v.within(NORMALIZE_SMALL as int) {
        lemma_square_beyond(v.x, g);
        lemma_square_beyond(v.y, g);
        lemma_square_beyond(v.z, g);
    } else {
        lemma_shifted_is_long(v.x);
        lemma_shifted_is_long(v.y);
        lemma_shifted_is_long(v.z);
        lemma_square_beyond(w.x, g);
        lemma_square_beyond(w.y, g);
        lemma_square_beyond(w.z, g);
    }
}

/// The square of a number beyond a bound is beyond the square of the
/// bound.
proof fn lemma_square_beyond(c: int, g: int)
    by (nonlinear_arith)
    requires
        0 < g,
    ensures
        !within(c, g) ==> c * c >= g * g,
{
}

/// A component that is scaled up is large unless it is zero.
proof fn lemma_grown_is_long(a: int)
    by (nonlinear_arith)
    ensures
        a == 0 || (a * NORMALIZE_GROW) * (a * NORMALIZE_GROW) >= NORMALIZE_GROW * NORMALIZE_GROW,
{
}

/// A component that is scaled down stays large where it was large, and
/// where it was not beyond `NORMALIZE_TINY` another component was.
proof fn lemma_shifted_is_long(a: int)
    ensures
        !within(a, NORMALIZE_SMALL as int) ==> !within(
            div_trunc(a, NORMALIZE_SHIFT as int),
            NORMALIZE_TINY as int,
        ),
{
    let small = NORMALIZE_SMALL as int;
    let shift = NORMALIZE_SHIFT as int;
    if a > small {
        vstd::arithmetic::div_mod::lemma_div_is_ordered(small, a, shift);
        assert(small / shift == 68719476736) by (nonlinear_arith)
            requires
                small == 1152921504606846976,
                shift == 16777216,
        ;
    } else if a < -small {
        vstd::arithmetic::div_mod::lemma_div_is_ordered(small, -a, shift);
        assert(small / shift == 68719476736) by (nonlinear_arith)
            requires
                small == 1152921504606846976,
                shift == 16777216,
        ;
    }
}

/// Normalizing the zero vector gives the zero vector.
pub proof fn lemma_normalized_zero(v: V3)
    requires
        v.is_zero(),
    ensures
        normalized(v).is_zero(),
{
    let w = rescaled(v);
    assert(w.x == 0 && w.y == 0 && w.z == 0) by (nonlinear_arith)
        requires
            w.x == v.x * NORMALIZE_GROW && w.y == v.y * NORMALIZE_GROW && w.z == v.z
                * NORMALIZE_GROW,
            v.x == 0 && v.y == 0 && v.z == 0,
    ;
    assert(w.norm2() == 0) by (nonlinear_arith)
        requires
            w.x == 0 && w.y == 0 && w.z == 0,
            w.norm2() == w.x * w.x + w.y * w.y + w.z * w.z,
    ;
    crate::scalar::lemma_sqrt_of_square(0);
    assert(0int * 0int == 0);
}

/// Normalizing a vector that is not zero gives a vector of unit length,
/// up to rounding.
pub proof fn lemma_normalized_is_unit(v: V3)
    requires
        !v.is_zero(),
    ensures
        normalized(v).is_unit(),
{
    lemma_normalized_is_direction(v);
    lemma_rescaled_is_long(v);
    let w = rescaled(v);
    let s = w.norm2();
    let g = NORMALIZE_GROW as int;
    let one = ONE as int;
    assert(g * g > 0) by (nonlinear_arith)
        requires
            g == 1073741824,
    ;
    lemma_sqrt_floor(s);
    let f = sqrt_floor(s);
    let n = sqrt_ceil(s);
    assert(s <= n * n && (n - 1) * (n - 1) < s && n >= 1) by (nonlinear_arith)
        requires
            f * f <= s < (f + 1) * (f + 1),
            0 <= f,
            s > 0,
            n == if f * f == s {
                f
            } else {
                f + 1
            },
    ;
    if n < g {
        assert(n * n < g * g) by (nonlinear_arith)
            requires
                0 <= n < g,
        ;
    }
    assert(n >= g);
    let d = normalized(v);
    assert(d.x == div_trunc(w.x * ONE, n));
    lemma_trunc_loss(w.x, n);
    lemma_trunc_loss(w.y, n);
    lemma_trunc_loss(w.z, n);
    assert(0 <= w.x * w.x && 0 <= w.y * w.y && 0 <= w.z * w.z) by (nonlinear_arith);
    lemma_component_within_length(w.x, s, n);
    lemma_component_within_length(w.y, s, n);
    lemma_component_within_length(w.z, s, n);
    let n2 = n * n;
    let dx = d.x * d.x;
    let dy = d.y * d.y;
    let dz = d.z * d.z;
    lemma_square_product(d.x, n);
    lemma_square_product(d.y, n);
    lemma_square_product(d.z, n);
    lemma_square_product(w.x, one);
    lemma_square_product(w.y, one);
    lemma_square_product(w.z, one);
    let o2 = one * one;
    // each magnitude |w_i * ONE| * n is at most ONE * n * n
    lemma_loss_bound(w.x, n);
    lemma_loss_bound(w.y, n);
    lemma_loss_bound(w.z, n);
    assert((dx + dy + dz) * n2 == dx * n2 + dy * n2 + dz * n2) by (nonlinear_arith);
    assert((w.x * w.x) * o2 + (w.y * w.y) * o2 + (w.z * w.z) * o2 == s * o2) by (nonlinear_arith)
        requires
            s == w.x * w.x + w.y * w.y + w.z * w.z,
    ;
    assert((dx + dy + dz) * n2 >= s * o2 - 6 * (one * n2));
    assert(s * o2 >= o2 * n2 - one * n2) by (nonlinear_arith)
        requires
            (n - 1) * (n - 1) < s,
            n2 == n * n,
            o2 == one * one,
            one == 65536,
            n >= 1073741824,
    ;
    assert((dx + dy + dz) * n2 >= (o2 - 7 * one) * n2) by (nonlinear_arith)
        requires
            (dx + dy + dz) * n2 >= s * o2 - 6 * (one * n2),
            s * o2 >= o2 * n2 - one * n2,
    ;
    assert(dx + dy + dz >= o2 - 7 * one) by (nonlinear_arith)
        requires
            (dx + dy + dz) * n2 >= (o2 - 7 * one) * n2,
            n2 > 0,
    ;
}

/// Twice the magnitude of a scaled component times the length is at most
/// twice `ONE` times the squared length.
proof fn lemma_loss_bound(c: int, n: int)
    requires
        -n <= c <= n,
        n > 0,
    ensures
        2 * (if c * ONE < 0 {
            -(c * ONE)
        } else {
            c * ONE
        }) * n <= 2 * (ONE * (n * n)),
{
    let p = c * ONE;
    let m = if p < 0 {
        -p
    } else {
        p
    };
    assert(m <= n * ONE) by (nonlinear_arith)
        requires
            -n <= c <= n,
            p == c * ONE,
            m == p || m == -p,
            ONE > 0,
    ;
    assert(2 * m * n <= 2 * (ONE * (n * n))) by (nonlinear_arith)
        requires
            0 <= m <= n * ONE,
            n > 0,
    ;
}

} // verus!
