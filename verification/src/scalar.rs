//! Fixed-point scalars.
//!
//! Every length, coordinate and colour channel of the kernel is an `i64`
//! counted in units of `1 / ONE`. Products of two scalars are kept exactly,
//! at the doubled scale `ONE * ONE`, until a square root or a division brings
//! them back.

use vstd::prelude::*;

verus! {

/// Raw units per world unit.
pub const ONE: i64 = 65536;

/// Largest magnitude of a coordinate or a length, in raw units.
pub const COORD_MAX: i64 = 1099511627776;

/// Largest magnitude of a distance along a ray, in raw units.
pub const DISTANCE_MAX: i64 = 4611686018427387904;

/// Largest divisor that `scaled_quotient` accepts.
pub const DIVISOR_MAX: i128 = 1298074214633706907132624082305024;

/// `|a| <= m`.
pub open spec fn within(a: int, m: int) -> bool {
    -m <= a <= m
}

/// The magnitude of `a`.
pub open spec fn abs(a: int) -> int {
    if a < 0 {
        -a
    } else {
        a
    }
}

/// `a` brought into `[lo, hi]`.
pub open spec fn clamp(a: int, lo: int, hi: int) -> int {
    if a < lo {
        lo
    } else if a > hi {
        hi
    } else {
        a
    }
}

/// An optional scalar as an optional mathematical integer.
pub open spec fn as_int(t: Option<i64>) -> Option<int> {
    match t {
        Some(v) => Some(v as int),
        None => None,
    }
}

/// The quotient `n / d` rounded up; meaningful for `d > 0`.
pub open spec fn div_ceil(n: int, d: int) -> int {
    -((-n) / d)
}

/// The quotient `n / d` rounded toward zero; meaningful for `d > 0`.
pub open spec fn div_trunc(n: int, d: int) -> int {
    if n < 0 {
        -((-n) / d)
    } else {
        n / d
    }
}

/// `n` world units divided by `d`, in raw units: `n * ONE / d` rounded
/// down and kept within `DISTANCE_MAX`.
pub open spec fn scaled_ratio(n: int, d: int) -> int {
    clamp((n * ONE) / d, -DISTANCE_MAX, DISTANCE_MAX as int)
}

/// `r` is the integer square root of `n`, rounded down.
pub open spec fn is_sqrt_floor(n: int, r: int) -> bool {
    0 <= r && r * r <= n < (r + 1) * (r + 1)
}

/// The integer square root of `n`, rounded down; meaningful for `n >= 0`.
pub open spec fn sqrt_floor(n: int) -> int {
    choose|r: int| is_sqrt_floor(n, r)
}

/// The integer square root of `n`, rounded up; meaningful for `n >= 0`.
pub open spec fn sqrt_ceil(n: int) -> int {
    let r = sqrt_floor(n);
    if r * r == n {
        r
    } else {
        r + 1
    }
}

/// A product is bounded by the product of the bounds.
pub proof fn lemma_mul_within(a: int, b: int, ma: int, mb: int)
    by (nonlinear_arith)
    requires
        within(a, ma),
        within(b, mb),
    ensures
        within(a * b, ma * mb),
{
}

/// Rounding down gives no more than rounding up.
pub proof fn lemma_floor_le_ceil(n: int, d: int)
    requires
        d > 0,
    ensures
        n / d <= div_ceil(n, d),
{
    let q = n / d;
    let r = n % d;
    let q2 = (-n) / d;
    let r2 = (-n) % d;
    vstd::arithmetic::div_mod::lemma_fundamental_div_mod(n, d);
    vstd::arithmetic::div_mod::lemma_fundamental_div_mod(-n, d);
    vstd::arithmetic::div_mod::lemma_mod_bound(n, d);
    vstd::arithmetic::div_mod::lemma_mod_bound(-n, d);
    assert(q + q2 <= 0) by (nonlinear_arith)
        requires
            n == d * q + r,
            -n == d * q2 + r2,
            0 <= r,
            0 <= r2,
            d > 0,
    ;
}

/// Rounding up is monotone in the numerator.
pub proof fn lemma_div_ceil_ordered(a: int, b: int, d: int)
    requires
        d > 0,
        a <= b,
    ensures
        div_ceil(a, d) <= div_ceil(b, d),
{
    vstd::arithmetic::div_mod::lemma_div_is_ordered(-b, -a, d);
}

proof fn lemma_sqrt_exists(n: int) -> (r: int)
    requires
        0 <= n,
    ensures
        is_sqrt_floor(n, r),
    decreases n,
{
    if n == 0 {
        assert(is_sqrt_floor(0, 0));
        0
    } else {
        let p = lemma_sqrt_exists(n - 1);
        if (p + 1) * (p + 1) <= n {
            assert((p + 1) * (p + 1) == n) by (nonlinear_arith)
                requires
                    (p + 1) * (p + 1) <= n,
                    n - 1 < (p + 1) * (p + 1),
            ;
            assert(n < (p + 2) * (p + 2)) by (nonlinear_arith)
                requires
                    (p + 1) * (p + 1) == n,
                    0 <= p,
            ;
            p + 1
        } else {
            p
        }
    }
}

/// Two candidates for the square root of one number are the same number.
pub proof fn lemma_sqrt_unique(n: int, a: int, b: int)
    requires
        is_sqrt_floor(n, a),
        is_sqrt_floor(n, b),
    ensures
        a == b,
{
    if a < b {
        assert((a + 1) * (a + 1) <= b * b) by (nonlinear_arith)
            requires
                0 <= a,
                a + 1 <= b,
        ;
    } else if b < a {
        assert((b + 1) * (b + 1) <= a * a) by (nonlinear_arith)
            requires
                0 <= b,
                b + 1 <= a,
        ;
    }
}

/// `sqrt_floor` is the square root rounded down, and the only one.
pub proof fn lemma_sqrt_floor(n: int)
    requires
        0 <= n,
    ensures
        is_sqrt_floor(n, sqrt_floor(n)),
        forall|r: int| is_sqrt_floor(n, r) ==> r == sqrt_floor(n),
{
    let w = lemma_sqrt_exists(n);
    assert(is_sqrt_floor(n, sqrt_floor(n)));
    assert forall|r: int| is_sqrt_floor(n, r) implies r == sqrt_floor(n) by {
        lemma_sqrt_unique(n, r, sqrt_floor(n));
    }
}

/// The square root of a perfect square.
pub proof fn lemma_sqrt_of_square(r: int)
    requires
        0 <= r,
    ensures
        sqrt_floor(r * r) == r,
        sqrt_ceil(r * r) == r,
{
    assert(is_sqrt_floor(r * r, r)) by (nonlinear_arith)
        requires
            0 <= r,
    ;
    assert(0 <= r * r) by (nonlinear_arith);
    lemma_sqrt_floor(r * r);
}

/// The square root of a number below a square lies below its root.
pub proof fn lemma_sqrt_bound(n: int, m: int)
    requires
        0 <= n < m * m,
        0 <= m,
    ensures
        0 <= sqrt_floor(n) < m,
{
    lemma_sqrt_floor(n);
    let r = sqrt_floor(n);
    if r >= m {
        assert(m * m <= r * r) by (nonlinear_arith)
            requires
                0 <= m <= r,
        ;
    }
}

/// The quotient of `n` by a positive `d`, rounded down, and the remainder.
pub fn floor_div_rem(n: i128, d: i128) -> (qr: (i128, i128))
    requires
        d > 0,
        n > i128::MIN,
    ensures
        qr.0 == n / d,
        qr.1 == n % d,
        0 <= qr.1 < d,
        abs(qr.0 as int) <= abs(n as int),
{
    if n >= 0 {
        let q: i128 = n / d;
        let r: i128 = n % d;
        proof {
            vstd::arithmetic::div_mod::lemma_div_pos_is_pos(n as int, d as int);
            vstd::arithmetic::div_mod::lemma_div_is_ordered_by_denominator(n as int, 1, d as int);
            vstd::arithmetic::div_mod::lemma_mod_bound(n as int, d as int);
        }
        (q, r)
    } else {
        let m: i128 = -n;
        let a: i128 = (m - 1) / d;
        let b: i128 = (m - 1) % d;
        proof {
            let mi: int = m as int - 1;
            let di: int = d as int;
            let ai: int = a as int;
            let bi: int = b as int;
            vstd::arithmetic::div_mod::lemma_fundamental_div_mod(mi, di);
            vstd::arithmetic::div_mod::lemma_mod_bound(mi, di);
            assert(n == di * (-ai - 1) + (di - bi - 1)) by (nonlinear_arith)
                requires
                    mi == di * ai + bi,
                    n == -(mi + 1),
            ;
            vstd::arithmetic::div_mod::lemma_fundamental_div_mod_converse(
                n as int,
                di,
                -ai - 1,
                di - bi - 1,
            );
            vstd::arithmetic::div_mod::lemma_div_pos_is_pos(mi, di);
            vstd::arithmetic::div_mod::lemma_div_is_ordered_by_denominator(mi, 1, di);
        }
        (-a - 1, d - b - 1)
    }
}

/// The quotient of `n` by a positive `d`, rounded down.
pub fn floor_div(n: i128, d: i128) -> (q: i128)
    requires
        d > 0,
        n > i128::MIN,
    ensures
        q == n / d,
        abs(q as int) <= abs(n as int),
{
    floor_div_rem(n, d).0
}

/// The quotient of `n` by a positive `d`, rounded up.
pub fn ceil_div(n: i128, d: i128) -> (q: i128)
    requires
        d > 0,
        n > i128::MIN,
    ensures
        q == div_ceil(n as int, d as int),
        abs(q as int) <= abs(n as int),
{
    -floor_div(-n, d)
}

/// The quotient of `n` by a positive `d`, rounded toward zero.
pub fn trunc_div(n: i128, d: i128) -> (q: i128)
    requires
        d > 0,
        n > i128::MIN,
    ensures
        q == div_trunc(n as int, d as int),
        abs(q as int) <= abs(n as int),
{
    if n < 0 {
        -floor_div(-n, d)
    } else {
        floor_div(n, d)
    }
}

/// `n * ONE / d` for a positive `d`, rounded down and kept within
/// `DISTANCE_MAX`.
pub fn scaled_quotient(n: i128, d: i128) -> (q: i64)
    requires
        0 < d <= DIVISOR_MAX,
        n > i128::MIN,
    ensures
        q == scaled_ratio(n as int, d as int),
{
    let (whole, rest) = floor_div_rem(n, d);
    proof {
        let w: int = whole as int;
        let r: int = (n as int) % (d as int);
        vstd::arithmetic::div_mod::lemma_fundamental_div_mod(n as int, d as int);
        vstd::arithmetic::div_mod::lemma_mod_bound(n as int, d as int);
        // n * ONE == d * (w * ONE) + r * ONE
        assert(n * ONE == d * (w * ONE) + r * ONE) by (nonlinear_arith)
            requires
                n == d * w + r,
        ;
        let f: int = (r * ONE) / (d as int);
        let g: int = (r * ONE) % (d as int);
        vstd::arithmetic::div_mod::lemma_fundamental_div_mod(r * ONE, d as int);
        vstd::arithmetic::div_mod::lemma_mod_bound(r * ONE, d as int);
        assert(n * ONE == d * (w * ONE + f) + g) by (nonlinear_arith)
            requires
                n * ONE == d * (w * ONE) + r * ONE,
                r * ONE == d * f + g,
        ;
        vstd::arithmetic::div_mod::lemma_fundamental_div_mod_converse(
            n * ONE,
            d as int,
            w * ONE + f,
            g,
        );
        assert(0 <= r * ONE < d * ONE) by (nonlinear_arith)
            requires
                0 <= r < d,
                ONE == 65536,
        ;
        vstd::arithmetic::div_mod::lemma_div_pos_is_pos(r * ONE, d as int);
        assert(f < ONE) by (nonlinear_arith)
            requires
                r * ONE == d * f + g,
                0 <= g,
                r * ONE < d * ONE,
                d > 0,
        ;
        assert(d * ONE <= DIVISOR_MAX * 65536) by (nonlinear_arith)
            requires
                d <= DIVISOR_MAX,
                ONE == 65536,
        ;
    }
    if whole >= 70368744177664 {
        DISTANCE_MAX
    } else if whole < -70368744177664 {
        -DISTANCE_MAX
    } else {
        let fine: i128 = floor_div(rest * 65536, d);
        (whole * 65536 + fine) as i64
    }
}

/// Integer square root, rounded down.
pub fn isqrt(n: u128) -> (r: u64)
    ensures
        r == sqrt_floor(n as int),
{
    let mut lo: u128 = 0;
    let mut hi: u128 = 18446744073709551616;
    assert(n < hi * hi) by (nonlinear_arith)
        requires
            hi == 18446744073709551616,
            n <= 340282366920938463463374607431768211455,
    ;
    while hi - lo > 1
        invariant
            lo < hi <= 18446744073709551616,
            lo * lo <= n < hi * hi,
        decreases hi - lo,
    {
        let mid: u128 = lo + (hi - lo) / 2;
        assert(mid * mid <= 340282366920938463463374607431768211455) by (nonlinear_arith)
            requires
                mid <= 18446744073709551615,
        ;
        if mid * mid <= n {
            lo = mid;
        } else {
            hi = mid;
        }
    }
    proof {
        assert(is_sqrt_floor(n as int, lo as int));
        lemma_sqrt_floor(n as int);
    }
    lo as u64
}

/// Integer square root, rounded up.
pub fn isqrt_ceil(n: u128) -> (r: u128)
    ensures
        r == sqrt_ceil(n as int),
        r <= 18446744073709551616,
{
    let f: u64 = isqrt(n);
    let w: u128 = f as u128;
    proof {
        lemma_sqrt_floor(n as int);
        assert(w * w <= n);
    }
    if w * w == n {
        w
    } else {
        w + 1
    }
}

} // verus!
