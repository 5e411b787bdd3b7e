//! Linear-light colours.

use crate::imaging::{rgba, rgba_channels};
use crate::scalar::{clamp, ONE};
use vstd::arithmetic::power::{lemma_pow1, lemma_pow_adds, pow};
use vstd::prelude::*;

verus! {

/// Largest value of a channel, in raw units.
pub const CHANNEL_MAX: i64 = 4294967296;

/// A red, green, blue triple in linear light; `ONE` is full intensity.
#[derive(Clone, Copy, Debug, PartialEq, Eq)]
pub struct Color {
    pub red: i64,
    pub green: i64,
    pub blue: i64,
}

impl Color {
    /// Channels are non-negative and at most `CHANNEL_MAX`.
    pub open spec fn wf(&self) -> bool {
        &&& 0 <= self.red <= CHANNEL_MAX
        &&& 0 <= self.green <= CHANNEL_MAX
        &&& 0 <= self.blue <= CHANNEL_MAX
    }

    /// Whether the colour is well formed.
    pub fn in_range(&self) -> (b: bool)
        ensures
            b == self.wf(),
    {
        0 <= self.red && self.red <= CHANNEL_MAX && 0 <= self.green && self.green <= CHANNEL_MAX
            && 0 <= self.blue && self.blue <= CHANNEL_MAX
    }

    /// The colour of the three channels given.
    pub fn new(red: i64, green: i64, blue: i64) -> (c: Color)
        ensures
            c.red == red,
            c.green == green,
            c.blue == blue,
    {
        Color { red, green, blue }
    }

    /// Black: no light in any channel.
    pub fn new_black() -> (c: Color)
        ensures
            c.red == 0,
            c.green == 0,
            c.blue == 0,
    {
        Color { red: 0, green: 0, blue: 0 }
    }

    /// The same colour again.
    pub fn new_copy(color: &Color) -> (c: Color)
        ensures
            c == *color,
    {
        Color { red: color.red, green: color.green, blue: color.blue }
    }
}

/// 255 to the eleventh power.
pub const FULL_ELEVENTH: u128 = 296443535898840969287109375;

/// `ONE` to the fifth power.
pub const ONE_FIFTH_POWER: u128 = 1208925819614629174706176;

/// Whether the byte `k` is not too bright for the intensity `x`: whether
/// `k / 255`, raised to the power 2.2, is at most `x / ONE`. In whole
/// numbers: `k^11 * ONE^5 <= 255^11 * x^5`.
pub open spec fn byte_fits(k: int, x: int) -> bool {
    pow(k, 11) * ONE_FIFTH_POWER <= FULL_ELEVENTH * pow(x, 5)
}

/// The largest byte up to `k` that fits the intensity `x`.
pub open spec fn brightest(x: int, k: int) -> int
    decreases k,
{
    if k <= 0 {
        0
    } else if byte_fits(k, x) {
        k
    } else {
        brightest(x, k - 1)
    }
}

/// The display encoding of a linear intensity: the intensity is kept
/// within `[0, ONE]`, raised to the power `1 / 2.2`, scaled to 255 and
/// rounded down.
pub open spec fn gamma_byte(x: int) -> int {
    brightest(clamp(x, 0, ONE as int), 255)
}

proof fn lemma_pow_ordered(a: int, b: int, e: nat)
    requires
        0 <= a <= b,
    ensures
        0 <= pow(a, e) <= pow(b, e),
    decreases e,
{
    reveal(pow);
    if e > 0 {
        lemma_pow_ordered(a, b, (e - 1) as nat);
        let pa = pow(a, (e - 1) as nat);
        let pb = pow(b, (e - 1) as nat);
        assert(0 <= a * pa <= b * pb) by (nonlinear_arith)
            requires
                0 <= a <= b,
                0 <= pa <= pb,
        ;
    }
}

/// A byte that fits while the next one does not is the brightest.
proof fn lemma_brightest(x: int, k: int, top: int)
    requires
        0 <= x,
        0 <= k <= top,
        k == 0 || byte_fits(k, x),
        forall|j: int| k < j <= top ==> !byte_fits(j, x),
    ensures
        brightest(x, top) == k,
    decreases top,
{
    if top > k {
        lemma_brightest(x, k, top - 1);
    }
}

/// A byte above one that does not fit does not fit either.
proof fn lemma_fits_downward(x: int, k: int, j: int)
    requires
        0 <= x,
        0 <= k <= j,
        !byte_fits(k, x),
    ensures
        !byte_fits(j, x),
{
    lemma_pow_ordered(k, j, 11);
    assert(pow(k, 11) * ONE_FIFTH_POWER <= pow(j, 11) * ONE_FIFTH_POWER) by (nonlinear_arith)
        requires
            pow(k, 11) <= pow(j, 11),
            ONE_FIFTH_POWER > 0,
    ;
}

fn fifth_power(x: u128) -> (p: u128)
    requires
        x <= 65536,
    ensures
        p == pow(x as int, 5),
        p <= ONE_FIFTH_POWER,
{
    proof {
        let b = x as int;
        lemma_pow1(b);
        lemma_pow_adds(b, 1, 1);
        lemma_pow_adds(b, 2, 2);
        lemma_pow_adds(b, 4, 1);
        lemma_pow_ordered(b, 65536, 1);
        lemma_pow_ordered(b, 65536, 2);
        lemma_pow_ordered(b, 65536, 4);
        lemma_pow_ordered(b, 65536, 5);
        lemma_pow_of_one(1);
        lemma_pow_of_one(2);
        lemma_pow_of_one(4);
        lemma_pow_of_one(5);
    }
    let x2: u128 = x * x;
    let x4: u128 = x2 * x2;
    x4 * x
}

proof fn lemma_pow_of_one(e: nat)
    requires
        e == 1 || e == 2 || e == 4 || e == 5,
    ensures
        e == 1 ==> pow(65536, e) == 65536,
        e == 2 ==> pow(65536, e) == 4294967296,
        e == 4 ==> pow(65536, e) == 18446744073709551616,
        e == 5 ==> pow(65536, e) == 1208925819614629174706176,
{
    reveal_with_fuel(pow, 6);
}

proof fn lemma_pow_of_full(e: nat)
    requires
        e == 1 || e == 2 || e == 3 || e == 4 || e == 8 || e == 11,
    ensures
        e == 1 ==> pow(255, e) == 255,
        e == 2 ==> pow(255, e) == 65025,
        e == 3 ==> pow(255, e) == 16581375,
        e == 4 ==> pow(255, e) == 4228250625,
        e == 8 ==> pow(255, e) == 17878103347812890625,
        e == 11 ==> pow(255, e) == 296443535898840969287109375,
{
    reveal_with_fuel(pow, 12);
}

fn eleventh_power(k: u128) -> (p: u128)
    requires
        k <= 255,
    ensures
        p == pow(k as int, 11),
        p <= FULL_ELEVENTH,
{
    proof {
        let b = k as int;
        lemma_pow1(b);
        lemma_pow_adds(b, 1, 1);
        lemma_pow_adds(b, 2, 1);
        lemma_pow_adds(b, 2, 2);
        lemma_pow_adds(b, 4, 4);
        lemma_pow_adds(b, 8, 3);
        lemma_pow_ordered(b, 255, 1);
        lemma_pow_ordered(b, 255, 2);
        lemma_pow_ordered(b, 255, 3);
        lemma_pow_ordered(b, 255, 4);
        lemma_pow_ordered(b, 255, 8);
        lemma_pow_ordered(b, 255, 11);
        lemma_pow_of_full(1);
        lemma_pow_of_full(2);
        lemma_pow_of_full(3);
        lemma_pow_of_full(4);
        lemma_pow_of_full(8);
        lemma_pow_of_full(11);
    }
    let k2: u128 = k * k;
    let k3: u128 = k2 * k;
    let k4: u128 = k2 * k2;
    let k8: u128 = k4 * k4;
    k8 * k3
}

/// Whether the byte `k` fits the fifth power `x5` of an intensity.
fn fits(k: u128, x5: u128) -> (b: bool)
    requires
        k <= 255,
        x5 <= ONE_FIFTH_POWER,
    ensures
        b == (pow(k as int, 11) * ONE_FIFTH_POWER <= FULL_ELEVENTH * x5),
{
    let k11: u128 = eleventh_power(k);
    let high: u128 = x5 / 1099511627776;
    let low: u128 = x5 % 1099511627776;
    let left: u128 = k11 * 1099511627776;
    let right: u128 = FULL_ELEVENTH * high;
    if left <= right {
        true
    } else {
        left - right <= (FULL_ELEVENTH * low) / 1099511627776
    }
}

/// The display encoding of a linear intensity.
pub fn gamma_encode(linear: i64) -> (byte: u8)
    ensures
        byte == gamma_byte(linear as int),
{
    let x: u128 = if linear < 0 {
        0
    } else if linear > ONE {
        ONE as u128
    } else {
        linear as u128
    };
    let x5: u128 = fifth_power(x);
    let mut lo: u128 = 0;
    let mut hi: u128 = 256;
    while hi - lo > 1
        invariant
            0 <= lo < hi <= 256,
            x == clamp(linear as int, 0, ONE as int),
            x5 == pow(x as int, 5),
            x5 <= ONE_FIFTH_POWER,
            lo == 0 || byte_fits(lo as int, x as int),
            hi == 256 || !byte_fits(hi as int, x as int),
        decreases hi - lo,
    {
        let mid: u128 = lo + (hi - lo) / 2;
        if fits(mid, x5) {
            lo = mid;
        } else {
            hi = mid;
        }
    }
    proof {
        assert forall|j: int| lo < j <= 255 implies !byte_fits(j, x as int) by {
            lemma_fits_downward(x as int, hi as int, j);
        }
        lemma_brightest(x as int, lo as int, 255);
    }
    lo as u8
}

impl Color {
    /// The display encoding of the colour: red, green, blue, and full
    /// opacity.
    pub open spec fn encoded(&self) -> (u8, u8, u8, u8) {
        (
            gamma_byte(self.red as int) as u8,
            gamma_byte(self.green as int) as u8,
            gamma_byte(self.blue as int) as u8,
            255u8,
        )
    }

    /// The display encoding of the colour.
    pub fn to_rgba(&self) -> (p: image::Rgba<u8>)
        ensures
            rgba_channels(p) == self.encoded(),
    {
        rgba(gamma_encode(self.red), gamma_encode(self.green), gamma_encode(self.blue), 255)
    }
}

} // verus!
