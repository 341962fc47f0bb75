use vstd::prelude::*;
use vstd::arithmetic::div_mod::lemma_fundamental_div_mod;
use vstd::arithmetic::div_mod::lemma_mod_division_less_than_divisor;
use vstd::arithmetic::div_mod::lemma_div_pos_is_pos;
use vstd::arithmetic::div_mod::lemma_div_is_ordered;
use vstd::arithmetic::div_mod::lemma_div_by_multiple;
use vstd::arithmetic::div_mod::lemma_div_multiples_vanish;
use vstd::arithmetic::div_mod::lemma_div_nonincreasing;

verus! {

/// Number of raw steps per unit value: every scalar is a count of 1/65536ths.
pub const SCALE: i64 = 65536;

/// Truncating (round-toward-zero) division for a positive divisor; this is
/// the rounding used by every fixed-point operation in this crate.
pub open spec fn tdiv(a: int, b: int) -> int
    recommends
        b > 0,
{
    if a >= 0 {
        a / b
    } else {
        -((-a) / b)
    }
}

/// The integer square root, rounded down: the largest `r >= 0` with
/// `r * r <= x` (and 0 for negative arguments).
pub open spec fn isqrt(x: int) -> int
    decreases x,
{
    if x <= 0 {
        0
    } else {
        let r = isqrt(x - 1);
        if (r + 1) * (r + 1) <= x {
            r + 1
        } else {
            r
        }
    }
}

/// `isqrt(x)` is characterized by `isqrt(x)^2 <= x < (isqrt(x)+1)^2`.
pub proof fn lemma_isqrt(x: int)
    requires
        0 <= x,
    ensures
        0 <= isqrt(x),
        isqrt(x) * isqrt(x) <= x,
        x < (isqrt(x) + 1) * (isqrt(x) + 1),
    decreases x,
{
    if x > 0 {
        lemma_isqrt(x - 1);
        let r = isqrt(x - 1);
        if (r + 1) * (r + 1) <= x {
            assert((r + 1) * (r + 1) < (r + 2) * (r + 2)) by (nonlinear_arith)
                requires 0 <= r;
        }
    }
}

/// The integer square root never exceeds its argument.
pub proof fn lemma_isqrt_le(x: int)
    requires
        0 <= x,
    ensures
        0 <= isqrt(x) <= x,
{
    lemma_isqrt(x);
    assert(isqrt(x) <= x) by (nonlinear_arith)
        requires
            0 <= isqrt(x),
            isqrt(x) * isqrt(x) <= x;
}

/// Any `s` in the characteristic window of `x` is `isqrt(x)`.
pub proof fn lemma_isqrt_unique(x: int, s: int)
    requires
        0 <= x,
        0 <= s,
        s * s <= x,
        x < (s + 1) * (s + 1),
    ensures
        s == isqrt(x),
{
    lemma_isqrt(x);
    let i = isqrt(x);
    if s < i {
        assert((s + 1) * (s + 1) <= i * i) by (nonlinear_arith)
            requires 0 <= s, s + 1 <= i;
        assert(false);
    }
    if i < s {
        assert((i + 1) * (i + 1) <= s * s) by (nonlinear_arith)
            requires 0 <= i, i + 1 <= s;
        assert(false);
    }
}

/// The magnitude of a product is bounded by the product of the magnitudes.
pub proof fn lemma_mul_bound(a: int, b: int, ma: int, mb: int)
    by (nonlinear_arith)
    requires
        -ma <= a <= ma,
        -mb <= b <= mb,
    ensures
        -(ma * mb) <= a * b <= ma * mb,
{
}

/// Truncating division stays within `[-h, h]` when the numerator is within
/// `[-h*b, h*b]`.
pub proof fn lemma_tdiv_bound(a: int, b: int, h: int)
    requires
        0 < b,
        0 <= h,
        -(h * b) <= a <= h * b,
    ensures
        -h <= tdiv(a, b) <= h,
{
    if a >= 0 {
        lemma_div_pos_is_pos(a, b);
        lemma_div_is_ordered(a, h * b, b);
        lemma_div_by_multiple(h, b);
    } else {
        lemma_div_pos_is_pos(-a, b);
        lemma_div_is_ordered(-a, h * b, b);
        lemma_div_by_multiple(h, b);
    }
}

/// Multiplying a truncated quotient back never overshoots the numerator:
/// `tdiv(a, b) * b` lies between 0 and `a`.
pub proof fn lemma_tdiv_mul_le(a: int, b: int)
    requires
        0 < b,
    ensures
        a >= 0 ==> 0 <= tdiv(a, b) * b <= a,
        a < 0 ==> a <= tdiv(a, b) * b <= 0,
{
    if a >= 0 {
        lemma_div_pos_is_pos(a, b);
        lemma_fundamental_div_mod(a, b);
        lemma_mod_division_less_than_divisor(a, b);
        assert(b * (a / b) == (a / b) * b) by (nonlinear_arith);
        assert(0 <= (a / b) * b) by (nonlinear_arith)
            requires 0 <= a / b, 0 < b;
    } else {
        lemma_div_pos_is_pos(-a, b);
        lemma_fundamental_div_mod(-a, b);
        lemma_mod_division_less_than_divisor(-a, b);
        assert(b * ((-a) / b) == ((-a) / b) * b) by (nonlinear_arith);
        assert(0 <= ((-a) / b) * b) by (nonlinear_arith)
            requires 0 <= (-a) / b, 0 < b;
        assert((-((-a) / b)) * b == -(((-a) / b) * b)) by (nonlinear_arith);
    }
}

/// When `b` divides `a` exactly, truncating division is exact.
pub proof fn lemma_tdiv_exact(a: int, b: int)
    requires
        0 < b,
        a % b == 0,
    ensures
        tdiv(a, b) * b == a,
{
    lemma_fundamental_div_mod(a, b);
    let q = a / b;
    if a >= 0 {
        assert(b * q == q * b) by (nonlinear_arith);
    } else {
        assert(a == b * q);
        assert(-a == b * (-q)) by (nonlinear_arith)
            requires a == b * q;
        lemma_div_multiples_vanish(-q, b);
        assert((-a) / b == -q);
        assert(tdiv(a, b) == q);
        assert(q * b == b * q) by (nonlinear_arith);
    }
}

/// The square of a truncated quotient, scaled back by `b^2`, never exceeds
/// the square of the numerator.
pub proof fn lemma_tdiv_sq(a: int, b: int)
    requires
        0 < b,
    ensures
        tdiv(a, b) * tdiv(a, b) * (b * b) <= a * a,
{
    lemma_tdiv_mul_le(a, b);
    let t = tdiv(a, b);
    assert(t * t * (b * b) <= a * a) by (nonlinear_arith)
        requires
            a >= 0 ==> 0 <= t * b <= a,
            a < 0 ==> a <= t * b <= 0;
}

/// A signed fixed-point scalar; `raw` counts steps of 1/65536, so the value
/// represented is `raw / 65536`.
#[derive(Clone, Copy, PartialEq, Eq, Structural, Debug)]
pub struct Fixed {
    pub raw: i64,
}

impl View for Fixed {
    type V = int;

    open spec fn view(&self) -> int {
        self.raw as int
    }
}

impl Fixed {
    pub fn from_raw(raw: i64) -> (r: Fixed)
        ensures
            r@ == raw,
    {
        Fixed { raw }
    }

    pub fn zero() -> (r: Fixed)
        ensures
            r@ == 0,
    {
        Fixed { raw: 0 }
    }

    pub fn one() -> (r: Fixed)
        ensures
            r@ == SCALE,
    {
        Fixed { raw: SCALE }
    }

    /// The fixed-point scalar of value exactly `n`.
    pub fn from_int(n: i64) -> (r: Fixed)
        requires
            i64::MIN <= n * SCALE <= i64::MAX,
        ensures
            r@ == n * SCALE,
    {
        Fixed { raw: n * SCALE }
    }

    pub fn add(self, o: Fixed) -> (r: Fixed)
        requires
            i64::MIN <= self@ + o@ <= i64::MAX,
        ensures
            r@ == self@ + o@,
    {
        Fixed { raw: self.raw + o.raw }
    }

    pub fn sub(self, o: Fixed) -> (r: Fixed)
        requires
            i64::MIN <= self@ - o@ <= i64::MAX,
        ensures
            r@ == self@ - o@,
    {
        Fixed { raw: self.raw - o.raw }
    }

    pub fn neg(self) -> (r: Fixed)
        requires
            self@ != i64::MIN,
        ensures
            r@ == -self@,
    {
        Fixed { raw: -self.raw }
    }

    /// Fixed-point product, truncated toward zero.
    pub fn mul(self, o: Fixed) -> (r: Fixed)
        requires
            -(i64::MAX * SCALE) <= self@ * o@ <= i64::MAX * SCALE,
        ensures
            r@ == tdiv(self@ * o@, SCALE as int),
    {
        proof {
            lemma_mul_bound(self@, o@, 0x8000_0000_0000_0000, 0x8000_0000_0000_0000);
            lemma_tdiv_bound(self@ * o@, SCALE as int, i64::MAX as int);
        }
        let p: i128 = (self.raw as i128) * (o.raw as i128);
        let q: i128 = div_trunc(p, 65536);
        Fixed { raw: q as i64 }
    }

    /// Fixed-point quotient for a positive divisor, truncated toward zero.
    pub fn div(self, o: Fixed) -> (r: Fixed)
        requires
            o@ > 0,
            -i64::MAX <= tdiv(self@ * SCALE, o@) <= i64::MAX,
        ensures
            r@ == tdiv(self@ * SCALE, o@),
    {
        let num: i128 = (self.raw as i128) * 65536;
        let q: i128 = div_trunc(num, o.raw as i128);
        Fixed { raw: q as i64 }
    }

    /// Fixed-point square root, rounded down to the nearest raw step.
    pub fn sqrt(self) -> (r: Fixed)
        requires
            0 <= self@,
        ensures
            r@ == isqrt(self@ * SCALE),
            0 <= r@,
    {
        let x: u128 = (self.raw as u128) * 65536;
        let root: u128 = isqrt_u128(x);
        proof {
            lemma_isqrt_unique(x as int, root as int);
            assert(root < 1099511627776) by (nonlinear_arith)
                requires
                    (root as int) * (root as int) <= x as int,
                    x < 1208925819614629174706176,
                    0 <= root as int;
        }
        Fixed { raw: root as i64 }
    }

    pub fn lt(self, o: Fixed) -> (r: bool)
        ensures
            r == (self@ < o@),
    {
        self.raw < o.raw
    }

    pub fn le(self, o: Fixed) -> (r: bool)
        ensures
            r == (self@ <= o@),
    {
        self.raw <= o.raw
    }

    pub fn gt(self, o: Fixed) -> (r: bool)
        ensures
            r == (self@ > o@),
    {
        self.raw > o.raw
    }
}

/// Truncating (round-toward-zero) signed division for a positive divisor.
pub(crate) fn div_trunc(a: i128, b: i128) -> (r: i128)
    requires
        b > 0,
        a > i128::MIN,
    ensures
        r == tdiv(a as int, b as int),
{
    if a >= 0 {
        let q: u128 = (a as u128) / (b as u128);
        proof {
            lemma_div_pos_is_pos(a as int, b as int);
            lemma_div_nonincreasing(a as int, b as int);
        }
        q as i128
    } else {
        let m: u128 = ((-a) as u128) / (b as u128);
        proof {
            lemma_div_pos_is_pos(-(a as int), b as int);
            lemma_div_nonincreasing(-(a as int), b as int);
        }
        -(m as i128)
    }
}

/// Integer square root of arguments below 2^80, by bisection.
fn isqrt_u128(x: u128) -> (r: u128)
    requires
        x < 1208925819614629174706176,
    ensures
        (r as int) * (r as int) <= x as int,
        (x as int) < (r + 1) * (r + 1),
{
    let mut lo: u128 = 0;
    let mut hi: u128 = 1099511627776;
    while hi - lo > 1
        invariant
            lo < hi,
            hi <= 1099511627776,
            (lo as int) * (lo as int) <= x as int,
            (x as int) < (hi as int) * (hi as int),
        decreases hi - lo,
    {
        let mid: u128 = lo + (hi - lo) / 2;
        proof {
            lemma_mul_bound(mid as int, mid as int, 1099511627776, 1099511627776);
        }
        let sq: u128 = mid * mid;
        if sq <= x {
            lo = mid;
        } else {
            hi = mid;
        }
    }
    lo
}

} // verus!
