//! Exact non-negative fractions, used for tempos (milliseconds per syllable)
//! and for text similarity.
use vstd::prelude::*;

verus! {

/// Bound on the numerator and denominator of a [`Ratio`], so that products
/// with millisecond values stay far inside `i128`.
pub const RATIO_LIMIT: i64 = 0x100_0000_0000_0000;

/// The fraction `num / den`.
#[derive(Clone, Copy, Debug, PartialEq, Eq, Structural)]
pub struct Ratio {
    pub num: i64,
    pub den: i64,
}

impl Ratio {
    /// A fraction with `0 <= num <= RATIO_LIMIT` and `0 < den <= RATIO_LIMIT`.
    pub open spec fn wf(self) -> bool {
        0 <= self.num <= RATIO_LIMIT && 0 < self.den <= RATIO_LIMIT
    }

    /// `self < other` as fractions.
    pub open spec fn lt(self, other: Ratio) -> bool {
        self.num * other.den < other.num * self.den
    }

    pub fn new(num: i64, den: i64) -> (r: Ratio)
        requires
            0 <= num <= RATIO_LIMIT,
            0 < den <= RATIO_LIMIT,
        ensures
            r.num == num,
            r.den == den,
            r.wf(),
    {
        Ratio { num, den }
    }

    pub fn whole(n: i64) -> (r: Ratio)
        requires
            0 <= n <= RATIO_LIMIT,
        ensures
            r.num == n,
            r.den == 1,
            r.wf(),
    {
        Ratio { num: n, den: 1 }
    }

    /// `self < other`.
    pub fn lt_exec(&self, other: &Ratio) -> (r: bool)
        requires
            self.wf(),
            other.wf(),
        ensures
            r == self.lt(*other),
    {
        proof {
            lemma_prod_bound(self.num as int, other.den as int, RATIO_LIMIT as int, RATIO_LIMIT as int);
            lemma_prod_bound(other.num as int, self.den as int, RATIO_LIMIT as int, RATIO_LIMIT as int);
        }
        (self.num as i128) * (other.den as i128) < (other.num as i128) * (self.den as i128)
    }
}

/// `0 <= a * b <= la * lb` for `0 <= a <= la` and `0 <= b <= lb`.
pub proof fn lemma_prod_bound(a: int, b: int, la: int, lb: int)
    by (nonlinear_arith)
    requires
        0 <= a <= la,
        0 <= b <= lb,
    ensures
        0 <= a * b <= la * lb,
{
}

/// Division that rounds toward zero, as a float-to-integer cast of the
/// quotient does.
pub open spec fn trunc_div(a: int, b: int) -> int
    recommends
        b > 0,
{
    if a >= 0 {
        a / b
    } else {
        -((-a) / b)
    }
}

/// The nearest `i32` to `x`: what a saturating cast gives.
pub open spec fn sat_i32(x: int) -> i32 {
    if x > i32::MAX {
        i32::MAX
    } else if x < i32::MIN {
        i32::MIN
    } else {
        x as i32
    }
}

pub fn trunc_div_exec(a: i128, b: i128) -> (r: i128)
    requires
        b > 0,
        a > i128::MIN,
    ensures
        r == trunc_div(a as int, b as int),
{
    if a >= 0 {
        a / b
    } else {
        -((-a) / b)
    }
}

pub fn sat_i32_exec(x: i128) -> (r: i32)
    ensures
        r == sat_i32(x as int),
{
    if x > 0x7FFF_FFFF {
        0x7FFF_FFFF
    } else if x < -0x8000_0000 {
        -0x8000_0000
    } else {
        x as i32
    }
}

/// `trunc(value * pct / 100)` saturated to `i32`: a weight or duration
/// scaled by a percentage.
pub open spec fn scale_pct(value: int, pct: int) -> i32 {
    sat_i32(trunc_div(value * pct, 100))
}

pub fn scale_pct_exec(value: i64, pct: i64) -> (r: i32)
    requires
        0 <= pct <= 1000,
    ensures
        r == scale_pct(value as int, pct as int),
{
    assert(-0x8000_0000_0000_0000 * 1000 <= (value as int) * (pct as int) <= 0x7FFF_FFFF_FFFF_FFFF
        * 1000) by (nonlinear_arith)
        requires
            i64::MIN <= value <= i64::MAX,
            0 <= pct <= 1000,
    ;
    let p: i128 = (value as i128) * (pct as i128);
    let q = trunc_div_exec(p, 100);
    sat_i32_exec(q)
}

} // verus!
