//! Fixed-point scalars.
//!
//! Every scalar that the index works with is a rational of the form
//! `raw / 65536` with `raw` an `i64`.  All arithmetic on these scalars is
//! exact integer arithmetic (intermediate results are widened to 128 bits),
//! so every operation has a complete specification.

use vstd::prelude::*;

verus! {

/// Denominator of a fixed-point scalar: a `Fx` with raw value `r` stands
/// for the rational `r / 65536`.
pub const FX_ONE: i64 = 65536;

/// A fixed-point rational scalar; the value is `raw / 65536`.
#[derive(Clone, Copy, PartialEq, Eq, Structural, Hash, Debug)]
pub struct Fx {
    pub raw: i64,
}

impl Fx {
    /// The scalar zero.
    pub fn zero() -> (r: Fx)
        ensures
            r.raw == 0,
    {
        Fx { raw: 0 }
    }

    /// The scalar with the given raw numerator.
    pub fn from_raw(raw: i64) -> (r: Fx)
        ensures
            r.raw == raw,
    {
        Fx { raw }
    }

    /// The integer `n` as a scalar.
    pub fn from_int(n: i64) -> (r: Fx)
        requires
            -140737488355328 <= n < 140737488355328,
        ensures
            r.raw == n * 65536,
    {
        Fx { raw: n * 65536 }
    }

    /// The rational `num / den`, rounded toward minus infinity to the nearest
    /// representable scalar.
    pub fn from_ratio(num: i64, den: i64) -> (r: Fx)
        requires
            den > 0,
            -140737488355328 <= num < 140737488355328,
        ensures
            r.raw == (num * 65536) as int / den as int,
    {
        let wide: i128 = (num as i128) * 65536;
        let q = floor_div_i128(wide, den as i128);
        proof {
            lemma_div_shrinks_magnitude(wide as int, den as int);
        }
        Fx { raw: q as i64 }
    }
}

/// Floor of `a / b`: the unique `q` with `q * b <= a < (q + 1) * b`.
pub fn floor_div_i128(a: i128, b: i128) -> (r: i128)
    requires
        b > 0,
        a > i128::MIN,
    ensures
        r == a as int / b as int,
{
    if a >= 0 {
        let q = (a as u128) / (b as u128);
        proof {
            lemma_div_shrinks_magnitude(a as int, b as int);
        }
        q as i128
    } else {
        let m = (-a) as u128;
        let bu = b as u128;
        let q = m / bu;
        let rem = m % bu;
        proof {
            lemma_div_shrinks_magnitude(m as int, b as int);
            lemma_neg_div(m as int, b as int);
        }
        if rem == 0 {
            -(q as i128)
        } else {
            -(q as i128) - 1
        }
    }
}

/// Division of a negative dividend expressed through the magnitude:
/// with `m > 0` and `b > 0`, `(-m) / b` is `-(m / b)` when `b` divides `m`
/// and `-(m / b) - 1` otherwise.
proof fn lemma_neg_div(m: int, b: int)
    requires
        m >= 0,
        b > 0,
    ensures
        m % b == 0 ==> (-m) / b == -(m / b),
        m % b != 0 ==> (-m) / b == -(m / b) - 1,
{
    let q = m / b;
    let r = m % b;
    assert(m == q * b + r && 0 <= r < b) by (nonlinear_arith)
        requires
            m >= 0,
            b > 0,
            q == m / b,
            r == m % b,
    ;
    if r == 0 {
        assert((-m) == (-q) * b + 0) by (nonlinear_arith)
            requires
                m == q * b,
        ;
        assert((-m) / b == -q) by (nonlinear_arith)
            requires
                b > 0,
                (-m) == (-q) * b,
        ;
    } else {
        assert((-m) == (-q - 1) * b + (b - r)) by (nonlinear_arith)
            requires
                m == q * b + r,
        ;
        assert((-m) / b == -q - 1) by (nonlinear_arith)
            requires
                b > 0,
                0 < b - r < b,
                (-m) == (-q - 1) * b + (b - r),
        ;
    }
}

/// Multiplying by a factor of at most one (raw at most `65536`) cannot
/// grow a scalar's magnitude.
pub proof fn lemma_mul_shrinks_magnitude(d: int, u: int)
    requires
        0 <= u <= 65536,
    ensures
        d >= 0 ==> 0 <= fx_mul_raw(d, u) <= d,
        d < 0 ==> d <= fx_mul_raw(d, u) <= 0,
{
    assert(d >= 0 ==> 0 <= (d * u) / 65536 <= d) by (nonlinear_arith)
        requires
            0 <= u <= 65536,
    ;
    assert(d < 0 ==> d <= (d * u) / 65536 <= 0) by (nonlinear_arith)
        requires
            0 <= u <= 65536,
    ;
}

/// The magnitude of a floor quotient is at most the magnitude of the
/// dividend, for divisors of at least one.
pub proof fn lemma_div_shrinks_magnitude(a: int, b: int)
    requires
        b >= 1,
    ensures
        a >= 0 ==> 0 <= a / b <= a,
        a < 0 ==> a <= a / b <= 0,
{
    assert(a >= 0 ==> 0 <= a / b <= a) by (nonlinear_arith)
        requires
            b >= 1,
    ;
    assert(a < 0 ==> a <= a / b <= 0) by (nonlinear_arith)
        requires
            b >= 1,
    ;
}

/// Exact sum of two scalars.
pub fn fx_add(a: Fx, b: Fx) -> (r: Fx)
    requires
        i64::MIN <= a.raw + b.raw <= i64::MAX,
    ensures
        r.raw == a.raw + b.raw,
{
    Fx { raw: a.raw + b.raw }
}

/// Exact difference of two scalars.
pub fn fx_sub(a: Fx, b: Fx) -> (r: Fx)
    requires
        i64::MIN <= a.raw - b.raw <= i64::MAX,
    ensures
        r.raw == a.raw - b.raw,
{
    Fx { raw: a.raw - b.raw }
}

/// Raw value of the product of two scalars, as an unbounded integer:
/// the floor of `a * b / 65536`.
pub open spec fn fx_mul_raw(a: int, b: int) -> int {
    (a * b) / 65536
}

/// Product of two scalars, rounded toward minus infinity.
pub fn fx_mul(a: Fx, b: Fx) -> (r: Fx)
    requires
        i64::MIN <= fx_mul_raw(a.raw as int, b.raw as int) <= i64::MAX,
    ensures
        r.raw == fx_mul_raw(a.raw as int, b.raw as int),
{
    proof {
        assert((a.raw as int) * (b.raw as int) < i128::MAX && (a.raw as int) * (b.raw as int)
            > i128::MIN) by (nonlinear_arith)
            requires
                i64::MIN <= a.raw <= i64::MAX,
                i64::MIN <= b.raw <= i64::MAX,
        ;
    }
    let wide: i128 = (a.raw as i128) * (b.raw as i128);
    let q = floor_div_i128(wide, 65536);
    Fx { raw: q as i64 }
}

/// Raw value of the quotient of two scalars with a positive divisor:
/// the floor of `a * 65536 / b`.
pub open spec fn fx_div_raw(a: int, b: int) -> int {
    (a * 65536) / b
}

/// Quotient of two scalars, rounded toward minus infinity.
/// The divisor must be positive.
pub fn fx_div(a: Fx, b: Fx) -> (r: Fx)
    requires
        b.raw > 0,
        i64::MIN <= fx_div_raw(a.raw as int, b.raw as int) <= i64::MAX,
    ensures
        r.raw == fx_div_raw(a.raw as int, b.raw as int),
{
    let wide: i128 = (a.raw as i128) * 65536;
    let q = floor_div_i128(wide, b.raw as i128);
    Fx { raw: q as i64 }
}

/// Quotient of two scalars with a positive divisor, rounded toward minus
/// infinity; fails with [`crate::error::Error::HashOverflow`] exactly when
/// the result does not fit a scalar.
pub fn fx_div_checked(a: Fx, b: Fx) -> (r: Result<Fx, crate::error::Error>)
    requires
        b.raw > 0,
    ensures
        match r {
            Ok(q) => q.raw == fx_div_raw(a.raw as int, b.raw as int),
            Err(e) => e == crate::error::Error::HashOverflow && !(i64::MIN <= fx_div_raw(
                a.raw as int,
                b.raw as int,
            ) <= i64::MAX),
        },
{
    let wide: i128 = (a.raw as i128) * 65536;
    let q = floor_div_i128(wide, b.raw as i128);
    if q < -0x8000_0000_0000_0000i128 || q > 0x7fff_ffff_ffff_ffffi128 {
        Err(crate::error::Error::HashOverflow)
    } else {
        Ok(Fx { raw: q as i64 })
    }
}

/// Product of two scalars, rounded toward minus infinity; fails with
/// [`crate::error::Error::HashOverflow`] exactly when the result does not
/// fit a scalar.
pub fn fx_mul_checked(a: Fx, b: Fx) -> (r: Result<Fx, crate::error::Error>)
    ensures
        match r {
            Ok(q) => q.raw == fx_mul_raw(a.raw as int, b.raw as int),
            Err(e) => e == crate::error::Error::HashOverflow && !(i64::MIN <= fx_mul_raw(
                a.raw as int,
                b.raw as int,
            ) <= i64::MAX),
        },
{
    proof {
        assert((a.raw as int) * (b.raw as int) < i128::MAX && (a.raw as int) * (b.raw as int)
            > i128::MIN) by (nonlinear_arith)
            requires
                i64::MIN <= a.raw <= i64::MAX,
                i64::MIN <= b.raw <= i64::MAX,
        ;
    }
    let wide: i128 = (a.raw as i128) * (b.raw as i128);
    let q = floor_div_i128(wide, 65536);
    if q < -0x8000_0000_0000_0000i128 || q > 0x7fff_ffff_ffff_ffffi128 {
        Err(crate::error::Error::HashOverflow)
    } else {
        Ok(Fx { raw: q as i64 })
    }
}

/// Floor of a scalar as an integer.
pub fn fx_floor(a: Fx) -> (r: i64)
    ensures
        r == a.raw as int / 65536,
{
    let q = floor_div_i128(a.raw as i128, 65536);
    proof {
        lemma_div_shrinks_magnitude(a.raw as int, 65536);
    }
    q as i64
}

/// Integer square root: the unique `r` with `r * r <= s < (r + 1) * (r + 1)`.
pub fn isqrt_u128(s: u128) -> (r: u128)
    ensures
        r * r <= s,
        s < (r + 1) * (r + 1),
{
    let mut lo: u128 = 0;
    // An upper bound with hi * hi > s: 2^64 works for every u128.
    let mut hi: u128 = 0x1_0000_0000_0000_0000;
    proof {
        assert(hi * hi > s) by (nonlinear_arith)
            requires
                hi == 0x1_0000_0000_0000_0000u128,
                s <= u128::MAX,
        ;
    }
    while lo + 1 < hi
        invariant
            lo < hi,
            lo * lo <= s,
            s < hi * hi,
            hi <= 0x1_0000_0000_0000_0000,
        decreases hi - lo,
    {
        let mid = lo + (hi - lo) / 2;
        proof {
            assert(mid * mid <= u128::MAX) by (nonlinear_arith)
                requires
                    mid < 0x1_0000_0000_0000_0000u128,
            ;
        }
        let sq = mid * mid;
        if sq <= s {
            lo = mid;
        } else {
            hi = mid;
        }
    }
    lo
}

/// Square root of a nonnegative scalar, rounded toward zero: the result's
/// raw value is the integer square root of `a.raw * 65536`.
pub fn fx_sqrt(a: Fx) -> (r: Fx)
    requires
        a.raw >= 0,
    ensures
        r.raw >= 0,
        r.raw * r.raw <= a.raw * 65536,
        a.raw * 65536 < (r.raw + 1) * (r.raw + 1),
{
    let wide: u128 = (a.raw as u128) * 65536;
    let root = isqrt_u128(wide);
    proof {
        assert(root < 0x100_0000_0000u128) by (nonlinear_arith)
            requires
                wide < 0x10000_0000_0000_0000_0000u128,
                root * root <= wide,
        ;
    }
    Fx { raw: root as i64 }
}

} // verus!
