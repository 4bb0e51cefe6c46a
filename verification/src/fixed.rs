//! Fixed-point scalar arithmetic.
//!
//! Every numeric value handled by the matrix kernel is an `i64` holding the
//! real value scaled by `FX_ONE` (a binary scale of 2^20). Addition and
//! subtraction are exact; multiplication, division and square root truncate
//! the magnitude of the mathematical result toward zero. Every operation
//! checks that its result fits the representable range and reports
//! `ValueOutOfRange` otherwise, so verified callers never overflow silently.

use vstd::prelude::*;
use crate::errors::MatrixError;

verus! {

/// The fixed-point scale: a stored value `v` denotes the real number `v / FX_ONE`.
pub const FX_ONE: i64 = 1048576;

/// Absolute value of a mathematical integer.
pub open spec fn abs_i(x: int) -> int {
    if x >= 0 { x } else { -x }
}

/// Whether a mathematical integer fits the stored scalar range.
pub open spec fn fits_i64(x: int) -> bool {
    i64::MIN <= x <= i64::MAX
}

/// A magnitude with a sign applied.
pub open spec fn neg_mag(neg: bool, m: int) -> int {
    if neg { -m } else { m }
}

/// Division of `p` by a positive `d`, truncating toward zero.
pub open spec fn tdiv(p: int, d: int) -> int {
    if p >= 0 { p / d } else { -((-p) / d) }
}

/// The value of a fixed-point product: the integer product rescaled,
/// truncated toward zero.
pub open spec fn fx_mul_v(a: int, b: int) -> int {
    tdiv(a * b, FX_ONE as int)
}

/// The value of a fixed-point quotient: the scaled numerator divided by the
/// denominator, with magnitudes divided exactly and the sign reapplied.
pub open spec fn fx_div_v(a: int, b: int) -> int {
    neg_mag((a < 0) != (b < 0), (abs_i(a) * FX_ONE) / abs_i(b))
}

/// The integer square root, rounded down. Defined by halving the argument's
/// binary digits: `sqrt_floor(x)` is derived from `sqrt_floor(x / 4)`.
pub open spec fn sqrt_floor(x: int) -> int
    decreases x,
{
    if x < 1 {
        0
    } else {
        let r = 2 * sqrt_floor(x / 4);
        if (r + 1) * (r + 1) <= x { r + 1 } else { r }
    }
}

/// The value of a fixed-point square root of a non-negative scalar.
pub open spec fn fx_sqrt_v(a: int) -> int {
    sqrt_floor(a * FX_ONE)
}

/// `sqrt_floor` is the greatest integer whose square does not exceed its
/// argument.
pub proof fn lemma_sqrt_floor(x: int)
    requires
        x >= 0,
    ensures
        sqrt_floor(x) >= 0,
        sqrt_floor(x) * sqrt_floor(x) <= x,
        x < (sqrt_floor(x) + 1) * (sqrt_floor(x) + 1),
    decreases x,
{
    if x < 1 {
    } else {
        lemma_sqrt_floor(x / 4);
        let s = sqrt_floor(x / 4);
        let r = 2 * s;
        vstd::arithmetic::div_mod::lemma_fundamental_div_mod(x, 4);
        assert(4 * (x / 4) <= x && x <= 4 * (x / 4) + 3);
        assert(r * r <= x) by (nonlinear_arith)
            requires s * s <= x / 4 && r == 2 * s && 4 * (x / 4) <= x
        {}
        assert(x < (r + 2) * (r + 2)) by (nonlinear_arith)
            requires x / 4 < (s + 1) * (s + 1) && r == 2 * s && x <= 4 * (x / 4) + 3
        {}
        if (r + 1) * (r + 1) <= x {
            assert(sqrt_floor(x) == r + 1);
        } else {
            assert(sqrt_floor(x) == r);
        }
    }
}

/// Two integers whose squares bracket `x` the same way are equal.
pub proof fn lemma_sqrt_unique(x: int, p: int, q: int)
    requires
        p >= 0,
        q >= 0,
        p * p <= x,
        x < (p + 1) * (p + 1),
        q * q <= x,
        x < (q + 1) * (q + 1),
    ensures
        p == q,
{
    assert(p == q) by (nonlinear_arith)
        requires
            p >= 0,
            q >= 0,
            p * p <= x,
            x < (p + 1) * (p + 1),
            q * q <= x,
            x < (q + 1) * (q + 1),
    {}
}

/// Checked fixed-point addition (exact when it fits).
pub fn fx_add(a: i64, b: i64) -> (r: Result<i64, MatrixError>)
    ensures
        match r {
            Ok(v) => fits_i64(a + b) && v == a + b,
            Err(e) => !fits_i64(a + b) && e == MatrixError::ValueOutOfRange,
        },
{
    let s: i128 = a as i128 + b as i128;
    if s > i64::MAX as i128 || s < i64::MIN as i128 {
        Err(MatrixError::ValueOutOfRange)
    } else {
        Ok(s as i64)
    }
}

/// Checked fixed-point subtraction (exact when it fits).
pub fn fx_sub(a: i64, b: i64) -> (r: Result<i64, MatrixError>)
    ensures
        match r {
            Ok(v) => fits_i64(a - b) && v == a - b,
            Err(e) => !fits_i64(a - b) && e == MatrixError::ValueOutOfRange,
        },
{
    let s: i128 = a as i128 - b as i128;
    if s > i64::MAX as i128 || s < i64::MIN as i128 {
        Err(MatrixError::ValueOutOfRange)
    } else {
        Ok(s as i64)
    }
}

/// Checked fixed-point multiplication: rescales the double-width product,
/// truncating its magnitude.
pub fn fx_mul(a: i64, b: i64) -> (r: Result<i64, MatrixError>)
    ensures
        match r {
            Ok(v) => fits_i64(fx_mul_v(a as int, b as int)) && v == fx_mul_v(a as int, b as int),
            Err(e) => !fits_i64(fx_mul_v(a as int, b as int)) && e == MatrixError::ValueOutOfRange,
        },
{
    proof {
        assert(-0x40000000000000000000000000000000 <= (a as int) * (b as int)
            <= 0x40000000000000000000000000000000) by (nonlinear_arith)
            requires
                i64::MIN <= a as int <= i64::MAX,
                i64::MIN <= b as int <= i64::MAX,
        {}
    }
    let p: i128 = (a as i128) * (b as i128);
    if p >= 0 {
        let q: u128 = (p as u128) / (FX_ONE as u128);
        if q > i64::MAX as u128 {
            Err(MatrixError::ValueOutOfRange)
        } else {
            Ok(q as i64)
        }
    } else {
        let q: u128 = ((-p) as u128) / (FX_ONE as u128);
        if q > (i64::MAX as u128) + 1 {
            Err(MatrixError::ValueOutOfRange)
        } else {
            Ok((-(q as i128)) as i64)
        }
    }
}

/// Checked fixed-point division: divides scaled magnitudes exactly and
/// reapplies the sign.
pub fn fx_div(a: i64, b: i64) -> (r: Result<i64, MatrixError>)
    requires
        b != 0,
    ensures
        match r {
            Ok(v) => fits_i64(fx_div_v(a as int, b as int)) && v == fx_div_v(a as int, b as int),
            Err(e) => !fits_i64(fx_div_v(a as int, b as int)) && e == MatrixError::ValueOutOfRange,
        },
{
    let neg: bool = (a < 0) != (b < 0);
    let ma: u128 = if a < 0 { (-(a as i128)) as u128 } else { a as u128 };
    let mb: u128 = if b < 0 { (-(b as i128)) as u128 } else { b as u128 };
    let q: u128 = (ma * (FX_ONE as u128)) / mb;
    if neg {
        if q > (i64::MAX as u128) + 1 {
            Err(MatrixError::ValueOutOfRange)
        } else {
            Ok((-(q as i128)) as i64)
        }
    } else {
        if q > i64::MAX as u128 {
            Err(MatrixError::ValueOutOfRange)
        } else {
            Ok(q as i64)
        }
    }
}

/// Integer square root over the double-width range used by `fx_sqrt`.
fn isqrt_u128(x: u128) -> (r: u128)
    requires
        x < 0x1000000000000000000000u128,
    ensures
        r == sqrt_floor(x as int),
{
    proof {
        lemma_sqrt_floor(x as int);
    }
    let mut lo: u128 = 0;
    let mut hi: u128 = 0x40000000000u128;
    assert(x < hi * hi) by (nonlinear_arith)
        requires x < 0x1000000000000000000000u128 && hi == 0x40000000000u128
    {}
    while lo + 1 < hi
        invariant
            lo < hi <= 0x40000000000u128,
            lo * lo <= x,
            x < hi * hi,
        decreases hi - lo,
    {
        let mid: u128 = lo + (hi - lo) / 2;
        proof {
            assert((mid as int) * (mid as int) <= 0x40000000000 * 0x40000000000)
                by (nonlinear_arith)
                requires 0 <= mid as int <= 0x40000000000
            {}
        }
        if mid * mid <= x {
            lo = mid;
        } else {
            hi = mid;
        }
    }
    proof {
        assert(hi == lo + 1);
        lemma_sqrt_unique(x as int, lo as int, sqrt_floor(x as int));
    }
    lo
}

/// Checked fixed-point square root of a non-negative scalar. The result of
/// `sqrt` never exceeds the representable range, so no error can arise.
pub fn fx_sqrt(a: i64) -> (r: i64)
    requires
        a >= 0,
    ensures
        r == fx_sqrt_v(a as int),
        r >= 0,
{
    proof {
        assert((a as int) * (FX_ONE as int) < 0x1000000000000000000000) by (nonlinear_arith)
            requires 0 <= a as int <= i64::MAX as int && FX_ONE == 1048576
        {}
    }
    let x: u128 = (a as u128) * (FX_ONE as u128);
    let r: u128 = isqrt_u128(x);
    proof {
        lemma_sqrt_floor(x as int);
        assert(r <= i64::MAX as u128) by (nonlinear_arith)
            requires
                r as int * (r as int) <= x as int,
                x < 0x1000000000000000000000u128,
                r >= 0,
        {}
    }
    r as i64
}

} // verus!
