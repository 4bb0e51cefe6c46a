//! One-dimensional Gaussian fusion on fixed-point scalars: the measurement
//! update and the motion prediction of a scalar Kalman filter.

use vstd::prelude::*;
use crate::errors::MatrixError;
use crate::fixed::{fits_i64, fx_add, fx_div, fx_div_v, fx_mul, fx_mul_v, FX_ONE};

verus! {

/// The fused mean `(var2·mean1 + var1·mean2) / (var1 + var2)`, computed as
/// the rescaled products summed exactly, then rescaled by the inverse of the
/// summed variances.
pub open spec fn update_mean_v(mean1: int, var1: int, mean2: int, var2: int) -> int {
    fx_mul_v(
        fx_div_v(FX_ONE as int, var1 + var2),
        fx_mul_v(var2, mean1) + fx_mul_v(var1, mean2),
    )
}

/// The fused variance `1 / (1/var1 + 1/var2)`.
pub open spec fn update_var_v(var1: int, var2: int) -> int {
    fx_div_v(FX_ONE as int, fx_div_v(FX_ONE as int, var1) + fx_div_v(FX_ONE as int, var2))
}

/// Every intermediate value of `update` fits the scalar range and no
/// rescaled divisor collapses to zero.
pub open spec fn update_ok(mean1: int, var1: int, mean2: int, var2: int) -> bool {
    &&& fits_i64(var1 + var2)
    &&& fits_i64(fx_div_v(FX_ONE as int, var1 + var2))
    &&& fits_i64(fx_mul_v(var2, mean1))
    &&& fits_i64(fx_mul_v(var1, mean2))
    &&& fits_i64(fx_mul_v(var2, mean1) + fx_mul_v(var1, mean2))
    &&& fits_i64(update_mean_v(mean1, var1, mean2, var2))
    &&& fits_i64(fx_div_v(FX_ONE as int, var1))
    &&& fits_i64(fx_div_v(FX_ONE as int, var2))
    &&& fits_i64(fx_div_v(FX_ONE as int, var1) + fx_div_v(FX_ONE as int, var2))
    &&& fx_div_v(FX_ONE as int, var1) + fx_div_v(FX_ONE as int, var2) != 0
    &&& fits_i64(update_var_v(var1, var2))
}

/// The measurement update: fuses the prior `(mean1, var1)` with the
/// measurement `(mean2, var2)` into the posterior mean and variance.
pub fn update(mean1: i64, var1: i64, mean2: i64, var2: i64) -> (r: Result<
    (i64, i64),
    MatrixError,
>)
    requires
        var1 > 0,
        var2 > 0,
    ensures
        r is Ok <==> update_ok(mean1 as int, var1 as int, mean2 as int, var2 as int),
        r matches Ok(mv) ==> mv.0 as int == update_mean_v(
            mean1 as int, var1 as int, mean2 as int, var2 as int,
        ) && mv.1 as int == update_var_v(var1 as int, var2 as int),
        r matches Err(e) ==> e == MatrixError::ValueOutOfRange,
{
    let vsum = match fx_add(var1, var2) {
        Ok(v) => v,
        Err(e) => {
            return Err(e);
        },
    };
    let inv = match fx_div(FX_ONE, vsum) {
        Ok(v) => v,
        Err(e) => {
            return Err(e);
        },
    };
    let t1 = match fx_mul(var2, mean1) {
        Ok(v) => v,
        Err(e) => {
            return Err(e);
        },
    };
    let t2 = match fx_mul(var1, mean2) {
        Ok(v) => v,
        Err(e) => {
            return Err(e);
        },
    };
    let tsum = match fx_add(t1, t2) {
        Ok(v) => v,
        Err(e) => {
            return Err(e);
        },
    };
    let new_mean = match fx_mul(inv, tsum) {
        Ok(v) => v,
        Err(e) => {
            return Err(e);
        },
    };
    let i1 = match fx_div(FX_ONE, var1) {
        Ok(v) => v,
        Err(e) => {
            return Err(e);
        },
    };
    let i2 = match fx_div(FX_ONE, var2) {
        Ok(v) => v,
        Err(e) => {
            return Err(e);
        },
    };
    let isum = match fx_add(i1, i2) {
        Ok(v) => v,
        Err(e) => {
            return Err(e);
        },
    };
    if isum == 0 {
        return Err(MatrixError::ValueOutOfRange);
    }
    let new_var = match fx_div(FX_ONE, isum) {
        Ok(v) => v,
        Err(e) => {
            return Err(e);
        },
    };
    Ok((new_mean, new_var))
}

/// The motion prediction: means add, variances add.
pub fn predict(mean1: i64, var1: i64, mean2: i64, var2: i64) -> (r: Result<
    (i64, i64),
    MatrixError,
>)
    ensures
        r is Ok <==> fits_i64(mean1 + mean2) && fits_i64(var1 + var2),
        r matches Ok(mv) ==> mv.0 == mean1 + mean2 && mv.1 == var1 + var2,
        r matches Err(e) ==> e == MatrixError::ValueOutOfRange,
{
    let m = match fx_add(mean1, mean2) {
        Ok(v) => v,
        Err(e) => {
            return Err(e);
        },
    };
    let v = match fx_add(var1, var2) {
        Ok(v) => v,
        Err(e) => {
            return Err(e);
        },
    };
    Ok((m, v))
}

} // verus!
