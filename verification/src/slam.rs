//! Graph-based SLAM estimators in information form.
//!
//! A trajectory is a time-ordered sequence of `Step`s, each carrying one
//! relative motion and zero or more relative landmark measurements. The
//! batch estimator (`slam`) assembles one information matrix and vector over
//! the whole trajectory and solves once; the online estimator
//! (`online_slam`) keeps a constant-size state, folding in one step at a
//! time and marginalizing out the previous pose through a Schur complement.

use vstd::prelude::*;
use crate::errors::MatrixError;
use crate::fixed::{fits_i64, fx_div, fx_div_v, FX_ONE};
use crate::matrix::{
    bump_seq, chol_all_ok, chol_pd, chol_seq, expand_cell, inv_all_ok, inv_full, inv_pd,
    lemma_table_eq, mul_dot, mul_fits, sub_fits, Matrix, INVERSE_ZTOL,
};

verus! {

/// One relative observation of a landmark from the current pose: the
/// landmark's index and the measured offset.
pub struct Measurement {
    pub landmark: usize,
    pub dx: i64,
    pub dy: i64,
}

/// One time unit of input: the measurements taken from the current pose,
/// then a relative motion to the next pose.
pub struct Step {
    pub measurements: Vec<Measurement>,
    pub motion_x: i64,
    pub motion_y: i64,
}

/// The checked form of `bump_seq`: `None` once any value leaves the scalar
/// range.
pub open spec fn bump_o(st: Option<Seq<Seq<int>>>, i: int, j: int, delta: int) -> Option<
    Seq<Seq<int>>,
> {
    match st {
        Option::None => Option::None,
        Option::Some(s) => if fits_i64(s[i][j] + delta) {
            Option::Some(bump_seq(s, i, j, delta))
        } else {
            Option::None
        },
    }
}

/// The information-matrix update for one measurement linking pose block `p`
/// and landmark block `m` with weight `w`: weight onto both diagonal blocks,
/// negated weight onto both cross blocks, one coordinate at a time.
pub open spec fn meas_omega_upd(om: Option<Seq<Seq<int>>>, p: int, m: int, w: int) -> Option<
    Seq<Seq<int>>,
> {
    let s1 = bump_o(bump_o(bump_o(bump_o(om, p, p, w), m, m, w), p, m, -w), m, p, -w);
    bump_o(bump_o(bump_o(bump_o(s1, p + 1, p + 1, w), m + 1, m + 1, w), p + 1, m + 1, -w),
        m + 1, p + 1, -w)
}

/// The information-vector update for one measurement: the weighted offset
/// leaves the pose rows and enters the landmark rows.
pub open spec fn meas_xi_upd(xi: Option<Seq<Seq<int>>>, p: int, m: int, vx: int, vy: int)
    -> Option<Seq<Seq<int>>> {
    bump_o(bump_o(bump_o(bump_o(xi, p, 0, -vx), m, 0, vx), p + 1, 0, -vy), m + 1, 0, vy)
}

/// One measurement folded into the pair, `None` once anything leaves the
/// scalar range.
pub open spec fn meas_upd(
    st: Option<(Seq<Seq<int>>, Seq<Seq<int>>)>,
    p: int,
    m: int,
    dx: int,
    dy: int,
    zn: int,
) -> Option<(Seq<Seq<int>>, Seq<Seq<int>>)> {
    match st {
        Option::None => Option::None,
        Option::Some((om, xi)) => {
            let w = fx_div_v(FX_ONE as int, zn);
            let vx = fx_div_v(dx, zn);
            let vy = fx_div_v(dy, zn);
            if !fits_i64(vx) || !fits_i64(vy) {
                Option::None
            } else {
                match (meas_omega_upd(Option::Some(om), p, m, w), meas_xi_upd(
                    Option::Some(xi), p, m, vx, vy,
                )) {
                    (Option::Some(om2), Option::Some(xi2)) => Option::Some((om2, xi2)),
                    _ => Option::None,
                }
            }
        },
    }
}

/// The first `i` measurements of a step folded into the pair, pose block at
/// `p`, landmark `lm` stored at block `mbase + 2 * lm`.
pub open spec fn meas_fold(
    st: Option<(Seq<Seq<int>>, Seq<Seq<int>>)>,
    ms: Seq<Measurement>,
    i: int,
    p: int,
    mbase: int,
    zn: int,
) -> Option<(Seq<Seq<int>>, Seq<Seq<int>>)>
    decreases i,
{
    if i <= 0 {
        st
    } else {
        let prev = meas_fold(st, ms, i - 1, p, mbase, zn);
        meas_upd(prev, p, mbase + 2 * ms[i - 1].landmark, ms[i - 1].dx as int,
            ms[i - 1].dy as int, zn)
    }
}

/// The information-matrix update for one motion linking pose block `p` and
/// the next pose block `p + 2` with weight `w`.
pub open spec fn motion_omega_upd(om: Option<Seq<Seq<int>>>, p: int, w: int) -> Option<
    Seq<Seq<int>>,
> {
    let s1 = bump_o(bump_o(bump_o(bump_o(om, p, p, w), p + 1, p + 1, w), p + 2, p + 2, w),
        p + 3, p + 3, w);
    bump_o(bump_o(bump_o(bump_o(s1, p, p + 2, -w), p + 2, p, -w), p + 1, p + 3, -w),
        p + 3, p + 1, -w)
}

/// The information-vector update for one motion.
pub open spec fn motion_xi_upd(xi: Option<Seq<Seq<int>>>, p: int, vx: int, vy: int) -> Option<
    Seq<Seq<int>>,
> {
    bump_o(bump_o(bump_o(bump_o(xi, p, 0, -vx), p + 2, 0, vx), p + 1, 0, -vy), p + 3, 0, vy)
}

/// One motion folded into the pair.
pub open spec fn motion_upd(
    st: Option<(Seq<Seq<int>>, Seq<Seq<int>>)>,
    p: int,
    mx: int,
    my: int,
    mn: int,
) -> Option<(Seq<Seq<int>>, Seq<Seq<int>>)> {
    match st {
        Option::None => Option::None,
        Option::Some((om, xi)) => {
            let w = fx_div_v(FX_ONE as int, mn);
            let vx = fx_div_v(mx, mn);
            let vy = fx_div_v(my, mn);
            if !fits_i64(vx) || !fits_i64(vy) {
                Option::None
            } else {
                match (motion_omega_upd(Option::Some(om), p, w), motion_xi_upd(
                    Option::Some(xi), p, vx, vy,
                )) {
                    (Option::Some(om2), Option::Some(xi2)) => Option::Some((om2, xi2)),
                    _ => Option::None,
                }
            }
        },
    }
}

/// The batch estimator's initial information matrix: unit information on the
/// first pose's two coordinates.
pub open spec fn init_omega(dim: int) -> Seq<Seq<int>> {
    Seq::new(dim as nat, |i: int| Seq::new(dim as nat, |j: int|
        if i == j && i < 2 { FX_ONE as int } else { 0 }))
}

/// The initial information vector: the anchor coordinate on the first
/// pose's two rows.
pub open spec fn init_xi(dim: int, wh: int) -> Seq<Seq<int>> {
    Seq::new(dim as nat, |i: int| Seq::new(1nat, |j: int| if i < 2 { wh } else { 0 }))
}

/// The batch information pair after the first `k` steps: measurements then
/// motion of each step in order, pose `t` at block `2 t`, landmark `lm` at
/// block `2 (n + lm)`; `None` once any value leaves the scalar range.
pub open spec fn slam_fold(
    data: Seq<Step>,
    k: int,
    n: int,
    nl: int,
    mn: int,
    zn: int,
    wh: int,
) -> Option<(Seq<Seq<int>>, Seq<Seq<int>>)>
    decreases k,
{
    if k <= 0 {
        Option::Some((init_omega(2 * (n + nl)), init_xi(2 * (n + nl), wh)))
    } else {
        let prev = slam_fold(data, k - 1, n, nl, mn, zn, wh);
        let st1 = meas_fold(prev, data[k - 1].measurements@,
            data[k - 1].measurements@.len() as int, 2 * (k - 1), 2 * n, zn);
        motion_upd(st1, 2 * (k - 1), data[k - 1].motion_x as int, data[k - 1].motion_y as int, mn)
    }
}

/// Whether every measurement of every step names a landmark below `nl`.
pub open spec fn steps_valid(data: Seq<Step>, nl: int) -> bool {
    forall|k: int, i: int|
        0 <= k < data.len() && 0 <= i < data[k].measurements@.len()
            ==> (#[trigger] data[k].measurements@[i]).landmark < nl
}

/// Once a measurement fold fails, folding further measurements stays failed.
pub proof fn lemma_meas_fold_none(
    st: Option<(Seq<Seq<int>>, Seq<Seq<int>>)>,
    ms: Seq<Measurement>,
    i: int,
    i2: int,
    p: int,
    mbase: int,
    zn: int,
)
    requires
        0 <= i <= i2,
        meas_fold(st, ms, i, p, mbase, zn) is None,
    ensures
        meas_fold(st, ms, i2, p, mbase, zn) is None,
    decreases i2,
{
    if i < i2 {
        lemma_meas_fold_none(st, ms, i, i2 - 1, p, mbase, zn);
    }
}

/// Once the batch fold fails, folding further steps stays failed.
pub proof fn lemma_slam_fold_none(
    data: Seq<Step>,
    k: int,
    k2: int,
    n: int,
    nl: int,
    mn: int,
    zn: int,
    wh: int,
)
    requires
        0 <= k <= k2,
        slam_fold(data, k, n, nl, mn, zn, wh) is None,
    ensures
        slam_fold(data, k2, n, nl, mn, zn, wh) is None,
    decreases k2,
{
    if k < k2 {
        lemma_slam_fold_none(data, k, k2 - 1, n, nl, mn, zn, wh);
        let prev = slam_fold(data, k2 - 1, n, nl, mn, zn, wh);
        lemma_meas_fold_none(prev, data[k2 - 1].measurements@, 0,
            data[k2 - 1].measurements@.len() as int, 2 * (k2 - 1), 2 * n, zn);
    }
}

/// The information weight `1/noise` always fits the scalar range: its
/// magnitude is at most the square of the fixed-point unit.
pub proof fn lemma_weight_fits(zn: int)
    requires
        zn != 0,
    ensures
        fits_i64(fx_div_v(FX_ONE as int, zn)),
{
    let mag = (crate::fixed::abs_i(FX_ONE as int) * FX_ONE) / crate::fixed::abs_i(zn);
    vstd::arithmetic::div_mod::lemma_div_nonincreasing(
        crate::fixed::abs_i(FX_ONE as int) * FX_ONE,
        crate::fixed::abs_i(zn),
    );
    vstd::arithmetic::div_mod::lemma_div_pos_is_pos(
        crate::fixed::abs_i(FX_ONE as int) * FX_ONE,
        crate::fixed::abs_i(zn),
    );
}

/// Fold one measurement into the information pair in place: the exec form
/// of `meas_upd`. On an error the pair keeps its dimensions but may hold a
/// partial update; the caller reports the error and stops.
fn apply_measurement(
    omega: &mut Matrix,
    xi: &mut Matrix,
    p: usize,
    m: usize,
    dx: i64,
    dy: i64,
    zn: i64,
) -> (r: Result<(), MatrixError>)
    requires
        old(omega).wf(),
        old(xi).wf(),
        old(omega).dimx == old(omega).dimy,
        old(xi).dimx == old(omega).dimx,
        old(xi).dimy == 1,
        p + 1 < old(omega).dimx,
        m + 1 < old(omega).dimx,
        zn != 0,
    ensures
        final(omega).wf(),
        final(xi).wf(),
        final(omega).dimx == old(omega).dimx,
        final(omega).dimy == old(omega).dimy,
        final(xi).dimx == old(xi).dimx,
        final(xi).dimy == 1,
        r is Ok <==> meas_upd(
            Option::Some((old(omega).sv(), old(xi).sv())),
            p as int, m as int, dx as int, dy as int, zn as int,
        ) is Some,
        r is Ok ==> Option::Some((final(omega).sv(), final(xi).sv())) == meas_upd(
            Option::Some((old(omega).sv(), old(xi).sv())),
            p as int, m as int, dx as int, dy as int, zn as int,
        ),
        r matches Err(e) ==> e == MatrixError::ValueOutOfRange,
{
    let ghost om0 = omega.sv();
    let ghost xi0 = xi.sv();
    proof {
        lemma_weight_fits(zn as int);
    }
    let w = match fx_div(FX_ONE, zn) {
        Ok(w) => w,
        Err(e) => {
            proof {
                assert(false);
            }
            return Err(e);
        },
    };
    let vx = match fx_div(dx, zn) {
        Ok(vx) => vx,
        Err(e) => {
            return Err(e);
        },
    };
    let vy = match fx_div(dy, zn) {
        Ok(vy) => vy,
        Err(e) => {
            return Err(e);
        },
    };
    if let Err(e) = omega.bump_add(p, p, w) {
        return Err(e);
    }
    if let Err(e) = omega.bump_add(m, m, w) {
        return Err(e);
    }
    if let Err(e) = omega.bump_sub(p, m, w) {
        return Err(e);
    }
    if let Err(e) = omega.bump_sub(m, p, w) {
        return Err(e);
    }
    if let Err(e) = omega.bump_add(p + 1, p + 1, w) {
        return Err(e);
    }
    if let Err(e) = omega.bump_add(m + 1, m + 1, w) {
        return Err(e);
    }
    if let Err(e) = omega.bump_sub(p + 1, m + 1, w) {
        return Err(e);
    }
    if let Err(e) = omega.bump_sub(m + 1, p + 1, w) {
        return Err(e);
    }
    if let Err(e) = xi.bump_sub(p, 0, vx) {
        return Err(e);
    }
    if let Err(e) = xi.bump_add(m, 0, vx) {
        return Err(e);
    }
    if let Err(e) = xi.bump_sub(p + 1, 0, vy) {
        return Err(e);
    }
    if let Err(e) = xi.bump_add(m + 1, 0, vy) {
        return Err(e);
    }
    proof {
        assert(Option::Some((omega.sv(), xi.sv())) == meas_upd(
            Option::Some((om0, xi0)), p as int, m as int, dx as int, dy as int, zn as int,
        ));
    }
    Ok(())
}

/// Fold one motion into the information pair in place: the exec form of
/// `motion_upd`. On an error the pair keeps its dimensions but may hold a
/// partial update; the caller reports the error and stops.
fn apply_motion(
    omega: &mut Matrix,
    xi: &mut Matrix,
    p: usize,
    mx: i64,
    my: i64,
    mn: i64,
) -> (r: Result<(), MatrixError>)
    requires
        old(omega).wf(),
        old(xi).wf(),
        old(omega).dimx == old(omega).dimy,
        old(xi).dimx == old(omega).dimx,
        old(xi).dimy == 1,
        p + 3 < old(omega).dimx,
        mn != 0,
    ensures
        final(omega).wf(),
        final(xi).wf(),
        final(omega).dimx == old(omega).dimx,
        final(omega).dimy == old(omega).dimy,
        final(xi).dimx == old(xi).dimx,
        final(xi).dimy == 1,
        r is Ok <==> motion_upd(
            Option::Some((old(omega).sv(), old(xi).sv())),
            p as int, mx as int, my as int, mn as int,
        ) is Some,
        r is Ok ==> Option::Some((final(omega).sv(), final(xi).sv())) == motion_upd(
            Option::Some((old(omega).sv(), old(xi).sv())),
            p as int, mx as int, my as int, mn as int,
        ),
        r matches Err(e) ==> e == MatrixError::ValueOutOfRange,
{
    let ghost om0 = omega.sv();
    let ghost xi0 = xi.sv();
    proof {
        lemma_weight_fits(mn as int);
    }
    let w = match fx_div(FX_ONE, mn) {
        Ok(w) => w,
        Err(e) => {
            proof {
                assert(false);
            }
            return Err(e);
        },
    };
    let vx = match fx_div(mx, mn) {
        Ok(vx) => vx,
        Err(e) => {
            return Err(e);
        },
    };
    let vy = match fx_div(my, mn) {
        Ok(vy) => vy,
        Err(e) => {
            return Err(e);
        },
    };
    if let Err(e) = omega.bump_add(p, p, w) {
        return Err(e);
    }
    if let Err(e) = omega.bump_add(p + 1, p + 1, w) {
        return Err(e);
    }
    if let Err(e) = omega.bump_add(p + 2, p + 2, w) {
        return Err(e);
    }
    if let Err(e) = omega.bump_add(p + 3, p + 3, w) {
        return Err(e);
    }
    if let Err(e) = omega.bump_sub(p, p + 2, w) {
        return Err(e);
    }
    if let Err(e) = omega.bump_sub(p + 2, p, w) {
        return Err(e);
    }
    if let Err(e) = omega.bump_sub(p + 1, p + 3, w) {
        return Err(e);
    }
    if let Err(e) = omega.bump_sub(p + 3, p + 1, w) {
        return Err(e);
    }
    if let Err(e) = xi.bump_sub(p, 0, vx) {
        return Err(e);
    }
    if let Err(e) = xi.bump_add(p + 2, 0, vx) {
        return Err(e);
    }
    if let Err(e) = xi.bump_sub(p + 1, 0, vy) {
        return Err(e);
    }
    if let Err(e) = xi.bump_add(p + 3, 0, vy) {
        return Err(e);
    }
    proof {
        assert(Option::Some((omega.sv(), xi.sv())) == motion_upd(
            Option::Some((om0, xi0)), p as int, mx as int, my as int, mn as int,
        ));
    }
    Ok(())
}

/// The inverse of the information matrix `a` (an `n` by `n` table) as a
/// table: the composition of the Cholesky factorization at the `inverse`
/// tolerance with the back-substitution.
pub open spec fn inv_seq(a: Seq<Seq<int>>, n: int) -> Seq<Seq<int>> {
    Seq::new(n as nat, |p: int| Seq::new(n as nat, |q: int|
        inv_full(chol_seq(a, n, INVERSE_ZTOL as int), n, p, q)))
}

/// The whole solve `μ = Ω⁻¹·ξ` goes through: the factorization finds the
/// matrix positive-definite, every intermediate value fits the scalar range,
/// and the final product fits too.
pub open spec fn solve_ok(om: Seq<Seq<int>>, xi: Seq<Seq<int>>, dim: int) -> bool {
    &&& chol_pd(om, dim, INVERSE_ZTOL as int)
    &&& chol_all_ok(om, dim, INVERSE_ZTOL as int)
    &&& inv_pd(chol_seq(om, dim, INVERSE_ZTOL as int), dim)
    &&& inv_all_ok(chol_seq(om, dim, INVERSE_ZTOL as int), dim)
    &&& mul_fits(inv_seq(om, dim), xi, dim, dim, 1)
}

/// Row `i` of the estimate `μ = Ω⁻¹·ξ`.
pub open spec fn solve_entry(om: Seq<Seq<int>>, xi: Seq<Seq<int>>, dim: int, i: int) -> int {
    mul_dot(inv_seq(om, dim), xi, i, 0, dim)
}

/// The batch information pair over the whole trajectory.
pub open spec fn slam_state(
    data: Seq<Step>,
    n: int,
    nl: int,
    mn: int,
    zn: int,
    wh: int,
) -> Option<(Seq<Seq<int>>, Seq<Seq<int>>)> {
    slam_fold(data, data.len() as int, n, nl, mn, zn, wh)
}

/// The batch SLAM estimator.
///
/// Allocates an information pair sized for `n` poses and `num_landmarks`
/// landmarks, anchors the first pose at `(world_half, world_half)` with unit
/// information, folds in every step's measurements and motion, and solves
/// `μ = Ω⁻¹·ξ` once. The result stacks `n` pose coordinate pairs followed by
/// `num_landmarks` landmark coordinate pairs.
///
/// Fails with `InvalidDimension` when `n` is zero or the trajectory does not
/// fit `n` poses; with `IndexOutOfRange` when a measurement names a landmark
/// at or beyond `num_landmarks`; with `ValueOutOfRange` when a value leaves
/// the scalar range; and with `NotPositiveDefinite` when the assembled
/// information matrix cannot be factored (for example, a landmark that no
/// measurement constrains).
pub fn slam(
    data: &Vec<Step>,
    n: usize,
    num_landmarks: usize,
    motion_noise: i64,
    measurement_noise: i64,
    world_half: i64,
) -> (r: Result<Matrix, MatrixError>)
    requires
        motion_noise != 0,
        measurement_noise != 0,
    ensures
        r is Ok <==> n >= 1 && data@.len() < n
            && 2 * (n as int + num_landmarks as int) <= usize::MAX
            && steps_valid(data@, num_landmarks as int)
            && (match slam_state(
                data@, n as int, num_landmarks as int,
                motion_noise as int, measurement_noise as int, world_half as int,
            ) {
                Option::Some((om, xi)) => solve_ok(om, xi, 2 * (n as int + num_landmarks as int)),
                Option::None => false,
            }),
        r matches Ok(mu) ==> mu.wf() && mu.dimx as int == 2 * (n as int + num_landmarks as int)
            && mu.dimy == 1
            && (match slam_state(
                data@, n as int, num_landmarks as int,
                motion_noise as int, measurement_noise as int, world_half as int,
            ) {
                Option::Some((om, xi)) => forall|i: int|
                    0 <= i < mu.dimx ==> #[trigger] mu.at(i, 0) == solve_entry(
                        om, xi, 2 * (n as int + num_landmarks as int), i,
                    ),
                Option::None => false,
            }),
        r matches Err(e) ==> if n == 0 || data@.len() >= n {
            e == MatrixError::InvalidDimension
        } else if 2 * (n as int + num_landmarks as int) > usize::MAX {
            e == MatrixError::ValueOutOfRange
        } else if !steps_valid(data@, num_landmarks as int) {
            e == MatrixError::IndexOutOfRange
        } else {
            match slam_state(
                data@, n as int, num_landmarks as int,
                motion_noise as int, measurement_noise as int, world_half as int,
            ) {
                Option::None => e == MatrixError::ValueOutOfRange,
                Option::Some((om, xi)) => {
                    let dim = 2 * (n as int + num_landmarks as int);
                    &&& (e == MatrixError::NotPositiveDefinite || e == MatrixError::ValueOutOfRange)
                    &&& (e == MatrixError::NotPositiveDefinite
                        ==> !chol_pd(om, dim, INVERSE_ZTOL as int)
                            || !inv_pd(chol_seq(om, dim, INVERSE_ZTOL as int), dim))
                    &&& (e == MatrixError::ValueOutOfRange
                        ==> !chol_all_ok(om, dim, INVERSE_ZTOL as int)
                            || !inv_all_ok(chol_seq(om, dim, INVERSE_ZTOL as int), dim)
                            || !mul_fits(inv_seq(om, dim), xi, dim, dim, 1))
                },
            }
        },
{
    let ghost mn = motion_noise as int;
    let ghost zn = measurement_noise as int;
    let ghost wh = world_half as int;
    let ghost ni = n as int;
    let ghost nli = num_landmarks as int;
    if n == 0 || data.len() >= n {
        return Err(MatrixError::InvalidDimension);
    }
    let nn = match n.checked_add(num_landmarks) {
        Some(nn) => nn,
        None => {
            return Err(MatrixError::ValueOutOfRange);
        },
    };
    let dim = match nn.checked_mul(2) {
        Some(dim) => dim,
        None => {
            return Err(MatrixError::ValueOutOfRange);
        },
    };
    let ghost dimi = 2 * (ni + nli);
    let mut k: usize = 0;
    while k < data.len()
        invariant
            k <= data@.len(),
            n >= 1,
            data@.len() < n,
            ni == n as int,
            nli == num_landmarks as int,
            dim as int == 2 * (ni + nli),
            forall|k2: int, i2: int|
                0 <= k2 < k && 0 <= i2 < data@[k2].measurements@.len()
                    ==> (#[trigger] data@[k2].measurements@[i2]).landmark < num_landmarks,
        decreases data@.len() - k,
    {
        let step = &data[k];
        let mut i: usize = 0;
        while i < step.measurements.len()
            invariant
                k < data@.len(),
                n >= 1,
                data@.len() < n,
                ni == n as int,
                step == data@[k as int],
                nli == num_landmarks as int,
                dim as int == 2 * (ni + nli),
                i <= step.measurements@.len(),
                forall|i2: int|
                    0 <= i2 < i
                        ==> (#[trigger] step.measurements@[i2]).landmark < num_landmarks,
            decreases step.measurements@.len() - i,
        {
            if step.measurements[i].landmark >= num_landmarks {
                proof {
                    assert(!steps_valid(data@, nli));
                }
                return Err(MatrixError::IndexOutOfRange);
            }
            i = i + 1;
        }
        k = k + 1;
    }
    proof {
        assert(steps_valid(data@, nli));
    }
    let mut omega = match Matrix::zero(dim, dim) {
        Ok(m) => m,
        Err(_) => {
            proof {
                assert(false);
            }
            return Err(MatrixError::InvalidDimension);
        },
    };
    let mut xi = match Matrix::zero(dim, 1) {
        Ok(m) => m,
        Err(_) => {
            proof {
                assert(false);
            }
            return Err(MatrixError::InvalidDimension);
        },
    };
    let ghost omz = omega;
    let ghost xiz = xi;
    proof {
        assert(omz.at(0, 0) == 0 && omz.at(1, 1) == 0);
        assert(xiz.at(0, 0) == 0 && xiz.at(1, 0) == 0);
    }
    if let Err(_) = omega.bump_add(0, 0, FX_ONE) {
        proof {
            assert(false);
        }
        return Err(MatrixError::ValueOutOfRange);
    }
    if let Err(_) = omega.bump_add(1, 1, FX_ONE) {
        proof {
            assert(false);
        }
        return Err(MatrixError::ValueOutOfRange);
    }
    if let Err(_) = xi.bump_add(0, 0, world_half) {
        proof {
            assert(false);
        }
        return Err(MatrixError::ValueOutOfRange);
    }
    if let Err(_) = xi.bump_add(1, 0, world_half) {
        proof {
            assert(false);
        }
        return Err(MatrixError::ValueOutOfRange);
    }
    proof {
        assert forall|p2: int| 0 <= p2 < dimi implies
            #[trigger] omega.sv()[p2] =~= init_omega(dimi)[p2] by {
            assert forall|q2: int| 0 <= q2 < dimi implies
                #[trigger] omega.sv()[p2][q2] == init_omega(dimi)[p2][q2] by {
                if !((p2 == 0 && q2 == 0) || (p2 == 1 && q2 == 1)) {
                    assert(omz.at(p2, q2) == 0);
                }
            }
        }
        assert(omega.sv() =~~= init_omega(dimi));
        assert forall|p2: int| 0 <= p2 < dimi implies
            #[trigger] xi.sv()[p2] =~= init_xi(dimi, wh)[p2] by {
            assert forall|q2: int| 0 <= q2 < 1 implies
                #[trigger] xi.sv()[p2][q2] == init_xi(dimi, wh)[p2][q2] by {
                if p2 >= 2 {
                    assert(xiz.at(p2, q2) == 0);
                }
            }
        }
        assert(xi.sv() =~~= init_xi(dimi, wh));
        assert(slam_fold(data@, 0, ni, nli, mn, zn, wh) == Option::Some((omega.sv(), xi.sv())));
    }
    let mut k: usize = 0;
    while k < data.len()
        invariant
            omega.wf(),
            xi.wf(),
            omega.dimx == dim && omega.dimy == dim,
            xi.dimx == dim && xi.dimy == 1,
            dim as int == dimi,
            dimi == 2 * (ni + nli),
            ni == n as int && nli == num_landmarks as int,
            mn == motion_noise as int && zn == measurement_noise as int,
            wh == world_half as int,
            motion_noise != 0 && measurement_noise != 0,
            n >= 1,
            data@.len() < n,
            k <= data@.len(),
            steps_valid(data@, nli),
            slam_fold(data@, k as int, ni, nli, mn, zn, wh)
                == Option::Some((omega.sv(), xi.sv())),
        decreases data@.len() - k,
    {
        let step = &data[k];
        let p = 2 * k;
        let ghost om_k = omega.sv();
        let ghost xi_k = xi.sv();
        let mut i: usize = 0;
        while i < step.measurements.len()
            invariant
                omega.wf(),
                xi.wf(),
                omega.dimx == dim && omega.dimy == dim,
                xi.dimx == dim && xi.dimy == 1,
                dim as int == dimi,
                dimi == 2 * (ni + nli),
                ni == n as int && nli == num_landmarks as int,
                zn == measurement_noise as int,
                measurement_noise != 0,
                n >= 1,
                data@.len() < n,
                k < data@.len(),
                step == data@[k as int],
                p == 2 * k,
                steps_valid(data@, nli),
                mn == motion_noise as int && wh == world_half as int,
                i <= step.measurements@.len(),
                slam_fold(data@, k as int, ni, nli, mn, zn, wh)
                    == Option::Some((om_k, xi_k)),
                meas_fold(
                    Option::Some((om_k, xi_k)), step.measurements@, i as int,
                    p as int, 2 * ni, zn,
                ) == Option::Some((omega.sv(), xi.sv())),
            decreases step.measurements@.len() - i,
        {
            let meas = &step.measurements[i];
            proof {
                assert(data@[k as int].measurements@[i as int].landmark < num_landmarks);
            }
            let m = 2 * (n + meas.landmark);
            match apply_measurement(
                &mut omega, &mut xi, p, m, meas.dx, meas.dy, measurement_noise,
            ) {
                Ok(()) => {},
                Err(_) => {
                    proof {
                        assert(meas_fold(
                            Option::Some((om_k, xi_k)), step.measurements@, i as int + 1,
                            p as int, 2 * ni, zn,
                        ) is None);
                        lemma_meas_fold_none(
                            Option::Some((om_k, xi_k)), step.measurements@, i as int + 1,
                            step.measurements@.len() as int, p as int, 2 * ni, zn,
                        );
                        assert(slam_fold(data@, k as int + 1, ni, nli, mn, zn, wh) is None);
                        lemma_slam_fold_none(
                            data@, k as int + 1, data@.len() as int, ni, nli, mn, zn, wh,
                        );
                    }
                    return Err(MatrixError::ValueOutOfRange);
                },
            }
            i = i + 1;
        }
        match apply_motion(&mut omega, &mut xi, p, step.motion_x, step.motion_y, motion_noise) {
            Ok(()) => {},
            Err(_) => {
                proof {
                    assert(slam_fold(data@, k as int + 1, ni, nli, mn, zn, wh) is None);
                    lemma_slam_fold_none(
                        data@, k as int + 1, data@.len() as int, ni, nli, mn, zn, wh,
                    );
                }
                return Err(MatrixError::ValueOutOfRange);
            },
        }
        proof {
            assert(slam_fold(data@, k as int + 1, ni, nli, mn, zn, wh)
                == Option::Some((omega.sv(), xi.sv())));
        }
        k = k + 1;
    }
    let ghost om_f = omega.sv();
    let ghost xi_f = xi.sv();
    let minv = match omega.inverse() {
        Ok(m) => m,
        Err(e) => {
            return Err(e);
        },
    };
    proof {
        assert forall|p2: int| 0 <= p2 < dimi implies
            #[trigger] minv.sv()[p2] =~= inv_seq(om_f, dimi)[p2] by {
            assert forall|q2: int| 0 <= q2 < dimi implies
                #[trigger] minv.sv()[p2][q2] == inv_seq(om_f, dimi)[p2][q2] by {
                assert(minv.at(p2, q2)
                    == inv_full(chol_seq(om_f, dimi, INVERSE_ZTOL as int), dimi, p2, q2));
            }
        }
        assert(minv.sv() =~~= inv_seq(om_f, dimi));
    }
    let mu = match minv.mul(&xi) {
        Ok(m) => m,
        Err(e) => {
            return Err(e);
        },
    };
    proof {
        assert forall|i2: int| 0 <= i2 < dimi implies
            #[trigger] mu.at(i2, 0) == solve_entry(om_f, xi_f, dimi, i2) by {
            assert(mu.at(i2, 0) == mul_dot(minv.sv(), xi.sv(), i2, 0, dimi));
        }
    }
    Ok(mu)
}

/// The online estimator's expansion map: the current pose keeps rows 0 and
/// 1, the landmark rows move up by two to make room for the new pose.
pub open spec fn online_list(dim: int) -> Seq<usize> {
    Seq::new(dim as nat, |i: int| if i < 2 { i as usize } else { (i + 2) as usize })
}

/// The single-column map used when expanding the information vector.
pub open spec fn unit_list() -> Seq<usize> {
    seq![0usize]
}

/// The information matrix grown by one pose block: entries scattered through
/// `online_list`, zero elsewhere.
pub open spec fn expand_sq(om: Seq<Seq<int>>, dim: int) -> Seq<Seq<int>> {
    Seq::new((dim + 2) as nat, |p: int| Seq::new((dim + 2) as nat, |q: int|
        expand_cell(om, online_list(dim), online_list(dim), p, q)))
}

/// The information vector grown by one pose block.
pub open spec fn expand_col(xi: Seq<Seq<int>>, dim: int) -> Seq<Seq<int>> {
    Seq::new((dim + 2) as nat, |p: int| Seq::new(1nat, |q: int|
        expand_cell(xi, online_list(dim), unit_list(), p, q)))
}

/// The cross block between the removed pose (rows 0, 1) and the kept
/// variables of the enlarged system.
pub open spec fn marg_a(om3: Seq<Seq<int>>, dim: int) -> Seq<Seq<int>> {
    Seq::new(2nat, |i: int| Seq::new(dim as nat, |j: int| om3[i][j + 2]))
}

/// The transpose of `marg_a`.
pub open spec fn marg_at(om3: Seq<Seq<int>>, dim: int) -> Seq<Seq<int>> {
    Seq::new(dim as nat, |i: int| Seq::new(2nat, |j: int| om3[j][i + 2]))
}

/// The removed pose's own block.
pub open spec fn marg_b(om3: Seq<Seq<int>>) -> Seq<Seq<int>> {
    Seq::new(2nat, |i: int| Seq::new(2nat, |j: int| om3[i][j]))
}

/// The removed pose's information-vector entries.
pub open spec fn marg_c(xi3: Seq<Seq<int>>) -> Seq<Seq<int>> {
    Seq::new(2nat, |i: int| Seq::new(1nat, |j: int| xi3[i][j]))
}

/// The product `Aᵀ·B⁻¹` of the Schur reduction.
pub open spec fn marg_t1(om3: Seq<Seq<int>>, dim: int) -> Seq<Seq<int>> {
    Seq::new(dim as nat, |i: int| Seq::new(2nat, |j: int|
        mul_dot(marg_at(om3, dim), inv_seq(marg_b(om3), 2), i, j, 2)))
}

/// The correction `Aᵀ·B⁻¹·A` subtracted from the kept information matrix.
pub open spec fn marg_t2(om3: Seq<Seq<int>>, dim: int) -> Seq<Seq<int>> {
    Seq::new(dim as nat, |i: int| Seq::new(dim as nat, |j: int|
        mul_dot(marg_t1(om3, dim), marg_a(om3, dim), i, j, 2)))
}

/// The correction `Aᵀ·B⁻¹·C` subtracted from the kept information vector.
pub open spec fn marg_t4(om3: Seq<Seq<int>>, xi3: Seq<Seq<int>>, dim: int) -> Seq<Seq<int>> {
    Seq::new(dim as nat, |i: int| Seq::new(1nat, |j: int|
        mul_dot(marg_t1(om3, dim), marg_c(xi3), i, j, 2)))
}

/// The kept block of the enlarged information matrix.
pub open spec fn marg_keep_om(om3: Seq<Seq<int>>, dim: int) -> Seq<Seq<int>> {
    Seq::new(dim as nat, |i: int| Seq::new(dim as nat, |j: int| om3[i + 2][j + 2]))
}

/// The kept entries of the enlarged information vector.
pub open spec fn marg_keep_xi(xi3: Seq<Seq<int>>, dim: int) -> Seq<Seq<int>> {
    Seq::new(dim as nat, |i: int| Seq::new(1nat, |j: int| xi3[i + 2][j]))
}

/// The Schur reduction of the enlarged system goes through: the removed
/// block factors and inverts, and every product, sum and difference fits the
/// scalar range.
pub open spec fn marg_ok(om3: Seq<Seq<int>>, xi3: Seq<Seq<int>>, dim: int) -> bool {
    &&& chol_pd(marg_b(om3), 2, INVERSE_ZTOL as int)
    &&& chol_all_ok(marg_b(om3), 2, INVERSE_ZTOL as int)
    &&& inv_pd(chol_seq(marg_b(om3), 2, INVERSE_ZTOL as int), 2)
    &&& inv_all_ok(chol_seq(marg_b(om3), 2, INVERSE_ZTOL as int), 2)
    &&& mul_fits(marg_at(om3, dim), inv_seq(marg_b(om3), 2), dim, 2, 2)
    &&& mul_fits(marg_t1(om3, dim), marg_a(om3, dim), dim, 2, dim)
    &&& mul_fits(marg_t1(om3, dim), marg_c(xi3), dim, 2, 1)
    &&& sub_fits(marg_keep_om(om3, dim), marg_t2(om3, dim), dim, dim)
    &&& sub_fits(marg_keep_xi(xi3, dim), marg_t4(om3, xi3, dim), dim, 1)
}

/// The reduced information matrix `Ω_kept − Aᵀ·B⁻¹·A`.
pub open spec fn marg_om(om3: Seq<Seq<int>>, dim: int) -> Seq<Seq<int>> {
    Seq::new(dim as nat, |i: int| Seq::new(dim as nat, |j: int|
        marg_keep_om(om3, dim)[i][j] - marg_t2(om3, dim)[i][j]))
}

/// The reduced information vector `ξ_kept − Aᵀ·B⁻¹·C`.
pub open spec fn marg_xi(om3: Seq<Seq<int>>, xi3: Seq<Seq<int>>, dim: int) -> Seq<Seq<int>> {
    Seq::new(dim as nat, |i: int| Seq::new(1nat, |j: int|
        marg_keep_xi(xi3, dim)[i][j] - marg_t4(om3, xi3, dim)[i][j]))
}

/// One step folded into the online estimator's constant-size pair: the
/// step's measurements against the current pose, the state grown by one pose
/// block, the motion linking old and new pose, then the old pose
/// marginalized out through the Schur reduction.
pub open spec fn online_step(
    st: Option<(Seq<Seq<int>>, Seq<Seq<int>>)>,
    step: Step,
    nl: int,
    mn: int,
    zn: int,
) -> Option<(Seq<Seq<int>>, Seq<Seq<int>>)> {
    let dim = 2 * (1 + nl);
    let st1 = meas_fold(st, step.measurements@, step.measurements@.len() as int, 0, 2, zn);
    match st1 {
        Option::None => Option::None,
        Option::Some((om1, xi1)) => {
            let st3 = motion_upd(
                Option::Some((expand_sq(om1, dim), expand_col(xi1, dim))),
                0, step.motion_x as int, step.motion_y as int, mn,
            );
            match st3 {
                Option::None => Option::None,
                Option::Some((om3, xi3)) => if marg_ok(om3, xi3, dim) {
                    Option::Some((marg_om(om3, dim), marg_xi(om3, xi3, dim)))
                } else {
                    Option::None
                },
            }
        },
    }
}

/// The online pair after the first `k` steps.
pub open spec fn online_fold(
    data: Seq<Step>,
    k: int,
    nl: int,
    mn: int,
    zn: int,
    wh: int,
) -> Option<(Seq<Seq<int>>, Seq<Seq<int>>)>
    decreases k,
{
    if k <= 0 {
        Option::Some((init_omega(2 * (1 + nl)), init_xi(2 * (1 + nl), wh)))
    } else {
        online_step(online_fold(data, k - 1, nl, mn, zn, wh), data[k - 1], nl, mn, zn)
    }
}

/// The online pair over the whole trajectory.
pub open spec fn online_state(
    data: Seq<Step>,
    nl: int,
    mn: int,
    zn: int,
    wh: int,
) -> Option<(Seq<Seq<int>>, Seq<Seq<int>>)> {
    online_fold(data, data.len() as int, nl, mn, zn, wh)
}

/// Once the online fold fails, folding further steps stays failed.
pub proof fn lemma_online_fold_none(
    data: Seq<Step>,
    k: int,
    k2: int,
    nl: int,
    mn: int,
    zn: int,
    wh: int,
)
    requires
        0 <= k <= k2,
        online_fold(data, k, nl, mn, zn, wh) is None,
    ensures
        online_fold(data, k2, nl, mn, zn, wh) is None,
    decreases k2,
{
    if k < k2 {
        lemma_online_fold_none(data, k, k2 - 1, nl, mn, zn, wh);
        let prev = online_fold(data, k2 - 1, nl, mn, zn, wh);
        lemma_meas_fold_none(prev, data[k2 - 1].measurements@, 0,
            data[k2 - 1].measurements@.len() as int, 0, 2, zn);
    }
}

/// The online SLAM estimator: constant memory in the trajectory length.
///
/// Keeps an information pair sized for one pose and `num_landmarks`
/// landmarks, anchored at `(world_half, world_half)`. Each step folds in the
/// measurements against the current pose, grows the state by one pose block,
/// folds in the motion, and marginalizes the old pose out through the Schur
/// complement `Ω_kept − Aᵀ·B⁻¹·A`, which preserves the exact marginal under
/// the linear-Gaussian model. The result stacks the current pose's
/// coordinate pair followed by `num_landmarks` landmark pairs.
///
/// Fails with `IndexOutOfRange` when a measurement names a landmark at or
/// beyond `num_landmarks`; with `ValueOutOfRange` when a value leaves the
/// scalar range; and with `NotPositiveDefinite` when the old pose's block or
/// the final information matrix cannot be factored and inverted.
#[verifier::rlimit(100)]
pub fn online_slam(
    data: &Vec<Step>,
    num_landmarks: usize,
    motion_noise: i64,
    measurement_noise: i64,
    world_half: i64,
) -> (r: Result<Matrix, MatrixError>)
    requires
        motion_noise != 0,
        measurement_noise != 0,
    ensures
        r is Ok <==> 2 * (1 + num_landmarks as int) + 2 <= usize::MAX
            && steps_valid(data@, num_landmarks as int)
            && (match online_state(
                data@, num_landmarks as int,
                motion_noise as int, measurement_noise as int, world_half as int,
            ) {
                Option::Some((om, xi)) => solve_ok(om, xi, 2 * (1 + num_landmarks as int)),
                Option::None => false,
            }),
        r matches Ok(mu) ==> mu.wf() && mu.dimx as int == 2 * (1 + num_landmarks as int)
            && mu.dimy == 1
            && (match online_state(
                data@, num_landmarks as int,
                motion_noise as int, measurement_noise as int, world_half as int,
            ) {
                Option::Some((om, xi)) => forall|i: int|
                    0 <= i < mu.dimx ==> #[trigger] mu.at(i, 0) == solve_entry(
                        om, xi, 2 * (1 + num_landmarks as int), i,
                    ),
                Option::None => false,
            }),
        r matches Err(e) ==> if 2 * (1 + num_landmarks as int) + 2 > usize::MAX {
            e == MatrixError::ValueOutOfRange
        } else if !steps_valid(data@, num_landmarks as int) {
            e == MatrixError::IndexOutOfRange
        } else {
            match online_state(
                data@, num_landmarks as int,
                motion_noise as int, measurement_noise as int, world_half as int,
            ) {
                Option::None => e == MatrixError::NotPositiveDefinite
                    || e == MatrixError::ValueOutOfRange,
                Option::Some((om, xi)) => {
                    let dim = 2 * (1 + num_landmarks as int);
                    &&& (e == MatrixError::NotPositiveDefinite || e == MatrixError::ValueOutOfRange)
                    &&& (e == MatrixError::NotPositiveDefinite
                        ==> !chol_pd(om, dim, INVERSE_ZTOL as int)
                            || !inv_pd(chol_seq(om, dim, INVERSE_ZTOL as int), dim))
                    &&& (e == MatrixError::ValueOutOfRange
                        ==> !chol_all_ok(om, dim, INVERSE_ZTOL as int)
                            || !inv_all_ok(chol_seq(om, dim, INVERSE_ZTOL as int), dim)
                            || !mul_fits(inv_seq(om, dim), xi, dim, dim, 1))
                },
            }
        },
{
    let ghost mn = motion_noise as int;
    let ghost zn = measurement_noise as int;
    let ghost wh = world_half as int;
    let ghost nli = num_landmarks as int;
    let one_nl = match 1usize.checked_add(num_landmarks) {
        Some(v) => v,
        None => {
            return Err(MatrixError::ValueOutOfRange);
        },
    };
    let dim0 = match one_nl.checked_mul(2) {
        Some(v) => v,
        None => {
            return Err(MatrixError::ValueOutOfRange);
        },
    };
    let dim2 = match dim0.checked_add(2) {
        Some(v) => v,
        None => {
            return Err(MatrixError::ValueOutOfRange);
        },
    };
    let ghost dim0i = 2 * (1 + nli);
    let mut k: usize = 0;
    while k < data.len()
        invariant
            k <= data@.len(),
            nli == num_landmarks as int,
            dim0 as int == dim0i,
            dim0i == 2 * (1 + nli),
            dim2 == dim0 + 2,
            forall|k2: int, i2: int|
                0 <= k2 < k && 0 <= i2 < data@[k2].measurements@.len()
                    ==> (#[trigger] data@[k2].measurements@[i2]).landmark < num_landmarks,
        decreases data@.len() - k,
    {
        let step = &data[k];
        let mut i: usize = 0;
        while i < step.measurements.len()
            invariant
                k < data@.len(),
                step == data@[k as int],
                nli == num_landmarks as int,
                dim0 as int == dim0i,
                dim0i == 2 * (1 + nli),
                dim2 == dim0 + 2,
                i <= step.measurements@.len(),
                forall|i2: int|
                    0 <= i2 < i
                        ==> (#[trigger] step.measurements@[i2]).landmark < num_landmarks,
            decreases step.measurements@.len() - i,
        {
            if step.measurements[i].landmark >= num_landmarks {
                proof {
                    assert(!steps_valid(data@, nli));
                }
                return Err(MatrixError::IndexOutOfRange);
            }
            i = i + 1;
        }
        k = k + 1;
    }
    proof {
        assert(steps_valid(data@, nli));
    }
    let mut omega = match Matrix::zero(dim0, dim0) {
        Ok(m) => m,
        Err(_) => {
            proof {
                assert(false);
            }
            return Err(MatrixError::InvalidDimension);
        },
    };
    let mut xi = match Matrix::zero(dim0, 1) {
        Ok(m) => m,
        Err(_) => {
            proof {
                assert(false);
            }
            return Err(MatrixError::InvalidDimension);
        },
    };
    let ghost omz = omega;
    let ghost xiz = xi;
    proof {
        assert(omz.at(0, 0) == 0 && omz.at(1, 1) == 0);
        assert(xiz.at(0, 0) == 0 && xiz.at(1, 0) == 0);
    }
    if let Err(_) = omega.bump_add(0, 0, FX_ONE) {
        proof {
            assert(false);
        }
        return Err(MatrixError::ValueOutOfRange);
    }
    if let Err(_) = omega.bump_add(1, 1, FX_ONE) {
        proof {
            assert(false);
        }
        return Err(MatrixError::ValueOutOfRange);
    }
    if let Err(_) = xi.bump_add(0, 0, world_half) {
        proof {
            assert(false);
        }
        return Err(MatrixError::ValueOutOfRange);
    }
    if let Err(_) = xi.bump_add(1, 0, world_half) {
        proof {
            assert(false);
        }
        return Err(MatrixError::ValueOutOfRange);
    }
    proof {
        assert forall|p2: int| 0 <= p2 < dim0i implies
            #[trigger] omega.sv()[p2] =~= init_omega(dim0i)[p2] by {
            assert forall|q2: int| 0 <= q2 < dim0i implies
                #[trigger] omega.sv()[p2][q2] == init_omega(dim0i)[p2][q2] by {
                if !((p2 == 0 && q2 == 0) || (p2 == 1 && q2 == 1)) {
                    assert(omz.at(p2, q2) == 0);
                }
            }
        }
        assert(omega.sv() =~~= init_omega(dim0i));
        assert forall|p2: int| 0 <= p2 < dim0i implies
            #[trigger] xi.sv()[p2] =~= init_xi(dim0i, wh)[p2] by {
            assert forall|q2: int| 0 <= q2 < 1 implies
                #[trigger] xi.sv()[p2][q2] == init_xi(dim0i, wh)[p2][q2] by {
                if p2 >= 2 {
                    assert(xiz.at(p2, q2) == 0);
                }
            }
        }
        assert(xi.sv() =~~= init_xi(dim0i, wh));
        assert(online_fold(data@, 0, nli, mn, zn, wh) == Option::Some((omega.sv(), xi.sv())));
    }
    let mut list: Vec<usize> = Vec::new();
    list.push(0);
    list.push(1);
    let mut t: usize = 4;
    while t < dim2
        invariant
            4 <= t <= dim2,
            dim2 == dim0 + 2,
            list@.len() == t - 2,
            forall|x: int|
                0 <= x < list@.len() ==> (#[trigger] list@[x]) as int == (
                    if x < 2 { x } else { x + 2 }
                ),
        decreases dim2 - t,
    {
        list.push(t);
        t = t + 1;
    }
    proof {
        assert forall|x: int| 0 <= x < dim0i implies
            #[trigger] list@[x] == online_list(dim0i)[x] by {}
        assert(list@ =~= online_list(dim0i));
    }
    let mut rem: Vec<usize> = Vec::new();
    rem.push(0);
    rem.push(1);
    let mut unit: Vec<usize> = Vec::new();
    unit.push(0);
    proof {
        assert(unit@ =~= unit_list());
    }
    let empty: Vec<usize> = Vec::new();
    let mut list2: Vec<usize> = Vec::new();
    let mut t: usize = 2;
    while t < dim2
        invariant
            2 <= t <= dim2,
            dim2 == dim0 + 2,
            list2@.len() == t - 2,
            forall|x: int| 0 <= x < list2@.len() ==> (#[trigger] list2@[x]) as int == x + 2,
        decreases dim2 - t,
    {
        list2.push(t);
        t = t + 1;
    }
    let mut k: usize = 0;
    while k < data.len()
        invariant
            omega.wf(),
            xi.wf(),
            omega.dimx == dim0 && omega.dimy == dim0,
            xi.dimx == dim0 && xi.dimy == 1,
            dim0 as int == dim0i,
            dim0i == 2 * (1 + nli),
            dim2 == dim0 + 2,
            nli == num_landmarks as int,
            mn == motion_noise as int && zn == measurement_noise as int,
            wh == world_half as int,
            motion_noise != 0 && measurement_noise != 0,
            k <= data@.len(),
            steps_valid(data@, nli),
            list@ == online_list(dim0i),
            rem@.len() == 2 && rem@[0] == 0usize && rem@[1] == 1usize,
            unit@ == unit_list(),
            empty@.len() == 0,
            list2@.len() == dim0,
            forall|x: int| 0 <= x < dim0 ==> (#[trigger] list2@[x]) as int == x + 2,
            online_fold(data@, k as int, nli, mn, zn, wh)
                == Option::Some((omega.sv(), xi.sv())),
        decreases data@.len() - k,
    {
        let step = &data[k];
        let ghost om_k = omega.sv();
        let ghost xi_k = xi.sv();
        let mut i: usize = 0;
        while i < step.measurements.len()
            invariant
                omega.wf(),
                xi.wf(),
                omega.dimx == dim0 && omega.dimy == dim0,
                xi.dimx == dim0 && xi.dimy == 1,
                dim0 as int == dim0i,
                dim0i == 2 * (1 + nli),
                nli == num_landmarks as int,
                mn == motion_noise as int && zn == measurement_noise as int,
                wh == world_half as int,
                measurement_noise != 0,
                k < data@.len(),
                step == data@[k as int],
                steps_valid(data@, nli),
                i <= step.measurements@.len(),
                online_fold(data@, k as int, nli, mn, zn, wh)
                    == Option::Some((om_k, xi_k)),
                meas_fold(
                    Option::Some((om_k, xi_k)), step.measurements@, i as int, 0, 2, zn,
                ) == Option::Some((omega.sv(), xi.sv())),
            decreases step.measurements@.len() - i,
        {
            let meas = &step.measurements[i];
            proof {
                assert(data@[k as int].measurements@[i as int].landmark < num_landmarks);
            }
            let m = 2 * (1 + meas.landmark);
            match apply_measurement(
                &mut omega, &mut xi, 0, m, meas.dx, meas.dy, measurement_noise,
            ) {
                Ok(()) => {},
                Err(_) => {
                    proof {
                        assert(meas_fold(
                            Option::Some((om_k, xi_k)), step.measurements@, i as int + 1,
                            0, 2, zn,
                        ) is None);
                        lemma_meas_fold_none(
                            Option::Some((om_k, xi_k)), step.measurements@, i as int + 1,
                            step.measurements@.len() as int, 0, 2, zn,
                        );
                        assert(online_fold(data@, k as int + 1, nli, mn, zn, wh) is None);
                        lemma_online_fold_none(
                            data@, k as int + 1, data@.len() as int, nli, mn, zn, wh,
                        );
                    }
                    return Err(MatrixError::ValueOutOfRange);
                },
            }
            i = i + 1;
        }
        let ghost om1 = omega.sv();
        let ghost xi1 = xi.sv();
        let om2m = match omega.expand(dim2, dim2, &list, &list) {
            Ok(m) => m,
            Err(_) => {
                proof {
                    assert(false);
                }
                return Err(MatrixError::ValueOutOfRange);
            },
        };
        let xi2m = match xi.expand(dim2, 1, &list, &unit) {
            Ok(m) => m,
            Err(_) => {
                proof {
                    assert(false);
                }
                return Err(MatrixError::ValueOutOfRange);
            },
        };
        proof {
            assert forall|p2: int, q2: int|
                0 <= p2 < dim2 && 0 <= q2 < dim2 implies
                #[trigger] om2m.at(p2, q2) == expand_sq(om1, dim0i)[p2][q2] by {}
            lemma_table_eq(om2m, expand_sq(om1, dim0i), dim2 as int, dim2 as int);
            assert forall|p2: int, q2: int|
                0 <= p2 < dim2 && 0 <= q2 < 1 implies
                #[trigger] xi2m.at(p2, q2) == expand_col(xi1, dim0i)[p2][q2] by {}
            lemma_table_eq(xi2m, expand_col(xi1, dim0i), dim2 as int, 1);
        }
        let mut omega2 = om2m;
        let mut xi2 = xi2m;
        match apply_motion(&mut omega2, &mut xi2, 0, step.motion_x, step.motion_y, motion_noise) {
            Ok(()) => {},
            Err(_) => {
                proof {
                    assert(online_fold(data@, k as int + 1, nli, mn, zn, wh) is None);
                    lemma_online_fold_none(
                        data@, k as int + 1, data@.len() as int, nli, mn, zn, wh,
                    );
                }
                return Err(MatrixError::ValueOutOfRange);
            },
        }
        let ghost om3 = omega2.sv();
        let ghost xi3 = xi2.sv();
        let a = match omega2.take(&rem, &list2) {
            Ok(m) => m,
            Err(_) => {
                proof {
                    assert(false);
                }
                return Err(MatrixError::ValueOutOfRange);
            },
        };
        proof {
            assert forall|p2: int, q2: int|
                0 <= p2 < 2 && 0 <= q2 < dim0i implies
                #[trigger] a.at(p2, q2) == marg_a(om3, dim0i)[p2][q2] by {}
            lemma_table_eq(a, marg_a(om3, dim0i), 2, dim0i);
        }
        let b = match omega2.take(&rem, &empty) {
            Ok(m) => m,
            Err(_) => {
                proof {
                    assert(false);
                }
                return Err(MatrixError::ValueOutOfRange);
            },
        };
        proof {
            assert forall|p2: int, q2: int|
                0 <= p2 < 2 && 0 <= q2 < 2 implies
                #[trigger] b.at(p2, q2) == marg_b(om3)[p2][q2] by {}
            lemma_table_eq(b, marg_b(om3), 2, 2);
        }
        let c = match xi2.take(&rem, &unit) {
            Ok(m) => m,
            Err(_) => {
                proof {
                    assert(false);
                }
                return Err(MatrixError::ValueOutOfRange);
            },
        };
        proof {
            assert forall|p2: int, q2: int|
                0 <= p2 < 2 && 0 <= q2 < 1 implies
                #[trigger] c.at(p2, q2) == marg_c(xi3)[p2][q2] by {}
            lemma_table_eq(c, marg_c(xi3), 2, 1);
        }
        let keep_om_m = match omega2.take(&list2, &empty) {
            Ok(m) => m,
            Err(_) => {
                proof {
                    assert(false);
                }
                return Err(MatrixError::ValueOutOfRange);
            },
        };
        proof {
            assert forall|p2: int, q2: int|
                0 <= p2 < dim0i && 0 <= q2 < dim0i implies
                #[trigger] keep_om_m.at(p2, q2) == marg_keep_om(om3, dim0i)[p2][q2] by {}
            lemma_table_eq(keep_om_m, marg_keep_om(om3, dim0i), dim0i, dim0i);
        }
        let keep_xi_m = match xi2.take(&list2, &unit) {
            Ok(m) => m,
            Err(_) => {
                proof {
                    assert(false);
                }
                return Err(MatrixError::ValueOutOfRange);
            },
        };
        proof {
            assert forall|p2: int, q2: int|
                0 <= p2 < dim0i && 0 <= q2 < 1 implies
                #[trigger] keep_xi_m.at(p2, q2) == marg_keep_xi(xi3, dim0i)[p2][q2] by {}
            lemma_table_eq(keep_xi_m, marg_keep_xi(xi3, dim0i), dim0i, 1);
        }
        let at_m = a.transpose();
        proof {
            assert forall|p2: int, q2: int|
                0 <= p2 < dim0i && 0 <= q2 < 2 implies
                #[trigger] at_m.at(p2, q2) == marg_at(om3, dim0i)[p2][q2] by {}
            lemma_table_eq(at_m, marg_at(om3, dim0i), dim0i, 2);
        }
        let binv = match b.inverse() {
            Ok(m) => m,
            Err(e) => {
                proof {
                    assert(!marg_ok(om3, xi3, dim0i));
                    assert(online_fold(data@, k as int + 1, nli, mn, zn, wh) is None);
                    lemma_online_fold_none(
                        data@, k as int + 1, data@.len() as int, nli, mn, zn, wh,
                    );
                    assert(e == MatrixError::NotPositiveDefinite
                        || e == MatrixError::ValueOutOfRange);
                }
                return Err(e);
            },
        };
        proof {
            assert forall|p2: int, q2: int|
                0 <= p2 < 2 && 0 <= q2 < 2 implies
                #[trigger] binv.at(p2, q2) == inv_seq(marg_b(om3), 2)[p2][q2] by {}
            lemma_table_eq(binv, inv_seq(marg_b(om3), 2), 2, 2);
        }
        let t1 = match at_m.mul(&binv) {
            Ok(m) => m,
            Err(e) => {
                proof {
                    assert(e == MatrixError::ValueOutOfRange);
                    assert(!marg_ok(om3, xi3, dim0i));
                    assert(online_fold(data@, k as int + 1, nli, mn, zn, wh) is None);
                    lemma_online_fold_none(
                        data@, k as int + 1, data@.len() as int, nli, mn, zn, wh,
                    );
                }
                return Err(e);
            },
        };
        proof {
            assert forall|p2: int, q2: int|
                0 <= p2 < dim0i && 0 <= q2 < 2 implies
                #[trigger] t1.at(p2, q2) == marg_t1(om3, dim0i)[p2][q2] by {}
            lemma_table_eq(t1, marg_t1(om3, dim0i), dim0i, 2);
        }
        let t2 = match t1.mul(&a) {
            Ok(m) => m,
            Err(e) => {
                proof {
                    assert(e == MatrixError::ValueOutOfRange);
                    assert(!marg_ok(om3, xi3, dim0i));
                    assert(online_fold(data@, k as int + 1, nli, mn, zn, wh) is None);
                    lemma_online_fold_none(
                        data@, k as int + 1, data@.len() as int, nli, mn, zn, wh,
                    );
                }
                return Err(e);
            },
        };
        proof {
            assert forall|p2: int, q2: int|
                0 <= p2 < dim0i && 0 <= q2 < dim0i implies
                #[trigger] t2.at(p2, q2) == marg_t2(om3, dim0i)[p2][q2] by {}
            lemma_table_eq(t2, marg_t2(om3, dim0i), dim0i, dim0i);
        }
        let t4 = match t1.mul(&c) {
            Ok(m) => m,
            Err(e) => {
                proof {
                    assert(e == MatrixError::ValueOutOfRange);
                    assert(!marg_ok(om3, xi3, dim0i));
                    assert(online_fold(data@, k as int + 1, nli, mn, zn, wh) is None);
                    lemma_online_fold_none(
                        data@, k as int + 1, data@.len() as int, nli, mn, zn, wh,
                    );
                }
                return Err(e);
            },
        };
        proof {
            assert forall|p2: int, q2: int|
                0 <= p2 < dim0i && 0 <= q2 < 1 implies
                #[trigger] t4.at(p2, q2) == marg_t4(om3, xi3, dim0i)[p2][q2] by {}
            lemma_table_eq(t4, marg_t4(om3, xi3, dim0i), dim0i, 1);
        }
        let om_new = match keep_om_m.sub(&t2) {
            Ok(m) => m,
            Err(e) => {
                proof {
                    assert(e == MatrixError::ValueOutOfRange);
                    assert(!marg_ok(om3, xi3, dim0i));
                    assert(online_fold(data@, k as int + 1, nli, mn, zn, wh) is None);
                    lemma_online_fold_none(
                        data@, k as int + 1, data@.len() as int, nli, mn, zn, wh,
                    );
                }
                return Err(e);
            },
        };
        let xi_new = match keep_xi_m.sub(&t4) {
            Ok(m) => m,
            Err(e) => {
                proof {
                    assert(e == MatrixError::ValueOutOfRange);
                    assert(!marg_ok(om3, xi3, dim0i));
                    assert(online_fold(data@, k as int + 1, nli, mn, zn, wh) is None);
                    lemma_online_fold_none(
                        data@, k as int + 1, data@.len() as int, nli, mn, zn, wh,
                    );
                }
                return Err(e);
            },
        };
        proof {
            assert forall|p2: int, q2: int|
                0 <= p2 < dim0i && 0 <= q2 < dim0i implies
                #[trigger] om_new.at(p2, q2) == marg_om(om3, dim0i)[p2][q2] by {}
            lemma_table_eq(om_new, marg_om(om3, dim0i), dim0i, dim0i);
            assert forall|p2: int, q2: int|
                0 <= p2 < dim0i && 0 <= q2 < 1 implies
                #[trigger] xi_new.at(p2, q2) == marg_xi(om3, xi3, dim0i)[p2][q2] by {}
            lemma_table_eq(xi_new, marg_xi(om3, xi3, dim0i), dim0i, 1);
            assert(marg_ok(om3, xi3, dim0i));
            assert(online_fold(data@, k as int + 1, nli, mn, zn, wh)
                == Option::Some((om_new.sv(), xi_new.sv())));
        }
        omega = om_new;
        xi = xi_new;
        k = k + 1;
    }
    let ghost om_f = omega.sv();
    let ghost xi_f = xi.sv();
    let minv = match omega.inverse() {
        Ok(m) => m,
        Err(e) => {
            return Err(e);
        },
    };
    proof {
        assert forall|p2: int| 0 <= p2 < dim0i implies
            #[trigger] minv.sv()[p2] =~= inv_seq(om_f, dim0i)[p2] by {
            assert forall|q2: int| 0 <= q2 < dim0i implies
                #[trigger] minv.sv()[p2][q2] == inv_seq(om_f, dim0i)[p2][q2] by {
                assert(minv.at(p2, q2)
                    == inv_full(chol_seq(om_f, dim0i, INVERSE_ZTOL as int), dim0i, p2, q2));
            }
        }
        assert(minv.sv() =~~= inv_seq(om_f, dim0i));
    }
    let mu = match minv.mul(&xi) {
        Ok(m) => m,
        Err(e) => {
            return Err(e);
        },
    };
    proof {
        assert forall|i2: int| 0 <= i2 < dim0i implies
            #[trigger] mu.at(i2, 0) == solve_entry(om_f, xi_f, dim0i, i2) by {
            assert(mu.at(i2, 0) == mul_dot(minv.sv(), xi.sv(), i2, 0, dim0i));
        }
    }
    Ok(mu)
}

/// Determinism: on equal step sequences and equal noise parameters, both
/// estimators reach the same information state, so the estimates each
/// returns are pinned to the same values. Neither estimator reads anything
/// but its arguments.
pub proof fn lemma_estimators_deterministic(
    d1: Seq<Step>,
    d2: Seq<Step>,
    n: int,
    nl: int,
    mn: int,
    zn: int,
    wh: int,
)
    requires
        d1 == d2,
    ensures
        slam_state(d1, n, nl, mn, zn, wh) == slam_state(d2, n, nl, mn, zn, wh),
        online_state(d1, nl, mn, zn, wh) == online_state(d2, nl, mn, zn, wh),
{
}

} // verus!
