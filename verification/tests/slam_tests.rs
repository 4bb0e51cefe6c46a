use graph_slam::errors::MatrixError;
use graph_slam::fixed::FX_ONE;
use graph_slam::kalman::{predict, update};
use graph_slam::matrix::Matrix;
use graph_slam::slam::{online_slam, slam, Measurement, Step};

fn fx(v: f64) -> i64 {
    (v * FX_ONE as f64).round() as i64
}

fn unfx(v: i64) -> f64 {
    v as f64 / FX_ONE as f64
}

fn meas(landmark: usize, dx: f64, dy: f64) -> Measurement {
    Measurement { landmark, dx: fx(dx), dy: fx(dy) }
}

fn step(measurements: Vec<Measurement>, mx: f64, my: f64) -> Step {
    Step { measurements, motion_x: fx(mx), motion_y: fx(my) }
}

fn entry(m: &Matrix, i: usize) -> f64 {
    unfx(m.get(i, 0))
}

// A one-dimensional toy run embedded in the x coordinate: a pose at -3,
// moves of +5 and +3 (poses at -3, 2, 5), and measurements of 10, 5 and 2 to
// a single landmark near 7, with both noise variances 1. The data is
// consistent, so the least-squares solution is exact.
#[test]
fn batch_matches_closed_form_on_toy_run() {
    let data = vec![
        step(vec![meas(0, 10.0, 0.0)], 5.0, 0.0),
        step(vec![meas(0, 5.0, 0.0)], 3.0, 0.0),
        step(vec![meas(0, 2.0, 0.0)], 0.0, 0.0),
    ];
    // Four poses (the last step's motion is a stand-still), one landmark.
    let mu = slam(&data, 4, 1, fx(1.0), fx(1.0), fx(-3.0)).unwrap();
    assert_eq!(mu.dimx, 10);
    let tol = 0.01;
    let expected_x = [-3.0, 2.0, 5.0, 5.0, 7.0];
    for (i, want) in expected_x.iter().enumerate() {
        let got = entry(&mu, 2 * i);
        assert!((got - want).abs() < tol, "x[{}]: got {}, want {}", i, got, want);
    }
    // Every y coordinate stays at the anchor: motions and offsets are zero.
    for i in 0..5 {
        let got = entry(&mu, 2 * i + 1);
        assert!((got + 3.0).abs() < tol, "y[{}]: got {}", i, got);
    }
}

// The online estimator's final pose and landmark estimates agree with the
// batch estimator's last-pose block on the same data: marginalization is
// exact under the linear-Gaussian model.
#[test]
fn online_agrees_with_batch_on_final_state() {
    // Poses (1,1) -> (2,1) -> (2,2); landmarks at (4,3) and (0,0); exact
    // relative measurements from the first two poses.
    let data = vec![
        step(vec![meas(0, 3.0, 2.0), meas(1, -1.0, -1.0)], 1.0, 0.0),
        step(vec![meas(0, 2.0, 2.0), meas(1, -2.0, -1.0)], 0.0, 1.0),
    ];
    let n = 3;
    let nl = 2;
    let batch = slam(&data, n, nl, fx(1.0), fx(1.0), fx(1.0)).unwrap();
    let online = online_slam(&data, nl, fx(1.0), fx(1.0), fx(1.0)).unwrap();
    assert_eq!(online.dimx, 2 * (1 + nl));
    let tol = 0.01;
    // Final pose.
    for b in 0..2 {
        let want = entry(&batch, 2 * (n - 1) + b);
        let got = entry(&online, b);
        assert!((got - want).abs() < tol, "pose[{}]: got {}, want {}", b, got, want);
    }
    // Landmarks.
    for l in 0..nl {
        for b in 0..2 {
            let want = entry(&batch, 2 * (n + l) + b);
            let got = entry(&online, 2 * (1 + l) + b);
            assert!((got - want).abs() < tol, "lm[{}][{}]: got {}, want {}", l, b, got, want);
        }
    }
    // And the absolute positions are recovered.
    assert!((entry(&online, 0) - 2.0).abs() < tol);
    assert!((entry(&online, 1) - 2.0).abs() < tol);
    assert!((entry(&online, 2) - 4.0).abs() < tol);
    assert!((entry(&online, 3) - 3.0).abs() < tol);
    assert!((entry(&online, 4) - 0.0).abs() < tol);
    assert!((entry(&online, 5) - 0.0).abs() < tol);
}

// Identical step sequences and noise parameters give bit-for-bit identical
// output: the estimators hold no hidden state and draw no randomness.
#[test]
fn estimators_are_deterministic() {
    let make = || vec![
        step(vec![meas(0, 3.0, 2.0), meas(1, -1.0, -1.0)], 1.0, 0.0),
        step(vec![meas(0, 2.0, 2.0), meas(1, -2.0, -1.0)], 0.0, 1.0),
    ];
    let b1 = slam(&make(), 3, 2, fx(2.0), fx(2.0), fx(50.0)).unwrap();
    let b2 = slam(&make(), 3, 2, fx(2.0), fx(2.0), fx(50.0)).unwrap();
    assert_eq!(b1.dimx, b2.dimx);
    for i in 0..b1.dimx {
        assert_eq!(b1.get(i, 0), b2.get(i, 0));
    }
    let o1 = online_slam(&make(), 2, fx(2.0), fx(2.0), fx(50.0)).unwrap();
    let o2 = online_slam(&make(), 2, fx(2.0), fx(2.0), fx(50.0)).unwrap();
    assert_eq!(o1.dimx, o2.dimx);
    for i in 0..o1.dimx {
        assert_eq!(o1.get(i, 0), o2.get(i, 0));
    }
}

#[test]
fn batch_rejects_bad_sizing() {
    let data = vec![step(vec![], 1.0, 0.0)];
    assert_eq!(
        slam(&data, 0, 1, fx(1.0), fx(1.0), fx(0.0)).unwrap_err(),
        MatrixError::InvalidDimension
    );
    assert_eq!(
        slam(&data, 1, 1, fx(1.0), fx(1.0), fx(0.0)).unwrap_err(),
        MatrixError::InvalidDimension
    );
}

#[test]
fn estimators_reject_unknown_landmarks() {
    let data = vec![step(vec![meas(3, 1.0, 1.0)], 1.0, 0.0)];
    assert_eq!(
        slam(&data, 2, 1, fx(1.0), fx(1.0), fx(0.0)).unwrap_err(),
        MatrixError::IndexOutOfRange
    );
    assert_eq!(
        online_slam(&data, 1, fx(1.0), fx(1.0), fx(0.0)).unwrap_err(),
        MatrixError::IndexOutOfRange
    );
}

#[test]
fn unobserved_landmark_is_not_positive_definite() {
    // One landmark that no measurement constrains: its information block is
    // zero, the factor's diagonal vanishes there, and inversion is refused.
    let data = vec![step(vec![], 1.0, 0.0)];
    assert_eq!(
        slam(&data, 2, 1, fx(1.0), fx(1.0), fx(0.0)).unwrap_err(),
        MatrixError::NotPositiveDefinite
    );
}

#[test]
fn online_runs_with_no_steps() {
    // With no steps the online state is just the anchored pose: the solve
    // inverts the anchor block, but an unobserved landmark is singular.
    let data: Vec<Step> = vec![];
    assert_eq!(
        online_slam(&data, 1, fx(1.0), fx(1.0), fx(7.0)).unwrap_err(),
        MatrixError::NotPositiveDefinite
    );
    // With no landmarks at all the state is the pose alone and solvable.
    let mu = online_slam(&data, 0, fx(1.0), fx(1.0), fx(7.0)).unwrap();
    assert!((entry(&mu, 0) - 7.0).abs() < 0.01);
    assert!((entry(&mu, 1) - 7.0).abs() < 0.01);
}

#[test]
fn kalman_update_fuses_gaussians() {
    // Fusing (10, 8) with a measurement (13, 2) gives (12.4, 1.6).
    let (m, v) = update(fx(10.0), fx(8.0), fx(13.0), fx(2.0)).unwrap();
    assert!((unfx(m) - 12.4).abs() < 1e-3);
    assert!((unfx(v) - 1.6).abs() < 1e-3);
}

#[test]
fn kalman_predict_adds_means_and_variances() {
    let (m, v) = predict(fx(10.0), fx(4.0), fx(12.0), fx(4.0)).unwrap();
    assert_eq!(m, fx(22.0));
    assert_eq!(v, fx(8.0));
}

#[test]
fn kalman_update_overflows_to_error() {
    assert_eq!(
        update(i64::MAX, i64::MAX, i64::MAX, i64::MAX).unwrap_err(),
        MatrixError::ValueOutOfRange
    );
}
