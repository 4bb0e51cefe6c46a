//! Graph-based SLAM estimation on an exact fixed-point matrix kernel.
//!
//! The crate provides a dense matrix kernel (addition, multiplication,
//! transpose, submatrix take/expand, Cholesky factorization and
//! Cholesky-based inversion) over fixed-point numbers, and two estimators
//! built on it: a batch estimator that solves one information system over a
//! whole trajectory, and an online estimator that keeps a constant-size
//! state by marginalizing out past poses.

pub mod errors;
pub mod fixed;
pub mod matrix;
pub mod slam;
pub mod kalman;
pub mod grid;
