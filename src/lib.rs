//! Bookkeeping for low-rank image reconstruction from sampled pixels: which cells
//! of the matrix are observed, moving values between the matrix and the observed
//! entries, partitioning a candidate range around a pivot for the simplex
//! projection, and laying matrices out as RGBA pixels.
pub mod grid;
pub mod observations;
pub mod partition;
pub mod render;
