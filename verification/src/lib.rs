//! Weighted privacy-integrated queries: weighted collections, the affine
//! operators over them, and noisy measurement with error tracking.

pub mod datum;
pub mod weights;
pub mod analyses;
pub mod merge_sort;
pub mod dataset;
pub mod fingerprint;
pub mod noise;
pub mod operators;
