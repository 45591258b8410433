//! Analyses built on the measurements.

pub mod degrees;
