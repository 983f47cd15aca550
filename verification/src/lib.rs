//! Verified core of the events analyser: metric outputs and their
//! aggregation into series, per-bucket metric result storage, and the
//! data shaping that charts are built from.

pub mod output;
pub mod results;
pub mod chart;
pub mod spectra;
