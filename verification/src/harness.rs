//! Measuring the index: data preparation, ground truth, caches and scores.

pub mod cache;
pub mod dataset;
pub mod fingerprint;
pub mod laws;
pub mod score;
pub mod splitmix;
pub mod text;
pub mod truth;
