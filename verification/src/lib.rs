//! Near-duplicate image detection.
//!
//! Every image is reduced to a perceptual fingerprint, and the images whose
//! fingerprints lie within a Hamming-distance threshold of an anchor image are
//! clustered around that anchor.

pub mod fingerprint;
pub mod models;
pub mod extractor;
pub mod scanner;
pub mod grouping;
pub mod group_laws;
pub mod coverage_laws;
pub mod report;
