//! Pieces of the pluggable segmentation pipeline that carry no geometry.

use vstd::prelude::*;
use crate::scan::ScanError;

verus! {

/// Number of eigenvalue features per point: planarity, linearity,
/// sphericity, omnivariance, curvature and the normal's Z component.
pub const EIGEN_FEATURE_DIM: usize = 6;

/// Extracts 6D eigenvalue-based geometric features per point.
///
/// Produces: `[planarity, linearity, sphericity, omnivariance, curvature, normal_z]`
#[derive(Debug, Default, Clone, Copy)]
pub struct EigenvalueExtractor;

impl EigenvalueExtractor {
    /// The dimensionality of the vectors this extractor produces.
    pub fn feature_dim(&self) -> (d: usize)
        ensures
            d == EIGEN_FEATURE_DIM,
    {
        EIGEN_FEATURE_DIM
    }
}

/// Errors from pipeline execution.
#[derive(Debug)]
pub enum PipelineError {
    /// The classifier failed.
    Classification(String),
    /// Scan processing failed.
    Scan(ScanError),
}

} // verus!
