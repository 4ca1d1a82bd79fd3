//! Error taxonomy of the subsetting engine.

use vstd::prelude::*;

verus! {

/// The failure modes of the pipeline.
///
/// - `MalformedFont`: the input bytes are not a structurally valid font.
/// - `PlanUnsatisfiable`: the size / count constraints cannot be met
///   without dropping characters.
/// - `SerializationError`: emitting one subset binary failed.
/// - `CoverageGap`: post-build verification found a requested character
///   covered by no artifact.
#[derive(Clone, Copy, PartialEq, Eq, Structural, Debug)]
pub enum SubsetError {
    MalformedFont,
    PlanUnsatisfiable,
    SerializationError,
    CoverageGap,
}

impl SubsetError {
    /// A short human-readable label for the error.
    pub fn label(&self) -> (r: &'static str)
        ensures
            r@ == self.label_spec(),
    {
        match self {
            SubsetError::MalformedFont => "malformed font",
            SubsetError::PlanUnsatisfiable => "plan unsatisfiable",
            SubsetError::SerializationError => "serialization error",
            SubsetError::CoverageGap => "coverage gap",
        }
    }

    pub open spec fn label_spec(self) -> Seq<char> {
        match self {
            SubsetError::MalformedFont => "malformed font"@,
            SubsetError::PlanUnsatisfiable => "plan unsatisfiable"@,
            SubsetError::SerializationError => "serialization error"@,
            SubsetError::CoverageGap => "coverage gap"@,
        }
    }
}

} // verus!
