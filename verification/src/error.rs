//! The error kinds a pipeline invocation can report.  Every error is local
//! to one invocation: it is returned to the caller and never panics the
//! process.

use vstd::prelude::*;

verus! {

#[derive(Clone, Copy, PartialEq, Eq, Structural, Debug)]
pub enum PipelineError {
    /// The screen-region text is malformed, a fraction lies outside [0, 1],
    /// or an end fraction is smaller than its start fraction.
    RegionValidation,
    /// The mapped rectangle has zero width or zero height after rounding.
    DegenerateCrop,
    /// A mask and the buffer it composites against differ in dimensions.
    DimensionMismatch,
    /// A color tolerance of zero was passed to dominant-color extraction.
    InvalidTolerance,
}

} // verus!
