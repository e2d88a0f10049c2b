//! The ways in which a labeling run can fail on the host.

use vstd::prelude::*;

verus! {

/// Why a pipeline cannot be built or its result cannot be read.
#[derive(Clone, Copy, Debug, PartialEq, Eq, Structural)]
pub enum PipelineError {
    /// The size in bytes of a buffer with one slot per pixel does not fit 64 bits.
    BufferTooLarge,
    /// The image has more pixels than a 32-bit slot can point at.
    TooManyPixels,
    /// The raster does not hold four bytes for each pixel of its extent.
    TexelCount,
    /// The bytes read back are not four for each pixel of the extent.
    ReadbackLength,
}

} // verus!
