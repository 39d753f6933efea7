use vstd::prelude::*;

verus! {

/// The failure taxonomy of one mosaic build. Candidate decode failures are
/// recovered by skipping; every variant here aborts the build.
#[derive(Debug)]
pub enum MosaicError {
    /// A raster file failed to decode; fatal for the target image.
    DecodeError { path: String },
    /// Every candidate was skipped, or the input set was empty; raised
    /// before matching begins.
    EmptyCandidateSetError,
    /// The matcher found no descriptor scoring below the sentinel - in
    /// particular, it was invoked with none at all; a defensive invariant
    /// behind the emptiness check.
    NoCandidatesError,
    /// Filesystem access failed for the given path.
    IoError { path: String },
}

} // verus!
