//! The ways in which a run can fail.

use vstd::prelude::*;

verus! {

/// Why a run was aborted. Every kind is fatal: no function returns a partial
/// result next to one of these.
#[derive(Debug, Clone, Copy, PartialEq, Eq, Structural)]
pub enum PipelineError {
    /// The training line with this 0-based number is not a JSON object with a
    /// string under the text key.
    Parse { line: usize },
    /// The index or the boundary table is malformed, or a position lies
    /// outside the validation corpus.
    Index,
    /// A persisted artifact cannot be decoded.
    Serialization,
    /// The run parameters cannot be used together.
    Config,
}

/// `r` is the failure `e`.
pub open spec fn failed_with<T>(r: Result<T, PipelineError>, e: PipelineError) -> bool {
    r == Err::<T, PipelineError>(e)
}

} // verus!
