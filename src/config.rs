use vstd::prelude::*;

verus! {

/// Number of sentences kept by the extractive stage when none is configured.
pub fn default_sentence_count() -> (r: usize)
    ensures
        r == 30,
{
    30
}

/// Failures of the summarization pipeline.
#[derive(Debug, Clone, Copy, PartialEq, Eq, Structural)]
pub enum SummaryError {
    /// The document holds no sentence.
    EmptyInput,
    /// The rank iteration did not settle within its iteration bound.
    ConvergenceFailure,
}

} // verus!
