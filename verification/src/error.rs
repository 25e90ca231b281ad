use vstd::prelude::*;

verus! {

/// What the library refuses to work with.
#[derive(Clone, Copy, Debug, PartialEq, Eq, Structural)]
pub enum PipelineError {
    /// A pool of zero workers was asked for.
    InvalidConfiguration,
}

} // verus!
