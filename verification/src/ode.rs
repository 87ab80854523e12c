//! How an integration run ended.

use vstd::prelude::*;

verus! {

/// How an integration run ended.
#[derive(Copy, Clone, Debug, PartialEq, Eq, Structural)]
pub enum Status {
    Success,
    MaxStepsExceeded,
    StepSizeUnderflow,
    StepFailed,
}

} // verus!
