use vstd::prelude::*;
use crate::tree::Error;

verus! {

/// What device discovery leads to: `GpuNotFound` when no adapter is
/// available, and otherwise whether to warn that the adapter is a software
/// (CPU) one.
pub fn adapter_outcome(available: bool, software: bool) -> (r: Result<bool, Error>)
    ensures
        !available <==> r == Err::<bool, Error>(Error::GpuNotFound),
        available ==> r == Ok::<bool, Error>(software),
{
    if !available {
        Err(Error::GpuNotFound)
    } else {
        Ok(software)
    }
}

} // verus!
