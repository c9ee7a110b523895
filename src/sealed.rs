use vstd::prelude::*;

verus! {

/// Keeps the set of element types closed: this module is private, so only
/// this library can implement it.
pub trait Sealed {
}

} // verus!
