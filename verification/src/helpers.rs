//! Small helpers for generated code.

use vstd::prelude::*;

verus! {

/// A buffer or value in a wrapper of its own, for code that places it at an
/// aligned address.
pub struct Aligned256<T>(pub T);

} // verus!
