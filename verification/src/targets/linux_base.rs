//! Shared options of Linux targets.

use vstd::prelude::*;
use crate::targets::TargetOptions;

verus! {

/// The base options of Linux targets.
pub fn opts() -> (r: TargetOptions)
    ensures
        !r.is_like_windows,
        !r.is_like_msvc,
        r.cpu@.len() == 0,
{
    Default::default()
}

} // verus!
