//! Shared options of targets linked with the MSVC toolchain.

use vstd::prelude::*;
use crate::targets::TargetOptions;

verus! {

/// The base options of MSVC-style Windows targets.
pub fn opts() -> (r: TargetOptions)
    ensures
        r.is_like_windows,
        r.is_like_msvc,
        r.cpu@.len() == 0,
{
    TargetOptions { is_like_windows: true, is_like_msvc: true, ..Default::default() }
}

} // verus!
