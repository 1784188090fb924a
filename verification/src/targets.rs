//! Compilation-target descriptions: the data a code generator needs to know
//! about the machine it emits code for.

pub mod linux_base;
pub mod windows_msvc_base;
pub mod x86_64_pc_windows_msvc;
pub mod x86_64_unknown_linux_gnu;

use vstd::prelude::*;

verus! {

/// Which linker style the target uses.
#[derive(Clone, Copy, PartialEq, Eq, Structural)]
pub enum LinkerFlavor {
    Ld,
    Msvc,
}

/// Options shared by families of targets.
pub struct TargetOptions {
    pub cpu: String,
    pub is_like_windows: bool,
    pub is_like_msvc: bool,
}

impl Default for TargetOptions {
    /// No CPU chosen, not Windows-like, not MSVC-like.
    fn default() -> (r: TargetOptions)
        ensures
            r.cpu@.len() == 0,
            !r.is_like_windows,
            !r.is_like_msvc,
    {
        TargetOptions { cpu: String::new(), is_like_windows: false, is_like_msvc: false }
    }
}

/// A complete target description.
pub struct Target {
    pub llvm_target: String,
    pub target_endian: String,
    pub target_pointer_width: String,
    pub target_c_int_width: String,
    pub target_os: String,
    pub target_env: String,
    pub target_vendor: String,
    pub arch: String,
    pub data_layout: String,
    pub linker_flavor: LinkerFlavor,
    pub options: TargetOptions,
}

/// A target description, or the reason none could be built.
pub type TargetResult = Result<Target, String>;

} // verus!
