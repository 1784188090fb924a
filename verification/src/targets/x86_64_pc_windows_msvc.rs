//! The 64-bit Windows MSVC target.

use vstd::prelude::*;
use crate::targets::{LinkerFlavor, Target, TargetResult};

verus! {

/// The description of the `x86_64-pc-windows-msvc` target.
pub fn target() -> (r: TargetResult)
    ensures
        r is Ok,
        r->Ok_0.llvm_target@ == "x86_64-pc-windows-msvc"@,
        r->Ok_0.target_endian@ == "little"@,
        r->Ok_0.target_pointer_width@ == "64"@,
        r->Ok_0.target_c_int_width@ == "32"@,
        r->Ok_0.target_os@ == "windows"@,
        r->Ok_0.target_env@ == "msvc"@,
        r->Ok_0.target_vendor@ == "pc"@,
        r->Ok_0.arch@ == "x86_64"@,
        r->Ok_0.data_layout@ == "e-m:w-p270:32:32-p271:32:32-p272:64:64-i64:64-f80:128-n8:16:32:64-S128"@,
        r->Ok_0.linker_flavor == LinkerFlavor::Msvc,
        r->Ok_0.options.cpu@ == "x86-64"@,
        r->Ok_0.options.is_like_windows,
        r->Ok_0.options.is_like_msvc,
{
    let mut base = super::windows_msvc_base::opts();
    base.cpu = "x86-64".to_owned();

    Ok(
        Target {
            llvm_target: "x86_64-pc-windows-msvc".to_owned(),
            target_endian: "little".to_owned(),
            target_pointer_width: "64".to_owned(),
            target_c_int_width: "32".to_owned(),
            target_os: "windows".to_owned(),
            target_env: "msvc".to_owned(),
            target_vendor: "pc".to_owned(),
            arch: "x86_64".to_owned(),
            data_layout: "e-m:w-p270:32:32-p271:32:32-p272:64:64-i64:64-f80:128-n8:16:32:64-S128"
                .to_owned(),
            linker_flavor: LinkerFlavor::Msvc,
            options: base,
        },
    )
}

} // verus!
