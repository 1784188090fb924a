use dataflow::targets::x86_64_pc_windows_msvc;
use dataflow::targets::x86_64_unknown_linux_gnu;
use dataflow::targets::windows_msvc_base;
use dataflow::targets::{LinkerFlavor, TargetOptions};

#[test]
fn windows_msvc_target_description() {
    let t = x86_64_pc_windows_msvc::target().unwrap();
    assert_eq!(t.llvm_target, "x86_64-pc-windows-msvc");
    assert_eq!(t.target_endian, "little");
    assert_eq!(t.target_pointer_width, "64");
    assert_eq!(t.target_c_int_width, "32");
    assert_eq!(t.target_os, "windows");
    assert_eq!(t.target_env, "msvc");
    assert_eq!(t.target_vendor, "pc");
    assert_eq!(t.arch, "x86_64");
    assert!(matches!(t.linker_flavor, LinkerFlavor::Msvc));
    assert_eq!(t.options.cpu, "x86-64");
    assert!(t.options.is_like_windows);
    assert!(t.options.is_like_msvc);
}

#[test]
fn linux_gnu_target_description() {
    let t = x86_64_unknown_linux_gnu::target().unwrap();
    assert_eq!(t.llvm_target, "x86_64-unknown-linux-gnu");
    assert_eq!(t.target_os, "linux");
    assert_eq!(t.target_env, "gnu");
    assert_eq!(t.target_vendor, "unknown");
    assert!(matches!(t.linker_flavor, LinkerFlavor::Ld));
    assert_eq!(t.options.cpu, "x86-64");
    assert!(!t.options.is_like_windows);
    assert!(!t.options.is_like_msvc);
}

#[test]
fn msvc_base_options() {
    let o = windows_msvc_base::opts();
    assert!(o.is_like_windows);
    assert!(o.is_like_msvc);
    assert_eq!(o.cpu, "");
}

#[test]
fn default_target_options() {
    let o = TargetOptions::default();
    assert!(!o.is_like_windows);
    assert!(!o.is_like_msvc);
    assert_eq!(o.cpu, "");
}
