//! What machines are called.
use vstd::prelude::*;

use crate::text::same;

verus! {

pub open spec fn platform_of(os: Seq<char>) -> Seq<char> {
    if os == "linux"@ {
        "linux"@
    } else if os == "macos"@ {
        "macosx"@
    } else if os == "windows"@ {
        "win32"@
    } else if os == "freebsd"@ {
        "freebsd"@
    } else if os == "netbsd"@ {
        "netbsd"@
    } else {
        "unknown"@
    }
}

/// The name of the platform with an operating system, which is named as Rust
/// names targets.
pub fn platform_name(os: &str) -> (r: &'static str)
    ensures
        r@ == platform_of(os@),
{
    if same(os, "linux") {
        "linux"
    } else if same(os, "macos") {
        "macosx"
    } else if same(os, "windows") {
        "win32"
    } else if same(os, "freebsd") {
        "freebsd"
    } else if same(os, "netbsd") {
        "netbsd"
    } else {
        "unknown"
    }
}

pub open spec fn arch_of(arch: Seq<char>) -> Seq<char> {
    if arch == "x86_64"@ {
        "x86_64"@
    } else if arch == "aarch64"@ {
        "arm64"@
    } else if arch == "x86"@ {
        "i386"@
    } else if arch == "arm"@ {
        "arm"@
    } else if arch == "riscv64"@ {
        "riscv64"@
    } else {
        "unknown"@
    }
}

/// The name of an architecture, which is named as Rust names targets.
pub fn arch_name(arch: &str) -> (r: &'static str)
    ensures
        r@ == arch_of(arch@),
{
    if same(arch, "x86_64") {
        "x86_64"
    } else if same(arch, "aarch64") {
        "arm64"
    } else if same(arch, "x86") {
        "i386"
    } else if same(arch, "arm") {
        "arm"
    } else if same(arch, "riscv64") {
        "riscv64"
    } else {
        "unknown"
    }
}

/// What stands between the parts of a path on an operating system.
pub fn path_sep(os: &str) -> (r: char)
    ensures
        r == if os@ == "windows"@ {
            '\\'
        } else {
            '/'
        },
{
    if same(os, "windows") {
        '\\'
    } else {
        '/'
    }
}

} // verus!
