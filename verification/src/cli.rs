//! The target triple printed by the `version` command.
use vstd::prelude::*;

verus! {

/// The vendor part of the target triple, given whether the build targets
/// the vendor `unknown`, `apple` or `pc`; the first that holds wins.
pub fn target_vendor(unknown: bool, apple: bool, pc: bool) -> (v: &'static str)
    ensures
        v@ == (if unknown {
            "unknown"@
        } else if apple {
            "apple"@
        } else if pc {
            "pc"@
        } else {
            "vendor"@
        }),
{
    if unknown {
        "unknown"
    } else if apple {
        "apple"
    } else if pc {
        "pc"
    } else {
        "vendor"
    }
}

/// The operating-system part of the target triple, given whether the build
/// targets Linux, the GNU environment and macOS, and the name of the
/// operating system otherwise.
pub fn target_os_env(linux: bool, gnu: bool, macos: bool, os: &'static str) -> (s: &'static str)
    ensures
        s@ == (if linux && gnu {
            "linux-gnu"@
        } else if linux {
            "linux"@
        } else if macos {
            "darwin"@
        } else {
            os@
        }),
{
    if linux && gnu {
        "linux-gnu"
    } else if linux {
        "linux"
    } else if macos {
        "darwin"
    } else {
        os
    }
}

/// `arch-vendor-os`.
pub fn target_triple(arch: &str, vendor: &str, os_env: &str) -> (s: String)
    ensures
        s@ == arch@ + "-"@ + vendor@ + "-"@ + os_env@,
{
    let mut s = arch.to_string();
    s.append("-");
    s.append(vendor);
    s.append("-");
    s.append(os_env);
    s
}

} // verus!
