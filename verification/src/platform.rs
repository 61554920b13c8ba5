//! The platform dsi runs on: OS, CPU architecture, C library and WSL, and the
//! .NET runtime identifier (RID) they make up.
use vstd::prelude::*;
use crate::text::{contains_seq, lowered, str_contains, str_eq, to_lowercase};

verus! {

#[derive(PartialEq, Eq, Structural, Clone, Copy, Debug)]
pub enum Os {
    Linux,
    MacOS,
}

#[derive(PartialEq, Eq, Structural, Clone, Copy, Debug)]
pub enum Arch {
    X64,
    Arm64,
    Arm,
    X86,
}

#[derive(PartialEq, Eq, Structural, Clone, Copy, Debug)]
pub enum Libc {
    Glibc,
    Musl,
    /// No separate C library to tell apart (macOS).
    NoLibc,
}

#[derive(PartialEq, Eq, Structural, Clone, Copy, Debug)]
pub enum WslStatus {
    /// Not running under WSL.
    NotWsl,
    Wsl1,
    Wsl2,
}

#[derive(PartialEq, Eq, Structural, Clone, Copy, Debug)]
pub struct Platform {
    pub os: Os,
    pub arch: Arch,
    pub libc: Libc,
    pub wsl: WslStatus,
}

/// What the environment tells about the platform, gathered before deciding.
pub struct PlatformProbe {
    /// `std::env::consts::OS`.
    pub os_name: String,
    /// `std::env::consts::ARCH`.
    pub arch_name: String,
    /// The standard error of `ldd --version`, when it ran.
    pub ldd_stderr: Option<String>,
    /// Whether one of the musl dynamic linkers exists on disk.
    pub musl_loader_present: bool,
    /// Whether `WSL_DISTRO_NAME` is set.
    pub wsl_distro_set: bool,
    /// The contents of `/proc/version`, when it could be read.
    pub proc_version: Option<String>,
}

/// The musl dynamic linkers whose presence on disk marks a musl system.
pub fn musl_loader_paths() -> (r: Vec<&'static str>)
    ensures
        r@.len() == 3,
        r@[0]@ == "/lib/ld-musl-x86_64.so.1"@,
        r@[1]@ == "/lib/ld-musl-aarch64.so.1"@,
        r@[2]@ == "/lib/ld-musl-armhf.so.1"@,
{
    let mut r: Vec<&'static str> = Vec::new();
    r.push("/lib/ld-musl-x86_64.so.1");
    r.push("/lib/ld-musl-aarch64.so.1");
    r.push("/lib/ld-musl-armhf.so.1");
    r
}

/// The OS with the given `std::env::consts::OS` name, if supported.
pub open spec fn spec_os_from_name(name: Seq<char>) -> Option<Os> {
    if name == "linux"@ {
        Some(Os::Linux)
    } else if name == "macos"@ {
        Some(Os::MacOS)
    } else {
        None
    }
}

/// The architecture with the given `std::env::consts::ARCH` name, if supported.
pub open spec fn spec_arch_from_name(name: Seq<char>) -> Option<Arch> {
    if name == "x86_64"@ {
        Some(Arch::X64)
    } else if name == "aarch64"@ {
        Some(Arch::Arm64)
    } else if name == "arm"@ {
        Some(Arch::Arm)
    } else if name == "x86"@ {
        Some(Arch::X86)
    } else {
        None
    }
}

/// The C library: none off Linux; musl when `ldd --version` mentions it (in
/// any case) or a musl dynamic linker exists; glibc otherwise.
pub open spec fn spec_libc(probe: PlatformProbe) -> Libc {
    if probe.os_name@ != "linux"@ {
        Libc::NoLibc
    } else if probe.ldd_stderr matches Some(e) && contains_seq(lowered(e@), "musl"@) {
        Libc::Musl
    } else if probe.musl_loader_present {
        Libc::Musl
    } else {
        Libc::Glibc
    }
}

/// WSL: with `WSL_DISTRO_NAME` set, WSL2 when `/proc/version` names WSL2,
/// WSL1 when it mentions Microsoft, WSL2 otherwise; without it, WSL2 when
/// `/proc/version` mentions Microsoft; never off Linux.
pub open spec fn spec_wsl(probe: PlatformProbe) -> WslStatus {
    if probe.os_name@ != "linux"@ {
        WslStatus::NotWsl
    } else if probe.wsl_distro_set {
        match probe.proc_version {
            Some(v) => if contains_seq(v@, "microsoft-standard-WSL2"@) || contains_seq(v@, "WSL2"@) {
                WslStatus::Wsl2
            } else if contains_seq(lowered(v@), "microsoft"@) {
                WslStatus::Wsl1
            } else {
                WslStatus::Wsl2
            },
            None => WslStatus::Wsl2,
        }
    } else {
        match probe.proc_version {
            Some(v) => if contains_seq(lowered(v@), "microsoft"@) {
                WslStatus::Wsl2
            } else {
                WslStatus::NotWsl
            },
            None => WslStatus::NotWsl,
        }
    }
}

/// Detect OS from `std::env::consts::OS`.
pub fn detect_os(name: &str) -> (r: Option<Os>)
    ensures
        r == spec_os_from_name(name@),
{
    if str_eq(name, "linux") {
        Some(Os::Linux)
    } else if str_eq(name, "macos") {
        Some(Os::MacOS)
    } else {
        None
    }
}

/// Detect CPU architecture from `std::env::consts::ARCH`.
pub fn detect_arch(name: &str) -> (r: Option<Arch>)
    ensures
        r == spec_arch_from_name(name@),
{
    if str_eq(name, "x86_64") {
        Some(Arch::X64)
    } else if str_eq(name, "aarch64") {
        Some(Arch::Arm64)
    } else if str_eq(name, "arm") {
        Some(Arch::Arm)
    } else if str_eq(name, "x86") {
        Some(Arch::X86)
    } else {
        None
    }
}

/// Detect whether the system uses musl or glibc (Linux only).
pub fn detect_libc(probe: &PlatformProbe) -> (r: Libc)
    ensures
        r == spec_libc(*probe),
{
    if !str_eq(probe.os_name.as_str(), "linux") {
        return Libc::NoLibc;
    }
    match &probe.ldd_stderr {
        Some(e) => {
            let lower = to_lowercase(e.as_str());
            if str_contains(lower.as_str(), "musl") {
                return Libc::Musl;
            }
        },
        None => {},
    }
    if probe.musl_loader_present {
        return Libc::Musl;
    }
    Libc::Glibc
}

/// Detect whether we're running inside Windows Subsystem for Linux.
pub fn detect_wsl(probe: &PlatformProbe) -> (r: WslStatus)
    ensures
        r == spec_wsl(*probe),
{
    if !str_eq(probe.os_name.as_str(), "linux") {
        return WslStatus::NotWsl;
    }
    if probe.wsl_distro_set {
        match &probe.proc_version {
            Some(v) => {
                if str_contains(v.as_str(), "microsoft-standard-WSL2") || str_contains(v.as_str(), "WSL2") {
                    return WslStatus::Wsl2;
                }
                let lower = to_lowercase(v.as_str());
                if str_contains(lower.as_str(), "microsoft") {
                    return WslStatus::Wsl1;
                }
                WslStatus::Wsl2
            },
            None => WslStatus::Wsl2,
        }
    } else {
        match &probe.proc_version {
            Some(v) => {
                let lower = to_lowercase(v.as_str());
                if str_contains(lower.as_str(), "microsoft") {
                    WslStatus::Wsl2
                } else {
                    WslStatus::NotWsl
                }
            },
            None => WslStatus::NotWsl,
        }
    }
}

/// The OS part of a RID.
pub open spec fn rid_os(p: Platform) -> Seq<char> {
    match (p.os, p.libc) {
        (Os::Linux, Libc::Musl) => "linux-musl"@,
        (Os::Linux, _) => "linux"@,
        (Os::MacOS, _) => "osx"@,
    }
}

/// The architecture part of a RID.
pub open spec fn rid_arch(a: Arch) -> Seq<char> {
    match a {
        Arch::X64 => "x64"@,
        Arch::Arm64 => "arm64"@,
        Arch::Arm => "arm"@,
        Arch::X86 => "x86"@,
    }
}

/// The .NET runtime identifier of a platform: "<os>-<arch>".
pub open spec fn spec_rid(p: Platform) -> Seq<char> {
    rid_os(p) + "-"@ + rid_arch(p.arch)
}

/// A RID's parts: "linux-musl" exactly for musl Linux, "linux" for any other
/// Linux, "osx" for macOS; then "-" and the architecture, whatever the OS.
pub proof fn lemma_rid_parts(p: Platform)
    ensures
        spec_rid(p) == (if p.os == Os::Linux && p.libc == Libc::Musl {
            "linux-musl"@
        } else if p.os == Os::Linux {
            "linux"@
        } else {
            "osx"@
        }) + "-"@ + (match p.arch {
            Arch::X64 => "x64"@,
            Arch::Arm64 => "arm64"@,
            Arch::Arm => "arm"@,
            Arch::X86 => "x86"@,
        }),
{
}

/// The RID depends on the OS, the architecture and, on Linux, on whether the
/// C library is musl; not on WSL, and musl and non-musl Linux never share one.
pub proof fn lemma_rid_depends(p: Platform, q: Platform)
    ensures
        p.os == q.os && p.arch == q.arch && (p.os == Os::Linux ==> (p.libc == Libc::Musl) == (q.libc
            == Libc::Musl)) ==> spec_rid(p) == spec_rid(q),
        p.os == Os::Linux && q.os == Os::Linux && p.libc == Libc::Musl && q.libc != Libc::Musl
            ==> spec_rid(p) != spec_rid(q),
        p.os != q.os ==> spec_rid(p) != spec_rid(q),
        p.arch != q.arch ==> spec_rid(p) != spec_rid(q),
{
    reveal_strlit("linux-musl");
    reveal_strlit("linux");
    reveal_strlit("osx");
    reveal_strlit("-");
    reveal_strlit("x64");
    reveal_strlit("arm64");
    reveal_strlit("arm");
    reveal_strlit("x86");
    let a = spec_rid(p);
    let b = spec_rid(q);
    if p.os == Os::Linux && q.os == Os::Linux && p.libc == Libc::Musl && q.libc != Libc::Musl {
        assert(a[5] == '-' && b[5] == '-');
        assert(a[6] == 'm');
        assert(b[6] != 'm');
    }
    if p.os != q.os {
        assert(a[0] != b[0]);
    }
    if p.arch != q.arch && a == b {
        let ao = rid_os(p);
        let bo = rid_os(q);
        if ao == bo {
            assert(a.skip(ao.len() as int + 1) =~= rid_arch(p.arch));
            assert(b.skip(bo.len() as int + 1) =~= rid_arch(q.arch));
            assert(rid_arch(p.arch) != rid_arch(q.arch)) by {
                assert(rid_arch(p.arch)[0] != rid_arch(q.arch)[0] || rid_arch(p.arch).len() != rid_arch(
                    q.arch,
                ).len() || rid_arch(p.arch)[1] != rid_arch(q.arch)[1]);
            }
        } else {
            assert(p.os == Os::Linux && q.os == Os::Linux);
            assert(a[5] == '-' && b[5] == '-');
            if p.libc == Libc::Musl {
                assert(a[6] == 'm');
                assert(b[6] != 'm');
            } else {
                assert(a[6] != 'm');
                assert(b[6] == 'm');
            }
        }
    }
}

/// The suffix that names the C library.
pub open spec fn libc_suffix(l: Libc) -> Seq<char> {
    match l {
        Libc::Glibc => " (glibc)"@,
        Libc::Musl => " (musl)"@,
        Libc::NoLibc => ""@,
    }
}

impl Platform {
    /// The platform that the probe shows; the OS and architecture must be
    /// supported ones.
    pub fn detect(probe: &PlatformProbe) -> (r: Platform)
        requires
            spec_os_from_name(probe.os_name@) is Some,
            spec_arch_from_name(probe.arch_name@) is Some,
        ensures
            r == (Platform {
                os: spec_os_from_name(probe.os_name@)->0,
                arch: spec_arch_from_name(probe.arch_name@)->0,
                libc: spec_libc(*probe),
                wsl: spec_wsl(*probe),
            }),
    {
        let os = match detect_os(probe.os_name.as_str()) {
            Some(os) => os,
            None => Os::Linux,
        };
        let arch = match detect_arch(probe.arch_name.as_str()) {
            Some(a) => a,
            None => Arch::X64,
        };
        Platform { os, arch, libc: detect_libc(probe), wsl: detect_wsl(probe) }
    }

    pub fn rid(&self) -> (r: String)
        ensures
            r@ == spec_rid(*self),
            r@ == (if self.os == Os::Linux && self.libc == Libc::Musl {
                "linux-musl"@
            } else if self.os == Os::Linux {
                "linux"@
            } else {
                "osx"@
            }) + "-"@ + (match self.arch {
                Arch::X64 => "x64"@,
                Arch::Arm64 => "arm64"@,
                Arch::Arm => "arm"@,
                Arch::X86 => "x86"@,
            }),
    {
        let os_part: &str = match (self.os, self.libc) {
            (Os::Linux, Libc::Musl) => "linux-musl",
            (Os::Linux, _) => "linux",
            (Os::MacOS, _) => "osx",
        };
        let arch_part: &str = match self.arch {
            Arch::X64 => "x64",
            Arch::Arm64 => "arm64",
            Arch::Arm => "arm",
            Arch::X86 => "x86",
        };
        let mut s = String::from_str(os_part);
        s.append("-");
        s.append(arch_part);
        s
    }

    pub fn display_name(&self) -> (r: String)
        ensures
            r@ == spec_rid(*self) + libc_suffix(self.libc),
    {
        let libc_str: &str = match self.libc {
            Libc::Glibc => " (glibc)",
            Libc::Musl => " (musl)",
            Libc::NoLibc => "",
        };
        let mut s = self.rid();
        s.append(libc_str);
        s
    }
}

} // verus!
