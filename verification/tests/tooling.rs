use dsi::checksum::{first_token_of, str_eq_ignore_ascii_case, verify_sha256, verify_sha512, ChecksumError};
use dsi::platform::{
    detect_arch, detect_libc, detect_os, detect_wsl, musl_loader_paths, Arch, Libc, Os, Platform,
    PlatformProbe, WslStatus,
};
use dsi::prompt::{answer_means_yes, hint, question_line};
use dsi::selfuninstall::{profile_files, rewrite_profile, ProfileStyle, MARKER_BEGIN, MARKER_END};
use dsi::selfupdate::{
    asset_name, asset_url, checksum_url, download_base, latest_release_url, tag_version, update_to,
};

const ABC_SHA512: &str = "ddaf35a193617abacc417349ae20413112e6fa4e89a97ea20a9eeee64b55d39a2192992a274fc1a836ba3c23a3feebbd454d4423643ce80e2a9ac94fa54ca49f";
const ABC_SHA256: &str = "ba7816bf8f01cfea414140de5dae2223b00361a396177a9cb410ff61f20015ad";

fn probe(os: &str, arch: &str) -> PlatformProbe {
    PlatformProbe {
        os_name: os.to_string(),
        arch_name: arch.to_string(),
        ldd_stderr: None,
        musl_loader_present: false,
        wsl_distro_set: false,
        proc_version: None,
    }
}

#[test]
fn sha512_of_known_data_verifies() {
    assert!(verify_sha512(b"abc", ABC_SHA512).is_ok());
    assert!(verify_sha512(b"abc", &ABC_SHA512.to_uppercase()).is_ok());
}

#[test]
fn sha512_mismatch_reports_both_digests() {
    match verify_sha512(b"abd", ABC_SHA512) {
        Err(ChecksumError::Mismatch { expected, got }) => {
            assert_eq!(expected, ABC_SHA512);
            assert_eq!(got.len(), 128);
            assert_ne!(got, ABC_SHA512);
        }
        _ => panic!("expected a mismatch"),
    }
    assert!(matches!(verify_sha512(b"abc", ""), Err(ChecksumError::Mismatch { .. })));
}

#[test]
fn sha256_checksum_file_is_read_by_its_first_token() {
    let text = format!("{}  dsi-linux-x64.tar.gz\n", ABC_SHA256);
    assert!(verify_sha256(b"abc", &text).is_ok());
    let upper = format!("\n  {}\n", ABC_SHA256.to_uppercase());
    assert!(verify_sha256(b"abc", &upper).is_ok());
}

#[test]
fn sha256_errors() {
    assert!(matches!(verify_sha256(b"abc", ""), Err(ChecksumError::Empty)));
    assert!(matches!(verify_sha256(b"abc", " \n\t "), Err(ChecksumError::Empty)));
    match verify_sha256(b"abcd", ABC_SHA256) {
        Err(ChecksumError::Mismatch { expected, got }) => {
            assert_eq!(expected, ABC_SHA256);
            assert_eq!(got, "88d4266fd4e6338d13b845fcf289579d209c897823b9217da3e161936f031589");
        }
        _ => panic!("expected a mismatch"),
    }
}

#[test]
fn first_token_and_case_folding() {
    assert_eq!(first_token_of("  abc def\n"), Some("abc".to_string()));
    assert_eq!(first_token_of("abc"), Some("abc".to_string()));
    assert_eq!(first_token_of(" \u{a0}\t"), None);
    assert!(str_eq_ignore_ascii_case("AbC", "aBc"));
    assert!(!str_eq_ignore_ascii_case("abc", "abd"));
    assert!(!str_eq_ignore_ascii_case("abc", "abcd"));
}

#[test]
fn os_and_arch_names() {
    assert_eq!(detect_os("linux"), Some(Os::Linux));
    assert_eq!(detect_os("macos"), Some(Os::MacOS));
    assert_eq!(detect_os("windows"), None);
    assert_eq!(detect_arch("x86_64"), Some(Arch::X64));
    assert_eq!(detect_arch("aarch64"), Some(Arch::Arm64));
    assert_eq!(detect_arch("arm"), Some(Arch::Arm));
    assert_eq!(detect_arch("x86"), Some(Arch::X86));
    assert_eq!(detect_arch("riscv64"), None);
}

#[test]
fn libc_detection() {
    assert_eq!(detect_libc(&probe("macos", "aarch64")), Libc::NoLibc);
    assert_eq!(detect_libc(&probe("linux", "x86_64")), Libc::Glibc);
    let mut p = probe("linux", "x86_64");
    p.ldd_stderr = Some("MUSL libc (x86_64)\nVersion 1.2.4\n".to_string());
    assert_eq!(detect_libc(&p), Libc::Musl);
    p.ldd_stderr = Some("ldd (GNU libc) 2.39".to_string());
    assert_eq!(detect_libc(&p), Libc::Glibc);
    p.musl_loader_present = true;
    assert_eq!(detect_libc(&p), Libc::Musl);
    assert_eq!(musl_loader_paths().len(), 3);
    assert_eq!(musl_loader_paths()[0], "/lib/ld-musl-x86_64.so.1");
}

#[test]
fn wsl_detection() {
    let mut p = probe("linux", "x86_64");
    assert_eq!(detect_wsl(&p), WslStatus::NotWsl);
    p.proc_version = Some("Linux version 6.6.87.2-microsoft-standard-WSL2".to_string());
    assert_eq!(detect_wsl(&p), WslStatus::Wsl2);
    p.proc_version = Some("Linux version 4.4.0-19041-Microsoft".to_string());
    assert_eq!(detect_wsl(&p), WslStatus::Wsl2);
    p.wsl_distro_set = true;
    assert_eq!(detect_wsl(&p), WslStatus::Wsl1);
    p.proc_version = Some("Linux version 6.1 (WSL2)".to_string());
    assert_eq!(detect_wsl(&p), WslStatus::Wsl2);
    p.proc_version = Some("Linux version 6.8.0-generic".to_string());
    assert_eq!(detect_wsl(&p), WslStatus::Wsl2);
    p.proc_version = None;
    assert_eq!(detect_wsl(&p), WslStatus::Wsl2);
    p.wsl_distro_set = false;
    assert_eq!(detect_wsl(&p), WslStatus::NotWsl);
    let mut mac = probe("macos", "aarch64");
    mac.wsl_distro_set = true;
    assert_eq!(detect_wsl(&mac), WslStatus::NotWsl);
}

#[test]
fn platform_rid_and_name() {
    let mut p = probe("linux", "x86_64");
    p.ldd_stderr = Some("musl libc".to_string());
    let musl = Platform::detect(&p);
    assert_eq!(musl, Platform { os: Os::Linux, arch: Arch::X64, libc: Libc::Musl, wsl: WslStatus::NotWsl });
    assert_eq!(musl.rid(), "linux-musl-x64");
    assert_eq!(musl.display_name(), "linux-musl-x64 (musl)");
    let glibc = Platform::detect(&probe("linux", "aarch64"));
    assert_eq!(glibc.rid(), "linux-arm64");
    assert_eq!(glibc.display_name(), "linux-arm64 (glibc)");
    let mac = Platform::detect(&probe("macos", "aarch64"));
    assert_eq!(mac.rid(), "osx-arm64");
    assert_eq!(mac.display_name(), "osx-arm64");
    let arm = Platform { os: Os::Linux, arch: Arch::Arm, libc: Libc::Glibc, wsl: WslStatus::Wsl1 };
    assert_eq!(arm.rid(), "linux-arm");
    let x86 = Platform { os: Os::MacOS, arch: Arch::X86, libc: Libc::Musl, wsl: WslStatus::NotWsl };
    assert_eq!(x86.rid(), "osx-x86");
}

#[test]
fn answers_to_a_question() {
    assert!(answer_means_yes("\n", true));
    assert!(!answer_means_yes("", false));
    assert!(answer_means_yes("y\n", false));
    assert!(answer_means_yes("  YES \n", false));
    assert!(answer_means_yes("Yes", false));
    assert!(!answer_means_yes("no\n", true));
    assert!(!answer_means_yes("yep", true));
    assert_eq!(hint(true), "[Y/n]");
    assert_eq!(hint(false), "[y/N]");
    assert_eq!(question_line("Continue?", false), "Continue? [y/N] ");
}

#[test]
fn self_update_versions() {
    assert_eq!(tag_version("v0.2.0"), "0.2.0");
    assert_eq!(tag_version("0.2.0"), "0.2.0");
    assert_eq!(tag_version(""), "");
    assert_eq!(update_to("0.1.0", "v0.2.0"), Some("0.2.0".to_string()));
    assert_eq!(update_to("0.2.0", "v0.2.0"), None);
    assert_eq!(update_to("0.3.0", "v0.2.0"), None);
    assert_eq!(update_to("0.2.0-rc.1", "v0.2.0"), Some("0.2.0".to_string()));
    assert_eq!(update_to("0.1.9", "0.1.10"), Some("0.1.10".to_string()));
}

#[test]
fn self_update_addresses() {
    assert_eq!(asset_name("linux-x64"), "dsi-linux-x64.tar.gz");
    let base = download_base("v0.2.0");
    assert_eq!(base, "https://github.com/curllog/dsi/releases/download/v0.2.0");
    assert_eq!(
        asset_url(&base, "dsi-linux-x64.tar.gz"),
        "https://github.com/curllog/dsi/releases/download/v0.2.0/dsi-linux-x64.tar.gz"
    );
    assert_eq!(
        checksum_url(&base, "dsi-linux-x64.tar.gz"),
        "https://github.com/curllog/dsi/releases/download/v0.2.0/dsi-linux-x64.tar.gz.sha256"
    );
    assert_eq!(latest_release_url(), "https://api.github.com/repos/curllog/dsi/releases/latest");
}

fn block(lines: &[&str]) -> String {
    let mut s = format!("{}\n", MARKER_BEGIN);
    for l in lines {
        s.push_str(l);
        s.push('\n');
    }
    s.push_str(MARKER_END);
    s.push('\n');
    s
}

#[test]
fn profile_block_is_stripped() {
    let content = format!("alias ll='ls -l'\n{}export EDITOR=vi\n", block(&["export PATH=\"$HOME/.local/bin:$PATH\""]));
    assert_eq!(rewrite_profile(&content, &Vec::new()), Some("alias ll='ls -l'\nexport EDITOR=vi\n".to_string()));
}

#[test]
fn profile_block_is_replaced_by_the_sdk_lines() {
    let repl = ProfileStyle::Posix.dotnet_lines("/home/u/.dotnet");
    assert_eq!(
        repl,
        vec![
            "export DOTNET_ROOT=\"/home/u/.dotnet\"".to_string(),
            "export PATH=\"/home/u/.dotnet:/home/u/.dotnet/tools:$PATH\"".to_string(),
        ]
    );
    let content = format!("# top\n  {}  \nold line\n{}\n# bottom", MARKER_BEGIN, MARKER_END);
    let expected = format!("# top\n{}# bottom\n", block(&[&repl[0], &repl[1]]));
    assert_eq!(rewrite_profile(&content, &repl), Some(expected.clone()));
    // Cleaning again with the same lines finds nothing to change.
    assert_eq!(rewrite_profile(&expected, &repl), None);
}

#[test]
fn profile_without_a_block_is_left_alone() {
    assert_eq!(rewrite_profile("export A=1\n", &Vec::new()), None);
    assert_eq!(rewrite_profile("", &vec!["x".to_string()]), None);
}

#[test]
fn stripping_twice_changes_nothing_more() {
    let content = format!("a\r\n{}{}b", block(&["x"]), block(&[]));
    let once = rewrite_profile(&content, &Vec::new()).unwrap();
    assert_eq!(once, "a\nb\n");
    assert_eq!(rewrite_profile(&once, &Vec::new()), None);
}

#[test]
fn an_unclosed_block_runs_to_the_end() {
    let content = format!("a\n{}\nb\nc\n", MARKER_BEGIN);
    assert_eq!(rewrite_profile(&content, &Vec::new()), Some("a\n".to_string()));
    let only = format!("{}\n", MARKER_BEGIN);
    assert_eq!(rewrite_profile(&only, &Vec::new()), Some("\n".to_string()));
}

#[test]
fn sdk_lines_for_each_shell() {
    assert_eq!(
        ProfileStyle::Fish.dotnet_lines("/r"),
        vec!["set -gx DOTNET_ROOT \"/r\"".to_string(), "fish_add_path \"/r\" \"/r/tools\"".to_string()]
    );
    assert_eq!(
        ProfileStyle::Powershell.dotnet_lines("/r"),
        vec!["$env:DOTNET_ROOT = \"/r\"".to_string(), "$env:PATH = \"/r:/r/tools:$env:PATH\"".to_string()]
    );
    assert_eq!(
        ProfileStyle::Nushell.dotnet_lines("/r"),
        vec![
            "$env.DOTNET_ROOT = \"/r\"".to_string(),
            "$env.PATH = ($env.PATH | prepend [\"/r\" \"/r/tools\"])".to_string()
        ]
    );
}

#[test]
fn profile_files_under_home_and_zdotdir() {
    let files = profile_files("/home/u", None);
    let paths: Vec<&str> = files.iter().map(|f| f.0.as_str()).collect();
    assert_eq!(
        paths,
        vec![
            "/home/u/.bashrc",
            "/home/u/.zshrc",
            "/home/u/.config/fish/config.fish",
            "/home/u/.config/powershell/Microsoft.PowerShell_profile.ps1",
            "/home/u/.config/nushell/config.nu",
        ]
    );
    assert_eq!(files[2].1, ProfileStyle::Fish);
    assert_eq!(files[3].1, ProfileStyle::Powershell);
    assert_eq!(files[4].1, ProfileStyle::Nushell);
    let z = profile_files("/home/u", Some("/home/u/.zsh"));
    assert_eq!(z[1].0, "/home/u/.zsh/.zshrc");
    assert_eq!(z[1].1, ProfileStyle::Posix);
}

#[test]
fn cleaning_with_multi_line_replacements_settles() {
    let repl = vec!["export A=1\r\nexport B=2".to_string(), "x\r".to_string()];
    let content = format!("top\n{}end\n", block(&["old"]));
    let once = rewrite_profile(&content, &repl).unwrap();
    assert_eq!(once, format!("top\n{}\nexport A=1\r\nexport B=2\nx\r\n{}\nend\n", MARKER_BEGIN, MARKER_END));
    assert_eq!(rewrite_profile(&once, &repl), None);
}

#[test]
fn a_kept_line_ending_in_cr_does_not_settle() {
    let repl = vec!["R".to_string()];
    let content = format!("a\r\r\n{}", block(&["old"]));
    let once = rewrite_profile(&content, &repl).unwrap();
    assert_eq!(once, format!("a\r\n{}", block(&["R"])));
    assert_eq!(rewrite_profile(&once, &repl), Some(format!("a\n{}", block(&["R"]))));
}

#[test]
fn answers_outside_ascii() {
    assert!(answer_means_yes("\u{a0}\u{2003}\n", true));
    assert!(!answer_means_yes("\u{a0}\u{2003}\n", false));
    assert!(!answer_means_yes("ÿes", false));
    assert!(answer_means_yes("\tYeS\r\n", false));
}
