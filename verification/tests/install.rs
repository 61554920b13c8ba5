use dsi::install::{
    archive_filename, check_channel_supported, choose_download, extract_channel_version, pick_channel,
    pick_sdk, resolve_target, InstallArgs, InstallError,
};
use dsi::models::{
    find_sdk_file_for_rid, Channel, ChannelReleases, Release, ReleasesIndex, Sdk, SdkFile,
    MIN_SUPPORTED_MAJOR_VERSION,
};

fn channel(version: &str, latest_sdk: &str, release_type: &str, phase: &str) -> Channel {
    Channel {
        channel_version: version.to_string(),
        latest_release: String::new(),
        latest_release_date: String::new(),
        latest_sdk: latest_sdk.to_string(),
        release_type: release_type.to_string(),
        support_phase: phase.to_string(),
        eol_date: None,
        releases_json_url: format!("https://example.test/{}/releases.json", version),
    }
}

fn index() -> ReleasesIndex {
    ReleasesIndex {
        channels: vec![
            channel("10.0", "10.0.201", "lts", "active"),
            channel("9.0", "9.0.312", "sts", "active"),
            channel("8.0", "8.0.415", "lts", "maintenance"),
            channel("7.0", "7.0.410", "sts", "eol"),
            channel("6.0", "6.0.428", "lts", "eol"),
            channel("5.0", "5.0.408", "sts", "eol"),
        ],
    }
}

fn file(rid: &str) -> SdkFile {
    SdkFile {
        name: format!("dotnet-sdk-{}.tar.gz", rid),
        rid: rid.to_string(),
        url: format!("https://example.test/{}.tar.gz", rid),
        hash: "00".to_string(),
    }
}

fn release(sdk: &str, rids: &[&str]) -> Release {
    Release {
        release_date: String::new(),
        release_version: String::new(),
        sdk: Sdk { version: sdk.to_string(), files: rids.iter().map(|r| file(r)).collect() },
    }
}

fn releases() -> ChannelReleases {
    ChannelReleases {
        channel_version: "9.0".to_string(),
        latest_release: "9.0.11".to_string(),
        latest_sdk: "9.0.312".to_string(),
        releases: vec![
            release("9.0.312", &["linux-x64", "osx-arm64"]),
            release("9.0.200", &["linux-x64"]),
            release("9.0.100", &[]),
        ],
    }
}

fn args(version: Option<&str>, lts: bool, latest: bool) -> InstallArgs {
    InstallArgs { version: version.map(|v| v.to_string()), lts, latest }
}

#[test]
fn target_prefers_lts_then_latest_then_version() {
    assert_eq!(resolve_target(&args(Some("9.0"), true, true)).ok().unwrap(), "lts");
    assert_eq!(resolve_target(&args(Some("9.0"), false, true)).ok().unwrap(), "latest");
    assert_eq!(resolve_target(&args(Some("9.0.312"), false, false)).ok().unwrap(), "9.0.312");
}

#[test]
fn target_is_missing_without_arguments() {
    assert!(matches!(resolve_target(&args(None, false, false)), Err(InstallError::MissingTarget)));
}

#[test]
fn channel_version_of_targets() {
    assert_eq!(extract_channel_version("9.0"), "9.0");
    assert_eq!(extract_channel_version("9.0.312"), "9.0");
    assert_eq!(extract_channel_version("9"), "9");
}

#[test]
fn lts_picks_the_newest_supported_lts_channel() {
    let idx = index();
    assert_eq!(pick_channel(&idx, "lts").ok().unwrap().channel_version, "10.0");
}

#[test]
fn latest_picks_the_newest_supported_channel() {
    let mut idx = index();
    idx.channels.insert(0, channel("11.0", "11.0.100-rc.1", "sts", "preview"));
    assert_eq!(pick_channel(&idx, "latest").ok().unwrap().channel_version, "11.0");
    assert_eq!(pick_channel(&idx, "lts").ok().unwrap().channel_version, "10.0");
}

#[test]
fn lts_skips_end_of_life_channels() {
    let idx = ReleasesIndex {
        channels: vec![channel("9.0", "9.0.312", "sts", "active"), channel("6.0", "6.0.428", "lts", "eol")],
    };
    assert!(matches!(pick_channel(&idx, "lts"), Err(InstallError::ChannelNotFound(t)) if t == "lts"));
}

#[test]
fn of_equal_majors_the_last_is_taken() {
    let idx = ReleasesIndex {
        channels: vec![channel("9.0", "9.0.312", "sts", "active"), channel("9.1", "9.1.100", "sts", "active")],
    };
    assert_eq!(pick_channel(&idx, "latest").ok().unwrap().channel_version, "9.1");
}

#[test]
fn a_version_picks_its_channel() {
    let idx = index();
    assert_eq!(pick_channel(&idx, "9.0").ok().unwrap().channel_version, "9.0");
    assert_eq!(pick_channel(&idx, "8.0.300").ok().unwrap().channel_version, "8.0");
    assert_eq!(pick_channel(&idx, "7.0").ok().unwrap().channel_version, "7.0");
}

#[test]
fn an_unknown_channel_is_not_found() {
    let idx = index();
    assert!(matches!(pick_channel(&idx, "4.0"), Err(InstallError::ChannelNotFound(t)) if t == "4.0"));
    assert!(matches!(pick_channel(&idx, "nonsense"), Err(InstallError::ChannelNotFound(t)) if t == "nonsense"));
}

#[test]
fn channels_below_the_minimum_are_refused() {
    assert_eq!(MIN_SUPPORTED_MAJOR_VERSION, 6);
    assert!(check_channel_supported(&channel("6.0", "6.0.428", "lts", "eol")).is_ok());
    assert!(check_channel_supported(&channel("10.0", "10.0.201", "lts", "active")).is_ok());
    assert!(matches!(
        check_channel_supported(&channel("5.0", "5.0.408", "sts", "eol")),
        Err(InstallError::BelowMinimum(v)) if v == "5.0"
    ));
    assert!(matches!(
        check_channel_supported(&channel("abc", "", "sts", "eol")),
        Err(InstallError::BelowMinimum(v)) if v == "abc"
    ));
}

#[test]
fn channel_facts() {
    let c = channel("10.0", "10.0.201", "lts", "active");
    assert!(c.is_lts());
    assert!(c.is_supported());
    assert_eq!(c.major_version(), 10);
    assert!(c.is_installable());
    let old = channel("3.1", "3.1.426", "lts", "eol");
    assert!(!old.is_supported());
    assert_eq!(old.major_version(), 3);
    assert!(!old.is_installable());
    assert_eq!(channel("x.1", "", "sts", "active").major_version(), 0);
    assert!(!channel("9.0", "", "sts", "active").is_lts());
}

#[test]
fn a_channel_target_takes_the_newest_release() {
    let rs = releases();
    assert_eq!(pick_sdk(&rs, "9.0").ok().unwrap().version, "9.0.312");
    assert_eq!(pick_sdk(&rs, "latest").ok().unwrap().version, "9.0.312");
}

#[test]
fn an_exact_target_takes_that_release() {
    let rs = releases();
    assert_eq!(pick_sdk(&rs, "9.0.200").ok().unwrap().version, "9.0.200");
    assert!(matches!(pick_sdk(&rs, "9.0.999"), Err(InstallError::SdkVersionNotFound(t)) if t == "9.0.999"));
}

#[test]
fn a_channel_without_releases_has_nothing_to_install() {
    let mut rs = releases();
    rs.releases.clear();
    assert!(matches!(pick_sdk(&rs, "9.0"), Err(InstallError::NoReleases)));
    assert!(matches!(pick_sdk(&rs, "9.0.312"), Err(InstallError::SdkVersionNotFound(_))));
}

#[test]
fn the_download_is_the_file_for_the_platform() {
    let rs = releases();
    let (sdk, f) = choose_download(&rs, "9.0", "osx-arm64").ok().unwrap();
    assert_eq!(sdk.version, "9.0.312");
    assert_eq!(f.rid, "osx-arm64");
    assert_eq!(f.url, "https://example.test/osx-arm64.tar.gz");
    assert!(matches!(
        choose_download(&rs, "9.0.200", "osx-arm64"),
        Err(InstallError::NoDownloadForPlatform(r)) if r == "osx-arm64"
    ));
    assert!(matches!(choose_download(&rs, "9.0.1", "linux-x64"), Err(InstallError::SdkVersionNotFound(_))));
}

#[test]
fn the_first_file_for_a_rid_is_found() {
    let mut files = vec![file("linux-x64"), file("linux-musl-x64"), file("linux-x64")];
    files[2].url = "second".to_string();
    assert_eq!(find_sdk_file_for_rid(&files, "linux-x64").unwrap().url, "https://example.test/linux-x64.tar.gz");
    assert_eq!(find_sdk_file_for_rid(&files, "linux-musl-x64").unwrap().rid, "linux-musl-x64");
    assert!(find_sdk_file_for_rid(&files, "osx-x64").is_none());
}

#[test]
fn archive_name_holds_version_and_rid() {
    assert_eq!(archive_filename("9.0.312", "linux-x64"), "dsi-download-9.0.312-linux-x64.tar.gz");
}
