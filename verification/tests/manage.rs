use dsi::listing::{extract_channel, is_shown, shown_channels, LsRemoteArgs};
use dsi::models::{Channel, ChannelReleases, Release, ReleasesIndex, Sdk};
use dsi::paths::{join_path, DirEntry, DsiPaths};
use dsi::prune::plan_prune;
use dsi::update::{find_channel_named, find_release_sdk, latest_sdk_for_channel, plan_updates};
use dsi::version::feature_band;

fn strings(v: &[&str]) -> Vec<String> {
    v.iter().map(|s| s.to_string()).collect()
}

fn channel(version: &str, latest_sdk: &str, release_type: &str, phase: &str) -> Channel {
    Channel {
        channel_version: version.to_string(),
        latest_release: String::new(),
        latest_release_date: String::new(),
        latest_sdk: latest_sdk.to_string(),
        release_type: release_type.to_string(),
        support_phase: phase.to_string(),
        eol_date: if phase == "preview" { None } else { Some("2030-01-01".to_string()) },
        releases_json_url: String::new(),
    }
}

fn index() -> ReleasesIndex {
    ReleasesIndex {
        channels: vec![
            channel("10.0", "10.0.201", "lts", "active"),
            channel("9.0", "9.0.312", "sts", "active"),
            channel("8.0", "8.0.415", "lts", "maintenance"),
            channel("7.0", "7.0.410", "sts", "eol"),
            channel("6.0", "6.0.428", "lts", "eol"),
        ],
    }
}

#[test]
fn prune_keeps_the_latest_patch_of_each_band() {
    let installed = strings(&["8.0.300", "8.0.404", "8.0.401", "9.0.100", "9.0.103", "8.0.400"]);
    let plan = plan_prune(&installed);
    assert_eq!(plan.to_keep, strings(&["8.0.300", "8.0.404", "9.0.103"]));
    assert_eq!(plan.to_remove, strings(&["8.0.400", "8.0.401", "9.0.100"]));
}

#[test]
fn prune_of_one_version_per_band_removes_nothing() {
    let installed = strings(&["9.0.100", "8.0.404", "9.0.200"]);
    let plan = plan_prune(&installed);
    assert_eq!(plan.to_keep, strings(&["8.0.404", "9.0.100", "9.0.200"]));
    assert!(plan.to_remove.is_empty());
}

#[test]
fn prune_of_nothing_is_nothing() {
    let plan = plan_prune(&Vec::new());
    assert!(plan.to_keep.is_empty());
    assert!(plan.to_remove.is_empty());
}

#[test]
fn prune_keeps_a_release_over_its_previews() {
    let installed = strings(&["10.0.100-rc.1.25451.107", "10.0.100", "10.0.100-preview.7.25380.108"]);
    let plan = plan_prune(&installed);
    assert_eq!(plan.to_keep, strings(&["10.0.100"]));
    assert_eq!(plan.to_remove, strings(&["10.0.100-preview.7.25380.108", "10.0.100-rc.1.25451.107"]));
}

#[test]
fn prune_keeps_exactly_one_per_band() {
    let installed = strings(&["8.0.100", "8.0.101", "8.0.199", "8.0.200", "9.0.105", "9.0.104"]);
    let plan = plan_prune(&installed);
    let mut bands: Vec<String> = plan.to_keep.iter().map(|v| feature_band(v)).collect();
    let n = bands.len();
    bands.sort();
    bands.dedup();
    assert_eq!(bands.len(), n);
    assert_eq!(plan.to_keep.len() + plan.to_remove.len(), installed.len());
    for v in &installed {
        let band = feature_band(v);
        let kept: Vec<&String> = plan.to_keep.iter().filter(|k| feature_band(k) == band).collect();
        assert_eq!(kept.len(), 1);
    }
}

#[test]
fn update_moves_a_channel_to_its_latest_sdk() {
    let installed = strings(&["8.0.415", "9.0.100", "9.0.200"]);
    let plans = plan_updates(&installed, &index());
    assert_eq!(plans.len(), 1);
    assert_eq!(plans[0].channel, "9.0");
    assert_eq!(plans[0].from, "9.0.200");
    assert_eq!(plans[0].to, "9.0.312");
}

#[test]
fn update_plans_come_in_channel_order() {
    let installed = strings(&["9.0.100", "10.0.100", "8.0.300"]);
    let plans = plan_updates(&installed, &index());
    let channels: Vec<&str> = plans.iter().map(|p| p.channel.as_str()).collect();
    assert_eq!(channels, vec!["10.0", "8.0", "9.0"]);
    assert_eq!(plans[0].to, "10.0.201");
    assert_eq!(plans[1].from, "8.0.300");
    assert_eq!(plans[1].to, "8.0.415");
}

#[test]
fn update_skips_channels_that_are_current_or_ahead_or_unknown() {
    let installed = strings(&["10.0.300", "9.0.312", "5.0.100", "8.0.415"]);
    assert!(plan_updates(&installed, &index()).is_empty());
    assert!(plan_updates(&Vec::new(), &index()).is_empty());
}

#[test]
fn update_does_not_reinstall_an_installed_latest() {
    let installed = strings(&["9.0.312", "9.0.100"]);
    assert!(plan_updates(&installed, &index()).is_empty());
}

#[test]
fn latest_sdk_of_a_channel() {
    let idx = index();
    assert_eq!(latest_sdk_for_channel(&idx, "9.0"), Some("9.0.312".to_string()));
    assert_eq!(latest_sdk_for_channel(&idx, "4.0"), None);
    assert_eq!(find_channel_named(&idx, "8.0").unwrap().latest_sdk, "8.0.415");
    assert!(find_channel_named(&idx, "8").is_none());
}

#[test]
fn the_release_holding_an_sdk() {
    let rs = ChannelReleases {
        channel_version: "9.0".to_string(),
        latest_release: String::new(),
        latest_sdk: String::new(),
        releases: vec![
            Release {
                release_date: String::new(),
                release_version: String::new(),
                sdk: Sdk { version: "9.0.312".to_string(), files: Vec::new() },
            },
            Release {
                release_date: String::new(),
                release_version: String::new(),
                sdk: Sdk { version: "9.0.200".to_string(), files: Vec::new() },
            },
        ],
    };
    assert_eq!(find_release_sdk(&rs, "9.0.200").unwrap().version, "9.0.200");
    assert!(find_release_sdk(&rs, "9.0.201").is_none());
}

#[test]
fn ls_remote_hides_end_of_life_channels_by_default() {
    let idx = index();
    let args = LsRemoteArgs { lts: false, include_eol: false };
    assert_eq!(shown_channels(&args, &idx), vec![0, 1, 2]);
    assert!(!is_shown(&args, &idx.channels[3]));
}

#[test]
fn ls_remote_filters() {
    let idx = index();
    assert_eq!(shown_channels(&LsRemoteArgs { lts: true, include_eol: false }, &idx), vec![0, 2]);
    assert_eq!(shown_channels(&LsRemoteArgs { lts: false, include_eol: true }, &idx), vec![0, 1, 2, 3, 4]);
    assert_eq!(shown_channels(&LsRemoteArgs { lts: true, include_eol: true }, &idx), vec![0, 2, 4]);
}

#[test]
fn ls_channel_column() {
    assert_eq!(extract_channel("9.0.312"), "9.0");
    assert_eq!(extract_channel("9"), "9");
}

#[test]
fn paths_join_like_unix_paths() {
    assert_eq!(join_path("/home/u", ".dotnet"), "/home/u/.dotnet");
    assert_eq!(join_path("/home/u/", ".dotnet"), "/home/u/.dotnet");
    assert_eq!(join_path("", "sdk"), "sdk");
    assert_eq!(join_path("/home/u", "/etc"), "/etc");
}

#[test]
fn dsi_paths_live_under_the_home_directory() {
    let p = DsiPaths::from_home("/home/u");
    assert_eq!(p.dotnet_root, "/home/u/.dotnet");
    assert_eq!(p.dotnet_bin, "/home/u/.dotnet/dotnet");
    assert_eq!(p.sdk_dir, "/home/u/.dotnet/sdk");
    assert_eq!(p.sdk_path("9.0.312"), "/home/u/.dotnet/sdk/9.0.312");
}

#[test]
fn installed_sdks_are_sorted_directories_with_a_dot() {
    let entries = vec![
        DirEntry { name: "9.0.100".to_string(), is_dir: true },
        DirEntry { name: "NuGetFallbackFolder".to_string(), is_dir: true },
        DirEntry { name: "8.0.1".to_string(), is_dir: false },
        DirEntry { name: "10.0.100".to_string(), is_dir: true },
        DirEntry { name: "8.0.404".to_string(), is_dir: true },
    ];
    let paths = DsiPaths::from_home("/home/u");
    assert_eq!(paths.installed_sdks(&entries), strings(&["10.0.100", "8.0.404", "9.0.100"]));
    assert!(paths.installed_sdks(&Vec::new()).is_empty());
}

#[test]
fn versions_without_a_band_are_never_pruned() {
    let installed = strings(&["8.0.300", "8.0.3xx", "8.0.301", "9.0", "weird", "9.0"]);
    let plan = plan_prune(&installed);
    assert_eq!(plan.to_keep, strings(&["weird", "8.0.3xx", "8.0.301", "9.0", "9.0"]));
    assert_eq!(plan.to_remove, strings(&["8.0.300"]));
}

#[test]
fn uninstall_removes_only_a_version_directory() {
    let p = DsiPaths::from_home("/home/u");
    assert_eq!(p.uninstall_target("9.0.312"), Some("/home/u/.dotnet/sdk/9.0.312".to_string()));
    assert_eq!(p.uninstall_target("..."), Some("/home/u/.dotnet/sdk/...".to_string()));
    assert_eq!(p.uninstall_target(""), None);
    assert_eq!(p.uninstall_target("."), None);
    assert_eq!(p.uninstall_target(".."), None);
    assert_eq!(p.uninstall_target("../../etc"), None);
    assert_eq!(p.uninstall_target("/etc"), None);
}
