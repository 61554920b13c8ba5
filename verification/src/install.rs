//! `dsi install`: deciding what to install, and from where.
use vstd::prelude::*;
use crate::models::{Channel, ChannelReleases, ReleasesIndex, Sdk, SdkFile, find_sdk_file_for_rid, rid_file_index};
use crate::search::{first_match, last_max, lemma_first_match, lemma_first_match_skip};
use crate::text::{chars_of, count_char, count_chars, str_eq};
use crate::version::{channel_of, spec_channel_of};

verus! {

/// The arguments of `dsi install`.
pub struct InstallArgs {
    /// Version to install: channel ("9.0") or exact ("9.0.312")
    pub version: Option<String>,
    /// Install the latest LTS version
    pub lts: bool,
    /// Install the latest supported version (LTS or STS)
    pub latest: bool,
}

/// Why an installation cannot go ahead.
pub enum InstallError {
    /// No version and neither `--lts` nor `--latest` was given.
    MissingTarget,
    /// No channel of the index matches the target.
    ChannelNotFound(String),
    /// The channel (its version given) is older than the minimum supported major version.
    BelowMinimum(String),
    /// The exact SDK version is not among the channel's releases.
    SdkVersionNotFound(String),
    /// The channel lists no releases.
    NoReleases,
    /// No download is published for the platform (its RID given).
    NoDownloadForPlatform(String),
}

/// The target that the arguments ask for: "lts", "latest" or a version.
pub open spec fn spec_target(args: InstallArgs) -> Option<Seq<char>> {
    if args.lts {
        Some("lts"@)
    } else if args.latest {
        Some("latest"@)
    } else {
        match args.version {
            Some(v) => Some(v@),
            None => None,
        }
    }
}

/// `--lts` decides the target whatever else is given, `--latest` decides it
/// when `--lts` is not given, a version is the target only without either
/// flag, and a target is missing exactly when there is neither flag nor version.
pub proof fn lemma_target_flags(args: InstallArgs)
    ensures
        args.lts ==> spec_target(args) == Some("lts"@),
        !args.lts && args.latest ==> spec_target(args) == Some("latest"@),
        !args.lts && !args.latest && args.version is Some ==> spec_target(args) == Some(args.version->0@),
        spec_target(args) is None <==> (args.version is None && !args.lts && !args.latest),
{
}

/// Decide what the user wants to install.
pub fn resolve_target(args: &InstallArgs) -> (r: Result<String, InstallError>)
    ensures
        match spec_target(*args) {
            Some(t) => r matches Ok(s) && s@ == t,
            None => r matches Err(InstallError::MissingTarget),
        },
        args.lts ==> (r matches Ok(s) && s@ == "lts"@),
        !args.lts && args.latest ==> (r matches Ok(s) && s@ == "latest"@),
        !args.lts && !args.latest && args.version is Some ==> (r matches Ok(s) && s@ == args.version->0@),
        r is Err <==> (args.version is None && !args.lts && !args.latest),
{
    if args.lts {
        Ok(String::from_str("lts"))
    } else if args.latest {
        Ok(String::from_str("latest"))
    } else {
        match &args.version {
            Some(version) => Ok(version.clone()),
            None => Err(InstallError::MissingTarget),
        }
    }
}

/// Extract the major.minor channel from a version string.
///   "9.0"      → "9.0"
///   "9.0.312"  → "9.0"
pub fn extract_channel_version(version: &str) -> (r: String)
    ensures
        r@ == spec_channel_of(version@),
{
    channel_of(version)
}

/// An LTS channel that is still supported.
pub open spec fn lts_candidate(c: Channel) -> bool {
    c.spec_is_lts() && c.spec_is_supported()
}

/// Channel `i` is a supported LTS channel.
pub open spec fn lts_pred(channels: Seq<Channel>) -> spec_fn(int) -> bool {
    |i: int| lts_candidate(channels[i])
}

/// Channel `i` is supported.
pub open spec fn supported_pred(channels: Seq<Channel>) -> spec_fn(int) -> bool {
    |i: int| channels[i].spec_is_supported()
}

/// The major version of channel `i`.
pub open spec fn major_key(channels: Seq<Channel>) -> spec_fn(int) -> int {
    |i: int| channels[i].spec_major_version() as int
}

/// Channel `i` has the "major.minor" of `target` as its version.
pub open spec fn channel_matches(channels: Seq<Channel>, target: Seq<char>) -> spec_fn(int) -> bool {
    |i: int| channels[i].channel_version@ == spec_channel_of(target)
}

/// The index of the channel that `pick_channel` chooses for `target`, or -1:
/// for "lts" the supported LTS channel with the highest major version, for
/// "latest" the supported channel with the highest major version (of equals,
/// the last), otherwise the first channel whose version is the target's
/// "major.minor".
pub open spec fn picked_channel(channels: Seq<Channel>, target: Seq<char>) -> int {
    let n = channels.len() as int;
    if target == "lts"@ {
        last_max(n, lts_pred(channels), major_key(channels))
    } else if target == "latest"@ {
        last_max(n, supported_pred(channels), major_key(channels))
    } else {
        first_match(0, n, channel_matches(channels, target))
    }
}

/// `filter(pred).max_by_key(major_version)` over the channels, where `pred`
/// is "supported LTS" when `lts_only` and "supported" otherwise.
fn newest_channel(channels: &Vec<Channel>, lts_only: bool) -> (r: Option<usize>)
    ensures
        ({
            let n = channels@.len() as int;
            let m = if lts_only {
                last_max(n, lts_pred(channels@), major_key(channels@))
            } else {
                last_max(n, supported_pred(channels@), major_key(channels@))
            };
            match r {
                Some(i) => m == i,
                None => m == -1,
            }
        }),
{
    let ghost key = major_key(channels@);
    let ghost p = if lts_only { lts_pred(channels@) } else { supported_pred(channels@) };
    let mut best: Option<usize> = None;
    let mut best_major: u32 = 0;
    let mut i: usize = 0;
    while i < channels.len()
        invariant
            i <= channels.len(),
            key == major_key(channels@),
            p == (if lts_only { lts_pred(channels@) } else { supported_pred(channels@) }),
            match best {
                Some(b) => last_max(i as int, p, key) == b && b < i && best_major == key(b as int),
                None => last_max(i as int, p, key) == -1,
            },
        decreases channels.len() - i,
    {
        let c = &channels[i];
        let wanted = if lts_only { c.is_lts() && c.is_supported() } else { c.is_supported() };
        assert(wanted == p(i as int));
        if wanted {
            let major = c.major_version();
            match best {
                Some(_) => {
                    if best_major <= major {
                        best = Some(i);
                        best_major = major;
                    }
                },
                None => {
                    best = Some(i);
                    best_major = major;
                },
            }
        }
        i = i + 1;
    }
    best
}

/// The first channel whose version is `key`, the "major.minor" of `target`.
fn find_channel(channels: &Vec<Channel>, key: &str, target: Ghost<Seq<char>>) -> (r: Option<usize>)
    requires
        key@ == spec_channel_of(target@),
    ensures
        match r {
            Some(i) => first_match(0, channels@.len() as int, channel_matches(channels@, target@)) == i,
            None => first_match(0, channels@.len() as int, channel_matches(channels@, target@)) == -1,
        },
{
    let ghost p = channel_matches(channels@, target@);
    proof { lemma_first_match(0, channels.len() as int, p); }
    let mut i: usize = 0;
    while i < channels.len()
        invariant
            i <= channels.len(),
            key@ == spec_channel_of(target@),
            p == channel_matches(channels@, target@),
            forall|j: int| 0 <= j < i ==> !#[trigger] p(j),
        decreases channels.len() - i,
    {
        if str_eq(channels[i].channel_version.as_str(), key) {
            proof { lemma_first_match_skip(0, i as int, channels.len() as int, p); }
            return Some(i);
        }
        i = i + 1;
    }
    proof { lemma_first_match_skip(0, i as int, channels.len() as int, p); }
    None
}

/// Pick the right channel from the index based on the target string.
pub fn pick_channel<'a>(index: &'a ReleasesIndex, target: &str) -> (r: Result<&'a Channel, InstallError>)
    ensures
        ({
            let k = picked_channel(index.channels@, target@);
            &&& k == -1 ==> (r matches Err(InstallError::ChannelNotFound(t)) && t@ == target@)
            &&& k != -1 ==> 0 <= k < index.channels@.len() && r == Ok::<&Channel, InstallError>(
                &index.channels@[k],
            )
        }),
{
    let channels = &index.channels;
    let found: Option<usize> = if str_eq(target, "lts") {
        newest_channel(channels, true)
    } else if str_eq(target, "latest") {
        newest_channel(channels, false)
    } else {
        let channel_key = extract_channel_version(target);
        find_channel(channels, channel_key.as_str(), Ghost(target@))
    };
    proof {
        let n = channels@.len() as int;
        crate::search::lemma_last_max(n, lts_pred(channels@), major_key(channels@));
        crate::search::lemma_last_max(n, supported_pred(channels@), major_key(channels@));
        lemma_first_match(0, n, channel_matches(channels@, target@));
    }
    match found {
        Some(i) => Ok(&channels[i]),
        None => Err(InstallError::ChannelNotFound(String::from_str(target))),
    }
}

/// Reject channels below .NET 6.
pub fn check_channel_supported(channel: &Channel) -> (r: Result<(), InstallError>)
    ensures
        channel.spec_is_installable() ==> r is Ok,
        !channel.spec_is_installable() ==> (r matches Err(InstallError::BelowMinimum(v)) && v@
            == channel.channel_version@),
{
    if !channel.is_installable() {
        return Err(InstallError::BelowMinimum(channel.channel_version.clone()));
    }
    Ok(())
}

/// Release `i` carries the SDK `version`.
pub open spec fn release_has_sdk(releases: Seq<crate::models::Release>, version: Seq<char>) -> spec_fn(int) -> bool {
    |i: int| releases[i].sdk.version@ == version
}

/// The index of the release whose SDK `pick_sdk` chooses, or -1: for a full
/// version (two or more dots) the first release with exactly that SDK version,
/// otherwise the first release (the newest, as the API lists them).
pub open spec fn picked_release(releases: ChannelReleases, target: Seq<char>) -> int {
    if count_char(target, '.') >= 2 {
        first_match(0, releases.releases@.len() as int, release_has_sdk(releases.releases@, target))
    } else if releases.releases@.len() > 0 {
        0
    } else {
        -1
    }
}

/// Pick the right SDK from a channel's releases.
pub fn pick_sdk<'a>(releases: &'a ChannelReleases, target: &str) -> (r: Result<&'a Sdk, InstallError>)
    ensures
        ({
            let k = picked_release(*releases, target@);
            &&& k != -1 ==> 0 <= k < releases.releases@.len() && r == Ok::<&Sdk, InstallError>(
                &releases.releases@[k].sdk,
            )
            &&& k == -1 && count_char(target@, '.') >= 2 ==> (r matches Err(
                InstallError::SdkVersionNotFound(t),
            ) && t@ == target@)
            &&& k == -1 && count_char(target@, '.') < 2 ==> r matches Err(InstallError::NoReleases)
        }),
{
    let tc = chars_of(target);
    let is_full_version = count_chars(tc.as_slice(), '.') >= 2;
    let rs = &releases.releases;
    if is_full_version {
        let ghost p = release_has_sdk(rs@, target@);
        proof { lemma_first_match(0, rs.len() as int, p); }
        let mut i: usize = 0;
        while i < rs.len()
            invariant
                i <= rs.len(),
                p == release_has_sdk(rs@, target@),
                count_char(target@, '.') >= 2,
                rs@ == releases.releases@,
                forall|j: int| 0 <= j < i ==> !#[trigger] p(j),
            decreases rs.len() - i,
        {
            if str_eq(rs[i].sdk.version.as_str(), target) {
                proof {
                    lemma_first_match_skip(0, i as int, rs.len() as int, p);
                    assert(p(i as int));
                }
                return Ok(&rs[i].sdk);
            }
            i = i + 1;
        }
        proof { lemma_first_match_skip(0, i as int, rs.len() as int, p); }
        Err(InstallError::SdkVersionNotFound(String::from_str(target)))
    } else if rs.len() > 0 {
        Ok(&rs[0].sdk)
    } else {
        Err(InstallError::NoReleases)
    }
}

/// What `dsi install` downloads once the channel's releases are known: the
/// SDK that `pick_sdk` chooses and its first file for the platform `rid`.
pub fn choose_download<'a>(releases: &'a ChannelReleases, target: &str, rid: &str) -> (r: Result<(&'a Sdk, &'a SdkFile), InstallError>)
    ensures
        ({
            let k = picked_release(*releases, target@);
            &&& k == -1 && count_char(target@, '.') >= 2 ==> (r matches Err(
                InstallError::SdkVersionNotFound(t),
            ) && t@ == target@)
            &&& k == -1 && count_char(target@, '.') < 2 ==> (r matches Err(InstallError::NoReleases))
            &&& k != -1 && rid_file_index(releases.releases@[k].sdk.files@, rid@) == -1 ==> (r matches Err(
                InstallError::NoDownloadForPlatform(p),
            ) && p@ == rid@)
            &&& k != -1 && rid_file_index(releases.releases@[k].sdk.files@, rid@) != -1 ==> r == Ok::<
                (&Sdk, &SdkFile),
                InstallError,
            >(
                (
                    &releases.releases@[k].sdk,
                    &releases.releases@[k].sdk.files@[rid_file_index(releases.releases@[k].sdk.files@, rid@)],
                ),
            )
        }),
{
    let sdk = pick_sdk(releases, target)?;
    match find_sdk_file_for_rid(sdk.files.as_slice(), rid) {
        Some(file) => Ok((sdk, file)),
        None => Err(InstallError::NoDownloadForPlatform(String::from_str(rid))),
    }
}

/// The local file name of a downloaded SDK archive.
pub fn archive_filename(version: &str, rid: &str) -> (r: String)
    ensures
        r@ == "dsi-download-"@ + version@ + "-"@ + rid@ + ".tar.gz"@,
{
    let mut s = String::from_str("dsi-download-");
    s.append(version);
    s.append("-");
    s.append(rid);
    s.append(".tar.gz");
    s
}

} // verus!
