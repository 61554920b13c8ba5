//! `dsi selfupdate`: whether a newer dsi release exists, and where its
//! archive and checksum are published.
//!
//! Releases live on GitHub at `curllog/dsi`; each one carries an asset
//! `dsi-{rid}.tar.gz` and its `sha256sum`-style checksum `dsi-{rid}.tar.gz.sha256`.
use vstd::prelude::*;
use crate::order::Order;
use crate::text::{chars_of, string_from_chars};
use crate::version::{order_version_keys, version_key, version_order};

verus! {

/// The GitHub repository that publishes dsi releases.
pub const REPO: &'static str = "curllog/dsi";

/// The arguments of `dsi selfupdate`.
pub struct SelfUpdateArgs {
    /// Skip the confirmation prompt
    pub yes: bool,
}

/// A release tag without its leading 'v' ("v0.2.0" → "0.2.0").
pub open spec fn spec_tag_version(tag: Seq<char>) -> Seq<char> {
    if tag.len() > 0 && tag[0] == 'v' {
        tag.drop_first()
    } else {
        tag
    }
}

/// The version a release tag names.
pub fn tag_version(tag: &str) -> (r: String)
    ensures
        r@ == spec_tag_version(tag@),
{
    let cs = chars_of(tag);
    if cs.len() > 0 && cs[0] == 'v' {
        let rest = crate::version::sub_chars(cs.as_slice(), 1, cs.len());
        assert(rest@ =~= tag@.drop_first());
        string_from_chars(rest.as_slice())
    } else {
        string_from_chars(cs.as_slice())
    }
}

/// The version to update to, when the latest release's version sorts above
/// the current one; `None` when dsi is up to date.
pub open spec fn spec_update_to(current: Seq<char>, latest_tag: Seq<char>) -> Option<Seq<char>> {
    let latest = spec_tag_version(latest_tag);
    if version_order(latest, current) == Order::Greater {
        Some(latest)
    } else {
        None
    }
}

/// Decide whether the release tagged `latest_tag` is an update of `current`.
pub fn update_to(current: &str, latest_tag: &str) -> (r: Option<String>)
    ensures
        match spec_update_to(current@, latest_tag@) {
            Some(v) => r matches Some(s) && s@ == v,
            None => r is None,
        },
{
    let latest = tag_version(latest_tag);
    let a = version_key(latest.as_str());
    let b = version_key(current);
    if order_version_keys(&a, &b) == Order::Greater {
        Some(latest)
    } else {
        None
    }
}

/// The release asset for the platform `rid`: "dsi-{rid}.tar.gz".
pub fn asset_name(rid: &str) -> (r: String)
    ensures
        r@ == "dsi-"@ + rid@ + ".tar.gz"@,
{
    let mut s = String::from_str("dsi-");
    s.append(rid);
    s.append(".tar.gz");
    s
}

/// Where the assets of the release `tag` are downloaded from.
pub fn download_base(tag: &str) -> (r: String)
    ensures
        r@ == "https://github.com/"@ + REPO@ + "/releases/download/"@ + tag@,
{
    let mut s = String::from_str("https://github.com/");
    s.append(REPO);
    s.append("/releases/download/");
    s.append(tag);
    s
}

/// The GitHub API address that describes the latest release.
pub fn latest_release_url() -> (r: String)
    ensures
        r@ == "https://api.github.com/repos/"@ + REPO@ + "/releases/latest"@,
{
    let mut s = String::from_str("https://api.github.com/repos/");
    s.append(REPO);
    s.append("/releases/latest");
    s
}

/// The address of `asset` under a release's download base.
pub fn asset_url(base: &str, asset: &str) -> (r: String)
    ensures
        r@ == base@ + "/"@ + asset@,
{
    let mut s = String::from_str(base);
    s.append("/");
    s.append(asset);
    s
}

/// The address of the checksum file published beside `asset`.
pub fn checksum_url(base: &str, asset: &str) -> (r: String)
    ensures
        r@ == base@ + "/"@ + asset@ + ".sha256"@,
{
    let mut s = asset_url(base, asset);
    s.append(".sha256");
    s
}

} // verus!
