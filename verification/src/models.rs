//! The release metadata that Microsoft's releases API describes.
use vstd::prelude::*;
use crate::search::{first_match, lemma_first_match, lemma_first_match_skip};
use crate::text::{chars_of, parse_u32_chars, split_chars, split_on, str_eq, views};
use crate::version::field_value;

verus! {

/// The oldest .NET major version that can be installed.
pub const MIN_SUPPORTED_MAJOR_VERSION: u32 = 6;

/// Detailed releases of one channel.
pub struct ChannelReleases {
    pub channel_version: String,
    pub latest_release: String,
    pub latest_sdk: String,
    pub releases: Vec<Release>,
}

/// A single release in the channel.
pub struct Release {
    pub release_date: String,
    pub release_version: String,
    pub sdk: Sdk,
}

/// SDK metadata including download URLs for each platform.
pub struct Sdk {
    pub version: String,
    pub files: Vec<SdkFile>,
}

/// A downloadable SDK file for a specific platform.
pub struct SdkFile {
    pub name: String,
    pub rid: String,
    pub url: String,
    pub hash: String,
}

/// The index of all release channels.
pub struct ReleasesIndex {
    pub channels: Vec<Channel>,
}

/// One release channel ("9.0", "10.0", ...).
pub struct Channel {
    /// Channel version: "9.0", "10.0"
    pub channel_version: String,
    /// Latest release in this channel: "9.0.14"
    pub latest_release: String,
    /// Date of latest release: "2026-03-10"
    pub latest_release_date: String,
    /// Latest SDK version: "9.0.312"
    pub latest_sdk: String,
    /// "lts" or "sts"
    pub release_type: String,
    /// "active", "maintenance", "eol", "preview"
    pub support_phase: String,
    /// End of life date (may be missing for preview channels)
    pub eol_date: Option<String>,
    /// URL of the channel's detailed releases.
    pub releases_json_url: String,
}

impl Channel {
    /// A long-term-support channel.
    pub open spec fn spec_is_lts(&self) -> bool {
        self.release_type@ == "lts"@
    }

    /// A channel that has not reached its end of life.
    pub open spec fn spec_is_supported(&self) -> bool {
        self.support_phase@ != "eol"@
    }

    /// The major version: the first dot-separated field of the channel
    /// version as a number, 0 when it does not parse.
    pub open spec fn spec_major_version(&self) -> u32 {
        field_value(split_on(self.channel_version@, '.')[0])
    }

    /// A channel at or above the minimum supported major version.
    pub open spec fn spec_is_installable(&self) -> bool {
        self.spec_major_version() >= MIN_SUPPORTED_MAJOR_VERSION
    }

    pub fn is_lts(&self) -> (r: bool)
        ensures
            r == self.spec_is_lts(),
    {
        str_eq(self.release_type.as_str(), "lts")
    }

    pub fn is_supported(&self) -> (r: bool)
        ensures
            r == self.spec_is_supported(),
    {
        !str_eq(self.support_phase.as_str(), "eol")
    }

    pub fn major_version(&self) -> (r: u32)
        ensures
            r == self.spec_major_version(),
    {
        let cs = chars_of(self.channel_version.as_str());
        let parts = split_chars(cs.as_slice(), '.');
        proof { crate::text::lemma_split_nonempty(cs@, '.'); }
        assert(views(parts@)[0] == parts@[0]@);
        match parse_u32_chars(parts[0].as_slice()) {
            Some(n) => n,
            None => 0,
        }
    }

    pub fn is_installable(&self) -> (r: bool)
        ensures
            r == self.spec_is_installable(),
    {
        self.major_version() >= MIN_SUPPORTED_MAJOR_VERSION
    }
}

/// The index of the first file for the platform `rid`, or -1.
pub open spec fn rid_file_index(files: Seq<SdkFile>, rid: Seq<char>) -> int {
    first_match(0, files.len() as int, |i: int| files[i].rid@ == rid)
}

/// Find the SDK file matching a specific platform RID: the first one whose
/// `rid` equals it.
pub fn find_sdk_file_for_rid<'a>(files: &'a [SdkFile], rid: &str) -> (r: Option<&'a SdkFile>)
    ensures
        rid_file_index(files@, rid@) == -1 ==> r is None,
        rid_file_index(files@, rid@) != -1 ==> r == Some(&files@[rid_file_index(files@, rid@)]),
{
    let ghost p = |i: int| files@[i].rid@ == rid@;
    proof { lemma_first_match(0, files.len() as int, p); }
    let mut i: usize = 0;
    while i < files.len()
        invariant
            i <= files.len(),
            p == (|i: int| files@[i].rid@ == rid@),
            forall|j: int| 0 <= j < i ==> !#[trigger] p(j),
        decreases files.len() - i,
    {
        if str_eq(files[i].rid.as_str(), rid) {
            proof { lemma_first_match_skip(0, i as int, files.len() as int, p); }
            return Some(&files[i]);
        }
        i = i + 1;
    }
    proof { lemma_first_match_skip(0, i as int, files.len() as int, p); }
    None
}

} // verus!
