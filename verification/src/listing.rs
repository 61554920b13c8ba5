//! `dsi ls` and `dsi ls-remote`: what the two listings show.
use vstd::prelude::*;
use crate::models::{Channel, ReleasesIndex};
use crate::version::{channel_of, spec_channel_of};

verus! {

/// The arguments of `dsi ls` (it takes none).
pub struct LsArgs;

/// The channel column of `dsi ls` for an installed SDK version: its
/// "major.minor", or the whole version when it has fewer than two fields.
pub fn extract_channel(version: &str) -> (r: String)
    ensures
        r@ == spec_channel_of(version@),
{
    channel_of(version)
}

/// The arguments of `dsi ls-remote`.
pub struct LsRemoteArgs {
    /// Only show LTS releases
    pub lts: bool,
    /// Include end-of-life versions
    pub include_eol: bool,
}

/// `dsi ls-remote` shows a channel unless it is end-of-life (and EOL
/// channels were not asked for) or it is not LTS (and only LTS was asked for).
pub open spec fn spec_shown(args: LsRemoteArgs, c: Channel) -> bool {
    &&& args.include_eol || c.support_phase@ != "eol"@
    &&& !args.lts || c.release_type@ == "lts"@
}

/// The positions, in index order, of the first `n` channels that are shown.
pub open spec fn shown_positions(args: LsRemoteArgs, cs: Seq<Channel>, n: int) -> Seq<usize>
    decreases n,
{
    if n <= 0 {
        Seq::empty()
    } else {
        let prev = shown_positions(args, cs, n - 1);
        if spec_shown(args, cs[n - 1]) {
            prev.push((n - 1) as usize)
        } else {
            prev
        }
    }
}

/// Whether `dsi ls-remote` shows the channel.
pub fn is_shown(args: &LsRemoteArgs, c: &Channel) -> (r: bool)
    ensures
        r == spec_shown(*args, *c),
        !args.lts && c.support_phase@ != "eol"@ ==> r,
        args.include_eol && !args.lts ==> r,
        r ==> args.include_eol || c.support_phase@ != "eol"@,
        r ==> !args.lts || c.release_type@ == "lts"@,
        args.lts && c.release_type@ == "lts"@ && c.support_phase@ != "eol"@ ==> r,
{
    (args.include_eol || c.is_supported()) && (!args.lts || c.is_lts())
}

/// What `dsi ls-remote` hides: only end-of-life channels (unless they were
/// asked for) and, with `--lts`, channels that are not LTS. Any other
/// support phase, "preview" among them, is shown.
pub proof fn lemma_only_eol_and_non_lts_hidden(args: LsRemoteArgs, c: Channel)
    ensures
        !args.lts && c.support_phase@ != "eol"@ ==> spec_shown(args, c),
        args.include_eol && !args.lts ==> spec_shown(args, c),
        args.lts && c.release_type@ == "lts"@ && c.support_phase@ != "eol"@ ==> spec_shown(args, c),
        spec_shown(args, c) ==> args.include_eol || c.support_phase@ != "eol"@,
        spec_shown(args, c) ==> !args.lts || c.release_type@ == "lts"@,
{
}

/// The listed positions are the shown channels' positions, each once, in
/// ascending order.
pub proof fn lemma_shown_positions(args: LsRemoteArgs, cs: Seq<Channel>, n: int)
    requires
        0 <= n <= cs.len(),
        cs.len() <= usize::MAX,
    ensures
        forall|k: int| 0 <= k < shown_positions(args, cs, n).len() ==> (#[trigger] shown_positions(args, cs, n)[k]) < n
            && spec_shown(args, cs[shown_positions(args, cs, n)[k] as int]),
        forall|a: int, b: int|
            0 <= a < b < shown_positions(args, cs, n).len() ==> #[trigger] shown_positions(args, cs, n)[a]
                < #[trigger] shown_positions(args, cs, n)[b],
        forall|i: int| 0 <= i < n && spec_shown(args, #[trigger] cs[i]) ==> shown_positions(args, cs, n).contains(i as usize),
    decreases n,
{
    if n > 0 {
        lemma_shown_positions(args, cs, n - 1);
        let prev = shown_positions(args, cs, n - 1);
        let cur = shown_positions(args, cs, n);
        if spec_shown(args, cs[n - 1]) {
            assert(cur == prev.push((n - 1) as usize));
            assert(cur[prev.len() as int] == (n - 1) as usize);
        } else {
            assert(cur == prev);
        }
        assert forall|k: int| 0 <= k < prev.len() implies #[trigger] cur[k] == prev[k] by {}
        assert forall|k: int| 0 <= k < cur.len() implies (#[trigger] cur[k]) < n && spec_shown(args, cs[cur[k] as int]) by {
            if k < prev.len() {
                assert(cur[k] == prev[k]);
            }
        }
        assert forall|a: int, b: int| 0 <= a < b < cur.len() implies #[trigger] cur[a] < #[trigger] cur[b] by {
            assert(cur[a] == prev[a]);
            if b < prev.len() {
                assert(cur[b] == prev[b]);
            }
        }
        assert forall|i: int| 0 <= i < n && spec_shown(args, #[trigger] cs[i]) implies shown_positions(args, cs, n).contains(
            i as usize,
        ) by {
            if i < n - 1 {
                let k = choose|k: int| 0 <= k < prev.len() && prev[k] == i as usize;
                assert(shown_positions(args, cs, n)[k] == i as usize);
            } else {
                assert(shown_positions(args, cs, n)[prev.len() as int] == i as usize);
            }
        }
    }
}

/// The positions of the index's channels that `dsi ls-remote` lists, in order.
pub fn shown_channels(args: &LsRemoteArgs, index: &ReleasesIndex) -> (r: Vec<usize>)
    ensures
        r@ == shown_positions(*args, index.channels@, index.channels@.len() as int),
        forall|k: int| 0 <= k < r@.len() ==> (#[trigger] r@[k]) < index.channels@.len() && spec_shown(
            *args,
            index.channels@[r@[k] as int],
        ),
        forall|a: int, b: int| 0 <= a < b < r@.len() ==> #[trigger] r@[a] < #[trigger] r@[b],
        forall|i: int|
            0 <= i < index.channels@.len() && !args.lts && (#[trigger] index.channels@[i]).support_phase@ != "eol"@
                ==> r@.contains(i as usize),
{
    let cs = &index.channels;
    let mut r: Vec<usize> = Vec::new();
    let mut i: usize = 0;
    while i < cs.len()
        invariant
            i <= cs.len(),
            r@ == shown_positions(*args, cs@, i as int),
        decreases cs.len() - i,
    {
        if is_shown(args, &cs[i]) {
            r.push(i);
        }
        i = i + 1;
    }
    proof {
        lemma_shown_positions(*args, cs@, cs@.len() as int);
        assert forall|i: int|
            0 <= i < cs@.len() && !args.lts && (#[trigger] cs@[i]).support_phase@ != "eol"@ implies r@.contains(i as usize) by {
            lemma_only_eol_and_non_lts_hidden(*args, cs@[i]);
        }
    }
    r
}

} // verus!
