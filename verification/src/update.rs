//! `dsi update`: which installed channels have a newer patch to move to.
use vstd::prelude::*;
use crate::models::{Channel, ChannelReleases, ReleasesIndex, Sdk};
use crate::order::{Order, lemma_order_chars_total, order_char_slices, order_chars};
use crate::search::{first_match, lemma_first_match, lemma_first_match_skip};
use crate::sort::{is_strict_order, sort_positions, strictly_sorted};
use crate::text::{chars_eq, chars_of, str_eq};
use crate::version::{
    KeyView, VersionKey, channel_of, key_view, lemma_version_order_total, order_keys,
    order_version_keys, spec_channel_of, spec_version_key, version_key, version_order,
};

verus! {

/// The arguments of `dsi update`.
pub struct UpdateArgs {
    /// Skip the confirmation prompt
    pub yes: bool,
}

/// A pending update: bump the highest installed patch in a channel up to the
/// latest patch the channel offers.
pub struct UpdatePlan {
    pub channel: String,
    pub from: String,
    pub to: String,
}

/// Of the first `n` installed versions in channel `c`, the first one with
/// the highest key, or -1.
pub open spec fn channel_current(s: Seq<Seq<char>>, c: Seq<char>, n: int) -> int
    decreases n,
{
    if n <= 0 {
        -1
    } else {
        let prev = channel_current(s, c, n - 1);
        if spec_channel_of(s[n - 1]) == c && (prev < 0 || version_order(s[n - 1], s[prev])
            == Order::Greater) {
            n - 1
        } else {
            prev
        }
    }
}

/// Channel `i` of the index has version `c`.
pub open spec fn channel_named(channels: Seq<Channel>, c: Seq<char>) -> spec_fn(int) -> bool {
    |i: int| channels[i].channel_version@ == c
}

/// The position of the first channel of the index with version `c`, or -1.
pub open spec fn channel_position(channels: Seq<Channel>, c: Seq<char>) -> int {
    first_match(0, channels.len() as int, channel_named(channels, c))
}

/// The latest SDK that the index names for channel `c`, if the channel is there.
pub open spec fn index_latest_sdk(channels: Seq<Channel>, c: Seq<char>) -> Option<Seq<char>> {
    let k = channel_position(channels, c);
    if k < 0 {
        None
    } else {
        Some(channels[k].latest_sdk@)
    }
}

/// The version that channel `c` is updated to: its latest SDK, when that is
/// not installed yet and is newer than the highest installed patch.
pub open spec fn update_target(s: Seq<Seq<char>>, channels: Seq<Channel>, c: Seq<char>) -> Option<Seq<char>> {
    let cur = channel_current(s, c, s.len() as int);
    match index_latest_sdk(channels, c) {
        Some(l) => if cur >= 0 && !s.contains(l) && version_order(l, s[cur]) == Order::Greater {
            Some(l)
        } else {
            None
        },
        None => None,
    }
}

/// The first channel of the index with version `channel`.
pub fn find_channel_named<'a>(index: &'a ReleasesIndex, channel: &str) -> (r: Option<&'a Channel>)
    ensures
        channel_position(index.channels@, channel@) == -1 ==> r is None,
        channel_position(index.channels@, channel@) != -1 ==> 0 <= channel_position(index.channels@, channel@)
            < index.channels@.len() && r == Some(&index.channels@[channel_position(index.channels@, channel@)]),
{
    let cs = &index.channels;
    let ghost p = channel_named(cs@, channel@);
    proof { lemma_first_match(0, cs.len() as int, p); }
    let mut i: usize = 0;
    while i < cs.len()
        invariant
            i <= cs.len(),
            p == channel_named(cs@, channel@),
            cs@ == index.channels@,
            forall|j: int| 0 <= j < i ==> !#[trigger] p(j),
        decreases cs.len() - i,
    {
        if str_eq(cs[i].channel_version.as_str(), channel) {
            proof {
                lemma_first_match_skip(0, i as int, cs.len() as int, p);
                assert(first_match(i as int, cs.len() as int, p) == i as int);
            }
            return Some(&cs[i]);
        }
        i = i + 1;
    }
    proof { lemma_first_match_skip(0, i as int, cs.len() as int, p); }
    None
}

/// Resolve the latest SDK version for a channel, or `None` if the channel
/// isn't present in the index.
pub fn latest_sdk_for_channel(index: &ReleasesIndex, channel: &str) -> (r: Option<String>)
    ensures
        match index_latest_sdk(index.channels@, channel@) {
            Some(l) => r matches Some(v) && v@ == l,
            None => r is None,
        },
{
    match find_channel_named(index, channel) {
        Some(c) => Some(c.latest_sdk.clone()),
        None => None,
    }
}

/// The SDK of the first release whose SDK version is `version`.
pub fn find_release_sdk<'a>(releases: &'a ChannelReleases, version: &str) -> (r: Option<&'a Sdk>)
    ensures
        ({
            let k = first_match(0, releases.releases@.len() as int, crate::install::release_has_sdk(releases.releases@, version@));
            &&& k == -1 ==> r is None
            &&& k != -1 ==> 0 <= k < releases.releases@.len() && r == Some(&releases.releases@[k].sdk)
        }),
{
    let rs = &releases.releases;
    let ghost p = crate::install::release_has_sdk(rs@, version@);
    proof { lemma_first_match(0, rs.len() as int, p); }
    let mut i: usize = 0;
    while i < rs.len()
        invariant
            i <= rs.len(),
            p == crate::install::release_has_sdk(rs@, version@),
            rs@ == releases.releases@,
            forall|j: int| 0 <= j < i ==> !#[trigger] p(j),
        decreases rs.len() - i,
    {
        if str_eq(rs[i].sdk.version.as_str(), version) {
            proof {
                lemma_first_match_skip(0, i as int, rs.len() as int, p);
                assert(first_match(i as int, rs.len() as int, p) == i as int);
            }
            return Some(&rs[i].sdk);
        }
        i = i + 1;
    }
    proof { lemma_first_match_skip(0, i as int, rs.len() as int, p); }
    None
}


/// Position `i` is where its channel first occurs.
pub open spec fn first_of_channel(s: Seq<Seq<char>>, i: int) -> bool {
    forall|j: int| 0 <= j < i ==> spec_channel_of(#[trigger] s[j]) != spec_channel_of(s[i])
}

/// Positions ordered by channel (as strings), then by position.
pub open spec fn channel_rank(s: Seq<Seq<char>>) -> spec_fn(int, int) -> bool {
    |i: int, j: int|
        {
            let c = order_chars(spec_channel_of(s[i]), spec_channel_of(s[j]));
            c == Order::Less || (c == Order::Equal && i < j)
        }
}

/// The channel order on positions is a strict total order.
pub proof fn lemma_channel_rank_strict(s: Seq<Seq<char>>)
    ensures
        is_strict_order(channel_rank(s)),
{
    lemma_order_chars_total();
    let r = channel_rank(s);
    let co = |a: Seq<char>, b: Seq<char>| order_chars(a, b);
    assert forall|x: int, y: int, z: int| #[trigger] r(x, y) && #[trigger] r(y, z) implies r(x, z) by {
        let cx = spec_channel_of(s[x]);
        let cy = spec_channel_of(s[y]);
        let cz = spec_channel_of(s[z]);
        if co(cx, cy) == Order::Equal {
            assert(cx == cy);
        }
        if co(cy, cz) == Order::Equal {
            assert(cy == cz);
        }
        if co(cx, cy) == Order::Less && co(cy, cz) == Order::Less {
            assert(co(cx, cz) == Order::Less);
        }
    }
    assert forall|x: int, y: int| x != y implies #[trigger] r(x, y) || #[trigger] r(y, x) by {
        assert(co(spec_channel_of(s[x]), spec_channel_of(s[y])) == crate::order::flip(
            co(spec_channel_of(s[y]), spec_channel_of(s[x])),
        ));
    }
    assert forall|x: int| !#[trigger] r(x, x) by {
        assert(co(spec_channel_of(s[x]), spec_channel_of(s[x])) == Order::Equal);
    }
}

/// Characterisation of `channel_current`.
pub proof fn lemma_channel_current(s: Seq<Seq<char>>, c: Seq<char>, n: int)
    requires
        n <= s.len(),
    ensures
        channel_current(s, c, n) == -1 <==> (forall|j: int| 0 <= j < n ==> spec_channel_of(#[trigger] s[j]) != c),
        channel_current(s, c, n) != -1 ==> 0 <= channel_current(s, c, n) < n && spec_channel_of(
            s[channel_current(s, c, n)],
        ) == c,
    decreases n,
{
    if n > 0 {
        lemma_channel_current(s, c, n - 1);
    }
}

/// The position of the highest installed version of channel `c`.
fn current_of_channel(chans: &Vec<Vec<char>>, keys: &Vec<VersionKey>, c: &[char], s: Ghost<Seq<Seq<char>>>) -> (r: Option<usize>)
    requires
        chans@.len() == s@.len(),
        keys@.len() == s@.len(),
        forall|i: int| 0 <= i < s@.len() ==> #[trigger] chans@[i]@ == spec_channel_of(s@[i]),
        forall|i: int| 0 <= i < s@.len() ==> #[trigger] key_view(keys@[i]) == spec_version_key(s@[i]),
    ensures
        match r {
            Some(l) => channel_current(s@, c@, s@.len() as int) == l,
            None => channel_current(s@, c@, s@.len() as int) == -1,
        },
{
    let mut best: Option<usize> = None;
    let mut j: usize = 0;
    while j < chans.len()
        invariant
            j <= chans.len(),
            chans@.len() == s@.len(),
            keys@.len() == s@.len(),
            forall|i: int| 0 <= i < s@.len() ==> #[trigger] chans@[i]@ == spec_channel_of(s@[i]),
            forall|i: int| 0 <= i < s@.len() ==> #[trigger] key_view(keys@[i]) == spec_version_key(s@[i]),
            match best {
                Some(l) => channel_current(s@, c@, j as int) == l && l < j,
                None => channel_current(s@, c@, j as int) == -1,
            },
        decreases chans.len() - j,
    {
        assert(chans@[j as int]@ == spec_channel_of(s@[j as int]));
        if chars_eq(chans[j].as_slice(), c) {
            match best {
                Some(l) => {
                    assert(key_view(keys@[l as int]) == spec_version_key(s@[l as int]));
                    assert(key_view(keys@[j as int]) == spec_version_key(s@[j as int]));
                    if order_version_keys(&keys[j], &keys[l]) == Order::Greater {
                        best = Some(j);
                    }
                },
                None => {
                    best = Some(j);
                },
            }
        }
        j = j + 1;
    }
    best
}

/// Whether `v` is one of the installed versions.
fn is_installed(names: &Vec<Vec<char>>, v: &[char], s: Ghost<Seq<Seq<char>>>) -> (r: bool)
    requires
        names@.len() == s@.len(),
        forall|i: int| 0 <= i < s@.len() ==> #[trigger] names@[i]@ == s@[i],
    ensures
        r == s@.contains(v@),
{
    let mut j: usize = 0;
    while j < names.len()
        invariant
            j <= names.len(),
            names@.len() == s@.len(),
            forall|i: int| 0 <= i < s@.len() ==> #[trigger] names@[i]@ == s@[i],
            forall|i: int| 0 <= i < j ==> s@[i] != v@,
        decreases names.len() - j,
    {
        assert(names@[j as int]@ == s@[j as int]);
        if chars_eq(names[j].as_slice(), v) {
            return true;
        }
        j = j + 1;
    }
    false
}

/// The updates to make: for every channel that has installed versions (in
/// ascending channel order), move its highest installed patch to the
/// channel's latest SDK when that is newer and not installed yet.
pub fn plan_updates(installed: &Vec<String>, index: &ReleasesIndex) -> (plans: Vec<UpdatePlan>)
    ensures
        forall|k: int| 0 <= k < plans@.len() ==> {
            let p = #[trigger] plans@[k];
            &&& update_target(installed.deep_view(), index.channels@, p.channel@) == Some(p.to@)
            &&& p.from@ == installed.deep_view()[channel_current(installed.deep_view(), p.channel@, installed@.len() as int)]
            &&& exists|i: int| 0 <= i < installed@.len() && spec_channel_of(installed.deep_view()[i]) == p.channel@
        },
        forall|a: int, b: int| 0 <= a < b < plans@.len() ==> order_chars(#[trigger] plans@[a].channel@, #[trigger] plans@[b].channel@) == Order::Less,
        forall|i: int| 0 <= i < installed@.len() && (#[trigger] update_target(installed.deep_view(), index.channels@, spec_channel_of(installed.deep_view()[i]))) is Some ==> exists|k: int| 0 <= k < plans@.len() && plans@[k].channel@ == spec_channel_of(installed.deep_view()[i]),
{
    let ghost s = installed.deep_view();
    let n = installed.len();
    let mut names: Vec<Vec<char>> = Vec::new();
    let mut chans: Vec<Vec<char>> = Vec::new();
    let mut keys: Vec<VersionKey> = Vec::new();
    let mut i: usize = 0;
    while i < n
        invariant
            n == installed@.len(),
            s == installed.deep_view(),
            i <= n,
            names@.len() == i,
            chans@.len() == i,
            keys@.len() == i,
            forall|j: int| 0 <= j < i ==> #[trigger] names@[j]@ == s[j],
            forall|j: int| 0 <= j < i ==> #[trigger] chans@[j]@ == spec_channel_of(s[j]),
            forall|j: int| 0 <= j < i ==> #[trigger] key_view(keys@[j]) == spec_version_key(s[j]),
        decreases n - i,
    {
        let v = installed[i].as_str();
        names.push(chars_of(v));
        let ch = channel_of(v);
        chans.push(chars_of(ch.as_str()));
        keys.push(version_key(v));
        i = i + 1;
    }
    // The first position of every channel, in position order.
    let mut cand: Vec<usize> = Vec::new();
    let mut i: usize = 0;
    while i < n
        invariant
            n == installed@.len(),
            s == installed.deep_view(),
            chans@.len() == n,
            forall|j: int| 0 <= j < n ==> #[trigger] chans@[j]@ == spec_channel_of(s[j]),
            i <= n,
            forall|k: int| 0 <= k < cand@.len() ==> #[trigger] cand@[k] < i && first_of_channel(s, cand@[k] as int),
            forall|a: int, b: int| 0 <= a < b < cand@.len() ==> cand@[a] < cand@[b],
            forall|j: int| 0 <= j < i && #[trigger] first_of_channel(s, j) ==> cand@.contains(j as usize),
        decreases n - i,
    {
        let mut first = true;
        let mut j: usize = 0;
        while j < i
            invariant
                j <= i < n,
                chans@.len() == n,
                forall|j: int| 0 <= j < n ==> #[trigger] chans@[j]@ == spec_channel_of(s[j]),
                first <==> forall|q: int| 0 <= q < j ==> spec_channel_of(#[trigger] s[q]) != spec_channel_of(s[i as int]),
            decreases i - j,
        {
            assert(chans@[j as int]@ == spec_channel_of(s[j as int]) && chans@[i as int]@ == spec_channel_of(s[i as int]));
            if chars_eq(chans[j].as_slice(), chans[i].as_slice()) {
                first = false;
            }
            j = j + 1;
        }
        let ghost cb = cand@;
        if first {
            cand.push(i);
        }
        proof {
            assert forall|q: int| 0 <= q < i + 1 && #[trigger] first_of_channel(s, q) implies cand@.contains(q as usize) by {
                if q < i {
                    let k = choose|k: int| 0 <= k < cb.len() && cb[k] == q as usize;
                    assert(cand@[k] == q as usize);
                } else {
                    assert(cand@[cb.len() as int] == i);
                }
            }
        }
        i = i + 1;
    }
    proof { lemma_channel_rank_strict(s); }
    let gs: Ghost<Seq<Seq<char>>> = Ghost(s);
    let chans_ref = &chans;
    let before = move |a: usize, b: usize| -> (r: bool)
        requires
            a < n,
            b < n,
            chans_ref@.len() == n,
            forall|j: int| 0 <= j < n ==> #[trigger] chans_ref@[j]@ == spec_channel_of(gs@[j]),
        ensures
            r == channel_rank(gs@)(a as int, b as int),
        {
            assert(chans_ref@[a as int]@ == spec_channel_of(gs@[a as int]));
            assert(chans_ref@[b as int]@ == spec_channel_of(gs@[b as int]));
            let c = order_char_slices(chans_ref[a].as_slice(), chans_ref[b].as_slice());
            c == Order::Less || (c == Order::Equal && a < b)
        };
    let sorted = sort_positions(&cand, &before, n, Ghost(channel_rank(s)));
    let mut plans: Vec<UpdatePlan> = Vec::new();
    let ghost mut from_t: Seq<int> = Seq::empty();
    let mut t: usize = 0;
    while t < sorted.len()
        invariant
            n == installed@.len(),
            s == installed.deep_view(),
            names@.len() == n,
            chans@.len() == n,
            keys@.len() == n,
            forall|j: int| 0 <= j < n ==> #[trigger] names@[j]@ == s[j],
            forall|j: int| 0 <= j < n ==> #[trigger] chans@[j]@ == spec_channel_of(s[j]),
            forall|j: int| 0 <= j < n ==> #[trigger] key_view(keys@[j]) == spec_version_key(s[j]),
            forall|k: int| 0 <= k < sorted@.len() ==> #[trigger] sorted@[k] < n,
            t <= sorted@.len(),
            from_t.len() == plans@.len(),
            forall|a: int, b: int| 0 <= a < b < from_t.len() ==> from_t[a] < from_t[b],
            forall|k: int| 0 <= k < from_t.len() ==> 0 <= #[trigger] from_t[k] < t,
            forall|k: int| 0 <= k < plans@.len() ==> {
                let p = #[trigger] plans@[k];
                &&& p.channel@ == spec_channel_of(s[sorted@[from_t[k]] as int])
                &&& update_target(s, index.channels@, p.channel@) == Some(p.to@)
                &&& p.from@ == s[channel_current(s, p.channel@, n as int)]
            },
            forall|q: int| 0 <= q < t && (#[trigger] update_target(s, index.channels@, spec_channel_of(s[sorted@[q] as int]))) is Some ==> exists|k: int| 0 <= k < from_t.len() && from_t[k] == q,
        decreases sorted.len() - t,
    {
        let c = sorted[t];
        assert(chans@[c as int]@ == spec_channel_of(s[c as int]));
        let ghost cc = spec_channel_of(s[c as int]);
        proof { lemma_channel_current(s, cc, n as int); }
        let cur = match current_of_channel(&chans, &keys, chans[c].as_slice(), Ghost(s)) {
            Some(l) => l,
            None => c,
        };
        let channel = crate::text::string_from_chars(chans[c].as_slice());
        let ghost pb = plans@;
        let ghost fb = from_t;
        match latest_sdk_for_channel(index, channel.as_str()) {
            Some(latest) => {
                let lc = chars_of(latest.as_str());
                let present = is_installed(&names, lc.as_slice(), Ghost(s));
                let lk = version_key(latest.as_str());
                assert(key_view(keys@[cur as int]) == spec_version_key(s[cur as int]));
                if !present && order_version_keys(&lk, &keys[cur]) == Order::Greater {
                    assert(names@[cur as int]@ == s[cur as int]);
                    let from = installed[cur].clone();
                    plans.push(UpdatePlan { channel, from, to: latest });
                    proof {
                        from_t = from_t.push(t as int);
                        assert forall|k: int| 0 <= k < plans@.len() implies {
                            let p = #[trigger] plans@[k];
                            &&& p.channel@ == spec_channel_of(s[sorted@[from_t[k]] as int])
                            &&& update_target(s, index.channels@, p.channel@) == Some(p.to@)
                            &&& p.from@ == s[channel_current(s, p.channel@, n as int)]
                        } by {
                            if k < pb.len() {
                                assert(plans@[k] == pb[k]);
                            }
                        }
                    }
                }
            },
            None => {},
        }
        proof {
            assert forall|q: int| 0 <= q < t + 1 && (#[trigger] update_target(s, index.channels@, spec_channel_of(s[sorted@[q] as int]))) is Some implies exists|k: int| 0 <= k < from_t.len() && from_t[k] == q by {
                if q < t {
                    let k = choose|k: int| 0 <= k < fb.len() && fb[k] == q;
                    assert(from_t[k] == q);
                } else {
                    assert(from_t[from_t.len() - 1] == q);
                }
            }
        }
        t = t + 1;
    }
    proof {
        // Channels come out strictly ascending: positions ascend in `sorted`,
        // and no two candidates share a channel.
        assert forall|a: int, b: int| 0 <= a < b < plans@.len() implies order_chars(#[trigger] plans@[a].channel@, #[trigger] plans@[b].channel@) == Order::Less by {
            let x = sorted@[from_t[a]];
            let y = sorted@[from_t[b]];
            assert(channel_rank(s)(x as int, y as int));
            assert(sorted@.contains(x) && sorted@.contains(y));
            assert(cand@.contains(x) && cand@.contains(y));
            let kx = choose|k: int| 0 <= k < cand@.len() && cand@[k] == x;
            let ky = choose|k: int| 0 <= k < cand@.len() && cand@[k] == y;
            assert(first_of_channel(s, x as int) && first_of_channel(s, y as int));
            if spec_channel_of(s[x as int]) == spec_channel_of(s[y as int]) {
                assert(x != y);
                if x < y {
                    assert(spec_channel_of(s[x as int]) != spec_channel_of(s[y as int]));
                } else {
                    assert(spec_channel_of(s[y as int]) != spec_channel_of(s[x as int]));
                }
            }
            lemma_order_chars_total();
            let co = |u: Seq<char>, v: Seq<char>| order_chars(u, v);
            if co(spec_channel_of(s[x as int]), spec_channel_of(s[y as int])) == Order::Equal {
                assert(spec_channel_of(s[x as int]) == spec_channel_of(s[y as int]));
            }
        }
        assert forall|k: int| 0 <= k < plans@.len() implies exists|i: int| 0 <= i < installed@.len() && spec_channel_of(installed.deep_view()[i]) == #[trigger] plans@[k].channel@ by {
            let x = sorted@[from_t[k]];
            assert(spec_channel_of(s[x as int]) == plans@[k].channel@);
        }
        assert forall|i: int| 0 <= i < installed@.len() && (#[trigger] update_target(s, index.channels@, spec_channel_of(s[i]))) is Some implies exists|k: int| 0 <= k < plans@.len() && plans@[k].channel@ == spec_channel_of(s[i]) by {
            let p = |j: int| spec_channel_of(s[j]) == spec_channel_of(s[i]);
            lemma_first_match(0, n as int, p);
            let j = first_match(0, n as int, p);
            assert(p(i));
            assert(j != -1);
            assert(first_of_channel(s, j)) by {
                assert forall|q: int| 0 <= q < j implies spec_channel_of(#[trigger] s[q]) != spec_channel_of(s[j]) by {
                    assert(!p(q));
                }
            }
            assert(cand@.contains(j as usize));
            assert(sorted@.contains(j as usize));
            let q = choose|q: int| 0 <= q < sorted@.len() && sorted@[q] == j as usize;
            assert(update_target(s, index.channels@, spec_channel_of(s[sorted@[q] as int])) is Some);
            let k = choose|k: int| 0 <= k < from_t.len() && from_t[k] == q;
            assert(plans@[k].channel@ == spec_channel_of(s[i]));
        }
    }
    plans
}

} // verus!
