//! Where dsi keeps things: `~/.dotnet`, its `dotnet` muxer and `sdk` directory.
use vstd::prelude::*;
use crate::order::{Order, lemma_order_chars_total, order_char_slices, order_chars};
use crate::sort::{is_strict_order, listed_in_order, sort_positions, strictly_sorted};
use crate::text::{chars_of, count_char, count_chars, str_eq};

verus! {

/// `Path::join` on Unix: an absolute `part` replaces `base`; otherwise a
/// separator is put between them unless `base` is empty or already ends in one.
pub open spec fn path_join(base: Seq<char>, part: Seq<char>) -> Seq<char> {
    if part.len() > 0 && part[0] == '/' {
        part
    } else if base.len() == 0 || base.last() == '/' {
        base + part
    } else {
        base + seq!['/'] + part
    }
}

/// Joining a relative part keeps the base as a prefix, ends with the part,
/// and puts exactly one '/' between them when the base is not empty and does
/// not already end in one; an absolute part replaces the base.
pub proof fn lemma_path_join_parts(base: Seq<char>, part: Seq<char>)
    ensures
        part.len() > 0 && part[0] == '/' ==> path_join(base, part) == part,
        !(part.len() > 0 && part[0] == '/') ==> {
            let j = path_join(base, part);
            &&& j.take(base.len() as int) == base
            &&& j.skip(j.len() - part.len()) == part
            &&& base.len() > 0 && base.last() != '/' ==> j.len() == base.len() + 1 + part.len() && j[base.len() as int] == '/'
            &&& (base.len() == 0 || base.last() == '/') ==> j.len() == base.len() + part.len()
        },
{
    if !(part.len() > 0 && part[0] == '/') {
        let j = path_join(base, part);
        assert(j.take(base.len() as int) =~= base);
        assert(j.skip(j.len() - part.len()) =~= part);
    }
}

/// `Path::join` on Unix paths held as strings.
pub fn join_path(base: &str, part: &str) -> (r: String)
    ensures
        r@ == path_join(base@, part@),
{
    let p = chars_of(part);
    if p.len() > 0 && p[0] == '/' {
        return String::from_str(part);
    }
    let b = chars_of(base);
    let mut s = String::from_str(base);
    if !(b.len() == 0 || b[b.len() - 1] == '/') {
        proof {
            reveal_strlit("/");
        }
        s.append("/");
    }
    s.append(part);
    s
}

/// All paths dsi uses.
pub struct DsiPaths {
    /// Root install directory: ~/.dotnet
    pub dotnet_root: String,
    /// The dotnet muxer binary: ~/.dotnet/dotnet
    pub dotnet_bin: String,
    /// Where SDKs live: ~/.dotnet/sdk/
    pub sdk_dir: String,
}

/// A name that stands for one entry of a directory: not empty, not "." or
/// "..", and without a '/'.
pub open spec fn is_version_name(v: Seq<char>) -> bool {
    &&& v.len() > 0
    &&& v != "."@
    &&& v != ".."@
    &&& forall|i: int| 0 <= i < v.len() ==> v[i] != '/'
}

/// Exactly the empty name, "." and "..", and names holding a '/' are
/// refused; every other name (one with '-', a pre-release, among them) names
/// an entry of the SDK directory.
pub proof fn lemma_version_names(v: Seq<char>)
    ensures
        is_version_name(v) <==> (v.len() > 0 && v != "."@ && v != ".."@ && forall|i: int|
            0 <= i < v.len() ==> v[i] != '/'),
{
}

/// A character that occurs is counted.
proof fn lemma_count_pos(s: Seq<char>, c: char)
    requires
        count_char(s, c) > 0,
    ensures
        exists|i: int| 0 <= i < s.len() && s[i] == c,
    decreases s.len(),
{
    if s.last() != c {
        lemma_count_pos(s.drop_last(), c);
        let i = choose|i: int| 0 <= i < s.drop_last().len() && s.drop_last()[i] == c;
        assert(s[i] == c);
    } else {
        assert(s[s.len() - 1] == c);
    }
}

/// A character that is not counted does not occur.
proof fn lemma_count_zero(s: Seq<char>, c: char)
    requires
        count_char(s, c) == 0,
    ensures
        forall|i: int| 0 <= i < s.len() ==> s[i] != c,
    decreases s.len(),
{
    if s.len() > 0 {
        lemma_count_zero(s.drop_last(), c);
        assert forall|i: int| 0 <= i < s.len() implies s[i] != c by {
            if i < s.len() - 1 {
                assert(s[i] == s.drop_last()[i]);
            }
        }
    }
}

/// The arguments of `dsi uninstall`; the SDK removed is the directory
/// `DsiPaths::sdk_path(version)`.
pub struct UninstallArgs {
    /// Exact SDK version to remove (e.g. "8.0.300")
    pub version: String,
    /// Skip the confirmation prompt
    pub yes: bool,
}

/// An entry of the SDK directory: its name, and whether it is a directory.
pub struct DirEntry {
    pub name: String,
    pub is_dir: bool,
}

/// An entry that holds an SDK: a directory whose name contains a '.'.
pub open spec fn is_sdk_entry(e: DirEntry) -> bool {
    e.is_dir && count_char(e.name@, '.') > 0
}

/// Entry positions ordered by name (as strings), then by position.
pub open spec fn name_rank(names: Seq<Seq<char>>) -> spec_fn(int, int) -> bool {
    |i: int, j: int|
        {
            let c = order_chars(names[i], names[j]);
            c == Order::Less || (c == Order::Equal && i < j)
        }
}

/// The names of the entries.
pub open spec fn entry_names(entries: Seq<DirEntry>) -> Seq<Seq<char>> {
    entries.map_values(|e: DirEntry| e.name@)
}

impl DsiPaths {
    /// The paths under the home directory `home`.
    pub fn from_home(home: &str) -> (r: DsiPaths)
        ensures
            r.dotnet_root@ == path_join(home@, ".dotnet"@),
            r.dotnet_bin@ == path_join(r.dotnet_root@, "dotnet"@),
            r.sdk_dir@ == path_join(r.dotnet_root@, "sdk"@),
    {
        let dotnet_root = join_path(home, ".dotnet");
        let dotnet_bin = join_path(dotnet_root.as_str(), "dotnet");
        let sdk_dir = join_path(dotnet_root.as_str(), "sdk");
        DsiPaths { dotnet_root, dotnet_bin, sdk_dir }
    }

    /// The directory of an installed SDK version: `sdk_dir.join(version)`.
    pub fn sdk_path(&self, version: &str) -> (r: String)
        ensures
            r@ == path_join(self.sdk_dir@, version@),
    {
        join_path(self.sdk_dir.as_str(), version)
    }

    /// The directory that `dsi uninstall version` removes: the version's
    /// directory under `sdk_dir`, and nothing else. A version that is empty,
    /// "." or "..", or holds a '/', names no SDK directory and gives `None`.
    pub fn uninstall_target(&self, version: &str) -> (r: Option<String>)
        ensures
            is_version_name(version@) ==> (r matches Some(p) && p@ == path_join(self.sdk_dir@, version@)),
            !is_version_name(version@) ==> r is None,
            version@.len() > 0 && version@ != "."@ && version@ != ".."@ && (forall|i: int|
                0 <= i < version@.len() ==> version@[i] != '/') ==> (r matches Some(p) && p@ == path_join(
                self.sdk_dir@,
                version@,
            )),
            r is None ==> version@.len() == 0 || version@ == "."@ || version@ == ".."@ || exists|i: int|
                0 <= i < version@.len() && version@[i] == '/',
    {
        let v = chars_of(version);
        proof {
            reveal_strlit(".");
            reveal_strlit("..");
        }
        if v.len() == 0 || str_eq(version, ".") || str_eq(version, "..") || count_chars(v.as_slice(), '/') > 0 {
            proof {
                if count_char(v@, '/') > 0 {
                    lemma_count_pos(v@, '/');
                }
            }
            return None;
        }
        proof {
            lemma_count_zero(v@, '/');
        }
        Some(self.sdk_path(version))
    }

    /// The installed SDK versions among `entries`, the entries of `sdk_dir`:
    /// the names of directories whose name contains a '.', sorted.
    pub fn installed_sdks(&self, entries: &Vec<DirEntry>) -> (r: Vec<String>)
        ensures
            listed_in_order(
                r.deep_view(),
                entry_names(entries@),
                |i: int| is_sdk_entry(entries@[i]),
                name_rank(entry_names(entries@)),
            ),
    {
        let ghost names = entry_names(entries@);
        let n = entries.len();
        let mut chars: Vec<Vec<char>> = Vec::new();
        let mut picked: Vec<usize> = Vec::new();
        let ghost pick = |i: int| is_sdk_entry(entries@[i]);
        let mut i: usize = 0;
        while i < n
            invariant
                n == entries@.len(),
                names == entry_names(entries@),
                pick == (|i: int| is_sdk_entry(entries@[i])),
                i <= n,
                chars@.len() == i,
                forall|j: int| 0 <= j < i ==> #[trigger] chars@[j]@ == names[j],
                forall|k: int| 0 <= k < picked@.len() ==> #[trigger] picked@[k] < i && pick(picked@[k] as int),
                forall|a: int, b: int| 0 <= a < b < picked@.len() ==> picked@[a] < picked@[b],
                forall|j: int| 0 <= j < i && #[trigger] pick(j) ==> picked@.contains(j as usize),
            decreases n - i,
        {
            let cs = chars_of(entries[i].name.as_str());
            let ghost pb = picked@;
            if entries[i].is_dir && count_chars(cs.as_slice(), '.') > 0 {
                picked.push(i);
            }
            chars.push(cs);
            proof {
                assert forall|j: int| 0 <= j < i + 1 && #[trigger] pick(j) implies picked@.contains(j as usize) by {
                    if j < i {
                        let k = choose|k: int| 0 <= k < pb.len() && pb[k] == j as usize;
                        assert(picked@[k] == j as usize);
                    } else {
                        assert(picked@[pb.len() as int] == i);
                    }
                }
            }
            i = i + 1;
        }
        let ghost rank = name_rank(names);
        proof {
            lemma_order_chars_total();
            let co = |a: Seq<char>, b: Seq<char>| order_chars(a, b);
            assert forall|x: int, y: int, z: int| #[trigger] rank(x, y) && #[trigger] rank(y, z) implies rank(x, z) by {
                if co(names[x], names[y]) == Order::Equal {
                    assert(names[x] == names[y]);
                }
                if co(names[y], names[z]) == Order::Equal {
                    assert(names[y] == names[z]);
                }
                if co(names[x], names[y]) == Order::Less && co(names[y], names[z]) == Order::Less {
                    assert(co(names[x], names[z]) == Order::Less);
                }
            }
            assert forall|x: int, y: int| x != y implies #[trigger] rank(x, y) || #[trigger] rank(y, x) by {
                assert(co(names[x], names[y]) == crate::order::flip(co(names[y], names[x])));
            }
            assert forall|x: int| !#[trigger] rank(x, x) by {
                assert(co(names[x], names[x]) == Order::Equal);
            }
            assert(is_strict_order(rank));
        }
        let gn: Ghost<Seq<Seq<char>>> = Ghost(names);
        let chars_ref = &chars;
        let before = move |a: usize, b: usize| -> (r: bool)
            requires
                a < n,
                b < n,
                chars_ref@.len() == n,
                forall|j: int| 0 <= j < n ==> #[trigger] chars_ref@[j]@ == gn@[j],
            ensures
                r == name_rank(gn@)(a as int, b as int),
            {
                assert(chars_ref@[a as int]@ == gn@[a as int] && chars_ref@[b as int]@ == gn@[b as int]);
                let c = order_char_slices(chars_ref[a].as_slice(), chars_ref[b].as_slice());
                c == Order::Less || (c == Order::Equal && a < b)
            };
        let sorted = sort_positions(&picked, &before, n, Ghost(rank));
        let mut out: Vec<String> = Vec::new();
        let mut k: usize = 0;
        while k < sorted.len()
            invariant
                n == entries@.len(),
                names == entry_names(entries@),
                forall|k: int| 0 <= k < sorted@.len() ==> #[trigger] sorted@[k] < n,
                k <= sorted@.len(),
                out@.len() == k,
                forall|j: int| 0 <= j < k ==> #[trigger] out@[j]@ == names[sorted@[j] as int],
            decreases sorted.len() - k,
        {
            out.push(entries[sorted[k]].name.clone());
            k = k + 1;
        }
        proof {
            let ix = sorted@;
            assert forall|k: int| 0 <= k < ix.len() implies #[trigger] ix[k] < names.len() && out.deep_view()[k] == names[ix[k] as int] && pick(ix[k] as int) by {
                assert(sorted@.contains(ix[k]));
                assert(picked@.contains(ix[k]));
            }
            assert forall|i: int| 0 <= i < names.len() && #[trigger] pick(i) implies ix.contains(i as usize) by {
                assert(picked@.contains(i as usize));
            }
            assert(listed_in_order(out.deep_view(), names, pick, rank));
        }
        out
    }
}

} // verus!
