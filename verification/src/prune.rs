//! `dsi prune`: which installed SDKs to keep and which to remove, keeping
//! only the latest patch of every feature band. A version without a feature
//! band of its own is never grouped with another version, so never pruned.
use vstd::prelude::*;
use crate::order::{Order, is_total_order, lemma_order_chars_total, order_char_slices, order_chars};
use crate::sort::{is_strict_order, sort_positions, strictly_sorted};
use crate::text::{chars_eq, chars_of};
use crate::version::{
    KeyView, VersionKey, feature_band, key_view, lemma_version_order_total, order_keys,
    has_feature_band, order_version_keys, spec_feature_band, spec_has_feature_band, spec_version_key,
    version_key, version_order,
};

verus! {

/// The arguments of `dsi prune`.
pub struct PruneArgs {
    /// Show what would be removed without deleting anything
    pub dry_run: bool,
    /// Skip the confirmation prompt
    pub yes: bool,
}

/// What `dsi prune` keeps and what it removes, each in ascending version order.
pub struct PrunePlan {
    pub to_keep: Vec<String>,
    pub to_remove: Vec<String>,
}

/// The group a version is pruned in: its feature band, and whether it has
/// one. Versions with a feature band group by it; a version without one
/// stands for itself, and no version with a band shares its group.
pub open spec fn group_of(v: Seq<char>) -> (Seq<char>, bool) {
    (spec_feature_band(v), spec_has_feature_band(v))
}

/// Of the first `n` versions in group `b`, the latest: the one that no later
/// version of the group compares below (of equal ones, the last), or -1.
pub open spec fn band_latest(s: Seq<Seq<char>>, b: (Seq<char>, bool), n: int) -> int
    decreases n,
{
    if n <= 0 {
        -1
    } else {
        let prev = band_latest(s, b, n - 1);
        if group_of(s[n - 1]) == b && (prev < 0 || version_order(s[prev], s[n - 1])
            != Order::Greater) {
            n - 1
        } else {
            prev
        }
    }
}

/// Version `i` is kept: it is (equal to) the latest version of its group.
pub open spec fn is_kept(s: Seq<Seq<char>>, i: int) -> bool {
    s[i] == s[band_latest(s, group_of(s[i]), s.len() as int)]
}

/// The order in which the plan lists versions: by version key, then by
/// feature band (as strings), then by position in the input.
pub open spec fn prune_rank(s: Seq<Seq<char>>) -> spec_fn(int, int) -> bool {
    |i: int, j: int|
        {
            let o = version_order(s[i], s[j]);
            let c = order_chars(spec_feature_band(s[i]), spec_feature_band(s[j]));
            o == Order::Less || (o == Order::Equal && (c == Order::Less || (c == Order::Equal && i
                < j)))
        }
}

/// `out` lists, in `prune_rank` order, exactly the versions of `s` at the
/// positions where `pick` holds.
pub open spec fn lists_picked(out: Seq<Seq<char>>, s: Seq<Seq<char>>, pick: spec_fn(int) -> bool) -> bool {
    exists|ix: Seq<usize>|
        {
            &&& ix.len() == out.len()
            &&& forall|k: int|
                0 <= k < ix.len() ==> #[trigger] ix[k] < s.len() && out[k] == s[ix[k] as int] && pick(
                    ix[k] as int,
                )
            &&& forall|i: int| 0 <= i < s.len() && #[trigger] pick(i) ==> ix.contains(i as usize)
            &&& strictly_sorted(ix, prune_rank(s))
        }
}

// ───────────────────────────── laws ─────────────────────────────

/// The listing order is a strict total order.
pub proof fn lemma_prune_rank_strict(s: Seq<Seq<char>>)
    ensures
        is_strict_order(prune_rank(s)),
{
    lemma_version_order_total();
    lemma_order_chars_total();
    let r = prune_rank(s);
    let ko = |a: KeyView, b: KeyView| order_keys(a, b);
    let co = |a: Seq<char>, b: Seq<char>| order_chars(a, b);
    assert forall|x: int, y: int, z: int| #[trigger] r(x, y) && #[trigger] r(y, z) implies r(x, z) by {
        let kx = spec_version_key(s[x]);
        let ky = spec_version_key(s[y]);
        let kz = spec_version_key(s[z]);
        let bx = spec_feature_band(s[x]);
        let by = spec_feature_band(s[y]);
        let bz = spec_feature_band(s[z]);
        if ko(kx, ky) == Order::Equal {
            assert(kx == ky);
        }
        if ko(ky, kz) == Order::Equal {
            assert(ky == kz);
        }
        if co(bx, by) == Order::Equal {
            assert(bx == by);
        }
        if co(by, bz) == Order::Equal {
            assert(by == bz);
        }
        if ko(kx, ky) == Order::Less && ko(ky, kz) == Order::Less {
            assert(ko(kx, kz) == Order::Less);
        }
        if co(bx, by) == Order::Less && co(by, bz) == Order::Less {
            assert(co(bx, bz) == Order::Less);
        }
    }
    assert forall|x: int, y: int| x != y implies #[trigger] r(x, y) || #[trigger] r(y, x) by {
        let kx = spec_version_key(s[x]);
        let ky = spec_version_key(s[y]);
        assert(ko(kx, ky) == crate::order::flip(ko(ky, kx)));
        let bx = spec_feature_band(s[x]);
        let by = spec_feature_band(s[y]);
        assert(co(bx, by) == crate::order::flip(co(by, bx)));
    }
    assert forall|x: int| !#[trigger] r(x, x) by {
        assert(ko(spec_version_key(s[x]), spec_version_key(s[x])) == Order::Equal);
        assert(co(spec_feature_band(s[x]), spec_feature_band(s[x])) == Order::Equal);
    }
}


/// "Not above" is transitive for versions.
pub proof fn lemma_version_le_trans(a: Seq<char>, b: Seq<char>, c: Seq<char>)
    requires
        version_order(a, b) != Order::Greater,
        version_order(b, c) != Order::Greater,
    ensures
        version_order(a, c) != Order::Greater,
{
    lemma_version_order_total();
    let ko = |x: KeyView, y: KeyView| order_keys(x, y);
    let ka = spec_version_key(a);
    let kb = spec_version_key(b);
    let kc = spec_version_key(c);
    if ko(ka, kb) == Order::Equal {
        assert(ka == kb);
    }
    if ko(kb, kc) == Order::Equal {
        assert(kb == kc);
    }
    if ko(ka, kb) == Order::Less && ko(kb, kc) == Order::Less {
        assert(ko(ka, kc) == Order::Less);
    }
    assert(ko(ka, kc) == crate::order::flip(ko(kc, ka)));
    assert(ko(ka, ka) == Order::Equal);
}

/// Characterisation of `band_latest`: it is -1 exactly when no version of
/// the band is among the first `n`; otherwise it is a version of the band
/// that every version of the band is at most.
pub proof fn lemma_band_latest(s: Seq<Seq<char>>, b: (Seq<char>, bool), n: int)
    requires
        n <= s.len(),
    ensures
        band_latest(s, b, n) == -1 <==> (forall|j: int| 0 <= j < n ==> group_of(#[trigger] s[j]) != b),
        band_latest(s, b, n) != -1 ==> 0 <= band_latest(s, b, n) < n && group_of(
            s[band_latest(s, b, n)],
        ) == b,
        band_latest(s, b, n) != -1 ==> forall|j: int|
            0 <= j < n && group_of(#[trigger] s[j]) == b ==> version_order(
                s[j],
                s[band_latest(s, b, n)],
            ) != Order::Greater,
    decreases n,
{
    lemma_version_order_total();
    if n > 0 {
        lemma_band_latest(s, b, n - 1);
        let prev = band_latest(s, b, n - 1);
        let l = band_latest(s, b, n);
        let ko = |x: KeyView, y: KeyView| order_keys(x, y);
        assert(ko(spec_version_key(s[n - 1]), spec_version_key(s[n - 1])) == Order::Equal);
        if l != -1 {
            assert forall|j: int|
                0 <= j < n && group_of(#[trigger] s[j]) == b implies version_order(s[j], s[l])
                != Order::Greater by {
                if l == n - 1 && j < n - 1 {
                    lemma_version_le_trans(s[j], s[prev], s[n - 1]);
                }
                if l == prev && j == n - 1 {
                    let kp = spec_version_key(s[prev]);
                    let kn = spec_version_key(s[n - 1]);
                    assert(ko(kn, kp) == crate::order::flip(ko(kp, kn)));
                }
            }
        }
    }
}

/// Every version has a kept version in its group that is at least as new:
/// pruning never leaves a feature band empty, and a removed version is always
/// superseded within its band.
pub proof fn lemma_prune_keeps_band_latest(s: Seq<Seq<char>>, i: int)
    requires
        0 <= i < s.len(),
    ensures
        ({
            let l = band_latest(s, group_of(s[i]), s.len() as int);
            &&& 0 <= l < s.len()
            &&& is_kept(s, l)
            &&& spec_feature_band(s[l]) == spec_feature_band(s[i])
            &&& spec_has_feature_band(s[l]) == spec_has_feature_band(s[i])
            &&& version_order(s[i], s[l]) != Order::Greater
        }),
{
    lemma_band_latest(s, group_of(s[i]), s.len() as int);
}

/// Two kept versions of the same feature band are the same version: prune
/// keeps a single version per band.
pub proof fn lemma_prune_one_per_band(s: Seq<Seq<char>>, i: int, j: int)
    requires
        0 <= i < s.len(),
        0 <= j < s.len(),
        is_kept(s, i),
        is_kept(s, j),
        spec_has_feature_band(s[i]),
        spec_has_feature_band(s[j]),
        spec_feature_band(s[i]) == spec_feature_band(s[j]),
    ensures
        s[i] == s[j],
{
}

/// A version without a feature band of its own is never grouped with a
/// different version, so it is never pruned: it is always kept.
pub proof fn lemma_unbanded_never_pruned(s: Seq<Seq<char>>, i: int, j: int)
    requires
        0 <= i < s.len(),
        0 <= j < s.len(),
        !spec_has_feature_band(s[i]),
    ensures
        group_of(s[j]) == group_of(s[i]) ==> s[j] == s[i],
        is_kept(s, i),
{
    lemma_band_latest(s, group_of(s[i]), s.len() as int);
}

// ───────────────────────────── executable functions ─────────────────────────────

/// `bands`, `banded` and `keys` hold the feature band, whether there is one,
/// and the version key of each version in `s`.
pub open spec fn describes(s: Seq<Seq<char>>, bands: Seq<Vec<char>>, banded: Seq<bool>, keys: Seq<VersionKey>) -> bool {
    &&& bands.len() == s.len()
    &&& banded.len() == s.len()
    &&& keys.len() == s.len()
    &&& forall|i: int| 0 <= i < s.len() ==> #[trigger] banded[i] == spec_has_feature_band(s[i])
    &&& forall|i: int| 0 <= i < s.len() ==> #[trigger] bands[i]@ == spec_feature_band(s[i])
    &&& forall|i: int| 0 <= i < s.len() ==> #[trigger] key_view(keys[i]) == spec_version_key(s[i])
}

/// The position of the latest version of the group of band `b` with or
/// without a parsed band (`p`), if the group has any.
fn latest_of_band(
    bands: &Vec<Vec<char>>,
    banded: &Vec<bool>,
    keys: &Vec<VersionKey>,
    b: &[char],
    p: bool,
    s: Ghost<Seq<Seq<char>>>,
) -> (r: Option<usize>)
    requires
        describes(s@, bands@, banded@, keys@),
    ensures
        match r {
            Some(l) => band_latest(s@, (b@, p), s@.len() as int) == l,
            None => band_latest(s@, (b@, p), s@.len() as int) == -1,
        },
{
    let mut best: Option<usize> = None;
    let mut j: usize = 0;
    while j < bands.len()
        invariant
            j <= bands.len(),
            describes(s@, bands@, banded@, keys@),
            match best {
                Some(l) => band_latest(s@, (b@, p), j as int) == l && l < j,
                None => band_latest(s@, (b@, p), j as int) == -1,
            },
        decreases bands.len() - j,
    {
        assert(bands@[j as int]@ == spec_feature_band(s@[j as int]));
        assert(banded@[j as int] == spec_has_feature_band(s@[j as int]));
        if chars_eq(bands[j].as_slice(), b) && banded[j] == p {
            match best {
                Some(l) => {
                    assert(key_view(keys@[l as int]) == spec_version_key(s@[l as int]));
                    assert(key_view(keys@[j as int]) == spec_version_key(s@[j as int]));
                    if order_version_keys(&keys[l], &keys[j]) != Order::Greater {
                        best = Some(j);
                    }
                },
                None => {
                    best = Some(j);
                },
            }
        }
        j = j + 1;
    }
    best
}

/// Whether version `i` is listed before version `j`.
fn ranks_before(
    bands: &Vec<Vec<char>>,
    banded: &Vec<bool>,
    keys: &Vec<VersionKey>,
    i: usize,
    j: usize,
    s: Ghost<Seq<Seq<char>>>,
) -> (r: bool)
    requires
        describes(s@, bands@, banded@, keys@),
        i < s@.len(),
        j < s@.len(),
    ensures
        r == prune_rank(s@)(i as int, j as int),
{
    assert(key_view(keys@[i as int]) == spec_version_key(s@[i as int]));
    assert(key_view(keys@[j as int]) == spec_version_key(s@[j as int]));
    assert(bands@[i as int]@ == spec_feature_band(s@[i as int]));
    assert(bands@[j as int]@ == spec_feature_band(s@[j as int]));
    let o = order_version_keys(&keys[i], &keys[j]);
    if o != Order::Equal {
        return o == Order::Less;
    }
    let c = order_char_slices(bands[i].as_slice(), bands[j].as_slice());
    if c != Order::Equal {
        return c == Order::Less;
    }
    i < j
}

/// The strings at the given positions, in order.
fn strings_at(installed: &Vec<String>, ix: &Vec<usize>) -> (out: Vec<String>)
    requires
        forall|k: int| 0 <= k < ix@.len() ==> #[trigger] ix@[k] < installed@.len(),
    ensures
        out@.len() == ix@.len(),
        forall|k: int| 0 <= k < ix@.len() ==> #[trigger] out@[k]@ == installed@[ix@[k] as int]@,
{
    let mut out: Vec<String> = Vec::new();
    let mut k: usize = 0;
    while k < ix.len()
        invariant
            k <= ix.len(),
            forall|k: int| 0 <= k < ix@.len() ==> #[trigger] ix@[k] < installed@.len(),
            out@.len() == k,
            forall|j: int| 0 <= j < k ==> #[trigger] out@[j]@ == installed@[ix@[j] as int]@,
        decreases ix.len() - k,
    {
        out.push(installed[ix[k]].clone());
        k = k + 1;
    }
    out
}

/// Group versions by feature band, keeping the latest patch per band: the
/// versions equal to the latest of their group are kept, the others removed,
/// and both lists come in ascending version order. A version without a
/// feature band is grouped with no other version, so it is always kept.
pub fn plan_prune(installed: &Vec<String>) -> (plan: PrunePlan)
    ensures
        lists_picked(plan.to_keep.deep_view(), installed.deep_view(), |i: int| is_kept(installed.deep_view(), i)),
        lists_picked(plan.to_remove.deep_view(), installed.deep_view(), |i: int| !is_kept(installed.deep_view(), i)),
        forall|i: int|
            0 <= i < installed@.len() && !spec_has_feature_band(#[trigger] installed.deep_view()[i])
                ==> plan.to_keep.deep_view().contains(installed.deep_view()[i]),
{
    let ghost s = installed.deep_view();
    let n = installed.len();
    let mut names: Vec<Vec<char>> = Vec::new();
    let mut bands: Vec<Vec<char>> = Vec::new();
    let mut banded: Vec<bool> = Vec::new();
    let mut keys: Vec<VersionKey> = Vec::new();
    let mut i: usize = 0;
    while i < n
        invariant
            n == installed@.len(),
            s == installed.deep_view(),
            i <= n,
            names@.len() == i,
            bands@.len() == i,
            banded@.len() == i,
            keys@.len() == i,
            forall|j: int| 0 <= j < i ==> #[trigger] names@[j]@ == s[j],
            forall|j: int| 0 <= j < i ==> #[trigger] bands@[j]@ == spec_feature_band(s[j]),
            forall|j: int| 0 <= j < i ==> #[trigger] banded@[j] == spec_has_feature_band(s[j]),
            forall|j: int| 0 <= j < i ==> #[trigger] key_view(keys@[j]) == spec_version_key(s[j]),
        decreases n - i,
    {
        let v = installed[i].as_str();
        names.push(chars_of(v));
        let band = feature_band(v);
        bands.push(chars_of(band.as_str()));
        banded.push(has_feature_band(v));
        keys.push(version_key(v));
        i = i + 1;
    }
    assert(describes(s, bands@, banded@, keys@));
    let ghost keep = |i: int| is_kept(s, i);
    let ghost drop = |i: int| !is_kept(s, i);
    let mut keep_ix: Vec<usize> = Vec::new();
    let mut remove_ix: Vec<usize> = Vec::new();
    let mut i: usize = 0;
    while i < n
        invariant
            n == installed@.len(),
            s == installed.deep_view(),
            describes(s, bands@, banded@, keys@),
            names@.len() == n,
            forall|j: int| 0 <= j < n ==> #[trigger] names@[j]@ == s[j],
            keep == (|i: int| is_kept(s, i)),
            drop == (|i: int| !is_kept(s, i)),
            i <= n,
            forall|k: int| 0 <= k < keep_ix@.len() ==> #[trigger] keep_ix@[k] < i && keep(keep_ix@[k] as int),
            forall|k: int| 0 <= k < remove_ix@.len() ==> #[trigger] remove_ix@[k] < i && drop(remove_ix@[k] as int),
            forall|a: int, b: int| 0 <= a < b < keep_ix@.len() ==> keep_ix@[a] < keep_ix@[b],
            forall|a: int, b: int| 0 <= a < b < remove_ix@.len() ==> remove_ix@[a] < remove_ix@[b],
            forall|j: int| 0 <= j < i && #[trigger] keep(j) ==> keep_ix@.contains(j as usize),
            forall|j: int| 0 <= j < i && #[trigger] drop(j) ==> remove_ix@.contains(j as usize),
        decreases n - i,
    {
        proof {
            lemma_band_latest(s, group_of(s[i as int]), n as int);
        }
        assert(bands@[i as int]@ == spec_feature_band(s[i as int]));
        assert(banded@[i as int] == spec_has_feature_band(s[i as int]));
        let l = match latest_of_band(&bands, &banded, &keys, bands[i].as_slice(), banded[i], Ghost(s)) {
            Some(l) => l,
            None => i,
        };
        assert(names@[i as int]@ == s[i as int] && names@[l as int]@ == s[l as int]);
        let ghost kb = keep_ix@;
        let ghost rb = remove_ix@;
        if chars_eq(names[i].as_slice(), names[l].as_slice()) {
            keep_ix.push(i);
            assert forall|j: int| 0 <= j < i + 1 && #[trigger] keep(j) implies keep_ix@.contains(j as usize) by {
                if j < i {
                    let k = choose|k: int| 0 <= k < kb.len() && kb[k] == j as usize;
                    assert(keep_ix@[k] == j as usize);
                } else {
                    assert(keep_ix@[kb.len() as int] == i);
                }
            }
        } else {
            remove_ix.push(i);
            assert forall|j: int| 0 <= j < i + 1 && #[trigger] drop(j) implies remove_ix@.contains(j as usize) by {
                if j < i {
                    let k = choose|k: int| 0 <= k < rb.len() && rb[k] == j as usize;
                    assert(remove_ix@[k] == j as usize);
                } else {
                    assert(remove_ix@[rb.len() as int] == i);
                }
            }
        }
        i = i + 1;
    }
    proof { lemma_prune_rank_strict(s); }
    let gs: Ghost<Seq<Seq<char>>> = Ghost(s);
    let bands_ref = &bands;
    let banded_ref = &banded;
    let keys_ref = &keys;
    let before = move |i: usize, j: usize| -> (r: bool)
        requires
            i < n,
            j < n,
        ensures
            r == prune_rank(gs@)(i as int, j as int),
        { ranks_before(bands_ref, banded_ref, keys_ref, i, j, gs) };
    let keep_sorted = sort_positions(&keep_ix, &before, n, Ghost(prune_rank(s)));
    let remove_sorted = sort_positions(&remove_ix, &before, n, Ghost(prune_rank(s)));
    let to_keep = strings_at(installed, &keep_sorted);
    let to_remove = strings_at(installed, &remove_sorted);
    proof {
        let ks = keep_sorted@;
        assert forall|k: int| 0 <= k < ks.len() implies #[trigger] ks[k] < s.len() && to_keep.deep_view()[k] == s[ks[k] as int] && keep(ks[k] as int) by {
            assert(keep_sorted@.contains(ks[k]));
            assert(keep_ix@.contains(ks[k]));
        }
        assert forall|i: int| 0 <= i < s.len() && #[trigger] keep(i) implies ks.contains(i as usize) by {
            assert(keep_ix@.contains(i as usize));
        }
        let rs = remove_sorted@;
        assert forall|k: int| 0 <= k < rs.len() implies #[trigger] rs[k] < s.len() && to_remove.deep_view()[k] == s[rs[k] as int] && drop(rs[k] as int) by {
            assert(remove_sorted@.contains(rs[k]));
            assert(remove_ix@.contains(rs[k]));
        }
        assert forall|i: int| 0 <= i < s.len() && #[trigger] drop(i) implies rs.contains(i as usize) by {
            assert(remove_ix@.contains(i as usize));
        }
        assert(lists_picked(to_keep.deep_view(), s, keep));
        assert forall|i: int| 0 <= i < s.len() && !spec_has_feature_band(#[trigger] s[i]) implies to_keep.deep_view().contains(
            s[i],
        ) by {
            lemma_unbanded_never_pruned(s, i, i);
            assert(keep(i));
            let k = choose|k: int| 0 <= k < ks.len() && ks[k] == i as usize;
            assert(to_keep.deep_view()[k] == s[i]);
        }
        assert(lists_picked(to_remove.deep_view(), s, drop));
    }
    PrunePlan { to_keep, to_remove }
}

} // verus!
