//! Helpers for comparing and grouping .NET SDK version strings.
use vstd::prelude::*;
use crate::order::{Order, is_total_order, lemma_order_chars_total, lemma_order_seq_skip, lemma_order_seq_total, lemma_order_u32_total, order_char, order_char_slices, order_chars, order_int, order_seq, order_u32, order_u32_slices, order_u32s};
use crate::text::{append_chars, decimal, decimal_chars, chars_of, find_char, index_of, lemma_index_of, parse_u32, parse_u32_chars, parse_u64, parse_u64_chars, split_chars, split_on, string_from_chars, views};

verus! {

/// One dot-separated identifier of a pre-release suffix.
///
/// Per semver, numeric identifiers compare numerically and sort below
/// alphanumeric ones (`Num` before `Str` in declaration order).
#[derive(PartialEq, Eq, PartialOrd, Ord, Clone, Debug)]
pub enum PreSegment {
    Num(u64),
    Str(String),
}

/// What a pre-release identifier stands for.
pub enum PreIdent {
    Num(u64),
    Text(Seq<char>),
}

impl View for PreSegment {
    type V = PreIdent;

    open spec fn view(&self) -> PreIdent {
        match self {
            PreSegment::Num(n) => PreIdent::Num(*n),
            PreSegment::Str(s) => PreIdent::Text(s@),
        }
    }
}

/// A comparable key for an SDK version: the numeric fields of the
/// "major.minor.patch" part, whether the version is stable, and the
/// pre-release identifiers.
pub type VersionKey = (Vec<u32>, bool, Vec<PreSegment>);

/// What a version key stands for.
pub struct KeyView {
    pub nums: Seq<u32>,
    pub stable: bool,
    pub pre: Seq<PreIdent>,
}

/// The meaning of a version key.
pub open spec fn key_view(k: VersionKey) -> KeyView {
    KeyView { nums: k.0@, stable: k.1, pre: k.2@.map_values(|p: PreSegment| p@) }
}

/// The part of a version before its first `-` (all of it when there is none).
pub open spec fn numeric_part(v: Seq<char>) -> Seq<char> {
    if index_of(v, '-') < 0 {
        v
    } else {
        v.take(index_of(v, '-'))
    }
}

/// The part of a version after its first `-` (empty when there is none).
pub open spec fn pre_part(v: Seq<char>) -> Seq<char> {
    if index_of(v, '-') < 0 {
        Seq::empty()
    } else {
        v.skip(index_of(v, '-') + 1)
    }
}

/// A numeric field's value; a field that does not parse counts as 0.
pub open spec fn field_value(p: Seq<char>) -> u32 {
    match parse_u32(p) {
        Some(n) => n,
        None => 0,
    }
}

/// A pre-release identifier: numeric when it parses as `u64`, text otherwise.
pub open spec fn pre_ident(p: Seq<char>) -> PreIdent {
    match parse_u64(p) {
        Some(n) => PreIdent::Num(n),
        None => PreIdent::Text(p),
    }
}

/// The identifiers of the non-empty pieces, in order.
pub open spec fn pre_idents(pieces: Seq<Seq<char>>) -> Seq<PreIdent>
    decreases pieces.len(),
{
    if pieces.len() == 0 {
        Seq::empty()
    } else {
        let rest = pre_idents(pieces.drop_last());
        if pieces.last().len() == 0 {
            rest
        } else {
            rest.push(pre_ident(pieces.last()))
        }
    }
}

/// The key of a version string.
pub open spec fn spec_version_key(v: Seq<char>) -> KeyView {
    KeyView {
        nums: split_on(numeric_part(v), '.').map_values(|p: Seq<char>| field_value(p)),
        stable: index_of(v, '-') < 0,
        pre: pre_idents(split_on(pre_part(v), '.')),
    }
}

/// The order of pre-release identifiers.
pub open spec fn order_ident(a: PreIdent, b: PreIdent) -> Order {
    match (a, b) {
        (PreIdent::Num(x), PreIdent::Num(y)) => order_int(x as int, y as int),
        (PreIdent::Num(_), PreIdent::Text(_)) => Order::Less,
        (PreIdent::Text(_), PreIdent::Num(_)) => Order::Greater,
        (PreIdent::Text(x), PreIdent::Text(y)) => order_chars(x, y),
    }
}

/// The order of version keys: numeric fields first, then stable above
/// pre-release, then the pre-release identifiers.
pub open spec fn order_keys(a: KeyView, b: KeyView) -> Order {
    let n = order_u32s(a.nums, b.nums);
    if n != Order::Equal {
        n
    } else if a.stable != b.stable {
        if b.stable {
            Order::Less
        } else {
            Order::Greater
        }
    } else {
        order_seq(a.pre, b.pre, |x: PreIdent, y: PreIdent| order_ident(x, y))
    }
}

/// How two version strings compare by their keys.
pub open spec fn version_order(a: Seq<char>, b: Seq<char>) -> Order {
    order_keys(spec_version_key(a), spec_version_key(b))
}

/// The "major.minor" channel of a full version string: the first two
/// dot-separated fields, or the whole string when it has fewer.
pub open spec fn spec_channel_of(v: Seq<char>) -> Seq<char> {
    let parts = split_on(v, '.');
    if parts.len() >= 2 {
        parts[0] + seq!['.'] + parts[1]
    } else {
        v
    }
}

/// A version has a feature band when the part before its first `-` has a
/// third dot-separated field that parses as a number.
pub open spec fn spec_has_feature_band(v: Seq<char>) -> bool {
    let parts = split_on(split_on(v, '-')[0], '.');
    parts.len() >= 3 && parse_u32(parts[2]) is Some
}

/// The SDK feature band of a full version string: "major.minor.Nxx", where N
/// is the patch number divided by 100, taken from the part before the first
/// `-`; the whole string when there is no parseable third field.
pub open spec fn spec_feature_band(v: Seq<char>) -> Seq<char> {
    let parts = split_on(split_on(v, '-')[0], '.');
    if parts.len() >= 3 && parse_u32(parts[2]) is Some {
        parts[0] + seq!['.'] + parts[1] + seq!['.'] + decimal((parse_u32(parts[2])->0 / 100) as nat)
            + seq!['x', 'x']
    } else {
        v
    }
}

// ───────────────────────────── executable functions ─────────────────────────────

/// The characters `s[from..to]`.
pub fn sub_chars(s: &[char], from: usize, to: usize) -> (r: Vec<char>)
    requires
        from <= to <= s.len(),
    ensures
        r@ == s@.subrange(from as int, to as int),
{
    let mut r: Vec<char> = Vec::new();
    let mut i = from;
    while i < to
        invariant
            from <= i <= to <= s.len(),
            r@ == s@.subrange(from as int, i as int),
        decreases to - i,
    {
        r.push(s[i]);
        assert(r@ =~= s@.subrange(from as int, i + 1));
        i = i + 1;
    }
    r
}

/// A comparable key for an SDK version.
///
/// Splits the numeric "major.minor.patch" portion into integers and flags the
/// version as stable or not, so that, for equal numeric parts, a stable
/// release sorts above its pre-releases (`true > false`). Among pre-releases
/// the suffix identifiers break the tie, so "-preview.5" > "-preview.4".
pub fn version_key(version: &str) -> (r: VersionKey)
    ensures
        key_view(r) == spec_version_key(version@),
{
    let cs = chars_of(version);
    proof { lemma_index_of(cs@, '-'); }
    let (numeric, is_stable, pre) = match find_char(cs.as_slice(), '-') {
        Some(i) => {
            assert(i < cs.len());
            (sub_chars(cs.as_slice(), 0, i), false, sub_chars(cs.as_slice(), i + 1, cs.len()))
        },
        None => (cs.clone(), true, Vec::new()),
    };
    assert(numeric@ == numeric_part(version@));
    assert(pre@ =~= pre_part(version@));

    let parts = split_chars(numeric.as_slice(), '.');
    let ghost pieces = views(parts@);
    let mut nums: Vec<u32> = Vec::new();
    let mut i: usize = 0;
    while i < parts.len()
        invariant
            i <= parts.len(),
            pieces == views(parts@),
            nums@ =~= pieces.take(i as int).map_values(|p: Seq<char>| field_value(p)),
        decreases parts.len() - i,
    {
        let n = match parse_u32_chars(parts[i].as_slice()) {
            Some(n) => n,
            None => 0,
        };
        assert(pieces[i as int] == parts@[i as int]@);
        nums.push(n);
        assert(nums@ =~= pieces.take(i + 1).map_values(|p: Seq<char>| field_value(p)));
        i = i + 1;
    }
    assert(pieces.take(parts.len() as int) =~= pieces);

    let pre_parts = split_chars(pre.as_slice(), '.');
    let ghost pre_pieces = views(pre_parts@);
    let mut segs: Vec<PreSegment> = Vec::new();
    let mut j: usize = 0;
    assert(pre_pieces.take(0) =~= Seq::<Seq<char>>::empty());
    while j < pre_parts.len()
        invariant
            j <= pre_parts.len(),
            pre_pieces == views(pre_parts@),
            segs@.map_values(|p: PreSegment| p@) =~= pre_idents(pre_pieces.take(j as int)),
        decreases pre_parts.len() - j,
    {
        let piece = pre_parts[j].as_slice();
        assert(pre_pieces[j as int] == piece@);
        assert(pre_pieces.take(j + 1).drop_last() =~= pre_pieces.take(j as int));
        if piece.len() > 0 {
            let seg = match parse_u64_chars(piece) {
                Some(n) => PreSegment::Num(n),
                None => PreSegment::Str(string_from_chars(piece)),
            };
            segs.push(seg);
        }
        assert(segs@.map_values(|p: PreSegment| p@) =~= pre_idents(pre_pieces.take(j + 1)));
        j = j + 1;
    }
    assert(pre_pieces.take(pre_parts.len() as int) =~= pre_pieces);
    (nums, is_stable, segs)
}


/// Compares two pre-release identifiers.
pub fn order_pre_segments(a: &PreSegment, b: &PreSegment) -> (r: Order)
    ensures
        r == order_ident(a@, b@),
{
    match (a, b) {
        (PreSegment::Num(x), PreSegment::Num(y)) => {
            if *x < *y {
                Order::Less
            } else if *x == *y {
                Order::Equal
            } else {
                Order::Greater
            }
        },
        (PreSegment::Num(_), PreSegment::Str(_)) => Order::Less,
        (PreSegment::Str(_), PreSegment::Num(_)) => Order::Greater,
        (PreSegment::Str(x), PreSegment::Str(y)) => {
            let xs = chars_of(x.as_str());
            let ys = chars_of(y.as_str());
            order_char_slices(xs.as_slice(), ys.as_slice())
        },
    }
}

/// The meaning of a list of pre-release identifiers.
pub open spec fn idents_of(v: Seq<PreSegment>) -> Seq<PreIdent> {
    v.map_values(|p: PreSegment| p@)
}

/// Compares two lists of pre-release identifiers lexicographically.
pub fn order_pre_lists(a: &Vec<PreSegment>, b: &Vec<PreSegment>) -> (r: Order)
    ensures
        r == order_seq(idents_of(a@), idents_of(b@), |x: PreIdent, y: PreIdent| order_ident(x, y)),
{
    let ghost f = |x: PreIdent, y: PreIdent| order_ident(x, y);
    let ghost va = idents_of(a@);
    let ghost vb = idents_of(b@);
    let mut i: usize = 0;
    assert(va.skip(0) =~= va && vb.skip(0) =~= vb);
    while i < a.len() && i < b.len()
        invariant
            i <= a.len(),
            i <= b.len(),
            va == idents_of(a@),
            vb == idents_of(b@),
            f == (|x: PreIdent, y: PreIdent| order_ident(x, y)),
            order_seq(va, vb, f) == order_seq(va.skip(i as int), vb.skip(i as int), f),
        decreases a.len() - i,
    {
        let o = order_pre_segments(&a[i], &b[i]);
        assert(va[i as int] == a@[i as int]@ && vb[i as int] == b@[i as int]@);
        if o != Order::Equal {
            assert(va.skip(i as int)[0] == va[i as int] && vb.skip(i as int)[0] == vb[i as int]);
            return o;
        }
        proof { lemma_order_seq_skip(va, vb, f, i as int); }
        i = i + 1;
    }
    if i < a.len() {
        Order::Greater
    } else if i < b.len() {
        Order::Less
    } else {
        Order::Equal
    }
}

/// Compares two version keys as `Ord` on the key tuple does.
pub fn order_version_keys(a: &VersionKey, b: &VersionKey) -> (r: Order)
    ensures
        r == order_keys(key_view(*a), key_view(*b)),
{
    let n = order_u32_slices(a.0.as_slice(), b.0.as_slice());
    if n != Order::Equal {
        return n;
    }
    if a.1 != b.1 {
        return if b.1 { Order::Less } else { Order::Greater };
    }
    order_pre_lists(&a.2, &b.2)
}

/// The "major.minor" channel of a full version string.
///   "9.0.312" → "9.0"
pub fn channel_of(version: &str) -> (r: String)
    ensures
        r@ == spec_channel_of(version@),
{
    let cs = chars_of(version);
    let parts = split_chars(cs.as_slice(), '.');
    if parts.len() >= 2 {
        let mut out: Vec<char> = Vec::new();
        append_chars(&mut out, parts[0].as_slice());
        out.push('.');
        append_chars(&mut out, parts[1].as_slice());
        assert(views(parts@)[0] == parts@[0]@ && views(parts@)[1] == parts@[1]@);
        assert(out@ =~= spec_channel_of(version@));
        string_from_chars(out.as_slice())
    } else {
        string_from_chars(cs.as_slice())
    }
}

/// The SDK feature band of a full version string.
///
/// .NET SDK patch numbers encode the feature band in their hundreds digit:
///   "8.0.300" / "8.0.303" → "8.0.3xx"
///   "8.0.404"             → "8.0.4xx"
///   "9.0.100"             → "9.0.1xx"
///
/// Versions that don't have a parseable third component fall back to the bare
/// version string so they're never grouped (and therefore never pruned)
/// against something they don't belong with.
pub fn feature_band(version: &str) -> (r: String)
    ensures
        r@ == spec_feature_band(version@),
{
    let cs = chars_of(version);
    let dash = split_chars(cs.as_slice(), '-');
    proof { crate::text::lemma_split_nonempty(cs@, '-'); }
    let numeric = dash[0].as_slice();
    assert(views(dash@)[0] == numeric@);
    let parts = split_chars(numeric, '.');
    if parts.len() >= 3 {
        assert(views(parts@)[2] == parts@[2]@);
        match parse_u32_chars(parts[2].as_slice()) {
            Some(patch) => {
                let mut out: Vec<char> = Vec::new();
                append_chars(&mut out, parts[0].as_slice());
                out.push('.');
                append_chars(&mut out, parts[1].as_slice());
                out.push('.');
                let band = decimal_chars((patch / 100) as u64);
                append_chars(&mut out, band.as_slice());
                out.push('x');
                out.push('x');
                assert(views(parts@)[0] == parts@[0]@ && views(parts@)[1] == parts@[1]@);
                assert(out@ =~= spec_feature_band(version@));
                return string_from_chars(out.as_slice());
            },
            None => {},
        }
    }
    string_from_chars(cs.as_slice())
}

/// Whether the version has a feature band of its own, rather than standing
/// for itself.
pub fn has_feature_band(version: &str) -> (r: bool)
    ensures
        r == spec_has_feature_band(version@),
{
    let cs = chars_of(version);
    let dash = split_chars(cs.as_slice(), '-');
    proof { crate::text::lemma_split_nonempty(cs@, '-'); }
    let numeric = dash[0].as_slice();
    assert(views(dash@)[0] == numeric@);
    let parts = split_chars(numeric, '.');
    if parts.len() >= 3 {
        assert(views(parts@)[2] == parts@[2]@);
        parse_u32_chars(parts[2].as_slice()).is_some()
    } else {
        false
    }
}

// ───────────────────────────── laws ─────────────────────────────

/// The order of pre-release identifiers is total.
pub proof fn lemma_order_ident_total()
    ensures
        is_total_order(|x: PreIdent, y: PreIdent| order_ident(x, y)),
{
    lemma_order_chars_total();
    let g = |a: Seq<char>, b: Seq<char>| order_chars(a, b);
    assert forall|x: PreIdent, y: PreIdent, z: PreIdent|
        order_ident(x, y) == Order::Less && order_ident(y, z) == Order::Less implies order_ident(x, z)
        == Order::Less by {
        if let (PreIdent::Text(a), PreIdent::Text(b), PreIdent::Text(c)) = (x, y, z) {
            assert(g(a, b) == Order::Less && g(b, c) == Order::Less);
        }
    }
    assert forall|x: PreIdent, y: PreIdent| order_ident(x, y) == Order::Equal implies x == y by {
        if let (PreIdent::Text(a), PreIdent::Text(b)) = (x, y) {
            assert(g(a, b) == Order::Equal);
        }
    }
    assert forall|x: PreIdent, y: PreIdent| order_ident(x, y) == crate::order::flip(order_ident(y, x)) by {
        if let (PreIdent::Text(a), PreIdent::Text(b)) = (x, y) {
            assert(g(a, b) == crate::order::flip(g(b, a)));
        }
    }
    assert forall|x: PreIdent| order_ident(x, x) == Order::Equal by {
        if let PreIdent::Text(a) = x {
            assert(g(a, a) == Order::Equal);
        }
    }
}

/// Version keys are totally ordered: every two keys compare one way, equal
/// keys only compare equal to themselves, and the order is transitive.
pub proof fn lemma_version_order_total()
    ensures
        is_total_order(|a: KeyView, b: KeyView| order_keys(a, b)),
{
    lemma_order_u32_total();
    lemma_order_seq_total(|x: u32, y: u32| order_u32(x, y));
    lemma_order_ident_total();
    lemma_order_seq_total(|x: PreIdent, y: PreIdent| order_ident(x, y));
    let nu = |a: Seq<u32>, b: Seq<u32>| order_seq(a, b, |x: u32, y: u32| order_u32(x, y));
    let pi = |a: Seq<PreIdent>, b: Seq<PreIdent>| order_seq(a, b, |x: PreIdent, y: PreIdent| order_ident(x, y));
    assert forall|x: KeyView| order_keys(x, x) == Order::Equal by {
        assert(nu(x.nums, x.nums) == Order::Equal);
        assert(pi(x.pre, x.pre) == Order::Equal);
    }
    assert forall|x: KeyView, y: KeyView| order_keys(x, y) == Order::Equal implies x == y by {
        assert(nu(x.nums, y.nums) == Order::Equal ==> x.nums == y.nums);
        assert(pi(x.pre, y.pre) == Order::Equal ==> x.pre == y.pre);
    }
    assert forall|x: KeyView, y: KeyView| order_keys(x, y) == crate::order::flip(order_keys(y, x)) by {
        assert(nu(x.nums, y.nums) == crate::order::flip(nu(y.nums, x.nums)));
        assert(pi(x.pre, y.pre) == crate::order::flip(pi(y.pre, x.pre)));
    }
    assert forall|x: KeyView, y: KeyView, z: KeyView|
        order_keys(x, y) == Order::Less && order_keys(y, z) == Order::Less implies order_keys(x, z)
        == Order::Less by {
        let a = nu(x.nums, y.nums);
        let b = nu(y.nums, z.nums);
        if a == Order::Equal {
            assert(x.nums == y.nums);
        }
        if b == Order::Equal {
            assert(y.nums == z.nums);
        }
        if a == Order::Less && b == Order::Less {
            assert(nu(x.nums, z.nums) == Order::Less);
        }
        if a == Order::Equal && b == Order::Equal && x.stable == y.stable && y.stable == z.stable {
            assert(pi(x.pre, y.pre) == Order::Less && pi(y.pre, z.pre) == Order::Less);
        }
    }
}

/// A stable release sorts above each of its pre-releases: appending
/// `-<anything>` to a version without a `-` gives a lower key.
pub proof fn lemma_release_above_prerelease(release: Seq<char>, suffix: Seq<char>)
    requires
        forall|i: int| 0 <= i < release.len() ==> release[i] != '-',
    ensures
        version_order(release, release + seq!['-'] + suffix) == Order::Greater,
{
    let pre = release + seq!['-'] + suffix;
    crate::text::lemma_index_of_unique(release, '-', -1);
    crate::text::lemma_index_of_unique(pre, '-', release.len() as int);
    assert(pre.take(release.len() as int) =~= release);
    lemma_order_u32_total();
    lemma_order_seq_total(|x: u32, y: u32| order_u32(x, y));
    let ka = spec_version_key(release);
    let nu = |a: Seq<u32>, b: Seq<u32>| order_seq(a, b, |x: u32, y: u32| order_u32(x, y));
    assert(nu(ka.nums, ka.nums) == Order::Equal);
}


/// A feature band lies in the same channel as the version it was taken from:
/// the channel of `feature_band(v)` is the channel of `v`. So versions in one
/// feature band always share a channel.
pub proof fn lemma_band_keeps_channel(v: Seq<char>)
    ensures
        spec_channel_of(spec_feature_band(v)) == spec_channel_of(v),
{
    let n = split_on(v, '-')[0];
    let parts = split_on(n, '.');
    if parts.len() >= 3 && parse_u32(parts[2]) is Some {
        let p0 = parts[0];
        let p1 = parts[1];
        let d = decimal((parse_u32(parts[2])->0 / 100) as nat);
        let tail = d + seq!['x', 'x'];
        crate::text::lemma_split_pieces_no_sep(n, '.');
        crate::text::lemma_decimal_digits((parse_u32(parts[2])->0 / 100) as nat);
        assert forall|i: int| 0 <= i < p0.len() implies p0[i] != '.' by {}
        assert forall|i: int| 0 <= i < p1.len() implies p1[i] != '.' by {}
        let band = spec_feature_band(v);
        assert(band =~= p0 + seq!['.'] + (p1 + seq!['.'] + tail));
        crate::text::lemma_split_cons(p0, p1 + seq!['.'] + tail, '.');
        crate::text::lemma_split_cons(p1, tail, '.');
        crate::text::lemma_split_nonempty(tail, '.');
        assert(split_on(band, '.')[0] == p0);
        assert(split_on(band, '.')[1] == p1);
        // `n` is a prefix of `v`, so `v` splits on '.' into the same first pieces.
        crate::text::lemma_split_first_prefix(v, '-');
        let t = v.skip(n.len() as int);
        assert(n + t =~= v);
        crate::text::lemma_split_extend(n, t, '.');
        assert(split_on(v, '.')[0] == p0);
        assert(split_on(v, '.')[1] == p1);
    }
}

} // verus!
