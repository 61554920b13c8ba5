//! Strict total orders on indices, and what sorting by one means.
use vstd::prelude::*;

verus! {

/// `lt` is a strict total order: irreflexive, transitive, and any two
/// different values are related one way.
pub open spec fn is_strict_order(lt: spec_fn(int, int) -> bool) -> bool {
    &&& forall|x: int| !#[trigger] lt(x, x)
    &&& forall|x: int, y: int, z: int| #[trigger] lt(x, y) && #[trigger] lt(y, z) ==> lt(x, z)
    &&& forall|x: int, y: int| x != y ==> #[trigger] lt(x, y) || #[trigger] lt(y, x)
}

/// Every element of `s` comes before every later element, by `lt`.
pub open spec fn strictly_sorted(s: Seq<usize>, lt: spec_fn(int, int) -> bool) -> bool {
    forall|a: int, b: int| 0 <= a < b < s.len() ==> #[trigger] lt(s[a] as int, s[b] as int)
}

/// `out` lists, in `rank` order, exactly the elements of `s` at the
/// positions where `pick` holds.
pub open spec fn listed_in_order<T>(
    out: Seq<T>,
    s: Seq<T>,
    pick: spec_fn(int) -> bool,
    rank: spec_fn(int, int) -> bool,
) -> bool {
    exists|ix: Seq<usize>|
        {
            &&& ix.len() == out.len()
            &&& forall|k: int|
                0 <= k < ix.len() ==> #[trigger] ix[k] < s.len() && out[k] == s[ix[k] as int] && pick(
                    ix[k] as int,
                )
            &&& forall|i: int| 0 <= i < s.len() && #[trigger] pick(i) ==> ix.contains(i as usize)
            &&& strictly_sorted(ix, rank)
        }
}

/// Inserting an element at the place where it belongs keeps a sequence sorted.
pub proof fn lemma_insert_sorted(s: Seq<usize>, p: int, x: usize, lt: spec_fn(int, int) -> bool)
    requires
        is_strict_order(lt),
        strictly_sorted(s, lt),
        0 <= p <= s.len(),
        forall|q: int| 0 <= q < p ==> #[trigger] lt(s[q] as int, x as int),
        p < s.len() ==> lt(x as int, s[p] as int),
    ensures
        strictly_sorted(s.insert(p, x), lt),
{
    let t = s.insert(p, x);
    assert forall|a: int, b: int| 0 <= a < b < t.len() implies #[trigger] lt(t[a] as int, t[b] as int) by {
        if a < p && b == p {
        } else if a < p && b > p {
            assert(t[b] == s[b - 1]);
            if b - 1 > a {
                assert(lt(s[a] as int, s[b - 1] as int));
            }
        } else if a == p {
            assert(t[b] == s[b - 1]);
            if b - 1 > p {
                assert(lt(s[p] as int, s[b - 1] as int));
            }
        } else if a > p {
            assert(t[a] == s[a - 1] && t[b] == s[b - 1]);
        } else {
            assert(t[a] == s[a] && t[b] == s[b]);
        }
    }
}


/// Sorts positions by a strict total order, with `before` deciding it.
pub fn sort_positions<F: Fn(usize, usize) -> bool>(
    items: &Vec<usize>,
    before: F,
    bound: usize,
    lt: Ghost<spec_fn(int, int) -> bool>,
) -> (out: Vec<usize>)
    requires
        is_strict_order(lt@),
        forall|i: usize, j: usize| i < bound && j < bound ==> #[trigger] before.requires((i, j)),
        forall|i: usize, j: usize, r: bool|
            i < bound && j < bound && #[trigger] before.ensures((i, j), r) ==> r == lt@(i as int, j as int),
        forall|k: int| 0 <= k < items@.len() ==> #[trigger] items@[k] < bound,
        forall|a: int, b: int| 0 <= a < b < items@.len() ==> items@[a] < items@[b],
    ensures
        out@.len() == items@.len(),
        strictly_sorted(out@, lt@),
        forall|x: usize| out@.contains(x) <==> items@.contains(x),
        forall|k: int| 0 <= k < out@.len() ==> #[trigger] out@[k] < bound,
{
    let mut out: Vec<usize> = Vec::new();
    let mut t: usize = 0;
    while t < items.len()
        invariant
            t <= items.len(),
            is_strict_order(lt@),
            forall|i: usize, j: usize| i < bound && j < bound ==> #[trigger] before.requires((i, j)),
            forall|i: usize, j: usize, r: bool|
                i < bound && j < bound && #[trigger] before.ensures((i, j), r) ==> r == lt@(i as int, j as int),
            forall|k: int| 0 <= k < items@.len() ==> #[trigger] items@[k] < bound,
            forall|a: int, b: int| 0 <= a < b < items@.len() ==> items@[a] < items@[b],
            out@.len() == t,
            strictly_sorted(out@, lt@),
            forall|x: usize| out@.contains(x) <==> items@.take(t as int).contains(x),
            forall|k: int| 0 <= k < out@.len() ==> #[trigger] out@[k] < bound,
        decreases items.len() - t,
    {
        let x = items[t];
        assert(!items@.take(t as int).contains(x)) by {
            if items@.take(t as int).contains(x) {
                let k = choose|k: int| 0 <= k < t && items@.take(t as int)[k] == x;
                assert(items@[k] < items@[t as int]);
            }
        }
        let mut p: usize = 0;
        let mut placed = false;
        while p < out.len() && !placed
            invariant
                p <= out.len(),
                x < bound,
                forall|i: usize, j: usize| i < bound && j < bound ==> #[trigger] before.requires((i, j)),
                forall|i: usize, j: usize, r: bool|
                    i < bound && j < bound && #[trigger] before.ensures((i, j), r) ==> r == lt@(i as int, j as int),
                forall|k: int| 0 <= k < out@.len() ==> #[trigger] out@[k] < bound,
                forall|q: int| 0 <= q < p ==> !#[trigger] lt@(x as int, out@[q] as int),
                placed ==> p < out.len() && lt@(x as int, out@[p as int] as int),
            decreases out.len() - p + if placed { 0int } else { 1int },
        {
            let y = out[p];
            if before(x, y) {
                placed = true;
            } else {
                p = p + 1;
            }
        }
        proof {
            assert forall|q: int| 0 <= q < p implies #[trigger] lt@(out@[q] as int, x as int) by {
                assert(out@.contains(out@[q]));
                assert(out@[q] != x);
                assert(lt@(out@[q] as int, x as int) || lt@(x as int, out@[q] as int));
            }
            lemma_insert_sorted(out@, p as int, x, lt@);
        }
        let ghost prior = out@;
        assert(forall|y: usize| prior.contains(y) <==> items@.take(t as int).contains(y));
        out.insert(p, x);
        proof {
            let tk = items@.take(t as int);
            let tk1 = items@.take(t + 1);
            assert(tk1 =~= tk.push(x));
            assert forall|y: usize| out@.contains(y) implies tk1.contains(y) by {
                let k = choose|k: int| 0 <= k < out@.len() && out@[k] == y;
                if k == p {
                    assert(tk1[t as int] == y);
                } else {
                    let kb = if k < p { k } else { k - 1 };
                    assert(prior[kb] == y);
                    assert(prior.contains(y));
                    assert(tk.contains(y));
                    let m = choose|m: int| 0 <= m < tk.len() && tk[m] == y;
                    assert(tk1[m] == y);
                }
            }
            assert forall|y: usize| tk1.contains(y) implies out@.contains(y) by {
                let m = choose|m: int| 0 <= m < tk1.len() && tk1[m] == y;
                if m == t {
                    assert(out@[p as int] == x);
                } else {
                    assert(tk[m] == y);
                    assert(tk.contains(y));
                    assert(prior.contains(y));
                    let k = choose|k: int| 0 <= k < prior.len() && prior[k] == y;
                    if k < p {
                        assert(out@[k] == y);
                    } else {
                        assert(out@[k + 1] == y);
                    }
                }
            }
        }
        t = t + 1;
    }
    assert(items@.take(items@.len() as int) =~= items@);
    out
}

} // verus!
