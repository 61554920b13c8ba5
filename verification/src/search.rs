//! What `Iterator::find` and `Iterator::max_by_key` pick, stated over indices.
use vstd::prelude::*;

verus! {

/// The first index in `k..n` at which `p` holds, or -1 (what `find` returns).
pub open spec fn first_match(k: int, n: int, p: spec_fn(int) -> bool) -> int
    decreases n - k,
{
    if k >= n {
        -1
    } else if p(k) {
        k
    } else {
        first_match(k + 1, n, p)
    }
}

/// Among the indices below `n` at which `p` holds, the last one with the
/// greatest `key`, or -1 when there is none (what `filter(p).max_by_key(key)`
/// returns: of several equally maximum elements, the last).
pub open spec fn last_max(n: int, p: spec_fn(int) -> bool, key: spec_fn(int) -> int) -> int
    decreases n,
{
    if n <= 0 {
        -1
    } else {
        let prev = last_max(n - 1, p, key);
        if p(n - 1) && (prev < 0 || key(prev) <= key(n - 1)) {
            n - 1
        } else {
            prev
        }
    }
}

/// Skipping indices at which `p` fails does not change the first match.
pub proof fn lemma_first_match_skip(k: int, i: int, n: int, p: spec_fn(int) -> bool)
    requires
        k <= i <= n,
        forall|j: int| k <= j < i ==> !#[trigger] p(j),
    ensures
        first_match(k, n, p) == first_match(i, n, p),
    decreases i - k,
{
    if k < i {
        lemma_first_match_skip(k + 1, i, n, p);
    }
}

/// Characterisation of `first_match`.
pub proof fn lemma_first_match(k: int, n: int, p: spec_fn(int) -> bool)
    requires
        0 <= k,
    ensures
        first_match(k, n, p) == -1 || (k <= first_match(k, n, p) < n && p(first_match(k, n, p))),
        forall|j: int| k <= j < n && (first_match(k, n, p) == -1 || j < first_match(k, n, p)) ==> !#[trigger] p(j),
    decreases n - k,
{
    if k < n {
        if p(k) {
            assert(first_match(k, n, p) == k);
        } else {
            lemma_first_match(k + 1, n, p);
            let f = first_match(k + 1, n, p);
            assert(first_match(k, n, p) == f);
            assert forall|j: int| k <= j < n && (f == -1 || j < f) implies !#[trigger] p(j) by {
                if j > k {
                    assert(k + 1 <= j);
                }
            }
        }
    }
}

/// Characterisation of `last_max`: it is a matching index whose key no other
/// matching index exceeds, and no later matching index has the same key.
pub proof fn lemma_last_max(n: int, p: spec_fn(int) -> bool, key: spec_fn(int) -> int)
    ensures
        last_max(n, p, key) == -1 <==> (forall|j: int| 0 <= j < n ==> !#[trigger] p(j)),
        last_max(n, p, key) != -1 ==> 0 <= last_max(n, p, key) < n && p(last_max(n, p, key)),
        last_max(n, p, key) != -1 ==> forall|j: int|
            0 <= j < n && #[trigger] p(j) ==> key(j) <= key(last_max(n, p, key)),
        last_max(n, p, key) != -1 ==> forall|j: int|
            last_max(n, p, key) < j < n && #[trigger] p(j) ==> key(j) < key(last_max(n, p, key)),
    decreases n,
{
    if n > 0 {
        lemma_last_max(n - 1, p, key);
    }
}

} // verus!
