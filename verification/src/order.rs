//! Three-way comparisons and the laws of a total order.
use vstd::prelude::*;

verus! {

/// Three-way comparison result.
#[derive(PartialEq, Eq, Structural, Clone, Copy, Debug)]
pub enum Order {
    Less,
    Equal,
    Greater,
}

/// The comparison read the other way round.
pub open spec fn flip(o: Order) -> Order {
    match o {
        Order::Less => Order::Greater,
        Order::Equal => Order::Equal,
        Order::Greater => Order::Less,
    }
}

/// `f` is a total order: reflexive, equality-deciding, antisymmetric and transitive.
pub open spec fn is_total_order<T>(f: spec_fn(T, T) -> Order) -> bool {
    &&& forall|x: T| #[trigger] f(x, x) == Order::Equal
    &&& forall|x: T, y: T| #[trigger] f(x, y) == Order::Equal ==> x == y
    &&& forall|x: T, y: T| #[trigger] f(x, y) == flip(f(y, x))
    &&& forall|x: T, y: T, z: T|
        #[trigger] f(x, y) == Order::Less && #[trigger] f(y, z) == Order::Less ==> f(x, z)
            == Order::Less
}

/// Lexicographic order of sequences, by `f` on the elements; a proper prefix comes first.
pub open spec fn order_seq<T>(a: Seq<T>, b: Seq<T>, f: spec_fn(T, T) -> Order) -> Order
    decreases a.len(),
{
    if a.len() == 0 {
        if b.len() == 0 {
            Order::Equal
        } else {
            Order::Less
        }
    } else if b.len() == 0 {
        Order::Greater
    } else if f(a[0], b[0]) != Order::Equal {
        f(a[0], b[0])
    } else {
        order_seq(a.drop_first(), b.drop_first(), f)
    }
}

/// The natural order of integers.
pub open spec fn order_int(x: int, y: int) -> Order {
    if x < y {
        Order::Less
    } else if x == y {
        Order::Equal
    } else {
        Order::Greater
    }
}

/// The natural order of characters (by code point).
pub open spec fn order_char(x: char, y: char) -> Order {
    if x < y {
        Order::Less
    } else if x == y {
        Order::Equal
    } else {
        Order::Greater
    }
}

/// The natural order of `u32`.
pub open spec fn order_u32(x: u32, y: u32) -> Order {
    order_int(x as int, y as int)
}

/// Lexicographic order of character sequences by code point: for strings, the
/// order of `Ord for str` (UTF-8 byte order agrees with code point order).
pub open spec fn order_chars(a: Seq<char>, b: Seq<char>) -> Order {
    order_seq(a, b, |x: char, y: char| order_char(x, y))
}

/// Lexicographic order of `u32` sequences (`Ord for Vec<u32>`).
pub open spec fn order_u32s(a: Seq<u32>, b: Seq<u32>) -> Order {
    order_seq(a, b, |x: u32, y: u32| order_u32(x, y))
}

// ───────────────────────────── lemmas ─────────────────────────────

proof fn lemma_seq_refl<T>(a: Seq<T>, f: spec_fn(T, T) -> Order)
    requires
        is_total_order(f),
    ensures
        order_seq(a, a, f) == Order::Equal,
    decreases a.len(),
{
    if a.len() > 0 {
        assert(f(a[0], a[0]) == Order::Equal);
        lemma_seq_refl(a.drop_first(), f);
    }
}

proof fn lemma_seq_eq<T>(a: Seq<T>, b: Seq<T>, f: spec_fn(T, T) -> Order)
    requires
        is_total_order(f),
        order_seq(a, b, f) == Order::Equal,
    ensures
        a == b,
    decreases a.len(),
{
    if a.len() > 0 {
        assert(f(a[0], b[0]) == Order::Equal);
        lemma_seq_eq(a.drop_first(), b.drop_first(), f);
        assert(a =~= seq![a[0]] + a.drop_first());
        assert(b =~= seq![b[0]] + b.drop_first());
    } else {
        assert(a =~= b);
    }
}

proof fn lemma_seq_flip<T>(a: Seq<T>, b: Seq<T>, f: spec_fn(T, T) -> Order)
    requires
        is_total_order(f),
    ensures
        order_seq(a, b, f) == flip(order_seq(b, a, f)),
    decreases a.len(),
{
    if a.len() > 0 && b.len() > 0 {
        assert(f(a[0], b[0]) == flip(f(b[0], a[0])));
        lemma_seq_flip(a.drop_first(), b.drop_first(), f);
    }
}

proof fn lemma_seq_trans<T>(a: Seq<T>, b: Seq<T>, c: Seq<T>, f: spec_fn(T, T) -> Order)
    requires
        is_total_order(f),
        order_seq(a, b, f) == Order::Less,
        order_seq(b, c, f) == Order::Less,
    ensures
        order_seq(a, c, f) == Order::Less,
    decreases a.len(),
{
    if a.len() > 0 && b.len() > 0 && c.len() > 0 {
        let fab = f(a[0], b[0]);
        let fbc = f(b[0], c[0]);
        if fab == Order::Equal {
            assert(a[0] == b[0]);
        }
        if fbc == Order::Equal {
            assert(b[0] == c[0]);
        }
        if fab == Order::Equal && fbc == Order::Equal {
            lemma_seq_trans(a.drop_first(), b.drop_first(), c.drop_first(), f);
        }
    }
}

/// Lexicographic extension of a total order is a total order.
pub proof fn lemma_order_seq_total<T>(f: spec_fn(T, T) -> Order)
    requires
        is_total_order(f),
    ensures
        is_total_order(|a: Seq<T>, b: Seq<T>| order_seq(a, b, f)),
{
    let g = |a: Seq<T>, b: Seq<T>| order_seq(a, b, f);
    assert forall|x: Seq<T>| #[trigger] g(x, x) == Order::Equal by {
        lemma_seq_refl(x, f);
    }
    assert forall|x: Seq<T>, y: Seq<T>| #[trigger] g(x, y) == Order::Equal implies x == y by {
        lemma_seq_eq(x, y, f);
    }
    assert forall|x: Seq<T>, y: Seq<T>| #[trigger] g(x, y) == flip(g(y, x)) by {
        lemma_seq_flip(x, y, f);
    }
    assert forall|x: Seq<T>, y: Seq<T>, z: Seq<T>|
        #[trigger] g(x, y) == Order::Less && #[trigger] g(y, z) == Order::Less implies g(x, z)
        == Order::Less by {
        lemma_seq_trans(x, y, z, f);
    }
}

/// The character order is total.
pub proof fn lemma_order_char_total()
    ensures
        is_total_order(|x: char, y: char| order_char(x, y)),
{
}

/// The `u32` order is total.
pub proof fn lemma_order_u32_total()
    ensures
        is_total_order(|x: u32, y: u32| order_u32(x, y)),
{
}

/// The string order is total.
pub proof fn lemma_order_chars_total()
    ensures
        is_total_order(|a: Seq<char>, b: Seq<char>| order_chars(a, b)),
{
    lemma_order_char_total();
    lemma_order_seq_total(|x: char, y: char| order_char(x, y));
    assert((|a: Seq<char>, b: Seq<char>| order_chars(a, b)) =~= (|a: Seq<char>, b: Seq<char>|
        order_seq(a, b, |x: char, y: char| order_char(x, y))));
}


/// Comparing sequences past an equal leading element.
pub proof fn lemma_order_seq_skip<T>(a: Seq<T>, b: Seq<T>, f: spec_fn(T, T) -> Order, i: int)
    requires
        0 <= i < a.len(),
        i < b.len(),
        f(a[i], b[i]) == Order::Equal,
    ensures
        order_seq(a.skip(i), b.skip(i), f) == order_seq(a.skip(i + 1), b.skip(i + 1), f),
{
    assert(a.skip(i).drop_first() =~= a.skip(i + 1));
    assert(b.skip(i).drop_first() =~= b.skip(i + 1));
}

// ───────────────────────────── executable functions ─────────────────────────────

/// Compares two character sequences by code point, lexicographically.
pub fn order_char_slices(a: &[char], b: &[char]) -> (r: Order)
    ensures
        r == order_chars(a@, b@),
{
    let ghost f = |x: char, y: char| order_char(x, y);
    let mut i: usize = 0;
    assert(a@.skip(0) =~= a@ && b@.skip(0) =~= b@);
    while i < a.len() && i < b.len()
        invariant
            i <= a.len(),
            i <= b.len(),
            f == (|x: char, y: char| order_char(x, y)),
            order_chars(a@, b@) == order_seq(a@.skip(i as int), b@.skip(i as int), f),
        decreases a.len() - i,
    {
        if a[i] < b[i] {
            return Order::Less;
        }
        if a[i] > b[i] {
            return Order::Greater;
        }
        proof { lemma_order_seq_skip(a@, b@, f, i as int); }
        i = i + 1;
    }
    if i < a.len() {
        Order::Greater
    } else if i < b.len() {
        Order::Less
    } else {
        Order::Equal
    }
}

/// Compares two `u32` sequences lexicographically.
pub fn order_u32_slices(a: &[u32], b: &[u32]) -> (r: Order)
    ensures
        r == order_u32s(a@, b@),
{
    let ghost f = |x: u32, y: u32| order_u32(x, y);
    let mut i: usize = 0;
    assert(a@.skip(0) =~= a@ && b@.skip(0) =~= b@);
    while i < a.len() && i < b.len()
        invariant
            i <= a.len(),
            i <= b.len(),
            f == (|x: u32, y: u32| order_u32(x, y)),
            order_u32s(a@, b@) == order_seq(a@.skip(i as int), b@.skip(i as int), f),
        decreases a.len() - i,
    {
        if a[i] < b[i] {
            return Order::Less;
        }
        if a[i] > b[i] {
            return Order::Greater;
        }
        proof { lemma_order_seq_skip(a@, b@, f, i as int); }
        i = i + 1;
    }
    if i < a.len() {
        Order::Greater
    } else if i < b.len() {
        Order::Less
    } else {
        Order::Equal
    }
}

} // verus!
