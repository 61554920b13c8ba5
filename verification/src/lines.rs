//! Lines and whitespace, as `str::lines` and `str::trim` see them.
use vstd::prelude::*;
use crate::text::{lemma_split_nonempty, split_chars, split_on, views};

verus! {

/// `char::is_whitespace`: the characters with the Unicode `White_Space` property.
pub open spec fn is_white(c: char) -> bool {
    ||| ('\u{9}' <= c && c <= '\u{d}')
    ||| c == ' '
    ||| c == '\u{85}'
    ||| c == '\u{a0}'
    ||| c == '\u{1680}'
    ||| ('\u{2000}' <= c && c <= '\u{200a}')
    ||| c == '\u{2028}'
    ||| c == '\u{2029}'
    ||| c == '\u{202f}'
    ||| c == '\u{205f}'
    ||| c == '\u{3000}'
}

/// `s` without its leading whitespace.
pub open spec fn trim_start(s: Seq<char>) -> Seq<char>
    decreases s.len(),
{
    if s.len() > 0 && is_white(s[0]) {
        trim_start(s.drop_first())
    } else {
        s
    }
}

/// `s` without its trailing whitespace.
pub open spec fn trim_end(s: Seq<char>) -> Seq<char>
    decreases s.len(),
{
    if s.len() > 0 && is_white(s.last()) {
        trim_end(s.drop_last())
    } else {
        s
    }
}

/// `str::trim`: `s` without leading and trailing whitespace.
pub open spec fn trim(s: Seq<char>) -> Seq<char> {
    trim_end(trim_start(s))
}

/// A line that ended in "\n" loses one "\r" before it.
pub open spec fn strip_cr(line: Seq<char>) -> Seq<char> {
    if line.len() > 0 && line.last() == '\r' {
        line.drop_last()
    } else {
        line
    }
}

/// `str::lines`: the pieces between "\n" (or "\r\n") line endings; a final
/// line ending is optional, and an empty text has no lines.
pub open spec fn lines_of(s: Seq<char>) -> Seq<Seq<char>> {
    let raw = split_on(s, '\n');
    let ended = raw.drop_last().map_values(|l: Seq<char>| strip_cr(l));
    if raw.last().len() == 0 {
        ended
    } else {
        ended.push(raw.last())
    }
}

/// Every line followed by "\n".
pub open spec fn terminate_all(ls: Seq<Seq<char>>) -> Seq<char>
    decreases ls.len(),
{
    if ls.len() == 0 {
        Seq::empty()
    } else {
        terminate_all(ls.drop_last()) + ls.last() + seq!['\n']
    }
}

/// `ls.join("\n")` followed by "\n".
pub open spec fn join_lines(ls: Seq<Seq<char>>) -> Seq<char> {
    if ls.len() == 0 {
        seq!['\n']
    } else {
        terminate_all(ls)
    }
}

// ───────────────────────────── executable functions ─────────────────────────────

/// `char::is_whitespace`.
pub fn char_is_white(c: char) -> (r: bool)
    ensures
        r == is_white(c),
{
    ('\u{9}' <= c && c <= '\u{d}') || c == ' ' || c == '\u{85}' || c == '\u{a0}' || c == '\u{1680}'
        || ('\u{2000}' <= c && c <= '\u{200a}') || c == '\u{2028}' || c == '\u{2029}' || c
        == '\u{202f}' || c == '\u{205f}' || c == '\u{3000}'
}

/// `str::trim` on characters.
pub fn trim_chars(s: &[char]) -> (r: Vec<char>)
    ensures
        r@ == trim(s@),
{
    let mut a: usize = 0;
    assert(s@.skip(0) =~= s@);
    while a < s.len() && char_is_white(s[a])
        invariant
            a <= s.len(),
            trim_start(s@) == trim_start(s@.skip(a as int)),
        decreases s.len() - a,
    {
        assert(s@.skip(a as int).drop_first() =~= s@.skip(a + 1));
        a = a + 1;
    }
    let ghost t = s@.skip(a as int);
    assert(trim_start(t) == t);
    let mut b: usize = s.len();
    while b > a && char_is_white(s[b - 1])
        invariant
            a <= b <= s.len(),
            t == s@.skip(a as int),
            trim_end(t) == trim_end(s@.subrange(a as int, b as int)),
        decreases b,
    {
        assert(s@.subrange(a as int, b as int).drop_last() =~= s@.subrange(a as int, b - 1));
        b = b - 1;
    }
    let ghost u = s@.subrange(a as int, b as int);
    assert(trim_end(u) == u);
    crate::version::sub_chars(s, a, b)
}

/// `str::lines` on characters.
pub fn lines_chars(s: &[char]) -> (r: Vec<Vec<char>>)
    ensures
        views(r@) == lines_of(s@),
{
    let raw = split_chars(s, '\n');
    proof { lemma_split_nonempty(s@, '\n'); }
    let ghost rv = views(raw@);
    let last = raw.len() - 1;
    let mut out: Vec<Vec<char>> = Vec::new();
    let mut k: usize = 0;
    while k < last
        invariant
            last == raw@.len() - 1,
            k <= last,
            rv == views(raw@),
            views(out@) =~= rv.drop_last().take(k as int).map_values(|l: Seq<char>| strip_cr(l)),
        decreases last - k,
    {
        let piece = raw[k].as_slice();
        assert(rv[k as int] == piece@);
        let line = if piece.len() > 0 && piece[piece.len() - 1] == '\r' {
            crate::version::sub_chars(piece, 0, piece.len() - 1)
        } else {
            crate::version::sub_chars(piece, 0, piece.len())
        };
        assert(line@ =~= strip_cr(piece@));
        let ghost before = views(out@);
        assert(rv.drop_last().take(k + 1) =~= rv.drop_last().take(k as int).push(piece@));
        out.push(line);
        assert(views(out@) =~= before.push(strip_cr(piece@)));
        assert(views(out@) =~= rv.drop_last().take(k + 1).map_values(|l: Seq<char>| strip_cr(l)));
        k = k + 1;
    }
    assert(rv.drop_last().take(last as int) =~= rv.drop_last());
    let tail = raw[last].as_slice();
    assert(rv[last as int] == tail@ && rv.last() == tail@);
    if tail.len() > 0 {
        let ghost before = views(out@);
        let whole = crate::version::sub_chars(tail, 0, tail.len());
        assert(whole@ =~= tail@);
        out.push(whole);
        assert(views(out@) =~= before.push(tail@));
    }
    out
}

// ───────────────────────────── lemmas ─────────────────────────────

/// Trailing whitespace does not survive a trim: dropping it first changes nothing.
pub proof fn lemma_trim_drop_white(s: Seq<char>)
    requires
        s.len() > 0,
        is_white(s.last()),
    ensures
        trim(s) == trim(s.drop_last()),
    decreases s.len(),
{
    if is_white(s[0]) {
        if s.len() == 1 {
            assert(s.drop_first() =~= Seq::<char>::empty());
            assert(s.drop_last() =~= Seq::<char>::empty());
        } else {
            lemma_trim_drop_white(s.drop_first());
            assert(s.drop_last().drop_first() =~= s.drop_first().drop_last());
        }
    } else {
        assert(s.drop_last()[0] == s[0]);
    }
}

/// A "\r" taken off a line's end is whitespace, so the trimmed line is the same.
pub proof fn lemma_trim_strip_cr(s: Seq<char>)
    ensures
        trim(strip_cr(s)) == trim(s),
{
    if s.len() > 0 && s.last() == '\r' {
        lemma_trim_drop_white(s);
    }
}

/// Splitting text that ends in a piece without separators extends the last
/// piece of the split by that piece.
pub proof fn lemma_split_append_plain(a: Seq<char>, x: Seq<char>, sep: char)
    requires
        forall|i: int| 0 <= i < x.len() ==> x[i] != sep,
    ensures
        split_on(a + x, sep) == split_on(a, sep).update(
            split_on(a, sep).len() - 1,
            split_on(a, sep).last() + x,
        ),
    decreases x.len(),
{
    lemma_split_nonempty(a, sep);
    if x.len() == 0 {
        assert(a + x =~= a);
        assert(split_on(a, sep).last() + x =~= split_on(a, sep).last());
        assert(split_on(a, sep).update(split_on(a, sep).len() - 1, split_on(a, sep).last() + x)
            =~= split_on(a, sep));
    } else {
        lemma_split_append_plain(a, x.drop_last(), sep);
        assert((a + x).drop_last() =~= a + x.drop_last());
        assert((split_on(a, sep).last() + x.drop_last()).push(x.last()) =~= split_on(a, sep).last() + x);
        assert(split_on(a + x, sep) =~= split_on(a, sep).update(
            split_on(a, sep).len() - 1,
            split_on(a, sep).last() + x,
        ));
    }
}

/// Lines without line breaks, each followed by "\n", split back into those
/// lines and a final empty piece.
pub proof fn lemma_split_terminated(ls: Seq<Seq<char>>)
    requires
        forall|k: int, i: int| 0 <= k < ls.len() && 0 <= i < ls[k].len() ==> ls[k][i] != '\n',
    ensures
        split_on(terminate_all(ls), '\n') == ls.push(Seq::<char>::empty()),
    decreases ls.len(),
{
    if ls.len() == 0 {
        assert(split_on(terminate_all(ls), '\n') =~= ls.push(Seq::<char>::empty()));
    } else {
        let init = ls.drop_last();
        lemma_split_terminated(init);
        let t = terminate_all(init) + ls.last();
        assert(terminate_all(ls).drop_last() =~= t);
        let x = ls.last();
        assert forall|i: int| 0 <= i < x.len() implies x[i] != '\n' by {
            assert(ls[ls.len() - 1][i] != '\n');
        }
        lemma_split_append_plain(terminate_all(init), x, '\n');
        assert(Seq::<char>::empty() + x =~= x);
        assert(split_on(t, '\n') =~= ls);
        assert(split_on(terminate_all(ls), '\n') =~= ls.push(Seq::<char>::empty()));
    }
}

/// Reading back lines that were written out one per line gives them again,
/// less one "\r" at the end of each.
pub proof fn lemma_lines_of_terminated(ls: Seq<Seq<char>>)
    requires
        forall|k: int, i: int| 0 <= k < ls.len() && 0 <= i < ls[k].len() ==> ls[k][i] != '\n',
    ensures
        lines_of(terminate_all(ls)) == ls.map_values(|l: Seq<char>| strip_cr(l)),
{
    lemma_split_terminated(ls);
    let raw = split_on(terminate_all(ls), '\n');
    assert(raw.drop_last() =~= ls);
    assert(lines_of(terminate_all(ls)) =~= ls.map_values(|l: Seq<char>| strip_cr(l)));
}

/// No line of a text holds a line break.
pub proof fn lemma_lines_no_newline(s: Seq<char>)
    ensures
        forall|k: int, i: int|
            0 <= k < lines_of(s).len() && 0 <= i < lines_of(s)[k].len() ==> lines_of(s)[k][i] != '\n',
{
    let raw = split_on(s, '\n');
    crate::text::lemma_split_pieces_no_sep(s, '\n');
    lemma_split_nonempty(s, '\n');
    assert forall|k: int, i: int|
        0 <= k < lines_of(s).len() && 0 <= i < lines_of(s)[k].len() implies lines_of(s)[k][i] != '\n' by {
        if k < raw.len() - 1 {
            assert(lines_of(s)[k] == strip_cr(raw[k]));
            assert(raw[k][i] != '\n');
        } else {
            assert(lines_of(s)[k] == raw.last());
            assert(raw[raw.len() - 1][i] != '\n');
        }
    }
}

/// The lines that a sequence of texts, written one after another each
/// followed by "\n", splits into: the pieces of each text between its line
/// breaks, in order.
pub open spec fn pieces(ls: Seq<Seq<char>>) -> Seq<Seq<char>>
    decreases ls.len(),
{
    if ls.len() == 0 {
        Seq::empty()
    } else {
        pieces(ls.drop_last()) + split_on(ls.last(), '\n')
    }
}

/// Splitting a concatenation: the last piece of the first text and the first
/// piece of the second join into one.
pub proof fn lemma_split_concat(a: Seq<char>, b: Seq<char>, sep: char)
    ensures
        split_on(a + b, sep) == split_on(a, sep).drop_last() + seq![split_on(a, sep).last() + split_on(b, sep)[0]]
            + split_on(b, sep).skip(1),
    decreases b.len(),
{
    lemma_split_nonempty(a, sep);
    lemma_split_nonempty(b, sep);
    let sa = split_on(a, sep);
    let d = sa.drop_last();
    let l = sa.last();
    if b.len() == 0 {
        assert(a + b =~= a);
        assert(split_on(b, sep) =~= seq![Seq::<char>::empty()]);
        assert(l + Seq::<char>::empty() =~= l);
        assert(split_on(b, sep).skip(1) =~= Seq::<Seq<char>>::empty());
        assert(d + seq![l] =~= sa);
    } else {
        let b1 = b.drop_last();
        let c = b.last();
        lemma_split_concat(a, b1, sep);
        lemma_split_nonempty(b1, sep);
        assert((a + b).drop_last() =~= a + b1);
        assert((a + b).last() == c);
        let s1 = split_on(b1, sep);
        let p = split_on(a + b1, sep);
        if c == sep {
            assert(split_on(b, sep) == s1.push(Seq::<char>::empty()));
            assert(split_on(b, sep)[0] == s1[0]);
            assert(split_on(b, sep).skip(1) =~= s1.skip(1).push(Seq::<char>::empty()));
            assert(split_on(a + b, sep) =~= d + seq![l + split_on(b, sep)[0]] + split_on(b, sep).skip(1));
        } else {
            assert(split_on(b, sep) == s1.update(s1.len() - 1, s1.last().push(c)));
            if s1.len() == 1 {
                assert(split_on(b, sep)[0] == s1[0].push(c));
                assert(split_on(b, sep).skip(1) =~= Seq::<Seq<char>>::empty());
                assert(s1.skip(1) =~= Seq::<Seq<char>>::empty());
                assert((l + s1[0]).push(c) =~= l + s1[0].push(c));
                assert(p == d + seq![l + s1[0]]);
                assert(split_on(a + b, sep) =~= d + seq![l + split_on(b, sep)[0]] + split_on(b, sep).skip(1));
            } else {
                assert(split_on(b, sep)[0] == s1[0]);
                assert(split_on(b, sep).skip(1) =~= s1.skip(1).update(s1.len() - 2, s1.last().push(c)));
                assert(p.last() == s1.last());
                assert(split_on(a + b, sep) =~= d + seq![l + split_on(b, sep)[0]] + split_on(b, sep).skip(1));
            }
        }
    }
}

/// Texts written one per line split back into their pieces and a final
/// empty piece.
pub proof fn lemma_split_terminated_pieces(ls: Seq<Seq<char>>)
    ensures
        split_on(terminate_all(ls), '\n') == pieces(ls).push(Seq::<char>::empty()),
    decreases ls.len(),
{
    if ls.len() == 0 {
        assert(split_on(terminate_all(ls), '\n') =~= pieces(ls).push(Seq::<char>::empty()));
    } else {
        let init = ls.drop_last();
        lemma_split_terminated_pieces(init);
        let t = terminate_all(init) + ls.last();
        assert(terminate_all(ls).drop_last() =~= t);
        lemma_split_concat(terminate_all(init), ls.last(), '\n');
        lemma_split_nonempty(ls.last(), '\n');
        let sl = split_on(ls.last(), '\n');
        assert(Seq::<char>::empty() + sl[0] =~= sl[0]);
        assert(seq![sl[0]] + sl.skip(1) =~= sl);
        assert(split_on(t, '\n') =~= pieces(init) + sl);
        assert(split_on(terminate_all(ls), '\n') =~= pieces(ls).push(Seq::<char>::empty()));
    }
}

/// Reading back texts written one per line gives their pieces, less one
/// "\r" at the end of each.
pub proof fn lemma_lines_of_pieces(ls: Seq<Seq<char>>)
    ensures
        lines_of(terminate_all(ls)) == pieces(ls).map_values(|l: Seq<char>| strip_cr(l)),
{
    lemma_split_terminated_pieces(ls);
    let raw = split_on(terminate_all(ls), '\n');
    assert(raw.drop_last() =~= pieces(ls));
    assert(lines_of(terminate_all(ls)) =~= pieces(ls).map_values(|l: Seq<char>| strip_cr(l)));
}

/// The pieces of two runs of texts are the pieces of each, in turn.
pub proof fn lemma_pieces_append(a: Seq<Seq<char>>, b: Seq<Seq<char>>)
    ensures
        pieces(a + b) == pieces(a) + pieces(b),
    decreases b.len(),
{
    if b.len() == 0 {
        assert(a + b =~= a);
        assert(pieces(a) + pieces(b) =~= pieces(a));
    } else {
        lemma_pieces_append(a, b.drop_last());
        assert((a + b).drop_last() =~= a + b.drop_last());
        assert((a + b).last() == b.last());
        assert(pieces(a + b) =~= pieces(a) + pieces(b));
    }
}

/// A text without line breaks is a single piece.
pub proof fn lemma_pieces_single(x: Seq<char>)
    requires
        forall|i: int| 0 <= i < x.len() ==> x[i] != '\n',
    ensures
        pieces(seq![x]) == seq![x],
{
    crate::text::lemma_split_no_sep(x, '\n');
    assert(seq![x].drop_last() =~= Seq::<Seq<char>>::empty());
    assert(seq![x].last() == x);
    assert(pieces(Seq::<Seq<char>>::empty()) == Seq::<Seq<char>>::empty());
    assert(pieces(seq![x]) == pieces(Seq::<Seq<char>>::empty()) + split_on(x, '\n'));
    assert(pieces(seq![x]) =~= seq![x]);
}

} // verus!
