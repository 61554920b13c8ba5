//! Checking downloaded archives against their published digests.
use vstd::prelude::*;
use crate::lines::{char_is_white, is_white, trim_start};
use crate::text::{chars_of, string_from_chars};

verus! {

/// The SHA-512 digest of `data` (as the `sha2` crate computes it).
pub uninterp spec fn sha512_of(data: Seq<u8>) -> Seq<u8>;

/// The SHA-256 digest of `data` (as the `sha2` crate computes it).
pub uninterp spec fn sha256_of(data: Seq<u8>) -> Seq<u8>;

/// `sha2::Sha512::digest`: the SHA-512 digest of `data`. Its result is
/// believed to be `sha512_of(data)`, a function of the bytes alone.
#[verifier::external_body]
fn sha512_digest(data: &[u8]) -> (r: Vec<u8>)
    ensures
        r@ == sha512_of(data@),
{
    <sha2::Sha512 as sha2::Digest>::digest(data).to_vec()
}

/// `sha2::Sha256::digest`: the SHA-256 digest of `data`. Its result is
/// believed to be `sha256_of(data)`, a function of the bytes alone.
#[verifier::external_body]
fn sha256_digest(data: &[u8]) -> (r: Vec<u8>)
    ensures
        r@ == sha256_of(data@),
{
    <sha2::Sha256 as sha2::Digest>::digest(data).to_vec()
}

/// The lowercase hexadecimal digit for a value below 16.
pub open spec fn hex_digit(n: int) -> char {
    if n < 10 {
        (n + 48) as char
    } else {
        (n - 10 + 97) as char
    }
}

/// Lowercase hexadecimal, two digits per byte, high nibble first.
pub open spec fn hex_lower(b: Seq<u8>) -> Seq<char>
    decreases b.len(),
{
    if b.len() == 0 {
        Seq::empty()
    } else {
        hex_lower(b.drop_last()) + seq![hex_digit(b.last() as int / 16), hex_digit(b.last() as int % 16)]
    }
}

/// `hex::encode`: the claim is that it writes each byte as two lowercase
/// hexadecimal digits, high nibble first (its table is "0123456789abcdef").
#[verifier::external_body]
fn hex_encode(data: &[u8]) -> (r: String)
    ensures
        r@ == hex_lower(data@),
{
    hex::encode(data)
}

/// The code point of `c` with ASCII capitals mapped to small letters.
pub open spec fn folded(c: char) -> int {
    if 'A' <= c && c <= 'Z' {
        c as int + 32
    } else {
        c as int
    }
}

/// `str::eq_ignore_ascii_case`: equal up to the case of ASCII letters (on
/// characters; byte-wise on UTF-8 this is the same, since ASCII folding only
/// touches single-byte characters).
pub open spec fn eq_ignore_ascii_case(a: Seq<char>, b: Seq<char>) -> bool {
    a.len() == b.len() && forall|i: int| 0 <= i < a.len() ==> folded(#[trigger] a[i]) == folded(b[i])
}

/// Why a checksum check failed.
pub enum ChecksumError {
    /// The checksum text holds no digest.
    Empty,
    /// The digest differs from the expected one.
    Mismatch { expected: String, got: String },
}

fn fold_char(c: char) -> (r: u32)
    ensures
        r == folded(c),
{
    let v = c as u32;
    if 'A' <= c && c <= 'Z' {
        v + 32
    } else {
        v
    }
}

/// Whether two strings are equal up to ASCII case.
pub fn str_eq_ignore_ascii_case(a: &str, b: &str) -> (r: bool)
    ensures
        r == eq_ignore_ascii_case(a@, b@),
{
    let x = chars_of(a);
    let y = chars_of(b);
    if x.len() != y.len() {
        return false;
    }
    let mut i: usize = 0;
    while i < x.len()
        invariant
            x@ == a@,
            y@ == b@,
            x.len() == y.len(),
            i <= x.len(),
            forall|j: int| 0 <= j < i ==> folded(#[trigger] x@[j]) == folded(y@[j]),
        decreases x.len() - i,
    {
        if fold_char(x[i]) != fold_char(y[i]) {
            return false;
        }
        i = i + 1;
    }
    true
}

/// Checks `data` against an expected hex SHA-512 digest (any letter case).
pub fn verify_sha512(data: &[u8], expected_hex: &str) -> (r: Result<(), ChecksumError>)
    ensures
        eq_ignore_ascii_case(hex_lower(sha512_of(data@)), expected_hex@) ==> r is Ok,
        !eq_ignore_ascii_case(hex_lower(sha512_of(data@)), expected_hex@) ==> (r matches Err(
            ChecksumError::Mismatch { expected, got },
        ) && expected@ == expected_hex@ && got@ == hex_lower(sha512_of(data@))),
{
    let digest = sha512_digest(data);
    let computed = hex_encode(digest.as_slice());
    if str_eq_ignore_ascii_case(computed.as_str(), expected_hex) {
        Ok(())
    } else {
        Err(ChecksumError::Mismatch { expected: String::from_str(expected_hex), got: computed })
    }
}

/// The index of the first whitespace character of `s`, or its length.
pub open spec fn first_white(s: Seq<char>) -> int
    decreases s.len(),
{
    if s.len() == 0 {
        0
    } else if is_white(s[0]) {
        0
    } else {
        1 + first_white(s.drop_first())
    }
}

/// `s.split_whitespace().next()`: the first run of non-whitespace characters.
pub open spec fn first_token(s: Seq<char>) -> Option<Seq<char>> {
    let t = trim_start(s);
    if t.len() == 0 {
        None
    } else {
        Some(t.take(first_white(t)))
    }
}

/// Characterisation of `first_white`.
proof fn lemma_first_white(s: Seq<char>)
    ensures
        0 <= first_white(s) <= s.len(),
        first_white(s) < s.len() ==> is_white(s[first_white(s)]),
        forall|j: int| 0 <= j < first_white(s) ==> !is_white(#[trigger] s[j]),
    decreases s.len(),
{
    if s.len() > 0 && !is_white(s[0]) {
        lemma_first_white(s.drop_first());
        assert forall|j: int| 0 <= j < first_white(s) implies !is_white(#[trigger] s[j]) by {
            if j > 0 {
                assert(s[j] == s.drop_first()[j - 1]);
            }
        }
    }
}

/// The first whitespace-separated token of `s`.
pub fn first_token_of(s: &str) -> (r: Option<String>)
    ensures
        match first_token(s@) {
            Some(t) => r matches Some(v) && v@ == t,
            None => r is None,
        },
{
    let cs = chars_of(s);
    let mut a: usize = 0;
    assert(cs@.skip(0) =~= cs@);
    while a < cs.len() && char_is_white(cs[a])
        invariant
            a <= cs.len(),
            cs@ == s@,
            trim_start(s@) == trim_start(cs@.skip(a as int)),
        decreases cs.len() - a,
    {
        assert(cs@.skip(a as int).drop_first() =~= cs@.skip(a + 1));
        a = a + 1;
    }
    let ghost t = cs@.skip(a as int);
    assert(trim_start(t) == t);
    if a == cs.len() {
        assert(t.len() == 0);
        return None;
    }
    let mut b: usize = a;
    while b < cs.len() && !char_is_white(cs[b])
        invariant
            a <= b <= cs.len(),
            t == cs@.skip(a as int),
            forall|j: int| a <= j < b ==> !is_white(#[trigger] cs@[j]),
        decreases cs.len() - b,
    {
        b = b + 1;
    }
    proof {
        lemma_first_white(t);
        let f = first_white(t);
        assert(f == b - a) by {
            if f < b - a {
                assert(is_white(t[f]));
                assert(t[f] == cs@[a + f]);
            }
            if f > b - a {
                assert(b < cs.len());
                assert(!is_white(t[b - a]));
                assert(t[b - a] == cs@[b as int]);
            }
        }
    }
    let token = crate::version::sub_chars(cs.as_slice(), a, b);
    assert(token@ =~= t.take(b - a));
    Some(string_from_chars(token.as_slice()))
}

/// Checks `data` against a `sha256sum`-style checksum text, whose first
/// whitespace-separated token is the expected hex digest.
pub fn verify_sha256(data: &[u8], sha_file_contents: &str) -> (r: Result<(), ChecksumError>)
    ensures
        first_token(sha_file_contents@) is None ==> r matches Err(ChecksumError::Empty),
        first_token(sha_file_contents@) matches Some(e) ==> {
            &&& eq_ignore_ascii_case(hex_lower(sha256_of(data@)), e) ==> r is Ok
            &&& !eq_ignore_ascii_case(hex_lower(sha256_of(data@)), e) ==> (r matches Err(
                ChecksumError::Mismatch { expected, got },
            ) && expected@ == e && got@ == hex_lower(sha256_of(data@)))
        },
{
    let expected = match first_token_of(sha_file_contents) {
        Some(e) => e,
        None => return Err(ChecksumError::Empty),
    };
    let digest = sha256_digest(data);
    let computed = hex_encode(digest.as_slice());
    if str_eq_ignore_ascii_case(computed.as_str(), expected.as_str()) {
        Ok(())
    } else {
        Err(ChecksumError::Mismatch { expected, got: computed })
    }
}

} // verus!
