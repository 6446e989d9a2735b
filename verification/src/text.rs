//! Byte-string utilities shared by the codec, the index and the store.
//!
//! All document text and file names are modelled as byte vectors
//! (UTF-8 encoded); the spec functions here give them their meaning.

use vstd::prelude::*;

verus! {

use vstd::string::StrSliceExecFns;
use vstd::string::StringSliceAdditionalSpecFns;
use vstd::slice::slice_to_vec;
use vstd::slice::slice_subrange;

/// The bytes of an ASCII character sequence, one byte per character.
pub open spec fn ascii_seq(s: Seq<char>) -> Seq<u8> {
    Seq::new(s.len(), |i: int| s[i] as u8)
}

/// Bytes of an ASCII string literal, for use in executable code.
pub fn ascii_bytes(s: &str) -> (r: Vec<u8>)
    requires
        s@.len() < usize::MAX,
        vstd::string::is_ascii(s),
    ensures
        r@ == ascii_seq(s@),
{
    proof {
        broadcast use vstd::string::is_ascii_spec_bytes;

    }
    let r = s.as_bytes_vec();
    assert(r@ =~= ascii_seq(s@));
    r
}

/// Bytes of an arbitrary string literal (UTF-8 encoded).
pub fn utf8_bytes(s: &str) -> (r: Vec<u8>)
    ensures
        r@ == s.spec_bytes(),
{
    s.as_bytes_vec()
}

/// Appends all of `s` to `v`.
pub fn push_all(v: &mut Vec<u8>, s: &[u8])
    requires
        old(v)@.len() + s@.len() <= usize::MAX,
    ensures
        final(v)@ == old(v)@ + s@,
{
    v.extend_from_slice(s);
    assert(final(v)@ =~= old(v)@ + s@);
}

/// True when the bytes of `a` and `b` are equal.
pub fn bytes_eq(a: &[u8], b: &[u8]) -> (r: bool)
    ensures
        r == (a@ == b@),
{
    if a.len() != b.len() {
        return false;
    }
    let mut i: usize = 0;
    while i < a.len()
        invariant
            a@.len() == b@.len(),
            i <= a@.len(),
            forall|j: int| 0 <= j < i ==> a@[j] == b@[j],
        decreases a@.len() - i,
    {
        if a[i] != b[i] {
            return false;
        }
        i = i + 1;
    }
    proof {
        assert(a@ =~= b@);
    }
    true
}

/// True when `p` is a prefix of `s`.
pub open spec fn is_prefix(p: Seq<u8>, s: Seq<u8>) -> bool {
    p.len() <= s.len() && s.take(p.len() as int) == p
}

pub fn starts_with(s: &[u8], p: &[u8]) -> (r: bool)
    ensures
        r == is_prefix(p@, s@),
{
    if p.len() > s.len() {
        return false;
    }
    let head = slice_subrange(s, 0, p.len());
    bytes_eq(head, p)
}

/// True when `p` is a suffix of `s`.
pub open spec fn is_suffix(p: Seq<u8>, s: Seq<u8>) -> bool {
    p.len() <= s.len() && s.skip(s.len() - p.len()) == p
}

pub fn ends_with(s: &[u8], p: &[u8]) -> (r: bool)
    ensures
        r == is_suffix(p@, s@),
{
    if p.len() > s.len() {
        return false;
    }
    let tail = slice_subrange(s, s.len() - p.len(), s.len());
    bytes_eq(tail, p)
}

/// True when `p` occurs in `s` starting at index `i`.
pub open spec fn matches_at(s: Seq<u8>, p: Seq<u8>, i: int) -> bool {
    0 <= i && i + p.len() <= s.len() && s.subrange(i, i + p.len()) == p
}

/// True when `p` occurs somewhere in `s`.
pub open spec fn contains_seq(s: Seq<u8>, p: Seq<u8>) -> bool {
    exists|i: int| matches_at(s, p, i)
}

/// First match of `p` in `s`, scanning from the front.
pub fn find_sub(s: &[u8], p: &[u8]) -> (r: Option<usize>)
    ensures
        match r {
            Some(j) => matches_at(s@, p@, j as int) && forall|k: int|
                0 <= k < j ==> !matches_at(s@, p@, k),
            None => !contains_seq(s@, p@),
        },
{
    if p.len() > s.len() {
        return None;
    }
    if p.len() == 0 {
        proof {
            assert(s@.subrange(0, 0) =~= p@);
        }
        return Some(0);
    }
    let bound = s.len() - p.len();
    let mut i: usize = 0;
    while i <= bound
        invariant
            1 <= p@.len() <= s@.len(),
            s@.len() <= usize::MAX,
            bound == s@.len() - p@.len(),
            i <= bound + 1,
            forall|k: int| 0 <= k < i ==> !matches_at(s@, p@, k),
        decreases bound + 1 - i,
    {
        let w = slice_subrange(s, i, i + p.len());
        if bytes_eq(w, p) {
            return Some(i);
        }
        i = i + 1;
    }
    None
}

/// True when `p` occurs somewhere in `s` (executable form).
pub fn contains_sub(s: &[u8], p: &[u8]) -> (r: bool)
    ensures
        r == contains_seq(s@, p@),
{
    let f = find_sub(s, p);
    f.is_some()
}

/// True when `b` is an ASCII decimal digit.
pub open spec fn spec_is_digit(b: u8) -> bool {
    48 <= b <= 57
}

/// ASCII whitespace: space, tab, carriage return, line feed.
pub open spec fn is_space(b: u8) -> bool {
    b == 32 || b == 9 || b == 13 || b == 10
}

/// Number of leading whitespace bytes.
pub open spec fn leading_spaces(s: Seq<u8>) -> int
    decreases s.len(),
{
    if s.len() > 0 && is_space(s[0]) {
        1 + leading_spaces(s.skip(1))
    } else {
        0
    }
}

pub proof fn lemma_leading_spaces(s: Seq<u8>)
    ensures
        0 <= leading_spaces(s) <= s.len(),
        forall|j: int| 0 <= j < leading_spaces(s) ==> is_space(s[j]),
        leading_spaces(s) < s.len() ==> !is_space(s[leading_spaces(s)]),
    decreases s.len(),
{
    if s.len() > 0 && is_space(s[0]) {
        lemma_leading_spaces(s.skip(1));
        assert forall|j: int| 0 <= j < leading_spaces(s) implies is_space(s[j]) by {
            if j > 0 {
                assert(s.skip(1)[j - 1] == s[j]);
            }
        }
        if leading_spaces(s) < s.len() {
            assert(s.skip(1)[leading_spaces(s) - 1] == s[leading_spaces(s)]);
        }
    }
}

/// Number of trailing whitespace bytes.
pub open spec fn trailing_spaces(s: Seq<u8>) -> int
    decreases s.len(),
{
    if s.len() > 0 && is_space(s.last()) {
        1 + trailing_spaces(s.drop_last())
    } else {
        0
    }
}

pub proof fn lemma_trailing_spaces(s: Seq<u8>)
    ensures
        0 <= trailing_spaces(s) <= s.len(),
        forall|j: int| s.len() - trailing_spaces(s) <= j < s.len() ==> is_space(s[j]),
        trailing_spaces(s) < s.len() ==> !is_space(s[s.len() - trailing_spaces(s) - 1]),
    decreases s.len(),
{
    if s.len() > 0 && is_space(s.last()) {
        lemma_trailing_spaces(s.drop_last());
        let d = s.drop_last();
        assert forall|j: int| s.len() - trailing_spaces(s) <= j < s.len() implies is_space(
            s[j],
        ) by {
            if j < s.len() - 1 {
                assert(d[j] == s[j]);
            }
        }
        if trailing_spaces(s) < s.len() {
            assert(d[d.len() - trailing_spaces(d) - 1] == s[s.len() - trailing_spaces(s) - 1]);
        }
    }
}

/// `s` with leading whitespace removed.
pub open spec fn trim_start_seq(s: Seq<u8>) -> Seq<u8> {
    s.skip(leading_spaces(s))
}

/// `s` with trailing whitespace removed.
pub open spec fn trim_end_seq(s: Seq<u8>) -> Seq<u8> {
    s.take(s.len() - trailing_spaces(s))
}

/// `s` with whitespace removed at both ends.
pub open spec fn trim_seq(s: Seq<u8>) -> Seq<u8> {
    trim_end_seq(trim_start_seq(s))
}

pub fn trim_start(s: &[u8]) -> (r: Vec<u8>)
    ensures
        r@ == trim_start_seq(s@),
{
    let mut a: usize = 0;
    proof {
        lemma_leading_spaces(s@);
    }
    while a < s.len() && (s[a] == 32 || s[a] == 9 || s[a] == 13 || s[a] == 10)
        invariant
            a <= s@.len(),
            a <= leading_spaces(s@),
            forall|j: int| 0 <= j < a ==> is_space(s@[j]),
            forall|j: int| 0 <= j < leading_spaces(s@) ==> is_space(s@[j]),
            leading_spaces(s@) < s@.len() ==> !is_space(s@[leading_spaces(s@)]),
        decreases s@.len() - a,
    {
        a = a + 1;
    }
    assert(a == leading_spaces(s@));
    slice_to_vec(slice_subrange(s, a, s.len()))
}

pub fn trim_end(s: &[u8]) -> (r: Vec<u8>)
    ensures
        r@ == trim_end_seq(s@),
{
    let mut b: usize = s.len();
    proof {
        lemma_trailing_spaces(s@);
    }
    while b > 0 && (s[b - 1] == 32 || s[b - 1] == 9 || s[b - 1] == 13 || s[b - 1] == 10)
        invariant
            b <= s@.len(),
            s@.len() - b <= trailing_spaces(s@),
            forall|j: int| b <= j < s@.len() ==> is_space(s@[j]),
            forall|j: int| s@.len() - trailing_spaces(s@) <= j < s@.len() ==> is_space(s@[j]),
            trailing_spaces(s@) < s@.len() ==> !is_space(
                s@[s@.len() - trailing_spaces(s@) - 1],
            ),
        decreases b,
    {
        b = b - 1;
    }
    assert(s@.len() - b == trailing_spaces(s@));
    slice_to_vec(slice_subrange(s, 0, b))
}

pub fn trim(s: &[u8]) -> (r: Vec<u8>)
    ensures
        r@ == trim_seq(s@),
{
    let t = trim_start(s);
    trim_end(t.as_slice())
}

/// Lower-cases an ASCII letter; leaves every other byte unchanged.
pub open spec fn lower_byte(b: u8) -> u8 {
    if 65 <= b <= 90 {
        (b + 32) as u8
    } else {
        b
    }
}

/// ASCII lower-casing of a whole byte sequence.
pub open spec fn lower_seq(s: Seq<u8>) -> Seq<u8> {
    s.map_values(|b: u8| lower_byte(b))
}

pub fn to_lower(s: &[u8]) -> (r: Vec<u8>)
    ensures
        r@ == lower_seq(s@),
{
    let mut r: Vec<u8> = Vec::new();
    let mut i: usize = 0;
    while i < s.len()
        invariant
            i <= s@.len(),
            r@ =~= lower_seq(s@.take(i as int)),
        decreases s@.len() - i,
    {
        let b = s[i];
        if 65 <= b && b <= 90 {
            r.push(b + 32);
        } else {
            r.push(b);
        }
        assert(r@ =~= lower_seq(s@.take(i + 1)));
        i = i + 1;
    }
    assert(s@.take(i as int) =~= s@);
    r
}

/// Byte-wise lexicographic order.
pub open spec fn lex_leq(a: Seq<u8>, b: Seq<u8>) -> bool
    decreases a.len(),
{
    if a.len() == 0 {
        true
    } else if b.len() == 0 {
        false
    } else if a[0] < b[0] {
        true
    } else if a[0] > b[0] {
        false
    } else {
        lex_leq(a.skip(1), b.skip(1))
    }
}

pub proof fn lemma_lex_total(a: Seq<u8>, b: Seq<u8>)
    ensures
        lex_leq(a, b) || lex_leq(b, a),
        (lex_leq(a, b) && lex_leq(b, a)) ==> a == b,
    decreases a.len(),
{
    if a.len() == 0 {
        if b.len() == 0 {
            assert(a =~= b);
        }
    } else if b.len() == 0 {
    } else if a[0] == b[0] {
        lemma_lex_total(a.skip(1), b.skip(1));
        if lex_leq(a, b) && lex_leq(b, a) {
            assert(a.skip(1) == b.skip(1));
            assert(a.len() == b.len());
            assert forall|j: int| 0 <= j < a.len() implies a[j] == b[j] by {
                if j > 0 {
                    assert(a.skip(1)[j - 1] == a[j]);
                    assert(b.skip(1)[j - 1] == b[j]);
                }
            }
            assert(a =~= b);
        }
    }
}

pub proof fn lemma_lex_trans(a: Seq<u8>, b: Seq<u8>, c: Seq<u8>)
    requires
        lex_leq(a, b),
        lex_leq(b, c),
    ensures
        lex_leq(a, c),
    decreases a.len(),
{
    if a.len() == 0 || b.len() == 0 || c.len() == 0 {
    } else if a[0] == b[0] && b[0] == c[0] {
        lemma_lex_trans(a.skip(1), b.skip(1), c.skip(1));
    }
}

pub fn lex_le(a: &[u8], b: &[u8]) -> (r: bool)
    ensures
        r == lex_leq(a@, b@),
{
    let mut i: usize = 0;
    proof {
        assert(a@.skip(0) =~= a@);
        assert(b@.skip(0) =~= b@);
    }
    loop
        invariant
            i <= a@.len(),
            i <= b@.len(),
            forall|j: int| 0 <= j < i ==> a@[j] == b@[j],
            lex_leq(a@, b@) == lex_leq(a@.skip(i as int), b@.skip(i as int)),
        decreases a@.len() - i,
    {
        if i >= a.len() {
            assert(a@.skip(i as int).len() == 0);
            return true;
        }
        if i >= b.len() {
            assert(b@.skip(i as int).len() == 0);
            assert(a@.skip(i as int).len() > 0);
            return false;
        }
        let x = a[i];
        let y = b[i];
        assert(a@.skip(i as int)[0] == x);
        assert(b@.skip(i as int)[0] == y);
        if x < y {
            return true;
        }
        if x > y {
            return false;
        }
        assert(a@.skip(i as int).skip(1) =~= a@.skip(i + 1));
        assert(b@.skip(i as int).skip(1) =~= b@.skip(i + 1));
        i = i + 1;
    }
}

} // verus!
