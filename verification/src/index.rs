//! The document directory index: listing markdown files in display
//! order, the case-insensitive stem filter, collision-free naming, and
//! file-name sanitizing.

use vstd::prelude::*;

verus! {

use vstd::slice::slice_to_vec;
use vstd::slice::slice_subrange;
use crate::fs::Fs;
use crate::fs::in_dir;
use crate::fs::join_seq;
use crate::fs::no_slash;
use crate::text::ascii_seq;
use crate::text::ascii_bytes;
use crate::text::lower_seq;
use crate::text::lex_leq;
use crate::text::contains_seq;
use crate::text::is_space;
use crate::text::trim_seq;
use crate::num::dec_digits;
use crate::num::pow10;

/// Bytes that may not appear in a document file name.
pub open spec fn forbidden_byte(b: u8) -> bool {
    b == 60 || b == 62 || b == 58 || b == 34 || b == 47 || b == 92 || b == 124 || b == 63
        || b == 42
}

/// `s` with every forbidden byte replaced by an underscore.
pub open spec fn replaced_seq(s: Seq<u8>) -> Seq<u8> {
    s.map_values(
        |b: u8|
            if forbidden_byte(b) {
                95u8
            } else {
                b
            },
    )
}

/// Number of leading dot bytes.
pub open spec fn leading_dots(s: Seq<u8>) -> int
    decreases s.len(),
{
    if s.len() > 0 && s[0] == 46 {
        1 + leading_dots(s.skip(1))
    } else {
        0
    }
}

/// Number of trailing dot bytes.
pub open spec fn trailing_dots(s: Seq<u8>) -> int
    decreases s.len(),
{
    if s.len() > 0 && s.last() == 46 {
        1 + trailing_dots(s.drop_last())
    } else {
        0
    }
}

/// `s` with dots removed at both ends.
pub open spec fn trim_dots_seq(s: Seq<u8>) -> Seq<u8> {
    s.skip(leading_dots(s)).take(s.len() - leading_dots(s) - trailing_dots(
        s.skip(leading_dots(s)),
    ))
}

proof fn lemma_leading_dots(s: Seq<u8>)
    ensures
        0 <= leading_dots(s) <= s.len(),
        forall|j: int| 0 <= j < leading_dots(s) ==> s[j] == 46,
        leading_dots(s) < s.len() ==> s[leading_dots(s)] != 46,
    decreases s.len(),
{
    if s.len() > 0 && s[0] == 46 {
        lemma_leading_dots(s.skip(1));
        assert forall|j: int| 0 <= j < leading_dots(s) implies s[j] == 46 by {
            if j > 0 {
                assert(s.skip(1)[j - 1] == s[j]);
            }
        }
        if leading_dots(s) < s.len() {
            assert(s.skip(1)[leading_dots(s) - 1] == s[leading_dots(s)]);
        }
    }
}

proof fn lemma_trailing_dots(s: Seq<u8>)
    ensures
        0 <= trailing_dots(s) <= s.len(),
        forall|j: int| s.len() - trailing_dots(s) <= j < s.len() ==> s[j] == 46,
        trailing_dots(s) < s.len() ==> s[s.len() - trailing_dots(s) - 1] != 46,
    decreases s.len(),
{
    if s.len() > 0 && s.last() == 46 {
        lemma_trailing_dots(s.drop_last());
        let d = s.drop_last();
        assert forall|j: int| s.len() - trailing_dots(s) <= j < s.len() implies s[j]
            == 46 by {
            if j < s.len() - 1 {
                assert(d[j] == s[j]);
            }
        }
        if trailing_dots(s) < s.len() {
            assert(d[d.len() - trailing_dots(d) - 1] == s[s.len() - trailing_dots(s) - 1]);
        }
    }
}

/// Removes dots at both ends.
fn trim_dots(s: &[u8]) -> (r: Vec<u8>)
    ensures
        r@ == trim_dots_seq(s@),
{
    let mut a: usize = 0;
    proof {
        lemma_leading_dots(s@);
    }
    while a < s.len() && s[a] == 46
        invariant
            a <= s@.len(),
            a <= leading_dots(s@),
            forall|j: int| 0 <= j < leading_dots(s@) ==> s@[j] == 46,
            leading_dots(s@) < s@.len() ==> s@[leading_dots(s@)] != 46,
        decreases s@.len() - a,
    {
        a = a + 1;
    }
    assert(a == leading_dots(s@));
    let rest = slice_subrange(s, a, s.len());
    proof {
        lemma_trailing_dots(rest@);
    }
    let mut b: usize = rest.len();
    while b > 0 && rest[b - 1] == 46
        invariant
            b <= rest@.len(),
            rest@.len() - b <= trailing_dots(rest@),
            forall|j: int| b <= j < rest@.len() ==> rest@[j] == 46,
            forall|j: int|
                rest@.len() - trailing_dots(rest@) <= j < rest@.len() ==> rest@[j] == 46,
            trailing_dots(rest@) < rest@.len() ==> rest@[rest@.len() - trailing_dots(rest@)
                - 1] != 46,
        decreases b,
    {
        b = b - 1;
    }
    assert(rest@.len() - b == trailing_dots(rest@));
    let out = slice_to_vec(slice_subrange(rest, 0, b));
    assert(out@ =~= trim_dots_seq(s@));
    out
}

/// A sanitized file name: forbidden bytes replaced, whitespace and dots
/// trimmed at the ends.
pub open spec fn sanitize_spec(s: Seq<u8>) -> Seq<u8> {
    trim_dots_seq(trim_seq(replaced_seq(s)))
}

/// Every byte of the sanitized name occurs in the replaced form, so the
/// result holds no path separator.
pub proof fn lemma_sanitize_no_slash(s: Seq<u8>)
    ensures
        no_slash(sanitize_spec(s)),
        sanitize_spec(s).len() <= s.len(),
{
    let rep = replaced_seq(s);
    let t = trim_seq(rep);
    crate::text::lemma_leading_spaces(rep);
    crate::text::lemma_trailing_spaces(rep.skip(crate::text::leading_spaces(rep)));
    lemma_leading_dots(t);
    lemma_trailing_dots(t.skip(leading_dots(t)));
    assert forall|i: int| 0 <= i < sanitize_spec(s).len() implies sanitize_spec(s)[i]
        != 47 by {
        let v = sanitize_spec(s)[i];
        assert(exists|j: int| 0 <= j < rep.len() && rep[j] == v) by {
            let a1 = crate::text::leading_spaces(rep);
            let t0 = rep.skip(a1);
            let a2 = leading_dots(t);
            assert(t[i + a2] == sanitize_spec(s)[i]);
            assert(t0[i + a2] == t[i + a2]);
            assert(rep[i + a2 + a1] == t0[i + a2]);
        }
    }
}

/// Sanitizes a proposed document name.
pub fn sanitize_filename(name: &[u8]) -> (r: Vec<u8>)
    ensures
        r@ == sanitize_spec(name@),
{
    let mut rep: Vec<u8> = Vec::new();
    let mut i: usize = 0;
    while i < name.len()
        invariant
            i <= name@.len(),
            rep@ =~= replaced_seq(name@.take(i as int)),
        decreases name@.len() - i,
    {
        let b = name[i];
        if b == 60 || b == 62 || b == 58 || b == 34 || b == 47 || b == 92 || b == 124 || b
            == 63 || b == 42 {
            rep.push(95);
        } else {
            rep.push(b);
        }
        assert(rep@ =~= replaced_seq(name@.take(i + 1)));
        i = i + 1;
    }
    assert(name@.take(i as int) =~= name@);
    let t = crate::text::trim(rep.as_slice());
    trim_dots(t.as_slice())
}

/// Index of the last dot in `s`.
pub open spec fn last_dot(s: Seq<u8>) -> Option<int>
    decreases s.len(),
{
    if s.len() == 0 {
        None
    } else if s.last() == 46 {
        Some(s.len() - 1)
    } else {
        last_dot(s.drop_last())
    }
}

pub proof fn lemma_last_dot(s: Seq<u8>)
    ensures
        match last_dot(s) {
            Some(i) => 0 <= i < s.len() && s[i] == 46 && forall|j: int|
                i < j < s.len() ==> s[j] != 46,
            None => forall|j: int| 0 <= j < s.len() ==> s[j] != 46,
        },
    decreases s.len(),
{
    if s.len() > 0 && s.last() != 46 {
        lemma_last_dot(s.drop_last());
        let d = s.drop_last();
        assert(forall|j: int| 0 <= j < d.len() ==> d[j] == s[j]);
    }
}

/// Finds the last dot.
pub fn find_last_dot(s: &[u8]) -> (r: Option<usize>)
    ensures
        match r {
            Some(i) => last_dot(s@) == Some(i as int),
            None => last_dot(s@) is None,
        },
{
    let mut b: usize = s.len();
    proof {
        assert(s@.take(s@.len() as int) =~= s@);
    }
    while b > 0
        invariant
            b <= s@.len(),
            last_dot(s@) == last_dot(s@.take(b as int)),
        decreases b,
    {
        if s[b - 1] == 46 {
            proof {
                assert(s@.take(b as int).last() == s@[b - 1]);
            }
            return Some(b - 1);
        }
        proof {
            assert(s@.take(b as int).last() == s@[b - 1]);
            assert(s@.take(b as int).drop_last() =~= s@.take(b - 1));
        }
        b = b - 1;
    }
    None
}

/// A dot followed only by dot-free bytes is the last dot.
pub proof fn lemma_last_dot_at(s: Seq<u8>, p: int)
    requires
        0 <= p < s.len(),
        s[p] == 46,
        forall|j: int| p < j < s.len() ==> s[j] != 46,
    ensures
        last_dot(s) == Some(p),
{
    lemma_last_dot(s);
    match last_dot(s) {
        Some(q) => {
            if q < p {
                assert(s[p] != 46);
            }
            if p < q {
                assert(s[q] != 46);
            }
        },
        None => {
            assert(s[p] != 46);
        },
    }
}

/// True when `name` is a markdown document name: it has an extension,
/// equal to `md` ignoring ASCII case.
pub open spec fn is_md_name(name: Seq<u8>) -> bool {
    match last_dot(name) {
        Some(ld) => ld > 0 && lower_seq(name.skip(ld + 1)) == ascii_seq("md"@),
        None => false,
    }
}

/// Decides `is_md_name`.
pub fn is_markdown_name(name: &[u8]) -> (r: bool)
    ensures
        r == is_md_name(name@),
{
    proof {
        reveal_strlit("md");
    }
    match find_last_dot(name) {
        Some(ld) => {
            proof {
                lemma_last_dot(name@);
                assert(last_dot(name@) == Some(ld as int));
                assert(ld < name@.len());
            }
            if ld == 0 {
                return false;
            }
            let n: usize = name.len();
            let ext = slice_subrange(name, ld + 1, n);
            let low = crate::text::to_lower(ext);
            let md = ascii_bytes("md");
            let r = crate::text::bytes_eq(low.as_slice(), md.as_slice());
            proof {
                if low@ == md@ {
                    assert(lower_seq(name@.skip(ld + 1)) == ascii_seq("md"@));
                }
            }
            r
        },
        None => false,
    }
}

/// The `i`-th candidate name: the name itself for `i == 0`, then
/// `stem (i).ext` for rising `i`.
pub open spec fn candidate(name: Seq<u8>, i: nat) -> Seq<u8> {
    if i == 0 {
        name
    } else {
        let stem = match last_dot(name) {
            Some(ld) => name.take(ld),
            None => name,
        };
        let ext = match last_dot(name) {
            Some(ld) => name.skip(ld),
            None => Seq::<u8>::empty(),
        };
        stem + ascii_seq(" ("@) + dec_digits(i) + ascii_seq(")"@) + ext
    }
}

/// The name `unique_file_name` settles on: the first candidate absent
/// from the directory, or the plain name after too many collisions.
pub open spec fn unique_name_spec(
    files: Map<Seq<u8>, Seq<u8>>,
    dir: Seq<u8>,
    name: Seq<u8>,
    i: nat,
) -> Seq<u8>
    decreases 10000 - i,
    when i <= 10000
{
    if i >= 10000 {
        name
    } else if !files.contains_key(join_seq(dir, candidate(name, i))) {
        candidate(name, i)
    } else {
        unique_name_spec(files, dir, name, i + 1)
    }
}

/// Picks a name for a new file in `dir` that collides with nothing
/// there, starting from the desired `name`; after an unreasonable number
/// of collisions it gives the original name back.
pub fn unique_file_name(fs: &Fs, dir: &[u8], name: &[u8]) -> (r: Vec<u8>)
    requires
        fs.wf(),
        dir@.len() + name@.len() + 10 <= usize::MAX,
    ensures
        r@ == unique_name_spec(fs@.files, dir@, name@, 0),
        r@.len() <= name@.len() + 8,
{
    let stem_end = match find_last_dot(name) {
        Some(ld) => ld,
        None => name.len(),
    };
    proof {
        lemma_last_dot(name@);
    }
    let mut i: u64 = 0;
    while i < 10000
        invariant
            fs.wf(),
            dir@.len() + name@.len() + 10 <= usize::MAX,
            stem_end <= name@.len(),
            i <= 10000,
            unique_name_spec(fs@.files, dir@, name@, 0) == unique_name_spec(
                fs@.files,
                dir@,
                name@,
                i as nat,
            ),
            stem_end as int == (match last_dot(name@) {
                Some(ld) => ld,
                None => name@.len() as int,
            }),
        decreases 10000 - i,
    {
        let cand: Vec<u8> = if i == 0 {
            slice_to_vec(name)
        } else {
            proof {
                reveal_strlit(" (");
                reveal_strlit(")");
                assert(pow10(0) == 1);
                assert(pow10(1) == 10);
                assert(pow10(2) == 100);
                assert(pow10(3) == 1000);
                assert(pow10(4) == 10000);
                crate::storage::lemma_dec_digits_len_bound(i as nat, 4);
            }
            let mut c = slice_to_vec(slice_subrange(name, 0, stem_end));
            let par = ascii_bytes(" (");
            crate::text::push_all(&mut c, par.as_slice());
            let digits = crate::num::u64_to_dec(i);
            crate::text::push_all(&mut c, digits.as_slice());
            let par2 = ascii_bytes(")");
            crate::text::push_all(&mut c, par2.as_slice());
            let ext = slice_subrange(name, stem_end, name.len());
            crate::text::push_all(&mut c, ext);
            proof {
                match last_dot(name@) {
                    Some(ld) => {
                        assert(c@ == candidate(name@, i as nat));
                    },
                    None => {
                        assert(name@.take(name@.len() as int) =~= name@);
                        assert(name@.skip(name@.len() as int) =~= Seq::<u8>::empty());
                        assert(c@ =~= candidate(name@, i as nat));
                    },
                }
            }
            c
        };
        proof {
            assert(cand@ == candidate(name@, i as nat));
        }
        let p = crate::fs::join_path(dir, cand.as_slice());
        if !fs.file_exists(p.as_slice()) {
            return cand;
        }
        i = i + 1;
    }
    slice_to_vec(name)
}


/// True when `s` is the display listing of `dir`: exactly its markdown
/// document names, pairwise distinct, ascending by byte order.
pub open spec fn is_md_listing(m: Map<Seq<u8>, Seq<u8>>, dir: Seq<u8>, s: Seq<Seq<u8>>) -> bool {
    &&& forall|j: int|
        0 <= j < s.len() ==> in_dir(m, dir, #[trigger] s[j]) && is_md_name(s[j])
    &&& forall|name: Seq<u8>|
        in_dir(m, dir, name) && is_md_name(name) ==> exists|j: int|
            0 <= j < s.len() && #[trigger] s[j] == name
    &&& forall|j1: int, j2: int| 0 <= j1 < j2 < s.len() ==> s[j1] != s[j2]
    &&& forall|j1: int, j2: int|
        0 <= j1 < j2 < s.len() ==> lex_leq(#[trigger] s[j1], #[trigger] s[j2])
}

/// The display listing of `dir`. It is well defined: any two listings
/// of the same directory coincide ([`lemma_md_listing_unique`]).
pub open spec fn md_listing(m: Map<Seq<u8>, Seq<u8>>, dir: Seq<u8>) -> Seq<Seq<u8>> {
    choose|s: Seq<Seq<u8>>| is_md_listing(m, dir, s)
}

/// A sorted, duplicate-free enumeration of a set of names is unique.
pub proof fn lemma_md_listing_unique(
    m: Map<Seq<u8>, Seq<u8>>,
    dir: Seq<u8>,
    a: Seq<Seq<u8>>,
    b: Seq<Seq<u8>>,
)
    requires
        is_md_listing(m, dir, a),
        is_md_listing(m, dir, b),
    ensures
        a == b,
{
    let n = if a.len() <= b.len() {
        a.len() as int
    } else {
        b.len() as int
    };
    lemma_listing_eq_upto(m, dir, a, b, n);
    if a.len() < b.len() {
        let x = b[a.len() as int];
        assert(in_dir(m, dir, x) && is_md_name(x));
        let j = choose|j: int| 0 <= j < a.len() && #[trigger] a[j] == x;
        assert(b[j] == a[j]);
        assert(b[j] == b[a.len() as int]);
    }
    if b.len() < a.len() {
        let x = a[b.len() as int];
        assert(in_dir(m, dir, x) && is_md_name(x));
        let j = choose|j: int| 0 <= j < b.len() && #[trigger] b[j] == x;
        assert(a[j] == b[j]);
        assert(a[j] == a[b.len() as int]);
    }
    assert(a =~= b);
}

/// Two listings agree on their first `n` positions.
proof fn lemma_listing_eq_upto(
    m: Map<Seq<u8>, Seq<u8>>,
    dir: Seq<u8>,
    a: Seq<Seq<u8>>,
    b: Seq<Seq<u8>>,
    n: int,
)
    requires
        is_md_listing(m, dir, a),
        is_md_listing(m, dir, b),
        n <= a.len(),
        n <= b.len(),
    ensures
        forall|k: int| 0 <= k < n ==> a[k] == b[k],
    decreases n,
{
    if n > 0 {
        lemma_listing_eq_upto(m, dir, a, b, n - 1);
        let i = n - 1;
        assert(a[i] == b[i]) by {
            assert(in_dir(m, dir, a[i]) && is_md_name(a[i]));
            let j = choose|j: int| 0 <= j < b.len() && #[trigger] b[j] == a[i];
            assert(j >= i) by {
                if j < i {
                    assert(b[j] == a[j]);
                    assert(a[j] == a[i]);
                }
            }
            assert(lex_leq(b[i], a[i])) by {
                if j > i {
                    assert(lex_leq(b[i], b[j]));
                } else {
                    crate::text::lemma_lex_total(b[i], b[i]);
                }
            }
            assert(in_dir(m, dir, b[i]) && is_md_name(b[i]));
            let j2 = choose|j2: int| 0 <= j2 < a.len() && #[trigger] a[j2] == b[i];
            assert(j2 >= i) by {
                if j2 < i {
                    assert(a[j2] == b[j2]);
                    assert(b[j2] == b[i]);
                }
            }
            assert(lex_leq(a[i], b[i])) by {
                if j2 > i {
                    assert(lex_leq(a[i], a[j2]));
                } else {
                    crate::text::lemma_lex_total(a[i], a[i]);
                }
            }
            crate::text::lemma_lex_total(a[i], b[i]);
        }
    }
}

/// The markdown files of `dir`, sorted ascending by name.
pub fn list_markdown_files(fs: &Fs, dir: &[u8]) -> (r: Vec<Vec<u8>>)
    requires
        fs.wf(),
        dir@.len() < usize::MAX,
    ensures
        forall|j: int|
            0 <= j < r@.len() ==> in_dir(fs@.files, dir@, #[trigger] r@[j]@) && is_md_name(
                r@[j]@,
            ),
        forall|name: Seq<u8>|
            in_dir(fs@.files, dir@, name) && is_md_name(name) ==> exists|j: int|
                0 <= j < r@.len() && #[trigger] r@[j]@ == name,
        forall|j1: int, j2: int| 0 <= j1 < j2 < r@.len() ==> r@[j1]@ != r@[j2]@,
        forall|j1: int, j2: int|
            0 <= j1 < j2 < r@.len() ==> lex_leq(#[trigger] r@[j1]@, #[trigger] r@[j2]@),
        forall|j: int|
            0 <= j < r@.len() ==> dir@.len() + 1 + #[trigger] r@[j]@.len() <= usize::MAX,
        r@.map_values(|v: Vec<u8>| v@) == md_listing(fs@.files, dir@),
{
    let names = fs.list_dir(dir);
    let mut md: Vec<Vec<u8>> = Vec::new();
    let mut i: usize = 0;
    while i < names.len()
        invariant
            fs.wf(),
            i <= names@.len(),
            forall|j: int|
                0 <= j < names@.len() ==> in_dir(fs@.files, dir@, #[trigger] names@[j]@),
            forall|name: Seq<u8>|
                in_dir(fs@.files, dir@, name) ==> exists|j: int|
                    0 <= j < names@.len() && #[trigger] names@[j]@ == name,
            forall|j1: int, j2: int| 0 <= j1 < j2 < names@.len() ==> names@[j1]@
                != names@[j2]@,
            forall|j: int|
                0 <= j < names@.len() ==> dir@.len() + 1 + #[trigger] names@[j]@.len()
                    <= usize::MAX,
            forall|j: int|
                0 <= j < md@.len() ==> in_dir(fs@.files, dir@, #[trigger] md@[j]@)
                    && is_md_name(md@[j]@) && dir@.len() + 1 + md@[j]@.len() <= usize::MAX,
            forall|j: int|
                #![trigger md@[j]]
                0 <= j < md@.len() ==> exists|i2: int|
                    0 <= i2 < i && #[trigger] names@[i2]@ == md@[j]@,
            forall|j: int|
                0 <= j < i && is_md_name(#[trigger] names@[j]@) ==> exists|j2: int|
                    0 <= j2 < md@.len() && #[trigger] md@[j2]@ == names@[j]@,
            forall|j1: int, j2: int| 0 <= j1 < j2 < md@.len() ==> md@[j1]@ != md@[j2]@,
        decreases names@.len() - i,
    {
        if is_markdown_name(names[i].as_slice()) {
            let ghost prevm = md@;
            proof {
                assert forall|j: int| 0 <= j < md@.len() implies md@[j]@
                    != names@[i as int]@ by {
                    if md@[j]@ == names@[i as int]@ {
                        let i2 = choose|i2: int|
                            0 <= i2 < i && #[trigger] names@[i2]@ == md@[j]@;
                    }
                }
            }
            md.push(slice_to_vec(names[i].as_slice()));
            proof {
                assert(forall|j: int| 0 <= j < prevm.len() ==> md@[j] == prevm[j]);
                assert(md@[md@.len() - 1]@ == names@[i as int]@);
                assert forall|j: int|
                    0 <= j < i + 1 && is_md_name(#[trigger] names@[j]@) implies exists|
                    j2: int,
                |
                    0 <= j2 < md@.len() && #[trigger] md@[j2]@ == names@[j]@ by {
                    if j == i {
                        assert(md@[md@.len() - 1]@ == names@[j]@);
                    } else {
                        let j2 = choose|j2: int|
                            0 <= j2 < prevm.len() && #[trigger] prevm[j2]@ == names@[j]@;
                        assert(md@[j2] == prevm[j2]);
                    }
                }
            }
        }
        i = i + 1;
    }
    proof {
        assert forall|name: Seq<u8>|
            in_dir(fs@.files, dir@, name) && is_md_name(name) implies exists|j: int|
            0 <= j < md@.len() && #[trigger] md@[j]@ == name by {
            let j = choose|j: int| 0 <= j < names@.len() && #[trigger] names@[j]@ == name;
        }
    }
    let r = sort_names(md);
    let ghost rv = r@.map_values(|v: Vec<u8>| v@);
    proof {
        assert forall|j: int|
            0 <= j < r@.len() implies in_dir(fs@.files, dir@, #[trigger] r@[j]@)
            && is_md_name(r@[j]@) && dir@.len() + 1 + r@[j]@.len() <= usize::MAX by {
            let j2 = choose|j2: int| 0 <= j2 < md@.len() && #[trigger] md@[j2]@ == r@[j]@;
        }
        assert forall|name: Seq<u8>|
            in_dir(fs@.files, dir@, name) && is_md_name(name) implies exists|j: int|
            0 <= j < r@.len() && #[trigger] r@[j]@ == name by {
            let j = choose|j: int| 0 <= j < md@.len() && #[trigger] md@[j]@ == name;
            assert(contains_view(r@, md@[j]@));
            let j2 = choose|j2: int| 0 <= j2 < r@.len() && #[trigger] r@[j2]@ == md@[j]@;
        }
        assert(is_md_listing(fs@.files, dir@, rv)) by {
            assert(forall|j: int| 0 <= j < rv.len() ==> #[trigger] rv[j] == r@[j]@);
            assert forall|name: Seq<u8>|
                in_dir(fs@.files, dir@, name) && is_md_name(name) implies exists|j: int|
                0 <= j < rv.len() && #[trigger] rv[j] == name by {
                let j = choose|j: int| 0 <= j < r@.len() && #[trigger] r@[j]@ == name;
                assert(rv[j] == name);
            }
        }
        lemma_md_listing_unique(fs@.files, dir@, rv, md_listing(fs@.files, dir@));
    }
    r
}

/// True when some element of `s` has the byte string `x` as its view.
pub open spec fn contains_view(s: Seq<Vec<u8>>, x: Seq<u8>) -> bool {
    exists|j: int| 0 <= j < s.len() && #[trigger] s[j]@ == x
}

/// Sorts names ascending by byte order, keeping exactly the same set of
/// (pairwise-distinct) names.
#[verifier::rlimit(40)]
fn sort_names(v: Vec<Vec<u8>>) -> (r: Vec<Vec<u8>>)
    requires
        forall|j1: int, j2: int| 0 <= j1 < j2 < v@.len() ==> v@[j1]@ != v@[j2]@,
    ensures
        r@.len() == v@.len(),
        forall|j: int| 0 <= j < r@.len() ==> contains_view(v@, #[trigger] r@[j]@),
        forall|j: int| 0 <= j < v@.len() ==> contains_view(r@, #[trigger] v@[j]@),
        forall|j1: int, j2: int| 0 <= j1 < j2 < r@.len() ==> r@[j1]@ != r@[j2]@,
        forall|j1: int, j2: int|
            0 <= j1 < j2 < r@.len() ==> lex_leq(#[trigger] r@[j1]@, #[trigger] r@[j2]@),
{
    let mut rem = v;
    let mut out: Vec<Vec<u8>> = Vec::new();
    let ghost orig = rem@;
    proof {
        assert forall|j: int| 0 <= j < orig.len() implies contains_view(
            rem@,
            #[trigger] orig[j]@,
        ) by {
            assert(rem@[j]@ == orig[j]@);
        }
    }
    while rem.len() > 0
        invariant
            out@.len() + rem@.len() == orig.len(),
            forall|j1: int, j2: int| 0 <= j1 < j2 < rem@.len() ==> rem@[j1]@ != rem@[j2]@,
            forall|j1: int, j2: int| 0 <= j1 < j2 < out@.len() ==> out@[j1]@ != out@[j2]@,
            forall|j1: int, j2: int|
                0 <= j1 < out@.len() && 0 <= j2 < rem@.len() ==> out@[j1]@ != rem@[j2]@,
            forall|j: int| 0 <= j < out@.len() ==> contains_view(orig, #[trigger] out@[j]@),
            forall|j: int| 0 <= j < rem@.len() ==> contains_view(orig, #[trigger] rem@[j]@),
            forall|j: int|
                0 <= j < orig.len() ==> contains_view(out@, #[trigger] orig[j]@)
                    || contains_view(rem@, orig[j]@),
            forall|j1: int, j2: int|
                0 <= j1 < j2 < out@.len() ==> lex_leq(
                    #[trigger] out@[j1]@,
                    #[trigger] out@[j2]@,
                ),
            forall|j1: int, j2: int|
                0 <= j1 < out@.len() && 0 <= j2 < rem@.len() ==> lex_leq(
                    #[trigger] out@[j1]@,
                    #[trigger] rem@[j2]@,
                ),
        decreases rem@.len(),
    {
        let mut min: usize = 0;
        let mut k: usize = 1;
        proof {
            crate::text::lemma_lex_total(rem@[0]@, rem@[0]@);
        }
        while k < rem.len()
            invariant
                rem@.len() > 0,
                min < rem@.len(),
                k <= rem@.len(),
                forall|j: int| 0 <= j < k ==> lex_leq(rem@[min as int]@, #[trigger] rem@[j]@),
            decreases rem@.len() - k,
        {
            if crate::text::lex_le(rem[k].as_slice(), rem[min].as_slice()) {
                proof {
                    assert forall|j: int| 0 <= j < k + 1 implies lex_leq(
                        rem@[k as int]@,
                        #[trigger] rem@[j]@,
                    ) by {
                        crate::text::lemma_lex_total(rem@[k as int]@, rem@[k as int]@);
                        if j < k {
                            crate::text::lemma_lex_trans(
                                rem@[k as int]@,
                                rem@[min as int]@,
                                rem@[j]@,
                            );
                        }
                    }
                }
                min = k;
            } else {
                proof {
                    crate::text::lemma_lex_total(rem@[k as int]@, rem@[min as int]@);
                    assert forall|j: int| 0 <= j < k + 1 implies lex_leq(
                        rem@[min as int]@,
                        #[trigger] rem@[j]@,
                    ) by {}
                }
            }
            k = k + 1;
        }
        let ghost prevrem = rem@;
        let ghost prevout = out@;
        let x = rem.remove(min);
        out.push(x);
        proof {
            assert(out@[out@.len() - 1]@ == prevrem[min as int]@);
            assert(forall|j: int| 0 <= j < prevout.len() ==> out@[j] == prevout[j]);
            assert(forall|j: int| 0 <= j < min ==> rem@[j] == prevrem[j]);
            assert(forall|j: int| min <= j < rem@.len() ==> rem@[j] == prevrem[j + 1]);
            assert forall|j: int| 0 <= j < out@.len() implies contains_view(
                orig,
                #[trigger] out@[j]@,
            ) by {
                if j < out@.len() - 1 {
                } else {
                    assert(out@[j]@ == prevrem[min as int]@);
                }
            }
            assert forall|j: int| 0 <= j < rem@.len() implies contains_view(
                orig,
                #[trigger] rem@[j]@,
            ) by {
                if j < min {
                    assert(rem@[j]@ == prevrem[j]@);
                } else {
                    assert(rem@[j]@ == prevrem[j + 1]@);
                }
            }
            assert forall|j: int| 0 <= j < orig.len() implies contains_view(
                out@,
                #[trigger] orig[j]@,
            ) || contains_view(rem@, orig[j]@) by {
                if contains_view(prevout, orig[j]@) {
                    let j2 = choose|j2: int|
                        0 <= j2 < prevout.len() && #[trigger] prevout[j2]@ == orig[j]@;
                    assert(out@[j2]@ == orig[j]@);
                } else if contains_view(prevrem, orig[j]@) {
                    let j2 = choose|j2: int|
                        0 <= j2 < prevrem.len() && #[trigger] prevrem[j2]@ == orig[j]@;
                    if j2 == min {
                        assert(out@[out@.len() - 1]@ == orig[j]@);
                    } else if j2 < min {
                        assert(rem@[j2]@ == orig[j]@);
                    } else {
                        assert(rem@[j2 - 1]@ == orig[j]@);
                    }
                }
            }
            assert forall|j1: int, j2: int|
                0 <= j1 < out@.len() && 0 <= j2 < rem@.len() implies lex_leq(
                #[trigger] out@[j1]@,
                #[trigger] rem@[j2]@,
            ) by {
                let w = if j2 < min {
                    j2
                } else {
                    j2 + 1
                };
                assert(rem@[j2]@ == prevrem[w]@);
                if j1 < out@.len() - 1 {
                    assert(lex_leq(out@[j1]@, prevrem[w]@));
                } else {
                    assert(out@[j1]@ == prevrem[min as int]@);
                    assert(lex_leq(prevrem[min as int]@, prevrem[w]@));
                }
            }
            assert forall|j1: int, j2: int|
                0 <= j1 < out@.len() && 0 <= j2 < rem@.len() implies out@[j1]@
                != rem@[j2]@ by {
                let w = if j2 < min {
                    j2
                } else {
                    j2 + 1
                };
                assert(rem@[j2]@ == prevrem[w]@);
                if j1 < out@.len() - 1 {
                } else {
                    assert(out@[j1]@ == prevrem[min as int]@);
                }
            }
        }
    }
    out
}

/// True when the lower-cased stem of `name` holds the lower-cased
/// `needle`.
pub open spec fn stem_matches(name: Seq<u8>, needle: Seq<u8>) -> bool {
    let stem = match last_dot(name) {
        Some(ld) => if ld > 0 {
            name.take(ld)
        } else {
            name
        },
        None => name,
    };
    contains_seq(lower_seq(stem), lower_seq(needle))
}

/// Narrows a listing to the names whose stem holds `needle`, ignoring
/// ASCII case and keeping the listing's order.
pub fn filter_names(names: &Vec<Vec<u8>>, needle: &[u8]) -> (r: Vec<Vec<u8>>)
    ensures
        r@.map_values(|v: Vec<u8>| v@) == names@.map_values(|v: Vec<u8>| v@).filter(
            |s: Seq<u8>| stem_matches(s, needle@),
        ),
{
    let low_needle = crate::text::to_lower(needle);
    let ghost vs = names@.map_values(|v: Vec<u8>| v@);
    let ghost pred = |s: Seq<u8>| stem_matches(s, needle@);
    let mut r: Vec<Vec<u8>> = Vec::new();
    let mut i: usize = 0;
    proof {
        reveal(Seq::filter);
        assert(vs.take(0) =~= Seq::<Seq<u8>>::empty());
        assert(r@.map_values(|v: Vec<u8>| v@) =~= vs.take(0).filter(pred));
    }
    while i < names.len()
        invariant
            i <= names@.len(),
            low_needle@ == lower_seq(needle@),
            vs == names@.map_values(|v: Vec<u8>| v@),
            pred == (|s: Seq<u8>| stem_matches(s, needle@)),
            r@.map_values(|v: Vec<u8>| v@) == vs.take(i as int).filter(pred),
        decreases names@.len() - i,
    {
        let name = names[i].as_slice();
        proof {
            lemma_last_dot(names@[i as int]@);
        }
        let stem_end: usize = match find_last_dot(name) {
            Some(ld) => if ld > 0 {
                ld
            } else {
                name.len()
            },
            None => name.len(),
        };
        let stem = slice_subrange(name, 0, stem_end);
        let low_stem = crate::text::to_lower(stem);
        let hit = crate::text::contains_sub(low_stem.as_slice(), low_needle.as_slice());
        proof {
            reveal(Seq::filter);
            assert(vs.take(i + 1).drop_last() =~= vs.take(i as int));
            assert(vs.take(i + 1).last() == names@[i as int]@);
            match last_dot(name@) {
                Some(ld) => {
                    if ld > 0 {
                        assert(stem@ =~= name@.take(ld));
                    } else {
                        assert(stem@ =~= name@);
                    }
                },
                None => {
                    assert(stem@ =~= name@);
                },
            }
            assert(hit == pred(names@[i as int]@));
        }
        if hit {
            let ghost prevr = r@;
            r.push(slice_to_vec(name));
            proof {
                assert(r@.map_values(|v: Vec<u8>| v@) =~= prevr.map_values(
                    |v: Vec<u8>| v@,
                ).push(names@[i as int]@));
                assert(r@.map_values(|v: Vec<u8>| v@) =~= vs.take(i + 1).filter(pred));
            }
        } else {
            proof {
                assert(r@.map_values(|v: Vec<u8>| v@) =~= vs.take(i + 1).filter(pred));
            }
        }
        i = i + 1;
    }
    proof {
        assert(vs.take(i as int) =~= vs);
    }
    r
}

} // verus!
