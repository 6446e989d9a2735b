//! Front-matter framing: a metadata block between `---` delimiter lines,
//! followed by free body text.
//!
//! Parsing accepts a leading byte-order mark, bare or CRLF line endings
//! around the delimiters, and returns the body trimmed; a block that
//! does not parse yields no metadata rather than an error. Serializing
//! writes the canonical form, which parsing maps back exactly
//! ([`lemma_round_trip`]).

use vstd::prelude::*;

verus! {

use vstd::slice::slice_to_vec;
use vstd::slice::slice_subrange;
use crate::text::ascii_seq;
use crate::text::ascii_bytes;
use crate::text::is_prefix;
use crate::text::is_space;
use crate::text::trim_seq;
use crate::text::leading_spaces;
use crate::text::trailing_spaces;
use crate::text::trim_start_seq;
use crate::text::trim_end_seq;
use crate::domain::ProjectMeta;
use crate::domain::MetaView;
use crate::domain::RawMeta;
use crate::domain::raw_empty;
use crate::domain::meta_wf;
use crate::domain::kv_line;
use crate::domain::line_safe;
use crate::domain::line_end;
use crate::domain::lemma_line_end;
use crate::domain::scan_line;
use crate::domain::scan_lines;
use crate::domain::spec_meta_block;
use crate::domain::spec_meta_tail;
use crate::domain::spec_parse_meta;
use crate::num::dec_digits;

/// The UTF-8 byte-order mark.
pub open spec fn bom() -> Seq<u8> {
    seq![0xEFu8, 0xBBu8, 0xBFu8]
}

/// `s` without a leading byte-order mark.
pub open spec fn strip_bom(s: Seq<u8>) -> Seq<u8> {
    if is_prefix(bom(), s) {
        s.skip(3)
    } else {
        s
    }
}

/// Length of the opening delimiter line, when present.
pub open spec fn open_len(s: Seq<u8>) -> Option<int> {
    if is_prefix(ascii_seq("---\n"@), s) {
        Some(4)
    } else if is_prefix(ascii_seq("---\r\n"@), s) {
        Some(5)
    } else {
        None
    }
}

/// True when the closing delimiter line starts at `i`: a line feed, the
/// three dashes, and a line ending.
pub open spec fn fm_end_at(s: Seq<u8>, i: int) -> bool {
    &&& 0 <= i
    &&& i + 5 <= s.len()
    &&& s[i] == 10
    &&& s[i + 1] == 45
    &&& s[i + 2] == 45
    &&& s[i + 3] == 45
    &&& (s[i + 4] == 10 || (s[i + 4] == 13 && i + 6 <= s.len() && s[i + 5] == 10))
}

/// Byte length of the closing delimiter at `i`.
pub open spec fn fm_delim_len(s: Seq<u8>, i: int) -> int {
    if s[i + 4] == 10 {
        5
    } else {
        6
    }
}

/// First closing delimiter at or after `i`.
pub open spec fn find_fm_end(s: Seq<u8>, i: int) -> Option<int>
    decreases s.len() + 1 - i,
    when 0 <= i
{
    if i + 5 > s.len() {
        None
    } else if fm_end_at(s, i) {
        Some(i)
    } else {
        find_fm_end(s, i + 1)
    }
}

pub proof fn lemma_find_fm_end(s: Seq<u8>, i: int)
    requires
        0 <= i,
    ensures
        match find_fm_end(s, i) {
            Some(j) => fm_end_at(s, j) && i <= j && forall|k: int|
                i <= k < j ==> !fm_end_at(s, k),
            None => forall|k: int| k >= i ==> !fm_end_at(s, k),
        },
    decreases s.len() + 1 - i,
{
    if i + 5 > s.len() {
        assert forall|k: int| k >= i implies !fm_end_at(s, k) by {}
    } else if fm_end_at(s, i) {
    } else {
        lemma_find_fm_end(s, i + 1);
    }
}

/// The first delimiter, characterized directly, is what `find_fm_end`
/// returns.
pub proof fn lemma_first_fm_end(s: Seq<u8>, j: int)
    requires
        fm_end_at(s, j),
        forall|k: int| 0 <= k < j ==> !fm_end_at(s, k),
    ensures
        find_fm_end(s, 0) == Some(j),
{
    lemma_find_fm_end(s, 0);
    match find_fm_end(s, 0) {
        Some(j2) => {
            if j2 < j {
                assert(!fm_end_at(s, j2));
            }
            if j < j2 {
                assert(!fm_end_at(s, j));
            }
        },
        None => {
            assert(!fm_end_at(s, j));
        },
    }
}

/// What parsing splits raw text into: the metadata block (if the text
/// opens with a front-matter block) and the body.
pub open spec fn spec_parse_front_matter(s: Seq<u8>) -> (Option<MetaView>, Seq<u8>) {
    let s1 = strip_bom(s);
    match open_len(s1) {
        None => (None, s1),
        Some(o) => {
            let rest = s1.skip(o);
            match find_fm_end(rest, 0) {
                None => (None, s1),
                Some(i) => (
                    spec_parse_meta(rest.take(i + 1)),
                    trim_seq(rest.skip(i + fm_delim_len(rest, i))),
                ),
            }
        },
    }
}

/// The canonical serialized form: delimited metadata block, a blank
/// line, then the trimmed body and a final newline.
pub open spec fn spec_serialize(m: MetaView, body: Seq<u8>) -> Seq<u8> {
    ascii_seq("---\n"@) + spec_meta_block(m) + ascii_seq("---\n\n"@) + trim_seq(body) + seq![
        10u8,
    ]
}

/// Serializes metadata and body into one document.
pub fn serialize_front_matter(m: &ProjectMeta, body: &[u8]) -> (r: Vec<u8>)
    requires
        m@.name.len() + (match m@.update_url {
            Some(u) => u.len() as int,
            None => 0int,
        }) + (match m@.theme {
            Some(t) => t.len() as int,
            None => 0int,
        }) + body@.len() + 300 <= usize::MAX,
    ensures
        r@ == spec_serialize(m@, body@),
{
    proof {
        reveal_strlit("---\n");
        reveal_strlit("---\n\n");
    }
    let mut out = ascii_bytes("---\n");
    let block = crate::domain::serialize_meta_block(m);
    proof {
        lemma_meta_block_len(m@);
    }
    crate::text::push_all(&mut out, block.as_slice());
    let close = ascii_bytes("---\n\n");
    crate::text::push_all(&mut out, close.as_slice());
    let t = crate::text::trim(body);
    proof {
        crate::text::lemma_leading_spaces(body@);
        crate::text::lemma_trailing_spaces(trim_start_seq(body@));
    }
    crate::text::push_all(&mut out, t.as_slice());
    out.push(10);
    proof {
        assert(out@ =~= spec_serialize(m@, body@));
    }
    out
}

/// The serialized block is no longer than its fields plus the fixed
/// framing.
pub proof fn lemma_meta_block_len(m: MetaView)
    ensures
        spec_meta_block(m).len() <= m.name.len() + (match m.update_url {
            Some(u) => u.len() as int,
            None => 0int,
        }) + (match m.theme {
            Some(t) => t.len() as int,
            None => 0int,
        }) + 200,
{
    reveal_strlit("name");
    reveal_strlit("created_unix");
    reveal_strlit("format_version");
    reveal_strlit("update_url");
    reveal_strlit("theme");
    reveal_strlit("left_pane_permille");
    reveal_strlit(": ");
    crate::storage::lemma_dec_digits_len_u64(m.created_unix);
    crate::storage::lemma_dec_digits_len_u64(m.format_version as u64);
    match m.left_pane_permille {
        Some(p) => {
            crate::storage::lemma_dec_digits_len_u64(p as u64);
            assert(p as u64 as nat == p as nat);
        },
        None => {},
    }
    assert(m.format_version as u64 as nat == m.format_version as nat);
}

/// Parses a document into metadata and body.
pub fn parse_front_matter(s: &[u8]) -> (r: (Option<ProjectMeta>, Vec<u8>))
    ensures
        ({
            let (sm, sb) = spec_parse_front_matter(s@);
            &&& (match r.0 {
                Some(m) => sm == Some(m@),
                None => sm is None,
            })
            &&& r.1@ == sb
        }),
{
    proof {
        reveal_strlit("---\n");
        reveal_strlit("---\r\n");
    }
    let mut bom_bytes: Vec<u8> = Vec::new();
    bom_bytes.push(0xEF);
    bom_bytes.push(0xBB);
    bom_bytes.push(0xBF);
    proof {
        assert(bom_bytes@ =~= bom());
    }
    let s1: &[u8] = if crate::text::starts_with(s, bom_bytes.as_slice()) {
        slice_subrange(s, 3, s.len())
    } else {
        s
    };
    proof {
        assert(s1@ == strip_bom(s@));
    }
    let open4 = ascii_bytes("---\n");
    let open5 = ascii_bytes("---\r\n");
    let o: usize = if crate::text::starts_with(s1, open4.as_slice()) {
        4
    } else if crate::text::starts_with(s1, open5.as_slice()) {
        5
    } else {
        return (None, slice_to_vec(s1));
    };
    proof {
        assert(open_len(s1@) == Some(o as int));
    }
    let rest = slice_subrange(s1, o, s1.len());
    proof {
        assert(rest@ == s1@.skip(o as int));
    }
    let found = scan_fm_end(rest);
    let j = match found {
        Some(j) => j,
        None => {
            proof {
                lemma_find_fm_end(rest@, 0);
                if find_fm_end(rest@, 0) is Some {
                    let w = find_fm_end(rest@, 0).unwrap();
                    assert(!fm_end_at(rest@, w));
                }
            }
            return (None, slice_to_vec(s1));
        },
    };
    proof {
        lemma_first_fm_end(rest@, j as int);
    }
    let block = slice_subrange(rest, 0, j + 1);
    let dlen: usize = if rest[j + 4] == 10 {
        5
    } else {
        6
    };
    proof {
        assert(dlen as int == fm_delim_len(rest@, j as int));
    }
    let body_raw = slice_subrange(rest, j + dlen, rest.len());
    let body = crate::text::trim(body_raw);
    let meta = crate::domain::parse_meta_block(block);
    proof {
        assert(block@ == rest@.take(j + 1));
        assert(body_raw@ == rest@.skip(j + dlen));
    }
    (meta, body)
}


/// Scans for the first closing delimiter.
fn scan_fm_end(rest: &[u8]) -> (found: Option<usize>)
    ensures
        match found {
            Some(j) => fm_end_at(rest@, j as int) && forall|k: int|
                0 <= k < j ==> !fm_end_at(rest@, k),
            None => forall|k: int| 0 <= k ==> !fm_end_at(rest@, k),
        },
{
    if rest.len() < 5 {
        proof {
            assert forall|k: int| 0 <= k implies !fm_end_at(rest@, k) by {}
        }
        return None;
    }
    let bound = rest.len() - 5;
    let mut i: usize = 0;
    while i <= bound
        invariant
            rest@.len() <= usize::MAX,
            5 <= rest@.len(),
            bound == rest@.len() - 5,
            i <= bound + 1,
            forall|k: int| 0 <= k < i ==> !fm_end_at(rest@, k),
        decreases bound + 1 - i,
    {
        if rest[i] == 10 && rest[i + 1] == 45 && rest[i + 2] == 45 && rest[i + 3] == 45 {
            if rest[i + 4] == 10 {
                return Some(i);
            }
            if rest[i + 4] == 13 && rest.len() - i >= 6 && rest[i + 5] == 10 {
                return Some(i);
            }
        }
        proof {
            assert(!fm_end_at(rest@, i as int));
        }
        i = i + 1;
    }
    proof {
        assert forall|k: int| 0 <= k implies !fm_end_at(rest@, k) by {
            if k > bound {
                assert(k + 5 > rest@.len());
            }
        }
    }
    None
}

/// The trimmed form of a sequence starts and ends with non-whitespace.
pub proof fn lemma_trim_result_trimmed(s: Seq<u8>)
    ensures
        trim_seq(s).len() > 0 ==> !is_space(trim_seq(s)[0]),
        trim_seq(s).len() > 0 ==> !is_space(trim_seq(s).last()),
{
    let a = trim_start_seq(s);
    crate::text::lemma_leading_spaces(s);
    crate::text::lemma_trailing_spaces(a);
    let t = trim_seq(s);
    if t.len() > 0 {
        assert(t[0] == a[0]);
        assert(a[0] == s[leading_spaces(s)]);
        assert(t.last() == a[a.len() - trailing_spaces(a) - 1]);
    }
}

/// Trimming is unchanged by surrounding line feeds.
pub proof fn lemma_trim_wrap(t: Seq<u8>)
    requires
        t.len() > 0 ==> !is_space(t[0]),
        t.len() > 0 ==> !is_space(t.last()),
    ensures
        trim_seq(seq![10u8] + t + seq![10u8]) == t,
{
    let w = seq![10u8] + t + seq![10u8];
    if t.len() == 0 {
        assert(w =~= seq![10u8, 10u8]);
        assert(is_space(10));
        assert(leading_spaces(w) == 2) by {
            assert(w.skip(1) =~= seq![10u8]);
            assert(w.skip(1).skip(1) =~= Seq::<u8>::empty());
            assert(leading_spaces(Seq::<u8>::empty()) == 0);
            assert(w.skip(1)[0] == 10);
            assert(leading_spaces(w.skip(1)) == 1 + leading_spaces(w.skip(1).skip(1)));
            assert(w[0] == 10);
        }
        assert(trim_start_seq(w) =~= Seq::<u8>::empty());
        assert(trailing_spaces(Seq::<u8>::empty()) == 0);
        assert(trim_seq(w) =~= t);
    } else {
        assert(w[0] == 10 && is_space(w[0]));
        assert(w.skip(1) =~= t + seq![10u8]);
        assert((t + seq![10u8])[0] == t[0]);
        assert(leading_spaces(t + seq![10u8]) == 0);
        assert(leading_spaces(w) == 1);
        assert(trim_start_seq(w) =~= t + seq![10u8]);
        let a = t + seq![10u8];
        assert(a.last() == 10 && is_space(a.last()));
        assert(a.drop_last() =~= t);
        assert(trailing_spaces(t) == 0);
        assert(trailing_spaces(a) == 1);
        assert(trim_end_seq(a) =~= t);
    }
}


/// `line_end` finds exactly the first line feed.
pub proof fn lemma_line_end_at(s: Seq<u8>, p: int)
    requires
        0 <= p < s.len(),
        s[p] == 10,
        forall|j: int| 0 <= j < p ==> s[j] != 10,
    ensures
        line_end(s) == p,
{
    lemma_line_end(s);
    if line_end(s) < p {
        assert(s[line_end(s) as int] == 10);
    }
    if line_end(s) > p {
        assert(s[p] != 10);
    }
}

/// Scanning a block that opens with one full `key: value` line records
/// that line and goes on with the remainder.
pub proof fn lemma_scan_chunk(k: Seq<u8>, v: Seq<u8>, rest: Seq<u8>, acc: RawMeta)
    requires
        k.len() > 0,
        forall|j: int| 0 <= j < k.len() ==> k[j] != 10,
        line_safe(v),
    ensures
        scan_lines(kv_line(k, v) + rest, acc) == scan_lines(
            rest,
            scan_line(k + ascii_seq(": "@) + v, acc),
        ),
{
    reveal_strlit(": ");
    let u = k + ascii_seq(": "@) + v;
    let s = kv_line(k, v) + rest;
    assert(ascii_seq(": "@).len() == 2);
    assert(ascii_seq(": "@)[0] == 58);
    assert(ascii_seq(": "@)[1] == 32);
    assert(s =~= u + seq![10u8] + rest);
    assert(s[u.len() as int] == 10);
    assert forall|j: int| 0 <= j < u.len() implies s[j] != 10 by {
        assert(s[j] == u[j]);
        if j < k.len() {
            assert(u[j] == k[j]);
        } else if j < k.len() + 2 {
            assert(u[j] == ascii_seq(": "@)[j - k.len()]);
        } else {
            assert(u[j] == v[j - k.len() - 2]);
        }
    }
    lemma_line_end_at(s, u.len() as int);
    assert(s.take(u.len() as int) =~= u);
    assert(s.skip(u.len() + 1 as int) =~= rest);
    assert(line_end(s) < s.len());
}

/// One metadata line holds no line feed and does not end in a carriage
/// return, so `scan_line` reads it as it stands.
pub proof fn lemma_kv_operand(k: Seq<u8>, v: Seq<u8>)
    requires
        k.len() > 0,
        line_safe(v),
    ensures
        (k + ascii_seq(": "@) + v).len() > 0,
        (k + ascii_seq(": "@) + v).last() != 13,
        (k + ascii_seq(": "@) + v).skip(k.len() + 2 as int) == v,
{
    reveal_strlit(": ");
    let u = k + ascii_seq(": "@) + v;
    assert(ascii_seq(": "@).len() == 2);
    if v.len() > 0 {
        assert(u.last() == v.last());
    } else {
        assert(u.last() == ascii_seq(": "@)[1]);
        assert(ascii_seq(": "@)[1] == 32);
    }
    assert(u.skip(k.len() + 2 as int) =~= v);
}

/// No line feed within a block line is followed by a dash.
pub open spec fn fm_clean(b: Seq<u8>) -> bool {
    forall|p: int| 0 <= p < b.len() - 1 && #[trigger] b[p] == 10 ==> b[p + 1] != 45
}

/// Concatenating clean newline-terminated pieces stays clean, provided
/// the right piece does not open with a dash.
pub proof fn lemma_clean_concat(a: Seq<u8>, b: Seq<u8>)
    requires
        fm_clean(a),
        fm_clean(b),
        b.len() > 0 ==> b[0] != 45,
        a.len() > 0 ==> a.last() == 10,
        b.len() > 0 ==> b.last() == 10,
    ensures
        fm_clean(a + b),
        (a + b).len() > 0 ==> (a + b).last() == 10,
{
    let c = a + b;
    if b.len() > 0 {
        assert(c.len() > 0 && c.last() == b.last());
    } else {
        assert(c =~= a);
    }
    assert forall|p: int| 0 <= p < c.len() - 1 && #[trigger] c[p] == 10 implies c[p + 1] != 45 by {
        if p < a.len() - 1 {
            assert(c[p] == a[p] && c[p + 1] == a[p + 1]);
        } else if p == a.len() - 1 {
            assert(c[p + 1] == b[0]);
        } else {
            assert(c[p] == b[p - a.len()] && c[p + 1] == b[p + 1 - a.len()]);
        }
    }
}

/// A single metadata line is clean.
pub proof fn lemma_kv_clean(k: Seq<u8>, v: Seq<u8>)
    requires
        k.len() > 0,
        forall|j: int| 0 <= j < k.len() ==> k[j] != 10,
        line_safe(v),
    ensures
        fm_clean(kv_line(k, v)),
        kv_line(k, v).last() == 10,
        kv_line(k, v)[0] == k[0],
        kv_line(k, v).len() > 0,
{
    reveal_strlit(": ");
    let u = k + ascii_seq(": "@) + v;
    let l = kv_line(k, v);
    assert(ascii_seq(": "@).len() == 2);
    assert(ascii_seq(": "@)[0] == 58);
    assert(ascii_seq(": "@)[1] == 32);
    assert(l =~= u + seq![10u8]);
    assert(l.last() == 10);
    assert(l[0] == k[0]);
    assert forall|p: int| 0 <= p < l.len() - 1 && #[trigger] l[p] == 10 implies l[p + 1] != 45 by {
        assert(l[p] == u[p]);
        if p < k.len() {
            assert(u[p] == k[p]);
        } else if p < k.len() + 2 {
            assert(u[p] == ascii_seq(": "@)[p - k.len()]);
        } else {
            assert(u[p] == v[p - k.len() - 2]);
        }
    }
}

/// The six keys hold no line feed and open with their distinct first
/// letters.
proof fn lemma_keys_clean()
    ensures
        key_ok(ascii_seq("name"@), 110),
        key_ok(ascii_seq("created_unix"@), 99),
        key_ok(ascii_seq("format_version"@), 102),
        key_ok(ascii_seq("update_url"@), 117),
        key_ok(ascii_seq("theme"@), 116),
        key_ok(ascii_seq("left_pane_permille"@), 108),
{
    reveal_strlit("name");
    reveal_strlit("created_unix");
    reveal_strlit("format_version");
    reveal_strlit("update_url");
    reveal_strlit("theme");
    reveal_strlit("left_pane_permille");
}

/// A key is nonempty, free of line feeds, and opens with byte `first`.
pub open spec fn key_ok(k: Seq<u8>, first: u8) -> bool {
    k.len() > 0 && k[0] == first && first != 45 && (forall|j: int|
        0 <= j < k.len() ==> k[j] != 10)
}

/// Decimal digit strings sit on one line.
proof fn lemma_digits_line_safe(n: nat)
    ensures
        line_safe(dec_digits(n)),
{
    crate::num::lemma_dec_digits(n);
    assert forall|i: int|
        0 <= i < dec_digits(n).len() implies dec_digits(n)[i] != 10 && dec_digits(n)[i]
        != 13 by {
        assert(crate::text::spec_is_digit(dec_digits(n)[i]));
    }
}

/// The raw fields that scanning a canonical block yields.
pub open spec fn raw_of_meta(m: MetaView) -> RawMeta {
    RawMeta {
        name: Some(m.name),
        created_unix: Some(dec_digits(m.created_unix as nat)),
        format_version: Some(dec_digits(m.format_version as nat)),
        update_url: m.update_url,
        theme: m.theme,
        left_pane_permille: match m.left_pane_permille {
            Some(p) => Some(dec_digits(p as nat)),
            None => None,
        },
    }
}

/// Scanning the canonical block recovers every field.
pub proof fn lemma_meta_scan(m: MetaView)
    requires
        meta_wf(m),
    ensures
        scan_lines(spec_meta_block(m), raw_empty()) == raw_of_meta(m),
{
    reveal_strlit(": ");
    reveal_strlit("name: ");
    reveal_strlit("created_unix: ");
    reveal_strlit("format_version: ");
    reveal_strlit("update_url: ");
    reveal_strlit("theme: ");
    reveal_strlit("left_pane_permille: ");
    lemma_keys_clean();
    let k1 = ascii_seq("name"@);
    let k2 = ascii_seq("created_unix"@);
    let k3 = ascii_seq("format_version"@);
    let k4 = ascii_seq("update_url"@);
    let k5 = ascii_seq("theme"@);
    let k6 = ascii_seq("left_pane_permille"@);
    let v2 = dec_digits(m.created_unix as nat);
    let v3 = dec_digits(m.format_version as nat);
    lemma_digits_line_safe(m.created_unix as nat);
    lemma_digits_line_safe(m.format_version as nat);
    let acc0 = raw_empty();
    let rest1 = kv_line(k2, v2) + (kv_line(k3, v3) + spec_meta_tail(m));
    lemma_scan_chunk(k1, m.name, rest1, acc0);
    let acc1 = scan_one(k1, m.name, acc0);
    let rest2 = kv_line(k3, v3) + spec_meta_tail(m);
    lemma_scan_chunk(k2, v2, rest2, acc1);
    let acc2 = scan_one(k2, v2, acc1);
    lemma_scan_chunk(k3, v3, spec_meta_tail(m), acc2);
    let acc3 = scan_one(k3, v3, acc2);
    lemma_eval_line(k1, m.name, acc0);
    lemma_eval_line(k2, v2, acc1);
    lemma_eval_line(k3, v3, acc2);
    assert(acc3 == RawMeta {
        name: Some(m.name),
        created_unix: Some(v2),
        format_version: Some(v3),
        update_url: acc0.update_url,
        theme: acc0.theme,
        left_pane_permille: acc0.left_pane_permille,
    });
    let theme_then = (match m.theme {
        Some(t) => kv_line(k5, t),
        None => Seq::<u8>::empty(),
    }) + (match m.left_pane_permille {
        Some(p) => kv_line(k6, dec_digits(p as nat)),
        None => Seq::<u8>::empty(),
    });
    let acc4 = match m.update_url {
        Some(u) => scan_one(k4, u, acc3),
        None => acc3,
    };
    match m.update_url {
        Some(u) => {
            lemma_scan_chunk(k4, u, theme_then, acc3);
            lemma_eval_line(k4, u, acc3);
        },
        None => {
            assert(spec_meta_tail(m) =~= theme_then);
        },
    }
    assert(scan_lines(spec_meta_tail(m), acc3) == scan_lines(theme_then, acc4));
    let permille_then = match m.left_pane_permille {
        Some(p) => kv_line(k6, dec_digits(p as nat)),
        None => Seq::<u8>::empty(),
    };
    let acc5 = match m.theme {
        Some(t) => scan_one(k5, t, acc4),
        None => acc4,
    };
    match m.theme {
        Some(t) => {
            lemma_scan_chunk(k5, t, permille_then, acc4);
            lemma_eval_line(k5, t, acc4);
        },
        None => {
            assert(theme_then =~= permille_then);
        },
    }
    assert(scan_lines(theme_then, acc4) == scan_lines(permille_then, acc5));
    let acc6 = match m.left_pane_permille {
        Some(p) => scan_one(k6, dec_digits(p as nat), acc5),
        None => acc5,
    };
    match m.left_pane_permille {
        Some(p) => {
            lemma_digits_line_safe(p as nat);
            assert(permille_then =~= kv_line(k6, dec_digits(p as nat)) + Seq::<u8>::empty());
            lemma_scan_chunk(k6, dec_digits(p as nat), Seq::<u8>::empty(), acc5);
            lemma_eval_line(k6, dec_digits(p as nat), acc5);
            assert(scan_lines(Seq::<u8>::empty(), acc6) == acc6);
        },
        None => {
            assert(permille_then.len() == 0);
        },
    }
    assert(scan_lines(permille_then, acc5) == acc6);
    assert(acc6 == raw_of_meta(m));
}

/// What `scan_line` records for one known-key line.
pub open spec fn scan_one(k: Seq<u8>, v: Seq<u8>, acc: RawMeta) -> RawMeta {
    scan_line(k + ascii_seq(": "@) + v, acc)
}

/// Evaluates `scan_line` on a canonical line of each known key.
proof fn lemma_eval_line(k: Seq<u8>, v: Seq<u8>, acc: RawMeta)
    requires
        k.len() > 0,
        line_safe(v),
        k == ascii_seq("name"@) || k == ascii_seq("created_unix"@) || k == ascii_seq(
            "format_version"@,
        ) || k == ascii_seq("update_url"@) || k == ascii_seq("theme"@) || k == ascii_seq(
            "left_pane_permille"@,
        ),
    ensures
        k == ascii_seq("name"@) ==> scan_one(k, v, acc) == (RawMeta {
            name: Some(v),
            ..acc
        }),
        k == ascii_seq("created_unix"@) ==> scan_one(k, v, acc) == (RawMeta {
            created_unix: Some(v),
            ..acc
        }),
        k == ascii_seq("format_version"@) ==> scan_one(k, v, acc) == (RawMeta {
            format_version: Some(v),
            ..acc
        }),
        k == ascii_seq("update_url"@) ==> scan_one(k, v, acc) == (RawMeta {
            update_url: Some(v),
            ..acc
        }),
        k == ascii_seq("theme"@) ==> scan_one(k, v, acc) == (RawMeta {
            theme: Some(v),
            ..acc
        }),
        k == ascii_seq("left_pane_permille"@) ==> scan_one(k, v, acc) == (RawMeta {
            left_pane_permille: Some(v),
            ..acc
        }),
{
    reveal_strlit(": ");
    reveal_strlit("name");
    reveal_strlit("created_unix");
    reveal_strlit("format_version");
    reveal_strlit("update_url");
    reveal_strlit("theme");
    reveal_strlit("left_pane_permille");
    reveal_strlit("name: ");
    reveal_strlit("created_unix: ");
    reveal_strlit("format_version: ");
    reveal_strlit("update_url: ");
    reveal_strlit("theme: ");
    reveal_strlit("left_pane_permille: ");
    let u = k + ascii_seq(": "@) + v;
    lemma_kv_operand(k, v);
    assert(ascii_seq("name: "@) =~= ascii_seq("name"@) + ascii_seq(": "@));
    assert(ascii_seq("created_unix: "@) =~= ascii_seq("created_unix"@) + ascii_seq(": "@));
    assert(ascii_seq("format_version: "@) =~= ascii_seq("format_version"@) + ascii_seq(
        ": "@,
    ));
    assert(ascii_seq("update_url: "@) =~= ascii_seq("update_url"@) + ascii_seq(": "@));
    assert(ascii_seq("theme: "@) =~= ascii_seq("theme"@) + ascii_seq(": "@));
    assert(ascii_seq("left_pane_permille: "@) =~= ascii_seq("left_pane_permille"@)
        + ascii_seq(": "@));
    assert(u[0] == k[0]);
    assert(u.take(k.len() + 2 as int) =~= k + ascii_seq(": "@));
    if k == ascii_seq("name"@) {
        assert(is_prefix(ascii_seq("name: "@), u));
        assert(u.skip(6) == v);
    } else if k == ascii_seq("created_unix"@) {
        lemma_not_prefix_first(ascii_seq("name: "@), u, 110);
        assert(is_prefix(ascii_seq("created_unix: "@), u));
        assert(u.skip(14) == v);
    } else if k == ascii_seq("format_version"@) {
        lemma_not_prefix_first(ascii_seq("name: "@), u, 110);
        lemma_not_prefix_first(ascii_seq("created_unix: "@), u, 99);
        assert(is_prefix(ascii_seq("format_version: "@), u));
        assert(u.skip(16) == v);
    } else if k == ascii_seq("update_url"@) {
        lemma_not_prefix_first(ascii_seq("name: "@), u, 110);
        lemma_not_prefix_first(ascii_seq("created_unix: "@), u, 99);
        lemma_not_prefix_first(ascii_seq("format_version: "@), u, 102);
        assert(is_prefix(ascii_seq("update_url: "@), u));
        assert(u.skip(12) == v);
    } else if k == ascii_seq("theme"@) {
        lemma_not_prefix_first(ascii_seq("name: "@), u, 110);
        lemma_not_prefix_first(ascii_seq("created_unix: "@), u, 99);
        lemma_not_prefix_first(ascii_seq("format_version: "@), u, 102);
        lemma_not_prefix_first(ascii_seq("update_url: "@), u, 117);
        assert(is_prefix(ascii_seq("theme: "@), u));
        assert(u.skip(7) == v);
    } else {
        lemma_not_prefix_first(ascii_seq("name: "@), u, 110);
        lemma_not_prefix_first(ascii_seq("created_unix: "@), u, 99);
        lemma_not_prefix_first(ascii_seq("format_version: "@), u, 102);
        lemma_not_prefix_first(ascii_seq("update_url: "@), u, 117);
        lemma_not_prefix_first(ascii_seq("theme: "@), u, 116);
        assert(is_prefix(ascii_seq("left_pane_permille: "@), u));
        assert(u.skip(20) == v);
    }
}

/// A sequence whose first byte is not `p`'s first byte does not start
/// with `p`.
proof fn lemma_not_prefix_first(p: Seq<u8>, u: Seq<u8>, first: u8)
    requires
        p.len() > 0,
        p[0] == first,
        u.len() > 0,
        u[0] != first,
    ensures
        !is_prefix(p, u),
{
    if is_prefix(p, u) {
        assert(u.take(p.len() as int)[0] == u[0]);
    }
}

/// Round-trip: parsing a serialized document gives back the metadata
/// and the trimmed body.
pub proof fn lemma_round_trip(m: MetaView, body: Seq<u8>)
    requires
        meta_wf(m),
    ensures
        spec_parse_front_matter(spec_serialize(m, body)) == (
            Some(m),
            trim_seq(body),
        ),
{
    reveal_strlit("---\n");
    reveal_strlit("---\r\n");
    reveal_strlit("---\n\n");
    lemma_keys_clean();
    let s = spec_serialize(m, body);
    let block = spec_meta_block(m);
    let tb = trim_seq(body);
    let l = block.len() as int;
    lemma_block_clean(m);
    assert(block.len() > 0 && block.last() == 10);
    assert(s[0] == 45) by {
        assert(s[0] == ascii_seq("---\n"@)[0]);
    }
    assert(strip_bom(s) == s) by {
        if is_prefix(bom(), s) {
            assert(s.take(3)[0] == s[0]);
            assert(bom()[0] == 0xEF);
        }
    }
    assert(open_len(s) == Some(4int)) by {
        assert(s.take(4) =~= ascii_seq("---\n"@));
    }
    let rest = s.skip(4);
    assert(rest =~= block + ascii_seq("---\n\n"@) + tb + seq![10u8]);
    assert(fm_end_at(rest, l - 1)) by {
        assert(rest[l - 1] == block.last());
        assert(rest[l] == ascii_seq("---\n\n"@)[0]);
        assert(rest[l + 1] == ascii_seq("---\n\n"@)[1]);
        assert(rest[l + 2] == ascii_seq("---\n\n"@)[2]);
        assert(rest[l + 3] == ascii_seq("---\n\n"@)[3]);
    }
    assert forall|k: int| 0 <= k < l - 1 implies !fm_end_at(rest, k) by {
        if fm_end_at(rest, k) {
            assert(rest[k] == block[k]);
            assert(rest[k + 1] == block[k + 1]);
        }
    }
    lemma_first_fm_end(rest, l - 1);
    assert(fm_delim_len(rest, l - 1) == 5) by {
        assert(rest[l + 3] == 10);
    }
    assert(rest.take(l) =~= block);
    lemma_meta_scan(m);
    assert(spec_parse_meta(block) == Some(m)) by {
        crate::num::lemma_dec_digits(m.created_unix as nat);
        crate::num::lemma_dec_digits(m.format_version as nat);
        match m.left_pane_permille {
            Some(p) => {
                crate::num::lemma_dec_digits(p as nat);
            },
            None => {},
        }
    }
    assert(rest.skip(l - 1 + 5) =~= seq![10u8] + tb + seq![10u8]);
    lemma_trim_result_trimmed(body);
    lemma_trim_wrap(tb);
}

/// The canonical block is clean and newline-terminated.
proof fn lemma_block_clean(m: MetaView)
    requires
        meta_wf(m),
    ensures
        fm_clean(spec_meta_block(m)),
        spec_meta_block(m).len() > 0,
        spec_meta_block(m).last() == 10,
    decreases 0int,
{
    lemma_keys_clean();
    let k1 = ascii_seq("name"@);
    let k2 = ascii_seq("created_unix"@);
    let k3 = ascii_seq("format_version"@);
    let k4 = ascii_seq("update_url"@);
    let k5 = ascii_seq("theme"@);
    let k6 = ascii_seq("left_pane_permille"@);
    let v2 = dec_digits(m.created_unix as nat);
    let v3 = dec_digits(m.format_version as nat);
    lemma_digits_line_safe(m.created_unix as nat);
    lemma_digits_line_safe(m.format_version as nat);
    let pp = match m.left_pane_permille {
        Some(p) => kv_line(k6, dec_digits(p as nat)),
        None => Seq::<u8>::empty(),
    };
    let tp = match m.theme {
        Some(t) => kv_line(k5, t),
        None => Seq::<u8>::empty(),
    };
    let up = match m.update_url {
        Some(u) => kv_line(k4, u),
        None => Seq::<u8>::empty(),
    };
    match m.left_pane_permille {
        Some(p) => {
            lemma_digits_line_safe(p as nat);
            lemma_kv_clean(k6, dec_digits(p as nat));
        },
        None => {},
    }
    match m.theme {
        Some(t) => {
            lemma_kv_clean(k5, t);
        },
        None => {},
    }
    match m.update_url {
        Some(u) => {
            lemma_kv_clean(k4, u);
        },
        None => {},
    }
    assert(pp.len() > 0 ==> pp[0] != 45 && pp.last() == 10 && fm_clean(pp));
    assert(tp.len() > 0 ==> tp[0] != 45 && tp.last() == 10 && fm_clean(tp));
    assert(up.len() > 0 ==> up[0] != 45 && up.last() == 10 && fm_clean(up));
    lemma_clean_concat(tp, pp);
    lemma_clean_concat(up, tp + pp);
    assert((tp + pp).len() > 0 ==> (tp + pp)[0] != 45) by {
        if tp.len() > 0 {
            assert((tp + pp)[0] == tp[0]);
        } else if pp.len() > 0 {
            assert((tp + pp)[0] == pp[0]);
        }
    }
    let tail = spec_meta_tail(m);
    assert(tail =~= up + (tp + pp));
    lemma_kv_clean(k1, m.name);
    lemma_kv_clean(k2, v2);
    lemma_kv_clean(k3, v3);
    assert(tail.len() > 0 ==> tail[0] != 45) by {
        if up.len() > 0 {
            assert(tail[0] == up[0]);
        } else if tp.len() > 0 {
            assert(tail[0] == tp[0]);
        } else if pp.len() > 0 {
            assert(tail[0] == pp[0]);
        }
    }
    lemma_clean_concat(kv_line(k3, v3), tail);
    assert((kv_line(k3, v3) + tail)[0] == kv_line(k3, v3)[0]);
    lemma_clean_concat(kv_line(k2, v2), kv_line(k3, v3) + tail);
    assert((kv_line(k2, v2) + (kv_line(k3, v3) + tail))[0] == kv_line(k2, v2)[0]);
    lemma_clean_concat(kv_line(k1, m.name), kv_line(k2, v2) + (kv_line(k3, v3) + tail));
    assert(spec_meta_block(m) =~= kv_line(k1, m.name) + (kv_line(k2, v2) + (kv_line(
        k3,
        v3,
    ) + tail)));
}


/// The parsed body is never longer than the document.
pub proof fn lemma_parse_body_len(s: Seq<u8>)
    ensures
        spec_parse_front_matter(s).1.len() <= s.len(),
{
    reveal_strlit("---\n");
    reveal_strlit("---\r\n");
    let s1 = strip_bom(s);
    assert(s1.len() <= s.len());
    match open_len(s1) {
        None => {},
        Some(o) => {
            let rest = s1.skip(o);
            match find_fm_end(rest, 0) {
                None => {},
                Some(i) => {
                    lemma_find_fm_end(rest, 0);
                    let raw = rest.skip(i + fm_delim_len(rest, i));
                    crate::text::lemma_leading_spaces(raw);
                    crate::text::lemma_trailing_spaces(trim_start_seq(raw));
                    assert(rest.len() <= s1.len());
                    assert(raw.len() <= rest.len());
                    assert(trim_start_seq(raw).len() <= raw.len());
                    assert(trim_seq(raw).len() <= trim_start_seq(raw).len());
                },
            }
        },
    }
}

} // verus!
