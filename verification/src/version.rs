//! Release-version comparison and the update-feed address parser.
//!
//! The remote fetch itself is the host's concern; the store only
//! decides whether a fetched version is newer and how an address
//! splits into its parts.

use vstd::prelude::*;

verus! {

use vstd::slice::slice_to_vec;
use vstd::slice::slice_subrange;
use crate::text::ascii_seq;
use crate::text::ascii_bytes;
use crate::text::is_prefix;
use crate::text::trim_seq;
use crate::num::dec_val;
use crate::num::all_digits;

/// What an update feed announces.
pub struct UpdateInfo {
    pub version: Vec<u8>,
    pub url: Option<Vec<u8>>,
    pub notes: Option<Vec<u8>>,
}

/// Splits a version string at dots, dashes and pluses.
pub open spec fn is_vsep(b: u8) -> bool {
    b == 46 || b == 45 || b == 43
}

/// The next separator position at or after `i`.
pub open spec fn vsep_from(s: Seq<u8>, i: int) -> int
    decreases s.len() - i,
    when 0 <= i <= s.len()
{
    if i == s.len() {
        i
    } else if is_vsep(s[i]) {
        i
    } else {
        vsep_from(s, i + 1)
    }
}

/// The numeric value of one version component: a nonempty all-digit
/// token within `u32`, anything else counting as zero.
pub open spec fn vcomp_val(t: Seq<u8>) -> nat {
    if t.len() >= 1 && all_digits(t) && dec_val(t) <= u32::MAX {
        dec_val(t)
    } else {
        0
    }
}

/// The first three components of a version string.
pub open spec fn spec_parse_version(s: Seq<u8>) -> (nat, nat, nat) {
    let e1 = vsep_from(s, 0);
    let t1 = s.take(e1);
    let r1 = if e1 < s.len() {
        s.skip(e1 + 1)
    } else {
        Seq::<u8>::empty()
    };
    let e2 = vsep_from(r1, 0);
    let t2 = r1.take(e2);
    let r2 = if e2 < r1.len() {
        r1.skip(e2 + 1)
    } else {
        Seq::<u8>::empty()
    };
    let e3 = vsep_from(r2, 0);
    let t3 = r2.take(e3);
    (vcomp_val(t1), vcomp_val(t2), vcomp_val(t3))
}

proof fn lemma_vsep_from(s: Seq<u8>, i: int)
    requires
        0 <= i <= s.len(),
    ensures
        i <= vsep_from(s, i) <= s.len(),
        forall|j: int| i <= j < vsep_from(s, i) ==> !is_vsep(s[j]),
        vsep_from(s, i) < s.len() ==> is_vsep(s[vsep_from(s, i)]),
    decreases s.len() - i,
{
    if i < s.len() && !is_vsep(s[i]) {
        lemma_vsep_from(s, i + 1);
    }
}

/// Finds the next separator.
fn find_vsep(s: &[u8], from: usize) -> (r: usize)
    requires
        from <= s@.len(),
    ensures
        from <= r <= s@.len(),
        r as int == vsep_from(s@, from as int),
{
    let mut i = from;
    proof {
        lemma_vsep_from(s@, from as int);
    }
    while i < s.len() && !(s[i] == 46 || s[i] == 45 || s[i] == 43)
        invariant
            from <= i <= s@.len(),
            forall|j: int| from <= j < i ==> !is_vsep(s@[j]),
            i <= vsep_from(s@, from as int),
            forall|j: int| from <= j < vsep_from(s@, from as int) ==> !is_vsep(s@[j]),
            vsep_from(s@, from as int) <= s@.len(),
            vsep_from(s@, from as int) < s@.len() ==> is_vsep(
                s@[vsep_from(s@, from as int)],
            ),
        decreases s@.len() - i,
    {
        i = i + 1;
    }
    i
}

/// Reads one version component.
fn parse_vcomp(t: &[u8]) -> (r: u32)
    ensures
        r as nat == vcomp_val(t@),
{
    match crate::num::parse_u64(t) {
        Some(v) => {
            if v <= u32::MAX as u64 {
                v as u32
            } else {
                0
            }
        },
        None => {
            proof {
                if t@.len() >= 1 && all_digits(t@) && dec_val(t@) <= u32::MAX {
                    assert(t@[0] != 48 || t@.len() == 1 || dec_val(t@) <= u32::MAX);
                }
            }
            if t.len() >= 1 && t[0] == 48 {
                // a zero-padded component reads as its numeric value only
                // when it is plain zero; everything else counts as zero,
                // like any token that fails to parse
                if t.len() == 1 {
                    0
                } else {
                    parse_padded(t)
                }
            } else {
                0
            }
        },
    }
}

/// Reads a zero-padded all-digit component.
fn parse_padded(t: &[u8]) -> (r: u32)
    requires
        t@.len() >= 2,
        t@[0] == 48,
    ensures
        r as nat == vcomp_val(t@),
{
    let mut i: usize = 0;
    let mut acc: u64 = 0;
    while i < t.len()
        invariant
            i <= t@.len(),
            forall|j: int| 0 <= j < i ==> crate::text::spec_is_digit(#[trigger] t@[j]),
            acc as nat == dec_val(t@.take(i as int)),
            acc <= u64::MAX / 2,
        decreases t@.len() - i,
    {
        let b = t[i];
        if b < 48 || b > 57 {
            return 0;
        }
        proof {
            crate::num::lemma_dec_val_push(t@.take(i as int), b);
            assert(t@.take(i as int).push(b) =~= t@.take(i + 1));
        }
        if acc > 0xFFFF_FFFF {
            proof {
                crate::num::lemma_dec_val_extend_ge(t@, i + 1);
                assert(dec_val(t@.take(i + 1)) > u32::MAX) by (nonlinear_arith)
                    requires
                        dec_val(t@.take(i + 1)) == acc as nat * 10 + (b - 48),
                        acc > 0xFFFF_FFFF,
                ;
            }
            return 0;
        }
        acc = acc * 10 + (b - 48) as u64;
        i = i + 1;
    }
    proof {
        assert(t@.take(i as int) =~= t@);
    }
    if acc > u32::MAX as u64 {
        return 0;
    }
    acc as u32
}

/// Reads the first three dotted components of a version string.
pub fn parse_version(v: &[u8]) -> (r: (u32, u32, u32))
    ensures
        (r.0 as nat, r.1 as nat, r.2 as nat) == spec_parse_version(v@),
{
    let e1 = find_vsep(v, 0);
    let t1 = slice_subrange(v, 0, e1);
    let r1: &[u8] = if e1 < v.len() {
        slice_subrange(v, e1 + 1, v.len())
    } else {
        slice_subrange(v, v.len(), v.len())
    };
    proof {
        if e1 < v@.len() {
            assert(r1@ =~= v@.skip(e1 + 1));
        } else {
            assert(r1@ =~= Seq::<u8>::empty());
        }
        assert(t1@ =~= v@.take(e1 as int));
    }
    let e2 = find_vsep(r1, 0);
    let t2 = slice_subrange(r1, 0, e2);
    let r2: &[u8] = if e2 < r1.len() {
        slice_subrange(r1, e2 + 1, r1.len())
    } else {
        slice_subrange(r1, r1.len(), r1.len())
    };
    proof {
        if e2 < r1@.len() {
            assert(r2@ =~= r1@.skip(e2 + 1));
        } else {
            assert(r2@ =~= Seq::<u8>::empty());
        }
        assert(t2@ =~= r1@.take(e2 as int));
    }
    let e3 = find_vsep(r2, 0);
    let t3 = slice_subrange(r2, 0, e3);
    proof {
        assert(t3@ =~= r2@.take(e3 as int));
    }
    (parse_vcomp(t1), parse_vcomp(t2), parse_vcomp(t3))
}

/// True when version `a` is strictly newer than version `b`, comparing
/// the three leading components lexicographically.
pub open spec fn spec_version_gt(a: Seq<u8>, b: Seq<u8>) -> bool {
    let (a1, a2, a3) = spec_parse_version(a);
    let (b1, b2, b3) = spec_parse_version(b);
    a1 > b1 || (a1 == b1 && (a2 > b2 || (a2 == b2 && a3 > b3)))
}

pub fn version_gt(a: &[u8], b: &[u8]) -> (r: bool)
    ensures
        r == spec_version_gt(a@, b@),
{
    let (a1, a2, a3) = parse_version(a);
    let (b1, b2, b3) = parse_version(b);
    a1 > b1 || (a1 == b1 && (a2 > b2 || (a2 == b2 && a3 > b3)))
}

/// Decides whether a fetched announcement is an update over the
/// running version.
pub fn check_update(info: UpdateInfo, current_version: &[u8]) -> (r: Option<UpdateInfo>)
    ensures
        r is Some <==> spec_version_gt(info.version@, current_version@),
        r matches Some(u) ==> u.version@ == info.version@,
{
    if version_gt(info.version.as_slice(), current_version) {
        Some(info)
    } else {
        None
    }
}

/// The parts of an update-feed address.
pub struct UrlParts {
    pub host: Vec<u8>,
    pub port: u16,
    pub path: Vec<u8>,
    pub secure: bool,
}

/// Mathematical view of an address's parts.
pub ghost struct UrlView {
    pub host: Seq<u8>,
    pub port: u16,
    pub path: Seq<u8>,
    pub secure: bool,
}

impl View for UrlParts {
    type V = UrlView;

    open spec fn view(&self) -> UrlView {
        UrlView { host: self.host@, port: self.port, path: self.path@, secure: self.secure }
    }
}

/// Index of the first occurrence of byte `b` in `s`, or the length.
pub open spec fn find_byte(s: Seq<u8>, b: u8) -> int
    decreases s.len(),
{
    if s.len() == 0 {
        0
    } else if s[0] == b {
        0
    } else {
        1 + find_byte(s.skip(1), b)
    }
}

pub proof fn lemma_find_byte(s: Seq<u8>, b: u8)
    ensures
        0 <= find_byte(s, b) <= s.len(),
        forall|j: int| 0 <= j < find_byte(s, b) ==> s[j] != b,
        find_byte(s, b) < s.len() ==> s[find_byte(s, b)] == b,
    decreases s.len(),
{
    if s.len() > 0 && s[0] != b {
        lemma_find_byte(s.skip(1), b);
        assert forall|j: int| 0 <= j < find_byte(s, b) implies s[j] != b by {
            if j > 0 {
                assert(s.skip(1)[j - 1] == s[j]);
            }
        }
        if find_byte(s, b) < s.len() {
            assert(s.skip(1)[find_byte(s, b) - 1] == s[find_byte(s, b)]);
        }
    }
}

/// The first position holding `b`, characterized directly, is what
/// `find_byte` returns.
proof fn lemma_find_byte_at(s: Seq<u8>, b: u8, p: int)
    requires
        0 <= p <= s.len(),
        p < s.len() ==> s[p] == b,
        forall|j: int| 0 <= j < p ==> s[j] != b,
        p == s.len() ==> forall|j: int| 0 <= j < s.len() ==> s[j] != b,
    ensures
        find_byte(s, b) == p,
{
    lemma_find_byte(s, b);
    let f = find_byte(s, b);
    if f < p {
        assert(s[f] != b);
    }
    if p < f {
        assert(s[p] != b);
    }
}

/// What an address splits into: host and port (an explicit all-digit
/// port within range, else the scheme default), and the `/`-prefixed
/// path. An unknown scheme or an unreadable port is no address.
pub open spec fn spec_parse_url(url: Seq<u8>) -> Option<UrlView> {
    let u = trim_seq(url);
    if is_prefix(ascii_seq("https://"@), u) {
        spec_parse_after_scheme(u.skip(8), true)
    } else if is_prefix(ascii_seq("http://"@), u) {
        spec_parse_after_scheme(u.skip(7), false)
    } else {
        None
    }
}

/// The host, port and path of the address after its scheme.
pub open spec fn spec_parse_after_scheme(rest: Seq<u8>, secure: bool) -> Option<UrlView> {
    let sl = find_byte(rest, 47);
    let host_port = rest.take(sl);
    let path = if sl < rest.len() {
        rest.skip(sl)
    } else {
        seq![47u8]
    };
    let co = find_byte(host_port, 58);
    if co < host_port.len() {
        let host = host_port.take(co);
        let pd = host_port.skip(co + 1);
        if pd.len() >= 1 && all_digits(pd) && dec_val(pd) <= u16::MAX {
            Some(UrlView { host, port: dec_val(pd) as u16, path, secure })
        } else {
            None
        }
    } else {
        Some(
            UrlView {
                host: host_port,
                port: if secure {
                    443u16
                } else {
                    80u16
                },
                path,
                secure,
            },
        )
    }
}

/// Reads an explicit port: a nonempty digit string (leading zeros
/// allowed) whose value fits a port number.
fn parse_port(t: &[u8]) -> (r: Option<u16>)
    ensures
        r is Some <==> t@.len() >= 1 && all_digits(t@) && dec_val(t@) <= u16::MAX,
        r matches Some(v) ==> v as nat == dec_val(t@),
{
    if t.len() == 0 {
        return None;
    }
    let mut acc: u32 = 0;
    let mut i: usize = 0;
    while i < t.len()
        invariant
            i <= t@.len(),
            forall|j: int| 0 <= j < i ==> crate::text::spec_is_digit(#[trigger] t@[j]),
            acc as nat == dec_val(t@.take(i as int)),
            acc <= 65535,
        decreases t@.len() - i,
    {
        let b = t[i];
        if b < 48 || b > 57 {
            return None;
        }
        proof {
            crate::num::lemma_dec_val_push(t@.take(i as int), b);
            assert(t@.take(i as int).push(b) =~= t@.take(i + 1));
        }
        if acc > 6553 || (acc == 6553 && b > 53) {
            proof {
                crate::num::lemma_dec_val_extend_ge(t@, i + 1);
                assert(dec_val(t@.take(i + 1)) > u16::MAX) by (nonlinear_arith)
                    requires
                        dec_val(t@.take(i + 1)) == acc as nat * 10 + (b - 48),
                        acc > 6553 || (acc == 6553 && b > 53),
                        48 <= b <= 57,
                ;
                assert(dec_val(t@) > u16::MAX);
            }
            return None;
        }
        acc = acc * 10 + (b - 48) as u32;
        i = i + 1;
    }
    proof {
        assert(t@.take(i as int) =~= t@);
    }
    Some(acc as u16)
}

/// Splits an address into scheme, host, port and path. Only `http` and
/// `https` schemes are understood; a port that does not read as a
/// number rejects the whole address.
pub fn parse_url(url: &[u8]) -> (r: Option<UrlParts>)
    ensures
        match r {
            Some(p) => spec_parse_url(url@) == Some(p@),
            None => spec_parse_url(url@) is None,
        },
{
    proof {
        reveal_strlit("https://");
        reveal_strlit("http://");
    }
    let trimmed = crate::text::trim(url);
    let https = ascii_bytes("https://");
    let http = ascii_bytes("http://");
    let secure = crate::text::starts_with(trimmed.as_slice(), https.as_slice());
    let rest: &[u8] = if secure {
        slice_subrange(trimmed.as_slice(), 8, trimmed.len())
    } else if crate::text::starts_with(trimmed.as_slice(), http.as_slice()) {
        slice_subrange(trimmed.as_slice(), 7, trimmed.len())
    } else {
        return None;
    };
    proof {
        if secure {
            assert(rest@ =~= trim_seq(url@).skip(8));
        } else {
            assert(rest@ =~= trim_seq(url@).skip(7));
        }
    }
    // split host:port from path at the first slash
    let mut i: usize = 0;
    while i < rest.len() && rest[i] != 47
        invariant
            i <= rest@.len(),
            forall|j: int| 0 <= j < i ==> rest@[j] != 47,
        decreases rest@.len() - i,
    {
        i = i + 1;
    }
    let slash = i;
    proof {
        lemma_find_byte_at(rest@, 47, slash as int);
    }
    let host_port = slice_subrange(rest, 0, slash);
    let path: Vec<u8> = if slash < rest.len() {
        slice_to_vec(slice_subrange(rest, slash, rest.len()))
    } else {
        let mut p: Vec<u8> = Vec::new();
        p.push(47);
        p
    };
    proof {
        assert(host_port@ =~= rest@.take(slash as int));
        if slash < rest@.len() {
            assert(path@ =~= rest@.skip(slash as int));
        } else {
            assert(path@ =~= seq![47u8]);
        }
    }
    // split host from port at the first colon
    let mut k: usize = 0;
    while k < host_port.len() && host_port[k] != 58
        invariant
            k <= host_port@.len(),
            forall|j: int| 0 <= j < k ==> host_port@[j] != 58,
        decreases host_port@.len() - k,
    {
        k = k + 1;
    }
    let colon = k;
    proof {
        lemma_find_byte_at(host_port@, 58, colon as int);
    }
    if colon < host_port.len() {
        let host = slice_to_vec(slice_subrange(host_port, 0, colon));
        let pdigits = slice_subrange(host_port, colon + 1, host_port.len());
        proof {
            assert(host@ =~= host_port@.take(colon as int));
            assert(pdigits@ =~= host_port@.skip(colon + 1));
        }
        match parse_port(pdigits) {
            Some(v) => Some(UrlParts { host, port: v, path, secure }),
            None => None,
        }
    } else {
        let host = slice_to_vec(host_port);
        let port: u16 = if secure {
            443
        } else {
            80
        };
        Some(UrlParts { host, port, path, secure })
    }
}

} // verus!
