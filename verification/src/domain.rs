//! Project metadata and the key-value block that persists it.
//!
//! The metadata block is a sequence of `key: value` lines. Parsing is
//! lenient: lines with unknown keys are ignored, and a block that fails
//! to yield the required fields parses to nothing (the caller then
//! falls back to defaults).

use vstd::prelude::*;

verus! {

use vstd::slice::slice_to_vec;
use vstd::slice::slice_subrange;
use crate::text::ascii_seq;
use crate::text::ascii_bytes;
use crate::num::dec_digits;
use crate::num::dec_val;
use crate::num::all_digits;

/// Project metadata. The left pane share is kept in thousandths, as an
/// integer.
pub struct ProjectMeta {
    pub name: Vec<u8>,
    pub created_unix: u64,
    pub format_version: u32,
    pub update_url: Option<Vec<u8>>,
    pub theme: Option<Vec<u8>>,
    pub left_pane_permille: Option<u32>,
}

/// Mathematical view of `ProjectMeta`.
pub ghost struct MetaView {
    pub name: Seq<u8>,
    pub created_unix: u64,
    pub format_version: u32,
    pub update_url: Option<Seq<u8>>,
    pub theme: Option<Seq<u8>>,
    pub left_pane_permille: Option<u32>,
}

impl View for ProjectMeta {
    type V = MetaView;

    open spec fn view(&self) -> MetaView {
        MetaView {
            name: self.name@,
            created_unix: self.created_unix,
            format_version: self.format_version,
            update_url: match self.update_url {
                Some(u) => Some(u@),
                None => None,
            },
            theme: match self.theme {
                Some(t) => Some(t@),
                None => None,
            },
            left_pane_permille: self.left_pane_permille,
        }
    }
}

/// True when `s` can stand on one metadata line: no line break bytes.
pub open spec fn line_safe(s: Seq<u8>) -> bool {
    forall|i: int| 0 <= i < s.len() ==> s[i] != 10 && s[i] != 13
}

/// True when every text field of `m` fits on its line.
pub open spec fn meta_wf(m: MetaView) -> bool {
    &&& line_safe(m.name)
    &&& (m.update_url matches Some(u) ==> line_safe(u))
    &&& (m.theme matches Some(t) ==> line_safe(t))
}

/// One `key: value` line.
pub open spec fn kv_line(key: Seq<u8>, value: Seq<u8>) -> Seq<u8> {
    key + ascii_seq(": "@) + value + seq![10u8]
}

/// The serialized metadata block, one line per present field.
pub open spec fn spec_meta_block(m: MetaView) -> Seq<u8> {
    kv_line(ascii_seq("name"@), m.name) + (kv_line(
        ascii_seq("created_unix"@),
        dec_digits(m.created_unix as nat),
    ) + (kv_line(ascii_seq("format_version"@), dec_digits(m.format_version as nat))
        + spec_meta_tail(m)))
}

/// The optional lines of the block.
pub open spec fn spec_meta_tail(m: MetaView) -> Seq<u8> {
    (match m.update_url {
        Some(u) => kv_line(ascii_seq("update_url"@), u),
        None => Seq::<u8>::empty(),
    }) + ((match m.theme {
        Some(t) => kv_line(ascii_seq("theme"@), t),
        None => Seq::<u8>::empty(),
    }) + (match m.left_pane_permille {
        Some(p) => kv_line(ascii_seq("left_pane_permille"@), dec_digits(p as nat)),
        None => Seq::<u8>::empty(),
    }))
}

/// The raw field values collected while scanning a block.
pub ghost struct RawMeta {
    pub name: Option<Seq<u8>>,
    pub created_unix: Option<Seq<u8>>,
    pub format_version: Option<Seq<u8>>,
    pub update_url: Option<Seq<u8>>,
    pub theme: Option<Seq<u8>>,
    pub left_pane_permille: Option<Seq<u8>>,
}

pub open spec fn raw_empty() -> RawMeta {
    RawMeta {
        name: None,
        created_unix: None,
        format_version: None,
        update_url: None,
        theme: None,
        left_pane_permille: None,
    }
}

/// Index of the first line feed in `s`, or the length of `s`.
pub open spec fn line_end(s: Seq<u8>) -> nat
    decreases s.len(),
{
    if s.len() == 0 {
        0
    } else if s[0] == 10 {
        0
    } else {
        1 + line_end(s.skip(1))
    }
}

pub proof fn lemma_line_end(s: Seq<u8>)
    ensures
        0 <= line_end(s) <= s.len(),
        forall|j: int| 0 <= j < line_end(s) ==> s[j] != 10,
        line_end(s) < s.len() ==> s[line_end(s) as int] == 10,
    decreases s.len(),
{
    if s.len() > 0 && s[0] != 10 {
        lemma_line_end(s.skip(1));
        assert forall|j: int| 0 <= j < line_end(s) implies s[j] != 10 by {
            if j > 0 {
                assert(s.skip(1)[j - 1] == s[j]);
            }
        }
        if line_end(s) < s.len() {
            assert(s.skip(1)[line_end(s) - 1] == s[line_end(s) as int]);
        }
    }
}

/// Records one scanned line in the accumulator: a line that starts with
/// a known key keeps its value, any other line is ignored.
pub open spec fn scan_line(line0: Seq<u8>, acc: RawMeta) -> RawMeta {
    let line = if line0.len() > 0 && line0.last() == 13 {
        line0.drop_last()
    } else {
        line0
    };
    if crate::text::is_prefix(ascii_seq("name: "@), line) {
        RawMeta { name: Some(line.skip(6)), ..acc }
    } else if crate::text::is_prefix(ascii_seq("created_unix: "@), line) {
        RawMeta { created_unix: Some(line.skip(14)), ..acc }
    } else if crate::text::is_prefix(ascii_seq("format_version: "@), line) {
        RawMeta { format_version: Some(line.skip(16)), ..acc }
    } else if crate::text::is_prefix(ascii_seq("update_url: "@), line) {
        RawMeta { update_url: Some(line.skip(12)), ..acc }
    } else if crate::text::is_prefix(ascii_seq("theme: "@), line) {
        RawMeta { theme: Some(line.skip(7)), ..acc }
    } else if crate::text::is_prefix(ascii_seq("left_pane_permille: "@), line) {
        RawMeta { left_pane_permille: Some(line.skip(20)), ..acc }
    } else {
        acc
    }
}

/// Scans a block line by line.
pub open spec fn scan_lines(s: Seq<u8>, acc: RawMeta) -> RawMeta
    decreases s.len(),
{
    if s.len() == 0 {
        acc
    } else {
        let e = line_end(s);
        let acc2 = scan_line(s.take(e as int), acc);
        if e < s.len() {
            scan_lines(s.skip(e + 1 as int), acc2)
        } else {
            acc2
        }
    }
}

/// Reads a canonical decimal value bounded by `max`.
pub open spec fn spec_dec_field(v: Seq<u8>, max: nat) -> Option<nat> {
    if v.len() >= 1 && all_digits(v) && (v[0] != 48 || v.len() == 1) && dec_val(v) <= max {
        Some(dec_val(v))
    } else {
        None
    }
}

/// What a metadata block parses to: the required fields must be present
/// with canonical numbers, else the block yields nothing.
pub open spec fn spec_parse_meta(s: Seq<u8>) -> Option<MetaView> {
    let raw = scan_lines(s, raw_empty());
    if raw.name is Some && raw.created_unix is Some && raw.format_version is Some {
        let created = spec_dec_field(raw.created_unix.unwrap(), u64::MAX as nat);
        let version = spec_dec_field(raw.format_version.unwrap(), u32::MAX as nat);
        let permille = match raw.left_pane_permille {
            Some(p) => spec_dec_field(p, u32::MAX as nat),
            None => None,
        };
        if created is Some && version is Some && (raw.left_pane_permille is Some
            ==> permille is Some) {
            Some(
                MetaView {
                    name: raw.name.unwrap(),
                    created_unix: created.unwrap() as u64,
                    format_version: version.unwrap() as u32,
                    update_url: raw.update_url,
                    theme: raw.theme,
                    left_pane_permille: match permille {
                        Some(p) => Some(p as u32),
                        None => None,
                    },
                },
            )
        } else {
            None
        }
    } else {
        None
    }
}

impl ProjectMeta {
    /// A fresh metadata record for a project named `name`, created now.
    pub fn new(name: Vec<u8>) -> (r: ProjectMeta)
        ensures
            r@.name == name@,
            r@.format_version == 1,
            r@.update_url is None,
            r@.theme is None,
            r@.left_pane_permille is None,
    {
        ProjectMeta {
            name,
            created_unix: crate::clock::now_unix(),
            format_version: 1,
            update_url: None,
            theme: None,
            left_pane_permille: None,
        }
    }
}

impl Default for ProjectMeta {
    /// The fallback metadata: an untitled project created now.
    fn default() -> (r: ProjectMeta)
        ensures
            r@.name == ascii_seq("Untitled"@),
            r@.format_version == 1,
            r@.update_url is None,
            r@.theme is None,
            r@.left_pane_permille is None,
    {
        proof {
            reveal_strlit("Untitled");
        }
        ProjectMeta {
            name: ascii_bytes("Untitled"),
            created_unix: crate::clock::now_unix(),
            format_version: 1,
            update_url: None,
            theme: None,
            left_pane_permille: None,
        }
    }
}

/// A project: its root directory and its metadata.
pub struct Project {
    pub root: Vec<u8>,
    pub meta: ProjectMeta,
}

/// Appends `key: value` and a line feed.
fn push_kv(out: &mut Vec<u8>, key: &[u8], value: &[u8])
    requires
        old(out)@.len() + key@.len() + value@.len() + 3 <= usize::MAX,
    ensures
        final(out)@ == old(out)@ + kv_line(key@, value@),
{
    proof {
        reveal_strlit(": ");
    }
    crate::text::push_all(out, key);
    let sep = ascii_bytes(": ");
    crate::text::push_all(out, sep.as_slice());
    crate::text::push_all(out, value);
    out.push(10);
    assert(final(out)@ =~= old(out)@ + kv_line(key@, value@));
}

/// Serializes the metadata block.
#[verifier::rlimit(60)]
pub fn serialize_meta_block(m: &ProjectMeta) -> (r: Vec<u8>)
    requires
        m@.name.len() + (match m@.update_url {
            Some(u) => u.len(),
            None => 0,
        }) + (match m@.theme {
            Some(t) => t.len(),
            None => 0,
        }) + 200 <= usize::MAX,
    ensures
        r@ == spec_meta_block(m@),
{
    proof {
        reveal_strlit(": ");
        reveal_strlit("name");
        reveal_strlit("created_unix");
        reveal_strlit("format_version");
        reveal_strlit("update_url");
        reveal_strlit("theme");
        reveal_strlit("left_pane_permille");
        crate::storage::lemma_dec_digits_len_u64(m.created_unix);
        crate::storage::lemma_dec_digits_len_u64(m.format_version as u64);
    }
    let mut out: Vec<u8> = Vec::new();
    push_kv(&mut out, ascii_bytes("name").as_slice(), m.name.as_slice());
    let created = crate::num::u64_to_dec(m.created_unix);
    push_kv(&mut out, ascii_bytes("created_unix").as_slice(), created.as_slice());
    let version = crate::num::u64_to_dec(m.format_version as u64);
    proof {
        assert(m.format_version as u64 as nat == m.format_version as nat);
    }
    push_kv(&mut out, ascii_bytes("format_version").as_slice(), version.as_slice());
    match &m.update_url {
        Some(u) => {
            push_kv(&mut out, ascii_bytes("update_url").as_slice(), u.as_slice());
        },
        None => {},
    }
    match &m.theme {
        Some(t) => {
            push_kv(&mut out, ascii_bytes("theme").as_slice(), t.as_slice());
        },
        None => {},
    }
    match m.left_pane_permille {
        Some(p) => {
            proof {
                crate::storage::lemma_dec_digits_len_u64(p as u64);
                assert(p as u64 as nat == p as nat);
            }
            let digits = crate::num::u64_to_dec(p as u64);
            push_kv(&mut out, ascii_bytes("left_pane_permille").as_slice(), digits.as_slice());
        },
        None => {},
    }
    proof {
        assert(out@ =~= spec_meta_block(m@));
    }
    out
}

/// Parses one raw decimal field within the given bound.
fn parse_dec_field(v: &[u8], max: u64) -> (r: Option<u64>)
    ensures
        match r {
            Some(x) => spec_dec_field(v@, max as nat) == Some(x as nat),
            None => spec_dec_field(v@, max as nat) is None,
        },
{
    match crate::num::parse_u64(v) {
        Some(x) => {
            if x <= max {
                Some(x)
            } else {
                None
            }
        },
        None => {
            proof {
                if v@.len() >= 1 && all_digits(v@) && (v@[0] != 48 || v@.len() == 1) {
                    assert(dec_val(v@) > u64::MAX);
                }
            }
            None
        },
    }
}

/// Parses a metadata block.
pub fn parse_meta_block(s: &[u8]) -> (r: Option<ProjectMeta>)
    ensures
        match r {
            Some(m) => spec_parse_meta(s@) == Some(m@),
            None => spec_parse_meta(s@) is None,
        },
{
    proof {
        reveal_strlit("name: ");
        reveal_strlit("created_unix: ");
        reveal_strlit("format_version: ");
        reveal_strlit("update_url: ");
        reveal_strlit("theme: ");
        reveal_strlit("left_pane_permille: ");
    }
    let key_name = ascii_bytes("name: ");
    let key_created = ascii_bytes("created_unix: ");
    let key_version = ascii_bytes("format_version: ");
    let key_url = ascii_bytes("update_url: ");
    let key_theme = ascii_bytes("theme: ");
    let key_permille = ascii_bytes("left_pane_permille: ");
    let mut name: Option<Vec<u8>> = None;
    let mut created: Option<Vec<u8>> = None;
    let mut version: Option<Vec<u8>> = None;
    let mut url: Option<Vec<u8>> = None;
    let mut theme: Option<Vec<u8>> = None;
    let mut permille: Option<Vec<u8>> = None;
    let mut pos: usize = 0;
    proof {
        assert(s@.skip(0) =~= s@);
    }
    while pos < s.len()
        invariant
            pos <= s@.len(),
            key_name@ == ascii_seq("name: "@),
            key_created@ == ascii_seq("created_unix: "@),
            key_version@ == ascii_seq("format_version: "@),
            key_url@ == ascii_seq("update_url: "@),
            key_theme@ == ascii_seq("theme: "@),
            key_permille@ == ascii_seq("left_pane_permille: "@),
            scan_lines(s@, raw_empty()) == scan_lines(
                s@.skip(pos as int),
                RawMeta {
                    name: match name {
                        Some(ref v) => Some(v@),
                        None => None,
                    },
                    created_unix: match created {
                        Some(ref v) => Some(v@),
                        None => None,
                    },
                    format_version: match version {
                        Some(ref v) => Some(v@),
                        None => None,
                    },
                    update_url: match url {
                        Some(ref v) => Some(v@),
                        None => None,
                    },
                    theme: match theme {
                        Some(ref v) => Some(v@),
                        None => None,
                    },
                    left_pane_permille: match permille {
                        Some(ref v) => Some(v@),
                        None => None,
                    },
                },
            ),
        decreases s@.len() - pos,
    {
        proof {
            reveal_strlit("name: ");
            reveal_strlit("created_unix: ");
            reveal_strlit("format_version: ");
            reveal_strlit("update_url: ");
            reveal_strlit("theme: ");
            reveal_strlit("left_pane_permille: ");
        }
        let ghost acc_now = RawMeta {
            name: match name {
                Some(ref v) => Some(v@),
                None => None,
            },
            created_unix: match created {
                Some(ref v) => Some(v@),
                None => None,
            },
            format_version: match version {
                Some(ref v) => Some(v@),
                None => None,
            },
            update_url: match url {
                Some(ref v) => Some(v@),
                None => None,
            },
            theme: match theme {
                Some(ref v) => Some(v@),
                None => None,
            },
            left_pane_permille: match permille {
                Some(ref v) => Some(v@),
                None => None,
            },
        };
        let tail = slice_subrange(s, pos, s.len());
        proof {
            lemma_line_end(tail@);
        }
        let mut e: usize = 0;
        while e < tail.len() && tail[e] != 10
            invariant
                e <= tail@.len(),
                e <= line_end(tail@),
                forall|j: int| 0 <= j < line_end(tail@) ==> tail@[j] != 10,
                line_end(tail@) < tail@.len() ==> tail@[line_end(tail@) as int] == 10,
            decreases tail@.len() - e,
        {
            e = e + 1;
        }
        assert(e == line_end(tail@));
        let line0 = slice_subrange(tail, 0, e);
        let line: &[u8] = if line0.len() > 0 && line0[line0.len() - 1] == 13 {
            slice_subrange(line0, 0, line0.len() - 1)
        } else {
            line0
        };
        proof {
            assert(line0@ == tail@.take(e as int));
            if line0@.len() > 0 && line0@.last() == 13 {
                assert(line@ =~= line0@.drop_last());
            }
        }
        if crate::text::starts_with(line, key_name.as_slice()) {
            name = Some(slice_to_vec(slice_subrange(line, 6, line.len())));
            proof {
                assert(name.unwrap()@ =~= line@.skip(6));
            }
        } else if crate::text::starts_with(line, key_created.as_slice()) {
            created = Some(slice_to_vec(slice_subrange(line, 14, line.len())));
            proof {
                assert(created.unwrap()@ =~= line@.skip(14));
            }
        } else if crate::text::starts_with(line, key_version.as_slice()) {
            version = Some(slice_to_vec(slice_subrange(line, 16, line.len())));
            proof {
                assert(version.unwrap()@ =~= line@.skip(16));
            }
        } else if crate::text::starts_with(line, key_url.as_slice()) {
            url = Some(slice_to_vec(slice_subrange(line, 12, line.len())));
            proof {
                assert(url.unwrap()@ =~= line@.skip(12));
            }
        } else if crate::text::starts_with(line, key_theme.as_slice()) {
            theme = Some(slice_to_vec(slice_subrange(line, 7, line.len())));
            proof {
                assert(theme.unwrap()@ =~= line@.skip(7));
            }
        } else if crate::text::starts_with(line, key_permille.as_slice()) {
            permille = Some(slice_to_vec(slice_subrange(line, 20, line.len())));
            proof {
                assert(permille.unwrap()@ =~= line@.skip(20));
            }
        }
        proof {
            let t = s@.skip(pos as int);
            assert(t == tail@);
            assert(t.len() > 0);
            assert(scan_line(t.take(line_end(t) as int), acc_now) == scan_line(line0@, acc_now));
        }
        if e < tail.len() {
            pos = pos + e + 1;
            proof {
                assert(tail@.skip(e + 1) =~= s@.skip(pos as int));
            }
        } else {
            pos = pos + e;
            proof {
                assert(s@.skip(pos as int).len() == 0);
            }
        }
    }
    proof {
        assert(s@.skip(pos as int).len() == 0);
        assert(s@.skip(pos as int) =~= Seq::<u8>::empty());
    }
    let name_v = match name {
        Some(v) => v,
        None => {
            return None;
        },
    };
    let created_v = match created {
        Some(v) => v,
        None => {
            return None;
        },
    };
    let version_v = match version {
        Some(v) => v,
        None => {
            return None;
        },
    };
    let created_n = match parse_dec_field(created_v.as_slice(), u64::MAX) {
        Some(x) => x,
        None => {
            return None;
        },
    };
    let version_n = match parse_dec_field(version_v.as_slice(), u32::MAX as u64) {
        Some(x) => x,
        None => {
            return None;
        },
    };
    let permille_n: Option<u32> = match permille {
        Some(p) => {
            match parse_dec_field(p.as_slice(), u32::MAX as u64) {
                Some(x) => Some(x as u32),
                None => {
                    return None;
                },
            }
        },
        None => None,
    };
    Some(
        ProjectMeta {
            name: name_v,
            created_unix: created_n,
            format_version: version_n as u32,
            update_url: url,
            theme,
            left_pane_permille: permille_n,
        },
    )
}

} // verus!
