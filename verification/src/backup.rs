//! Backup snapshots and their retention.
//!
//! Each snapshot is a directory named by its unix timestamp under the
//! reserved backup root, mirroring the project-relative position of the
//! document it copies. Retention keeps the most recent snapshots and
//! removes the rest, comparing timestamps numerically.

use vstd::prelude::*;

verus! {

use vstd::slice::slice_to_vec;
use vstd::slice::slice_subrange;
use crate::fs::Fs;
use crate::fs::join_seq;
use crate::fs::join_path;
use crate::fs::under_dir;
use crate::fs::dir_child;
use crate::fs::no_slash;
use crate::text::ascii_seq;
use crate::text::ascii_bytes;
use crate::text::is_prefix;
use crate::num::dec_digits;
use crate::num::dec_val;
use crate::num::all_digits;
use crate::storage::temp_path_seq;

/// The name of a snapshot directory taken at time `ts`.
pub open spec fn snapshot_name(ts: u64) -> Seq<u8> {
    ascii_seq("backup-"@) + dec_digits(ts as nat)
}

/// True when a snapshot taken at `ts` sits under `backup_root`.
pub open spec fn has_snapshot(dirs: Set<Seq<u8>>, backup_root: Seq<u8>, ts: u64) -> bool {
    dir_child(dirs, backup_root, snapshot_name(ts))
}

/// Builds the snapshot directory name for time `ts`.
pub fn snapshot_name_bytes(ts: u64) -> (r: Vec<u8>)
    ensures
        r@ == snapshot_name(ts),
        r@.len() <= 27,
{
    proof {
        reveal_strlit("backup-");
        crate::storage::lemma_dec_digits_len_u64(ts);
    }
    let mut r = ascii_bytes("backup-");
    let d = crate::num::u64_to_dec(ts);
    crate::text::push_all(&mut r, d.as_slice());
    r
}

/// Reads a snapshot directory name back to its timestamp; names that
/// are not the canonical rendering of a timestamp are no snapshots.
pub fn parse_snapshot_name(name: &[u8]) -> (r: Option<u64>)
    ensures
        match r {
            Some(ts) => name@ == snapshot_name(ts),
            None => forall|ts: u64| name@ != snapshot_name(ts),
        },
{
    proof {
        reveal_strlit("backup-");
    }
    let prefix = ascii_bytes("backup-");
    if !crate::text::starts_with(name, prefix.as_slice()) {
        proof {
            assert forall|ts: u64| name@ != snapshot_name(ts) by {
                if name@ == snapshot_name(ts) {
                    assert(name@.take(7) =~= ascii_seq("backup-"@));
                }
            }
        }
        return None;
    }
    let digits = slice_subrange(name, 7, name.len());
    proof {
        assert(digits@ =~= name@.skip(7));
    }
    match crate::num::parse_u64(digits) {
        Some(v) => {
            proof {
                crate::num::lemma_dec_canonical(digits@);
                assert(name@ =~= ascii_seq("backup-"@) + dec_digits(v as nat));
            }
            Some(v)
        },
        None => {
            proof {
                assert forall|ts: u64| name@ != snapshot_name(ts) by {
                    if name@ == snapshot_name(ts) {
                        crate::num::lemma_dec_digits(ts as nat);
                        assert(name@.skip(7) =~= dec_digits(ts as nat));
                        assert(dec_val(digits@) == ts as nat);
                    }
                }
            }
            None
        },
    }
}

/// Distinct timestamps give distinct snapshot names.
pub proof fn lemma_snapshot_name_inj(a: u64, b: u64)
    requires
        snapshot_name(a) == snapshot_name(b),
    ensures
        a == b,
{
    reveal_strlit("backup-");
    crate::num::lemma_dec_digits(a as nat);
    crate::num::lemma_dec_digits(b as nat);
    assert(snapshot_name(a).skip(7) =~= dec_digits(a as nat));
    assert(snapshot_name(b).skip(7) =~= dec_digits(b as nat));
    assert(dec_val(dec_digits(a as nat)) == dec_val(dec_digits(b as nat)));
}

/// A snapshot name holds no separator.
pub proof fn lemma_snapshot_name_ok(ts: u64)
    ensures
        no_slash(snapshot_name(ts)),
        snapshot_name(ts).len() > 0,
{
    reveal_strlit("backup-");
    crate::num::lemma_dec_digits(ts as nat);
    let s = snapshot_name(ts);
    assert forall|q: int| 0 <= q < s.len() implies s[q] != 47 by {
        if q < 7 {
            assert(s[q] == ascii_seq("backup-"@)[q]);
        } else {
            assert(s[q] == dec_digits(ts as nat)[q - 7]);
            assert(crate::text::spec_is_digit(s[q]));
        }
    }
}

/// True when `x` occurs in `s`.
pub open spec fn has_ts(s: Seq<u64>, x: u64) -> bool {
    exists|i: int| 0 <= i < s.len() && #[trigger] s[i] == x
}

/// Sorts timestamps ascending; the result holds exactly the same
/// (distinct) values.
#[verifier::rlimit(60)]
fn sort_u64(v: Vec<u64>) -> (r: Vec<u64>)
    requires
        forall|i: int, j: int| 0 <= i < j < v@.len() ==> v@[i] != v@[j],
    ensures
        r@.len() == v@.len(),
        forall|i: int| 0 <= i < r@.len() ==> has_ts(v@, #[trigger] r@[i]),
        forall|j: int| 0 <= j < v@.len() ==> has_ts(r@, #[trigger] v@[j]),
        forall|i: int, j: int| 0 <= i < j < r@.len() ==> r@[i] < r@[j],
{
    let mut rem = v;
    let mut out: Vec<u64> = Vec::new();
    let ghost orig = rem@;
    proof {
        assert forall|i: int| 0 <= i < rem@.len() implies has_ts(
            orig,
            #[trigger] rem@[i],
        ) by {
            assert(orig[i] == rem@[i]);
        }
        assert forall|j: int| 0 <= j < orig.len() implies has_ts(out@, #[trigger] orig[j])
            || has_ts(rem@, orig[j]) by {
            assert(rem@[j] == orig[j]);
        }
    }
    while rem.len() > 0
        invariant
            out@.len() + rem@.len() == orig.len(),
            forall|i: int, j: int| 0 <= i < j < rem@.len() ==> rem@[i] != rem@[j],
            forall|i: int, j: int| 0 <= i < j < out@.len() ==> out@[i] < out@[j],
            forall|i: int, j: int|
                0 <= i < out@.len() && 0 <= j < rem@.len() ==> out@[i] < rem@[j],
            forall|i: int| 0 <= i < out@.len() ==> has_ts(orig, #[trigger] out@[i]),
            forall|i: int| 0 <= i < rem@.len() ==> has_ts(orig, #[trigger] rem@[i]),
            forall|j: int|
                0 <= j < orig.len() ==> has_ts(out@, #[trigger] orig[j]) || has_ts(
                    rem@,
                    orig[j],
                ),
        decreases rem@.len(),
    {
        let mut min: usize = 0;
        let mut k: usize = 1;
        while k < rem.len()
            invariant
                rem@.len() > 0,
                min < rem@.len(),
                k <= rem@.len(),
                forall|j: int| 0 <= j < k ==> rem@[min as int] <= #[trigger] rem@[j],
            decreases rem@.len() - k,
        {
            if rem[k] < rem[min] {
                min = k;
            }
            k = k + 1;
        }
        let ghost prevrem = rem@;
        let ghost prevout = out@;
        let x = rem.remove(min);
        out.push(x);
        proof {
            assert(forall|j: int| 0 <= j < min ==> rem@[j] == prevrem[j]);
            assert(forall|j: int| min <= j < rem@.len() ==> rem@[j] == prevrem[j + 1]);
            assert forall|i: int, j: int|
                0 <= i < out@.len() && 0 <= j < rem@.len() implies out@[i] < rem@[j] by {
                let w = if j < min {
                    j
                } else {
                    j + 1
                };
                assert(rem@[j] == prevrem[w]);
                if i < out@.len() - 1 {
                } else {
                    assert(out@[i] == prevrem[min as int]);
                    assert(prevrem[min as int] <= prevrem[w]);
                    assert(prevrem[min as int] != prevrem[w]);
                }
            }
            assert(forall|i: int| 0 <= i < prevout.len() ==> out@[i] == prevout[i]);
            assert forall|j: int|
                0 <= j < orig.len() implies has_ts(out@, #[trigger] orig[j]) || has_ts(
                rem@,
                orig[j],
            ) by {
                if has_ts(prevout, orig[j]) {
                    let i = choose|i: int|
                        0 <= i < prevout.len() && #[trigger] prevout[i] == orig[j];
                    assert(out@[i] == orig[j]);
                } else {
                    let i = choose|i: int|
                        0 <= i < prevrem.len() && #[trigger] prevrem[i] == orig[j];
                    if i == min {
                        assert(out@[out@.len() - 1] == orig[j]);
                    } else if i < min {
                        assert(rem@[i] == orig[j]);
                    } else {
                        assert(rem@[i - 1] == orig[j]);
                    }
                }
            }
        }
    }
    out
}

/// Collects the timestamps of the snapshots under `backup_root`.
#[verifier::rlimit(60)]
fn collect_snapshot_ts(fs: &Fs, backup_root: &[u8]) -> (tss: Vec<u64>)
    requires
        fs.wf(),
        backup_root@.len() < usize::MAX,
    ensures
        forall|j1: int, j2: int| 0 <= j1 < j2 < tss@.len() ==> tss@[j1] != tss@[j2],
        forall|ts: u64|
            #![trigger snapshot_name(ts)]
            has_snapshot(fs@.dirs, backup_root@, ts) <==> has_ts(tss@, ts),
{
    let names = fs.list_subdirs(backup_root);
    let mut tss: Vec<u64> = Vec::new();
    let mut i: usize = 0;
    while i < names.len()
        invariant
                        i <= names@.len(),
            forall|j: int|
                0 <= j < names@.len() ==> dir_child(
                    fs@.dirs,
                    backup_root@,
                    #[trigger] names@[j]@,
                ),
            forall|name: Seq<u8>|
                dir_child(fs@.dirs, backup_root@, name) ==> exists|j: int|
                    0 <= j < names@.len() && #[trigger] names@[j]@ == name,
            forall|j1: int, j2: int| 0 <= j1 < j2 < names@.len() ==> names@[j1]@
                != names@[j2]@,
            forall|j: int|
                0 <= j < tss@.len() ==> has_snapshot(
                    fs@.dirs,
                    backup_root@,
                    #[trigger] tss@[j],
                ),
            forall|ts: u64|
                #![trigger snapshot_name(ts)]
                (exists|j: int|
                    0 <= j < i && #[trigger] names@[j]@ == snapshot_name(ts)) ==> exists|
                j2: int,
                |
                    0 <= j2 < tss@.len() && #[trigger] tss@[j2] == ts,
            forall|j1: int, j2: int| 0 <= j1 < j2 < tss@.len() ==> tss@[j1] != tss@[j2],
            forall|j: int|
                #![trigger tss@[j]]
                0 <= j < tss@.len() ==> exists|i2: int|
                    0 <= i2 < i && #[trigger] names@[i2]@ == snapshot_name(tss@[j]),
        decreases names@.len() - i,
    {
        match parse_snapshot_name(names[i].as_slice()) {
            Some(ts) => {
                proof {
                    assert(names@[i as int]@ == snapshot_name(ts));
                    assert forall|j: int| 0 <= j < tss@.len() implies tss@[j] != ts by {
                        if tss@[j] == ts {
                            let i2 = choose|i2: int|
                                0 <= i2 < i && #[trigger] names@[i2]@ == snapshot_name(
                                    tss@[j],
                                );
                            assert(names@[i2]@ == names@[i as int]@);
                        }
                    }
                }
                let ghost prevt = tss@;
                tss.push(ts);
                proof {
                    assert(forall|j: int| 0 <= j < prevt.len() ==> tss@[j] == prevt[j]);
                    assert(names@[i as int]@ == snapshot_name(tss@[tss@.len() - 1]));
                }
                proof {
                    assert forall|ts2: u64|
                        #![trigger snapshot_name(ts2)]
                        (exists|j: int|
                            0 <= j < i + 1 && #[trigger] names@[j]@ == snapshot_name(
                                ts2,
                            )) implies exists|j2: int|
                        0 <= j2 < tss@.len() && #[trigger] tss@[j2] == ts2 by {
                        let j = choose|j: int|
                            0 <= j < i + 1 && #[trigger] names@[j]@ == snapshot_name(ts2);
                        if j == i {
                            lemma_snapshot_name_inj(ts, ts2);
                            assert(tss@[tss@.len() - 1] == ts2);
                        } else {
                            let j2 = choose|j2: int|
                                0 <= j2 < prevt.len() && #[trigger] prevt[j2] == ts2;
                            assert(tss@[j2] == ts2);
                        }
                    }
                }
            },
            None => {
                proof {
                    assert forall|ts2: u64|
                        #![trigger snapshot_name(ts2)]
                        (exists|j: int|
                            0 <= j < i + 1 && #[trigger] names@[j]@ == snapshot_name(
                                ts2,
                            )) implies exists|j2: int|
                        0 <= j2 < tss@.len() && #[trigger] tss@[j2] == ts2 by {
                        let j = choose|j: int|
                            0 <= j < i + 1 && #[trigger] names@[j]@ == snapshot_name(ts2);
                        if j == i {
                            assert(names@[i as int]@ != snapshot_name(ts2));
                        }
                    }
                }
            },
        }
        i = i + 1;
    }
    proof {
        assert forall|ts: u64|
            #![trigger snapshot_name(ts)]
            has_snapshot(fs@.dirs, backup_root@, ts) == has_ts(tss@, ts) by {
            if has_snapshot(fs@.dirs, backup_root@, ts) {
                let j = choose|j: int|
                    0 <= j < names@.len() && #[trigger] names@[j]@ == snapshot_name(ts);
            }
            if has_ts(tss@, ts) {
                let j = choose|j: int| 0 <= j < tss@.len() && #[trigger] tss@[j] == ts;
            }
        }
    }
    tss
}

/// Removes the oldest snapshots under `backup_root` until at most
/// `keep` remain, and returns the kept timestamps, oldest first.
///
/// The survivors are exactly the most recent: a snapshot is removed
/// only when the full quota of strictly newer snapshots is kept.
#[verifier::rlimit(100)]
pub fn cleanup_old_backups(fs: &mut Fs, backup_root: &[u8], keep: usize) -> (r: Vec<u64>)
    requires
        old(fs).wf(),
        backup_root@.len() + 30 <= usize::MAX,
    ensures
        final(fs).wf(),
        final(fs)@.pid == old(fs)@.pid,
        r@.len() <= keep,
        forall|i: int, j: int| 0 <= i < j < r@.len() ==> r@[i] < r@[j],
        forall|i: int|
            0 <= i < r@.len() ==> has_snapshot(old(fs)@.dirs, backup_root@, #[trigger] r@[i])
                && has_snapshot(final(fs)@.dirs, backup_root@, r@[i]),
        forall|ts: u64|
            has_snapshot(final(fs)@.dirs, backup_root@, ts) <==> exists|i: int|
                0 <= i < r@.len() && #[trigger] r@[i] == ts,
        forall|ts: u64|
            #![trigger snapshot_name(ts)]
            has_snapshot(old(fs)@.dirs, backup_root@, ts) && !has_snapshot(
                final(fs)@.dirs,
                backup_root@,
                ts,
            ) ==> r@.len() == keep && (forall|i: int| 0 <= i < r@.len() ==> r@[i] > ts),
        forall|d: Seq<u8>|
            #[trigger] final(fs)@.dirs.contains(d) ==> old(fs)@.dirs.contains(d),
        forall|k: Seq<u8>|
            #[trigger] final(fs)@.files.contains_key(k) ==> old(fs)@.files.contains_key(k)
                && final(fs)@.files[k] == old(fs)@.files[k],
        forall|k: Seq<u8>|
            old(fs)@.files.contains_key(k) && !under_dir(backup_root@, k) ==> final(fs)@.files.contains_key(k),
        forall|d: Seq<u8>|
            old(fs)@.dirs.contains(d) && !under_dir(backup_root@, d) ==> final(fs)@.dirs.contains(d),
        forall|k: Seq<u8>|
            #[trigger] old(fs)@.files.contains_key(k) && !(exists|ts: u64|
                #![trigger snapshot_name(ts)]
                has_snapshot(old(fs)@.dirs, backup_root@, ts) && !has_snapshot(
                    final(fs)@.dirs,
                    backup_root@,
                    ts,
                ) && under_dir(join_seq(backup_root@, snapshot_name(ts)), k)) ==> final(fs)@.files.contains_key(k),
        forall|dd: Seq<u8>|
            #[trigger] old(fs)@.dirs.contains(dd) && !(exists|ts: u64|
                #![trigger snapshot_name(ts)]
                has_snapshot(old(fs)@.dirs, backup_root@, ts) && !has_snapshot(
                    final(fs)@.dirs,
                    backup_root@,
                    ts,
                ) && (dd == join_seq(backup_root@, snapshot_name(ts)) || under_dir(
                    join_seq(backup_root@, snapshot_name(ts)),
                    dd,
                ))) ==> final(fs)@.dirs.contains(dd),
{
    let tss = collect_snapshot_ts(fs, backup_root);
    let sorted = sort_u64(tss);
    let total = sorted.len();
    let excess: usize = if total > keep {
        total - keep
    } else {
        0
    };
    let ghost m0 = fs@;
    proof {
        assert forall|ts: u64|
            #![trigger snapshot_name(ts)]
            has_snapshot(m0.dirs, backup_root@, ts) == has_ts(sorted@, ts) by {
            if has_snapshot(m0.dirs, backup_root@, ts) {
                let j2 = choose|j2: int| 0 <= j2 < tss@.len() && #[trigger] tss@[j2] == ts;
            }
            if has_ts(sorted@, ts) {
                let j = choose|j: int| 0 <= j < sorted@.len() && #[trigger] sorted@[j] == ts;
            }
        }
    }
    let mut d: usize = 0;
    proof {
        assert(sorted@.skip(0) =~= sorted@);
    }
    while d < excess
        invariant
            fs.wf(),
            fs@.pid == m0.pid,
            backup_root@.len() + 30 <= usize::MAX,
            excess <= total == sorted@.len(),
            excess == (if total > keep {
                total - keep
            } else {
                0
            }),
            d <= excess,
            forall|i2: int, j2: int| 0 <= i2 < j2 < sorted@.len() ==> sorted@[i2]
                < sorted@[j2],
            forall|ts: u64|
                #![trigger snapshot_name(ts)]
                has_snapshot(m0.dirs, backup_root@, ts) <==> has_ts(sorted@, ts),
            forall|ts: u64|
                #![trigger snapshot_name(ts)]
                has_snapshot(fs@.dirs, backup_root@, ts) <==> has_ts(
                    sorted@.skip(d as int),
                    ts,
                ),
            forall|dd: Seq<u8>|
                #[trigger] fs@.dirs.contains(dd) ==> m0.dirs.contains(dd),
            forall|k: Seq<u8>|
                #[trigger] fs@.files.contains_key(k) ==> m0.files.contains_key(k)
                    && fs@.files[k] == m0.files[k],
            forall|k: Seq<u8>|
                m0.files.contains_key(k) && !under_dir(backup_root@, k)
                    ==> fs@.files.contains_key(k),
            forall|dd: Seq<u8>|
                m0.dirs.contains(dd) && !under_dir(backup_root@, dd) ==> fs@.dirs.contains(
                    dd,
                ),
            forall|k: Seq<u8>|
                #[trigger] m0.files.contains_key(k) && !(exists|j: int|
                    0 <= j < d && under_dir(
                        join_seq(backup_root@, snapshot_name(#[trigger] sorted@[j])),
                        k,
                    )) ==> fs@.files.contains_key(k),
            forall|dd: Seq<u8>|
                #[trigger] m0.dirs.contains(dd) && !(exists|j: int|
                    0 <= j < d && (dd == join_seq(
                        backup_root@,
                        snapshot_name(#[trigger] sorted@[j]),
                    ) || under_dir(join_seq(backup_root@, snapshot_name(sorted@[j])), dd)))
                    ==> fs@.dirs.contains(dd),
        decreases excess - d,
    {
        let name = snapshot_name_bytes(sorted[d]);
        let path = join_path(backup_root, name.as_slice());
        proof {
            lemma_snapshot_name_ok(sorted@[d as int]);
            crate::fs::lemma_join_parts(backup_root@, name@);
        }
        fs.remove_dir_all(path.as_slice());
        proof {
            assert forall|ts: u64|
                #![trigger snapshot_name(ts)]
                has_snapshot(fs@.dirs, backup_root@, ts) == has_ts(
                    sorted@.skip(d + 1),
                    ts,
                ) by {
                lemma_snapshot_name_ok(ts);
                crate::fs::lemma_join_parts(backup_root@, snapshot_name(ts));
                if ts == sorted@[d as int] {
                    assert(!fs@.dirs.contains(join_seq(backup_root@, snapshot_name(ts))));
                    if has_ts(sorted@.skip(d + 1), ts) {
                        let j = choose|j: int|
                            0 <= j < sorted@.skip(d + 1).len() && #[trigger] sorted@.skip(
                                d + 1,
                            )[j] == ts;
                        assert(sorted@[j + d + 1] == ts);
                    }
                } else {
                    lemma_snapshot_name_inj_auto(ts, sorted@[d as int]);
                    assert(join_seq(backup_root@, snapshot_name(ts)) != path@);
                    assert(!under_dir(path@, join_seq(backup_root@, snapshot_name(ts))))
                        by {
                        lemma_sibling_not_under(
                            backup_root@,
                            snapshot_name(sorted@[d as int]),
                            snapshot_name(ts),
                        );
                    }
                    if has_snapshot(fs@.dirs, backup_root@, ts) {
                        let j = choose|j: int|
                            0 <= j < sorted@.skip(d as int).len() && #[trigger] sorted@.skip(
                                d as int,
                            )[j] == ts;
                        assert(sorted@[j + d] == ts);
                        assert(j != 0);
                        assert(sorted@.skip(d + 1)[j - 1] == ts);
                    }
                    if has_ts(sorted@.skip(d + 1), ts) {
                        let j = choose|j: int|
                            0 <= j < sorted@.skip(d + 1).len() && #[trigger] sorted@.skip(
                                d + 1,
                            )[j] == ts;
                        assert(sorted@[j + d + 1] == ts);
                        assert(sorted@.skip(d as int)[j + 1] == ts);
                        assert(has_snapshot(m0.dirs, backup_root@, ts));
                    }
                }
            }
            assert forall|k: Seq<u8>|
                m0.files.contains_key(k) && !under_dir(backup_root@, k) implies #[trigger]
                fs@.files.contains_key(k) by {
                if under_dir(path@, k) {
                    lemma_under_child_under_dir(backup_root@, name@, k);
                }
            }
            assert forall|dd: Seq<u8>|
                m0.dirs.contains(dd) && !under_dir(backup_root@, dd) implies #[trigger]
                fs@.dirs.contains(dd) by {
                if under_dir(path@, dd) {
                    lemma_under_child_under_dir(backup_root@, name@, dd);
                }
                assert(dd != path@) by {
                    crate::fs::lemma_join_parts(backup_root@, name@);
                }
            }
        }
        d = d + 1;
    }
    let mut kept: Vec<u64> = Vec::new();
    let mut q: usize = excess;
    while q < total
        invariant
            excess <= q <= total == sorted@.len(),
            kept@.len() == q - excess,
            forall|j: int| 0 <= j < kept@.len() ==> #[trigger] kept@[j] == sorted@[j
                + excess],
        decreases total - q,
    {
        kept.push(sorted[q]);
        q = q + 1;
    }
    proof {
        assert forall|ts: u64|
            has_snapshot(fs@.dirs, backup_root@, ts) == (exists|i2: int|
                0 <= i2 < kept@.len() && #[trigger] kept@[i2] == ts) by {
            lemma_snapshot_name_ok(ts);
            if has_snapshot(fs@.dirs, backup_root@, ts) {
                let j = choose|j: int|
                    0 <= j < sorted@.skip(excess as int).len() && #[trigger] sorted@.skip(
                        excess as int,
                    )[j] == ts;
                assert(sorted@[j + excess] == ts);
                assert(kept@[j] == ts);
            }
            if exists|i2: int| 0 <= i2 < kept@.len() && #[trigger] kept@[i2] == ts {
                let i2 = choose|i2: int| 0 <= i2 < kept@.len() && #[trigger] kept@[i2] == ts;
                assert(sorted@[i2 + excess] == ts);
                assert(sorted@.skip(excess as int)[i2] == ts);
            }
        }
        assert forall|ts: u64|
            #![trigger snapshot_name(ts)]
            has_snapshot(m0.dirs, backup_root@, ts) && !has_snapshot(
                fs@.dirs,
                backup_root@,
                ts,
            ) implies kept@.len() == keep && (forall|i2: int|
            0 <= i2 < kept@.len() ==> kept@[i2] > ts) by {
            let j = choose|j: int| 0 <= j < sorted@.len() && #[trigger] sorted@[j] == ts;
            assert(j < excess) by {
                if j >= excess {
                    assert(sorted@.skip(excess as int)[j - excess] == ts);
                    assert(has_ts(sorted@.skip(excess as int), ts));
                }
            }
            assert(total > keep);
            assert forall|i2: int| 0 <= i2 < kept@.len() implies kept@[i2] > ts by {
                assert(kept@[i2] == sorted@[i2 + excess]);
                assert(sorted@[j] < sorted@[i2 + excess]);
            }
        }
        assert forall|i2: int|
            0 <= i2 < kept@.len() implies has_snapshot(
            m0.dirs,
            backup_root@,
            #[trigger] kept@[i2],
        ) && has_snapshot(fs@.dirs, backup_root@, kept@[i2]) by {
            assert(kept@[i2] == sorted@[i2 + excess]);
        }
    }
    kept
}

/// Helper: snapshot names of distinct timestamps differ.
proof fn lemma_snapshot_name_inj_auto(a: u64, b: u64)
    requires
        a != b,
    ensures
        snapshot_name(a) != snapshot_name(b),
{
    if snapshot_name(a) == snapshot_name(b) {
        lemma_snapshot_name_inj(a, b);
    }
}

/// A path under a direct child of `dir` lies under `dir` as well.
proof fn lemma_under_child_under_dir(dir: Seq<u8>, name: Seq<u8>, k: Seq<u8>)
    requires
        under_dir(join_seq(dir, name), k),
    ensures
        under_dir(dir, k),
{
    let c = join_seq(dir, name);
    assert(k.take(c.len() + 1 as int).take(dir.len() + 1 as int) =~= k.take(
        dir.len() + 1 as int,
    ));
    assert(k.take(c.len() + 1 as int) == c + crate::fs::sep());
    assert((c + crate::fs::sep()).take(dir.len() + 1 as int) =~= dir + crate::fs::sep());
}

/// A direct child of `dir` never lies under a distinct sibling.
proof fn lemma_sibling_not_under(dir: Seq<u8>, a: Seq<u8>, b: Seq<u8>)
    requires
        no_slash(a),
        no_slash(b),
    ensures
        !under_dir(join_seq(dir, a), join_seq(dir, b)),
{
    if !under_dir(join_seq(dir, a), join_seq(dir, b)) {
        return ;
    }
    let ca = join_seq(dir, a);
    let cb = join_seq(dir, b);
    assert(cb.take(ca.len() + 1 as int) == ca + crate::fs::sep());
    assert(cb.take(ca.len() + 1 as int)[ca.len() as int] == cb[ca.len() as int]);
    assert((ca + crate::fs::sep())[ca.len() as int] == 47);
    assert(cb[ca.len() as int] == 47);
    if ca.len() < dir.len() + 1 {
        assert(cb[ca.len() as int] == (dir + crate::fs::sep())[ca.len() as int]);
        assert(ca.len() == dir.len()) by {
            if ca.len() < dir.len() {
                assert((dir + crate::fs::sep())[ca.len() as int] == dir[ca.len() as int]);
                assert(ca.len() == dir.len() + 1 + a.len());
            }
        }
        assert(ca.len() == dir.len() + 1 + a.len());
    } else {
        assert(cb[ca.len() as int] == b[ca.len() - dir.len() - 1]);
    }
    assert(false);
}

/// Takes one snapshot of `text` at time `ts`: the backup root and the
/// snapshot directory exist afterwards, and the mirrored copy of the
/// document holds `text`.
pub fn snapshot_write(fs: &mut Fs, project_root: &[u8], source_path: &[u8], text: &[u8], ts: u64)
    requires
        old(fs).wf(),
        project_root@.len() + source_path@.len() + 70 <= usize::MAX,
    ensures
        final(fs).wf(),
        final(fs)@.pid == old(fs)@.pid,
        ({
            let broot = join_seq(project_root@, ascii_seq(".backup"@));
            let sdir = join_seq(broot, snapshot_name(ts));
            let rel = if under_dir(project_root@, source_path@) {
                source_path@.skip(project_root@.len() + 1 as int)
            } else {
                source_path@
            };
            let dst = join_seq(sdir, rel);
            &&& final(fs)@.dirs == old(fs)@.dirs.insert(broot).insert(sdir)
            &&& final(fs)@.files == old(fs)@.files.remove(
                temp_path_seq(dst, old(fs)@.pid),
            ).insert(dst, text@)
        }),
{
    proof {
        reveal_strlit(".backup");
    }
    let broot = join_path(project_root, ascii_bytes(".backup").as_slice());
    fs.ensure_dir(broot.as_slice());
    let name = snapshot_name_bytes(ts);
    let sdir = join_path(broot.as_slice(), name.as_slice());
    fs.ensure_dir(sdir.as_slice());
    let mut rootslash = slice_to_vec(project_root);
    rootslash.push(47);
    proof {
        assert(rootslash@ =~= project_root@ + crate::fs::sep());
    }
    let rel: &[u8] = if crate::text::starts_with(source_path, rootslash.as_slice()) {
        slice_subrange(source_path, rootslash.len(), source_path.len())
    } else {
        source_path
    };
    proof {
        if under_dir(project_root@, source_path@) {
            assert(rel@ =~= source_path@.skip(project_root@.len() + 1 as int));
        }
    }
    let dst = join_path(sdir.as_slice(), rel);
    crate::storage::write_text_atomic(fs, dst.as_slice(), text);
}

/// Takes a snapshot of the document at the present time and applies the
/// retention policy of keeping the 30 most recent snapshots. Only the
/// backup tree is touched.
pub fn backup_text(fs: &mut Fs, project_root: &[u8], source_path: &[u8], text: &[u8])
    requires
        old(fs).wf(),
        project_root@.len() + source_path@.len() + 70 <= usize::MAX,
    ensures
        final(fs).wf(),
        final(fs)@.pid == old(fs)@.pid,
        ({
            let broot = join_seq(project_root@, ascii_seq(".backup"@));
            &&& (forall|k: Seq<u8>|
                !under_dir(broot, k) ==> (#[trigger] final(fs)@.files.contains_key(k)
                    <==> old(fs)@.files.contains_key(k)))
            &&& (forall|k: Seq<u8>|
                !under_dir(broot, k) && #[trigger] final(fs)@.files.contains_key(k)
                    ==> final(fs)@.files[k] == old(fs)@.files[k])
            &&& (forall|d: Seq<u8>|
                d != broot && !under_dir(broot, d) ==> (#[trigger] final(fs)@.dirs.contains(d) <==> old(fs)@.dirs.contains(d)))
        }),
{
    proof {
        reveal_strlit(".backup");
    }
    let ts = crate::clock::now_unix();
    let ghost broot = join_seq(project_root@, ascii_seq(".backup"@));
    snapshot_write(fs, project_root, source_path, text, ts);
    proof {
        let sdir = join_seq(broot, snapshot_name(ts));
        let rel = if under_dir(project_root@, source_path@) {
            source_path@.skip(project_root@.len() + 1 as int)
        } else {
            source_path@
        };
        let dst = join_seq(sdir, rel);
        lemma_snapshot_name_ok(ts);
        crate::fs::lemma_join_parts(broot, snapshot_name(ts));
        crate::fs::lemma_join_parts(sdir, rel);
        lemma_under_child_under_dir(broot, snapshot_name(ts), dst);
        assert(under_dir(broot, dst));
        assert(under_dir(broot, temp_path_seq(dst, old(fs)@.pid))) by {
            assert(temp_path_seq(dst, old(fs)@.pid).take(broot.len() + 1 as int) =~= dst.take(
                broot.len() + 1 as int,
            ));
        }
    }
    let bpath = join_path(project_root, ascii_bytes(".backup").as_slice());
    let _ = cleanup_old_backups(fs, bpath.as_slice(), 30);
}


/// True when enough time has passed since the last snapshot: `now` has
/// reached the last snapshot time plus the interval (saturating at the
/// top of the clock's range).
pub fn should_snapshot(now: u64, last_backup_time: u64, min_interval: u64) -> (r: bool)
    ensures
        r == (now as int >= (if last_backup_time + min_interval > u64::MAX {
            u64::MAX as int
        } else {
            last_backup_time + min_interval
        })),
{
    if min_interval > u64::MAX - last_backup_time {
        now == u64::MAX
    } else {
        now >= last_backup_time + min_interval
    }
}

/// Takes a snapshot only when the interval since the last one has
/// elapsed, pruning to the retention count afterwards; returns the new
/// last-snapshot time. Outside the interval nothing changes.
pub fn maybe_snapshot(
    fs: &mut Fs,
    project_root: &[u8],
    document_path: &[u8],
    text: &[u8],
    last_backup_time: u64,
    min_interval: u64,
) -> (r: u64)
    requires
        old(fs).wf(),
        project_root@.len() + document_path@.len() + 70 <= usize::MAX,
    ensures
        final(fs).wf(),
        final(fs)@.pid == old(fs)@.pid,
        ({
            let broot = join_seq(project_root@, ascii_seq(".backup"@));
            ||| (final(fs)@ == old(fs)@ && r == last_backup_time)
            ||| ((forall|k: Seq<u8>|
                !under_dir(broot, k) ==> (#[trigger] final(fs)@.files.contains_key(k)
                    <==> old(fs)@.files.contains_key(k))) && (forall|k: Seq<u8>|
                !under_dir(broot, k) && #[trigger] final(fs)@.files.contains_key(k)
                    ==> final(fs)@.files[k] == old(fs)@.files[k]) && (forall|d: Seq<u8>|
                d != broot && !under_dir(broot, d) ==> (#[trigger] final(fs)@.dirs.contains(d) <==> old(fs)@.dirs.contains(d))))
        }),
{
    let now = crate::clock::now_unix();
    if should_snapshot(now, last_backup_time, min_interval) {
        backup_text(fs, project_root, document_path, text);
        now
    } else {
        last_backup_time
    }
}
} // verus!
