//! Atomic single-file persistence and the sweep of orphaned write
//! artifacts.
//!
//! A write first lands in a sibling temporary file `<path>.tmp.<pid>`,
//! then is published onto the target in one rename. A crash between the
//! two steps leaves the target untouched; the leaked artifact is removed
//! by the sweep run at project-open time.

use vstd::prelude::*;

verus! {

use crate::fs::Fs;
use crate::fs::FsError;
use crate::fs::FsModel;
use crate::fs::join_seq;
use crate::fs::is_child;
use crate::fs::child_name;
use crate::fs::in_dir;
use crate::num::dec_digits;
use crate::num::pow10;
use crate::text::ascii_seq;
use crate::text::ascii_bytes;
use crate::text::contains_seq;
use crate::text::matches_at;

/// The marker that names every transient write artifact.
pub open spec fn tmp_marker() -> Seq<u8> {
    ascii_seq(".tmp."@)
}

/// The sibling temporary path used to stage a write of `path`.
pub open spec fn temp_path_seq(path: Seq<u8>, pid: u64) -> Seq<u8> {
    path + tmp_marker() + dec_digits(pid as nat)
}

/// `dec_digits` of a `u64` has at most 20 digits.
pub proof fn lemma_dec_digits_len_u64(n: u64)
    ensures
        dec_digits(n as nat).len() <= 20,
{
    assert(pow10(0) == 1);
    assert(pow10(1) == 10);
    assert(pow10(2) == 100);
    assert(pow10(3) == 1000);
    assert(pow10(4) == 10000);
    assert(pow10(5) == 100000);
    assert(pow10(6) == 1000000);
    assert(pow10(7) == 10000000);
    assert(pow10(8) == 100000000);
    assert(pow10(9) == 1000000000);
    assert(pow10(10) == 10000000000);
    assert(pow10(11) == 100000000000);
    assert(pow10(12) == 1000000000000);
    assert(pow10(13) == 10000000000000);
    assert(pow10(14) == 100000000000000);
    assert(pow10(15) == 1000000000000000);
    assert(pow10(16) == 10000000000000000);
    assert(pow10(17) == 100000000000000000);
    assert(pow10(18) == 1000000000000000000);
    assert(pow10(19) == 10000000000000000000);
    assert(pow10(20) == 100000000000000000000);
    lemma_dec_digits_len_bound(n as nat, 20);
}

pub proof fn lemma_dec_digits_len_bound(n: nat, k: nat)
    requires
        k >= 1,
        n < pow10(k),
    ensures
        dec_digits(n).len() <= k,
    decreases k,
{
    if n < 10 {
    } else {
        assert(k >= 2) by {
            assert(pow10(0) == 1);
            assert(pow10(1) == 10);
            if k == 1 {
            }
        }
        assert(pow10(k) == 10 * pow10((k - 1) as nat));
        assert(n / 10 < pow10((k - 1) as nat)) by (nonlinear_arith)
            requires
                n < 10 * pow10((k - 1) as nat),
                n >= 10,
        ;
        lemma_dec_digits_len_bound(n / 10, (k - 1) as nat);
    }
}

/// The staging path differs from the target and carries the marker.
pub proof fn lemma_temp_path_parts(path: Seq<u8>, pid: u64)
    ensures
        temp_path_seq(path, pid) != path,
        temp_path_seq(path, pid).len() == path.len() + 5 + dec_digits(pid as nat).len(),
        contains_seq(temp_path_seq(path, pid), tmp_marker()),
{
    let t = temp_path_seq(path, pid);
    reveal_strlit(".tmp.");
    crate::num::lemma_dec_digits(pid as nat);
    assert(t.len() == path.len() + tmp_marker().len() + dec_digits(pid as nat).len());
    assert(tmp_marker().len() == 5);
    assert(t.subrange(path.len() as int, path.len() + 5 as int) =~= tmp_marker());
    assert(matches_at(t, tmp_marker(), path.len() as int));
}

/// Builds the staging path for `path`.
pub fn temp_path(path: &[u8], pid: u64) -> (r: Vec<u8>)
    requires
        path@.len() + 25 <= usize::MAX,
    ensures
        r@ == temp_path_seq(path@, pid),
{
    proof {
        reveal_strlit(".tmp.");
        lemma_dec_digits_len_u64(pid);
    }
    let mut r = vstd::slice::slice_to_vec(path);
    let marker = ascii_bytes(".tmp.");
    crate::text::push_all(&mut r, marker.as_slice());
    let digits = crate::num::u64_to_dec(pid);
    crate::text::push_all(&mut r, digits.as_slice());
    r
}

/// Stage step of the atomic writer: writes the new contents beside the
/// target. The target itself keeps its previous contents (or absence).
pub fn stage_temp(fs: &mut Fs, path: &[u8], data: &[u8])
    requires
        old(fs).wf(),
        path@.len() + 25 <= usize::MAX,
    ensures
        final(fs).wf(),
        final(fs)@.pid == old(fs)@.pid,
        final(fs)@.dirs == old(fs)@.dirs,
        final(fs)@.files == old(fs)@.files.insert(
            temp_path_seq(path@, old(fs)@.pid),
            data@,
        ),
        final(fs)@.files.contains_key(path@) == old(fs)@.files.contains_key(path@),
        old(fs)@.files.contains_key(path@) ==> final(fs)@.files[path@] == old(
            fs,
        )@.files[path@],
{
    let pid = fs.pid();
    let tmp = temp_path(path, pid);
    proof {
        lemma_temp_path_parts(path@, pid);
    }
    fs.write_file(tmp.as_slice(), data);
}

/// Publish step of the atomic writer: renames the staged file onto the
/// target, replacing it.
pub fn publish_temp(fs: &mut Fs, path: &[u8]) -> (r: Result<(), FsError>)
    requires
        old(fs).wf(),
        path@.len() + 25 <= usize::MAX,
    ensures
        final(fs).wf(),
        final(fs)@.pid == old(fs)@.pid,
        final(fs)@.dirs == old(fs)@.dirs,
        r is Ok <==> old(fs)@.files.contains_key(temp_path_seq(path@, old(fs)@.pid)),
        r is Ok ==> final(fs)@.files == old(fs)@.files.remove(
            temp_path_seq(path@, old(fs)@.pid),
        ).insert(path@, old(fs)@.files[temp_path_seq(path@, old(fs)@.pid)]),
        r is Err ==> final(fs)@ == old(fs)@,
{
    let pid = fs.pid();
    let tmp = temp_path(path, pid);
    proof {
        lemma_temp_path_parts(path@, pid);
    }
    fs.replace_file(tmp.as_slice(), path)
}

/// Writes `text` to `path` so that the target only ever holds either its
/// previous contents or `text` in full.
pub fn write_text_atomic(fs: &mut Fs, path: &[u8], text: &[u8])
    requires
        old(fs).wf(),
        path@.len() + 25 <= usize::MAX,
    ensures
        final(fs).wf(),
        final(fs)@.pid == old(fs)@.pid,
        final(fs)@.dirs == old(fs)@.dirs,
        final(fs)@.files == old(fs)@.files.remove(
            temp_path_seq(path@, old(fs)@.pid),
        ).insert(path@, text@),
        !old(fs)@.files.contains_key(temp_path_seq(path@, old(fs)@.pid)) ==> final(fs)@.files == old(fs)@.files.insert(path@, text@),
{
    let ghost m0 = fs@.files;
    let ghost t = temp_path_seq(path@, fs@.pid);
    stage_temp(fs, path, text);
    let r = publish_temp(fs, path);
    proof {
        lemma_temp_path_parts(path@, old(fs)@.pid);
        assert(r is Ok);
        assert(fs@.files =~= m0.remove(t).insert(path@, text@));
        if !m0.contains_key(t) {
            assert(m0.remove(t) =~= m0);
        }
    }
}

/// Contents of the file at `path`, or `NotFound`.
pub fn read_text(fs: &Fs, path: &[u8]) -> (r: Result<Vec<u8>, FsError>)
    requires
        fs.wf(),
    ensures
        match r {
            Ok(d) => fs@.files.contains_key(path@) && d@ == fs@.files[path@],
            Err(e) => !fs@.files.contains_key(path@) && e == FsError::NotFound,
        },
{
    match fs.read_file(path) {
        Some(d) => Ok(d),
        None => Err(FsError::NotFound),
    }
}


/// The crash window of the atomic writer, closed by the sweep: the
/// artifact staged beside a document of a swept directory is itself a
/// direct child of that directory carrying the marker, so the sweep
/// removes it.
pub proof fn lemma_staged_artifact_swept(root: Seq<u8>, i: int, path: Seq<u8>, pid: u64)
    requires
        0 <= i < 5,
        is_child(path, sweep_dir(root, i)),
    ensures
        is_swept(root, temp_path_seq(path, pid)),
{
    reveal_strlit(".tmp.");
    crate::num::lemma_dec_digits(pid as nat);
    let dir = sweep_dir(root, i);
    let name = child_name(path, dir);
    crate::fs::lemma_under_dir_split(dir, path);
    let t = temp_path_seq(path, pid);
    let nm = name + tmp_marker() + dec_digits(pid as nat);
    assert(t =~= crate::fs::join_seq(dir, nm));
    crate::fs::lemma_join_parts(dir, nm);
    assert(crate::fs::no_slash(nm)) by {
        assert forall|q: int| 0 <= q < nm.len() implies nm[q] != 47 by {
            if q < name.len() {
                assert(nm[q] == name[q]);
            } else if q < name.len() + 5 {
                assert(nm[q] == tmp_marker()[q - name.len()]);
            } else {
                assert(nm[q] == dec_digits(pid as nat)[q - name.len() - 5]);
                assert(crate::text::spec_is_digit(nm[q]));
            }
        }
    }
    assert(is_child(t, dir));
    assert(contains_seq(nm, tmp_marker())) by {
        assert(nm.subrange(name.len() as int, name.len() + 5 as int) =~= tmp_marker());
        assert(matches_at(nm, tmp_marker(), name.len() as int));
    }
    assert(child_name(t, dir) == nm);
}

/// The directories whose transient artifacts the sweep removes: the
/// project root and its four category directories.
pub open spec fn sweep_dir(root: Seq<u8>, i: int) -> Seq<u8> {
    if i == 0 {
        root
    } else if i == 1 {
        join_seq(root, ascii_seq("chapters"@))
    } else if i == 2 {
        join_seq(root, ascii_seq("characters"@))
    } else if i == 3 {
        join_seq(root, ascii_seq("world"@))
    } else {
        join_seq(root, ascii_seq("timeline"@))
    }
}

/// True when the sweep removes the file at `k`: it sits directly in one
/// of the swept directories and its name carries the marker.
pub open spec fn is_swept(root: Seq<u8>, k: Seq<u8>) -> bool {
    exists|i: int|
        0 <= i < 5 && is_child(k, #[trigger] sweep_dir(root, i)) && contains_seq(
            child_name(k, sweep_dir(root, i)),
            tmp_marker(),
        )
}

/// A path directly inside two directories is inside one directory only.
pub proof fn lemma_child_dir_unique(k: Seq<u8>, d1: Seq<u8>, d2: Seq<u8>)
    requires
        is_child(k, d1),
        is_child(k, d2),
    ensures
        d1 == d2,
{
    let l1 = d1.len() as int;
    let l2 = d2.len() as int;
    assert(k[l1] == 47) by {
        assert(k.take(l1 + 1) == d1 + crate::fs::sep());
        assert(k.take(l1 + 1)[l1] == k[l1]);
        assert((d1 + crate::fs::sep())[l1] == 47);
    }
    assert(k[l2] == 47) by {
        assert(k.take(l2 + 1) == d2 + crate::fs::sep());
        assert(k.take(l2 + 1)[l2] == k[l2]);
        assert((d2 + crate::fs::sep())[l2] == 47);
    }
    if l1 < l2 {
        assert(k.skip(l1 + 1)[l2 - l1 - 1] == k[l2]);
        assert(false);
    }
    if l2 < l1 {
        assert(k.skip(l2 + 1)[l1 - l2 - 1] == k[l1]);
        assert(false);
    }
    assert(d1 =~= k.take(l1 + 1).take(l1));
    assert(d2 =~= k.take(l2 + 1).take(l2));
}

/// The five swept directories are pairwise distinct.
pub proof fn lemma_sweep_dirs_distinct(root: Seq<u8>)
    ensures
        forall|i: int, j: int|
            0 <= i < j < 5 ==> #[trigger] sweep_dir(root, i) != #[trigger] sweep_dir(
                root,
                j,
            ),
{
    reveal_strlit("chapters");
    reveal_strlit("characters");
    reveal_strlit("world");
    reveal_strlit("timeline");
    assert forall|i: int, j: int| 0 <= i < j < 5 implies #[trigger] sweep_dir(root, i)
        != #[trigger] sweep_dir(root, j) by {
        if i == 0 {
            assert(sweep_dir(root, j).len() > root.len());
        } else {
            let a = sweep_dir(root, i);
            let b = sweep_dir(root, j);
            if a == b {
                if i == 1 && j == 4 {
                    crate::fs::lemma_join_inj(root, ascii_seq("chapters"@), ascii_seq("timeline"@));
                    assert(ascii_seq("chapters"@)[0] == 99);
                    assert(ascii_seq("timeline"@)[0] == 116);
                } else {
                    crate::fs::lemma_join_parts(root, ascii_seq("chapters"@));
                    crate::fs::lemma_join_parts(root, ascii_seq("characters"@));
                    crate::fs::lemma_join_parts(root, ascii_seq("world"@));
                    crate::fs::lemma_join_parts(root, ascii_seq("timeline"@));
                    assert(a.len() != b.len());
                }
            }
        }
    }
}

/// The tree after the open-time sweep: the same files, minus every
/// direct child of a swept directory whose name carries the marker.
pub open spec fn sweep_spec(m: Map<Seq<u8>, Seq<u8>>, root: Seq<u8>) -> Map<Seq<u8>, Seq<u8>> {
    Map::new(|k: Seq<u8>| m.contains_key(k) && !is_swept(root, k), |k: Seq<u8>| m[k])
}

/// The atomic writer's crash window, end to end: interrupted between
/// the stage and the publish of a write to a document of a swept
/// directory, the target still holds exactly its previous contents (or
/// stays absent), the only new entry is the sibling staging artifact,
/// and the open-time sweep returns the tree to a sweep of the
/// untouched original.
pub proof fn lemma_atomic_crash_window(
    m: Map<Seq<u8>, Seq<u8>>,
    root: Seq<u8>,
    i: int,
    path: Seq<u8>,
    data: Seq<u8>,
    pid: u64,
)
    requires
        0 <= i < 5,
        is_child(path, sweep_dir(root, i)),
    ensures
        ({
            let staged = m.insert(temp_path_seq(path, pid), data);
            &&& staged.contains_key(path) == m.contains_key(path)
            &&& (m.contains_key(path) ==> staged[path] == m[path])
            &&& forall|k: Seq<u8>|
                k != temp_path_seq(path, pid) ==> (#[trigger] staged.contains_key(k)
                    <==> m.contains_key(k)) && (staged.contains_key(k) ==> staged[k] == m[k])
            &&& sweep_spec(staged, root) == sweep_spec(m, root)
        }),
{
    lemma_temp_path_parts(path, pid);
    lemma_staged_artifact_swept(root, i, path, pid);
    let staged = m.insert(temp_path_seq(path, pid), data);
    assert(sweep_spec(staged, root) =~= sweep_spec(m, root));
}

/// Removes every leftover write artifact in the project's directories.
pub fn cleanup_temp_files(fs: &mut Fs, root: &[u8])
    requires
        old(fs).wf(),
        root@.len() + 16 <= usize::MAX,
    ensures
        final(fs).wf(),
        final(fs)@.pid == old(fs)@.pid,
        final(fs)@.dirs == old(fs)@.dirs,
        forall|k: Seq<u8>|
            #[trigger] final(fs)@.files.contains_key(k) <==> old(fs)@.files.contains_key(k)
                && !is_swept(root@, k),
        forall|k: Seq<u8>|
            final(fs)@.files.contains_key(k) ==> final(fs)@.files[k] == old(fs)@.files[k],
        final(fs)@.files == sweep_spec(old(fs)@.files, root@),
{
    let mut doomed: Vec<Vec<u8>> = Vec::new();
    proof {
        reveal_strlit(".tmp.");
        lemma_sweep_dirs_distinct(root@);
    }
    let marker = ascii_bytes(".tmp.");
    let mut d: usize = 0;
    while d < 5
        invariant
            fs.wf(),
            fs@ == old(fs)@,
            root@.len() + 16 <= usize::MAX,
            marker@ == tmp_marker(),
            d <= 5,
            forall|j: int|
                #![trigger doomed@[j]]
                0 <= j < doomed@.len() ==> fs@.files.contains_key(doomed@[j]@) && exists|
                i: int,
                |
                    0 <= i < d && is_child(doomed@[j]@, #[trigger] sweep_dir(root@, i))
                        && contains_seq(
                        child_name(doomed@[j]@, sweep_dir(root@, i)),
                        tmp_marker(),
                    ),
            forall|k: Seq<u8>, i: int|
                #![trigger is_child(k, sweep_dir(root@, i))]
                0 <= i < d && is_child(k, sweep_dir(root@, i)) && contains_seq(
                    child_name(k, sweep_dir(root@, i)),
                    tmp_marker(),
                ) && fs@.files.contains_key(k) ==> exists|j: int|
                    0 <= j < doomed@.len() && #[trigger] doomed@[j]@ == k,
            forall|j1: int, j2: int| 0 <= j1 < j2 < doomed@.len() ==> doomed@[j1]@
                != doomed@[j2]@,
        decreases 5 - d,
    {
        proof {
            reveal_strlit("chapters");
            reveal_strlit("characters");
            reveal_strlit("world");
            reveal_strlit("timeline");
        }
        let dir: Vec<u8> = if d == 0 {
            vstd::slice::slice_to_vec(root)
        } else if d == 1 {
            crate::fs::join_path(root, ascii_bytes("chapters").as_slice())
        } else if d == 2 {
            crate::fs::join_path(root, ascii_bytes("characters").as_slice())
        } else if d == 3 {
            crate::fs::join_path(root, ascii_bytes("world").as_slice())
        } else {
            crate::fs::join_path(root, ascii_bytes("timeline").as_slice())
        };
        proof {
            reveal_strlit("chapters");
            reveal_strlit("characters");
            reveal_strlit("world");
            reveal_strlit("timeline");
            assert(dir@ == sweep_dir(root@, d as int));
            lemma_sweep_dirs_distinct(root@);
        }
        let names = fs.list_dir(dir.as_slice());
        proof {
            assert forall|j: int| 0 <= j < doomed@.len() implies !is_child(
                doomed@[j]@,
                dir@,
            ) by {
                if is_child(doomed@[j]@, dir@) {
                    let i = choose|i: int|
                        0 <= i < d && is_child(doomed@[j]@, #[trigger] sweep_dir(root@, i))
                            && contains_seq(
                            child_name(doomed@[j]@, sweep_dir(root@, i)),
                            tmp_marker(),
                        );
                    lemma_child_dir_unique(doomed@[j]@, sweep_dir(root@, i), dir@);
                }
            }
        }
        let mut n: usize = 0;
        while n < names.len()
            invariant
                fs.wf(),
                fs@ == old(fs)@,
                root@.len() + 16 <= usize::MAX,
                marker@ == tmp_marker(),
                d < 5,
                dir@ == sweep_dir(root@, d as int),
                n <= names@.len(),
                forall|j: int|
                    0 <= j < names@.len() ==> in_dir(
                        fs@.files,
                        dir@,
                        #[trigger] names@[j]@,
                    ),
                forall|name: Seq<u8>|
                    in_dir(fs@.files, dir@, name) ==> exists|j: int|
                        0 <= j < names@.len() && #[trigger] names@[j]@ == name,
                forall|j1: int, j2: int| 0 <= j1 < j2 < names@.len() ==> names@[j1]@
                    != names@[j2]@,
                forall|j: int|
                    0 <= j < names@.len() ==> dir@.len() + 1 + #[trigger] names@[j]@.len()
                        <= usize::MAX,
                forall|j: int|
                    #![trigger doomed@[j]]
                    0 <= j < doomed@.len() ==> fs@.files.contains_key(doomed@[j]@) && exists|
                    i: int,
                    |
                        0 <= i <= d && is_child(doomed@[j]@, #[trigger] sweep_dir(root@, i))
                            && contains_seq(
                            child_name(doomed@[j]@, sweep_dir(root@, i)),
                            tmp_marker(),
                        ),
                forall|j: int|
                    #![trigger doomed@[j]]
                    0 <= j < doomed@.len() && is_child(doomed@[j]@, dir@) ==> exists|
                    j2: int,
                    |
                        0 <= j2 < n && #[trigger] names@[j2]@ == child_name(
                            doomed@[j]@,
                            dir@,
                        ),
                forall|k: Seq<u8>, i: int|
                    #![trigger is_child(k, sweep_dir(root@, i))]
                    0 <= i < d && is_child(k, sweep_dir(root@, i))
                        && contains_seq(child_name(k, sweep_dir(root@, i)), tmp_marker())
                        && fs@.files.contains_key(k) ==> exists|j: int|
                        0 <= j < doomed@.len() && #[trigger] doomed@[j]@ == k,
                forall|j: int|
                    0 <= j < n && contains_seq(#[trigger] names@[j]@, tmp_marker())
                        ==> exists|j2: int|
                        0 <= j2 < doomed@.len() && #[trigger] doomed@[j2]@ == join_seq(
                            dir@,
                            names@[j]@,
                        ),
                forall|j1: int, j2: int| 0 <= j1 < j2 < doomed@.len() ==> doomed@[j1]@
                    != doomed@[j2]@,
            decreases names@.len() - n,
        {
            if crate::text::contains_sub(names[n].as_slice(), marker.as_slice()) {
                let p = crate::fs::join_path(dir.as_slice(), names[n].as_slice());
                proof {
                    crate::fs::lemma_join_parts(dir@, names@[n as int]@);
                    assert(is_child(p@, dir@));
                    assert(child_name(p@, dir@) == names@[n as int]@);
                    lemma_sweep_dirs_distinct(root@);
                    assert forall|j: int| 0 <= j < doomed@.len() implies doomed@[j]@
                        != p@ by {
                        if doomed@[j]@ == p@ {
                            let i = choose|i: int|
                                0 <= i <= d && is_child(
                                    doomed@[j]@,
                                    #[trigger] sweep_dir(root@, i),
                                ) && contains_seq(
                                    child_name(doomed@[j]@, sweep_dir(root@, i)),
                                    tmp_marker(),
                                );
                            lemma_child_dir_unique(doomed@[j]@, sweep_dir(root@, i), dir@);
                            let j2 = choose|j2: int|
                                0 <= j2 < n && #[trigger] names@[j2]@ == child_name(
                                    doomed@[j]@,
                                    dir@,
                                );
                            assert(names@[j2]@ == names@[n as int]@);
                        }
                    }
                }
                let ghost prevd = doomed@;
                doomed.push(p);
                proof {
                    assert(forall|j: int| 0 <= j < prevd.len() ==> doomed@[j] == prevd[j]);
                    assert forall|j: int|
                        0 <= j < n + 1 && contains_seq(
                            #[trigger] names@[j]@,
                            tmp_marker(),
                        ) implies exists|j2: int|
                        0 <= j2 < doomed@.len() && #[trigger] doomed@[j2]@ == join_seq(
                            dir@,
                            names@[j]@,
                        ) by {
                        if j == n {
                            assert(doomed@[doomed@.len() - 1]@ == join_seq(
                                dir@,
                                names@[j]@,
                            ));
                        } else {
                            let j2 = choose|j2: int|
                                0 <= j2 < prevd.len() && #[trigger] prevd[j2]@ == join_seq(
                                    dir@,
                                    names@[j]@,
                                );
                            assert(doomed@[j2] == prevd[j2]);
                        }
                    }
                    assert forall|j: int|
                        0 <= j < doomed@.len() && is_child(
                            #[trigger] doomed@[j]@,
                            dir@,
                        ) implies exists|j2: int|
                        0 <= j2 < n + 1 && #[trigger] names@[j2]@ == child_name(
                            doomed@[j]@,
                            dir@,
                        ) by {
                        if j < doomed@.len() - 1 {
                            assert(doomed@[j] == prevd[j]);
                            let j2 = choose|j2: int|
                                0 <= j2 < n && #[trigger] names@[j2]@ == child_name(
                                    prevd[j]@,
                                    dir@,
                                );
                            assert(names@[j2]@ == child_name(doomed@[j]@, dir@));
                        } else {
                            assert(names@[n as int]@ == child_name(doomed@[j]@, dir@));
                        }
                    }
                }
            }
            n = n + 1;
        }
        proof {
            assert forall|k: Seq<u8>, i: int|
                #![trigger is_child(k, sweep_dir(root@, i))]
                0 <= i < d + 1 && is_child(k, sweep_dir(root@, i))
                    && contains_seq(child_name(k, sweep_dir(root@, i)), tmp_marker())
                    && fs@.files.contains_key(k) implies exists|j: int|
                0 <= j < doomed@.len() && #[trigger] doomed@[j]@ == k by {
                if i == d {
                    crate::fs::lemma_under_dir_split(dir@, k);
                    let name = child_name(k, dir@);
                    assert(in_dir(fs@.files, dir@, name));
                    let j = choose|j: int|
                        0 <= j < names@.len() && #[trigger] names@[j]@ == name;
                    assert(contains_seq(names@[j]@, tmp_marker()));
                    let j2 = choose|j2: int|
                        0 <= j2 < doomed@.len() && #[trigger] doomed@[j2]@ == join_seq(
                            dir@,
                            names@[j]@,
                        );
                    assert(doomed@[j2]@ == k);
                }
            }
        }
        d = d + 1;
    }
    proof {
        assert(d == 5);
        assert forall|j: int| 0 <= j < doomed@.len() implies fs@.files.contains_key(
            doomed@[j]@,
        ) && is_swept(root@, doomed@[j]@) by {
            let i2 = choose|i2: int|
                0 <= i2 < 5 && is_child(doomed@[j]@, #[trigger] sweep_dir(root@, i2))
                    && contains_seq(
                    child_name(doomed@[j]@, sweep_dir(root@, i2)),
                    tmp_marker(),
                );
            assert(is_child(doomed@[j]@, sweep_dir(root@, i2)));
        }
    }
    let ghost m0 = fs@.files;
    let mut i: usize = 0;
    while i < doomed.len()
        invariant
            fs.wf(),
            fs@.pid == old(fs)@.pid,
            fs@.dirs == old(fs)@.dirs,
            i <= doomed@.len(),
            m0 == old(fs)@.files,
            forall|j: int|
                #![trigger doomed@[j]]
                0 <= j < doomed@.len() ==> m0.contains_key(doomed@[j]@) && is_swept(
                    root@,
                    doomed@[j]@,
                ),
            forall|k: Seq<u8>, i2: int|
                #![trigger is_child(k, sweep_dir(root@, i2))]
                0 <= i2 < 5 && is_child(k, sweep_dir(root@, i2)) && contains_seq(
                    child_name(k, sweep_dir(root@, i2)),
                    tmp_marker(),
                ) && m0.contains_key(k) ==> exists|j: int|
                    0 <= j < doomed@.len() && #[trigger] doomed@[j]@ == k,
            forall|j1: int, j2: int| 0 <= j1 < j2 < doomed@.len() ==> doomed@[j1]@
                != doomed@[j2]@,
            forall|k: Seq<u8>|
                #[trigger] fs@.files.contains_key(k) <==> m0.contains_key(k) && !(exists|
                j: int,
                |
                    0 <= j < i && #[trigger] doomed@[j]@ == k),
            forall|k: Seq<u8>|
                fs@.files.contains_key(k) ==> fs@.files[k] == m0[k],
        decreases doomed@.len() - i,
    {
        proof {
            assert(fs@.files.contains_key(doomed@[i as int]@));
        }
        let res = fs.remove_file(doomed[i].as_slice());
        proof {
            assert(res is Ok);
            assert forall|k: Seq<u8>| #[trigger]
                fs@.files.contains_key(k) == (m0.contains_key(k) && !(exists|j: int|
                    0 <= j < i + 1 && #[trigger] doomed@[j]@ == k)) by {
                if m0.contains_key(k) {
                    if exists|j: int| 0 <= j < i + 1 && #[trigger] doomed@[j]@ == k {
                    }
                }
            }
        }
        i = i + 1;
    }
    proof {
        assert forall|k: Seq<u8>| #[trigger]
            fs@.files.contains_key(k) == (old(fs)@.files.contains_key(k) && !is_swept(
                root@,
                k,
            )) by {
            if fs@.files.contains_key(k) {
                if is_swept(root@, k) {
                    let i2 = choose|i2: int|
                        0 <= i2 < 5 && is_child(k, #[trigger] sweep_dir(root@, i2))
                            && contains_seq(
                            child_name(k, sweep_dir(root@, i2)),
                            tmp_marker(),
                        );
                    assert(is_child(k, sweep_dir(root@, i2)));
                    let j = choose|j: int|
                        0 <= j < doomed@.len() && #[trigger] doomed@[j]@ == k;
                    assert(!fs@.files.contains_key(k));
                }
            } else {
                if old(fs)@.files.contains_key(k) && !is_swept(root@, k) {
                    if exists|j: int| 0 <= j < doomed@.len() && #[trigger] doomed@[j]@
                        == k {
                        let j = choose|j: int|
                            0 <= j < doomed@.len() && #[trigger] doomed@[j]@ == k;
                        assert(is_swept(root@, doomed@[j]@));
                    }
                    assert(fs@.files.contains_key(k));
                }
            }
        }
        assert(fs@.files =~= sweep_spec(old(fs)@.files, root@));
    }
}

} // verus!
