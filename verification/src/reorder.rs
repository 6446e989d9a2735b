//! The crash-safe two-phase reorder engine.
//!
//! Moving one chapter among its siblings renames potentially every
//! sibling to a new ordinal-prefixed name; a direct rename sequence
//! could overwrite a not-yet-processed file. The engine therefore first
//! renames every source to a unique temporary name (phase one), then
//! renames every temporary to its final name (phase two). Between the
//! phases every document is still present, under its temporary name.

use vstd::prelude::*;

verus! {

use vstd::slice::slice_to_vec;
use crate::fs::Fs;
use crate::fs::FsError;
use crate::fs::join_seq;
use crate::text::ascii_seq;
use crate::text::contains_seq;
use crate::num::dec_digits;

/// Spec view of a rename plan.
pub open spec fn pairs_view(s: Seq<(Vec<u8>, Vec<u8>)>) -> Seq<(Seq<u8>, Seq<u8>)> {
    s.map_values(|p: (Vec<u8>, Vec<u8>)| (p.0@, p.1@))
}

/// The marker carried by every phase-one temporary name.
pub open spec fn reorder_marker() -> Seq<u8> {
    ascii_seq(".reorder.tmp."@)
}

/// The temporary name of plan entry `i`.
pub open spec fn tmp_name(from: Seq<u8>, pid: u64, i: int) -> Seq<u8> {
    from + reorder_marker() + dec_digits(pid as nat) + seq![46u8] + dec_digits(i as nat)
}

/// Conditions under which the two-phase rename goes through without
/// touching any unrelated file: sources exist and are distinct, targets
/// are distinct and collide only with sources, and the temporary names
/// are fresh and mutually distinct.
pub open spec fn reorder_ok(
    m: Map<Seq<u8>, Seq<u8>>,
    pairs: Seq<(Seq<u8>, Seq<u8>)>,
    pid: u64,
) -> bool {
    &&& forall|i: int| 0 <= i < pairs.len() ==> m.contains_key(#[trigger] pairs[i].0)
    &&& forall|i: int, j: int| 0 <= i < j < pairs.len() ==> pairs[i].0 != pairs[j].0
    &&& forall|i: int, j: int| 0 <= i < j < pairs.len() ==> pairs[i].1 != pairs[j].1
    &&& forall|i: int|
        0 <= i < pairs.len() && m.contains_key(#[trigger] pairs[i].1) ==> exists|j: int|
            0 <= j < pairs.len() && #[trigger] pairs[j].0 == pairs[i].1
    &&& forall|i: int|
        0 <= i < pairs.len() ==> !m.contains_key(tmp_name(#[trigger] pairs[i].0, pid, i))
    &&& forall|i: int, j: int|
        0 <= i < pairs.len() && 0 <= j < pairs.len() ==> tmp_name(
            #[trigger] pairs[i].0,
            pid,
            i,
        ) != #[trigger] pairs[j].1
    &&& forall|i: int, j: int|
        0 <= i < pairs.len() && 0 <= j < pairs.len() ==> tmp_name(
            #[trigger] pairs[i].0,
            pid,
            i,
        ) != #[trigger] pairs[j].0
    &&& forall|i: int, j: int|
        0 <= i < pairs.len() && 0 <= j < pairs.len() && i != j ==> tmp_name(
            #[trigger] pairs[i].0,
            pid,
            i,
        ) != tmp_name(#[trigger] pairs[j].0, pid, j)
}

/// The map after the first `n` phase-one renames.
pub open spec fn phase_a_map(
    m: Map<Seq<u8>, Seq<u8>>,
    pairs: Seq<(Seq<u8>, Seq<u8>)>,
    pid: u64,
    n: int,
) -> Map<Seq<u8>, Seq<u8>>
    decreases n,
{
    if n <= 0 {
        m
    } else {
        phase_a_map(m, pairs, pid, n - 1).remove(pairs[n - 1].0).insert(
            tmp_name(pairs[n - 1].0, pid, n - 1),
            m[pairs[n - 1].0],
        )
    }
}

/// After `n` phase-one steps: the first `n` sources now live under
/// their temporary names with unchanged contents, everything else is
/// untouched.
pub proof fn lemma_phase_a(
    m: Map<Seq<u8>, Seq<u8>>,
    pairs: Seq<(Seq<u8>, Seq<u8>)>,
    pid: u64,
    n: int,
)
    requires
        reorder_ok(m, pairs, pid),
        0 <= n <= pairs.len(),
    ensures
        forall|k: Seq<u8>|
            #[trigger] phase_a_map(m, pairs, pid, n).contains_key(k) <==> ((
            m.contains_key(k) && !(exists|j: int| 0 <= j < n && #[trigger] pairs[j].0 == k))
                || (exists|j: int| 0 <= j < n && tmp_name(#[trigger] pairs[j].0, pid, j)
                == k)),
        forall|j: int|
            0 <= j < n ==> phase_a_map(m, pairs, pid, n)[tmp_name(
                #[trigger] pairs[j].0,
                pid,
                j,
            )] == m[pairs[j].0],
        forall|k: Seq<u8>|
            #[trigger] phase_a_map(m, pairs, pid, n).contains_key(k) && m.contains_key(k)
                && !(exists|j: int| 0 <= j < n && tmp_name(#[trigger] pairs[j].0, pid, j)
                == k) ==> phase_a_map(m, pairs, pid, n)[k] == m[k],
    decreases n,
{
    if n > 0 {
        lemma_phase_a(m, pairs, pid, n - 1);
        let p = phase_a_map(m, pairs, pid, n - 1);
        let q = phase_a_map(m, pairs, pid, n);
        assert(q == p.remove(pairs[n - 1].0).insert(
            tmp_name(pairs[n - 1].0, pid, n - 1),
            m[pairs[n - 1].0],
        ));
        assert forall|k: Seq<u8>| #[trigger]
            q.contains_key(k) == ((m.contains_key(k) && !(exists|j: int|
                0 <= j < n && #[trigger] pairs[j].0 == k)) || (exists|j: int|
                0 <= j < n && tmp_name(#[trigger] pairs[j].0, pid, j) == k)) by {
            if k == tmp_name(pairs[n - 1].0, pid, n - 1) {
                assert(q.contains_key(k));
            } else if k == pairs[n - 1].0 {
                assert(!q.contains_key(k));
                if exists|j: int| 0 <= j < n && tmp_name(#[trigger] pairs[j].0, pid, j)
                    == k {
                    let j = choose|j: int|
                        0 <= j < n && tmp_name(#[trigger] pairs[j].0, pid, j) == k;
                    assert(tmp_name(pairs[j].0, pid, j) != pairs[n - 1].0);
                }
            } else {
                if exists|j: int| 0 <= j < n && #[trigger] pairs[j].0 == k {
                    let j = choose|j: int| 0 <= j < n && #[trigger] pairs[j].0 == k;
                    if j < n - 1 {
                        assert(!p.contains_key(k) || false == m.contains_key(k) || true);
                    }
                }
                if exists|j: int|
                    0 <= j < n - 1 && tmp_name(#[trigger] pairs[j].0, pid, j) == k {
                }
            }
        }
    }
}

/// The map after the first `n` phase-two renames, starting from the
/// completed phase-one state.
pub open spec fn phase_b_map(
    m: Map<Seq<u8>, Seq<u8>>,
    pairs: Seq<(Seq<u8>, Seq<u8>)>,
    pid: u64,
    n: int,
) -> Map<Seq<u8>, Seq<u8>>
    decreases n,
{
    if n <= 0 {
        phase_a_map(m, pairs, pid, pairs.len() as int)
    } else {
        phase_b_map(m, pairs, pid, n - 1).remove(tmp_name(pairs[n - 1].0, pid, n - 1)).insert(
            pairs[n - 1].1,
            m[pairs[n - 1].0],
        )
    }
}

/// The completed reorder.
pub open spec fn reorder_map(
    m: Map<Seq<u8>, Seq<u8>>,
    pairs: Seq<(Seq<u8>, Seq<u8>)>,
    pid: u64,
) -> Map<Seq<u8>, Seq<u8>> {
    phase_b_map(m, pairs, pid, pairs.len() as int)
}

/// After `n` phase-two steps: the first `n` documents sit under their
/// final names, the rest still under their temporary names; nothing
/// else moved.
pub proof fn lemma_phase_b(
    m: Map<Seq<u8>, Seq<u8>>,
    pairs: Seq<(Seq<u8>, Seq<u8>)>,
    pid: u64,
    n: int,
)
    requires
        reorder_ok(m, pairs, pid),
        0 <= n <= pairs.len(),
    ensures
        forall|k: Seq<u8>|
            #[trigger] phase_b_map(m, pairs, pid, n).contains_key(k) <==> ((
            m.contains_key(k) && !(exists|j: int|
                0 <= j < pairs.len() && #[trigger] pairs[j].0 == k)) || (exists|j: int|
                n <= j < pairs.len() && tmp_name(#[trigger] pairs[j].0, pid, j) == k) || (
            exists|j: int| 0 <= j < n && #[trigger] pairs[j].1 == k)),
        forall|j: int|
            n <= j < pairs.len() ==> phase_b_map(m, pairs, pid, n)[tmp_name(
                #[trigger] pairs[j].0,
                pid,
                j,
            )] == m[pairs[j].0],
        forall|j: int|
            0 <= j < n ==> phase_b_map(m, pairs, pid, n)[#[trigger] pairs[j].1] == m[pairs[
                j
            ].0],
        forall|k: Seq<u8>|
            #[trigger] phase_b_map(m, pairs, pid, n).contains_key(k) && m.contains_key(k)
                && !(exists|j: int| 0 <= j < pairs.len() && tmp_name(
                #[trigger] pairs[j].0,
                pid,
                j,
            ) == k) && !(exists|j: int| 0 <= j < pairs.len() && #[trigger] pairs[j].1 == k)
                ==> phase_b_map(m, pairs, pid, n)[k] == m[k],
    decreases n,
{
    if n == 0 {
        lemma_phase_a(m, pairs, pid, pairs.len() as int);
    } else {
        lemma_phase_b(m, pairs, pid, n - 1);
        let p = phase_b_map(m, pairs, pid, n - 1);
        let q = phase_b_map(m, pairs, pid, n);
        let t = tmp_name(pairs[n - 1].0, pid, n - 1);
        assert(q == p.remove(t).insert(pairs[n - 1].1, m[pairs[n - 1].0]));
        assert forall|k: Seq<u8>| #[trigger]
            q.contains_key(k) == ((m.contains_key(k) && !(exists|j: int|
                0 <= j < pairs.len() && #[trigger] pairs[j].0 == k)) || (exists|j: int|
                n <= j < pairs.len() && tmp_name(#[trigger] pairs[j].0, pid, j) == k) || (
            exists|j: int| 0 <= j < n && #[trigger] pairs[j].1 == k)) by {
            if k == pairs[n - 1].1 {
                assert(q.contains_key(k));
                assert(pairs[n - 1].1 == k);
            } else if k == t {
                assert(!q.contains_key(k));
                if exists|j: int|
                    n <= j < pairs.len() && tmp_name(#[trigger] pairs[j].0, pid, j) == k {
                    let j = choose|j: int|
                        n <= j < pairs.len() && tmp_name(#[trigger] pairs[j].0, pid, j)
                            == k;
                    assert(tmp_name(pairs[j].0, pid, j) != tmp_name(
                        pairs[n - 1].0,
                        pid,
                        n - 1,
                    ));
                }
                if exists|j: int| 0 <= j < n && #[trigger] pairs[j].1 == k {
                    let j = choose|j: int| 0 <= j < n && #[trigger] pairs[j].1 == k;
                    assert(pairs[j].1 != t);
                }
                if m.contains_key(k) && !(exists|j: int|
                    0 <= j < pairs.len() && #[trigger] pairs[j].0 == k) {
                    assert(!m.contains_key(tmp_name(pairs[n - 1].0, pid, n - 1)));
                }
            } else {
                if exists|j: int|
                    n - 1 <= j < pairs.len() && tmp_name(#[trigger] pairs[j].0, pid, j)
                        == k {
                }
                if exists|j: int| 0 <= j < n - 1 && #[trigger] pairs[j].1 == k {
                }
            }
        }
        assert forall|j: int| 0 <= j < n implies q[#[trigger] pairs[j].1] == m[pairs[
            j
        ].0] by {
            if j < n - 1 {
                assert(pairs[j].1 != t);
                assert(pairs[j].1 != pairs[n - 1].1);
            }
        }
        assert forall|j: int| n <= j < pairs.len() implies q[tmp_name(
            #[trigger] pairs[j].0,
            pid,
            j,
        )] == m[pairs[j].0] by {
            assert(tmp_name(pairs[j].0, pid, j) != t);
            assert(tmp_name(pairs[j].0, pid, j) != pairs[n - 1].1);
        }
    }
}


/// Builds the temporary name of plan entry `i`.
pub fn build_tmp_name(from: &[u8], pid: u64, i: u64) -> (r: Vec<u8>)
    requires
        from@.len() + 60 <= usize::MAX,
    ensures
        r@ == tmp_name(from@, pid, i as int),
{
    proof {
        reveal_strlit(".reorder.tmp.");
        crate::storage::lemma_dec_digits_len_u64(pid);
        crate::storage::lemma_dec_digits_len_u64(i);
    }
    let mut r = slice_to_vec(from);
    let marker = crate::text::ascii_bytes(".reorder.tmp.");
    crate::text::push_all(&mut r, marker.as_slice());
    let p = crate::num::u64_to_dec(pid);
    crate::text::push_all(&mut r, p.as_slice());
    r.push(46);
    let d = crate::num::u64_to_dec(i);
    crate::text::push_all(&mut r, d.as_slice());
    proof {
        assert(r@ =~= tmp_name(from@, pid, i as int));
    }
    r
}

/// True when every entry of `xs` names an existing file.
fn all_in_fs(fs: &Fs, xs: &Vec<Vec<u8>>) -> (r: bool)
    ensures
        r == (forall|i: int| 0 <= i < xs@.len() ==> fs@.files.contains_key(
            #[trigger] xs@[i]@,
        )),
{
    let mut i: usize = 0;
    while i < xs.len()
        invariant
            i <= xs@.len(),
            forall|j: int| 0 <= j < i ==> fs@.files.contains_key(#[trigger] xs@[j]@),
        decreases xs@.len() - i,
    {
        if !fs.file_exists(xs[i].as_slice()) {
            return false;
        }
        i = i + 1;
    }
    true
}

/// True when no entry of `xs` names an existing file.
fn none_in_fs(fs: &Fs, xs: &Vec<Vec<u8>>) -> (r: bool)
    ensures
        r == (forall|i: int| 0 <= i < xs@.len() ==> !fs@.files.contains_key(
            #[trigger] xs@[i]@,
        )),
{
    let mut i: usize = 0;
    while i < xs.len()
        invariant
            i <= xs@.len(),
            forall|j: int| 0 <= j < i ==> !fs@.files.contains_key(#[trigger] xs@[j]@),
        decreases xs@.len() - i,
    {
        if fs.file_exists(xs[i].as_slice()) {
            return false;
        }
        i = i + 1;
    }
    true
}

/// True when the entries of `xs` are pairwise distinct.
fn all_distinct(xs: &Vec<Vec<u8>>) -> (r: bool)
    ensures
        r == (forall|i: int, j: int| 0 <= i < j < xs@.len() ==> xs@[i]@ != xs@[j]@),
{
    let mut i: usize = 0;
    while i < xs.len()
        invariant
            i <= xs@.len(),
            forall|a: int, b: int| 0 <= a < b < i ==> xs@[a]@ != xs@[b]@,
        decreases xs@.len() - i,
    {
        let mut j: usize = 0;
        while j < i
            invariant
                j <= i < xs@.len(),
                forall|a: int, b: int| 0 <= a < b < i ==> xs@[a]@ != xs@[b]@,
                forall|b: int| 0 <= b < j ==> xs@[b]@ != xs@[i as int]@,
            decreases i - j,
        {
            if crate::text::bytes_eq(xs[j].as_slice(), xs[i].as_slice()) {
                return false;
            }
            j = j + 1;
        }
        i = i + 1;
    }
    true
}

/// True when no entry of `xs` equals an entry of `ys`.
fn disjoint_names(xs: &Vec<Vec<u8>>, ys: &Vec<Vec<u8>>) -> (r: bool)
    ensures
        r == (forall|i: int, j: int|
            0 <= i < xs@.len() && 0 <= j < ys@.len() ==> xs@[i]@ != ys@[j]@),
{
    let mut i: usize = 0;
    while i < xs.len()
        invariant
            i <= xs@.len(),
            forall|a: int, b: int|
                0 <= a < i && 0 <= b < ys@.len() ==> xs@[a]@ != ys@[b]@,
        decreases xs@.len() - i,
    {
        let mut j: usize = 0;
        while j < ys.len()
            invariant
                i < xs@.len(),
                j <= ys@.len(),
                forall|a: int, b: int|
                    0 <= a < i && 0 <= b < ys@.len() ==> xs@[a]@ != ys@[b]@,
                forall|b: int| 0 <= b < j ==> xs@[i as int]@ != ys@[b]@,
            decreases ys@.len() - j,
        {
            if crate::text::bytes_eq(xs[i].as_slice(), ys[j].as_slice()) {
                return false;
            }
            j = j + 1;
        }
        i = i + 1;
    }
    true
}

/// True when some entry of `xs` has view `y`.
fn some_name_eq(xs: &Vec<Vec<u8>>, y: &[u8]) -> (r: bool)
    ensures
        r == (exists|j: int| 0 <= j < xs@.len() && #[trigger] xs@[j]@ == y@),
{
    let mut j: usize = 0;
    while j < xs.len()
        invariant
            j <= xs@.len(),
            forall|b: int| 0 <= b < j ==> xs@[b]@ != y@,
        decreases xs@.len() - j,
    {
        if crate::text::bytes_eq(xs[j].as_slice(), y) {
            return true;
        }
        j = j + 1;
    }
    false
}

/// Executes a rename plan by the two-phase scheme, after checking that
/// the plan is safe. A plan that is not safe is rejected before any
/// rename happens: `NotFound` when a source is missing, otherwise
/// `AlreadyExists` for a collision.
pub fn apply_rename_pairs(fs: &mut Fs, pairs: &Vec<(Vec<u8>, Vec<u8>)>) -> (r: Result<
    (),
    FsError,
>)
    requires
        old(fs).wf(),
        pairs@.len() < usize::MAX,
        forall|i: int|
            0 <= i < pairs@.len() ==> (#[trigger] pairs@[i].0)@.len() + 60 <= usize::MAX,
    ensures
        final(fs).wf(),
        final(fs)@.pid == old(fs)@.pid,
        final(fs)@.dirs == old(fs)@.dirs,
        r is Ok <==> reorder_ok(old(fs)@.files, pairs_view(pairs@), old(fs)@.pid),
        r is Ok ==> final(fs)@.files == reorder_map(
            old(fs)@.files,
            pairs_view(pairs@),
            old(fs)@.pid,
        ),
        r is Err ==> final(fs)@ == old(fs)@,
        r == Err::<(), FsError>(FsError::NotFound) ==> !(forall|i: int|
            0 <= i < pairs@.len() ==> old(fs)@.files.contains_key(
                (#[trigger] pairs@[i].0)@,
            )),
{
    let ghost m0 = fs@.files;
    let ghost pv = pairs_view(pairs@);
    let pid = fs.pid();
    let mut sources: Vec<Vec<u8>> = Vec::new();
    let mut targets: Vec<Vec<u8>> = Vec::new();
    let mut tmps: Vec<Vec<u8>> = Vec::new();
    let mut i: usize = 0;
    while i < pairs.len()
        invariant
            pid == fs@.pid,
            pv == pairs_view(pairs@),
            forall|k: int|
                0 <= k < pairs@.len() ==> (#[trigger] pairs@[k].0)@.len() + 60
                    <= usize::MAX,
            i <= pairs@.len(),
            sources@.len() == i,
            targets@.len() == i,
            tmps@.len() == i,
            forall|k: int| 0 <= k < i ==> #[trigger] sources@[k]@ == pv[k].0,
            forall|k: int| 0 <= k < i ==> #[trigger] targets@[k]@ == pv[k].1,
            forall|k: int| 0 <= k < i ==> #[trigger] tmps@[k]@ == tmp_name(pv[k].0, pid, k),
        decreases pairs@.len() - i,
    {
        let (ref from, ref to) = pairs[i];
        sources.push(slice_to_vec(from.as_slice()));
        targets.push(slice_to_vec(to.as_slice()));
        let t = build_tmp_name(from.as_slice(), pid, i as u64);
        tmps.push(t);
        i = i + 1;
    }
    proof {
        assert(sources@.len() == pv.len());
    }
    if !all_in_fs(fs, &sources) {
        proof {
            assert(!reorder_ok(m0, pv, pid)) by {
                if reorder_ok(m0, pv, pid) {
                    let w = choose|w: int|
                        0 <= w < sources@.len() && !fs@.files.contains_key(
                            #[trigger] sources@[w]@,
                        );
                    assert(m0.contains_key(pv[w].0));
                }
            }
        }
        return Err(FsError::NotFound);
    }
    proof {
        assert forall|i2: int| 0 <= i2 < pv.len() implies m0.contains_key(
            (#[trigger] pv[i2]).0,
        ) by {
            assert(sources@[i2]@ == pv[i2].0);
        }
    }
    let sources_ok = all_distinct(&sources);
    let targets_ok = all_distinct(&targets);
    let tmps_ok = all_distinct(&tmps);
    let tmps_fresh = none_in_fs(fs, &tmps);
    let tmps_not_targets = disjoint_names(&tmps, &targets);
    let tmps_not_sources = disjoint_names(&tmps, &sources);
    let mut targets_ok2 = true;
    let mut k: usize = 0;
    while k < targets.len()
        invariant
            fs.wf(),
            targets@.len() == pv.len(),
            sources@.len() == pv.len(),
            k <= targets@.len(),
            forall|a: int| 0 <= a < targets@.len() ==> #[trigger] targets@[a]@ == pv[a].1,
            forall|a: int| 0 <= a < sources@.len() ==> #[trigger] sources@[a]@ == pv[a].0,
            targets_ok2 == (forall|a: int|
                0 <= a < k && fs@.files.contains_key((#[trigger] pv[a]).1) ==> exists|
                b: int,
                |
                    0 <= b < pv.len() && (#[trigger] pv[b]).0 == pv[a].1),
        decreases targets@.len() - k,
    {
        if fs.file_exists(targets[k].as_slice()) {
            if !some_name_eq(&sources, targets[k].as_slice()) {
                proof {
                    assert(fs@.files.contains_key(pv[k as int].1));
                    assert forall|b: int|
                        0 <= b < pv.len() implies (#[trigger] pv[b]).0 != pv[
                        k as int
                    ].1 by {
                        assert(sources@[b]@ == pv[b].0);
                    }
                }
                targets_ok2 = false;
            } else {
                proof {
                    let b = choose|b: int|
                        0 <= b < sources@.len() && #[trigger] sources@[b]@ == pv[
                            k as int
                        ].1;
                }
            }
        }
        k = k + 1;
    }
    if !(sources_ok && targets_ok && tmps_ok && tmps_fresh && tmps_not_targets
        && tmps_not_sources && targets_ok2) {
        proof {
            lemma_validation_meaning(
                m0,
                pv,
                pid,
                sources@,
                targets@,
                tmps@,
                sources_ok,
                targets_ok,
                tmps_ok,
                tmps_fresh,
                tmps_not_targets,
                tmps_not_sources,
                targets_ok2,
            );
        }
        return Err(FsError::AlreadyExists);
    }
    proof {
        lemma_validation_meaning(
            m0,
            pv,
            pid,
            sources@,
            targets@,
            tmps@,
            sources_ok,
            targets_ok,
            tmps_ok,
            tmps_fresh,
            tmps_not_targets,
            tmps_not_sources,
            targets_ok2,
        );
        assert(reorder_ok(m0, pv, pid));
    }
    // phase one: move every source to its temporary name
    let mut a: usize = 0;
    while a < pairs.len()
        invariant
            fs.wf(),
            fs@.pid == pid,
            fs@.dirs == old(fs)@.dirs,
            pv == pairs_view(pairs@),
            reorder_ok(m0, pv, pid),
            a <= pairs@.len(),
            pairs@.len() == tmps@.len(),
            forall|c: int| 0 <= c < tmps@.len() ==> #[trigger] tmps@[c]@ == tmp_name(
                pv[c].0,
                pid,
                c,
            ),
            fs@.files == phase_a_map(m0, pv, pid, a as int),
        decreases pairs@.len() - a,
    {
        proof {
            lemma_phase_a(m0, pv, pid, a as int);
            assert(fs@.files.contains_key(pv[a as int].0)) by {
                assert(m0.contains_key(pv[a as int].0));
            }
            assert(!fs@.files.contains_key(tmp_name(pv[a as int].0, pid, a as int)));
        }
        let res = fs.rename_file(pairs[a].0.as_slice(), tmps[a].as_slice());
        proof {
            assert(res is Ok);
            lemma_phase_a(m0, pv, pid, a as int);
            assert(fs@.files =~= phase_a_map(m0, pv, pid, a + 1));
        }
        a = a + 1;
    }
    // phase two: move every temporary to its final name
    let mut b: usize = 0;
    while b < pairs.len()
        invariant
            fs.wf(),
            fs@.pid == pid,
            fs@.dirs == old(fs)@.dirs,
            pv == pairs_view(pairs@),
            reorder_ok(m0, pv, pid),
            b <= pairs@.len(),
            pairs@.len() == tmps@.len(),
            forall|c: int| 0 <= c < tmps@.len() ==> #[trigger] tmps@[c]@ == tmp_name(
                pv[c].0,
                pid,
                c,
            ),
            fs@.files == phase_b_map(m0, pv, pid, b as int),
        decreases pairs@.len() - b,
    {
        proof {
            lemma_phase_b(m0, pv, pid, b as int);
            assert(fs@.files.contains_key(tmp_name(pv[b as int].0, pid, b as int)));
            assert(!fs@.files.contains_key(pv[b as int].1)) by {
                if fs@.files.contains_key(pv[b as int].1) {
                    if m0.contains_key(pv[b as int].1) {
                        let w = choose|w: int|
                            0 <= w < pv.len() && #[trigger] pv[w].0 == pv[b as int].1;
                    }
                }
            }
        }
        let res = fs.rename_file(tmps[b].as_slice(), pairs[b].1.as_slice());
        proof {
            assert(res is Ok);
            lemma_phase_b(m0, pv, pid, b as int);
            assert(fs@.files =~= phase_b_map(m0, pv, pid, b + 1));
        }
        b = b + 1;
    }
    Ok(())
}

/// The validation flags together decide `reorder_ok`.
proof fn lemma_validation_meaning(
    m0: Map<Seq<u8>, Seq<u8>>,
    pv: Seq<(Seq<u8>, Seq<u8>)>,
    pid: u64,
    sources: Seq<Vec<u8>>,
    targets: Seq<Vec<u8>>,
    tmps: Seq<Vec<u8>>,
    sources_ok: bool,
    targets_ok: bool,
    tmps_ok: bool,
    tmps_fresh: bool,
    tmps_not_targets: bool,
    tmps_not_sources: bool,
    targets_ok2: bool,
)
    requires
        sources.len() == pv.len(),
        targets.len() == pv.len(),
        tmps.len() == pv.len(),
        forall|k: int| 0 <= k < pv.len() ==> #[trigger] sources[k]@ == pv[k].0,
        forall|k: int| 0 <= k < pv.len() ==> #[trigger] targets[k]@ == pv[k].1,
        forall|k: int| 0 <= k < pv.len() ==> #[trigger] tmps[k]@ == tmp_name(
            pv[k].0,
            pid,
            k,
        ),
        forall|i: int| 0 <= i < pv.len() ==> m0.contains_key((#[trigger] pv[i]).0),
        sources_ok == (forall|i: int, j: int|
            0 <= i < j < sources.len() ==> sources[i]@ != sources[j]@),
        targets_ok == (forall|i: int, j: int|
            0 <= i < j < targets.len() ==> targets[i]@ != targets[j]@),
        tmps_ok == (forall|i: int, j: int| 0 <= i < j < tmps.len() ==> tmps[i]@ != tmps[j]@),
        tmps_fresh == (forall|i: int|
            0 <= i < tmps.len() ==> !m0.contains_key(#[trigger] tmps[i]@)),
        tmps_not_targets == (forall|i: int, j: int|
            0 <= i < tmps.len() && 0 <= j < targets.len() ==> tmps[i]@ != targets[j]@),
        tmps_not_sources == (forall|i: int, j: int|
            0 <= i < tmps.len() && 0 <= j < sources.len() ==> tmps[i]@ != sources[j]@),
        targets_ok2 == (forall|a: int|
            0 <= a < pv.len() && m0.contains_key((#[trigger] pv[a]).1) ==> exists|b: int|
                0 <= b < pv.len() && (#[trigger] pv[b]).0 == pv[a].1),
    ensures
        reorder_ok(m0, pv, pid) == (sources_ok && targets_ok && tmps_ok && tmps_fresh
            && tmps_not_targets && tmps_not_sources && targets_ok2),
{
    if sources_ok && targets_ok && tmps_ok && tmps_fresh && tmps_not_targets
        && tmps_not_sources && targets_ok2 {
        assert forall|i: int, j: int| 0 <= i < j < pv.len() implies pv[i].0 != pv[j].0 by {
            assert(sources[i]@ == pv[i].0 && sources[j]@ == pv[j].0);
        }
        assert forall|i: int, j: int| 0 <= i < j < pv.len() implies pv[i].1 != pv[j].1 by {
            assert(targets[i]@ == pv[i].1 && targets[j]@ == pv[j].1);
        }
        assert forall|i: int|
            0 <= i < pv.len() implies !m0.contains_key(
            tmp_name(#[trigger] pv[i].0, pid, i),
        ) by {
            assert(tmps[i]@ == tmp_name(pv[i].0, pid, i));
        }
        assert forall|i: int, j: int|
            0 <= i < pv.len() && 0 <= j < pv.len() implies tmp_name(
            #[trigger] pv[i].0,
            pid,
            i,
        ) != #[trigger] pv[j].1 by {
            assert(tmps[i]@ == tmp_name(pv[i].0, pid, i) && targets[j]@ == pv[j].1);
        }
        assert forall|i: int, j: int|
            0 <= i < pv.len() && 0 <= j < pv.len() implies tmp_name(
            #[trigger] pv[i].0,
            pid,
            i,
        ) != #[trigger] pv[j].0 by {
            assert(tmps[i]@ == tmp_name(pv[i].0, pid, i) && sources[j]@ == pv[j].0);
        }
        assert forall|i: int, j: int|
            0 <= i < pv.len() && 0 <= j < pv.len() && i != j implies tmp_name(
            #[trigger] pv[i].0,
            pid,
            i,
        ) != tmp_name(#[trigger] pv[j].0, pid, j) by {
            assert(tmps[i]@ == tmp_name(pv[i].0, pid, i));
            assert(tmps[j]@ == tmp_name(pv[j].0, pid, j));
            if i < j {
            } else {
                assert(tmps[j]@ != tmps[i]@);
            }
        }
        assert(reorder_ok(m0, pv, pid));
    } else {
        if !sources_ok {
            let (i, j) = choose|i: int, j: int|
                0 <= i < j < sources.len() && sources[i]@ == sources[j]@;
            assert(pv[i].0 == pv[j].0);
            assert(!reorder_ok(m0, pv, pid));
        } else if !targets_ok {
            let (i, j) = choose|i: int, j: int|
                0 <= i < j < targets.len() && targets[i]@ == targets[j]@;
            assert(pv[i].1 == pv[j].1);
            assert(!reorder_ok(m0, pv, pid));
        } else if !tmps_ok {
            let (i, j) = choose|i: int, j: int|
                0 <= i < j < tmps.len() && tmps[i]@ == tmps[j]@;
            assert(tmp_name(pv[i].0, pid, i) == tmp_name(pv[j].0, pid, j));
            assert(!reorder_ok(m0, pv, pid));
        } else if !tmps_fresh {
            let i = choose|i: int| 0 <= i < tmps.len() && m0.contains_key(#[trigger] tmps[i]@);
            assert(m0.contains_key(tmp_name(pv[i].0, pid, i)));
            assert(!reorder_ok(m0, pv, pid));
        } else if !tmps_not_targets {
            let (i, j) = choose|i: int, j: int|
                0 <= i < tmps.len() && 0 <= j < targets.len() && tmps[i]@ == targets[j]@;
            assert(tmp_name(pv[i].0, pid, i) == pv[j].1);
            assert(!reorder_ok(m0, pv, pid));
        } else if !tmps_not_sources {
            let (i, j) = choose|i: int, j: int|
                0 <= i < tmps.len() && 0 <= j < sources.len() && tmps[i]@ == sources[j]@;
            assert(tmp_name(pv[i].0, pid, i) == pv[j].0);
            assert(!reorder_ok(m0, pv, pid));
        } else {
            let a = choose|a: int|
                0 <= a < pv.len() && m0.contains_key((#[trigger] pv[a]).1) && !(exists|
                b: int,
                |
                    0 <= b < pv.len() && (#[trigger] pv[b]).0 == pv[a].1);
            assert(!reorder_ok(m0, pv, pid));
        }
    }
}

/// The inverse plan: every pair reversed.
pub fn reverse_pairs(pairs: &Vec<(Vec<u8>, Vec<u8>)>) -> (r: Vec<(Vec<u8>, Vec<u8>)>)
    ensures
        pairs_view(r@).len() == pairs_view(pairs@).len(),
        forall|i: int|
            0 <= i < pairs@.len() ==> #[trigger] pairs_view(r@)[i] == (
                pairs_view(pairs@)[i].1,
                pairs_view(pairs@)[i].0,
            ),
{
    let mut r: Vec<(Vec<u8>, Vec<u8>)> = Vec::new();
    let mut i: usize = 0;
    while i < pairs.len()
        invariant
            i <= pairs@.len(),
            r@.len() == i,
            forall|j: int|
                0 <= j < i ==> #[trigger] pairs_view(r@)[j] == (
                    pairs_view(pairs@)[j].1,
                    pairs_view(pairs@)[j].0,
                ),
        decreases pairs@.len() - i,
    {
        let (ref from, ref to) = pairs[i];
        let ghost prevr = r@;
        r.push((slice_to_vec(to.as_slice()), slice_to_vec(from.as_slice())));
        proof {
            assert(r@[r@.len() - 1].0@ == pairs@[i as int].1@);
            assert(r@[r@.len() - 1].1@ == pairs@[i as int].0@);
            assert(pairs_view(r@)[i as int] == (pairs_view(pairs@)[i as int].1, pairs_view(
                pairs@,
            )[i as int].0));
            assert forall|j: int| 0 <= j < i implies #[trigger] pairs_view(r@)[j]
                == pairs_view(prevr)[j] by {
                assert(r@[j] == prevr[j]);
                assert(pairs_view(r@)[j] == (r@[j].0@, r@[j].1@));
                assert(pairs_view(prevr)[j] == (prevr[j].0@, prevr[j].1@));
            }
        }
        i = i + 1;
    }
    r
}


/// The reversed plan, in spec form.
pub open spec fn rev_view(pairs: Seq<(Seq<u8>, Seq<u8>)>) -> Seq<(Seq<u8>, Seq<u8>)> {
    pairs.map_values(|p: (Seq<u8>, Seq<u8>)| (p.1, p.0))
}

/// Undoing a completed reorder by replaying the reversed plan restores
/// the original tree exactly.
pub proof fn lemma_reorder_roundtrip(
    m: Map<Seq<u8>, Seq<u8>>,
    pairs: Seq<(Seq<u8>, Seq<u8>)>,
    pid: u64,
)
    requires
        reorder_ok(m, pairs, pid),
        reorder_ok(reorder_map(m, pairs, pid), rev_view(pairs), pid),
    ensures
        reorder_map(reorder_map(m, pairs, pid), rev_view(pairs), pid) == m,
{
    let m1 = reorder_map(m, pairs, pid);
    let rv = rev_view(pairs);
    let m2 = reorder_map(m1, rv, pid);
    let n = pairs.len() as int;
    lemma_phase_b(m, pairs, pid, n);
    lemma_phase_b(m1, rv, pid, n);
    assert forall|j: int| 0 <= j < n implies (#[trigger] rv[j]).0 == pairs[j].1 && rv[j].1
        == pairs[j].0 by {}
    assert forall|k: Seq<u8>| #[trigger] m2.contains_key(k) == m.contains_key(k) by {
        if exists|j: int| 0 <= j < n && (#[trigger] pairs[j]).0 == k {
            let j = choose|j: int| 0 <= j < n && (#[trigger] pairs[j]).0 == k;
            assert(rv[j].1 == k);
            assert(m2.contains_key(k));
            assert(m.contains_key(k));
        } else {
            if m2.contains_key(k) {
                if exists|j: int| 0 <= j < n && (#[trigger] rv[j]).1 == k {
                    let j = choose|j: int| 0 <= j < n && (#[trigger] rv[j]).1 == k;
                    assert(pairs[j].0 == k);
                } else {
                    assert(m1.contains_key(k) && !(exists|j: int|
                        0 <= j < n && (#[trigger] rv[j]).0 == k));
                    assert(!(exists|j: int| 0 <= j < n && (#[trigger] pairs[j]).1 == k))
                        by {
                        if exists|j: int| 0 <= j < n && (#[trigger] pairs[j]).1 == k {
                            let j = choose|j: int|
                                0 <= j < n && (#[trigger] pairs[j]).1 == k;
                            assert(rv[j].0 == pairs[j].1);
                        }
                    }
                    assert(m.contains_key(k));
                }
            }
            if m.contains_key(k) {
                if exists|j: int| 0 <= j < n && (#[trigger] pairs[j]).1 == k {
                    let j = choose|j: int| 0 <= j < n && (#[trigger] pairs[j]).1 == k;
                    let l = choose|l: int| 0 <= l < n && (#[trigger] pairs[l]).0 == k;
                } else {
                    assert(m1.contains_key(k));
                    assert(!(exists|j: int| 0 <= j < n && (#[trigger] rv[j]).0 == k)) by {
                        if exists|j: int| 0 <= j < n && (#[trigger] rv[j]).0 == k {
                            let j = choose|j: int| 0 <= j < n && (#[trigger] rv[j]).0 == k;
                            assert(pairs[j].1 == k);
                        }
                    }
                    assert(m2.contains_key(k));
                }
            }
        }
    }
    assert forall|k: Seq<u8>| m2.contains_key(k) implies #[trigger] m2[k] == m[k] by {
        if exists|j: int| 0 <= j < n && (#[trigger] pairs[j]).0 == k {
            let j = choose|j: int| 0 <= j < n && (#[trigger] pairs[j]).0 == k;
            assert(rv[j].1 == k);
            assert(m2[rv[j].1] == m1[rv[j].0]);
            assert(m1[pairs[j].1] == m[pairs[j].0]);
        } else {
            assert(m.contains_key(k));
            assert(!(exists|j: int| 0 <= j < n && (#[trigger] pairs[j]).1 == k)) by {
                if exists|j: int| 0 <= j < n && (#[trigger] pairs[j]).1 == k {
                    let j = choose|j: int| 0 <= j < n && (#[trigger] pairs[j]).1 == k;
                    let l = choose|l: int| 0 <= l < n && (#[trigger] pairs[l]).0 == k;
                }
            }
            assert(m1.contains_key(k));
            assert forall|j: int| 0 <= j < n implies tmp_name(
                (#[trigger] pairs[j]).0,
                pid,
                j,
            ) != k by {
                if tmp_name(pairs[j].0, pid, j) == k {
                    assert(!m.contains_key(tmp_name(pairs[j].0, pid, j)));
                }
            }
            assert(m1[k] == m[k]);
            assert forall|j: int| 0 <= j < n implies tmp_name(
                (#[trigger] rv[j]).0,
                pid,
                j,
            ) != k by {
                if tmp_name(rv[j].0, pid, j) == k {
                    assert(!m1.contains_key(tmp_name(rv[j].0, pid, j)));
                }
            }
            assert(!(exists|j: int| 0 <= j < n && (#[trigger] rv[j]).1 == k)) by {
                if exists|j: int| 0 <= j < n && (#[trigger] rv[j]).1 == k {
                    let j = choose|j: int| 0 <= j < n && (#[trigger] rv[j]).1 == k;
                    assert(pairs[j].0 == k);
                }
            }
            assert(m2[k] == m1[k]);
        }
    }
    assert(m2 =~= m);
}


/// The sibling order after moving the element at `src` to the drop
/// position `dst`: the element is removed and re-inserted, one slot
/// earlier when it moves forward since the removal shifts the tail.
pub open spec fn move_elem(s: Seq<Seq<u8>>, src: int, dst: int) -> Seq<Seq<u8>> {
    let at = if src < dst {
        dst - 1
    } else {
        dst
    };
    s.remove(src).insert(at, s[src])
}

/// Position `i` of the moved order shows the original element at
/// `orig_index`.
pub proof fn lemma_move_elem_index(s: Seq<Seq<u8>>, src: int, dst: int, i: int)
    requires
        0 <= src < s.len(),
        0 <= dst < s.len(),
        src != dst,
        0 <= i < s.len(),
    ensures
        ({
            let at = if src < dst {
                dst - 1
            } else {
                dst
            };
            let o = orig_index(s.len() as int, src, at, i);
            0 <= o < s.len() && move_elem(s, src, dst)[i] == s[o]
        }),
{
    let at = if src < dst {
        dst - 1
    } else {
        dst
    };
    let w = s.remove(src);
    if i == at {
    } else {
        let wi = if i < at {
            i
        } else {
            i - 1
        };
        assert(move_elem(s, src, dst)[i] == w[wi]);
        if wi < src {
            assert(w[wi] == s[wi]);
        } else {
            assert(w[wi] == s[wi + 1]);
        }
    }
}

/// `orig_index` is injective.
pub proof fn lemma_orig_index_inj(len: int, src: int, at: int, i: int, j: int)
    requires
        0 <= src < len,
        0 <= at < len,
        0 <= i < len,
        0 <= j < len,
        i != j,
    ensures
        orig_index(len, src, at, i) != orig_index(len, src, at, j),
{
}

/// Moving an element keeps the set of (distinct) names.
#[verifier::rlimit(60)]
pub proof fn lemma_move_elem(s: Seq<Seq<u8>>, src: int, dst: int)
    requires
        0 <= src < s.len(),
        0 <= dst < s.len(),
        src != dst,
        forall|i: int, j: int| 0 <= i < j < s.len() ==> s[i] != s[j],
    ensures
        move_elem(s, src, dst).len() == s.len(),
        forall|i: int| 0 <= i < s.len() ==> exists|j: int|
            0 <= j < s.len() && #[trigger] move_elem(s, src, dst)[i] == s[j],
        forall|j: int| 0 <= j < s.len() ==> exists|i: int|
            0 <= i < s.len() && #[trigger] s[j] == move_elem(s, src, dst)[i],
        forall|i: int, j: int|
            0 <= i < j < s.len() ==> move_elem(s, src, dst)[i] != move_elem(s, src, dst)[j],
{
    let at = if src < dst {
        dst - 1
    } else {
        dst
    };
    let r = move_elem(s, src, dst);
    assert forall|i: int| 0 <= i < s.len() implies exists|j: int|
        0 <= j < s.len() && #[trigger] r[i] == s[j] by {
        lemma_move_elem_index(s, src, dst, i);
        let o = orig_index(s.len() as int, src, at, i);
        assert(r[i] == s[o]);
    }
    assert forall|j: int| 0 <= j < s.len() implies exists|i: int|
        0 <= i < s.len() && #[trigger] s[j] == r[i] by {
        let i = if j == src {
            at
        } else {
            let wj = if j < src {
                j
            } else {
                j - 1
            };
            if wj < at {
                wj
            } else {
                wj + 1
            }
        };
        lemma_move_elem_index(s, src, dst, i);
        assert(orig_index(s.len() as int, src, at, i) == j);
        assert(s[j] == r[i]);
    }
    assert forall|i: int, j: int| 0 <= i < j < s.len() implies r[i] != r[j] by {
        lemma_move_elem_index(s, src, dst, i);
        lemma_move_elem_index(s, src, dst, j);
        lemma_orig_index_inj(s.len() as int, src, at, i, j);
    }
}

/// The index in the original order that position `i` of the moved
/// order shows.
pub open spec fn orig_index(len: int, src: int, at: int, i: int) -> int {
    if i == at {
        src
    } else {
        let wi = if i < at {
            i
        } else {
            i - 1
        };
        if wi < src {
            wi
        } else {
            wi + 1
        }
    }
}

/// The stem of a document name: the part before the extension.
pub open spec fn chapter_stem(name: Seq<u8>) -> Seq<u8> {
    match crate::index::last_dot(name) {
        Some(ld) => if ld > 0 {
            name.take(ld)
        } else {
            name
        },
        None => name,
    }
}

/// The stem with any ordinal prefix removed.
pub open spec fn strip_ordinal(stem: Seq<u8>) -> Seq<u8> {
    if stem.len() >= 5 && stem[4] == 45 && crate::num::all_digits(stem.take(4)) {
        stem.skip(5)
    } else {
        stem
    }
}

/// The fallback title for a chapter whose name yields no usable stem
/// (the UTF-8 bytes of the two-character default chapter title).
pub open spec fn default_chapter_label() -> Seq<u8> {
    seq![0xE7u8, 0xABu8, 0xA0u8, 0xE8u8, 0x8Au8, 0x82u8]
}

/// Builds the fallback chapter title.
pub fn default_chapter_label_bytes() -> (r: Vec<u8>)
    ensures
        r@ == default_chapter_label(),
{
    let mut r: Vec<u8> = Vec::new();
    r.push(0xE7);
    r.push(0xAB);
    r.push(0xA0);
    r.push(0xE8);
    r.push(0x8A);
    r.push(0x82);
    proof {
        assert(r@ =~= default_chapter_label());
    }
    r
}

/// The final name of the chapter at position `i` of the new order.
pub open spec fn chapter_target_name(old_name: Seq<u8>, i: int) -> Seq<u8> {
    let base0 = strip_ordinal(chapter_stem(old_name));
    let base = if crate::text::trim_seq(base0).len() == 0 {
        default_chapter_label()
    } else {
        base0
    };
    crate::num::pad4((i + 1) as nat) + seq![45u8] + crate::index::sanitize_spec(base)
        + ascii_seq(".md"@)
}

/// Builds the rename plan that moves the chapter at `src` to position
/// `dst` and renumbers every sibling.
pub fn build_reorder_plan(
    dir: &[u8],
    names: &Vec<Vec<u8>>,
    src: usize,
    dst: usize,
) -> (r: Vec<(Vec<u8>, Vec<u8>)>)
    requires
        src < names@.len(),
        dst < names@.len(),
        src != dst,
        names@.len() <= 9999,
        forall|i: int|
            0 <= i < names@.len() ==> dir@.len() + (#[trigger] names@[i]@).len() + 80
                <= usize::MAX,
    ensures
        pairs_view(r@).len() == names@.len(),
        forall|i: int|
            0 <= i < names@.len() ==> (#[trigger] pairs_view(r@)[i]).0 == join_seq(
                dir@,
                move_elem(names_view(names@), src as int, dst as int)[i],
            ) && pairs_view(r@)[i].1 == join_seq(
                dir@,
                chapter_target_name(
                    move_elem(names_view(names@), src as int, dst as int)[i],
                    i,
                ),
            ),
        forall|i: int|
            0 <= i < names@.len() ==> (#[trigger] pairs_view(r@)[i]).0.len() + 60
                <= usize::MAX && pairs_view(r@)[i].1.len() + 60 <= usize::MAX,
{
    let ghost nv = names_view(names@);
    let mut order: Vec<Vec<u8>> = Vec::new();
    let mut c: usize = 0;
    while c < names.len()
        invariant
            c <= names@.len(),
            order@.len() == c,
            forall|i: int| 0 <= i < c ==> #[trigger] order@[i]@ == names@[i]@,
        decreases names@.len() - c,
    {
        order.push(slice_to_vec(names[c].as_slice()));
        c = c + 1;
    }
    let moved = order.remove(src);
    let at: usize = if src < dst {
        dst - 1
    } else {
        dst
    };
    order.insert(at, moved);
    proof {
        assert forall|i: int| 0 <= i < nv.len() implies #[trigger] order@[i]@ == move_elem(
            nv,
            src as int,
            dst as int,
        )[i] by {
            let a = if src < dst {
                dst - 1
            } else {
                dst as int
            };
            if i == a {
            } else {
                let wi = if i < a {
                    i
                } else {
                    i - 1
                };
                assert(move_elem(nv, src as int, dst as int)[i] == nv.remove(src as int)[wi]);
            }
        }
        assert forall|i: int| 0 <= i < nv.len() implies dir@.len() + (#[trigger] order@[i]@).len()
            + 80 <= usize::MAX by {
            let a = if src < dst {
                dst - 1
            } else {
                dst as int
            };
            if i == a {
                assert(order@[i]@ == nv[src as int]);
            } else {
                let wi = if i < a {
                    i
                } else {
                    i - 1
                };
                assert(order@[i]@ == nv.remove(src as int)[wi]);
                if wi < src {
                    assert(nv.remove(src as int)[wi] == nv[wi]);
                } else {
                    assert(nv.remove(src as int)[wi] == nv[wi + 1]);
                }
            }
        }
    }
    let mut r: Vec<(Vec<u8>, Vec<u8>)> = Vec::new();
    let mut i: usize = 0;
    while i < order.len()
        invariant
            order@.len() == nv.len(),
            nv.len() <= 9999,
            nv == names_view(names@),
            src < nv.len(),
            dst < nv.len(),
            forall|c2: int|
                0 <= c2 < nv.len() ==> dir@.len() + (#[trigger] nv[c2]).len() + 80
                    <= usize::MAX,
            forall|c2: int| 0 <= c2 < nv.len() ==> #[trigger] order@[c2]@ == move_elem(
                nv,
                src as int,
                dst as int,
            )[c2],
            forall|c2: int|
                0 <= c2 < nv.len() ==> dir@.len() + (#[trigger] order@[c2]@).len() + 80
                    <= usize::MAX,
            i <= order@.len(),
            r@.len() == i,
            forall|c2: int|
                0 <= c2 < i ==> (#[trigger] pairs_view(r@)[c2]).0 == join_seq(
                    dir@,
                    move_elem(nv, src as int, dst as int)[c2],
                ) && pairs_view(r@)[c2].1 == join_seq(
                    dir@,
                    chapter_target_name(move_elem(nv, src as int, dst as int)[c2], c2),
                ),
            forall|c2: int|
                0 <= c2 < i ==> (#[trigger] pairs_view(r@)[c2]).0.len() + 60 <= usize::MAX
                    && pairs_view(r@)[c2].1.len() + 60 <= usize::MAX,
        decreases order@.len() - i,
    {
        let old_name = order[i].as_slice();
        proof {
            crate::index::lemma_last_dot(old_name@);
            assert(old_name@ == move_elem(nv, src as int, dst as int)[i as int]);
            assert(dir@.len() + old_name@.len() + 80 <= usize::MAX);
        }
        let stem_end: usize = match crate::index::find_last_dot(old_name) {
            Some(ld) => if ld > 0 {
                ld
            } else {
                old_name.len()
            },
            None => old_name.len(),
        };
        let stem = vstd::slice::slice_subrange(old_name, 0, stem_end);
        proof {
            assert(stem@ == chapter_stem(old_name@));
        }
        let base0: &[u8] = if stem.len() >= 5 && stem[4] == 45 && is_digit_at(stem, 0)
            && is_digit_at(stem, 1) && is_digit_at(stem, 2) && is_digit_at(stem, 3) {
            proof {
                assert(crate::num::all_digits(stem@.take(4))) by {
                    assert(forall|q: int|
                        0 <= q < 4 ==> stem@.take(4)[q] == stem@[q]);
                }
            }
            vstd::slice::slice_subrange(stem, 5, stem.len())
        } else {
            proof {
                if stem@.len() >= 5 && stem@[4] == 45 && crate::num::all_digits(
                    stem@.take(4),
                ) {
                    assert(stem@.take(4)[0] == stem@[0]);
                    assert(stem@.take(4)[1] == stem@[1]);
                    assert(stem@.take(4)[2] == stem@[2]);
                    assert(stem@.take(4)[3] == stem@[3]);
                }
            }
            stem
        };
        proof {
            assert(base0@ == strip_ordinal(chapter_stem(old_name@)));
        }
        let trimmed = crate::text::trim(base0);
        let base: Vec<u8> = if trimmed.len() == 0 {
            default_chapter_label_bytes()
        } else {
            slice_to_vec(base0)
        };
        let san = crate::index::sanitize_filename(base.as_slice());
        proof {
            crate::index::lemma_sanitize_no_slash(base@);
        }
        proof {
            reveal_strlit(".md");
        }
        let mut tname = crate::num::ordinal4((i + 1) as u32);
        tname.push(45);
        crate::text::push_all(&mut tname, san.as_slice());
        let md = crate::text::ascii_bytes(".md");
        crate::text::push_all(&mut tname, md.as_slice());
        proof {
            assert(tname@ =~= chapter_target_name(old_name@, i as int));
        }
        let from = crate::fs::join_path(dir, old_name);
        let to = crate::fs::join_path(dir, tname.as_slice());
        let ghost prevr = r@;
        r.push((from, to));
        proof {
            assert(pairs_view(r@)[i as int].0 == join_seq(
                dir@,
                move_elem(nv, src as int, dst as int)[i as int],
            ));
            assert(pairs_view(r@)[i as int].0.len() + 60 <= usize::MAX) by {
                assert(from@.len() == dir@.len() + 1 + old_name@.len());
            }
            assert(pairs_view(r@)[i as int].1.len() + 60 <= usize::MAX) by {
                assert(to@.len() == dir@.len() + 1 + tname@.len());
                assert(san@.len() <= base@.len());
                assert(base@.len() <= old_name@.len() || base@.len() == 6);
            }
            assert(pairs_view(r@)[i as int].1 == join_seq(
                dir@,
                chapter_target_name(move_elem(nv, src as int, dst as int)[i as int], i as int),
            ));
            assert forall|c2: int| 0 <= c2 < i implies #[trigger] pairs_view(r@)[c2]
                == pairs_view(prevr)[c2] by {
                assert(r@[c2] == prevr[c2]);
                assert(pairs_view(r@)[c2] == (r@[c2].0@, r@[c2].1@));
                assert(pairs_view(prevr)[c2] == (prevr[c2].0@, prevr[c2].1@));
            }
        }
        i = i + 1;
    }
    r
}

/// Views of a name list.
pub open spec fn names_view(s: Seq<Vec<u8>>) -> Seq<Seq<u8>> {
    s.map_values(|v: Vec<u8>| v@)
}

/// True when byte `q` of `s` is a decimal digit.
fn is_digit_at(s: &[u8], q: usize) -> (r: bool)
    requires
        q < s@.len(),
    ensures
        r == crate::text::spec_is_digit(s@[q as int]),
{
    48 <= s[q] && s[q] <= 57
}


/// The target name of position `i` opens with the ordinal `i + 1` and
/// is a well-formed markdown name.
pub proof fn lemma_target_name_shape(old_name: Seq<u8>, i: int)
    requires
        0 <= i,
        i + 1 < 10000,
    ensures
        chapter_target_name(old_name, i).take(4) == crate::num::pad4((i + 1) as nat),
        chapter_target_name(old_name, i).len() >= 8,
        crate::fs::no_slash(chapter_target_name(old_name, i)),
        crate::index::is_md_name(chapter_target_name(old_name, i)),
        chapter_target_name(old_name, i).last() == 100,
{
    reveal_strlit(".md");
    let t = chapter_target_name(old_name, i);
    let base0 = strip_ordinal(chapter_stem(old_name));
    let base = if crate::text::trim_seq(base0).len() == 0 {
        default_chapter_label()
    } else {
        base0
    };
    let san = crate::index::sanitize_spec(base);
    let p4 = crate::num::pad4((i + 1) as nat);
    crate::index::lemma_sanitize_no_slash(base);
    assert(ascii_seq(".md"@).len() == 3);
    assert(ascii_seq(".md"@)[0] == 46);
    assert(ascii_seq(".md"@)[1] == 109);
    assert(ascii_seq(".md"@)[2] == 100);
    assert(t.len() == 4 + 1 + san.len() + 3);
    assert(t.take(4) =~= p4);
    assert(t.last() == ascii_seq(".md"@)[2]);
    assert forall|q: int| 0 <= q < t.len() implies t[q] != 47 by {
        if q < 4 {
            assert(t[q] == p4[q]);
            assert(48 <= p4[q] <= 57) by {
                assert((i + 1) as nat / 1000 % 10 < 10);
                assert((i + 1) as nat / 100 % 10 < 10);
                assert((i + 1) as nat / 10 % 10 < 10);
                assert((i + 1) as nat % 10 < 10);
            }
        } else if q == 4 {
            assert(t[q] == 45);
        } else if q < 5 + san.len() {
            assert(t[q] == san[q - 5]);
        } else {
            assert(t[q] == ascii_seq(".md"@)[q - 5 - san.len()]);
        }
    }
    let ld = t.len() - 3;
    assert(t[ld] == 46);
    assert(t[ld + 1] == 109 && t[ld + 2] == 100);
    crate::index::lemma_last_dot_at(t, ld);
    assert(crate::text::lower_seq(t.skip(ld + 1)) =~= ascii_seq("md"@)) by {
        reveal_strlit("md");
        assert(t.skip(ld + 1).len() == 2);
        assert(t.skip(ld + 1)[0] == 109);
        assert(t.skip(ld + 1)[1] == 100);
    }
}

/// A markdown name ends in the letter d, in either case.
proof fn lemma_md_name_last(name: Seq<u8>)
    requires
        crate::index::is_md_name(name),
    ensures
        name.len() > 0,
        name.last() == 100 || name.last() == 68,
{
    reveal_strlit("md");
    let ld = crate::index::last_dot(name).unwrap();
    crate::index::lemma_last_dot(name);
    let ext = name.skip(ld + 1);
    assert(crate::text::lower_seq(ext).len() == 2);
    assert(ext.len() == 2);
    assert(name.last() == ext[1]);
    assert(crate::text::lower_seq(ext)[1] == crate::text::lower_byte(ext[1]));
    assert(crate::text::lower_seq(ext)[1] == ascii_seq("md"@)[1]);
    assert(ascii_seq("md"@)[1] == 100);
}

/// Sources and targets of a listing-built plan: sources exist and are
/// distinct, targets are distinct and collide only with sources.
#[verifier::rlimit(100)]
proof fn lemma_plan_sources_targets(
    m: Map<Seq<u8>, Seq<u8>>,
    dir: Seq<u8>,
    names: Seq<Seq<u8>>,
    src: int,
    dst: int,
    pid: u64,
    pairs: Seq<(Seq<u8>, Seq<u8>)>,
)
    requires
        0 <= src < names.len(),
        0 <= dst < names.len(),
        src != dst,
        names.len() <= 9999,
        forall|i: int, j: int| 0 <= i < j < names.len() ==> names[i] != names[j],
        forall|i: int|
            0 <= i < names.len() ==> crate::fs::in_dir(m, dir, #[trigger] names[i])
                && crate::index::is_md_name(names[i]),
        forall|name: Seq<u8>|
            crate::fs::in_dir(m, dir, name) && crate::index::is_md_name(name)
                ==> exists|j: int| 0 <= j < names.len() && #[trigger] names[j] == name,
        forall|name: Seq<u8>|
            crate::fs::in_dir(m, dir, name) ==> !contains_seq(
                name,
                reorder_marker(),
            ),
        pairs.len() == names.len(),
        forall|i: int|
            0 <= i < names.len() ==> (#[trigger] pairs[i]).0 == join_seq(
                dir,
                move_elem(names, src, dst)[i],
            ) && pairs[i].1 == join_seq(
                dir,
                chapter_target_name(move_elem(names, src, dst)[i], i),
            ),
    ensures
        forall|i: int| 0 <= i < pairs.len() ==> m.contains_key((#[trigger] pairs[i]).0),
        forall|i: int, j: int| 0 <= i < j < pairs.len() ==> pairs[i].0 != pairs[j].0,
        forall|i: int, j: int| 0 <= i < j < pairs.len() ==> pairs[i].1 != pairs[j].1,
        forall|i: int|
            0 <= i < pairs.len() && m.contains_key((#[trigger] pairs[i]).1) ==> exists|
            j: int,
            |
                0 <= j < pairs.len() && (#[trigger] pairs[j]).0 == pairs[i].1,
{
    reveal_strlit(".reorder.tmp.");
    let order = move_elem(names, src, dst);
    let n = names.len() as int;
    lemma_move_elem(names, src, dst);
    crate::num::lemma_dec_digits(pid as nat);
    assert forall|i: int| 0 <= i < n implies crate::fs::in_dir(
        m,
        dir,
        #[trigger] order[i],
    ) && crate::index::is_md_name(order[i]) && !contains_seq(
        order[i],
        reorder_marker(),
    ) by {
        let j = choose|j: int| 0 <= j < names.len() && #[trigger] order[i] == names[j];
    }
    assert forall|i: int| 0 <= i < n implies chapter_target_name(
        #[trigger] order[i],
        i,
    ).take(4) == crate::num::pad4((i + 1) as nat) by {
        lemma_target_name_shape(order[i], i);
    }
    // sources exist
    assert forall|i: int| 0 <= i < n implies m.contains_key((#[trigger] pairs[i]).0) by {
        assert(crate::fs::in_dir(m, dir, order[i]));
    }
    // sources distinct
    assert forall|i: int, j: int| 0 <= i < j < n implies pairs[i].0 != pairs[j].0 by {
        if pairs[i].0 == pairs[j].0 {
            crate::fs::lemma_join_inj(dir, order[i], order[j]);
        }
    }
    // targets distinct
    assert forall|i: int, j: int| 0 <= i < j < n implies pairs[i].1 != pairs[j].1 by {
        if pairs[i].1 == pairs[j].1 {
            crate::fs::lemma_join_inj(
                dir,
                chapter_target_name(order[i], i),
                chapter_target_name(order[j], j),
            );
            lemma_target_name_shape(order[i], i);
            lemma_target_name_shape(order[j], j);
            assert(crate::num::pad4((i + 1) as nat) == crate::num::pad4((j + 1) as nat));
            crate::num::lemma_pad4_injective((i + 1) as nat, (j + 1) as nat);
        }
    }
    // a target present on disk is one of the sources
    assert forall|i: int|
        0 <= i < n && m.contains_key((#[trigger] pairs[i]).1) implies exists|j: int|
        0 <= j < n && (#[trigger] pairs[j]).0 == pairs[i].1 by {
        let t = chapter_target_name(order[i], i);
        lemma_target_name_shape(order[i], i);
        crate::fs::lemma_join_parts(dir, t);
        assert(crate::fs::in_dir(m, dir, t));
        let j = choose|j: int| 0 <= j < names.len() && #[trigger] names[j] == t;
        let i2 = choose|i2: int| 0 <= i2 < names.len() && #[trigger] names[j] == order[i2];
        assert(pairs[i2].0 == join_seq(dir, order[i2]));
        assert(pairs[i2].0 == pairs[i].1);
    }
}


/// The last byte of a temporary name is a decimal digit.
proof fn lemma_tmp_last_digit(x: Seq<u8>, pid: u64, i: int)
    requires
        0 <= i,
    ensures
        crate::text::spec_is_digit(tmp_name(x, pid, i).last()),
        tmp_name(x, pid, i).len() > 0,
{
    crate::num::lemma_dec_digits(i as nat);
    let d = dec_digits(i as nat);
    assert(tmp_name(x, pid, i).last() == d.last());
    assert(crate::num::all_digits(d));
}

/// Two temporary names with different indices differ.
proof fn lemma_tmp_names_distinct(a0: Seq<u8>, b0: Seq<u8>, pid: u64, i: int, j: int)
    requires
        0 <= i,
        0 <= j,
        i != j,
    ensures
        tmp_name(a0, pid, i) != tmp_name(b0, pid, j),
{
    crate::num::lemma_dec_digits(i as nat);
    crate::num::lemma_dec_digits(j as nat);
    let a = tmp_name(a0, pid, i);
    let b = tmp_name(b0, pid, j);
    if a == b {
        let ua = a0 + reorder_marker() + dec_digits(pid as nat);
        let ub = b0 + reorder_marker() + dec_digits(pid as nat);
        assert(a =~= ua + seq![46u8] + dec_digits(i as nat));
        assert(b =~= ub + seq![46u8] + dec_digits(j as nat));
        lemma_tmp_last_dot(ua, i as nat);
        lemma_tmp_last_dot(ub, j as nat);
        assert(crate::index::last_dot(a) == Some(ua.len() as int));
        assert(crate::index::last_dot(b) == Some(ub.len() as int));
        assert(ua.len() == ub.len());
        assert(a.skip(ua.len() + 1 as int) =~= dec_digits(i as nat));
        assert(b.skip(ub.len() + 1 as int) =~= dec_digits(j as nat));
        assert(dec_digits(i as nat) == dec_digits(j as nat));
        assert(crate::num::dec_val(dec_digits(i as nat)) == i as nat);
        assert(crate::num::dec_val(dec_digits(j as nat)) == j as nat);
    }
}

/// Temporary names of a listing-built plan: fresh, distinct, apart from
/// every source and target.
#[verifier::rlimit(100)]
proof fn lemma_plan_tmps(
    m: Map<Seq<u8>, Seq<u8>>,
    dir: Seq<u8>,
    names: Seq<Seq<u8>>,
    src: int,
    dst: int,
    pid: u64,
    pairs: Seq<(Seq<u8>, Seq<u8>)>,
)
    requires
        0 <= src < names.len(),
        0 <= dst < names.len(),
        src != dst,
        names.len() <= 9999,
        forall|i: int, j: int| 0 <= i < j < names.len() ==> names[i] != names[j],
        forall|i: int|
            0 <= i < names.len() ==> crate::fs::in_dir(m, dir, #[trigger] names[i])
                && crate::index::is_md_name(names[i]),
        forall|name: Seq<u8>|
            crate::fs::in_dir(m, dir, name) && crate::index::is_md_name(name)
                ==> exists|j: int| 0 <= j < names.len() && #[trigger] names[j] == name,
        forall|name: Seq<u8>|
            crate::fs::in_dir(m, dir, name) ==> !contains_seq(
                name,
                reorder_marker(),
            ),
        pairs.len() == names.len(),
        forall|i: int|
            0 <= i < names.len() ==> (#[trigger] pairs[i]).0 == join_seq(
                dir,
                move_elem(names, src, dst)[i],
            ) && pairs[i].1 == join_seq(
                dir,
                chapter_target_name(move_elem(names, src, dst)[i], i),
            ),
    ensures
        forall|i: int|
            0 <= i < pairs.len() ==> !m.contains_key(
                tmp_name((#[trigger] pairs[i]).0, pid, i),
            ),
        forall|i: int, j: int|
            0 <= i < pairs.len() && 0 <= j < pairs.len() ==> tmp_name(
                (#[trigger] pairs[i]).0,
                pid,
                i,
            ) != (#[trigger] pairs[j]).1,
        forall|i: int, j: int|
            0 <= i < pairs.len() && 0 <= j < pairs.len() ==> tmp_name(
                (#[trigger] pairs[i]).0,
                pid,
                i,
            ) != (#[trigger] pairs[j]).0,
        forall|i: int, j: int|
            0 <= i < pairs.len() && 0 <= j < pairs.len() && i != j ==> tmp_name(
                (#[trigger] pairs[i]).0,
                pid,
                i,
            ) != tmp_name((#[trigger] pairs[j]).0, pid, j),
{
    reveal_strlit(".reorder.tmp.");
    let order = move_elem(names, src, dst);
    let n = names.len() as int;
    lemma_move_elem(names, src, dst);
    crate::num::lemma_dec_digits(pid as nat);
    assert forall|i: int| 0 <= i < n implies crate::fs::in_dir(
        m,
        dir,
        #[trigger] order[i],
    ) && crate::index::is_md_name(order[i]) && !contains_seq(
        order[i],
        reorder_marker(),
    ) by {
        let j = choose|j: int| 0 <= j < names.len() && #[trigger] order[i] == names[j];
    }
    // temporary names: structure
    assert forall|i: int| 0 <= i < n implies tmp_name(
        (#[trigger] pairs[i]).0,
        pid,
        i,
    ) == join_seq(dir, tmp_child_name(order[i], pid, i)) by {
        assert(tmp_name(join_seq(dir, order[i]), pid, i) =~= join_seq(
            dir,
            tmp_child_name(order[i], pid, i),
        ));
    }
    // temporaries are fresh
    assert forall|i: int| 0 <= i < n implies !m.contains_key(
        tmp_name((#[trigger] pairs[i]).0, pid, i),
    ) by {
        crate::num::lemma_dec_digits(i as nat);
        let nm = tmp_child_name(order[i], pid, i);
        if m.contains_key(join_seq(dir, nm)) {
            assert(crate::fs::in_dir(m, dir, nm)) by {
                lemma_tmp_child_no_slash(order[i], pid, i);
            }
            assert(contains_seq(nm, reorder_marker())) by {
                assert(crate::text::matches_at(nm, reorder_marker(), order[i].len() as int))
                    by {
                    assert(nm.subrange(
                        order[i].len() as int,
                        order[i].len() + reorder_marker().len() as int,
                    ) =~= reorder_marker());
                }
            }
        }
    }
    // temporaries never equal a target
    assert forall|i: int, j: int| 0 <= i < n && 0 <= j < n implies tmp_name(
        (#[trigger] pairs[i]).0,
        pid,
        i,
    ) != (#[trigger] pairs[j]).1 by {
        lemma_tmp_last_digit(pairs[i].0, pid, i);
        let a = tmp_name(pairs[i].0, pid, i);
        let b = pairs[j].1;
        lemma_target_name_shape(order[j], j);
        let t = chapter_target_name(order[j], j);
        assert(b.last() == t.last()) by {
            crate::fs::lemma_join_parts(dir, t);
            assert(b[b.len() - 1] == t[t.len() - 1]);
        }
        if a == b {
            assert(a.last() == b.last());
        }
    }
    // temporaries never equal a source
    assert forall|i: int, j: int| 0 <= i < n && 0 <= j < n implies tmp_name(
        (#[trigger] pairs[i]).0,
        pid,
        i,
    ) != (#[trigger] pairs[j]).0 by {
        lemma_tmp_last_digit(pairs[i].0, pid, i);
        let a = tmp_name(pairs[i].0, pid, i);
        let b = pairs[j].0;
        lemma_md_name_last(order[j]);
        assert(b.last() == order[j].last()) by {
            crate::fs::lemma_join_parts(dir, order[j]);
            assert(b[b.len() - 1] == order[j][order[j].len() - 1]);
        }
        if a == b {
            assert(a.last() == b.last());
        }
    }
    // temporaries pairwise distinct
    assert forall|i: int, j: int| 0 <= i < n && 0 <= j < n && i != j implies tmp_name(
        (#[trigger] pairs[i]).0,
        pid,
        i,
    ) != tmp_name((#[trigger] pairs[j]).0, pid, j) by {
        lemma_tmp_names_distinct(pairs[i].0, pairs[j].0, pid, i, j);
    }
}

/// A plan built from the full, distinct, marker-free markdown listing
/// of the chapter directory is safe to execute: `reorder_ok` holds, and
/// the target names carry the ordinals 1 to N in order.
pub proof fn lemma_reorder_plan_safe(
    m: Map<Seq<u8>, Seq<u8>>,
    dir: Seq<u8>,
    names: Seq<Seq<u8>>,
    src: int,
    dst: int,
    pid: u64,
    pairs: Seq<(Seq<u8>, Seq<u8>)>,
)
    requires
        0 <= src < names.len(),
        0 <= dst < names.len(),
        src != dst,
        names.len() <= 9999,
        forall|i: int, j: int| 0 <= i < j < names.len() ==> names[i] != names[j],
        forall|i: int|
            0 <= i < names.len() ==> crate::fs::in_dir(m, dir, #[trigger] names[i])
                && crate::index::is_md_name(names[i]),
        forall|name: Seq<u8>|
            crate::fs::in_dir(m, dir, name) && crate::index::is_md_name(name)
                ==> exists|j: int| 0 <= j < names.len() && #[trigger] names[j] == name,
        forall|name: Seq<u8>|
            crate::fs::in_dir(m, dir, name) ==> !contains_seq(
                name,
                reorder_marker(),
            ),
        pairs.len() == names.len(),
        forall|i: int|
            0 <= i < names.len() ==> (#[trigger] pairs[i]).0 == join_seq(
                dir,
                move_elem(names, src, dst)[i],
            ) && pairs[i].1 == join_seq(
                dir,
                chapter_target_name(move_elem(names, src, dst)[i], i),
            ),
    ensures
        reorder_ok(m, pairs, pid),
        forall|i: int|
            0 <= i < pairs.len() ==> (#[trigger] pairs[i]).1 == join_seq(
                dir,
                chapter_target_name(move_elem(names, src, dst)[i], i),
            ) && chapter_target_name(move_elem(names, src, dst)[i], i).take(4)
                == crate::num::pad4((i + 1) as nat),
{
    lemma_plan_sources_targets(m, dir, names, src, dst, pid, pairs);
    lemma_plan_tmps(m, dir, names, src, dst, pid, pairs);
    let order = move_elem(names, src, dst);
    assert forall|i: int| 0 <= i < pairs.len() implies (#[trigger] pairs[i]).1 == join_seq(
        dir,
        chapter_target_name(order[i], i),
    ) && chapter_target_name(order[i], i).take(4) == crate::num::pad4((i + 1) as nat) by {
        lemma_target_name_shape(order[i], i);
    }
}

/// The temporary name of a chapter, relative to the directory.
pub open spec fn tmp_child_name(name: Seq<u8>, pid: u64, i: int) -> Seq<u8> {
    name + reorder_marker() + dec_digits(pid as nat) + seq![46u8] + dec_digits(i as nat)
}

/// A temporary child name holds no separator.
proof fn lemma_tmp_child_no_slash(name: Seq<u8>, pid: u64, i: int)
    requires
        crate::fs::no_slash(name),
        0 <= i,
    ensures
        crate::fs::no_slash(tmp_child_name(name, pid, i)),
        tmp_child_name(name, pid, i).len() > 0,
{
    reveal_strlit(".reorder.tmp.");
    crate::num::lemma_dec_digits(pid as nat);
    crate::num::lemma_dec_digits(i as nat);
    let nm = tmp_child_name(name, pid, i);
    let mk = reorder_marker();
    let pd = dec_digits(pid as nat);
    let idg = dec_digits(i as nat);
    assert forall|q: int| 0 <= q < nm.len() implies nm[q] != 47 by {
        if q < name.len() {
            assert(nm[q] == name[q]);
        } else if q < name.len() + mk.len() {
            assert(nm[q] == mk[q - name.len()]);
        } else if q < name.len() + mk.len() + pd.len() {
            assert(nm[q] == pd[q - name.len() - mk.len()]);
            assert(crate::text::spec_is_digit(nm[q]));
        } else if q == name.len() + mk.len() + pd.len() {
            assert(nm[q] == 46);
        } else {
            assert(nm[q] == idg[q - name.len() - mk.len() - pd.len() - 1]);
            assert(crate::text::spec_is_digit(nm[q]));
        }
    }
}

/// In `u + "." + digits` the dot before the digits is the last dot.
proof fn lemma_tmp_last_dot(u: Seq<u8>, i: nat)
    ensures
        crate::index::last_dot(u + seq![46u8] + dec_digits(i)) == Some(u.len() as int),
{
    crate::num::lemma_dec_digits(i);
    let s = u + seq![46u8] + dec_digits(i);
    assert(s[u.len() as int] == 46);
    assert forall|j: int| u.len() < j < s.len() implies s[j] != 46 by {
        assert(s[j] == dec_digits(i)[j - u.len() - 1]);
        assert(crate::text::spec_is_digit(s[j]));
    }
    crate::index::lemma_last_dot_at(s, u.len() as int);
}

} // verus!
