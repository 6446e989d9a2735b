//! In-memory model of the project directory tree.
//!
//! Paths are byte strings with `/` separators. The store's algorithms
//! run against this model and are verified over its map-and-set view; a
//! host mirrors each operation onto a real directory tree with ordinary
//! file-system calls.

use vstd::prelude::*;

verus! {

use vstd::slice::slice_to_vec;
use vstd::slice::slice_subrange;
use crate::text::is_prefix;

/// One file: full path and contents.
pub struct FsFile {
    pub path: Vec<u8>,
    pub data: Vec<u8>,
}

/// Errors of the directory model, mirroring the host file-system errors
/// the store distinguishes.
#[derive(Clone, Copy, Debug, PartialEq, Eq, Structural)]
pub enum FsError {
    NotFound,
    AlreadyExists,
}

/// The mathematical view of a directory tree: file contents by path,
/// and the set of directories.
pub ghost struct FsModel {
    pub pid: u64,
    pub files: Map<Seq<u8>, Seq<u8>>,
    pub dirs: Set<Seq<u8>>,
}

/// The directory tree model. `pid` is the host process identifier used
/// to name transient artifacts uniquely.
pub struct Fs {
    pid: u64,
    files: Vec<FsFile>,
    dirs: Vec<Vec<u8>>,
}

/// Path separator byte (`/`).
pub open spec fn sep() -> Seq<u8> {
    seq![47u8]
}

/// `dir`/`name` as a single path.
pub open spec fn join_seq(dir: Seq<u8>, name: Seq<u8>) -> Seq<u8> {
    dir + sep() + name
}

/// True when `k` lies under directory `dir` (at any depth).
pub open spec fn under_dir(dir: Seq<u8>, k: Seq<u8>) -> bool {
    is_prefix(dir + sep(), k)
}

/// True when `name` contains no path separator.
pub open spec fn no_slash(name: Seq<u8>) -> bool {
    forall|i: int| 0 <= i < name.len() ==> name[i] != 47
}

/// True when the file map holds an entry directly in `dir` under `name`.
pub open spec fn in_dir(files: Map<Seq<u8>, Seq<u8>>, dir: Seq<u8>, name: Seq<u8>) -> bool {
    name.len() > 0 && no_slash(name) && files.contains_key(join_seq(dir, name))
}

pub proof fn lemma_join_inj(dir: Seq<u8>, a: Seq<u8>, b: Seq<u8>)
    requires
        join_seq(dir, a) == join_seq(dir, b),
    ensures
        a == b,
{
    assert(join_seq(dir, a).len() == dir.len() + sep().len() + a.len());
    assert(join_seq(dir, b).len() == dir.len() + sep().len() + b.len());
    assert(a.len() == b.len());
    assert forall|i: int| 0 <= i < a.len() implies a[i] == b[i] by {
        assert(join_seq(dir, a)[dir.len() + 1 + i] == a[i]);
        assert(join_seq(dir, b)[dir.len() + 1 + i] == b[i]);
    }
    assert(a =~= b);
}

/// A joined path starts with `dir`/ and ends with the name.
pub proof fn lemma_join_parts(dir: Seq<u8>, name: Seq<u8>)
    ensures
        under_dir(dir, join_seq(dir, name)),
        join_seq(dir, name).skip(dir.len() + 1 as int) == name,
        join_seq(dir, name).len() == dir.len() + 1 + name.len(),
{
    let k = join_seq(dir, name);
    assert(k.take(dir.len() + 1 as int) =~= dir + sep());
    assert(k.skip(dir.len() + 1 as int) =~= name);
}

/// A path under `dir` is `dir`/ followed by its remainder.
pub proof fn lemma_under_dir_split(dir: Seq<u8>, k: Seq<u8>)
    requires
        under_dir(dir, k),
    ensures
        k == join_seq(dir, k.skip(dir.len() + 1 as int)),
{
    assert(k =~= k.take(dir.len() + 1 as int) + k.skip(dir.len() + 1 as int));
    assert(k.take(dir.len() + 1 as int) == dir + sep());
}

/// Executable path join.
pub fn join_path(dir: &[u8], name: &[u8]) -> (r: Vec<u8>)
    requires
        dir@.len() + 1 + name@.len() <= usize::MAX,
    ensures
        r@ == join_seq(dir@, name@),
{
    let mut r = slice_to_vec(dir);
    r.push(47);
    let mut i: usize = 0;
    while i < name.len()
        invariant
            i <= name@.len(),
            r@ =~= dir@ + sep() + name@.take(i as int),
        decreases name@.len() - i,
    {
        r.push(name[i]);
        assert(r@ =~= dir@ + sep() + name@.take(i + 1));
        i = i + 1;
    }
    assert(name@.take(i as int) =~= name@);
    r
}

/// Pairwise-distinct file paths.
pub open spec fn paths_distinct(s: Seq<FsFile>) -> bool {
    forall|i: int, j: int| 0 <= i < j < s.len() ==> s[i].path@ != s[j].path@
}

/// Pairwise-distinct directory paths.
pub open spec fn dirs_distinct(s: Seq<Vec<u8>>) -> bool {
    forall|i: int, j: int| 0 <= i < j < s.len() ==> s[i]@ != s[j]@
}

/// The file map described by a sequence of files.
pub open spec fn files_map(s: Seq<FsFile>) -> Map<Seq<u8>, Seq<u8>>
    decreases s.len(),
{
    if s.len() == 0 {
        Map::empty()
    } else {
        files_map(s.drop_last()).insert(s.last().path@, s.last().data@)
    }
}

/// The directory set described by a sequence of directory paths.
pub open spec fn dirs_set(s: Seq<Vec<u8>>) -> Set<Seq<u8>>
    decreases s.len(),
{
    if s.len() == 0 {
        Set::empty()
    } else {
        dirs_set(s.drop_last()).insert(s.last()@)
    }
}

pub proof fn lemma_files_map_contains(s: Seq<FsFile>, k: Seq<u8>)
    ensures
        files_map(s).contains_key(k) <==> exists|i: int|
            0 <= i < s.len() && #[trigger] s[i].path@ == k,
    decreases s.len(),
{
    if s.len() > 0 {
        lemma_files_map_contains(s.drop_last(), k);
        if files_map(s).contains_key(k) {
            if s.last().path@ == k {
                assert(s[s.len() - 1].path@ == k);
            } else {
                let i = choose|i: int|
                    0 <= i < s.drop_last().len() && #[trigger] s.drop_last()[i].path@ == k;
                assert(s[i].path@ == k);
            }
        }
        if exists|i: int| 0 <= i < s.len() && #[trigger] s[i].path@ == k {
            let i = choose|i: int| 0 <= i < s.len() && #[trigger] s[i].path@ == k;
            if i < s.len() - 1 {
                assert(s.drop_last()[i].path@ == k);
            }
        }
    }
}

pub proof fn lemma_files_map_index(s: Seq<FsFile>, i: int)
    requires
        paths_distinct(s),
        0 <= i < s.len(),
    ensures
        files_map(s).contains_key(s[i].path@),
        files_map(s)[s[i].path@] == s[i].data@,
    decreases s.len(),
{
    lemma_files_map_contains(s, s[i].path@);
    if i == s.len() - 1 {
    } else {
        assert(paths_distinct(s.drop_last()));
        assert(s.drop_last()[i] == s[i]);
        lemma_files_map_index(s.drop_last(), i);
        assert(s[i].path@ != s.last().path@);
    }
}

pub proof fn lemma_files_map_remove(s: Seq<FsFile>, i: int)
    requires
        paths_distinct(s),
        0 <= i < s.len(),
    ensures
        files_map(s.remove(i)) == files_map(s).remove(s[i].path@),
    decreases s.len(),
{
    if i == s.len() - 1 {
        assert(s.remove(i) =~= s.drop_last());
        lemma_files_map_contains(s.drop_last(), s[i].path@);
        assert(!files_map(s.drop_last()).contains_key(s[i].path@));
        assert(files_map(s.drop_last()).insert(s.last().path@, s.last().data@).remove(
            s[i].path@,
        ) =~= files_map(s.drop_last()));
    } else {
        assert(paths_distinct(s.drop_last()));
        lemma_files_map_remove(s.drop_last(), i);
        assert(s.remove(i).drop_last() =~= s.drop_last().remove(i));
        assert(s.remove(i).last() == s.last());
        assert(files_map(s.remove(i)) == files_map(s.drop_last().remove(i)).insert(
            s.last().path@,
            s.last().data@,
        ));
        assert(s[i].path@ != s.last().path@);
        assert(files_map(s.drop_last()).remove(s[i].path@).insert(
            s.last().path@,
            s.last().data@,
        ) =~= files_map(s.drop_last()).insert(s.last().path@, s.last().data@).remove(
            s[i].path@,
        ));
    }
}

pub proof fn lemma_files_map_push(s: Seq<FsFile>, f: FsFile)
    ensures
        files_map(s.push(f)) == files_map(s).insert(f.path@, f.data@),
{
    assert(s.push(f).drop_last() =~= s);
    assert(s.push(f).last() == f);
}

pub proof fn lemma_dirs_set_contains(s: Seq<Vec<u8>>, k: Seq<u8>)
    ensures
        dirs_set(s).contains(k) <==> exists|i: int|
            0 <= i < s.len() && #[trigger] s[i]@ == k,
    decreases s.len(),
{
    if s.len() > 0 {
        lemma_dirs_set_contains(s.drop_last(), k);
        if dirs_set(s).contains(k) {
            if s.last()@ == k {
                assert(s[s.len() - 1]@ == k);
            } else {
                let i = choose|i: int|
                    0 <= i < s.drop_last().len() && #[trigger] s.drop_last()[i]@ == k;
                assert(s[i]@ == k);
            }
        }
        if exists|i: int| 0 <= i < s.len() && #[trigger] s[i]@ == k {
            let i = choose|i: int| 0 <= i < s.len() && #[trigger] s[i]@ == k;
            if i < s.len() - 1 {
                assert(s.drop_last()[i]@ == k);
            }
        }
    }
}

pub proof fn lemma_dirs_set_push(s: Seq<Vec<u8>>, d: Vec<u8>)
    ensures
        dirs_set(s.push(d)) == dirs_set(s).insert(d@),
{
    assert(s.push(d).drop_last() =~= s);
    assert(s.push(d).last() == d);
}

impl View for Fs {
    type V = FsModel;

    closed spec fn view(&self) -> FsModel {
        FsModel { pid: self.pid, files: files_map(self.files@), dirs: dirs_set(self.dirs@) }
    }
}

impl Fs {
    /// Internal representation invariant: no duplicate paths.
    pub closed spec fn wf(&self) -> bool {
        paths_distinct(self.files@) && dirs_distinct(self.dirs@)
    }

    /// An empty tree.
    pub fn new(pid: u64) -> (r: Fs)
        ensures
            r.wf(),
            r@.pid == pid,
            r@.files == Map::<Seq<u8>, Seq<u8>>::empty(),
            r@.dirs == Set::<Seq<u8>>::empty(),
    {
        Fs { pid, files: Vec::new(), dirs: Vec::new() }
    }

    /// The process identifier used for transient artifact names.
    pub fn pid(&self) -> (r: u64)
        ensures
            r == self@.pid,
    {
        self.pid
    }

    /// Index of the file at `path`, if any.
    fn find_file(&self, path: &[u8]) -> (r: Option<usize>)
        ensures
            match r {
                Some(i) => i < self.files@.len() && self.files@[i as int].path@ == path@,
                None => forall|i: int|
                    0 <= i < self.files@.len() ==> #[trigger] self.files@[i].path@ != path@,
            },
    {
        let mut i: usize = 0;
        while i < self.files.len()
            invariant
                i <= self.files@.len(),
                forall|j: int| 0 <= j < i ==> #[trigger] self.files@[j].path@ != path@,
            decreases self.files@.len() - i,
        {
            if crate::text::bytes_eq(self.files[i].path.as_slice(), path) {
                return Some(i);
            }
            i = i + 1;
        }
        None
    }

    /// True when a file exists at `path`.
    pub fn file_exists(&self, path: &[u8]) -> (r: bool)
        ensures
            r == self@.files.contains_key(path@),
    {
        let f = self.find_file(path);
        proof {
            lemma_files_map_contains(self.files@, path@);
        }
        f.is_some()
    }

    /// Contents of the file at `path`.
    pub fn read_file(&self, path: &[u8]) -> (r: Option<Vec<u8>>)
        requires
            self.wf(),
        ensures
            match r {
                Some(d) => self@.files.contains_key(path@) && d@ == self@.files[path@],
                None => !self@.files.contains_key(path@),
            },
    {
        proof {
            lemma_files_map_contains(self.files@, path@);
        }
        match self.find_file(path) {
            Some(i) => {
                proof {
                    lemma_files_map_index(self.files@, i as int);
                }
                Some(slice_to_vec(self.files[i].data.as_slice()))
            },
            None => None,
        }
    }

    /// Writes `data` at `path`, replacing any previous contents.
    pub fn write_file(&mut self, path: &[u8], data: &[u8])
        requires
            old(self).wf(),
        ensures
            final(self).wf(),
            final(self)@.pid == old(self)@.pid,
            final(self)@.files == old(self)@.files.insert(path@, data@),
            final(self)@.dirs == old(self)@.dirs,
    {
        let f = FsFile { path: slice_to_vec(path), data: slice_to_vec(data) };
        match self.find_file(path) {
            Some(i) => {
                proof {
                    lemma_files_map_remove(self.files@, i as int);
                    lemma_files_map_push(self.files@.remove(i as int), f);
                    assert(files_map(self.files@).remove(path@).insert(path@, data@)
                        =~= files_map(self.files@).insert(path@, data@));
                    let s = self.files@.remove(i as int);
                    assert forall|a: int, b: int|
                        0 <= a < b < s.push(f).len() implies s.push(f)[a].path@ != s.push(
                        f,
                    )[b].path@ by {
                        if b < s.len() {
                        } else {
                            lemma_files_map_contains(s, path@);
                            assert(files_map(s) == files_map(self.files@).remove(path@));
                            assert(!files_map(s).contains_key(path@));
                        }
                    }
                }
                self.files.remove(i);
                self.files.push(f);
            },
            None => {
                proof {
                    lemma_files_map_push(self.files@, f);
                    let s = self.files@;
                    assert forall|a: int, b: int|
                        0 <= a < b < s.push(f).len() implies s.push(f)[a].path@ != s.push(
                        f,
                    )[b].path@ by {}
                }
                self.files.push(f);
            },
        }
    }

    /// Removes the file at `path`.
    pub fn remove_file(&mut self, path: &[u8]) -> (r: Result<(), FsError>)
        requires
            old(self).wf(),
        ensures
            final(self).wf(),
            final(self)@.pid == old(self)@.pid,
            r is Ok <==> old(self)@.files.contains_key(path@),
            r is Ok ==> final(self)@.files == old(self)@.files.remove(path@),
            r is Err ==> final(self)@ == old(self)@ && r == Err::<(), FsError>(
                FsError::NotFound,
            ),
            final(self)@.dirs == old(self)@.dirs,
    {
        proof {
            lemma_files_map_contains(self.files@, path@);
        }
        match self.find_file(path) {
            Some(i) => {
                proof {
                    lemma_files_map_remove(self.files@, i as int);
                }
                self.files.remove(i);
                Ok(())
            },
            None => Err(FsError::NotFound),
        }
    }

    /// Renames `from` to `to`; fails if `to` already exists.
    pub fn rename_file(&mut self, from: &[u8], to: &[u8]) -> (r: Result<(), FsError>)
        requires
            old(self).wf(),
        ensures
            final(self).wf(),
            final(self)@.pid == old(self)@.pid,
            final(self)@.dirs == old(self)@.dirs,
            r is Ok <==> old(self)@.files.contains_key(from@) && (from@ == to@ || !old(
                self,
            )@.files.contains_key(to@)),
            !old(self)@.files.contains_key(from@) ==> r == Err::<(), FsError>(
                FsError::NotFound,
            ),
            old(self)@.files.contains_key(from@) && from@ != to@ && old(
                self,
            )@.files.contains_key(to@) ==> r == Err::<(), FsError>(FsError::AlreadyExists),
            r is Ok && from@ != to@ ==> final(self)@.files == old(self)@.files.remove(
                from@,
            ).insert(to@, old(self)@.files[from@]),
            r is Ok && from@ == to@ ==> final(self)@.files == old(self)@.files,
            r is Err ==> final(self)@ == old(self)@,
    {
        let same = crate::text::bytes_eq(from, to);
        if !self.file_exists(from) {
            return Err(FsError::NotFound);
        }
        if !same && self.file_exists(to) {
            return Err(FsError::AlreadyExists);
        }
        if same {
            return Ok(());
        }
        let data = match self.read_file(from) {
            Some(d) => d,
            None => {
                proof {
                    assert(false);
                }
                Vec::new()
            },
        };
        let res = self.remove_file(from);
        proof {
            assert(res is Ok);
        }
        self.write_file(to, data.as_slice());
        Ok(())
    }

    /// Renames `from` onto `to`, replacing `to` if it exists (the atomic
    /// publish step of the atomic writer).
    pub fn replace_file(&mut self, from: &[u8], to: &[u8]) -> (r: Result<(), FsError>)
        requires
            old(self).wf(),
        ensures
            final(self).wf(),
            final(self)@.pid == old(self)@.pid,
            final(self)@.dirs == old(self)@.dirs,
            r is Ok <==> old(self)@.files.contains_key(from@),
            r is Err ==> final(self)@ == old(self)@ && r == Err::<(), FsError>(
                FsError::NotFound,
            ),
            r is Ok && from@ != to@ ==> final(self)@.files == old(self)@.files.remove(
                from@,
            ).insert(to@, old(self)@.files[from@]),
            r is Ok && from@ == to@ ==> final(self)@.files == old(self)@.files,
    {
        let same = crate::text::bytes_eq(from, to);
        if !self.file_exists(from) {
            return Err(FsError::NotFound);
        }
        if same {
            return Ok(());
        }
        let data = match self.read_file(from) {
            Some(d) => d,
            None => {
                proof {
                    assert(false);
                }
                Vec::new()
            },
        };
        let res = self.remove_file(from);
        proof {
            assert(res is Ok);
        }
        self.write_file(to, data.as_slice());
        Ok(())
    }

    /// True when the directory `path` exists.
    pub fn dir_exists(&self, path: &[u8]) -> (r: bool)
        ensures
            r == self@.dirs.contains(path@),
    {
        let mut i: usize = 0;
        proof {
            lemma_dirs_set_contains(self.dirs@, path@);
        }
        while i < self.dirs.len()
            invariant
                i <= self.dirs@.len(),
                forall|j: int| 0 <= j < i ==> #[trigger] self.dirs@[j]@ != path@,
                dirs_set(self.dirs@).contains(path@) <==> exists|j: int|
                    0 <= j < self.dirs@.len() && #[trigger] self.dirs@[j]@ == path@,
            decreases self.dirs@.len() - i,
        {
            if crate::text::bytes_eq(self.dirs[i].as_slice(), path) {
                return true;
            }
            i = i + 1;
        }
        false
    }

    /// Creates the directory `path` if it is not present.
    pub fn ensure_dir(&mut self, path: &[u8])
        requires
            old(self).wf(),
        ensures
            final(self).wf(),
            final(self)@.pid == old(self)@.pid,
            final(self)@.files == old(self)@.files,
            final(self)@.dirs == old(self)@.dirs.insert(path@),
    {
        if self.dir_exists(path) {
            proof {
                assert(old(self)@.dirs.insert(path@) =~= old(self)@.dirs);
            }
            return ;
        }
        let d = slice_to_vec(path);
        proof {
            lemma_dirs_set_push(self.dirs@, d);
            lemma_dirs_set_contains(self.dirs@, path@);
            let s = self.dirs@;
            assert forall|a: int, b: int|
                0 <= a < b < s.push(d).len() implies s.push(d)[a]@ != s.push(d)[b]@ by {}
        }
        self.dirs.push(d);
    }


    /// Every file under `dir`, as pairs of project-relative remainder
    /// and contents.
    pub fn files_under(&self, dir: &[u8]) -> (r: Vec<(Vec<u8>, Vec<u8>)>)
        requires
            self.wf(),
            dir@.len() < usize::MAX,
        ensures
            forall|j: int|
                0 <= j < r@.len() ==> self@.files.contains_key(
                    join_seq(dir@, (#[trigger] r@[j]).0@),
                ) && r@[j].1@ == self@.files[join_seq(dir@, r@[j].0@)],
            forall|rel: Seq<u8>|
                self@.files.contains_key(#[trigger] join_seq(dir@, rel)) ==> exists|j: int|
                    0 <= j < r@.len() && (#[trigger] r@[j]).0@ == rel,
            forall|j1: int, j2: int| 0 <= j1 < j2 < r@.len() ==> r@[j1].0@ != r@[j2].0@,
            forall|j: int|
                0 <= j < r@.len() ==> dir@.len() + 1 + (#[trigger] r@[j]).0@.len()
                    <= usize::MAX,
    {
        let mut prefix = slice_to_vec(dir);
        prefix.push(47);
        assert(prefix@ =~= dir@ + sep());
        let mut r: Vec<(Vec<u8>, Vec<u8>)> = Vec::new();
        let mut i: usize = 0;
        while i < self.files.len()
            invariant
                self.wf(),
                prefix@ == dir@ + sep(),
                i <= self.files@.len(),
                forall|j: int|
                    #![trigger r@[j]]
                    0 <= j < r@.len() ==> exists|i2: int|
                        0 <= i2 < i && #[trigger] self.files@[i2].path@ == join_seq(
                            dir@,
                            r@[j].0@,
                        ) && self.files@[i2].data@ == r@[j].1@,
                forall|i2: int|
                    0 <= i2 < i && under_dir(dir@, #[trigger] self.files@[i2].path@)
                        ==> exists|j: int|
                        0 <= j < r@.len() && (#[trigger] r@[j]).0@ == self.files@[
                            i2
                        ].path@.skip(dir@.len() + 1 as int),
                forall|j1: int, j2: int| 0 <= j1 < j2 < r@.len() ==> r@[j1].0@ != r@[j2].0@,
                forall|j: int|
                    0 <= j < r@.len() ==> dir@.len() + 1 + (#[trigger] r@[j]).0@.len()
                        <= usize::MAX,
            decreases self.files@.len() - i,
        {
            let p = self.files[i].path.as_slice();
            let plen: usize = p.len();
            if crate::text::starts_with(p, prefix.as_slice()) {
                let rel = slice_subrange(p, prefix.len(), p.len());
                proof {
                    lemma_under_dir_split(dir@, p@);
                    assert(rel@ =~= p@.skip(dir@.len() + 1 as int));
                    assert(p@ == join_seq(dir@, rel@));
                    assert forall|j: int| 0 <= j < r@.len() implies r@[j].0@ != rel@ by {
                        let i2 = choose|i2: int|
                            0 <= i2 < i && #[trigger] self.files@[i2].path@ == join_seq(
                                dir@,
                                r@[j].0@,
                            ) && self.files@[i2].data@ == r@[j].1@;
                        if r@[j].0@ == rel@ {
                            assert(self.files@[i2].path@ == self.files@[i as int].path@);
                        }
                    }
                }
                let ghost prevr = r@;
                r.push((slice_to_vec(rel), slice_to_vec(self.files[i].data.as_slice())));
                proof {
                    assert(r@[r@.len() - 1].0@ == rel@);
                    assert(forall|j: int| 0 <= j < prevr.len() ==> r@[j] == prevr[j]);
                    assert forall|i2: int|
                        0 <= i2 < i + 1 && under_dir(
                            dir@,
                            #[trigger] self.files@[i2].path@,
                        ) implies exists|j: int|
                        0 <= j < r@.len() && (#[trigger] r@[j]).0@ == self.files@[
                            i2
                        ].path@.skip(dir@.len() + 1 as int) by {
                        if i2 == i {
                            assert(r@[r@.len() - 1].0@ == self.files@[i2].path@.skip(
                                dir@.len() + 1 as int,
                            ));
                        } else {
                            let j = choose|j: int|
                                0 <= j < prevr.len() && (#[trigger] prevr[j]).0@
                                    == self.files@[i2].path@.skip(dir@.len() + 1 as int);
                            assert(r@[j].0@ == self.files@[i2].path@.skip(
                                dir@.len() + 1 as int,
                            ));
                        }
                    }
                }
            } else {
                proof {
                    assert(!under_dir(dir@, self.files@[i as int].path@));
                }
            }
            i = i + 1;
        }
        proof {
            assert forall|j: int|
                0 <= j < r@.len() implies self@.files.contains_key(
                join_seq(dir@, (#[trigger] r@[j]).0@),
            ) && r@[j].1@ == self@.files[join_seq(dir@, r@[j].0@)] by {
                let i2 = choose|i2: int|
                    0 <= i2 < self.files@.len() && #[trigger] self.files@[i2].path@
                        == join_seq(dir@, r@[j].0@) && self.files@[i2].data@ == r@[j].1@;
                lemma_files_map_index(self.files@, i2);
            }
            assert forall|rel: Seq<u8>|
                self@.files.contains_key(#[trigger] join_seq(dir@, rel)) implies exists|
                j: int,
            |
                0 <= j < r@.len() && (#[trigger] r@[j]).0@ == rel by {
                lemma_files_map_contains(self.files@, join_seq(dir@, rel));
                let i2 = choose|i2: int|
                    0 <= i2 < self.files@.len() && #[trigger] self.files@[i2].path@
                        == join_seq(dir@, rel);
                lemma_join_parts(dir@, rel);
                assert(under_dir(dir@, self.files@[i2].path@));
                assert(self.files@[i2].path@.skip(dir@.len() + 1 as int) == rel);
            }
        }
        r
    }

    /// Names of the files directly inside `dir`, in no promised order.
    pub fn list_dir(&self, dir: &[u8]) -> (r: Vec<Vec<u8>>)
        requires
            self.wf(),
            dir@.len() < usize::MAX,
        ensures
            forall|j: int| 0 <= j < r@.len() ==> in_dir(self@.files, dir@, #[trigger] r@[j]@),
            forall|name: Seq<u8>|
                in_dir(self@.files, dir@, name) ==> exists|j: int|
                    0 <= j < r@.len() && #[trigger] r@[j]@ == name,
            forall|j1: int, j2: int| 0 <= j1 < j2 < r@.len() ==> r@[j1]@ != r@[j2]@,
            forall|j: int|
                0 <= j < r@.len() ==> dir@.len() + 1 + #[trigger] r@[j]@.len() <= usize::MAX,
    {
        let mut prefix = slice_to_vec(dir);
        prefix.push(47);
        assert(prefix@ =~= dir@ + sep());
        let mut r: Vec<Vec<u8>> = Vec::new();
        let mut i: usize = 0;
        while i < self.files.len()
            invariant
                self.wf(),
                prefix@ == dir@ + sep(),
                i <= self.files@.len(),
                forall|j: int|
                    #![trigger r@[j]]
                    0 <= j < r@.len() ==> exists|i2: int|
                        0 <= i2 < i && #[trigger] self.files@[i2].path@ == join_seq(
                            dir@,
                            r@[j]@,
                        ) && r@[j]@.len() > 0 && no_slash(r@[j]@),
                forall|i2: int|
                    0 <= i2 < i && is_child(self.files@[i2].path@, dir@) ==> exists|j: int|
                        0 <= j < r@.len() && #[trigger] r@[j]@ == child_name(
                            self.files@[i2].path@,
                            dir@,
                        ),
                forall|j1: int, j2: int| 0 <= j1 < j2 < r@.len() ==> r@[j1]@ != r@[j2]@,
                forall|j: int|
                    0 <= j < r@.len() ==> dir@.len() + 1 + #[trigger] r@[j]@.len()
                        <= usize::MAX,
            decreases self.files@.len() - i,
        {
            let p = self.files[i].path.as_slice();
            let plen: usize = p.len();
            if crate::text::starts_with(p, prefix.as_slice()) {
                let rest = slice_subrange(p, prefix.len(), p.len());
                if rest.len() > 0 && !has_slash(rest) {
                    proof {
                        lemma_under_dir_split(dir@, p@);
                        assert(rest@ =~= p@.skip(dir@.len() + 1 as int));
                        assert(p@ == join_seq(dir@, rest@));
                        assert(is_child(p@, dir@));
                        assert forall|j: int| 0 <= j < r@.len() implies r@[j]@ != rest@ by {
                            let i2 = choose|i2: int|
                                0 <= i2 < i && #[trigger] self.files@[i2].path@ == join_seq(
                                    dir@,
                                    r@[j]@,
                                ) && r@[j]@.len() > 0 && no_slash(r@[j]@);
                            if r@[j]@ == rest@ {
                                assert(self.files@[i2].path@ == self.files@[i as int].path@);
                            }
                        }
                    }
                    let name = slice_to_vec(rest);
                    let ghost prev = r@;
                    r.push(name);
                    proof {
                        assert forall|i2: int|
                            0 <= i2 < i + 1 && is_child(
                                self.files@[i2].path@,
                                dir@,
                            ) implies exists|j: int|
                            0 <= j < r@.len() && #[trigger] r@[j]@ == child_name(
                                self.files@[i2].path@,
                                dir@,
                            ) by {
                            if i2 == i {
                                assert(r@[r@.len() - 1]@ == child_name(
                                    self.files@[i2].path@,
                                    dir@,
                                ));
                            } else {
                                let j = choose|j: int|
                                    0 <= j < prev.len() && #[trigger] prev[j]@ == child_name(
                                        self.files@[i2].path@,
                                        dir@,
                                    );
                                assert(r@[j] == prev[j]);
                                assert(r@[j]@ == child_name(self.files@[i2].path@, dir@));
                            }
                        }
                    }
                } else {
                    proof {
                        lemma_under_dir_split(dir@, p@);
                        assert(rest@ =~= p@.skip(dir@.len() + 1 as int));
                        assert(!is_child(p@, dir@));
                    }
                }
            } else {
                proof {
                    assert(!is_child(self.files@[i as int].path@, dir@));
                }
            }
            i = i + 1;
        }
        proof {
            assert forall|j: int|
                0 <= j < r@.len() implies in_dir(self@.files, dir@, #[trigger] r@[j]@) by {
                let i2 = choose|i2: int|
                    0 <= i2 < self.files@.len() && #[trigger] self.files@[i2].path@
                        == join_seq(dir@, r@[j]@) && r@[j]@.len() > 0 && no_slash(r@[j]@);
                lemma_files_map_index(self.files@, i2);
            }
            assert forall|name: Seq<u8>| in_dir(self@.files, dir@, name) implies exists|j: int|
                0 <= j < r@.len() && #[trigger] r@[j]@ == name by {
                lemma_files_map_contains(self.files@, join_seq(dir@, name));
                let i2 = choose|i2: int|
                    0 <= i2 < self.files@.len() && #[trigger] self.files@[i2].path@
                        == join_seq(dir@, name);
                lemma_join_parts(dir@, name);
                assert(is_child(self.files@[i2].path@, dir@));
                assert(child_name(self.files@[i2].path@, dir@) == name);
            }
        }
        r
    }

    /// Names of the directories directly inside `dir`.
    pub fn list_subdirs(&self, dir: &[u8]) -> (r: Vec<Vec<u8>>)
        requires
            self.wf(),
            dir@.len() < usize::MAX,
        ensures
            forall|j: int|
                0 <= j < r@.len() ==> dir_child(self@.dirs, dir@, #[trigger] r@[j]@),
            forall|name: Seq<u8>|
                dir_child(self@.dirs, dir@, name) ==> exists|j: int|
                    0 <= j < r@.len() && #[trigger] r@[j]@ == name,
            forall|j1: int, j2: int| 0 <= j1 < j2 < r@.len() ==> r@[j1]@ != r@[j2]@,
            forall|j: int|
                0 <= j < r@.len() ==> dir@.len() + 1 + #[trigger] r@[j]@.len() <= usize::MAX,
    {
        let mut prefix = slice_to_vec(dir);
        prefix.push(47);
        assert(prefix@ =~= dir@ + sep());
        let mut r: Vec<Vec<u8>> = Vec::new();
        let mut i: usize = 0;
        while i < self.dirs.len()
            invariant
                self.wf(),
                prefix@ == dir@ + sep(),
                i <= self.dirs@.len(),
                forall|j: int|
                    #![trigger r@[j]]
                    0 <= j < r@.len() ==> exists|i2: int|
                        0 <= i2 < i && #[trigger] self.dirs@[i2]@ == join_seq(dir@, r@[j]@)
                            && r@[j]@.len() > 0 && no_slash(r@[j]@),
                forall|i2: int|
                    0 <= i2 < i && is_child(self.dirs@[i2]@, dir@) ==> exists|j: int|
                        0 <= j < r@.len() && #[trigger] r@[j]@ == child_name(
                            self.dirs@[i2]@,
                            dir@,
                        ),
                forall|j1: int, j2: int| 0 <= j1 < j2 < r@.len() ==> r@[j1]@ != r@[j2]@,
                forall|j: int|
                    0 <= j < r@.len() ==> dir@.len() + 1 + #[trigger] r@[j]@.len()
                        <= usize::MAX,
            decreases self.dirs@.len() - i,
        {
            let p = self.dirs[i].as_slice();
            let plen: usize = p.len();
            if crate::text::starts_with(p, prefix.as_slice()) {
                let rest = slice_subrange(p, prefix.len(), p.len());
                if rest.len() > 0 && !has_slash(rest) {
                    proof {
                        lemma_under_dir_split(dir@, p@);
                        assert(rest@ =~= p@.skip(dir@.len() + 1 as int));
                        assert(p@ == join_seq(dir@, rest@));
                        assert(is_child(p@, dir@));
                        assert forall|j: int| 0 <= j < r@.len() implies r@[j]@ != rest@ by {
                            let i2 = choose|i2: int|
                                0 <= i2 < i && #[trigger] self.dirs@[i2]@ == join_seq(
                                    dir@,
                                    r@[j]@,
                                ) && r@[j]@.len() > 0 && no_slash(r@[j]@);
                            if r@[j]@ == rest@ {
                                assert(self.dirs@[i2]@ == self.dirs@[i as int]@);
                            }
                        }
                    }
                    let name = slice_to_vec(rest);
                    let ghost prev = r@;
                    r.push(name);
                    proof {
                        assert forall|i2: int|
                            0 <= i2 < i + 1 && is_child(self.dirs@[i2]@, dir@) implies exists|
                            j: int,
                        |
                            0 <= j < r@.len() && #[trigger] r@[j]@ == child_name(
                                self.dirs@[i2]@,
                                dir@,
                            ) by {
                            if i2 == i {
                                assert(r@[r@.len() - 1]@ == child_name(
                                    self.dirs@[i2]@,
                                    dir@,
                                ));
                            } else {
                                let j = choose|j: int|
                                    0 <= j < prev.len() && #[trigger] prev[j]@ == child_name(
                                        self.dirs@[i2]@,
                                        dir@,
                                    );
                                assert(r@[j] == prev[j]);
                                assert(r@[j]@ == child_name(self.dirs@[i2]@, dir@));
                            }
                        }
                    }
                } else {
                    proof {
                        lemma_under_dir_split(dir@, p@);
                        assert(rest@ =~= p@.skip(dir@.len() + 1 as int));
                        assert(!is_child(p@, dir@));
                    }
                }
            } else {
                proof {
                    assert(!is_child(self.dirs@[i as int]@, dir@));
                }
            }
            i = i + 1;
        }
        proof {
            assert forall|j: int|
                0 <= j < r@.len() implies dir_child(self@.dirs, dir@, #[trigger] r@[j]@) by {
                let i2 = choose|i2: int|
                    0 <= i2 < self.dirs@.len() && #[trigger] self.dirs@[i2]@ == join_seq(
                        dir@,
                        r@[j]@,
                    ) && r@[j]@.len() > 0 && no_slash(r@[j]@);
                lemma_dirs_set_contains(self.dirs@, join_seq(dir@, r@[j]@));
            }
            assert forall|name: Seq<u8>|
                dir_child(self@.dirs, dir@, name) implies exists|j: int|
                0 <= j < r@.len() && #[trigger] r@[j]@ == name by {
                lemma_dirs_set_contains(self.dirs@, join_seq(dir@, name));
                let i2 = choose|i2: int|
                    0 <= i2 < self.dirs@.len() && #[trigger] self.dirs@[i2]@ == join_seq(
                        dir@,
                        name,
                    );
                lemma_join_parts(dir@, name);
                assert(is_child(self.dirs@[i2]@, dir@));
                assert(child_name(self.dirs@[i2]@, dir@) == name);
            }
        }
        r
    }

    /// Removes the directory `path`, everything under it, and nothing else.
    pub fn remove_dir_all(&mut self, path: &[u8])
        requires
            old(self).wf(),
        ensures
            final(self).wf(),
            final(self)@.pid == old(self)@.pid,
            forall|k: Seq<u8>|
                #[trigger] final(self)@.files.contains_key(k) <==> old(
                    self,
                )@.files.contains_key(k) && !under_dir(path@, k),
            forall|k: Seq<u8>|
                final(self)@.files.contains_key(k) ==> final(self)@.files[k] == old(
                    self,
                )@.files[k],
            forall|d: Seq<u8>|
                #[trigger] final(self)@.dirs.contains(d) <==> old(self)@.dirs.contains(d) && d
                    != path@ && !under_dir(path@, d),
    {
        let ghost old_files = self.files@;
        let ghost old_dirs = self.dirs@;
        let mut prefix = slice_to_vec(path);
        prefix.push(47);
        assert(prefix@ =~= path@ + sep());
        let mut kept: Vec<FsFile> = Vec::new();
        let mut i: usize = 0;
        while i < self.files.len()
            invariant
                self.wf(),
                self.files@ == old_files,
                prefix@ == path@ + sep(),
                i <= old_files.len(),
                forall|j: int|
                    #![trigger kept@[j]]
                    0 <= j < kept@.len() ==> exists|i2: int|
                        0 <= i2 < i && #[trigger] old_files[i2].path@ == kept@[j].path@
                            && old_files[i2].data@ == kept@[j].data@ && !under_dir(
                            path@,
                            kept@[j].path@,
                        ),
                forall|i2: int|
                    0 <= i2 < i && !under_dir(path@, #[trigger] old_files[i2].path@)
                        ==> exists|j: int|
                        0 <= j < kept@.len() && #[trigger] kept@[j].path@ == old_files[
                            i2
                        ].path@,
                paths_distinct(kept@),
            decreases old_files.len() - i,
        {
            let p = self.files[i].path.as_slice();
            if !crate::text::starts_with(p, prefix.as_slice()) {
                let f = FsFile {
                    path: slice_to_vec(p),
                    data: slice_to_vec(self.files[i].data.as_slice()),
                };
                proof {
                    assert(f.path@ == old_files[i as int].path@);
                    assert(f.data@ == old_files[i as int].data@);
                    assert forall|j: int| 0 <= j < kept@.len() implies kept@[j].path@
                        != f.path@ by {
                        let i2 = choose|i2: int|
                            0 <= i2 < i && #[trigger] old_files[i2].path@ == kept@[j].path@
                                && old_files[i2].data@ == kept@[j].data@ && !under_dir(
                                path@,
                                kept@[j].path@,
                            );
                        if kept@[j].path@ == f.path@ {
                            assert(old_files[i2].path@ == old_files[i as int].path@);
                        }
                    }
                    assert(f.path@ == old_files[i as int].path@ && f.data@ == old_files[
                        i as int
                    ].data@);
                }
                let ghost prevk = kept@;
                kept.push(f);
                proof {
                    assert forall|i2: int|
                        0 <= i2 < i + 1 && !under_dir(
                            path@,
                            #[trigger] old_files[i2].path@,
                        ) implies exists|j: int|
                        0 <= j < kept@.len() && #[trigger] kept@[j].path@ == old_files[
                            i2
                        ].path@ by {
                        if i2 == i {
                            assert(kept@[kept@.len() - 1].path@ == old_files[i2].path@);
                        } else {
                            let j = choose|j: int|
                                0 <= j < prevk.len() && #[trigger] prevk[j].path@
                                    == old_files[i2].path@;
                            assert(kept@[j] == prevk[j]);
                            assert(kept@[j].path@ == old_files[i2].path@);
                        }
                    }
                }
            }
            i = i + 1;
        }
        self.files = kept;
        let mut kept_dirs: Vec<Vec<u8>> = Vec::new();
        let mut i2: usize = 0;
        while i2 < self.dirs.len()
            invariant
                self.dirs@ == old_dirs,
                prefix@ == path@ + sep(),
                i2 <= old_dirs.len(),
                forall|j: int|
                    #![trigger kept_dirs@[j]]
                    0 <= j < kept_dirs@.len() ==> exists|i3: int|
                        0 <= i3 < i2 && #[trigger] old_dirs[i3]@ == kept_dirs@[j]@
                            && !under_dir(path@, kept_dirs@[j]@) && kept_dirs@[j]@ != path@,
                forall|i3: int|
                    0 <= i3 < i2 && !under_dir(path@, #[trigger] old_dirs[i3]@) && old_dirs[
                        i3
                    ]@ != path@ ==> exists|j: int|
                        0 <= j < kept_dirs@.len() && #[trigger] kept_dirs@[j]@ == old_dirs[
                            i3
                        ]@,
                dirs_distinct(old_dirs),
                dirs_distinct(kept_dirs@),
            decreases old_dirs.len() - i2,
        {
            let p = self.dirs[i2].as_slice();
            if !crate::text::starts_with(p, prefix.as_slice()) && !crate::text::bytes_eq(
                p,
                path,
            ) {
                let d = slice_to_vec(p);
                proof {
                    assert forall|j: int| 0 <= j < kept_dirs@.len() implies kept_dirs@[j]@
                        != d@ by {
                        let i3 = choose|i3: int|
                            0 <= i3 < i2 && old_dirs[i3]@ == #[trigger] kept_dirs@[j]@
                                && !under_dir(path@, kept_dirs@[j]@) && kept_dirs@[j]@
                                != path@;
                        if kept_dirs@[j]@ == d@ {
                            assert(old_dirs[i3]@ == old_dirs[i2 as int]@);
                        }
                    }
                }
                let ghost prevd = kept_dirs@;
                kept_dirs.push(d);
                proof {
                    assert forall|i3: int|
                        0 <= i3 < i2 + 1 && !under_dir(path@, #[trigger] old_dirs[i3]@)
                            && old_dirs[i3]@ != path@ implies exists|j: int|
                        0 <= j < kept_dirs@.len() && #[trigger] kept_dirs@[j]@ == old_dirs[
                            i3
                        ]@ by {
                        if i3 == i2 {
                            assert(kept_dirs@[kept_dirs@.len() - 1]@ == old_dirs[i3]@);
                        } else {
                            let j = choose|j: int|
                                0 <= j < prevd.len() && #[trigger] prevd[j]@ == old_dirs[
                                    i3
                                ]@;
                            assert(kept_dirs@[j] == prevd[j]);
                            assert(kept_dirs@[j]@ == old_dirs[i3]@);
                        }
                    }
                }
            }
            i2 = i2 + 1;
        }
        self.dirs = kept_dirs;
        proof {
            assert forall|k: Seq<u8>|
                #[trigger] self@.files.contains_key(k) == (old(self)@.files.contains_key(k)
                    && !under_dir(path@, k)) by {
                lemma_files_map_contains(self.files@, k);
                lemma_files_map_contains(old_files, k);
            }
            assert forall|k: Seq<u8>| self@.files.contains_key(k) implies self@.files[k]
                == old(self)@.files[k] by {
                lemma_files_map_contains(self.files@, k);
                let j = choose|j: int|
                    0 <= j < self.files@.len() && #[trigger] self.files@[j].path@ == k;
                lemma_files_map_index(self.files@, j);
                let i3 = choose|i3: int|
                    0 <= i3 < old_files.len() && #[trigger] old_files[i3].path@
                        == self.files@[j].path@ && old_files[i3].data@
                        == self.files@[j].data@ && !under_dir(path@, self.files@[j].path@);
                lemma_files_map_index(old_files, i3);
            }
            assert forall|d: Seq<u8>|
                #[trigger] self@.dirs.contains(d) == (old(self)@.dirs.contains(d) && d
                    != path@ && !under_dir(path@, d)) by {
                lemma_dirs_set_contains(self.dirs@, d);
                lemma_dirs_set_contains(old_dirs, d);
            }
        }
    }
}

/// True when `k` is directly inside `dir`: it lies under `dir` and its
/// remainder holds no separator.
pub open spec fn is_child(k: Seq<u8>, dir: Seq<u8>) -> bool {
    under_dir(dir, k) && k.len() > dir.len() + 1 && no_slash(k.skip(dir.len() + 1 as int))
}

/// The name of a direct child path.
pub open spec fn child_name(k: Seq<u8>, dir: Seq<u8>) -> Seq<u8> {
    k.skip(dir.len() + 1 as int)
}

/// True when the directory set holds an entry directly in `dir` under `name`.
pub open spec fn dir_child(dirs: Set<Seq<u8>>, dir: Seq<u8>, name: Seq<u8>) -> bool {
    name.len() > 0 && no_slash(name) && dirs.contains(join_seq(dir, name))
}

/// True when `s` holds a path separator.
pub fn has_slash(s: &[u8]) -> (r: bool)
    ensures
        r == !no_slash(s@),
{
    let mut i: usize = 0;
    while i < s.len()
        invariant
            i <= s@.len(),
            forall|j: int| 0 <= j < i ==> s@[j] != 47,
        decreases s@.len() - i,
    {
        if s[i] == 47 {
            return true;
        }
        i = i + 1;
    }
    false
}

} // verus!
