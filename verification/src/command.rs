//! The structural command log: four reversible operations and the
//! undo/redo stack pair over them.
//!
//! A command carries everything needed to invert itself. Applying a
//! command pushes it onto the undo stack and clears the redo stack;
//! undoing pops it, runs the inverse, and pushes it onto the redo
//! stack. A failed apply or undo leaves the command on neither stack.

use vstd::prelude::*;

verus! {

use crate::fs::Fs;
use crate::fs::FsError;
use crate::storage::temp_path_seq;
use crate::reorder::reorder_ok;
use crate::reorder::reorder_map;
use crate::reorder::rev_view;
use crate::reorder::pairs_view;

/// A reversible structural operation.
pub enum Command {
    CreateFile { path: Vec<u8>, contents: Vec<u8> },
    DeleteFile { path: Vec<u8>, contents: Vec<u8> },
    RenameFile { from: Vec<u8>, to: Vec<u8> },
    ReorderChapters { pairs: Vec<(Vec<u8>, Vec<u8>)> },
}

/// Mathematical view of a command.
pub ghost enum CmdView {
    Create { path: Seq<u8>, contents: Seq<u8> },
    Delete { path: Seq<u8>, contents: Seq<u8> },
    Rename { from: Seq<u8>, to: Seq<u8> },
    Reorder { pairs: Seq<(Seq<u8>, Seq<u8>)> },
}

impl View for Command {
    type V = CmdView;

    open spec fn view(&self) -> CmdView {
        match self {
            Command::CreateFile { path, contents } => CmdView::Create {
                path: path@,
                contents: contents@,
            },
            Command::DeleteFile { path, contents } => CmdView::Delete {
                path: path@,
                contents: contents@,
            },
            Command::RenameFile { from, to } => CmdView::Rename { from: from@, to: to@ },
            Command::ReorderChapters { pairs } => CmdView::Reorder {
                pairs: pairs_view(pairs@),
            },
        }
    }
}

/// The inverse command.
pub open spec fn inverse(c: CmdView) -> CmdView {
    match c {
        CmdView::Create { path, contents } => CmdView::Delete { path, contents },
        CmdView::Delete { path, contents } => CmdView::Create { path, contents },
        CmdView::Rename { from, to } => CmdView::Rename { from: to, to: from },
        CmdView::Reorder { pairs } => CmdView::Reorder { pairs: rev_view(pairs) },
    }
}

/// Inverting twice gives the command back.
pub proof fn lemma_inverse_involution(c: CmdView)
    ensures
        inverse(inverse(c)) == c,
{
    match c {
        CmdView::Reorder { pairs } => {
            assert(rev_view(rev_view(pairs)) =~= pairs);
        },
        _ => {},
    }
}

/// True when the command can run against `m`.
pub open spec fn cmd_ok(m: Map<Seq<u8>, Seq<u8>>, c: CmdView, pid: u64) -> bool {
    match c {
        CmdView::Create { .. } => true,
        CmdView::Delete { path, .. } => m.contains_key(path),
        CmdView::Rename { from, to } => m.contains_key(from) && (from == to
            || !m.contains_key(to)),
        CmdView::Reorder { pairs } => reorder_ok(m, pairs, pid),
    }
}

/// The file map after a command runs.
pub open spec fn apply_spec(m: Map<Seq<u8>, Seq<u8>>, c: CmdView, pid: u64) -> Map<
    Seq<u8>,
    Seq<u8>,
> {
    match c {
        CmdView::Create { path, contents } => m.remove(temp_path_seq(path, pid)).insert(
            path,
            contents,
        ),
        CmdView::Delete { path, .. } => m.remove(path),
        CmdView::Rename { from, to } => if from == to {
            m
        } else {
            m.remove(from).insert(to, m[from])
        },
        CmdView::Reorder { pairs } => reorder_map(m, pairs, pid),
    }
}

/// Machine bounds under which a command and its inverse can be built.
pub open spec fn cmd_fits(c: CmdView) -> bool {
    match c {
        CmdView::Create { path, .. } => path.len() + 25 <= usize::MAX,
        CmdView::Delete { path, .. } => path.len() + 25 <= usize::MAX,
        CmdView::Rename { .. } => true,
        CmdView::Reorder { pairs } => pairs.len() < usize::MAX && (forall|i: int|
            0 <= i < pairs.len() ==> (#[trigger] pairs[i]).0.len() + 60 <= usize::MAX) && (
        forall|i: int| 0 <= i < pairs.len() ==> (#[trigger] pairs[i]).1.len() + 60
            <= usize::MAX),
    }
}

impl Command {
    /// Runs the command. On success the tree has changed exactly as
    /// [`apply_spec`] says; on failure it is untouched.
    pub fn apply(&self, fs: &mut Fs) -> (r: Result<(), FsError>)
        requires
            old(fs).wf(),
            cmd_fits(self@),
        ensures
            final(fs).wf(),
            final(fs)@.pid == old(fs)@.pid,
            final(fs)@.dirs == old(fs)@.dirs,
            r is Ok <==> cmd_ok(old(fs)@.files, self@, old(fs)@.pid),
            r is Ok ==> final(fs)@.files == apply_spec(
                old(fs)@.files,
                self@,
                old(fs)@.pid,
            ),
            r is Err ==> final(fs)@ == old(fs)@,
    {
        match self {
            Command::CreateFile { path, contents } => {
                crate::storage::write_text_atomic(fs, path.as_slice(), contents.as_slice());
                Ok(())
            },
            Command::DeleteFile { path, .. } => fs.remove_file(path.as_slice()),
            Command::RenameFile { from, to } => fs.rename_file(
                from.as_slice(),
                to.as_slice(),
            ),
            Command::ReorderChapters { pairs } => {
                proof {
                    assert forall|i: int| 0 <= i < pairs@.len() implies (#[trigger] pairs@[
                        i
                    ].0)@.len() + 60 <= usize::MAX by {
                        assert(pairs_view(pairs@)[i].0 == pairs@[i].0@);
                    }
                }
                crate::reorder::apply_rename_pairs(fs, pairs)
            },
        }
    }

    /// Runs the inverse of the command.
    pub fn undo(&self, fs: &mut Fs) -> (r: Result<(), FsError>)
        requires
            old(fs).wf(),
            cmd_fits(self@),
        ensures
            final(fs).wf(),
            final(fs)@.pid == old(fs)@.pid,
            final(fs)@.dirs == old(fs)@.dirs,
            r is Ok <==> cmd_ok(old(fs)@.files, inverse(self@), old(fs)@.pid),
            r is Ok ==> final(fs)@.files == apply_spec(
                old(fs)@.files,
                inverse(self@),
                old(fs)@.pid,
            ),
            r is Err ==> final(fs)@ == old(fs)@,
    {
        match self {
            Command::CreateFile { path, .. } => fs.remove_file(path.as_slice()),
            Command::DeleteFile { path, contents } => {
                crate::storage::write_text_atomic(fs, path.as_slice(), contents.as_slice());
                Ok(())
            },
            Command::RenameFile { from, to } => fs.rename_file(to.as_slice(), from.as_slice()),
            Command::ReorderChapters { pairs } => {
                let rev = crate::reorder::reverse_pairs(pairs);
                proof {
                    assert(pairs_view(rev@) =~= rev_view(pairs_view(pairs@)));
                    assert forall|i: int| 0 <= i < rev@.len() implies (#[trigger] rev@[
                        i
                    ].0)@.len() + 60 <= usize::MAX by {
                        assert(pairs_view(rev@)[i].0 == rev@[i].0@);
                        assert(pairs_view(rev@)[i].0 == pairs_view(pairs@)[i].1);
                        assert(pairs_view(pairs@)[i].1 == pairs@[i].1@);
                    }
                }
                crate::reorder::apply_rename_pairs(fs, &rev)
            },
        }
    }
}

/// Validity conditions under which applying and then undoing a command
/// restores the tree exactly.
pub open spec fn undo_exact(m: Map<Seq<u8>, Seq<u8>>, c: CmdView, pid: u64) -> bool {
    match c {
        CmdView::Create { path, .. } => !m.contains_key(path) && !m.contains_key(
            temp_path_seq(path, pid),
        ),
        CmdView::Delete { path, contents } => m.contains_key(path) && m[path] == contents
            && !m.contains_key(temp_path_seq(path, pid)),
        CmdView::Rename { .. } => true,
        CmdView::Reorder { pairs } => reorder_ok(
            reorder_map(m, pairs, pid),
            rev_view(pairs),
            pid,
        ),
    }
}

/// Undo/redo symmetry, apply direction: after a successful apply, the
/// inverse command applies and restores the exact prior tree.
pub proof fn lemma_apply_undo(m: Map<Seq<u8>, Seq<u8>>, c: CmdView, pid: u64)
    requires
        cmd_ok(m, c, pid),
        undo_exact(m, c, pid),
    ensures
        cmd_ok(apply_spec(m, c, pid), inverse(c), pid),
        apply_spec(apply_spec(m, c, pid), inverse(c), pid) == m,
{
    let m1 = apply_spec(m, c, pid);
    match c {
        CmdView::Create { path, contents } => {
            assert(temp_path_seq(path, pid) != path) by {
                crate::storage::lemma_temp_path_parts(path, pid);
            }
            assert(m1.remove(path) =~= m);
        },
        CmdView::Delete { path, contents } => {
            assert(temp_path_seq(path, pid) != path) by {
                crate::storage::lemma_temp_path_parts(path, pid);
            }
            assert(m1.remove(temp_path_seq(path, pid)).insert(path, contents) =~= m);
        },
        CmdView::Rename { from, to } => {
            if from == to {
            } else {
                assert(m1.contains_key(to));
                assert(!m1.contains_key(from));
                assert(m1.remove(to).insert(from, m1[to]) =~= m);
            }
        },
        CmdView::Reorder { pairs } => {
            crate::reorder::lemma_reorder_roundtrip(m, pairs, pid);
        },
    }
}

/// Mathematical view of the command log: the two stacks, most recent
/// entry last.
pub ghost struct LogView {
    pub undo: Seq<CmdView>,
    pub redo: Seq<CmdView>,
}

/// The undo/redo stack pair.
pub struct CommandLog {
    undo_stack: Vec<Command>,
    redo_stack: Vec<Command>,
}

impl View for CommandLog {
    type V = LogView;

    closed spec fn view(&self) -> LogView {
        LogView {
            undo: self.undo_stack@.map_values(|c: Command| c@),
            redo: self.redo_stack@.map_values(|c: Command| c@),
        }
    }
}

impl CommandLog {
    /// Every stacked command respects the machine bounds.
    pub closed spec fn wf(&self) -> bool {
        &&& forall|i: int|
            0 <= i < self.undo_stack@.len() ==> cmd_fits(#[trigger] self.undo_stack@[i]@)
        &&& forall|i: int|
            0 <= i < self.redo_stack@.len() ==> cmd_fits(#[trigger] self.redo_stack@[i]@)
    }

    /// An empty log.
    pub fn new() -> (r: CommandLog)
        ensures
            r.wf(),
            r@.undo.len() == 0,
            r@.redo.len() == 0,
    {
        CommandLog { undo_stack: Vec::new(), redo_stack: Vec::new() }
    }

    /// Number of commands that can be undone.
    pub fn undo_depth(&self) -> (r: usize)
        ensures
            r == self@.undo.len(),
    {
        self.undo_stack.len()
    }

    /// Number of commands that can be redone.
    pub fn redo_depth(&self) -> (r: usize)
        ensures
            r == self@.redo.len(),
    {
        self.redo_stack.len()
    }

    /// Runs a command; only on success is it recorded. Any new command
    /// invalidates the redo history.
    pub fn apply_command(&mut self, fs: &mut Fs, cmd: Command) -> (r: Result<(), FsError>)
        requires
            old(self).wf(),
            old(fs).wf(),
            cmd_fits(cmd@),
        ensures
            final(self).wf(),
            final(fs).wf(),
            final(fs)@.pid == old(fs)@.pid,
            final(fs)@.dirs == old(fs)@.dirs,
            r is Ok <==> cmd_ok(old(fs)@.files, cmd@, old(fs)@.pid),
            r is Ok ==> final(fs)@.files == apply_spec(
                old(fs)@.files,
                cmd@,
                old(fs)@.pid,
            ) && final(self)@.undo == old(self)@.undo.push(cmd@) && final(self)@.redo.len() == 0,
            r is Err ==> final(fs)@ == old(fs)@ && final(self)@ == old(self)@,
    {
        let res = cmd.apply(fs);
        match res {
            Ok(_) => {
                let ghost prevu = self.undo_stack@;
                self.undo_stack.push(cmd);
                self.redo_stack.clear();
                proof {
                    assert(self@.undo =~= old(self)@.undo.push(cmd@));
                    assert(forall|i: int|
                        0 <= i < prevu.len() ==> self.undo_stack@[i] == prevu[i]);
                }
                Ok(())
            },
            Err(e) => Err(e),
        }
    }

    /// Undoes the most recent command, if any; an empty undo stack is a
    /// quiet no-op. A command whose inverse fails is discarded and the
    /// error surfaced.
    pub fn undo(&mut self, fs: &mut Fs) -> (r: Result<bool, FsError>)
        requires
            old(self).wf(),
            old(fs).wf(),
        ensures
            final(self).wf(),
            final(fs).wf(),
            final(fs)@.pid == old(fs)@.pid,
            final(fs)@.dirs == old(fs)@.dirs,
            old(self)@.undo.len() == 0 ==> r == Ok::<bool, FsError>(false) && final(fs)@
                == old(fs)@ && final(self)@ == old(self)@,
            old(self)@.undo.len() > 0 ==> ({
                let c = old(self)@.undo.last();
                &&& final(self)@.undo == old(self)@.undo.drop_last()
                &&& (r is Ok <==> cmd_ok(old(fs)@.files, inverse(c), old(fs)@.pid))
                &&& (r is Ok ==> r == Ok::<bool, FsError>(true) && final(fs)@.files
                    == apply_spec(old(fs)@.files, inverse(c), old(fs)@.pid) && final(self)@.redo == old(self)@.redo.push(c))
                &&& (r is Err ==> final(fs)@ == old(fs)@ && final(self)@.redo == old(
                    self,
                )@.redo)
            }),
    {
        let cmd = match self.undo_stack.pop() {
            Some(c) => c,
            None => {
                return Ok(false);
            },
        };
        proof {
            assert(self@.undo =~= old(self)@.undo.drop_last());
            assert(cmd@ == old(self)@.undo.last());
            assert(cmd_fits(cmd@)) by {
                assert(old(self).undo_stack@[old(self).undo_stack@.len() - 1]@ == cmd@);
            }
        }
        match cmd.undo(fs) {
            Ok(_) => {
                let ghost prevr = self.redo_stack@;
                self.redo_stack.push(cmd);
                proof {
                    assert(self@.redo =~= old(self)@.redo.push(cmd@));
                    assert(forall|i: int|
                        0 <= i < prevr.len() ==> self.redo_stack@[i] == prevr[i]);
                }
                Ok(true)
            },
            Err(e) => {
                proof {
                    assert(self@.redo =~= old(self)@.redo);
                }
                Err(e)
            },
        }
    }

    /// Replays the most recently undone command, if any; an empty redo
    /// stack is a quiet no-op.
    pub fn redo(&mut self, fs: &mut Fs) -> (r: Result<bool, FsError>)
        requires
            old(self).wf(),
            old(fs).wf(),
        ensures
            final(self).wf(),
            final(fs).wf(),
            final(fs)@.pid == old(fs)@.pid,
            final(fs)@.dirs == old(fs)@.dirs,
            old(self)@.redo.len() == 0 ==> r == Ok::<bool, FsError>(false) && final(fs)@
                == old(fs)@ && final(self)@ == old(self)@,
            old(self)@.redo.len() > 0 ==> ({
                let c = old(self)@.redo.last();
                &&& final(self)@.redo == old(self)@.redo.drop_last()
                &&& (r is Ok <==> cmd_ok(old(fs)@.files, c, old(fs)@.pid))
                &&& (r is Ok ==> r == Ok::<bool, FsError>(true) && final(fs)@.files
                    == apply_spec(old(fs)@.files, c, old(fs)@.pid) && final(self)@.undo
                    == old(self)@.undo.push(c))
                &&& (r is Err ==> final(fs)@ == old(fs)@ && final(self)@.undo == old(
                    self,
                )@.undo)
            }),
    {
        let cmd = match self.redo_stack.pop() {
            Some(c) => c,
            None => {
                return Ok(false);
            },
        };
        proof {
            assert(self@.redo =~= old(self)@.redo.drop_last());
            assert(cmd@ == old(self)@.redo.last());
            assert(cmd_fits(cmd@)) by {
                assert(old(self).redo_stack@[old(self).redo_stack@.len() - 1]@ == cmd@);
            }
        }
        match cmd.apply(fs) {
            Ok(_) => {
                let ghost prevu = self.undo_stack@;
                self.undo_stack.push(cmd);
                proof {
                    assert(self@.undo =~= old(self)@.undo.push(cmd@));
                    assert(forall|i: int|
                        0 <= i < prevu.len() ==> self.undo_stack@[i] == prevu[i]);
                }
                Ok(true)
            },
            Err(e) => {
                proof {
                    assert(self@.undo =~= old(self)@.undo);
                }
                Err(e)
            },
        }
    }
}

} // verus!
