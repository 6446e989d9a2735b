//! Undo/redo symmetry, redo invalidation, the two-phase reorder, and
//! the atomic writer's crash window.

use novel_store::command::{Command, CommandLog};
use novel_store::fs::{Fs, FsError};
use novel_store::index::list_markdown_files;
use novel_store::reorder::{apply_rename_pairs, build_reorder_plan, reverse_pairs};
use novel_store::storage::{
    cleanup_temp_files, publish_temp, read_text, stage_temp, write_text_atomic,
};

fn b(s: &str) -> Vec<u8> {
    s.as_bytes().to_vec()
}

fn chapters_fs() -> Fs {
    let mut fs = Fs::new(42);
    fs.ensure_dir(b"proj");
    fs.ensure_dir(b"proj/chapters");
    write_text_atomic(&mut fs, b"proj/chapters/0001-a.md", b"alpha");
    write_text_atomic(&mut fs, b"proj/chapters/0002-b.md", b"beta");
    write_text_atomic(&mut fs, b"proj/chapters/0003-c.md", b"gamma");
    fs
}

fn listing(fs: &Fs) -> Vec<Vec<u8>> {
    list_markdown_files(fs, b"proj/chapters")
}

#[test]
fn atomic_write_publishes_whole_content() {
    let mut fs = Fs::new(7);
    write_text_atomic(&mut fs, b"f.md", b"one");
    assert_eq!(read_text(&fs, b"f.md").unwrap(), b("one"));
    write_text_atomic(&mut fs, b"f.md", b"two");
    assert_eq!(read_text(&fs, b"f.md").unwrap(), b("two"));
}

#[test]
fn crash_between_stage_and_publish_keeps_target() {
    let mut fs = Fs::new(7);
    fs.ensure_dir(b"proj");
    write_text_atomic(&mut fs, b"proj/f.md", b"old");
    // the crash: the staged bytes exist beside the target, which is untouched
    stage_temp(&mut fs, b"proj/f.md", b"new");
    assert_eq!(read_text(&fs, b"proj/f.md").unwrap(), b("old"));
    assert!(fs.file_exists(b"proj/f.md.tmp.7"));
    // the sweep on the next open removes the orphaned artifact
    cleanup_temp_files(&mut fs, b"proj");
    assert!(!fs.file_exists(b"proj/f.md.tmp.7"));
    assert_eq!(read_text(&fs, b"proj/f.md").unwrap(), b("old"));
}

#[test]
fn publish_completes_the_write() {
    let mut fs = Fs::new(7);
    fs.ensure_dir(b"proj");
    write_text_atomic(&mut fs, b"proj/f.md", b"old");
    stage_temp(&mut fs, b"proj/f.md", b"new");
    publish_temp(&mut fs, b"proj/f.md").unwrap();
    assert_eq!(read_text(&fs, b"proj/f.md").unwrap(), b("new"));
    assert!(!fs.file_exists(b"proj/f.md.tmp.7"));
}

#[test]
fn create_then_undo_restores_listing() {
    let mut fs = chapters_fs();
    let before = listing(&fs);
    let mut log = CommandLog::new();
    let cmd = Command::CreateFile { path: b("proj/chapters/0004-d.md"), contents: b("delta") };
    log.apply_command(&mut fs, cmd).unwrap();
    assert_eq!(listing(&fs).len(), 4);
    assert!(log.undo(&mut fs).unwrap());
    assert_eq!(listing(&fs), before);
}

#[test]
fn delete_then_undo_restores_contents() {
    let mut fs = chapters_fs();
    let mut log = CommandLog::new();
    let cmd = Command::DeleteFile { path: b("proj/chapters/0002-b.md"), contents: b("beta") };
    log.apply_command(&mut fs, cmd).unwrap();
    assert!(read_text(&fs, b"proj/chapters/0002-b.md").is_err());
    assert!(log.undo(&mut fs).unwrap());
    assert_eq!(read_text(&fs, b"proj/chapters/0002-b.md").unwrap(), b("beta"));
}

#[test]
fn rename_then_undo_restores_name() {
    let mut fs = chapters_fs();
    let mut log = CommandLog::new();
    let cmd = Command::RenameFile {
        from: b("proj/chapters/0001-a.md"),
        to: b("proj/chapters/0001-z.md"),
    };
    log.apply_command(&mut fs, cmd).unwrap();
    assert!(fs.file_exists(b"proj/chapters/0001-z.md"));
    assert!(!fs.file_exists(b"proj/chapters/0001-a.md"));
    assert!(log.undo(&mut fs).unwrap());
    assert_eq!(read_text(&fs, b"proj/chapters/0001-a.md").unwrap(), b("alpha"));
    assert!(!fs.file_exists(b"proj/chapters/0001-z.md"));
}

#[test]
fn undo_then_redo_restores_applied_state() {
    let mut fs = chapters_fs();
    let mut log = CommandLog::new();
    let cmd = Command::CreateFile { path: b("proj/chapters/0004-d.md"), contents: b("delta") };
    log.apply_command(&mut fs, cmd).unwrap();
    log.undo(&mut fs).unwrap();
    assert!(log.redo(&mut fs).unwrap());
    assert_eq!(read_text(&fs, b"proj/chapters/0004-d.md").unwrap(), b("delta"));
}

#[test]
fn undo_on_empty_stack_is_noop() {
    let mut fs = chapters_fs();
    let mut log = CommandLog::new();
    assert_eq!(log.undo(&mut fs), Ok(false));
}

#[test]
fn new_command_invalidates_redo() {
    let mut fs = chapters_fs();
    let mut log = CommandLog::new();
    let c1 = Command::CreateFile { path: b("proj/chapters/0004-d.md"), contents: b("d") };
    log.apply_command(&mut fs, c1).unwrap();
    log.undo(&mut fs).unwrap();
    assert_eq!(log.redo_depth(), 1);
    let c2 = Command::CreateFile { path: b("proj/chapters/0005-e.md"), contents: b("e") };
    log.apply_command(&mut fs, c2).unwrap();
    assert_eq!(log.redo_depth(), 0);
    // a subsequent redo is a quiet no-op
    assert_eq!(log.redo(&mut fs), Ok(false));
    assert!(fs.file_exists(b"proj/chapters/0005-e.md"));
    assert!(!fs.file_exists(b"proj/chapters/0004-d.md"));
}

#[test]
fn reorder_moves_third_chapter_first() {
    let mut fs = chapters_fs();
    let names = listing(&fs);
    let plan = build_reorder_plan(b"proj/chapters", &names, 2, 0);
    apply_rename_pairs(&mut fs, &plan).unwrap();
    let after = listing(&fs);
    assert_eq!(after.len(), 3);
    assert_eq!(after[0], b("0001-c.md"));
    assert_eq!(after[1], b("0002-a.md"));
    assert_eq!(after[2], b("0003-b.md"));
    assert_eq!(read_text(&fs, b"proj/chapters/0001-c.md").unwrap(), b("gamma"));
    assert_eq!(read_text(&fs, b"proj/chapters/0002-a.md").unwrap(), b("alpha"));
    assert_eq!(read_text(&fs, b"proj/chapters/0003-b.md").unwrap(), b("beta"));
}

#[test]
fn reorder_undo_restores_names_and_contents() {
    let mut fs = chapters_fs();
    let names = listing(&fs);
    let plan = build_reorder_plan(b"proj/chapters", &names, 2, 0);
    let mut log = CommandLog::new();
    log.apply_command(&mut fs, Command::ReorderChapters { pairs: plan }).unwrap();
    assert!(log.undo(&mut fs).unwrap());
    let after = listing(&fs);
    assert_eq!(after[0], b("0001-a.md"));
    assert_eq!(after[1], b("0002-b.md"));
    assert_eq!(after[2], b("0003-c.md"));
    assert_eq!(read_text(&fs, b"proj/chapters/0001-a.md").unwrap(), b("alpha"));
    assert_eq!(read_text(&fs, b"proj/chapters/0002-b.md").unwrap(), b("beta"));
    assert_eq!(read_text(&fs, b"proj/chapters/0003-c.md").unwrap(), b("gamma"));
}

#[test]
fn reorder_phases_never_collide() {
    // drive the two phases by hand: after phase one (the crash window)
    // every document is still present, under its temporary name
    let mut fs = chapters_fs();
    let names = listing(&fs);
    let plan = build_reorder_plan(b"proj/chapters", &names, 0, 2);
    for (i, (from, _to)) in plan.iter().enumerate() {
        let mut tmp = from.clone();
        tmp.extend_from_slice(b".reorder.tmp.42.");
        tmp.extend_from_slice(i.to_string().as_bytes());
        fs.rename_file(from, &tmp).unwrap();
        assert_eq!(fs.list_dir(b"proj/chapters").len(), 3);
    }
    // no markdown file remains mid-flight, but nothing was lost
    assert_eq!(listing(&fs).len(), 0);
    assert_eq!(fs.list_dir(b"proj/chapters").len(), 3);
}

#[test]
fn reorder_rejects_missing_source() {
    let mut fs = chapters_fs();
    let mut plan = Vec::new();
    plan.push((b("proj/chapters/absent.md"), b("proj/chapters/0001-x.md")));
    assert_eq!(apply_rename_pairs(&mut fs, &plan), Err(FsError::NotFound));
    assert_eq!(listing(&fs).len(), 3);
}

#[test]
fn reorder_rejects_colliding_targets() {
    let mut fs = chapters_fs();
    let mut plan = Vec::new();
    plan.push((b("proj/chapters/0001-a.md"), b("proj/chapters/same.md")));
    plan.push((b("proj/chapters/0002-b.md"), b("proj/chapters/same.md")));
    assert_eq!(apply_rename_pairs(&mut fs, &plan), Err(FsError::AlreadyExists));
    assert_eq!(listing(&fs).len(), 3);
}

#[test]
fn reverse_pairs_swaps_directions() {
    let mut plan = Vec::new();
    plan.push((b("x"), b("y")));
    let rev = reverse_pairs(&plan);
    assert_eq!(rev[0].0, b("y"));
    assert_eq!(rev[0].1, b("x"));
}
