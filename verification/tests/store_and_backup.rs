//! Project layout, naming, backup retention, and version logic on
//! concrete values.

use novel_store::backup::{backup_text, cleanup_old_backups, should_snapshot, snapshot_write};
use novel_store::codec::parse_front_matter;
use novel_store::command::CommandLog;
use novel_store::fs::Fs;
use novel_store::index::{filter_names, list_markdown_files, sanitize_filename, unique_file_name};
use novel_store::num::{ordinal4, parse_u64, u64_to_dec};
use novel_store::storage::{cleanup_temp_files, read_text, stage_temp, write_text_atomic};
use novel_store::store::{
    commit_rename, create_new_item, delete_item, next_chapter_ordinal, reorder_chapters,
    ProjectStore, Section,
};
use novel_store::version::{check_update, parse_url, parse_version, version_gt, UpdateInfo};

fn b(s: &str) -> Vec<u8> {
    s.as_bytes().to_vec()
}

#[test]
fn open_or_init_creates_layout_and_seeds() {
    let mut fs = Fs::new(9);
    let store = ProjectStore { root: b("proj") };
    let project = store.open_or_init(&mut fs);
    for d in [
        "proj",
        "proj/chapters",
        "proj/characters",
        "proj/world",
        "proj/timeline",
        "proj/exports",
        "proj/.backup",
    ] {
        assert!(fs.dir_exists(d.as_bytes()), "missing directory {d}");
    }
    let seed = "proj/chapters/0001-第一章.md";
    assert!(fs.file_exists(seed.as_bytes()));
    let pmd = read_text(&fs, b"proj/project.md").unwrap();
    let (meta, _body) = parse_front_matter(&pmd);
    let meta = meta.unwrap();
    assert_eq!(meta.name, b("proj"));
    assert_eq!(meta.format_version, 1);
    assert_eq!(project.meta.format_version, 1);
    assert!(fs.file_exists("proj/timeline/timeline.md".as_bytes()));
}

#[test]
fn open_or_init_keeps_existing_project_md() {
    let mut fs = Fs::new(9);
    let store = ProjectStore { root: b("proj") };
    write_text_atomic(
        &mut fs,
        b"proj/project.md",
        b"---\nname: Kept\ncreated_unix: 11\nformat_version: 3\n---\n\nbody\n",
    );
    let project = store.open_or_init(&mut fs);
    assert_eq!(project.meta.name, b("Kept"));
    assert_eq!(project.meta.format_version, 3);
}

#[test]
fn save_project_meta_keeps_edited_body() {
    let mut fs = Fs::new(9);
    let store = ProjectStore { root: b("proj") };
    let mut project = store.open_or_init(&mut fs);
    write_text_atomic(
        &mut fs,
        b"proj/project.md",
        b"---\nname: Old\ncreated_unix: 1\nformat_version: 1\n---\n\nuser body\n",
    );
    project.meta.name = b("Renamed");
    store.save_project_meta(&mut fs, &project).unwrap();
    let doc = read_text(&fs, b"proj/project.md").unwrap();
    let (meta, body) = parse_front_matter(&doc);
    assert_eq!(meta.unwrap().name, b("Renamed"));
    assert_eq!(body, b("user body"));
}

#[test]
fn create_rename_delete_flow() {
    let mut fs = Fs::new(5);
    let store = ProjectStore { root: b("proj") };
    store.open_or_init(&mut fs);
    let mut log = CommandLog::new();
    let path = create_new_item(&mut fs, &mut log, b"proj", Section::Chapters);
    assert!(fs.file_exists(&path));
    assert_eq!(path, b("proj/chapters/0002-新建章节.md"));
    let renamed = commit_rename(
        &mut fs,
        &mut log,
        b"proj",
        Section::Chapters,
        "0002-新建章节.md".as_bytes(),
        b"prologue",
    )
    .unwrap();
    assert!(renamed);
    assert!(fs.file_exists("proj/chapters/0002-prologue.md".as_bytes()));
    delete_item(&mut fs, &mut log, "proj/chapters/0002-prologue.md".as_bytes()).unwrap();
    assert!(!fs.file_exists("proj/chapters/0002-prologue.md".as_bytes()));
    // the whole flow unwinds
    assert!(log.undo(&mut fs).unwrap());
    assert!(log.undo(&mut fs).unwrap());
    assert!(log.undo(&mut fs).unwrap());
    assert!(!fs.file_exists(&path));
}

#[test]
fn reorder_chapters_end_to_end() {
    let mut fs = Fs::new(5);
    fs.ensure_dir(b"proj");
    fs.ensure_dir(b"proj/chapters");
    write_text_atomic(&mut fs, b"proj/chapters/0001-a.md", b"A");
    write_text_atomic(&mut fs, b"proj/chapters/0002-b.md", b"B");
    write_text_atomic(&mut fs, b"proj/chapters/0003-c.md", b"C");
    let mut log = CommandLog::new();
    let plan = reorder_chapters(&mut fs, &mut log, b"proj", 2, 0).unwrap();
    assert!(plan.is_some());
    let names = list_markdown_files(&fs, b"proj/chapters");
    assert_eq!(names[0], b("0001-c.md"));
    assert_eq!(names[1], b("0002-a.md"));
    assert_eq!(names[2], b("0003-b.md"));
    // moving onto the same index is a no-op
    assert_eq!(reorder_chapters(&mut fs, &mut log, b"proj", 1, 1).unwrap(), None);
}

#[test]
fn next_ordinal_skips_gaps() {
    let mut names = Vec::new();
    names.push(b("0001-a.md"));
    names.push(b("0007-b.md"));
    names.push(b("no-prefix.md"));
    assert_eq!(next_chapter_ordinal(&names), 8);
    let empty: Vec<Vec<u8>> = Vec::new();
    assert_eq!(next_chapter_ordinal(&empty), 1);
}

#[test]
fn unique_name_appends_counter() {
    let mut fs = Fs::new(1);
    fs.ensure_dir(b"d");
    write_text_atomic(&mut fs, b"d/a.md", b"x");
    assert_eq!(unique_file_name(&fs, b"d", b"a.md"), b("a (1).md"));
    write_text_atomic(&mut fs, b"d/a (1).md", b"x");
    assert_eq!(unique_file_name(&fs, b"d", b"a.md"), b("a (2).md"));
    assert_eq!(unique_file_name(&fs, b"d", b"fresh.md"), b("fresh.md"));
}

#[test]
fn sanitize_replaces_and_trims() {
    assert_eq!(sanitize_filename(b"a<b>:c?"), b("a_b__c_"));
    assert_eq!(sanitize_filename(b"  .name.  "), b("name"));
    assert_eq!(sanitize_filename(b"plain"), b("plain"));
}

#[test]
fn listing_is_sorted_and_filters() {
    let mut fs = Fs::new(1);
    fs.ensure_dir(b"d");
    write_text_atomic(&mut fs, b"d/0002-b.md", b"");
    write_text_atomic(&mut fs, b"d/0001-a.MD", b"");
    write_text_atomic(&mut fs, b"d/notes.txt", b"");
    let names = list_markdown_files(&fs, b"d");
    assert_eq!(names.len(), 2);
    assert_eq!(names[0], b("0001-a.MD"));
    assert_eq!(names[1], b("0002-b.md"));
    let hits = filter_names(&names, b"-A");
    assert_eq!(hits.len(), 1);
    assert_eq!(hits[0], b("0001-a.MD"));
}

#[test]
fn backup_retention_keeps_thirty_most_recent() {
    let mut fs = Fs::new(3);
    fs.ensure_dir(b"proj");
    fs.ensure_dir(b"proj/.backup");
    for ts in 100..131u64 {
        snapshot_write(&mut fs, b"proj", b"proj/chapters/0001-a.md", b"text", ts);
    }
    let kept = cleanup_old_backups(&mut fs, b"proj/.backup", 30);
    assert_eq!(kept.len(), 30);
    assert_eq!(kept[0], 101);
    assert_eq!(kept[29], 130);
    assert!(!fs.dir_exists(b"proj/.backup/backup-100"));
    assert!(fs.dir_exists(b"proj/.backup/backup-130"));
    assert_eq!(
        read_text(&fs, b"proj/.backup/backup-130/chapters/0001-a.md").unwrap(),
        b("text")
    );
}

#[test]
fn retention_spares_stray_entries() {
    let mut fs = Fs::new(3);
    fs.ensure_dir(b"proj");
    fs.ensure_dir(b"proj/.backup");
    fs.ensure_dir(b"proj/.backup/misc");
    fs.ensure_dir(b"proj/.backup/backup-007");
    write_text_atomic(&mut fs, b"proj/.backup/notes.txt", b"keep me");
    for ts in 100..132u64 {
        snapshot_write(&mut fs, b"proj", b"proj/chapters/0001-a.md", b"text", ts);
    }
    cleanup_old_backups(&mut fs, b"proj/.backup", 30);
    // stray entries under the backup root are never part of retention:
    // a plain file, a foreign directory, and a non-canonical name survive
    assert_eq!(read_text(&fs, b"proj/.backup/notes.txt").unwrap(), b("keep me"));
    assert!(fs.dir_exists(b"proj/.backup/misc"));
    assert!(fs.dir_exists(b"proj/.backup/backup-007"));
    assert!(!fs.dir_exists(b"proj/.backup/backup-100"));
}

#[test]
fn backup_text_touches_only_backup_tree() {
    let mut fs = Fs::new(3);
    fs.ensure_dir(b"proj");
    write_text_atomic(&mut fs, b"proj/chapters/0001-a.md", b"body");
    backup_text(&mut fs, b"proj", b"proj/chapters/0001-a.md", b"body");
    assert_eq!(read_text(&fs, b"proj/chapters/0001-a.md").unwrap(), b("body"));
    assert!(fs.dir_exists(b"proj/.backup"));
}

#[test]
fn copy_project_mirrors_tree() {
    let mut fs = Fs::new(4);
    let store = ProjectStore { root: b("proj") };
    store.open_or_init(&mut fs);
    write_text_atomic(&mut fs, b"proj/chapters/0002-x.md", b"deep");
    write_text_atomic(&mut fs, b"proj/world/maps/north.md", b"nested");
    novel_store::store::copy_project(&mut fs, b"proj", b"export");
    assert_eq!(
        read_text(&fs, b"export/project.md").unwrap(),
        read_text(&fs, b"proj/project.md").unwrap()
    );
    assert_eq!(read_text(&fs, b"export/chapters/0002-x.md").unwrap(), b("deep"));
    assert_eq!(read_text(&fs, b"export/world/maps/north.md").unwrap(), b("nested"));
    assert!(fs.dir_exists(b"export/chapters"));
    // the source is untouched
    assert_eq!(read_text(&fs, b"proj/chapters/0002-x.md").unwrap(), b("deep"));
}

#[test]
fn crash_window_end_to_end() {
    let mut fs = Fs::new(11);
    fs.ensure_dir(b"proj");
    fs.ensure_dir(b"proj/chapters");
    write_text_atomic(&mut fs, b"proj/chapters/0001-a.md", b"before");
    // interrupted write: staged beside the target, never published
    stage_temp(&mut fs, b"proj/chapters/0001-a.md", b"after");
    assert_eq!(read_text(&fs, b"proj/chapters/0001-a.md").unwrap(), b("before"));
    // the next open's sweep leaves a tree identical to never writing
    cleanup_temp_files(&mut fs, b"proj");
    assert_eq!(read_text(&fs, b"proj/chapters/0001-a.md").unwrap(), b("before"));
    assert!(!fs.file_exists(b"proj/chapters/0001-a.md.tmp.11"));
    assert_eq!(fs.list_dir(b"proj/chapters").len(), 1);
}

#[test]
fn version_comparison() {
    assert!(version_gt(b"1.2.3", b"1.2.2"));
    assert!(version_gt(b"2.0.0", b"1.9.9"));
    assert!(!version_gt(b"1.2.3", b"1.2.3"));
    assert!(!version_gt(b"1.2.3", b"1.10.0"));
    assert_eq!(parse_version(b"1.2.3-beta+5"), (1, 2, 3));
    assert_eq!(parse_version(b"weird"), (0, 0, 0));
    assert_eq!(parse_version(b"0012.04"), (12, 4, 0));
}

#[test]
fn update_check_decides_by_version() {
    let newer = UpdateInfo { version: b("1.3.0"), url: None, notes: None };
    assert!(check_update(newer, b"1.2.9").is_some());
    let same = UpdateInfo { version: b("1.2.9"), url: None, notes: None };
    assert!(check_update(same, b"1.2.9").is_none());
}

#[test]
fn url_parsing() {
    let p = parse_url(b" https://example.com/feed.json ").unwrap();
    assert_eq!(p.host, b("example.com"));
    assert_eq!(p.port, 443);
    assert_eq!(p.path, b("/feed.json"));
    assert!(p.secure);
    let q = parse_url(b"http://host:8080").unwrap();
    assert_eq!(q.port, 8080);
    assert_eq!(q.path, b("/"));
    assert!(!q.secure);
    assert!(parse_url(b"ftp://x").is_none());
    assert!(parse_url(b"http://host:notaport/x").is_none());
}

#[test]
fn decimal_codec_round_trips() {
    for n in [0u64, 1, 9, 10, 12345, u64::MAX] {
        let s = u64_to_dec(n);
        assert_eq!(parse_u64(&s), Some(n));
    }
    assert_eq!(parse_u64(b"007"), None);
    assert_eq!(parse_u64(b""), None);
    assert_eq!(parse_u64(b"18446744073709551616"), None);
    assert_eq!(ordinal4(7), b("0007"));
    assert_eq!(ordinal4(9999), b("9999"));
}

#[test]
fn snapshot_interval_gate() {
    assert!(should_snapshot(600, 300, 300));
    assert!(should_snapshot(601, 300, 300));
    assert!(!should_snapshot(599, 300, 300));
    assert!(!should_snapshot(u64::MAX - 1, u64::MAX, 300));
}
