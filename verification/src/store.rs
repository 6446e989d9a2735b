//! The project store: directory layout, project metadata persistence,
//! and the structural operations the host exposes to its users.

use vstd::prelude::*;

verus! {

use vstd::slice::slice_to_vec;
use vstd::string::StringSliceAdditionalSpecFns;
use crate::fs::Fs;
use crate::fs::FsError;
use crate::fs::join_seq;
use crate::fs::join_path;
use crate::fs::in_dir;
use crate::storage::temp_path_seq;
use crate::text::ascii_seq;
use crate::text::ascii_bytes;
use crate::text::utf8_bytes;
use crate::domain::ProjectMeta;
use crate::domain::Project;
use crate::codec::spec_serialize;
use crate::codec::spec_parse_front_matter;
use crate::index::is_md_name;

/// One of the four fixed document categories.
#[derive(Clone, Copy, PartialEq, Eq, Structural)]
pub enum Section {
    Chapters,
    Characters,
    World,
    Timeline,
}

/// The subdirectory name of a category.
pub open spec fn section_dir_name(s: Section) -> Seq<u8> {
    match s {
        Section::Chapters => ascii_seq("chapters"@),
        Section::Characters => ascii_seq("characters"@),
        Section::World => ascii_seq("world"@),
        Section::Timeline => ascii_seq("timeline"@),
    }
}

/// Builds the subdirectory name of a category.
pub fn section_dir_bytes(s: Section) -> (r: Vec<u8>)
    ensures
        r@ == section_dir_name(s),
        r@.len() <= 10,
{
    proof {
        reveal_strlit("chapters");
        reveal_strlit("characters");
        reveal_strlit("world");
        reveal_strlit("timeline");
    }
    match s {
        Section::Chapters => ascii_bytes("chapters"),
        Section::Characters => ascii_bytes("characters"),
        Section::World => ascii_bytes("world"),
        Section::Timeline => ascii_bytes("timeline"),
    }
}

/// The default body of a fresh `project.md` (the UTF-8 bytes of the
/// localized overview text).
pub open spec fn default_project_body() -> Seq<u8> {
    seq![35u8, 35u8, 32u8, 230u8, 166u8, 130u8, 232u8, 167u8, 136u8, 10u8, 10u8, 45u8, 32u8, 232u8, 191u8, 153u8, 230u8, 152u8, 175u8, 233u8, 161u8, 185u8, 231u8, 155u8, 174u8, 230u8, 160u8, 185u8, 232u8, 175u8, 180u8, 230u8, 152u8, 142u8, 230u8, 150u8, 135u8, 228u8, 187u8, 182u8, 227u8, 128u8, 130u8, 10u8, 45u8, 32u8, 229u8, 183u8, 166u8, 228u8, 190u8, 167u8, 229u8, 136u8, 155u8, 229u8, 187u8, 186u8, 231u8, 171u8, 160u8, 232u8, 138u8, 130u8, 47u8, 232u8, 167u8, 146u8, 232u8, 137u8, 178u8, 47u8, 232u8, 174u8, 190u8, 229u8, 174u8, 154u8, 47u8, 230u8, 151u8, 182u8, 233u8, 151u8, 180u8, 231u8, 186u8, 191u8, 230u8, 157u8, 161u8, 231u8, 155u8, 174u8, 239u8, 188u8, 140u8, 229u8, 143u8, 179u8, 228u8, 190u8, 167u8, 231u8, 188u8, 150u8, 232u8, 190u8, 145u8, 229u8, 175u8, 185u8, 229u8, 186u8, 148u8, 32u8, 77u8, 97u8, 114u8, 107u8, 100u8, 111u8, 119u8, 110u8, 227u8, 128u8, 130u8, 10u8]
}

#[verifier::rlimit(100)]
fn default_project_body_head() -> (r: Vec<u8>)
    ensures
        r@ == default_project_body().take(64),
{
    let mut r: Vec<u8> = Vec::new();
    r.push(35);
    r.push(35);
    r.push(32);
    r.push(230);
    r.push(166);
    r.push(130);
    r.push(232);
    r.push(167);
    r.push(136);
    r.push(10);
    r.push(10);
    r.push(45);
    r.push(32);
    r.push(232);
    r.push(191);
    r.push(153);
    r.push(230);
    r.push(152);
    r.push(175);
    r.push(233);
    r.push(161);
    r.push(185);
    r.push(231);
    r.push(155);
    r.push(174);
    r.push(230);
    r.push(160);
    r.push(185);
    r.push(232);
    r.push(175);
    r.push(180);
    r.push(230);
    r.push(152);
    r.push(142);
    r.push(230);
    r.push(150);
    r.push(135);
    r.push(228);
    r.push(187);
    r.push(182);
    r.push(227);
    r.push(128);
    r.push(130);
    r.push(10);
    r.push(45);
    r.push(32);
    r.push(229);
    r.push(183);
    r.push(166);
    r.push(228);
    r.push(190);
    r.push(167);
    r.push(229);
    r.push(136);
    r.push(155);
    r.push(229);
    r.push(187);
    r.push(186);
    r.push(231);
    r.push(171);
    r.push(160);
    r.push(232);
    r.push(138);
    r.push(130);
    proof {
        assert(r@ =~= default_project_body().take(64));
    }
    r
}

#[verifier::rlimit(100)]
pub fn default_project_body_bytes() -> (r: Vec<u8>)
    ensures
        r@ == default_project_body(),
        r@.len() == 128,
{
    let mut r = default_project_body_head();
    r.push(47);
    r.push(232);
    r.push(167);
    r.push(146);
    r.push(232);
    r.push(137);
    r.push(178);
    r.push(47);
    r.push(232);
    r.push(174);
    r.push(190);
    r.push(229);
    r.push(174);
    r.push(154);
    r.push(47);
    r.push(230);
    r.push(151);
    r.push(182);
    r.push(233);
    r.push(151);
    r.push(180);
    r.push(231);
    r.push(186);
    r.push(191);
    r.push(230);
    r.push(157);
    r.push(161);
    r.push(231);
    r.push(155);
    r.push(174);
    r.push(239);
    r.push(188);
    r.push(140);
    r.push(229);
    r.push(143);
    r.push(179);
    r.push(228);
    r.push(190);
    r.push(167);
    r.push(231);
    r.push(188);
    r.push(150);
    r.push(232);
    r.push(190);
    r.push(145);
    r.push(229);
    r.push(175);
    r.push(185);
    r.push(229);
    r.push(186);
    r.push(148);
    r.push(32);
    r.push(77);
    r.push(97);
    r.push(114);
    r.push(107);
    r.push(100);
    r.push(111);
    r.push(119);
    r.push(110);
    r.push(227);
    r.push(128);
    r.push(130);
    r.push(10);
    proof {
        assert(r@ =~= default_project_body());
    }
    r
}

/// The seeded timeline document.
pub open spec fn default_timeline_md() -> Seq<u8> {
    "---\nformat_version: 1\n---\n\n# 时间线\n\n| 时间 | 事件 | 关联 |\n| --- | --- | --- |\n".spec_bytes()
}

pub fn default_timeline_md_bytes() -> (r: Vec<u8>)
    ensures
        r@ == default_timeline_md(),
{
    utf8_bytes(
        "---\nformat_version: 1\n---\n\n# 时间线\n\n| 时间 | 事件 | 关联 |\n| --- | --- | --- |\n",
    )
}

/// The seeded first chapter.
pub open spec fn default_chapter_md() -> Seq<u8> {
    "---\nformat_version: 1\n---\n\n# 第一章\n\n".spec_bytes()
}

pub fn default_chapter_md_bytes() -> (r: Vec<u8>)
    ensures
        r@ == default_chapter_md(),
{
    utf8_bytes("---\nformat_version: 1\n---\n\n# 第一章\n\n")
}

/// The seeded example character sheet.
pub open spec fn default_character_md() -> Seq<u8> {
    "---\nformat_version: 1\n---\n\n# 角色：示例\n\n- 角色定位：\n- 外貌特征：\n- 性格：\n- 目标与动机：\n- 关系：\n".spec_bytes()
}

pub fn default_character_md_bytes() -> (r: Vec<u8>)
    ensures
        r@ == default_character_md(),
{
    utf8_bytes(
        "---\nformat_version: 1\n---\n\n# 角色：示例\n\n- 角色定位：\n- 外貌特征：\n- 性格：\n- 目标与动机：\n- 关系：\n",
    )
}

/// The seeded example world entry.
pub open spec fn default_world_md() -> Seq<u8> {
    "---\nformat_version: 1\n---\n\n# 世界观：示例\n\n## 规则\n\n## 地理\n\n## 势力\n\n".spec_bytes()
}

pub fn default_world_md_bytes() -> (r: Vec<u8>)
    ensures
        r@ == default_world_md(),
{
    utf8_bytes("---\nformat_version: 1\n---\n\n# 世界观：示例\n\n## 规则\n\n## 地理\n\n## 势力\n\n")
}

/// The file name of the seeded first chapter (the UTF-8 bytes of its
/// localized title).
pub open spec fn first_chapter_name() -> Seq<u8> {
    seq![48u8, 48u8, 48u8, 49u8, 45u8, 231u8, 172u8, 172u8, 228u8, 184u8, 128u8, 231u8, 171u8, 160u8, 46u8, 109u8, 100u8]
}

pub fn first_chapter_name_bytes() -> (r: Vec<u8>)
    ensures
        r@ == first_chapter_name(),
        r@.len() == 17,
{
    let mut r: Vec<u8> = Vec::new();
    r.push(48);
    r.push(48);
    r.push(48);
    r.push(49);
    r.push(45);
    r.push(231);
    r.push(172);
    r.push(172);
    r.push(228);
    r.push(184);
    r.push(128);
    r.push(231);
    r.push(171);
    r.push(160);
    r.push(46);
    r.push(109);
    r.push(100);
    proof {
        assert(r@ =~= first_chapter_name());
    }
    r
}

/// The file name of the seeded example character sheet (the UTF-8 bytes of its
/// localized title).
pub open spec fn first_character_name() -> Seq<u8> {
    seq![232u8, 167u8, 146u8, 232u8, 137u8, 178u8, 45u8, 231u8, 164u8, 186u8, 228u8, 190u8, 139u8, 46u8, 109u8, 100u8]
}

pub fn first_character_name_bytes() -> (r: Vec<u8>)
    ensures
        r@ == first_character_name(),
        r@.len() == 16,
{
    let mut r: Vec<u8> = Vec::new();
    r.push(232);
    r.push(167);
    r.push(146);
    r.push(232);
    r.push(137);
    r.push(178);
    r.push(45);
    r.push(231);
    r.push(164);
    r.push(186);
    r.push(228);
    r.push(190);
    r.push(139);
    r.push(46);
    r.push(109);
    r.push(100);
    proof {
        assert(r@ =~= first_character_name());
    }
    r
}

/// The file name of the seeded example world entry (the UTF-8 bytes of its
/// localized title).
pub open spec fn first_world_name() -> Seq<u8> {
    seq![228u8, 184u8, 150u8, 231u8, 149u8, 140u8, 232u8, 167u8, 130u8, 45u8, 231u8, 164u8, 186u8, 228u8, 190u8, 139u8, 46u8, 109u8, 100u8]
}

pub fn first_world_name_bytes() -> (r: Vec<u8>)
    ensures
        r@ == first_world_name(),
        r@.len() == 19,
{
    let mut r: Vec<u8> = Vec::new();
    r.push(228);
    r.push(184);
    r.push(150);
    r.push(231);
    r.push(149);
    r.push(140);
    r.push(232);
    r.push(167);
    r.push(130);
    r.push(45);
    r.push(231);
    r.push(164);
    r.push(186);
    r.push(228);
    r.push(190);
    r.push(139);
    r.push(46);
    r.push(109);
    r.push(100);
    proof {
        assert(r@ =~= first_world_name());
    }
    r
}


/// True when the category directory holds a markdown document.
pub open spec fn has_md(m: Map<Seq<u8>, Seq<u8>>, dir: Seq<u8>) -> bool {
    exists|name: Seq<u8>| in_dir(m, dir, name) && #[trigger] is_md_name(name)
}

/// One conditional seeding step: writes `contents` at `dir`/`name`
/// unless the directory already holds a markdown document.
pub open spec fn seed_step(
    m: Map<Seq<u8>, Seq<u8>>,
    dir: Seq<u8>,
    name: Seq<u8>,
    contents: Seq<u8>,
    pid: u64,
) -> Map<Seq<u8>, Seq<u8>> {
    if has_md(m, dir) {
        m
    } else {
        m.remove(temp_path_seq(join_seq(dir, name), pid)).insert(join_seq(dir, name), contents)
    }
}

/// The file map after the layout pass: each empty category seeded with
/// its example document, the timeline seeded when absent.
pub open spec fn layout_files(m: Map<Seq<u8>, Seq<u8>>, root: Seq<u8>, pid: u64) -> Map<
    Seq<u8>,
    Seq<u8>,
> {
    let m1 = seed_step(
        m,
        join_seq(root, ascii_seq("chapters"@)),
        first_chapter_name(),
        default_chapter_md(),
        pid,
    );
    let m2 = seed_step(
        m1,
        join_seq(root, ascii_seq("characters"@)),
        first_character_name(),
        default_character_md(),
        pid,
    );
    let m3 = seed_step(
        m2,
        join_seq(root, ascii_seq("world"@)),
        first_world_name(),
        default_world_md(),
        pid,
    );
    let tpath = join_seq(join_seq(root, ascii_seq("timeline"@)), ascii_seq("timeline.md"@));
    if m3.contains_key(tpath) {
        m3
    } else {
        m3.remove(temp_path_seq(tpath, pid)).insert(tpath, default_timeline_md())
    }
}

/// The directory set after the layout pass.
pub open spec fn layout_dirs(dirs: Set<Seq<u8>>, root: Seq<u8>) -> Set<Seq<u8>> {
    dirs.insert(root).insert(join_seq(root, ascii_seq("chapters"@))).insert(
        join_seq(root, ascii_seq("characters"@)),
    ).insert(join_seq(root, ascii_seq("world"@))).insert(
        join_seq(root, ascii_seq("timeline"@)),
    ).insert(join_seq(root, ascii_seq("exports"@))).insert(
        join_seq(root, ascii_seq(".backup"@)),
    )
}

/// The project store: operations over one project root.
pub struct ProjectStore {
    pub root: Vec<u8>,
}

impl ProjectStore {
    /// Creates the fixed directory layout and seeds each empty category
    /// with its example document.
    pub fn ensure_layout(&self, fs: &mut Fs)
        requires
            old(fs).wf(),
            self.root@.len() + 64 <= usize::MAX,
        ensures
            final(fs).wf(),
            final(fs)@.pid == old(fs)@.pid,
            final(fs)@.dirs == layout_dirs(old(fs)@.dirs, self.root@),
            final(fs)@.files == layout_files(old(fs)@.files, self.root@, old(fs)@.pid),
    {
        proof {
            reveal_strlit("chapters");
            reveal_strlit("characters");
            reveal_strlit("world");
            reveal_strlit("timeline");
            reveal_strlit("exports");
            reveal_strlit(".backup");
            reveal_strlit("timeline.md");
        }
        let root = self.root.as_slice();
        fs.ensure_dir(root);
        let chapters_dir = join_path(root, ascii_bytes("chapters").as_slice());
        fs.ensure_dir(chapters_dir.as_slice());
        let characters_dir = join_path(root, ascii_bytes("characters").as_slice());
        fs.ensure_dir(characters_dir.as_slice());
        let world_dir = join_path(root, ascii_bytes("world").as_slice());
        fs.ensure_dir(world_dir.as_slice());
        let timeline_dir = join_path(root, ascii_bytes("timeline").as_slice());
        fs.ensure_dir(timeline_dir.as_slice());
        let exports_dir = join_path(root, ascii_bytes("exports").as_slice());
        fs.ensure_dir(exports_dir.as_slice());
        let backup_dir = join_path(root, ascii_bytes(".backup").as_slice());
        fs.ensure_dir(backup_dir.as_slice());
        seed_category(fs, chapters_dir.as_slice(), first_chapter_name_bytes(), default_chapter_md_bytes());
        seed_category(
            fs,
            characters_dir.as_slice(),
            first_character_name_bytes(),
            default_character_md_bytes(),
        );
        seed_category(fs, world_dir.as_slice(), first_world_name_bytes(), default_world_md_bytes());
        let tpath = join_path(timeline_dir.as_slice(), ascii_bytes("timeline.md").as_slice());
        if !fs.file_exists(tpath.as_slice()) {
            crate::storage::write_text_atomic(
                fs,
                tpath.as_slice(),
                default_timeline_md_bytes().as_slice(),
            );
        }
        proof {
            assert(final(fs)@.dirs =~= layout_dirs(old(fs)@.dirs, self.root@));
        }
    }
}

/// Writes the example document into an empty category.
fn seed_category(fs: &mut Fs, dir: &[u8], name: Vec<u8>, contents: Vec<u8>)
    requires
        old(fs).wf(),
        dir@.len() + name@.len() + 26 <= usize::MAX,
        name@.len() > 0,
    ensures
        final(fs).wf(),
        final(fs)@.pid == old(fs)@.pid,
        final(fs)@.dirs == old(fs)@.dirs,
        final(fs)@.files == seed_step(old(fs)@.files, dir@, name@, contents@, old(fs)@.pid),
{
    let names = crate::index::list_markdown_files(fs, dir);
    if names.len() == 0 {
        proof {
            assert(!has_md(fs@.files, dir@)) by {
                if has_md(fs@.files, dir@) {
                    let nm = choose|nm: Seq<u8>|
                        in_dir(fs@.files, dir@, nm) && #[trigger] is_md_name(nm);
                    let j = choose|j: int|
                        0 <= j < names@.len() && #[trigger] names@[j]@ == nm;
                }
            }
        }
        let p = join_path(dir, name.as_slice());
        crate::storage::write_text_atomic(fs, p.as_slice(), contents.as_slice());
    } else {
        proof {
            assert(has_md(fs@.files, dir@)) by {
                assert(in_dir(fs@.files, dir@, names@[0]@) && is_md_name(names@[0]@));
            }
        }
    }
}


/// Index of the last separator in `s`.
pub open spec fn last_slash(s: Seq<u8>) -> Option<int>
    decreases s.len(),
{
    if s.len() == 0 {
        None
    } else if s.last() == 47 {
        Some(s.len() - 1)
    } else {
        last_slash(s.drop_last())
    }
}

/// The display name a project root yields: its last path component, or
/// the fallback name when that is empty.
pub open spec fn base_name(root: Seq<u8>) -> Seq<u8> {
    let tail = match last_slash(root) {
        Some(i) => root.skip(i + 1),
        None => root,
    };
    if tail.len() == 0 {
        ascii_seq("Untitled"@)
    } else {
        tail
    }
}

/// Extracts the project name from its root path.
pub fn base_name_bytes(root: &[u8]) -> (r: Vec<u8>)
    ensures
        r@ == base_name(root@),
        r@.len() <= root@.len() + 8,
{
    proof {
        reveal_strlit("Untitled");
        assert(root@.take(root@.len() as int) =~= root@);
    }
    let mut b: usize = root.len();
    let mut found = false;
    while b > 0 && !found
        invariant
            b <= root@.len(),
            !found ==> last_slash(root@) == last_slash(root@.take(b as int)),
            found ==> 0 < b <= root@.len() && last_slash(root@) == Some(b - 1),
        decreases b + (if found {
            0int
        } else {
            1int
        }),
    {
        if root[b - 1] == 47 {
            proof {
                assert(root@.take(b as int).last() == root@[b - 1]);
            }
            found = true;
        } else {
            proof {
                assert(root@.take(b as int).last() == root@[b - 1]);
                assert(root@.take(b as int).drop_last() =~= root@.take(b - 1));
            }
            b = b - 1;
        }
    }
    if found {
        let tail = vstd::slice::slice_subrange(root, b, root.len());
        proof {
            assert(tail@ =~= root@.skip(b as int));
        }
        if tail.len() == 0 {
            return ascii_bytes("Untitled");
        }
        return slice_to_vec(tail);
    }
    if root.len() == 0 {
        return ascii_bytes("Untitled");
    }
    slice_to_vec(root)
}

/// The path of the project metadata document.
pub open spec fn project_md_path(root: Seq<u8>) -> Seq<u8> {
    join_seq(root, ascii_seq("project.md"@))
}

impl ProjectStore {
    /// Serializes and atomically writes `project.md`.
    pub fn write_project_md(&self, fs: &mut Fs, meta: &ProjectMeta, body: &[u8])
        requires
            old(fs).wf(),
            self.root@.len() + 64 <= usize::MAX,
            meta@.name.len() + (match meta@.update_url {
                Some(u) => u.len() as int,
                None => 0int,
            }) + (match meta@.theme {
                Some(t) => t.len() as int,
                None => 0int,
            }) + body@.len() + 400 <= usize::MAX,
        ensures
            final(fs).wf(),
            final(fs)@.pid == old(fs)@.pid,
            final(fs)@.dirs == old(fs)@.dirs,
            final(fs)@.files == old(fs)@.files.remove(
                temp_path_seq(project_md_path(self.root@), old(fs)@.pid),
            ).insert(project_md_path(self.root@), spec_serialize(meta@, body@)),
    {
        proof {
            reveal_strlit("project.md");
        }
        let text = crate::codec::serialize_front_matter(meta, body);
        let p = join_path(self.root.as_slice(), ascii_bytes("project.md").as_slice());
        crate::storage::write_text_atomic(fs, p.as_slice(), text.as_slice());
    }

    /// Reads `project.md`: the metadata (defaults when the block does
    /// not parse) and the body.
    pub fn read_project_md(&self, fs: &Fs) -> (r: Result<(ProjectMeta, Vec<u8>), FsError>)
        requires
            fs.wf(),
            self.root@.len() + 64 <= usize::MAX,
        ensures
            r is Ok <==> fs@.files.contains_key(project_md_path(self.root@)),
            r matches Ok(p) ==> ({
                let (sm, sb) = spec_parse_front_matter(
                    fs@.files[project_md_path(self.root@)],
                );
                &&& p.1@ == sb
                &&& (sm is Some ==> p.0@ == sm.unwrap())
                &&& (sm is None ==> p.0@.name == ascii_seq("Untitled"@)
                    && p.0@.format_version == 1 && p.0@.update_url is None
                    && p.0@.theme is None && p.0@.left_pane_permille is None)
            }),
    {
        proof {
            reveal_strlit("project.md");
        }
        let p = join_path(self.root.as_slice(), ascii_bytes("project.md").as_slice());
        let content = match crate::storage::read_text(fs, p.as_slice()) {
            Ok(c) => c,
            Err(e) => {
                return Err(e);
            },
        };
        let (meta_opt, body) = crate::codec::parse_front_matter(content.as_slice());
        let meta = match meta_opt {
            Some(m) => m,
            None => ProjectMeta::default(),
        };
        Ok((meta, body))
    }

    /// Opens a project: sweeps stale write artifacts, creates the
    /// directory layout (seeding empty categories), and writes a fresh
    /// `project.md` when none exists.
    pub fn open_or_init(&self, fs: &mut Fs) -> (r: Project)
        requires
            old(fs).wf(),
            self.root@.len() + 600 <= usize::MAX,
        ensures
            final(fs).wf(),
            final(fs)@.pid == old(fs)@.pid,
            r.root@ == self.root@,
            final(fs)@.dirs.contains(self.root@),
            final(fs)@.dirs.contains(join_seq(self.root@, ascii_seq("chapters"@))),
            final(fs)@.dirs.contains(join_seq(self.root@, ascii_seq("characters"@))),
            final(fs)@.dirs.contains(join_seq(self.root@, ascii_seq("world"@))),
            final(fs)@.dirs.contains(join_seq(self.root@, ascii_seq("timeline"@))),
            final(fs)@.dirs.contains(join_seq(self.root@, ascii_seq("exports"@))),
            final(fs)@.dirs.contains(join_seq(self.root@, ascii_seq(".backup"@))),
            final(fs)@.files.contains_key(project_md_path(self.root@)),
            !has_md(old(fs)@.files, join_seq(self.root@, ascii_seq("chapters"@))) ==> final(fs)@.files.contains_key(
                join_seq(
                    join_seq(self.root@, ascii_seq("chapters"@)),
                    first_chapter_name(),
                ),
            ) && final(fs)@.files[join_seq(
                join_seq(self.root@, ascii_seq("chapters"@)),
                first_chapter_name(),
            )] == default_chapter_md(),
            !old(fs)@.files.contains_key(project_md_path(self.root@)) ==> r.meta@.name
                == base_name(self.root@) && r.meta@.format_version == 1 && r.meta@.update_url
                is None && r.meta@.theme is None && final(fs)@.files[project_md_path(
                self.root@,
            )] == spec_serialize(r.meta@, default_project_body()),
            forall|k: Seq<u8>|
                old(fs)@.files.contains_key(k) && !crate::storage::is_swept(self.root@, k)
                    ==> #[trigger] final(fs)@.files.contains_key(k) && final(fs)@.files[k]
                    == old(fs)@.files[k],
            forall|k: Seq<u8>|
                #[trigger] final(fs)@.files.contains_key(k) ==> !crate::storage::is_swept(
                    self.root@,
                    k,
                ),
            old(fs)@.files.contains_key(project_md_path(self.root@)) ==> ({
                let (sm, _sb) = spec_parse_front_matter(
                    old(fs)@.files[project_md_path(self.root@)],
                );
                &&& (sm matches Some(mv) ==> r.meta@ == mv)
                &&& (sm is None ==> r.meta@.name == ascii_seq("Untitled"@)
                    && r.meta@.format_version == 1 && r.meta@.update_url is None
                    && r.meta@.theme is None && r.meta@.left_pane_permille is None)
            }),
    {
        proof {
            reveal_strlit("project.md");
            reveal_strlit("chapters");
        }
        crate::storage::cleanup_temp_files(fs, self.root.as_slice());
        let ghost m_swept = fs@.files;
        self.ensure_layout(fs);
        let ghost m_layout = fs@.files;
        let pmd = join_path(self.root.as_slice(), ascii_bytes("project.md").as_slice());
        let ghost chd = join_seq(self.root@, ascii_seq("chapters"@));
        let ghost p = join_seq(chd, first_chapter_name());
        proof {
            if !has_md(old(fs)@.files, chd) {
                assert(!has_md(m_swept, chd)) by {
                    if has_md(m_swept, chd) {
                        let nm = choose|nm: Seq<u8>|
                            in_dir(m_swept, chd, nm) && #[trigger] is_md_name(nm);
                        assert(in_dir(old(fs)@.files, chd, nm));
                    }
                }
                lemma_layout_seeds_chapter(m_swept, self.root@, old(fs)@.pid);
                assert(m_layout.contains_key(p) && m_layout[p] == default_chapter_md());
            }
            lemma_chapter_seed_not_project_md(self.root@, old(fs)@.pid);
            lemma_layout_no_project_md(m_swept, self.root@, old(fs)@.pid);
            if m_layout.contains_key(project_md_path(self.root@)) {
                assert(m_swept.contains_key(project_md_path(self.root@)));
                assert(old(fs)@.files.contains_key(project_md_path(self.root@)));
            }
            reveal_strlit("project.md");
            lemma_fixed_names_plain();
            lemma_unmarked_child_not_swept(self.root@, self.root@, ascii_seq("project.md"@));
            crate::fs::lemma_join_parts(self.root@, ascii_seq("project.md"@));
            assert(crate::fs::is_child(project_md_path(self.root@), self.root@));
            crate::storage::lemma_staged_artifact_swept(
                self.root@,
                0,
                project_md_path(self.root@),
                old(fs)@.pid,
            );
            lemma_layout_frame(m_swept, self.root@, old(fs)@.pid);
            assert forall|k: Seq<u8>|
                old(fs)@.files.contains_key(k) && !crate::storage::is_swept(
                    self.root@,
                    k,
                ) implies #[trigger] m_layout.contains_key(k) && m_layout[k] == old(
                fs,
            )@.files[k] by {
                assert(m_swept.contains_key(k) && m_swept[k] == old(fs)@.files[k]);
                assert(layout_files(m_swept, self.root@, old(fs)@.pid).contains_key(k));
            }
            assert forall|k: Seq<u8>| #[trigger]
                m_layout.contains_key(k) implies !crate::storage::is_swept(
                self.root@,
                k,
            ) by {
                if m_swept.contains_key(k) {
                } else {
                    assert(layout_files(m_swept, self.root@, old(fs)@.pid).contains_key(k));
                }
            }
            if old(fs)@.files.contains_key(project_md_path(self.root@)) {
                assert(m_layout.contains_key(project_md_path(self.root@)));
                assert(m_layout[project_md_path(self.root@)] == old(fs)@.files[project_md_path(
                    self.root@,
                )]);
            }
        }
        if !fs.file_exists(pmd.as_slice()) {
            let name = base_name_bytes(self.root.as_slice());
            proof {
                lemma_base_name_len(self.root@);
            }
            let meta = ProjectMeta::new(name);
            let body = default_project_body_bytes();
            self.write_project_md(fs, &meta, body.as_slice());
            return Project { root: slice_to_vec(self.root.as_slice()), meta };
        }
        let (meta, _body) = match self.read_project_md(fs) {
            Ok(pb) => pb,
            Err(_) => {
                proof {
                    assert(false);
                }
                (ProjectMeta::default(), Vec::new())
            },
        };
        Project { root: slice_to_vec(self.root.as_slice()), meta }
    }

    /// Re-reads the current body so metadata edits never clobber body
    /// text, then re-serializes with the given metadata and writes
    /// atomically. An empty body falls back to the default body.
    pub fn save_project_meta(&self, fs: &mut Fs, project: &Project) -> (r: Result<
        (),
        FsError,
    >)
        requires
            old(fs).wf(),
            self.root@.len() + 64 <= usize::MAX,
            project.meta@.name.len() + (match project.meta@.update_url {
                Some(u) => u.len() as int,
                None => 0int,
            }) + (match project.meta@.theme {
                Some(t) => t.len() as int,
                None => 0int,
            }) + 600 <= usize::MAX,
            old(fs)@.files.contains_key(project_md_path(self.root@)) ==> old(
                fs,
            )@.files[project_md_path(self.root@)].len() + project.meta@.name.len() + (
            match project.meta@.update_url {
                Some(u) => u.len() as int,
                None => 0int,
            }) + (match project.meta@.theme {
                Some(t) => t.len() as int,
                None => 0int,
            }) + 600 <= usize::MAX,
        ensures
            final(fs).wf(),
            final(fs)@.pid == old(fs)@.pid,
            final(fs)@.dirs == old(fs)@.dirs,
            r is Ok,
            final(fs)@.files.contains_key(project_md_path(self.root@)),
            final(fs)@.files == old(fs)@.files.remove(
                temp_path_seq(project_md_path(self.root@), old(fs)@.pid),
            ).insert(
                project_md_path(self.root@),
                spec_serialize(project.meta@, save_body(old(fs)@.files, self.root@)),
            ),
    {
        let body: Vec<u8> = match self.read_project_md(fs) {
            Ok((_m, b)) => {
                if b.len() == 0 {
                    default_project_body_bytes()
                } else {
                    b
                }
            },
            Err(_) => default_project_body_bytes(),
        };
        proof {
            assert(body@ == save_body(fs@.files, self.root@));
            if fs@.files.contains_key(project_md_path(self.root@)) {
                crate::codec::lemma_parse_body_len(fs@.files[project_md_path(self.root@)]);
            }
        }
        self.write_project_md(fs, &project.meta, body.as_slice());
        Ok(())
    }
}

/// The body that a metadata save writes back: the current body of
/// `project.md`, or the default body when there is none.
pub open spec fn save_body(m: Map<Seq<u8>, Seq<u8>>, root: Seq<u8>) -> Seq<u8> {
    if m.contains_key(project_md_path(root)) {
        let (sm, sb) = spec_parse_front_matter(m[project_md_path(root)]);
        if sb.len() == 0 {
            default_project_body()
        } else {
            sb
        }
    } else {
        default_project_body()
    }
}

/// The base name of a root is no longer than the root, or the fallback.
proof fn lemma_base_name_len(root: Seq<u8>)
    ensures
        base_name(root).len() <= root.len() + 8,
{
    reveal_strlit("Untitled");
    lemma_last_slash_bounds(root);
}

proof fn lemma_last_slash_bounds(root: Seq<u8>)
    ensures
        match last_slash(root) {
            Some(i) => 0 <= i < root.len(),
            None => true,
        },
    decreases root.len(),
{
    if root.len() > 0 && root.last() != 47 {
        lemma_last_slash_bounds(root.drop_last());
    }
}

/// When the chapters directory holds no markdown file, the layout pass
/// seeds the first chapter.
proof fn lemma_layout_seeds_chapter(m0: Map<Seq<u8>, Seq<u8>>, root: Seq<u8>, pid: u64)
    requires
        !has_md(m0, join_seq(root, ascii_seq("chapters"@))),
    ensures
        layout_files(m0, root, pid).contains_key(
            join_seq(join_seq(root, ascii_seq("chapters"@)), first_chapter_name()),
        ),
        layout_files(m0, root, pid)[join_seq(
            join_seq(root, ascii_seq("chapters"@)),
            first_chapter_name(),
        )] == default_chapter_md(),
{
    reveal_strlit("chapters");
    reveal_strlit("characters");
    reveal_strlit("world");
    reveal_strlit("timeline");
    reveal_strlit("timeline.md");
    let chd = join_seq(root, ascii_seq("chapters"@));
    let p = join_seq(chd, first_chapter_name());
    let m1 = seed_step(m0, chd, first_chapter_name(), default_chapter_md(), pid);
    assert(m1.contains_key(p) && m1[p] == default_chapter_md());
    let ccd = join_seq(root, ascii_seq("characters"@));
    let wd = join_seq(root, ascii_seq("world"@));
    let td = join_seq(root, ascii_seq("timeline"@));
    crate::fs::lemma_join_parts(chd, first_chapter_name());
    assert(crate::fs::is_child(p, chd)) by {
        assert(crate::fs::no_slash(first_chapter_name()));
    }
    assert(ccd != chd) by {
        if ccd == chd {
            crate::fs::lemma_join_inj(root, ascii_seq("characters"@), ascii_seq("chapters"@));
        }
    }
    assert(wd != chd) by {
        if wd == chd {
            crate::fs::lemma_join_inj(root, ascii_seq("world"@), ascii_seq("chapters"@));
        }
    }
    assert(td != chd) by {
        if td == chd {
            crate::fs::lemma_join_inj(root, ascii_seq("timeline"@), ascii_seq("chapters"@));
            assert(ascii_seq("timeline"@)[0] == 116);
            assert(ascii_seq("chapters"@)[0] == 99);
        }
    }
    lemma_other_seed_keeps(m1, ccd, first_character_name(), default_character_md(), pid, p, chd);
    let m2 = seed_step(m1, ccd, first_character_name(), default_character_md(), pid);
    lemma_other_seed_keeps(m2, wd, first_world_name(), default_world_md(), pid, p, chd);
    let m3 = seed_step(m2, wd, first_world_name(), default_world_md(), pid);
    let tpath = join_seq(td, ascii_seq("timeline.md"@));
    assert(tpath != p) by {
        crate::fs::lemma_join_parts(td, ascii_seq("timeline.md"@));
        if tpath == p {
            assert(crate::fs::is_child(tpath, td)) by {
                assert(crate::fs::no_slash(ascii_seq("timeline.md"@)));
            }
            crate::storage::lemma_child_dir_unique(p, td, chd);
        }
    }
    assert(temp_path_seq(tpath, pid) != p) by {
        if temp_path_seq(tpath, pid) == p {
            lemma_temp_of_child_is_child(td, ascii_seq("timeline.md"@), pid);
            crate::storage::lemma_child_dir_unique(p, td, chd);
        }
    }
}

/// Seeding a different category keeps the chapter seed untouched.
proof fn lemma_other_seed_keeps(
    m: Map<Seq<u8>, Seq<u8>>,
    dir: Seq<u8>,
    name: Seq<u8>,
    contents: Seq<u8>,
    pid: u64,
    p: Seq<u8>,
    chd: Seq<u8>,
)
    requires
        m.contains_key(p),
        crate::fs::is_child(p, chd),
        dir != chd,
        crate::fs::no_slash(name),
        name.len() > 0,
    ensures
        seed_step(m, dir, name, contents, pid).contains_key(p),
        seed_step(m, dir, name, contents, pid)[p] == m[p],
{
    if !has_md(m, dir) {
        let q = join_seq(dir, name);
        crate::fs::lemma_join_parts(dir, name);
        assert(q != p) by {
            if q == p {
                assert(crate::fs::is_child(q, dir));
                crate::storage::lemma_child_dir_unique(p, dir, chd);
            }
        }
        assert(temp_path_seq(q, pid) != p) by {
            if temp_path_seq(q, pid) == p {
                lemma_temp_of_child_is_child(dir, name, pid);
                crate::storage::lemma_child_dir_unique(p, dir, chd);
            }
        }
    }
}

/// The staging path of a direct child is itself a direct child of the
/// same directory.
proof fn lemma_temp_of_child_is_child(dir: Seq<u8>, name: Seq<u8>, pid: u64)
    requires
        crate::fs::no_slash(name),
        name.len() > 0,
    ensures
        crate::fs::is_child(temp_path_seq(join_seq(dir, name), pid), dir),
{
    reveal_strlit(".tmp.");
    crate::num::lemma_dec_digits(pid as nat);
    let q = join_seq(dir, name);
    let t = temp_path_seq(q, pid);
    let nm = name + crate::storage::tmp_marker() + crate::num::dec_digits(pid as nat);
    assert(t =~= join_seq(dir, nm));
    crate::fs::lemma_join_parts(dir, nm);
    assert(crate::fs::no_slash(nm)) by {
        assert forall|i: int| 0 <= i < nm.len() implies nm[i] != 47 by {
            if i < name.len() {
                assert(nm[i] == name[i]);
            } else if i < name.len() + 5 {
                assert(nm[i] == crate::storage::tmp_marker()[i - name.len()]);
                assert(crate::storage::tmp_marker().len() == 5);
            } else {
                assert(nm[i] == crate::num::dec_digits(pid as nat)[i - name.len() - 5]);
                assert(crate::text::spec_is_digit(nm[i]));
            }
        }
    }
    assert(crate::fs::is_child(t, dir));
}

/// The chapter seed is neither `project.md` nor its staging path, so
/// writing fresh project metadata keeps the seed.
proof fn lemma_chapter_seed_not_project_md(root: Seq<u8>, pid: u64)
    ensures
        join_seq(join_seq(root, ascii_seq("chapters"@)), first_chapter_name())
            != project_md_path(root),
        join_seq(join_seq(root, ascii_seq("chapters"@)), first_chapter_name())
            != temp_path_seq(project_md_path(root), pid),
{
    reveal_strlit("project.md");
    reveal_strlit("chapters");
    let chd = join_seq(root, ascii_seq("chapters"@));
    let p = join_seq(chd, first_chapter_name());
    crate::fs::lemma_join_parts(chd, first_chapter_name());
    crate::fs::lemma_join_parts(root, ascii_seq("project.md"@));
    assert(crate::fs::is_child(p, chd)) by {
        assert(crate::fs::no_slash(first_chapter_name()));
    }
    assert(chd != root) by {
        crate::fs::lemma_join_parts(root, ascii_seq("chapters"@));
    }
    if p == project_md_path(root) {
        assert(crate::fs::is_child(project_md_path(root), root)) by {
            assert(crate::fs::no_slash(ascii_seq("project.md"@)));
        }
        crate::storage::lemma_child_dir_unique(p, chd, root);
    }
    if p == temp_path_seq(project_md_path(root), pid) {
        lemma_temp_of_child_is_child(root, ascii_seq("project.md"@), pid);
        crate::storage::lemma_child_dir_unique(p, chd, root);
    }
}

/// `project.md` is none of the layout pass's seed paths or their
/// staging paths, so the pass never creates it.
proof fn lemma_layout_no_project_md(m0: Map<Seq<u8>, Seq<u8>>, root: Seq<u8>, pid: u64)
    ensures
        layout_files(m0, root, pid).contains_key(project_md_path(root)) ==> m0.contains_key(
            project_md_path(root),
        ),
        layout_files(m0, root, pid).contains_key(project_md_path(root))
            ==> layout_files(m0, root, pid)[project_md_path(root)] == m0[project_md_path(
            root,
        )],
{
    reveal_strlit("project.md");
    reveal_strlit("chapters");
    reveal_strlit("characters");
    reveal_strlit("world");
    reveal_strlit("timeline");
    reveal_strlit("timeline.md");
    let pmd = project_md_path(root);
    crate::fs::lemma_join_parts(root, ascii_seq("project.md"@));
    assert(crate::fs::is_child(pmd, root)) by {
        assert(crate::fs::no_slash(ascii_seq("project.md"@)));
    }
    lemma_seed_path_not(root, ascii_seq("chapters"@), first_chapter_name(), pid, pmd);
    lemma_seed_path_not(root, ascii_seq("characters"@), first_character_name(), pid, pmd);
    lemma_seed_path_not(root, ascii_seq("world"@), first_world_name(), pid, pmd);
    lemma_seed_path_not(root, ascii_seq("timeline"@), ascii_seq("timeline.md"@), pid, pmd);
}

/// A category seed path and its staging path differ from a direct
/// child of the root.
proof fn lemma_seed_path_not(
    root: Seq<u8>,
    dname: Seq<u8>,
    name: Seq<u8>,
    pid: u64,
    pmd: Seq<u8>,
)
    requires
        crate::fs::is_child(pmd, root),
        crate::fs::no_slash(name),
        name.len() > 0,
        dname.len() > 0,
        crate::fs::no_slash(dname),
    ensures
        join_seq(join_seq(root, dname), name) != pmd,
        temp_path_seq(join_seq(join_seq(root, dname), name), pid) != pmd,
{
    let d = join_seq(root, dname);
    let q = join_seq(d, name);
    crate::fs::lemma_join_parts(d, name);
    crate::fs::lemma_join_parts(root, dname);
    assert(d != root) by {
        assert(d.len() == root.len() + 1 + dname.len());
    }
    if q == pmd {
        assert(crate::fs::is_child(q, d));
        crate::storage::lemma_child_dir_unique(pmd, d, root);
    }
    if temp_path_seq(q, pid) == pmd {
        lemma_temp_of_child_is_child(d, name, pid);
        crate::storage::lemma_child_dir_unique(pmd, d, root);
    }
}

/// The default title of a new chapter (UTF-8 bytes of the
/// localized label).
pub open spec fn new_chapter_title() -> Seq<u8> {
    seq![230u8, 150u8, 176u8, 229u8, 187u8, 186u8, 231u8, 171u8, 160u8, 232u8, 138u8, 130u8]
}

fn new_chapter_title_bytes() -> (r: Vec<u8>)
    ensures
        r@ == new_chapter_title(),
        r@.len() == 12,
{
    let mut r: Vec<u8> = Vec::new();
    r.push(230);
    r.push(150);
    r.push(176);
    r.push(229);
    r.push(187);
    r.push(186);
    r.push(231);
    r.push(171);
    r.push(160);
    r.push(232);
    r.push(138);
    r.push(130);
    proof {
        assert(r@ =~= new_chapter_title());
    }
    r
}

/// The default title of a new character (UTF-8 bytes of the
/// localized label).
pub open spec fn new_character_title() -> Seq<u8> {
    seq![230u8, 150u8, 176u8, 229u8, 187u8, 186u8, 232u8, 167u8, 146u8, 232u8, 137u8, 178u8]
}

fn new_character_title_bytes() -> (r: Vec<u8>)
    ensures
        r@ == new_character_title(),
        r@.len() == 12,
{
    let mut r: Vec<u8> = Vec::new();
    r.push(230);
    r.push(150);
    r.push(176);
    r.push(229);
    r.push(187);
    r.push(186);
    r.push(232);
    r.push(167);
    r.push(146);
    r.push(232);
    r.push(137);
    r.push(178);
    proof {
        assert(r@ =~= new_character_title());
    }
    r
}

/// The default title of a new world item (UTF-8 bytes of the
/// localized label).
pub open spec fn new_world_item_title() -> Seq<u8> {
    seq![230u8, 150u8, 176u8, 229u8, 187u8, 186u8, 232u8, 174u8, 190u8, 229u8, 174u8, 154u8]
}

fn new_world_item_title_bytes() -> (r: Vec<u8>)
    ensures
        r@ == new_world_item_title(),
        r@.len() == 12,
{
    let mut r: Vec<u8> = Vec::new();
    r.push(230);
    r.push(150);
    r.push(176);
    r.push(229);
    r.push(187);
    r.push(186);
    r.push(232);
    r.push(174);
    r.push(190);
    r.push(229);
    r.push(174);
    r.push(154);
    proof {
        assert(r@ =~= new_world_item_title());
    }
    r
}

/// The default title of a new timeline item (UTF-8 bytes of the
/// localized label).
pub open spec fn new_timeline_item_title() -> Seq<u8> {
    seq![230u8, 150u8, 176u8, 229u8, 187u8, 186u8, 230u8, 151u8, 182u8, 233u8, 151u8, 180u8, 231u8, 186u8, 191u8, 230u8, 157u8, 161u8, 231u8, 155u8, 174u8]
}

fn new_timeline_item_title_bytes() -> (r: Vec<u8>)
    ensures
        r@ == new_timeline_item_title(),
        r@.len() == 21,
{
    let mut r: Vec<u8> = Vec::new();
    r.push(230);
    r.push(150);
    r.push(176);
    r.push(229);
    r.push(187);
    r.push(186);
    r.push(230);
    r.push(151);
    r.push(182);
    r.push(233);
    r.push(151);
    r.push(180);
    r.push(231);
    r.push(186);
    r.push(191);
    r.push(230);
    r.push(157);
    r.push(161);
    r.push(231);
    r.push(155);
    r.push(174);
    proof {
        assert(r@ =~= new_timeline_item_title());
    }
    r
}

/// The default title of a new item in a category.
pub open spec fn section_new_title(s: Section) -> Seq<u8> {
    match s {
        Section::Chapters => new_chapter_title(),
        Section::Characters => new_character_title(),
        Section::World => new_world_item_title(),
        Section::Timeline => new_timeline_item_title(),
    }
}

fn section_new_title_bytes(s: Section) -> (r: Vec<u8>)
    ensures
        r@ == section_new_title(s),
        r@.len() <= 21,
{
    match s {
        Section::Chapters => new_chapter_title_bytes(),
        Section::Characters => new_character_title_bytes(),
        Section::World => new_world_item_title_bytes(),
        Section::Timeline => new_timeline_item_title_bytes(),
    }
}

/// The template a new document starts from: a front-matter block with
/// the format version, then a heading carrying the title.
pub open spec fn new_item_template(title: Seq<u8>) -> Seq<u8> {
    ascii_seq("---\nformat_version: 1\n---\n\n# "@) + title + ascii_seq("\n\n"@)
}

fn new_item_template_bytes(title: &[u8]) -> (r: Vec<u8>)
    requires
        title@.len() + 64 <= usize::MAX,
    ensures
        r@ == new_item_template(title@),
{
    proof {
        reveal_strlit("---\nformat_version: 1\n---\n\n# ");
        reveal_strlit("\n\n");
    }
    let mut r = ascii_bytes("---\nformat_version: 1\n---\n\n# ");
    crate::text::push_all(&mut r, title);
    let tail = ascii_bytes("\n\n");
    crate::text::push_all(&mut r, tail.as_slice());
    r
}

/// The ordinal value encoded by the first four bytes of a chapter
/// name, when they are digits.
pub open spec fn ord_prefix_val(name: Seq<u8>) -> Option<nat> {
    if name.len() >= 4 && crate::num::all_digits(name.take(4)) {
        Some(crate::num::dec_val(name.take(4)))
    } else {
        None
    }
}

/// The greatest ordinal prefix among the listed names.
pub open spec fn max_ord(names: Seq<Seq<u8>>) -> nat
    decreases names.len(),
{
    if names.len() == 0 {
        0
    } else {
        let rest = max_ord(names.drop_last());
        match ord_prefix_val(names.last()) {
            Some(v) => if v > rest {
                v
            } else {
                rest
            },
            None => rest,
        }
    }
}

/// The ordinal the next new chapter receives.
#[verifier::rlimit(60)]
pub fn next_chapter_ordinal(names: &Vec<Vec<u8>>) -> (r: u64)
    ensures
        r as nat == 1 + max_ord(crate::reorder::names_view(names@)),
        r >= 1,
{
    let ghost nv = crate::reorder::names_view(names@);
    let mut best: u64 = 0;
    let mut i: usize = 0;
    while i < names.len()
        invariant
            nv == crate::reorder::names_view(names@),
            i <= names@.len(),
            best as nat == max_ord(nv.take(i as int)),
            best <= 9999,
        decreases names@.len() - i,
    {
        proof {
            assert(nv.take(i + 1).drop_last() =~= nv.take(i as int));
            assert(nv.take(i + 1).last() == names@[i as int]@);
        }
        match crate::num::parse_pad4(names[i].as_slice()) {
            Some(v) => {
                proof {
                    crate::num::lemma_pad4_of_val(names@[i as int]@.take(4));
                    assert(ord_prefix_val(nv.take(i + 1).last()) == Some(
                        crate::num::dec_val(names@[i as int]@.take(4)),
                    ));
                }
                if (v as u64) > best {
                    best = v as u64;
                }
            },
            None => {
                proof {
                    assert(ord_prefix_val(nv.take(i + 1).last()) is None);
                }
            },
        }
        i = i + 1;
    }
    proof {
        assert(nv.take(i as int) =~= nv);
    }
    best + 1
}

/// The file name a new chapter of ordinal `n` and title `title` gets.
pub open spec fn chapter_file_name(n: nat, title: Seq<u8>) -> Seq<u8> {
    (if n < 10000 {
        crate::num::pad4(n)
    } else {
        crate::num::dec_digits(n)
    }) + seq![45u8] + title + ascii_seq(".md"@)
}

fn chapter_file_name_bytes(n: u64, title: &[u8]) -> (r: Vec<u8>)
    requires
        title@.len() + 64 <= usize::MAX,
    ensures
        r@ == chapter_file_name(n as nat, title@),
        r@.len() <= title@.len() + 24,
{
    proof {
        reveal_strlit(".md");
        crate::storage::lemma_dec_digits_len_u64(n);
    }
    let mut r: Vec<u8> = if n < 10000 {
        crate::num::ordinal4(n as u32)
    } else {
        crate::num::u64_to_dec(n)
    };
    r.push(45);
    crate::text::push_all(&mut r, title);
    let md = ascii_bytes(".md");
    crate::text::push_all(&mut r, md.as_slice());
    r
}

/// The plain file name a new non-chapter item gets.
pub open spec fn plain_file_name(title: Seq<u8>) -> Seq<u8> {
    title + ascii_seq(".md"@)
}

fn plain_file_name_bytes(title: &[u8]) -> (r: Vec<u8>)
    requires
        title@.len() + 64 <= usize::MAX,
    ensures
        r@ == plain_file_name(title@),
        r@.len() <= title@.len() + 3,
{
    proof {
        reveal_strlit(".md");
    }
    let mut r = slice_to_vec(title);
    let md = ascii_bytes(".md");
    crate::text::push_all(&mut r, md.as_slice());
    r
}

/// Creates a new document in the given category, under a name that
/// collides with nothing there, and records the reversible command.
/// Returns the path of the new document.
pub fn create_new_item(
    fs: &mut Fs,
    log: &mut crate::command::CommandLog,
    root: &[u8],
    section: Section,
) -> (r: Vec<u8>)
    requires
        old(fs).wf(),
        old(log).wf(),
        root@.len() + 128 <= usize::MAX,
    ensures
        final(fs).wf(),
        final(log).wf(),
        final(fs)@.pid == old(fs)@.pid,
        final(fs)@.dirs == old(fs)@.dirs,
        final(fs)@.files == crate::command::apply_spec(
            old(fs)@.files,
            crate::command::CmdView::Create {
                path: r@,
                contents: new_item_template(section_new_title(section)),
            },
            old(fs)@.pid,
        ),
        final(log)@.undo == old(log)@.undo.push(
            crate::command::CmdView::Create {
                path: r@,
                contents: new_item_template(section_new_title(section)),
            },
        ),
        final(log)@.redo.len() == 0,
        ({
            let dir = join_seq(root@, section_dir_name(section));
            let cand = if section == Section::Chapters {
                chapter_file_name(
                    1 + max_ord(crate::index::md_listing(old(fs)@.files, dir)),
                    section_new_title(section),
                )
            } else {
                plain_file_name(section_new_title(section))
            };
            r@ == join_seq(
                dir,
                crate::index::unique_name_spec(old(fs)@.files, dir, cand, 0),
            )
        }),
{
    let dir_name = section_dir_bytes(section);
    let dir = join_path(root, dir_name.as_slice());
    let title = section_new_title_bytes(section);
    let fname: Vec<u8> = match section {
        Section::Chapters => {
            let names = crate::index::list_markdown_files(fs, dir.as_slice());
            let n = next_chapter_ordinal(&names);
            proof {
                assert(crate::reorder::names_view(names@) =~= names@.map_values(
                    |v: Vec<u8>| v@,
                ));
                assert(n as nat == 1 + max_ord(
                    crate::index::md_listing(old(fs)@.files, dir@),
                ));
            }
            chapter_file_name_bytes(n, title.as_slice())
        },
        _ => plain_file_name_bytes(title.as_slice()),
    };
    let unique = crate::index::unique_file_name(fs, dir.as_slice(), fname.as_slice());
    let path = join_path(dir.as_slice(), unique.as_slice());
    let contents = new_item_template_bytes(title.as_slice());
    let cmd = crate::command::Command::CreateFile { path: slice_to_vec(path.as_slice()), contents };
    let res = log.apply_command(fs, cmd);
    proof {
        assert(res is Ok);
    }
    path
}

/// Deletes the document at `path`, capturing its contents so the
/// command can restore it, and records the reversible command.
pub fn delete_item(
    fs: &mut Fs,
    log: &mut crate::command::CommandLog,
    path: &[u8],
) -> (r: Result<(), FsError>)
    requires
        old(fs).wf(),
        old(log).wf(),
        path@.len() + 25 <= usize::MAX,
    ensures
        final(fs).wf(),
        final(log).wf(),
        final(fs)@.pid == old(fs)@.pid,
        final(fs)@.dirs == old(fs)@.dirs,
        r is Ok <==> old(fs)@.files.contains_key(path@),
        r is Ok ==> final(fs)@.files == old(fs)@.files.remove(path@) && final(log)@.undo
            == old(log)@.undo.push(
            crate::command::CmdView::Delete {
                path: path@,
                contents: old(fs)@.files[path@],
            },
        ) && final(log)@.redo.len() == 0,
        r is Err ==> final(fs)@ == old(fs)@ && final(log)@ == old(log)@,
{
    let contents = match fs.read_file(path) {
        Some(c) => c,
        None => {
            return Err(FsError::NotFound);
        },
    };
    let cmd = crate::command::Command::DeleteFile { path: slice_to_vec(path), contents };
    let res = log.apply_command(fs, cmd);
    proof {
        assert(res is Ok);
    }
    Ok(())
}

/// The name a rename settles on: chapters keep their ordinal prefix,
/// the proposed title is sanitized, and collisions are avoided.
pub open spec fn rename_file_name(
    m: Map<Seq<u8>, Seq<u8>>,
    dir: Seq<u8>,
    from_name: Seq<u8>,
    new_name: Seq<u8>,
    chapters: bool,
) -> Seq<u8> {
    let prefix = if chapters && from_name.len() >= 5 && from_name[4] == 45
        && crate::num::all_digits(from_name.take(4)) {
        from_name.take(5)
    } else {
        Seq::<u8>::empty()
    };
    let base0 = crate::index::sanitize_spec(new_name);
    let base = if chapters && crate::text::is_suffix(ascii_seq(".md"@), base0) {
        base0.take(base0.len() - 3)
    } else {
        base0
    };
    crate::index::unique_name_spec(m, dir, prefix + base + ascii_seq(".md"@), 0)
}

/// Renames the document `from_name` in `dir` to carry the proposed
/// title, and records the reversible command. A proposal that settles
/// on the same name is a quiet no-op.
pub fn commit_rename(
    fs: &mut Fs,
    log: &mut crate::command::CommandLog,
    root: &[u8],
    section: Section,
    from_name: &[u8],
    new_name: &[u8],
) -> (r: Result<bool, FsError>)
    requires
        old(fs).wf(),
        old(log).wf(),
        root@.len() + new_name@.len() + from_name@.len() + 128 <= usize::MAX,
    ensures
        final(fs).wf(),
        final(log).wf(),
        final(fs)@.pid == old(fs)@.pid,
        final(fs)@.dirs == old(fs)@.dirs,
        ({
            let dir = join_seq(root@, section_dir_name(section));
            let to_name = rename_file_name(
                old(fs)@.files,
                dir,
                from_name@,
                new_name@,
                section == Section::Chapters,
            );
            let from = join_seq(dir, from_name@);
            let to = join_seq(dir, to_name);
            &&& (from == to ==> r == Ok::<bool, FsError>(false) && final(fs)@ == old(fs)@
                && final(log)@ == old(log)@)
            &&& (from != to ==> (r is Ok <==> old(fs)@.files.contains_key(from) && !old(
                fs,
            )@.files.contains_key(to)))
            &&& (from != to && r is Ok ==> r == Ok::<bool, FsError>(true) && final(fs)@.files == old(fs)@.files.remove(from).insert(to, old(fs)@.files[from])
                && final(log)@.undo == old(log)@.undo.push(
                crate::command::CmdView::Rename { from, to },
            ) && final(log)@.redo.len() == 0)
            &&& (r is Err ==> final(fs)@ == old(fs)@ && final(log)@ == old(log)@)
        }),
{
    let dir_name = section_dir_bytes(section);
    let dir = join_path(root, dir_name.as_slice());
    let is_ch = matches!(section, Section::Chapters);
    let prefix: Vec<u8> = if is_ch && from_name.len() >= 5 && from_name[4] == 45
        && is_digit_at(from_name, 0) && is_digit_at(from_name, 1) && is_digit_at(from_name, 2)
        && is_digit_at(from_name, 3) {
        proof {
            assert(crate::num::all_digits(from_name@.take(4))) by {
                assert(forall|q: int| 0 <= q < 4 ==> from_name@.take(4)[q] == from_name@[q]);
            }
        }
        let p = slice_to_vec(vstd::slice::slice_subrange(from_name, 0, 5));
        proof {
            assert(p@ =~= from_name@.take(5));
        }
        p
    } else {
        proof {
            if is_ch && from_name@.len() >= 5 && from_name@[4] == 45 && crate::num::all_digits(
                from_name@.take(4),
            ) {
                assert(from_name@.take(4)[0] == from_name@[0]);
                assert(from_name@.take(4)[1] == from_name@[1]);
                assert(from_name@.take(4)[2] == from_name@[2]);
                assert(from_name@.take(4)[3] == from_name@[3]);
            }
        }
        Vec::new()
    };
    let base0 = crate::index::sanitize_filename(new_name);
    proof {
        reveal_strlit(".md");
        crate::index::lemma_sanitize_no_slash(new_name@);
    }
    let md = ascii_bytes(".md");
    let base: Vec<u8> = if is_ch && crate::text::ends_with(base0.as_slice(), md.as_slice()) {
        let b = slice_to_vec(
            vstd::slice::slice_subrange(base0.as_slice(), 0, base0.len() - 3),
        );
        proof {
            assert(b@ =~= base0@.take(base0@.len() - 3));
        }
        b
    } else {
        b_keep(base0)
    };
    let mut fname = prefix;
    crate::text::push_all(&mut fname, base.as_slice());
    crate::text::push_all(&mut fname, md.as_slice());
    let unique = crate::index::unique_file_name(fs, dir.as_slice(), fname.as_slice());
    let from_path = join_path(dir.as_slice(), from_name);
    let to_path = join_path(dir.as_slice(), unique.as_slice());
    proof {
        assert(unique@ == rename_file_name(
            fs@.files,
            dir@,
            from_name@,
            new_name@,
            section == Section::Chapters,
        ));
    }
    if crate::text::bytes_eq(from_path.as_slice(), to_path.as_slice()) {
        return Ok(false);
    }
    let cmd = crate::command::Command::RenameFile {
        from: slice_to_vec(from_path.as_slice()),
        to: slice_to_vec(to_path.as_slice()),
    };
    match log.apply_command(fs, cmd) {
        Ok(_) => Ok(true),
        Err(e) => {
            proof {
                if old(fs)@.files.contains_key(from_path@) && !old(fs)@.files.contains_key(
                    to_path@,
                ) {
                    assert(false);
                }
            }
            Err(e)
        },
    }
}

/// Keeps a name unchanged (identity on the byte vector).
fn b_keep(v: Vec<u8>) -> (r: Vec<u8>)
    ensures
        r@ == v@,
{
    v
}

/// True when byte `q` of `s` is a decimal digit.
fn is_digit_at(s: &[u8], q: usize) -> (r: bool)
    requires
        q < s@.len(),
    ensures
        r == crate::text::spec_is_digit(s@[q as int]),
{
    48 <= s[q] && s[q] <= 57
}


/// The chapters directory of a project root.
pub open spec fn chapters_dir(root: Seq<u8>) -> Seq<u8> {
    join_seq(root, ascii_seq("chapters"@))
}

/// The degenerate reorder inputs, rejected before any rename: moving
/// onto the same position, an index beyond the listing, more chapters
/// than the four-digit ordinals can number, or a name beyond the
/// machine bound.
pub open spec fn reorder_degenerate(
    m: Map<Seq<u8>, Seq<u8>>,
    root: Seq<u8>,
    src: int,
    dst: int,
) -> bool {
    let dir = chapters_dir(root);
    let l = crate::index::md_listing(m, dir);
    ||| src == dst
    ||| src >= l.len()
    ||| dst >= l.len()
    ||| l.len() > 9999
    ||| exists|i: int|
        0 <= i < l.len() && dir.len() + (#[trigger] l[i]).len() + 80 > usize::MAX
}

/// The rename plan that moves position `src` of the chapter listing to
/// position `dst`: every sibling is renamed to its new ordinal name.
pub open spec fn chapter_plan(m: Map<Seq<u8>, Seq<u8>>, root: Seq<u8>, src: int, dst: int) -> Seq<
    (Seq<u8>, Seq<u8>),
> {
    let dir = chapters_dir(root);
    let order = crate::reorder::move_elem(crate::index::md_listing(m, dir), src, dst);
    Seq::new(
        order.len(),
        |i: int|
            (
                join_seq(dir, order[i]),
                join_seq(dir, crate::reorder::chapter_target_name(order[i], i)),
            ),
    )
}

/// Moves the chapter at listing position `src` to position `dst` by
/// the crash-safe two-phase rename, renumbering every sibling, and
/// records the reversible command. Returns the executed plan.
pub fn reorder_chapters(
    fs: &mut Fs,
    log: &mut crate::command::CommandLog,
    root: &[u8],
    src: usize,
    dst: usize,
) -> (r: Result<Option<Vec<(Vec<u8>, Vec<u8>)>>, FsError>)
    requires
        old(fs).wf(),
        old(log).wf(),
        root@.len() + 128 <= usize::MAX,
    ensures
        final(fs).wf(),
        final(log).wf(),
        final(fs)@.pid == old(fs)@.pid,
        final(fs)@.dirs == old(fs)@.dirs,
        r == Ok::<Option<Vec<(Vec<u8>, Vec<u8>)>>, FsError>(None) <==> reorder_degenerate(
            old(fs)@.files,
            root@,
            src as int,
            dst as int,
        ),
        r == Ok::<Option<Vec<(Vec<u8>, Vec<u8>)>>, FsError>(None) ==> final(fs)@ == old(
            fs,
        )@ && final(log)@ == old(log)@,
        !reorder_degenerate(old(fs)@.files, root@, src as int, dst as int) ==> (r is Err
            <==> !crate::reorder::reorder_ok(
            old(fs)@.files,
            chapter_plan(old(fs)@.files, root@, src as int, dst as int),
            old(fs)@.pid,
        )),
        r matches Ok(Some(pairs)) ==> crate::reorder::pairs_view(pairs@) == chapter_plan(
            old(fs)@.files,
            root@,
            src as int,
            dst as int,
        ) && final(fs)@.files == crate::reorder::reorder_map(
            old(fs)@.files,
            chapter_plan(old(fs)@.files, root@, src as int, dst as int),
            old(fs)@.pid,
        ) && final(log)@.undo == old(log)@.undo.push(
            crate::command::CmdView::Reorder {
                pairs: chapter_plan(old(fs)@.files, root@, src as int, dst as int),
            },
        ) && final(log)@.redo.len() == 0,
        r is Err ==> final(fs)@ == old(fs)@ && final(log)@ == old(log)@,
{
    let dir_name = section_dir_bytes(Section::Chapters);
    let dir = join_path(root, dir_name.as_slice());
    let names = crate::index::list_markdown_files(fs, dir.as_slice());
    let ghost lv = crate::index::md_listing(old(fs)@.files, chapters_dir(root@));
    proof {
        assert(dir@ == chapters_dir(root@));
        assert(names@.map_values(|v: Vec<u8>| v@) == lv);
        assert(forall|i: int| 0 <= i < names@.len() ==> #[trigger] names@[i]@ == lv[i]);
        assert(names@.len() == lv.len());
    }
    if src == dst || src >= names.len() || dst >= names.len() || names.len() > 9999 {
        return Ok(None);
    }
    let limit: usize = usize::MAX - 80 - dir.len();
    let mut c: usize = 0;
    while c < names.len()
        invariant
            fs.wf(),
            log.wf(),
            fs@ == old(fs)@,
            log@ == old(log)@,
            dir@ == chapters_dir(root@),
            lv == crate::index::md_listing(old(fs)@.files, chapters_dir(root@)),
            forall|i: int| 0 <= i < names@.len() ==> #[trigger] names@[i]@ == lv[i],
            names@.len() == lv.len(),
            src < names@.len(),
            dst < names@.len(),
            src != dst,
            names@.len() <= 9999,
            c <= names@.len(),
            dir@.len() + 80 <= usize::MAX,
            limit == usize::MAX - 80 - dir@.len(),
            forall|i: int|
                0 <= i < c ==> dir@.len() + (#[trigger] names@[i]@).len() + 80
                    <= usize::MAX,
        decreases names@.len() - c,
    {
        if names[c].len() > limit {
            proof {
                assert(dir@.len() + names@[c as int]@.len() + 80 > usize::MAX);
                assert(reorder_degenerate(old(fs)@.files, root@, src as int, dst as int));
            }
            return Ok(None);
        }
        c = c + 1;
    }
    proof {
        assert(!reorder_degenerate(old(fs)@.files, root@, src as int, dst as int));
    }
    let pairs = crate::reorder::build_reorder_plan(dir.as_slice(), &names, src, dst);
    let kept = clone_pairs(&pairs);
    let cmd = crate::command::Command::ReorderChapters { pairs };
    proof {
        assert(crate::reorder::pairs_view(kept@) == chapter_plan(
            old(fs)@.files,
            root@,
            src as int,
            dst as int,
        )) by {
            let cp = chapter_plan(old(fs)@.files, root@, src as int, dst as int);
            let nv = crate::reorder::names_view(names@);
            assert(nv =~= lv);
            assert forall|i: int|
                0 <= i < cp.len() implies #[trigger] crate::reorder::pairs_view(kept@)[i]
                == cp[i] by {
                assert(crate::reorder::pairs_view(kept@)[i] == crate::reorder::pairs_view(
                    pairs@,
                )[i]);
            }
            assert(crate::reorder::pairs_view(kept@) =~= cp);
        }
        assert(crate::command::cmd_fits(cmd@)) by {
            assert forall|i: int|
                0 <= i < crate::reorder::pairs_view(kept@).len() implies (
            #[trigger] crate::reorder::pairs_view(kept@)[i]).0.len() + 60 <= usize::MAX && (
            crate::reorder::pairs_view(kept@)[i]).1.len() + 60 <= usize::MAX by {
                lemma_plan_entry_lens(kept@, i);
            }
        }
    }
    match log.apply_command(fs, cmd) {
        Ok(_) => Ok(Some(kept)),
        Err(e) => Err(e),
    }
}

/// Length bounds on a plan entry follow from it being a pair of vectors.
proof fn lemma_plan_entry_lens(s: Seq<(Vec<u8>, Vec<u8>)>, i: int)
    requires
        0 <= i < s.len(),
    ensures
        crate::reorder::pairs_view(s)[i].0 == s[i].0@,
        crate::reorder::pairs_view(s)[i].1 == s[i].1@,
{
}

/// Copies a rename plan.
fn clone_pairs(pairs: &Vec<(Vec<u8>, Vec<u8>)>) -> (r: Vec<(Vec<u8>, Vec<u8>)>)
    ensures
        crate::reorder::pairs_view(r@) == crate::reorder::pairs_view(pairs@),
{
    let mut r: Vec<(Vec<u8>, Vec<u8>)> = Vec::new();
    let mut i: usize = 0;
    while i < pairs.len()
        invariant
            i <= pairs@.len(),
            r@.len() == i,
            forall|j: int|
                #![trigger r@[j]]
                0 <= j < i ==> r@[j].0@ == pairs@[j].0@ && r@[j].1@ == pairs@[j].1@,
        decreases pairs@.len() - i,
    {
        let p = &pairs[i];
        let ghost prevr = r@;
        r.push((slice_to_vec(p.0.as_slice()), slice_to_vec(p.1.as_slice())));
        proof {
            assert(forall|j: int| 0 <= j < prevr.len() ==> r@[j] == prevr[j]);
            assert(r@[r@.len() - 1].0@ == pairs@[i as int].0@);
            assert(r@[r@.len() - 1].1@ == pairs@[i as int].1@);
        }
        i = i + 1;
    }
    proof {
        assert forall|j: int|
            0 <= j < r@.len() implies #[trigger] crate::reorder::pairs_view(r@)[j]
            == crate::reorder::pairs_view(pairs@)[j] by {
            assert(crate::reorder::pairs_view(r@)[j] == (r@[j].0@, r@[j].1@));
            assert(crate::reorder::pairs_view(pairs@)[j] == (pairs@[j].0@, pairs@[j].1@));
        }
        assert(crate::reorder::pairs_view(r@) =~= crate::reorder::pairs_view(pairs@));
    }
    r
}

/// A direct child whose name carries no artifact marker is never swept.
proof fn lemma_unmarked_child_not_swept(root: Seq<u8>, d: Seq<u8>, name: Seq<u8>)
    requires
        crate::fs::no_slash(name),
        name.len() > 0,
        !crate::text::contains_seq(name, crate::storage::tmp_marker()),
    ensures
        !crate::storage::is_swept(root, join_seq(d, name)),
{
    let p = join_seq(d, name);
    crate::fs::lemma_join_parts(d, name);
    assert(crate::fs::is_child(p, d));
    if crate::storage::is_swept(root, p) {
        let i = choose|i: int|
            0 <= i < 5 && crate::fs::is_child(p, #[trigger] crate::storage::sweep_dir(root, i))
                && crate::text::contains_seq(
                crate::fs::child_name(p, crate::storage::sweep_dir(root, i)),
                crate::storage::tmp_marker(),
            );
        crate::storage::lemma_child_dir_unique(p, crate::storage::sweep_dir(root, i), d);
        assert(crate::fs::child_name(p, d) == name);
    }
}

/// The fixed document names of the store carry no artifact marker and
/// no separator.
proof fn lemma_fixed_names_plain()
    ensures
        plain_unmarked(first_chapter_name()),
        plain_unmarked(first_character_name()),
        plain_unmarked(first_world_name()),
        plain_unmarked(ascii_seq("timeline.md"@)),
        plain_unmarked(ascii_seq("project.md"@)),
{
    reveal_strlit(".tmp.");
    reveal_strlit("timeline.md");
    reveal_strlit("project.md");
    assert(crate::storage::tmp_marker().len() == 5);
    assert(crate::storage::tmp_marker()[0] == 46);
    assert(crate::storage::tmp_marker()[1] == 116);
    lemma_plain_unmarked_of(first_chapter_name());
    lemma_plain_unmarked_of(first_character_name());
    lemma_plain_unmarked_of(first_world_name());
    lemma_plain_unmarked_of(ascii_seq("timeline.md"@));
    lemma_plain_unmarked_of(ascii_seq("project.md"@));
}

/// True when a name has no separator, is nonempty, and carries no
/// artifact marker.
pub open spec fn plain_unmarked(name: Seq<u8>) -> bool {
    crate::fs::no_slash(name) && name.len() > 0 && !crate::text::contains_seq(
        name,
        crate::storage::tmp_marker(),
    )
}

/// A name whose dots are never followed by the letter t has no marker.
proof fn lemma_plain_unmarked_of(name: Seq<u8>)
    requires
        forall|q: int| 0 <= q < name.len() ==> #[trigger] name[q] != 47,
        name.len() > 0,
        forall|q: int| 0 <= q < name.len() - 1 && #[trigger] name[q] == 46 ==> name[q + 1] != 116,
    ensures
        plain_unmarked(name),
{
    reveal_strlit(".tmp.");
    assert(crate::storage::tmp_marker().len() == 5);
    if crate::text::contains_seq(name, crate::storage::tmp_marker()) {
        let w = choose|w: int|
            crate::text::matches_at(name, crate::storage::tmp_marker(), w);
        assert(name.subrange(w, w + 5)[0] == name[w]);
        assert(name.subrange(w, w + 5)[1] == name[w + 1]);
        assert(crate::storage::tmp_marker()[0] == 46);
        assert(crate::storage::tmp_marker()[1] == 116);
    }
}

/// The layout pass keeps every unswept existing file unchanged, and
/// every file it adds is unswept.
#[verifier::rlimit(100)]
proof fn lemma_layout_frame(m: Map<Seq<u8>, Seq<u8>>, root: Seq<u8>, pid: u64)
    ensures
        forall|k: Seq<u8>|
            m.contains_key(k) && !crate::storage::is_swept(root, k) ==> #[trigger]
            layout_files(m, root, pid).contains_key(k) && layout_files(m, root, pid)[k]
                == m[k],
        forall|k: Seq<u8>|
            #[trigger] layout_files(m, root, pid).contains_key(k) && !m.contains_key(k)
                ==> !crate::storage::is_swept(root, k),
{
    reveal_strlit("chapters");
    reveal_strlit("characters");
    reveal_strlit("world");
    reveal_strlit("timeline");
    reveal_strlit("timeline.md");
    lemma_fixed_names_plain();
    lemma_fixed_names_md();
    let chd = join_seq(root, ascii_seq("chapters"@));
    let ccd = join_seq(root, ascii_seq("characters"@));
    let wd = join_seq(root, ascii_seq("world"@));
    let td = join_seq(root, ascii_seq("timeline"@));
    assert(chd == crate::storage::sweep_dir(root, 1));
    assert(ccd == crate::storage::sweep_dir(root, 2));
    assert(wd == crate::storage::sweep_dir(root, 3));
    assert(td == crate::storage::sweep_dir(root, 4));
    let m1 = seed_step(m, chd, first_chapter_name(), default_chapter_md(), pid);
    let m2 = seed_step(m1, ccd, first_character_name(), default_character_md(), pid);
    let m3 = seed_step(m2, wd, first_world_name(), default_world_md(), pid);
    let tpath = join_seq(td, ascii_seq("timeline.md"@));
    crate::fs::lemma_join_parts(td, ascii_seq("timeline.md"@));
    assert(crate::fs::is_child(tpath, td));
    crate::storage::lemma_staged_artifact_swept(root, 4, tpath, pid);
    lemma_unmarked_child_not_swept(root, td, ascii_seq("timeline.md"@));
    let lf = layout_files(m, root, pid);
    assert forall|k: Seq<u8>|
        m.contains_key(k) && !crate::storage::is_swept(root, k) implies #[trigger]
        lf.contains_key(k) && lf[k] == m[k] by {
        lemma_seed_step_frame(m, root, 1, chd, first_chapter_name(), default_chapter_md(), pid, k);
        lemma_seed_step_frame(
            m1,
            root,
            2,
            ccd,
            first_character_name(),
            default_character_md(),
            pid,
            k,
        );
        lemma_seed_step_frame(m2, root, 3, wd, first_world_name(), default_world_md(), pid, k);
        assert(m3.contains_key(k) && m3[k] == m[k]);
        if !m3.contains_key(tpath) {
            assert(k != crate::storage::temp_path_seq(tpath, pid));
            assert(k != tpath);
        }
    }
    assert forall|k: Seq<u8>|
        #[trigger] lf.contains_key(k) && !m.contains_key(k)
            implies !crate::storage::is_swept(root, k) by {
        if m3.contains_key(k) {
            if m2.contains_key(k) {
                if m1.contains_key(k) {
                    lemma_seed_step_new(
                        m,
                        root,
                        1,
                        chd,
                        first_chapter_name(),
                        default_chapter_md(),
                        pid,
                        k,
                    );
                } else {
                    lemma_seed_step_new(
                        m1,
                        root,
                        2,
                        ccd,
                        first_character_name(),
                        default_character_md(),
                        pid,
                        k,
                    );
                }
            } else {
                lemma_seed_step_new(
                    m2,
                    root,
                    3,
                    wd,
                    first_world_name(),
                    default_world_md(),
                    pid,
                    k,
                );
            }
        } else {
            assert(k == tpath);
        }
    }
}

/// One seeding step keeps an unswept existing file unchanged.
proof fn lemma_seed_step_frame(
    m: Map<Seq<u8>, Seq<u8>>,
    root: Seq<u8>,
    i: int,
    dir: Seq<u8>,
    name: Seq<u8>,
    contents: Seq<u8>,
    pid: u64,
    k: Seq<u8>,
)
    requires
        0 <= i < 5,
        dir == crate::storage::sweep_dir(root, i),
        plain_unmarked(name),
        crate::index::is_md_name(name),
        m.contains_key(k),
        !crate::storage::is_swept(root, k),
    ensures
        seed_step(m, dir, name, contents, pid).contains_key(k),
        seed_step(m, dir, name, contents, pid)[k] == m[k],
{
    let p = join_seq(dir, name);
    crate::fs::lemma_join_parts(dir, name);
    crate::storage::lemma_staged_artifact_swept(root, i, p, pid);
    if !has_md(m, dir) {
        assert(k != crate::storage::temp_path_seq(p, pid));
        if k == p {
            assert(crate::fs::in_dir(m, dir, name));
            assert(has_md(m, dir));
        }
    }
}

/// A file that one seeding step adds is not swept.
proof fn lemma_seed_step_new(
    m: Map<Seq<u8>, Seq<u8>>,
    root: Seq<u8>,
    i: int,
    dir: Seq<u8>,
    name: Seq<u8>,
    contents: Seq<u8>,
    pid: u64,
    k: Seq<u8>,
)
    requires
        0 <= i < 5,
        dir == crate::storage::sweep_dir(root, i),
        plain_unmarked(name),
        seed_step(m, dir, name, contents, pid).contains_key(k),
        !m.contains_key(k),
    ensures
        !crate::storage::is_swept(root, k),
{
    crate::fs::lemma_join_parts(dir, name);
    lemma_unmarked_child_not_swept(root, dir, name);
    assert(k == join_seq(dir, name));
}

/// The seeded names are markdown documents.
proof fn lemma_fixed_names_md()
    ensures
        crate::index::is_md_name(first_chapter_name()),
        crate::index::is_md_name(first_character_name()),
        crate::index::is_md_name(first_world_name()),
        crate::index::is_md_name(ascii_seq("timeline.md"@)),
{
    reveal_strlit("timeline.md");
    reveal_strlit("md");
    lemma_md_name_of(first_chapter_name(), first_chapter_name().len() - 3);
    lemma_md_name_of(first_character_name(), first_character_name().len() - 3);
    lemma_md_name_of(first_world_name(), first_world_name().len() - 3);
    lemma_md_name_of(ascii_seq("timeline.md"@), ascii_seq("timeline.md"@).len() - 3);
}

/// A name ending in a dot and the two letters of the markdown
/// extension, with no later dot, is a markdown name.
proof fn lemma_md_name_of(name: Seq<u8>, ld: int)
    requires
        0 < ld,
        ld + 3 == name.len(),
        name[ld] == 46,
        name[ld + 1] == 109,
        name[ld + 2] == 100,
    ensures
        crate::index::is_md_name(name),
{
    reveal_strlit("md");
    crate::index::lemma_last_dot_at(name, ld);
    assert(crate::text::lower_seq(name.skip(ld + 1)) =~= ascii_seq("md"@)) by {
        assert(name.skip(ld + 1).len() == 2);
        assert(name.skip(ld + 1)[0] == 109);
        assert(name.skip(ld + 1)[1] == 100);
    }
}


/// The name of category `d` of the four fixed categories.
pub open spec fn cat_name(d: int) -> Seq<u8> {
    if d == 0 {
        ascii_seq("chapters"@)
    } else if d == 1 {
        ascii_seq("characters"@)
    } else if d == 2 {
        ascii_seq("world"@)
    } else {
        ascii_seq("timeline"@)
    }
}

/// True when the copy writes `k`: the destination `project.md` when the
/// source has one, or the mirror of a document under a source category.
pub open spec fn copy_target(m: Map<Seq<u8>, Seq<u8>>, src: Seq<u8>, dst: Seq<u8>, k: Seq<u8>) -> bool {
    ||| (k == project_md_path(dst) && m.contains_key(project_md_path(src)))
    ||| exists|d: int, rel: Seq<u8>|
        0 <= d < 4 && k == join_seq(join_seq(dst, #[trigger] cat_name(d)), rel)
            && m.contains_key(#[trigger] join_seq(join_seq(src, cat_name(d)), rel))
}

/// Two roots neither of which contains the other share no path.
proof fn lemma_disjoint_roots(src: Seq<u8>, dst: Seq<u8>, k: Seq<u8>)
    requires
        src != dst,
        !crate::fs::under_dir(src, dst),
        !crate::fs::under_dir(dst, src),
        crate::fs::under_dir(dst, k),
    ensures
        !crate::fs::under_dir(src, k),
{
    if crate::fs::under_dir(src, k) {
        let ps = src + crate::fs::sep();
        let pd = dst + crate::fs::sep();
        assert(k.take(ps.len() as int) == ps);
        assert(k.take(pd.len() as int) == pd);
        if ps.len() < pd.len() {
            assert(dst.take(ps.len() as int) =~= ps) by {
                assert forall|q: int| 0 <= q < ps.len() implies dst[q] == ps[q] by {
                    assert(k[q] == ps[q]);
                    assert(k.take(pd.len() as int)[q] == k[q]);
                    assert(pd[q] == dst[q]);
                }
            }
            assert(crate::fs::under_dir(src, dst)) by {
                assert(dst.take(src.len() + 1 as int) =~= ps);
            }
        } else if pd.len() < ps.len() {
            assert(crate::fs::under_dir(dst, src)) by {
                assert forall|q: int| 0 <= q < pd.len() implies src[q] == pd[q] by {
                    assert(k[q] == pd[q]);
                    assert(k.take(ps.len() as int)[q] == k[q]);
                    assert(ps[q] == src[q]);
                }
                assert(src.take(dst.len() + 1 as int) =~= pd);
            }
        } else {
            assert(src =~= dst) by {
                assert forall|q: int| 0 <= q < src.len() implies src[q] == dst[q] by {
                    assert(ps[q] == src[q] && pd[q] == dst[q]);
                    assert(k[q] == ps[q] && k[q] == pd[q]);
                }
            }
        }
    }
}

/// Copies a project tree: `project.md` and the four category
/// directories, at any depth, from `src` to `dst`. Nothing else moves.
#[verifier::rlimit(100)]
pub fn copy_project(fs: &mut Fs, src: &[u8], dst: &[u8])
    requires
        old(fs).wf(),
        src@.len() + 64 <= usize::MAX,
        dst@.len() + 64 <= usize::MAX,
        src@ != dst@,
        !crate::fs::under_dir(src@, dst@),
        !crate::fs::under_dir(dst@, src@),
    ensures
        final(fs).wf(),
        final(fs)@.pid == old(fs)@.pid,
        final(fs)@.dirs == old(fs)@.dirs.insert(dst@).insert(
            join_seq(dst@, cat_name(0)),
        ).insert(join_seq(dst@, cat_name(1))).insert(join_seq(dst@, cat_name(2))).insert(
            join_seq(dst@, cat_name(3)),
        ),
        forall|k: Seq<u8>|
            !copy_target(old(fs)@.files, src@, dst@, k) ==> (#[trigger] final(fs)@.files.contains_key(k) <==> old(fs)@.files.contains_key(k)) && (final(fs)@.files.contains_key(k) ==> final(fs)@.files[k] == old(fs)@.files[k]),
        old(fs)@.files.contains_key(project_md_path(src@)) ==> final(fs)@.files.contains_key(project_md_path(dst@)) && final(fs)@.files[project_md_path(
            dst@,
        )] == old(fs)@.files[project_md_path(src@)],
        forall|d: int, rel: Seq<u8>|
            0 <= d < 4 && old(fs)@.files.contains_key(
                #[trigger] join_seq(join_seq(src@, cat_name(d)), rel),
            ) && dst@.len() + cat_name(d).len() + rel.len() + 2 <= usize::MAX ==> final(fs)@.files.contains_key(join_seq(join_seq(dst@, cat_name(d)), rel)) && final(fs)@.files[join_seq(join_seq(dst@, cat_name(d)), rel)] == old(fs)@.files[join_seq(
                join_seq(src@, cat_name(d)),
                rel,
            )],
{
    proof {
        reveal_strlit("chapters");
        reveal_strlit("characters");
        reveal_strlit("world");
        reveal_strlit("timeline");
        reveal_strlit("project.md");
    }
    let ghost m0 = fs@.files;
    fs.ensure_dir(dst);
    let pmd_src = join_path(src, ascii_bytes("project.md").as_slice());
    let pmd_dst = join_path(dst, ascii_bytes("project.md").as_slice());
    proof {
        crate::fs::lemma_join_parts(src@, ascii_seq("project.md"@));
        crate::fs::lemma_join_parts(dst@, ascii_seq("project.md"@));
    }
    match fs.read_file(pmd_src.as_slice()) {
        Some(data) => {
            fs.write_file(pmd_dst.as_slice(), data.as_slice());
        },
        None => {},
    }
    let mut d: usize = 0;
    while d < 4
        invariant
            fs.wf(),
            fs@.pid == old(fs)@.pid,
            m0 == old(fs)@.files,
            src@.len() + 64 <= usize::MAX,
            dst@.len() + 64 <= usize::MAX,
            src@ != dst@,
            !crate::fs::under_dir(src@, dst@),
            !crate::fs::under_dir(dst@, src@),
            d <= 4,
            fs@.dirs == copy_dirs(old(fs)@.dirs, dst@, d as int),
            forall|k: Seq<u8>|
                !copy_target_upto(m0, src@, dst@, k, d as int) ==> (#[trigger]
                fs@.files.contains_key(k) <==> m0.contains_key(k)) && (
                fs@.files.contains_key(k) ==> fs@.files[k] == m0[k]),
            m0.contains_key(project_md_path(src@)) ==> fs@.files.contains_key(
                project_md_path(dst@),
            ) && fs@.files[project_md_path(dst@)] == m0[project_md_path(src@)],
            forall|e: int, rel: Seq<u8>|
                0 <= e < d && m0.contains_key(
                    #[trigger] join_seq(join_seq(src@, cat_name(e)), rel),
                ) && dst@.len() + cat_name(e).len() + rel.len() + 2 <= usize::MAX
                    ==> fs@.files.contains_key(join_seq(join_seq(dst@, cat_name(e)), rel))
                    && fs@.files[join_seq(join_seq(dst@, cat_name(e)), rel)] == m0[join_seq(
                    join_seq(src@, cat_name(e)),
                    rel,
                )],
        decreases 4 - d,
    {
        proof {
            reveal_strlit("chapters");
            reveal_strlit("characters");
            reveal_strlit("world");
            reveal_strlit("timeline");
        }
        let cname = if d == 0 {
            ascii_bytes("chapters")
        } else if d == 1 {
            ascii_bytes("characters")
        } else if d == 2 {
            ascii_bytes("world")
        } else {
            ascii_bytes("timeline")
        };
        proof {
            assert(cname@ == cat_name(d as int));
        }
        let sdir = join_path(src, cname.as_slice());
        let ddir = join_path(dst, cname.as_slice());
        fs.ensure_dir(ddir.as_slice());
        let entries = fs.files_under(sdir.as_slice());
        let ghost m_entry = fs@.files;
        proof {
            assert forall|rel: Seq<u8>|
                #![trigger join_seq(sdir@, rel)]
                m_entry.contains_key(join_seq(sdir@, rel)) == m0.contains_key(
                    join_seq(sdir@, rel),
                ) && (m0.contains_key(join_seq(sdir@, rel)) ==> m_entry[join_seq(sdir@, rel)]
                    == m0[join_seq(sdir@, rel)]) by {
                let k = join_seq(sdir@, rel);
                crate::fs::lemma_join_parts(sdir@, rel);
                crate::fs::lemma_join_parts(src@, cat_name(d as int));
                lemma_under_cat_under_root(src@, cat_name(d as int), rel);
                assert(!copy_target_upto(m0, src@, dst@, k, d as int)) by {
                    lemma_disjoint_roots(dst@, src@, k);
                    if copy_target_upto(m0, src@, dst@, k, d as int) {
                        lemma_copy_target_under_dst(m0, src@, dst@, k, d as int);
                    }
                }
            }
        }
        let mut j: usize = 0;
        while j < entries.len()
            invariant
                fs.wf(),
                fs@.pid == old(fs)@.pid,
                fs@.dirs == copy_dirs(old(fs)@.dirs, dst@, d + 1),
                m0 == old(fs)@.files,
                src@.len() + 64 <= usize::MAX,
                dst@.len() + 64 <= usize::MAX,
                src@ != dst@,
                !crate::fs::under_dir(src@, dst@),
                !crate::fs::under_dir(dst@, src@),
                d < 4,
                sdir@ == join_seq(src@, cat_name(d as int)),
                ddir@ == join_seq(dst@, cat_name(d as int)),
                ddir@.len() <= dst@.len() + 11,
                j <= entries@.len(),
                forall|q: int|
                    0 <= q < entries@.len() ==> m0.contains_key(
                        join_seq(sdir@, (#[trigger] entries@[q]).0@),
                    ) && entries@[q].1@ == m0[join_seq(sdir@, entries@[q].0@)],
                forall|rel: Seq<u8>|
                    m0.contains_key(#[trigger] join_seq(sdir@, rel)) ==> exists|q: int|
                        0 <= q < entries@.len() && (#[trigger] entries@[q]).0@ == rel,
                forall|q: int|
                    0 <= q < entries@.len() ==> sdir@.len() + 1 + (
                    #[trigger] entries@[q]).0@.len() <= usize::MAX,
                forall|k: Seq<u8>|
                    !copy_target_upto(m0, src@, dst@, k, d + 1) ==> (#[trigger]
                    fs@.files.contains_key(k) <==> m0.contains_key(k)) && (
                    fs@.files.contains_key(k) ==> fs@.files[k] == m0[k]),
                m0.contains_key(project_md_path(src@)) ==> fs@.files.contains_key(
                    project_md_path(dst@),
                ) && fs@.files[project_md_path(dst@)] == m0[project_md_path(src@)],
                forall|e: int, rel: Seq<u8>|
                    0 <= e < d && m0.contains_key(
                        #[trigger] join_seq(join_seq(src@, cat_name(e)), rel),
                    ) && dst@.len() + cat_name(e).len() + rel.len() + 2 <= usize::MAX
                        ==> fs@.files.contains_key(
                        join_seq(join_seq(dst@, cat_name(e)), rel),
                    ) && fs@.files[join_seq(join_seq(dst@, cat_name(e)), rel)] == m0[
                        join_seq(join_seq(src@, cat_name(e)), rel)],
                forall|q: int|
                    0 <= q < j && ddir@.len() + 1 + (#[trigger] entries@[q]).0@.len()
                        <= usize::MAX ==> fs@.files.contains_key(
                        join_seq(ddir@, entries@[q].0@),
                    ) && fs@.files[join_seq(ddir@, entries@[q].0@)] == m0[join_seq(
                        sdir@,
                        entries@[q].0@,
                    )],
            decreases entries@.len() - j,
        {
            if entries[j].0.len() > usize::MAX - 1 - ddir.len() {
                proof {
                    assert(forall|q: int|
                        0 <= q < j + 1 && ddir@.len() + 1 + (
                        #[trigger] entries@[q]).0@.len() <= usize::MAX ==> 0 <= q < j);
                }
                j = j + 1;
                continue ;
            }
            let target = join_path(ddir.as_slice(), entries[j].0.as_slice());
            proof {
                crate::fs::lemma_join_parts(ddir@, entries@[j as int].0@);
                crate::fs::lemma_join_parts(dst@, cat_name(d as int));
                lemma_under_cat_under_root(dst@, cat_name(d as int), entries@[j as int].0@);
                assert(copy_target_upto(m0, src@, dst@, target@, d + 1));
            }
            fs.write_file(target.as_slice(), entries[j].1.as_slice());
            proof {
                assert forall|q: int|
                    0 <= q < j + 1 && ddir@.len() + 1 + (#[trigger] entries@[q]).0@.len()
                        <= usize::MAX implies fs@.files.contains_key(
                    join_seq(ddir@, entries@[q].0@),
                ) && fs@.files[join_seq(ddir@, entries@[q].0@)] == m0[join_seq(
                    sdir@,
                    entries@[q].0@,
                )] by {
                    if q < j {
                        if join_seq(ddir@, entries@[q].0@) == target@ {
                            crate::fs::lemma_join_inj(
                                ddir@,
                                entries@[q].0@,
                                entries@[j as int].0@,
                            );
                        }
                    }
                }
                assert forall|e: int, rel: Seq<u8>|
                    0 <= e < d && m0.contains_key(
                        #[trigger] join_seq(join_seq(src@, cat_name(e)), rel),
                    ) && dst@.len() + cat_name(e).len() + rel.len() + 2
                        <= usize::MAX implies fs@.files.contains_key(
                    join_seq(join_seq(dst@, cat_name(e)), rel),
                ) && fs@.files[join_seq(join_seq(dst@, cat_name(e)), rel)] == m0[join_seq(
                    join_seq(src@, cat_name(e)),
                    rel,
                )] by {
                    if join_seq(join_seq(dst@, cat_name(e)), rel) == target@ {
                        lemma_cat_paths_distinct(dst@, e, rel, d as int, entries@[j as int].0@);
                    }
                }
                if m0.contains_key(project_md_path(src@)) {
                    assert(fs@.files.contains_key(project_md_path(dst@))
                        && fs@.files[project_md_path(dst@)] == m0[project_md_path(src@)]) by {
                        if project_md_path(dst@) == target@ {
                            lemma_pmd_not_cat_path(dst@, d as int, entries@[j as int].0@);
                        }
                    }
                }
            }
            j = j + 1;
        }
        proof {
            assert forall|e: int, rel: Seq<u8>|
                0 <= e < d + 1 && m0.contains_key(
                    #[trigger] join_seq(join_seq(src@, cat_name(e)), rel),
                ) && dst@.len() + cat_name(e).len() + rel.len() + 2
                    <= usize::MAX implies fs@.files.contains_key(
                join_seq(join_seq(dst@, cat_name(e)), rel),
            ) && fs@.files[join_seq(join_seq(dst@, cat_name(e)), rel)] == m0[join_seq(
                join_seq(src@, cat_name(e)),
                rel,
            )] by {
                if e == d {
                    let q = choose|q: int|
                        0 <= q < entries@.len() && (#[trigger] entries@[q]).0@ == rel;
                    assert(ddir@.len() + 1 + entries@[q].0@.len() <= usize::MAX);
                }
            }
        }
        d = d + 1;
    }
    proof {
        assert forall|k: Seq<u8>|
            !copy_target(m0, src@, dst@, k) implies (#[trigger] fs@.files.contains_key(k)
            <==> m0.contains_key(k)) && (fs@.files.contains_key(k) ==> fs@.files[k] == m0[
            k
        ]) by {
            assert(!copy_target_upto(m0, src@, dst@, k, 4));
        }
        assert(fs@.dirs =~= old(fs)@.dirs.insert(dst@).insert(
            join_seq(dst@, cat_name(0)),
        ).insert(join_seq(dst@, cat_name(1))).insert(join_seq(dst@, cat_name(2))).insert(
            join_seq(dst@, cat_name(3)),
        ));
    }
}

/// The copy targets of the first `d` categories (plus `project.md`).
pub open spec fn copy_target_upto(
    m: Map<Seq<u8>, Seq<u8>>,
    src: Seq<u8>,
    dst: Seq<u8>,
    k: Seq<u8>,
    d: int,
) -> bool {
    ||| (k == project_md_path(dst) && m.contains_key(project_md_path(src)))
    ||| exists|e: int, rel: Seq<u8>|
        0 <= e < d && e < 4 && k == join_seq(join_seq(dst, #[trigger] cat_name(e)), rel)
            && m.contains_key(#[trigger] join_seq(join_seq(src, cat_name(e)), rel))
}

/// The directories the copy creates, after `d` categories.
pub open spec fn copy_dirs(dirs: Set<Seq<u8>>, dst: Seq<u8>, d: int) -> Set<Seq<u8>> {
    let base = dirs.insert(dst);
    if d <= 0 {
        base
    } else if d == 1 {
        base.insert(join_seq(dst, cat_name(0)))
    } else if d == 2 {
        base.insert(join_seq(dst, cat_name(0))).insert(join_seq(dst, cat_name(1)))
    } else if d == 3 {
        base.insert(join_seq(dst, cat_name(0))).insert(join_seq(dst, cat_name(1))).insert(
            join_seq(dst, cat_name(2)),
        )
    } else {
        base.insert(join_seq(dst, cat_name(0))).insert(join_seq(dst, cat_name(1))).insert(
            join_seq(dst, cat_name(2)),
        ).insert(join_seq(dst, cat_name(3)))
    }
}

/// A copy target lies under the destination root.
proof fn lemma_copy_target_under_dst(
    m: Map<Seq<u8>, Seq<u8>>,
    src: Seq<u8>,
    dst: Seq<u8>,
    k: Seq<u8>,
    d: int,
)
    requires
        copy_target_upto(m, src, dst, k, d),
    ensures
        crate::fs::under_dir(dst, k),
{
    reveal_strlit("project.md");
    if k == project_md_path(dst) && m.contains_key(project_md_path(src)) {
        crate::fs::lemma_join_parts(dst, ascii_seq("project.md"@));
    } else {
        let (e, rel) = choose|e: int, rel: Seq<u8>|
            0 <= e < d && e < 4 && k == join_seq(join_seq(dst, #[trigger] cat_name(e)), rel)
                && m.contains_key(#[trigger] join_seq(join_seq(src, cat_name(e)), rel));
        crate::fs::lemma_join_parts(join_seq(dst, cat_name(e)), rel);
        crate::fs::lemma_join_parts(dst, cat_name(e));
        lemma_under_cat_under_root(dst, cat_name(e), rel);
    }
}

/// A path under a category directory lies under the root.
proof fn lemma_under_cat_under_root(root: Seq<u8>, cname: Seq<u8>, rel: Seq<u8>)
    ensures
        crate::fs::under_dir(root, join_seq(join_seq(root, cname), rel)),
{
    let cdir = join_seq(root, cname);
    let k = join_seq(cdir, rel);
    crate::fs::lemma_join_parts(cdir, rel);
    crate::fs::lemma_join_parts(root, cname);
    assert(k.take(root.len() + 1 as int) =~= root + crate::fs::sep());
}

/// Mirror paths of distinct categories, or with distinct remainders,
/// differ.
proof fn lemma_cat_paths_distinct(dst: Seq<u8>, e: int, rel_e: Seq<u8>, d: int, rel_d: Seq<u8>)
    requires
        0 <= e < 4,
        0 <= d < 4,
        e != d,
    ensures
        join_seq(join_seq(dst, cat_name(e)), rel_e) != join_seq(
            join_seq(dst, cat_name(d)),
            rel_d,
        ),
{
    reveal_strlit("chapters");
    reveal_strlit("characters");
    reveal_strlit("world");
    reveal_strlit("timeline");
    let a = join_seq(join_seq(dst, cat_name(e)), rel_e);
    let b = join_seq(join_seq(dst, cat_name(d)), rel_d);
    if a == b {
        let le = cat_name(e).len() as int;
        let ld = cat_name(d).len() as int;
        crate::fs::lemma_join_parts(join_seq(dst, cat_name(e)), rel_e);
        crate::fs::lemma_join_parts(join_seq(dst, cat_name(d)), rel_d);
        crate::fs::lemma_join_parts(dst, cat_name(e));
        crate::fs::lemma_join_parts(dst, cat_name(d));
        assert forall|q: int| 0 <= q < le && q < ld implies cat_name(e)[q] == cat_name(
            d,
        )[q] by {
            assert(a[dst.len() + 1 + q] == cat_name(e)[q]) by {
                assert(join_seq(dst, cat_name(e))[dst.len() + 1 + q] == cat_name(e)[q]);
            }
            assert(b[dst.len() + 1 + q] == cat_name(d)[q]) by {
                assert(join_seq(dst, cat_name(d))[dst.len() + 1 + q] == cat_name(d)[q]);
            }
        }
        assert(a[dst.len() + 1 + le as int] == 47) by {
            assert(join_seq(dst, cat_name(e)) + crate::fs::sep() + rel_e =~= a);
        }
        assert(b[dst.len() + 1 + ld as int] == 47) by {
            assert(join_seq(dst, cat_name(d)) + crate::fs::sep() + rel_d =~= b);
        }
        if le < ld {
            assert(cat_name(d)[le] == 47);
            assert(crate::fs::no_slash(cat_name(d))) by {
                lemma_cat_names_plain();
            }
        } else if ld < le {
            assert(cat_name(e)[ld] == 47);
            assert(crate::fs::no_slash(cat_name(e))) by {
                lemma_cat_names_plain();
            }
        } else {
            assert(cat_name(e) =~= cat_name(d));
            lemma_cat_names_distinct(e, d);
        }
    }
}

/// The four category names hold no separator.
proof fn lemma_cat_names_plain()
    ensures
        forall|d: int| 0 <= d < 4 ==> crate::fs::no_slash(#[trigger] cat_name(d)),
{
    reveal_strlit("chapters");
    reveal_strlit("characters");
    reveal_strlit("world");
    reveal_strlit("timeline");
}

/// The four category names differ pairwise.
proof fn lemma_cat_names_distinct(e: int, d: int)
    requires
        0 <= e < 4,
        0 <= d < 4,
        e != d,
    ensures
        cat_name(e) != cat_name(d),
{
    reveal_strlit("chapters");
    reveal_strlit("characters");
    reveal_strlit("world");
    reveal_strlit("timeline");
    if cat_name(e) == cat_name(d) {
        assert(cat_name(0)[3] == 112);
        assert(cat_name(1)[3] == 114);
        assert(cat_name(2).len() == 5);
        assert(cat_name(0).len() == 8);
        assert(cat_name(1).len() == 10);
        assert(cat_name(3).len() == 8);
        assert(cat_name(3)[3] == 101);
    }
}

/// The destination `project.md` is no category mirror path.
proof fn lemma_pmd_not_cat_path(dst: Seq<u8>, d: int, rel: Seq<u8>)
    requires
        0 <= d < 4,
    ensures
        project_md_path(dst) != join_seq(join_seq(dst, cat_name(d)), rel),
{
    reveal_strlit("project.md");
    reveal_strlit("chapters");
    reveal_strlit("characters");
    reveal_strlit("world");
    reveal_strlit("timeline");
    let p = project_md_path(dst);
    let q = join_seq(join_seq(dst, cat_name(d)), rel);
    if p == q {
        crate::fs::lemma_join_parts(dst, ascii_seq("project.md"@));
        crate::fs::lemma_join_parts(dst, cat_name(d));
        crate::fs::lemma_join_parts(join_seq(dst, cat_name(d)), rel);
        assert(p[dst.len() + 1 as int] == ascii_seq("project.md"@)[0]);
        assert(q[dst.len() + 1 as int] == cat_name(d)[0]) by {
            assert(join_seq(dst, cat_name(d))[dst.len() + 1 as int] == cat_name(d)[0]);
            assert(q[dst.len() + 1 as int] == join_seq(dst, cat_name(d))[dst.len() + 1 as int]);
        }
        assert(ascii_seq("project.md"@)[0] == 112);
        assert(cat_name(d)[0] == 99 || cat_name(d)[0] == 119 || cat_name(d)[0] == 116);
    }
}

} // verus!

