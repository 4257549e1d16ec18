//! Where the index of a project lies: paths, branch keys, and what the files of git say about the
//! branch that is checked out.

use crate::digest::{sha256, sha256_of};
use crate::text::{
    after_prefix, chars_of, has_prefix, hex, hex_text, lines, opt_text, same_text,
    split_whitespace, starts_with, strip_prefix, text_lines, text_of, trim, trimmed, views, words,
};
use crate::types::{IndexMeta, IndexMetaView};
use crate::path::path_parts;
use vstd::prelude::*;

verus! {

/// The version of the layout.
pub const LAYOUT_VERSION: u32 = 13;

/// The longest part of a branch name that is kept in its key.
pub const BRANCH_KEY_NAME_MAX: usize = 64;

/// The key where no branch is checked out.
pub const DEFAULT_BRANCH_KEY: &'static str = "default";

/// The path of `name` in the directory `base`; an absolute `name` stands for itself.
pub open spec fn path_in(base: Seq<char>, name: Seq<char>) -> Seq<char> {
    if base.len() == 0 || (name.len() > 0 && name[0] == '/') {
        name
    } else if base.last() == '/' {
        base + name
    } else {
        base + "/"@ + name
    }
}

/// The path of `name` in the directory `base`.
pub fn join_path(base: &str, name: &str) -> (r: String)
    ensures
        r@ == path_in(base@, name@),
{
    let b: Vec<char> = chars_of(base);
    let n: Vec<char> = chars_of(name);
    if b.len() == 0 || (n.len() > 0 && n[0] == '/') {
        name.to_owned()
    } else if b[b.len() - 1] == '/' {
        base.to_owned().concat(name)
    } else {
        base.to_owned().concat("/").concat(name)
    }
}

/// The directory that holds the index of a project.
pub fn container_dir(project_root: &str) -> (r: String)
    ensures
        r@ == path_in(project_root@, ".semantex"@),
{
    join_path(project_root, ".semantex")
}

/// The directory of the snapshots.
pub open spec fn snapshots_in(project_root: Seq<char>) -> Seq<char> {
    path_in(path_in(project_root, ".semantex"@), "indexes"@)
}

/// The directory of the snapshots.
pub fn indexes_root(project_root: &str) -> (r: String)
    ensures
        r@ == snapshots_in(project_root@),
{
    join_path(&container_dir(project_root), "indexes")
}

/// The directory of the snapshot of a branch.
pub fn branch_index_dir(project_root: &str, branch_key: &str) -> (r: String)
    ensures
        r@ == path_in(snapshots_in(project_root@), branch_key@),
{
    join_path(&indexes_root(project_root), branch_key)
}

/// The directory in which a snapshot is put together before it takes its place.
pub fn mirror_tmp_dir(project_root: &str, branch_key: &str) -> (r: String)
    ensures
        r@ == path_in(snapshots_in(project_root@), branch_key@ + ".tmp-mirror"@),
{
    join_path(&indexes_root(project_root), &branch_key.to_owned().concat(".tmp-mirror"))
}

/// The database of the history.
pub fn history_db_path(project_root: &str) -> (r: String)
    ensures
        r@ == path_in(path_in(project_root@, ".semantex"@), "history.db"@),
{
    join_path(&container_dir(project_root), "history.db")
}

/// The database of the notes.
pub fn memory_db_path(project_root: &str) -> (r: String)
    ensures
        r@ == path_in(path_in(project_root@, ".semantex"@), "memory.db"@),
{
    join_path(&container_dir(project_root), "memory.db")
}

/// The metadata of the project.
pub fn project_meta_path(project_root: &str) -> (r: String)
    ensures
        r@ == path_in(path_in(project_root@, ".semantex"@), "meta.json"@),
{
    join_path(&container_dir(project_root), "meta.json")
}

/// An ASCII letter or digit.
pub open spec fn is_alnum(c: char) -> bool {
    'a' <= c <= 'z' || 'A' <= c <= 'Z' || '0' <= c <= '9'
}

/// A branch name as it stands in a key: its first 64 characters, with `-` for each that is neither
/// a letter nor a digit of ASCII.
pub open spec fn sanitized(name: Seq<char>) -> Seq<char> {
    Seq::new(
        if name.len() < BRANCH_KEY_NAME_MAX {
            name.len()
        } else {
            BRANCH_KEY_NAME_MAX as nat
        },
        |i: int|
            if is_alnum(name[i]) {
                name[i]
            } else {
                '-'
            },
    )
}

/// A branch name as it stands in a key.
pub fn sanitize_branch_name(name: &str) -> (r: String)
    ensures
        r@ == sanitized(name@),
{
    let v: Vec<char> = chars_of(name);
    let mut out: Vec<char> = Vec::new();
    let mut i: usize = 0;
    while i < v.len() && i < BRANCH_KEY_NAME_MAX
        invariant
            v@ == name@,
            i <= v@.len(),
            i <= BRANCH_KEY_NAME_MAX,
            out@ == sanitized(v@).take(i as int),
        decreases v@.len() - i,
    {
        let c: char = v[i];
        if ('a' <= c && c <= 'z') || ('A' <= c && c <= 'Z') || ('0' <= c && c <= '9') {
            out.push(c);
        } else {
            out.push('-');
        }
        i = i + 1;
        proof {
            assert(out@ =~= sanitized(v@).take(i as int));
        }
    }
    proof {
        assert(out@ =~= sanitized(v@));
    }
    text_of(&out)
}

/// The first `n` bytes of the digest of a name.
pub open spec fn digest_start(name: Seq<char>, n: nat) -> Seq<u8> {
    Seq::new(n, |i: int| sha256_of(vstd::utf8::encode_utf8(name))[i])
}

/// The first `n` bytes of the digest of a name, in hexadecimal.
pub fn digest_prefix(name: &str, n: usize) -> (r: String)
    requires
        n <= 32,
    ensures
        r@ == hex(digest_start(name@, n as nat)),
{
    let digest: Vec<u8> = sha256(name.as_bytes());
    let mut start: Vec<u8> = Vec::new();
    let mut i: usize = 0;
    while i < n
        invariant
            i <= n <= 32,
            digest@.len() == 32,
            digest@ == sha256_of(vstd::utf8::encode_utf8(name@)),
            start@ == digest@.take(i as int),
        decreases n - i,
    {
        start.push(digest[i]);
        i = i + 1;
    }
    proof {
        assert(start@ =~= digest_start(name@, n as nat));
    }
    hex_text(&start)
}

/// The first 8 hexadecimal digits of the SHA-256 digest of a name.
pub open spec fn hash8(name: Seq<char>) -> Seq<char> {
    hex(digest_start(name, 4))
}

/// The first 8 hexadecimal digits of the SHA-256 digest of a name.
pub fn ref_name_hash8(ref_name: &str) -> (r: String)
    ensures
        r@ == hash8(ref_name@),
{
    digest_prefix(ref_name, 4)
}

/// The key of a branch: its name in a safe form, `-`, and the start of its digest.
pub open spec fn branch_key(name: Seq<char>) -> Seq<char> {
    sanitized(name) + "-"@ + hash8(name)
}

/// The key of a branch.
pub fn branch_key_for_branch(branch_name: &str) -> (r: String)
    ensures
        r@ == branch_key(branch_name@),
{
    sanitize_branch_name(branch_name).concat("-").concat(&ref_name_hash8(branch_name))
}

/// A key is at most 73 characters long and holds nothing but letters, digits and `-`; it ends with
/// the eight digits of the digest.
pub proof fn lemma_branch_key_shape(name: Seq<char>)
    ensures
        branch_key(name).len() <= 73,
        branch_key(name).len() == sanitized(name).len() + 9,
        forall|i: int|
            0 <= i < branch_key(name).len() ==> is_alnum(#[trigger] branch_key(name)[i])
                || branch_key(name)[i] == '-',
        branch_key(name).skip(branch_key(name).len() - 8) == hash8(name),
{
    reveal_strlit("-");
    let k = branch_key(name);
    let s = sanitized(name);
    let h = hash8(name);
    assert forall|i: int| 0 <= i < h.len() implies is_alnum(#[trigger] h[i]) by {
        let b = digest_start(name, 4)[i / 2];
        assert(0 <= b as int / 16 < 16);
        assert(0 <= b as int % 16 < 16);
    }
    assert forall|i: int| 0 <= i < k.len() implies is_alnum(#[trigger] k[i]) || k[i]
        == '-' by {
        if i < s.len() {
            assert(k[i] == s[i]);
        } else if i > s.len() {
            assert(k[i] == h[i - s.len() - 1]);
        }
    }
    assert(k.skip(k.len() - 8) =~= h);
}

/// Branches whose digests differ at the start have different keys, however alike their names.
pub proof fn lemma_branch_keys_differ(a: Seq<char>, b: Seq<char>)
    requires
        hash8(a) != hash8(b),
    ensures
        branch_key(a) != branch_key(b),
{
    lemma_branch_key_shape(a);
    lemma_branch_key_shape(b);
}

/// What stands at `.git` in a project.
#[derive(Debug, Clone)]
pub enum DotGit {
    Dir,
    /// A file, with its content if it can be read.
    File(Option<String>),
    Missing,
}

/// The directory that a `.git` file points to: what follows `gitdir:` in the first line that
/// begins with it.
pub open spec fn gitdir_in(ls: Seq<Seq<char>>) -> Option<Seq<char>>
    decreases ls.len(),
{
    if ls.len() == 0 {
        None
    } else {
        match after_prefix(trimmed(ls[0]), "gitdir:"@) {
            Some(rest) => Some(trimmed(rest)),
            None => gitdir_in(ls.skip(1)),
        }
    }
}

/// The directory that a `.git` file points to.
pub fn gitdir_pointer(content: &str) -> (r: Option<String>)
    ensures
        opt_text(r) == gitdir_in(text_lines(content@)),
{
    let ls: Vec<String> = lines(content);
    let ghost all = views(ls@);
    let mut i: usize = 0;
    proof {
        assert(all.skip(0) =~= all);
    }
    while i < ls.len()
        invariant
            i <= ls@.len(),
            all == views(ls@),
            all == text_lines(content@),
            gitdir_in(all) == gitdir_in(all.skip(i as int)),
        decreases ls@.len() - i,
    {
        proof {
            assert(all.skip(i as int)[0] == ls@[i as int]@);
            assert(all.skip(i as int).skip(1) =~= all.skip(i + 1));
        }
        match strip_prefix(&trim(&ls[i]), "gitdir:") {
            Some(rest) => {
                return Some(trim(&rest));
            },
            None => {},
        }
        i = i + 1;
    }
    None
}

/// The git directory of a project, following a `.git` file; `None` outside a repository.
pub fn resolve_git_dir(project_root: &str, dot_git: &DotGit) -> (r: Option<String>)
    ensures
        opt_text(r) == git_dir_of(project_root@, *dot_git),
{
    match dot_git {
        DotGit::Dir => Some(join_path(project_root, ".git")),
        DotGit::File(Some(content)) => match gitdir_pointer(content) {
            Some(p) => Some(join_path(project_root, &p)),
            None => None,
        },
        _ => None,
    }
}

/// The branch that `HEAD` names.
pub open spec fn head_branch(head: Option<Seq<char>>) -> Option<Seq<char>> {
    match head {
        Some(h) => after_prefix(trimmed(h), "ref: refs/heads/"@),
        None => None,
    }
}

/// The branch that is checked out, by the content of `HEAD` if it can be read; `None` if `HEAD`
/// names a commit.
pub fn resolve_git_head_branch(head: Option<&str>) -> (r: Option<String>)
    ensures
        opt_text(r) == head_branch(
            match head {
                Some(h) => Some(h@),
                None => None,
            },
        ),
{
    match head {
        Some(h) => strip_prefix(&trim(h), "ref: refs/heads/"),
        None => None,
    }
}

/// The key of the branch that is checked out.
pub open spec fn key_of_head(head: Option<Seq<char>>) -> Seq<char> {
    match head_branch(head) {
        Some(b) => branch_key(b),
        None => DEFAULT_BRANCH_KEY@,
    }
}

/// The key of the branch that is checked out, by the content of `HEAD` if it can be read.
pub fn current_branch_key(head: Option<&str>) -> (r: String)
    ensures
        r@ == key_of_head(
            match head {
                Some(h) => Some(h@),
                None => None,
            },
        ),
{
    match resolve_git_head_branch(head) {
        Some(b) => branch_key_for_branch(&b),
        None => DEFAULT_BRANCH_KEY.to_owned(),
    }
}

/// The name of the branch that is checked out.
pub open spec fn name_of_head(head: Option<Seq<char>>) -> Seq<char> {
    match head_branch(head) {
        Some(b) => b,
        None => DEFAULT_BRANCH_KEY@,
    }
}

/// The name of the branch that is checked out, by the content of `HEAD` if it can be read.
pub fn current_branch_name(head: Option<&str>) -> (r: String)
    ensures
        r@ == name_of_head(
            match head {
                Some(h) => Some(h@),
                None => None,
            },
        ),
{
    match resolve_git_head_branch(head) {
        Some(b) => b,
        None => DEFAULT_BRANCH_KEY.to_owned(),
    }
}

/// The commit in a line of `packed-refs`, if the line is for `ref_name`.
pub open spec fn packed_line(line: Seq<char>, ref_name: Seq<char>) -> Option<Seq<char>> {
    let t = trimmed(line);
    let w = words(t);
    if !has_prefix(t, "#"@) && w.len() >= 2 && w[1] == ref_name {
        Some(w[0])
    } else {
        None
    }
}

/// The commit in the first of the lines that is for `ref_name`.
pub open spec fn packed_ref(ls: Seq<Seq<char>>, ref_name: Seq<char>) -> Option<Seq<char>>
    decreases ls.len(),
{
    if ls.len() == 0 {
        None
    } else {
        match packed_line(ls[0], ref_name) {
            Some(h) => Some(h),
            None => packed_ref(ls.skip(1), ref_name),
        }
    }
}

/// The commit that `packed-refs` records for `ref_name`.
pub fn find_packed_ref(packed: &str, ref_name: &str) -> (r: Option<String>)
    ensures
        opt_text(r) == packed_ref(text_lines(packed@), ref_name@),
{
    let ls: Vec<String> = lines(packed);
    let ghost all = views(ls@);
    let mut i: usize = 0;
    proof {
        assert(all.skip(0) =~= all);
    }
    while i < ls.len()
        invariant
            i <= ls@.len(),
            all == views(ls@),
            all == text_lines(packed@),
            packed_ref(all, ref_name@) == packed_ref(all.skip(i as int), ref_name@),
        decreases ls@.len() - i,
    {
        proof {
            assert(all.skip(i as int)[0] == ls@[i as int]@);
            assert(all.skip(i as int).skip(1) =~= all.skip(i + 1));
        }
        let t: String = trim(&ls[i]);
        if !starts_with(&t, "#") {
            let w: Vec<String> = split_whitespace(&t);
            proof {
                assert forall|k: int| 0 <= k < w@.len() implies words(t@)[k] == (#[trigger]
                w@[k])@ by {}
            }
            if w.len() >= 2 && same_text(&w[1], ref_name) {
                return Some(w[0].clone());
            }
        }
        i = i + 1;
    }
    None
}

/// What a git directory holds about one reference: the content of its own file and that of
/// `packed-refs`, if they can be read.
#[derive(Debug, Clone)]
pub struct RefFiles {
    pub loose: Option<String>,
    pub packed: Option<String>,
}

/// The commit of a reference: by its own file, or else by `packed-refs`.
pub open spec fn ref_in(files: RefFiles, ref_name: Seq<char>) -> Option<Seq<char>> {
    match files.loose {
        Some(h) => Some(trimmed(h@)),
        None => match files.packed {
            Some(p) => packed_ref(text_lines(p@), ref_name),
            None => None,
        },
    }
}

/// The commit of a reference.
pub fn resolve_ref_in(files: &RefFiles, ref_name: &str) -> (r: Option<String>)
    ensures
        opt_text(r) == ref_in(*files, ref_name@),
{
    match &files.loose {
        Some(h) => Some(trim(h)),
        None => match &files.packed {
            Some(p) => find_packed_ref(p, ref_name),
            None => None,
        },
    }
}

/// The reference that `HEAD` names; `None` if it names a commit.
pub fn head_ref(head: &str) -> (r: Option<String>)
    ensures
        opt_text(r) == after_prefix(trimmed(head@), "ref: "@),
{
    strip_prefix(&trim(head), "ref: ")
}

/// The git directory that a linked worktree shares, by the content of `commondir`.
pub fn common_git_dir(git_dir: &str, content: &str) -> (r: String)
    ensures
        r@ == path_in(git_dir@, trimmed(content@)),
{
    join_path(git_dir, &trim(content))
}

/// The commit that is checked out.
pub open spec fn head_commit_of(
    head: Option<Seq<char>>,
    own: RefFiles,
    common: Option<RefFiles>,
) -> Option<Seq<char>> {
    match head {
        Some(h) => match after_prefix(trimmed(h), "ref: "@) {
            Some(name) => match ref_in(own, name) {
                Some(commit) => Some(commit),
                None => match common {
                    Some(c) => ref_in(c, name),
                    None => None,
                },
            },
            None => Some(trimmed(h)),
        },
        None => None,
    }
}

/// The commit that is checked out, by the content of `HEAD` if it can be read, and by what the git
/// directory holds about the reference that it names, or else the one that a linked worktree
/// shares.
pub fn resolve_git_head_commit(head: Option<&str>, own: &RefFiles, common: &Option<RefFiles>) -> (r:
    Option<String>)
    ensures
        opt_text(r) == head_commit_of(
            match head {
                Some(h) => Some(h@),
                None => None,
            },
            *own,
            *common,
        ),
{
    match head {
        Some(h) => match head_ref(h) {
            Some(name) => match resolve_ref_in(own, &name) {
                Some(commit) => Some(commit),
                None => match common {
                    Some(c) => resolve_ref_in(c, &name),
                    None => None,
                },
            },
            None => Some(trim(h)),
        },
        None => None,
    }
}

/// Which branch an index or a snapshot belongs to.
#[derive(Debug, Clone)]
pub struct BranchMeta {
    pub branch: String,
    pub branch_key: String,
    pub head_commit: Option<String>,
}

/// What a [`BranchMeta`] holds.
pub struct BranchMetaView {
    pub branch: Seq<char>,
    pub branch_key: Seq<char>,
    pub head_commit: Option<Seq<char>>,
}

impl View for BranchMeta {
    type V = BranchMetaView;

    open spec fn view(&self) -> BranchMetaView {
        BranchMetaView {
            branch: self.branch@,
            branch_key: self.branch_key@,
            head_commit: opt_text(self.head_commit),
        }
    }
}

impl Default for BranchMeta {
    /// No branch.
    fn default() -> (r: BranchMeta)
        ensures
            r.branch@.len() == 0,
            r.branch_key@.len() == 0,
            r.head_commit is None,
    {
        BranchMeta { branch: String::new(), branch_key: String::new(), head_commit: None }
    }
}

/// Which branch a snapshot taken now under the key `branch_key` belongs to: the one that is checked
/// out.
pub fn branch_meta_for(branch_key: &str, head: Option<&str>, head_commit: Option<String>) -> (r:
    BranchMeta)
    ensures
        r@ == (BranchMetaView {
            branch: name_of_head(
                match head {
                    Some(h) => Some(h@),
                    None => None,
                },
            ),
            branch_key: branch_key@,
            head_commit: opt_text(head_commit),
        }),
{
    BranchMeta {
        branch: current_branch_name(head),
        branch_key: branch_key.to_owned(),
        head_commit,
    }
}

/// The metadata of a project: that of its live index, and which layout and project it is.
#[derive(Debug, Clone)]
pub struct ProjectMeta {
    pub layout_version: u32,
    pub project_id: String,
    pub default_branch: String,
    pub active_index_meta: IndexMeta,
}

/// What a [`ProjectMeta`] holds.
pub struct ProjectMetaView {
    pub layout_version: u32,
    pub project_id: Seq<char>,
    pub default_branch: Seq<char>,
    pub active_index_meta: IndexMetaView,
}

impl View for ProjectMeta {
    type V = ProjectMetaView;

    open spec fn view(&self) -> ProjectMetaView {
        ProjectMetaView {
            layout_version: self.layout_version,
            project_id: self.project_id@,
            default_branch: self.default_branch@,
            active_index_meta: self.active_index_meta@,
        }
    }
}

/// The metadata of a project in the current layout, around that of its live index.
pub fn project_meta_for(project_id: &str, head: Option<&str>, active: IndexMeta) -> (r: ProjectMeta)
    ensures
        r@ == (ProjectMetaView {
            layout_version: LAYOUT_VERSION,
            project_id: project_id@,
            default_branch: name_of_head(
                match head {
                    Some(h) => Some(h@),
                    None => None,
                },
            ),
            active_index_meta: active@,
        }),
{
    ProjectMeta {
        layout_version: LAYOUT_VERSION,
        project_id: project_id.to_owned(),
        default_branch: current_branch_name(head),
        active_index_meta: active,
    }
}

/// How a part of the index gets into a snapshot.
#[derive(Debug, Clone, Copy, PartialEq, Eq, Structural)]
pub enum MirrorMethod {
    /// A consistent copy of a database in use.
    DatabaseSnapshot,
    /// A copy, because later builds rewrite the original in place.
    Copy,
    /// Links, because the files are never rewritten.
    HardLink,
}

/// A part of the index and how it gets into a snapshot.
#[derive(Debug, Clone)]
pub struct MirrorStep {
    pub name: &'static str,
    pub method: MirrorMethod,
}

impl View for MirrorStep {
    type V = (Seq<char>, MirrorMethod);

    open spec fn view(&self) -> (Seq<char>, MirrorMethod) {
        (self.name@, self.method)
    }
}

/// The parts of an index that are there, besides its database.
#[derive(Debug, Clone, Copy)]
pub struct PresentParts {
    pub chunks_db: bool,
    pub meta_json: bool,
    pub models_toml: bool,
    pub dense: bool,
    pub sparse: bool,
}

/// One step if the part is there.
pub open spec fn step_if(there: bool, name: Seq<char>, method: MirrorMethod) -> Seq<
    (Seq<char>, MirrorMethod),
> {
    if there {
        seq![(name, method)]
    } else {
        Seq::empty()
    }
}

/// How a snapshot of an index is put together: without its database there is none, and of the
/// other parts those are taken that are there.
pub open spec fn mirror_plan(p: PresentParts) -> Seq<(Seq<char>, MirrorMethod)> {
    if !p.chunks_db {
        Seq::empty()
    } else {
        seq![("chunks.db"@, MirrorMethod::DatabaseSnapshot)] + step_if(
            p.meta_json,
            "meta.json"@,
            MirrorMethod::Copy,
        ) + step_if(p.models_toml, "models.toml"@, MirrorMethod::Copy) + step_if(
            p.dense,
            "dense"@,
            MirrorMethod::Copy,
        ) + step_if(p.sparse, "sparse"@, MirrorMethod::HardLink)
    }
}

/// Adds one step if the part is there.
fn push_step(steps: &mut Vec<MirrorStep>, there: bool, name: &'static str, method: MirrorMethod)
    ensures
        views(final(steps)@) == views(old(steps)@) + step_if(there, name@, method),
{
    let ghost before = views(steps@);
    if there {
        steps.push(MirrorStep { name, method });
    }
    proof {
        assert(views(steps@) =~= before + step_if(there, name@, method));
    }
}

/// How a snapshot of an index is put together.
pub fn mirror_into_branch_dir(p: PresentParts) -> (r: Vec<MirrorStep>)
    ensures
        views(r@) == mirror_plan(p),
{
    let mut r: Vec<MirrorStep> = Vec::new();
    proof {
        assert(views(r@) =~= Seq::empty());
    }
    if p.chunks_db {
        push_step(&mut r, true, "chunks.db", MirrorMethod::DatabaseSnapshot);
        push_step(&mut r, p.meta_json, "meta.json", MirrorMethod::Copy);
        push_step(&mut r, p.models_toml, "models.toml", MirrorMethod::Copy);
        push_step(&mut r, p.dense, "dense", MirrorMethod::Copy);
        push_step(&mut r, p.sparse, "sparse", MirrorMethod::HardLink);
        proof {
            assert(views(r@) =~= mirror_plan(p));
        }
    }
    r
}

/// Notes and history belong to no branch: no snapshot holds their databases, and none takes the
/// place of them.
pub proof fn lemma_snapshots_leave_notes(p: PresentParts)
    ensures
        forall|i: int|
            0 <= i < mirror_plan(p).len() ==> (#[trigger] mirror_plan(p)[i]).0 != "memory.db"@
                && mirror_plan(p)[i].0 != "history.db"@,
{
    reveal_strlit("memory.db");
    reveal_strlit("history.db");
    reveal_strlit("chunks.db");
    reveal_strlit("meta.json");
    reveal_strlit("models.toml");
    reveal_strlit("dense");
    reveal_strlit("sparse");
    assert("chunks.db"@[0] == 'c' && "models.toml"@.len() == 11);
    assert("meta.json"@[2] == 't' && "memory.db"@[2] == 'm');
    assert("memory.db"@[0] == 'm' && "history.db"@[0] == 'h');
    assert("dense"@.len() == 5 && "sparse"@.len() == 6);
    assert("memory.db"@.len() == 9 && "history.db"@.len() == 10);
}

/// A name inside a directory is one component behind it, whether or not the directory is written
/// with a slash at its end; an absolute path is taken for itself.
pub proof fn lemma_path_in(base: Seq<char>, name: Seq<char>)
    requires
        name.len() > 0,
        !name.contains('/'),
        name != "."@,
    ensures
        base.len() > 0 ==> path_parts(path_in(base, name)) == path_parts(base).push(name),
        base.len() == 0 ==> path_in(base, name) == name,
        path_in(base, seq!['/'] + name) == seq!['/'] + name,
{
    reveal_strlit("/");
    assert("/"@ =~= seq!['/']);
    assert(name.contains(name[0]));
    if base.len() > 0 {
        if base.last() == '/' {
            let front = base.drop_last();
            assert(front.push('/') =~= base);
            if front.len() > 0 {
                crate::path::lemma_path_step(front, name);
                assert(path_parts(base) == path_parts(front));
            } else {
                assert(base =~= seq!['/']);
                crate::path::lemma_path_start(name);
                assert(path_parts(base).push(name) =~= seq![seq!['/'], name]);
            }
        } else {
            crate::path::lemma_path_step(base, name);
            assert(base + "/"@ + name =~= base.push('/') + name);
        }
    }
    assert((seq!['/'] + name)[0] == '/');
}

/// The name of a branch in a key: a character that is neither a letter nor a digit of ASCII becomes
/// a dash, the others stay where they stand, and nothing is moved; a long name is cut.
pub proof fn lemma_sanitized(name: Seq<char>)
    ensures
        sanitized(name).len() <= name.len(),
        sanitized(name).len() <= BRANCH_KEY_NAME_MAX,
        sanitized(name).len() == name.len() || sanitized(name).len() == BRANCH_KEY_NAME_MAX,
        forall|i: int|
            0 <= i < sanitized(name).len() && ('a' <= name[i] <= 'z' || 'A' <= name[i] <= 'Z' || '0'
                <= name[i] <= '9') ==> #[trigger] sanitized(name)[i] == name[i],
        forall|i: int|
            0 <= i < sanitized(name).len() && !('a' <= name[i] <= 'z' || 'A' <= name[i] <= 'Z'
                || '0' <= name[i] <= '9') ==> #[trigger] sanitized(name)[i] == '-',
{
}

/// The directory of git that a file names is the one on the first line that names one.
pub proof fn lemma_gitdir(
    before: Seq<Seq<char>>,
    line: Seq<char>,
    dir: Seq<char>,
    after: Seq<Seq<char>>,
)
    requires
        forall|i: int|
            0 <= i < before.len() ==> !has_prefix(trimmed(#[trigger] before[i]), "gitdir:"@),
        trimmed(line) == "gitdir:"@ + dir,
    ensures
        gitdir_in(before.push(line) + after) == Some(trimmed(dir)),
        gitdir_in(before) is None,
    decreases before.len(),
{
    let ls = before.push(line) + after;
    crate::text::lemma_holding_text(Seq::empty(), "gitdir:"@, dir);
    if before.len() > 0 {
        assert(!has_prefix(trimmed(before[0]), "gitdir:"@));
        let rest = before.skip(1);
        assert forall|i: int| 0 <= i < rest.len() implies !has_prefix(
            trimmed(#[trigger] rest[i]),
            "gitdir:"@,
        ) by {
            assert(rest[i] == before[i + 1]);
        }
        lemma_gitdir(rest, line, dir, after);
        assert(ls.skip(1) =~= rest.push(line) + after);
        assert(ls[0] == before[0]);
    } else {
        assert(ls[0] == line);
    }
}

/// The branch that is checked out is the one that `HEAD` refers to; where it refers to none, the
/// default name and key stand for it.
pub proof fn lemma_head_branch(branch: Seq<char>, text: Seq<char>)
    requires
        trimmed(text) == "ref: refs/heads/"@ + branch,
    ensures
        head_branch(Some(text)) == Some(branch),
        name_of_head(Some(text)) == branch,
        key_of_head(Some(text)) == branch_key(branch),
        name_of_head(None) == DEFAULT_BRANCH_KEY@,
        key_of_head(None) == DEFAULT_BRANCH_KEY@,
{
    crate::text::lemma_holding_text(Seq::empty(), "ref: refs/heads/"@, branch);
}

/// A `HEAD` that refers to no branch names its commit itself, and no branch.
pub proof fn lemma_detached_head(text: Seq<char>, own: RefFiles, common: Option<RefFiles>)
    ensures
        !has_prefix(trimmed(text), "ref: "@) ==> head_commit_of(Some(text), own, common) == Some(
            trimmed(text),
        ),
        !has_prefix(trimmed(text), "ref: refs/heads/"@) ==> head_branch(Some(text)) is None
            && name_of_head(Some(text)) == DEFAULT_BRANCH_KEY@,
        head_commit_of(None, own, common) is None,
{
}

/// The commit of a reference: its own file counts before the packed ones, and the files of the
/// worktree before the common ones.
pub proof fn lemma_commit_of_ref(
    text: Seq<char>,
    name: Seq<char>,
    own: RefFiles,
    common: Option<RefFiles>,
)
    requires
        trimmed(text) == "ref: "@ + name,
    ensures
        own.loose matches Some(h) ==> head_commit_of(Some(text), own, common) == Some(trimmed(h@)),
        own.loose is None && own.packed is None && common is None ==> head_commit_of(
            Some(text),
            own,
            common,
        ) is None,
        own.loose is None && own.packed is None ==> (common matches Some(c) ==> (
        c.loose matches Some(h) ==> head_commit_of(Some(text), own, common) == Some(trimmed(h@)))),
        own.loose is None ==> (own.packed matches Some(p) ==> (packed_ref(
            text_lines(p@),
            name,
        ) matches Some(h) ==> head_commit_of(Some(text), own, common) == Some(h))),
{
    crate::text::lemma_holding_text(Seq::empty(), "ref: "@, name);
}

/// A packed reference is found on the first line that names it, as the word in front of its name;
/// lines that name another one, and comments, are passed over.
pub proof fn lemma_packed_ref(
    before: Seq<Seq<char>>,
    hash: Seq<char>,
    name: Seq<char>,
    after: Seq<Seq<char>>,
)
    requires
        forall|i: int| 0 <= i < before.len() ==> packed_line(#[trigger] before[i], name) is None,
        hash.len() > 0 && hash[0] != '#',
        name.len() > 0,
        forall|i: int| 0 <= i < hash.len() ==> !crate::text::is_space(#[trigger] hash[i]),
        forall|i: int| 0 <= i < name.len() ==> !crate::text::is_space(#[trigger] name[i]),
    ensures
        packed_ref(before.push(hash.push(' ') + name) + after, name) == Some(hash),
        packed_ref(before, name) is None,
        forall|t: Seq<char>| #[trigger]
            has_prefix(trimmed(t), "#"@) ==> packed_line(t, name) is None,
    decreases before.len(),
{
    let line = hash.push(' ') + name;
    let ls = before.push(line) + after;
    if before.len() > 0 {
        let rest = before.skip(1);
        assert(packed_line(before[0], name) is None);
        assert forall|i: int| 0 <= i < rest.len() implies packed_line(
            #[trigger] rest[i],
            name,
        ) is None by {
            assert(rest[i] == before[i + 1]);
        }
        lemma_packed_ref(rest, hash, name, after);
        assert(ls.skip(1) =~= rest.push(line) + after);
        assert(ls[0] == before[0]);
    } else {
        assert(ls[0] == line);
        let none = Seq::<char>::empty();
        assert(line[0] == hash[0]);
        assert(line.last() == name[name.len() - 1]);
        crate::text::lemma_trim_takes_space(none, line, none);
        assert(none + line + none =~= line);
        assert(!crate::text::is_space(hash[0]));
        crate::text::lemma_words_of(hash, ' ', name);
        crate::text::lemma_words_of(name, ' ', none);
        assert(words(line) =~= seq![hash, name]);
        reveal_strlit("#");
        if has_prefix(line, "#"@) {
            assert(line.subrange(0, 1)[0] == line[0]);
        }
    }
}

/// A snapshot holds what is there of the five parts of an index, the database always, and nothing
/// without the database; the database is copied as one state, the sparse index is linked, and the
/// rest is copied.
pub proof fn lemma_mirror_plan(p: PresentParts)
    ensures
        ({
            let r = mirror_plan(p);
            &&& r.len() == 0 <==> !p.chunks_db
            &&& p.chunks_db ==> {
                &&& r[0] == ("chunks.db"@, MirrorMethod::DatabaseSnapshot)
                &&& p.meta_json ==> r.contains(("meta.json"@, MirrorMethod::Copy))
                &&& p.models_toml ==> r.contains(("models.toml"@, MirrorMethod::Copy))
                &&& p.dense ==> r.contains(("dense"@, MirrorMethod::Copy))
                &&& p.sparse ==> r.contains(("sparse"@, MirrorMethod::HardLink))
                &&& r.len() == 1 + (if p.meta_json { 1int } else { 0 }) + (if p.models_toml {
                    1int
                } else {
                    0
                }) + (if p.dense { 1int } else { 0 }) + (if p.sparse { 1int } else { 0 })
            }
        }),
{
    let r = mirror_plan(p);
    if p.chunks_db {
        let a = if p.meta_json { 1int } else { 0 };
        let b = if p.models_toml { 1int } else { 0 };
        let c = if p.dense { 1int } else { 0 };
        if p.meta_json {
            assert(r[1] == ("meta.json"@, MirrorMethod::Copy));
        }
        if p.models_toml {
            assert(r[1 + a] == ("models.toml"@, MirrorMethod::Copy));
        }
        if p.dense {
            assert(r[1 + a + b] == ("dense"@, MirrorMethod::Copy));
        }
        if p.sparse {
            assert(r[1 + a + b + c] == ("sparse"@, MirrorMethod::HardLink));
        }
    }
}

/// The snapshots of a project lie two directories below its root, in those of the index.
pub proof fn lemma_snapshots_in(project_root: Seq<char>)
    requires
        project_root.len() > 0,
    ensures
        path_parts(snapshots_in(project_root)) == path_parts(project_root).push(".semantex"@).push(
            "indexes"@,
        ),
{
    reveal_strlit(".semantex");
    reveal_strlit("indexes");
    reveal_strlit(".");
    reveal_strlit("/");
    let a = ".semantex"@;
    let b = "indexes"@;
    assert(a =~= seq!['.', 's', 'e', 'm', 'a', 'n', 't', 'e', 'x']);
    assert(b =~= seq!['i', 'n', 'd', 'e', 'x', 'e', 's']);
    assert(a.len() != "."@.len() && b.len() != "."@.len());
    lemma_path_in(project_root, a);
    lemma_path_in(path_in(project_root, a), b);
}

/// The directory of git of a project.
pub open spec fn git_dir_of(project_root: Seq<char>, dot_git: DotGit) -> Option<Seq<char>> {
    match dot_git {
        DotGit::Dir => Some(path_in(project_root, ".git"@)),
        DotGit::File(Some(content)) => match gitdir_in(text_lines(content@)) {
            Some(p) => Some(path_in(project_root, p)),
            None => None,
        },
        _ => None,
    }
}

/// The directory of git of a project lies a step below its root; where a file stands there instead,
/// it is the one that the file names, which may lie anywhere.
pub proof fn lemma_git_dir(project_root: Seq<char>, content: String, name: Seq<char>)
    requires
        project_root.len() > 0,
    ensures
        git_dir_of(project_root, DotGit::Dir) matches Some(p) && path_parts(p) == path_parts(
            project_root,
        ).push(".git"@),
        gitdir_in(text_lines(content@)) == Some(seq!['/'] + name) ==> git_dir_of(
            project_root,
            DotGit::File(Some(content)),
        ) == Some(seq!['/'] + name),
        gitdir_in(text_lines(content@)) is None ==> git_dir_of(
            project_root,
            DotGit::File(Some(content)),
        ) is None,
        git_dir_of(project_root, DotGit::File(None)) is None,
{
    reveal_strlit(".git");
    reveal_strlit(".");
    let g = ".git"@;
    assert(g =~= seq!['.', 'g', 'i', 't']);
    assert(g.len() != "."@.len());
    lemma_path_in(project_root, g);
    assert((seq!['/'] + name)[0] == '/');
}

} // verus!
