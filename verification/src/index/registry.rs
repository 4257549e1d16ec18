//! The registry of indexed projects: what its file holds, and how entries come and go.

use crate::index::layout::{digest_prefix, digest_start, join_path, path_in};
use crate::json::{json_strings, json_strings_of};
use crate::path::{file_name, file_name_of, is_under, path_starts_with, same_path, same_path_of};
use crate::text::{decimal, decimal_text, hex, opt_text, same_text, trim, trimmed, views};
use vstd::prelude::*;

verus! {

/// A branch of a registered project.
#[derive(Debug, Clone, Default)]
pub struct BranchEntry {
    pub branch: String,
    pub branch_key: String,
    /// When it was last indexed, in seconds since 1970.
    pub last_indexed_ts: i64,
    pub head_commit: Option<String>,
}

/// What a [`BranchEntry`] holds.
pub struct BranchEntryView {
    pub branch: Seq<char>,
    pub branch_key: Seq<char>,
    pub last_indexed_ts: i64,
    pub head_commit: Option<Seq<char>>,
}

impl View for BranchEntry {
    type V = BranchEntryView;

    open spec fn view(&self) -> BranchEntryView {
        BranchEntryView {
            branch: self.branch@,
            branch_key: self.branch_key@,
            last_indexed_ts: self.last_indexed_ts,
            head_commit: opt_text(self.head_commit),
        }
    }
}

/// A registered project.
#[derive(Debug, Clone, Default)]
pub struct ProjectEntry {
    pub path: String,
    pub project_id: String,
    pub display_name: String,
    pub branches: Vec<BranchEntry>,
    pub embedder_fingerprint: String,
    /// Whether the path is a linked worktree, not the checkout that owns the repository.
    pub is_worktree: bool,
}

/// What a [`ProjectEntry`] holds.
pub struct ProjectEntryView {
    pub path: Seq<char>,
    pub project_id: Seq<char>,
    pub display_name: Seq<char>,
    pub branches: Seq<BranchEntryView>,
    pub embedder_fingerprint: Seq<char>,
    pub is_worktree: bool,
}

impl View for ProjectEntry {
    type V = ProjectEntryView;

    open spec fn view(&self) -> ProjectEntryView {
        ProjectEntryView {
            path: self.path@,
            project_id: self.project_id@,
            display_name: self.display_name@,
            branches: views(self.branches@),
            embedder_fingerprint: self.embedder_fingerprint@,
            is_worktree: self.is_worktree,
        }
    }
}

/// What the file of the registry holds.
#[derive(Debug, Clone)]
pub struct RegistryV2 {
    pub version: u32,
    pub projects: Vec<ProjectEntry>,
}

/// What a [`RegistryV2`] holds.
pub struct RegistryView {
    pub version: u32,
    pub projects: Seq<ProjectEntryView>,
}

impl View for RegistryV2 {
    type V = RegistryView;

    open spec fn view(&self) -> RegistryView {
        RegistryView { version: self.version, projects: views(self.projects@) }
    }
}

/// A registry with no project.
pub open spec fn empty_registry() -> RegistryView {
    RegistryView { version: 2, projects: Seq::empty() }
}

impl Default for RegistryV2 {
    fn default() -> (r: RegistryV2)
        ensures
            r@ == empty_registry(),
    {
        let r: RegistryV2 = RegistryV2 { version: 2, projects: Vec::new() };
        proof {
            assert(r@.projects =~= Seq::empty());
        }
        r
    }
}

/// The file of the registry.
pub fn registry_path(home: &str) -> (r: String)
    ensures
        r@ == path_in(home@, "projects.json"@),
{
    join_path(home, "projects.json")
}

/// The file that is written before it takes the place of `name`, by the process `pid`.
pub fn registry_tmp_name(name: &str, pid: u32) -> (r: String)
    ensures
        r@ == "."@ + name@ + ".tmp."@ + decimal(pid as nat),
{
    ".".to_owned().concat(name).concat(".tmp.").concat(&decimal_text(pid as u64))
}

/// The id of a project: the first 16 hexadecimal digits of the SHA-256 digest of its path.
pub open spec fn project_id(path: Seq<char>) -> Seq<char> {
    hex(digest_start(path, 8))
}

/// The id of a project.
pub fn project_id_for_path(canonical: &str) -> (r: String)
    ensures
        r@ == project_id(canonical@),
{
    digest_prefix(canonical, 8)
}

/// The name that a project is shown under: the last part of its path, or the path where the last
/// part names nothing.
pub open spec fn display_name(path: Seq<char>) -> Seq<char> {
    match file_name_of(path) {
        Some(n) => n,
        None => path,
    }
}

/// The name that a project is shown under.
pub fn display_name_for_path(path: &str) -> (r: String)
    ensures
        r@ == display_name(path@),
{
    match file_name(path) {
        Some(n) => n,
        None => path.to_owned(),
    }
}

/// A project as it is entered first.
pub open spec fn fresh_entry(path: Seq<char>, is_worktree: bool) -> ProjectEntryView {
    ProjectEntryView {
        path,
        project_id: project_id(path),
        display_name: display_name(path),
        branches: Seq::empty(),
        embedder_fingerprint: ""@,
        is_worktree,
    }
}

/// A project as it is entered first.
fn fresh(path: &str, is_worktree: bool) -> (r: ProjectEntry)
    ensures
        r@ == fresh_entry(path@, is_worktree),
{
    let r: ProjectEntry = ProjectEntry {
        path: path.to_owned(),
        project_id: project_id_for_path(path),
        display_name: display_name_for_path(path),
        branches: Vec::new(),
        embedder_fingerprint: "".to_owned(),
        is_worktree,
    };
    proof {
        assert(r@.branches =~= Seq::empty());
    }
    r
}

/// The registry that a bare list of paths stands for: each path a project as it is entered first.
pub open spec fn upgraded(paths: Seq<Seq<char>>) -> RegistryView {
    RegistryView {
        version: 2,
        projects: Seq::new(paths.len(), |i: int| fresh_entry(paths[i], false)),
    }
}

/// The registry that a bare list of paths stands for; without a list, an empty one.
pub fn registry_from_paths(paths: Option<Vec<String>>) -> (r: RegistryV2)
    ensures
        r@ == (match paths {
            Some(v) => upgraded(views(v@)),
            None => empty_registry(),
        }),
{
    let v: Vec<String> = match paths {
        Some(v) => v,
        None => {
            return RegistryV2::default();
        },
    };
    let mut projects: Vec<ProjectEntry> = Vec::new();
    let mut i: usize = 0;
    while i < v.len()
        invariant
            i <= v@.len(),
            projects@.len() == i,
            forall|k: int| 0 <= k < i ==> (#[trigger] projects@[k])@ == fresh_entry(v@[k]@, false),
        decreases v@.len() - i,
    {
        projects.push(fresh(&v[i], false));
        i = i + 1;
    }
    let r: RegistryV2 = RegistryV2 { version: 2, projects };
    proof {
        assert(r@.projects =~= upgraded(views(v@)).projects);
    }
    r
}

/// The view of an optional registry.
pub open spec fn opt_registry(o: Option<RegistryV2>) -> Option<RegistryView> {
    match o {
        Some(r) => Some(r@),
        None => None,
    }
}

/// What the file of the registry says: `content` is its text, if it can be read, and `current` what
/// that text holds, if it has the present shape. Text that has the former shape, a bare list of
/// paths, is upgraded; anything else is an empty registry.
pub open spec fn loaded(content: Option<Seq<char>>, current: Option<RegistryView>) -> RegistryView {
    match (content, current) {
        (None, _) => empty_registry(),
        (Some(_), Some(r)) => r,
        (Some(text), None) => match json_strings_of(text) {
            Some(paths) => upgraded(paths),
            None => empty_registry(),
        },
    }
}

/// What the file of the registry says.
pub fn load(content: Option<&str>, current: Option<RegistryV2>) -> (r: RegistryV2)
    ensures
        r@ == loaded(
            match content {
                Some(c) => Some(c@),
                None => None,
            },
            opt_registry(current),
        ),
{
    match (content, current) {
        (None, _) => RegistryV2::default(),
        (Some(_), Some(r)) => r,
        (Some(text), None) => registry_from_paths(json_strings(text)),
    }
}

/// The paths of the registered projects.
pub open spec fn paths_of(projects: Seq<ProjectEntryView>) -> Seq<Seq<char>> {
    Seq::new(projects.len(), |i: int| projects[i].path)
}

/// The paths of the registered projects, from what the file of the registry says.
pub fn read_all(content: Option<&str>, current: Option<RegistryV2>) -> (r: Vec<String>)
    ensures
        views(r@) == paths_of(
            loaded(
                match content {
                    Some(c) => Some(c@),
                    None => None,
                },
                opt_registry(current),
            ).projects,
        ),
{
    let registry: RegistryV2 = load(content, current);
    let mut paths: Vec<String> = Vec::new();
    let mut i: usize = 0;
    while i < registry.projects.len()
        invariant
            i <= registry.projects@.len(),
            paths@.len() == i,
            forall|k: int| 0 <= k < i ==> (#[trigger] paths@[k])@ == registry.projects@[k].path@,
        decreases registry.projects@.len() - i,
    {
        paths.push(registry.projects[i].path.clone());
        i = i + 1;
    }
    proof {
        assert(views(paths@) =~= paths_of(registry@.projects));
    }
    paths
}

/// All that the file of the registry says.
pub fn read_all_v2(content: Option<&str>, current: Option<RegistryV2>) -> (r: RegistryV2)
    ensures
        r@ == loaded(
            match content {
                Some(c) => Some(c@),
                None => None,
            },
            opt_registry(current),
        ),
{
    load(content, current)
}

/// The directories for temporary files: the one that the system names, and what each of the three
/// candidates resolves to, where it does.
#[derive(Debug, Clone)]
pub struct TempRoots {
    pub temp_dir: String,
    pub temp_dir_resolved: Option<String>,
    /// What `/tmp` resolves to.
    pub tmp_resolved: Option<String>,
    /// What `/private/tmp` resolves to.
    pub private_tmp_resolved: Option<String>,
}

impl TempRoots {
    /// The three candidates and what they resolve to.
    pub open spec fn all(&self) -> Seq<Option<Seq<char>>> {
        seq![
            Some(self.temp_dir@),
            Some("/tmp"@),
            Some("/private/tmp"@),
            opt_text(self.temp_dir_resolved),
            opt_text(self.tmp_resolved),
            opt_text(self.private_tmp_resolved),
        ]
    }
}

/// Whether a path is one of the directories.
pub open spec fn is_one_of(path: Seq<char>, roots: Seq<Option<Seq<char>>>) -> bool {
    exists|i: int|
        0 <= i < roots.len() && (#[trigger] roots[i]) is Some && same_path_of(path, roots[i]->0)
}

/// Whether a path is one of the directories or lies under one.
pub open spec fn is_under_one_of(path: Seq<char>, roots: Seq<Option<Seq<char>>>) -> bool {
    exists|i: int|
        0 <= i < roots.len() && (#[trigger] roots[i]) is Some && is_under(path, roots[i]->0)
}

fn resolved_is(path: &str, root: &Option<String>) -> (r: bool)
    ensures
        r == (root is Some && same_path_of(path@, root->0@)),
{
    match root {
        Some(t) => same_path(path, t),
        None => false,
    }
}

fn resolved_holds(path: &str, root: &Option<String>) -> (r: bool)
    ensures
        r == (root is Some && is_under(path@, root->0@)),
{
    match root {
        Some(t) => path_starts_with(path, t),
        None => false,
    }
}

/// Whether a path is a directory for temporary files itself, not one under it.
pub fn is_system_temp_root(path: &str, roots: &TempRoots) -> (r: bool)
    ensures
        r == is_one_of(path@, roots.all()),
{
    let r: bool = same_path(path, &roots.temp_dir) || same_path(path, "/tmp") || same_path(
        path,
        "/private/tmp",
    ) || resolved_is(path, &roots.temp_dir_resolved) || resolved_is(path, &roots.tmp_resolved)
        || resolved_is(path, &roots.private_tmp_resolved);
    proof {
        let all = roots.all();
        assert(all[0] == Some(roots.temp_dir@));
        assert(all[1] == Some("/tmp"@));
        assert(all[2] == Some("/private/tmp"@));
        assert(all[3] == opt_text(roots.temp_dir_resolved));
        assert(all[4] == opt_text(roots.tmp_resolved));
        assert(all[5] == opt_text(roots.private_tmp_resolved));
    }
    r
}

/// Whether a path is a directory for temporary files or lies under one.
pub fn is_under_system_temp_root(path: &str, roots: &TempRoots) -> (r: bool)
    ensures
        r == is_under_one_of(path@, roots.all()),
{
    let r: bool = path_starts_with(path, &roots.temp_dir) || path_starts_with(path, "/tmp")
        || path_starts_with(path, "/private/tmp") || resolved_holds(path, &roots.temp_dir_resolved)
        || resolved_holds(path, &roots.tmp_resolved) || resolved_holds(
        path,
        &roots.private_tmp_resolved,
    );
    proof {
        let all = roots.all();
        assert(all[0] == Some(roots.temp_dir@));
        assert(all[1] == Some("/tmp"@));
        assert(all[2] == Some("/private/tmp"@));
        assert(all[3] == opt_text(roots.temp_dir_resolved));
        assert(all[4] == opt_text(roots.tmp_resolved));
        assert(all[5] == opt_text(roots.private_tmp_resolved));
    }
    r
}

/// A directory for temporary files lies under itself: what is refused as a project is not indexed
/// unasked either.
pub proof fn lemma_temp_root_under_itself(path: Seq<char>, roots: Seq<Option<Seq<char>>>)
    ensures
        is_one_of(path, roots) ==> is_under_one_of(path, roots),
{
    if is_one_of(path, roots) {
        let i = choose|i: int|
            0 <= i < roots.len() && (#[trigger] roots[i]) is Some && same_path_of(
                path,
                roots[i]->0,
            );
        crate::path::lemma_under(path, path, path);
        assert(is_under(path, roots[i]->0));
    }
}

/// From this many repositories right under a directory on, the directory is a container of
/// repositories.
pub const MULTI_REPO_THRESHOLD: usize = 3;

/// The number of flags that are set.
pub open spec fn count_true(flags: Seq<bool>) -> nat
    decreases flags.len(),
{
    if flags.len() == 0 {
        0
    } else {
        count_true(flags.drop_last()) + if flags.last() {
            1nat
        } else {
            0
        }
    }
}

/// Whether a directory is a container of several repositories, not a project: it has no `.git`, and
/// at least three of its entries do. `entries` says of each whether it does; `None` if the
/// directory cannot be read.
pub fn is_likely_multi_repo_container(has_git: bool, entries: &Option<Vec<bool>>) -> (r: bool)
    ensures
        r == holds_many(
            has_git,
            match *entries {
                Some(e) => Some(e@),
                None => None,
            },
        ),
{
    if has_git {
        return false;
    }
    let v: &Vec<bool> = match entries {
        Some(v) => v,
        None => {
            return false;
        },
    };
    let mut n: usize = 0;
    let mut i: usize = 0;
    while i < v.len()
        invariant
            i <= v@.len(),
            n <= i,
            n == count_true(v@.take(i as int)),
        decreases v@.len() - i,
    {
        proof {
            assert(v@.take(i + 1).drop_last() =~= v@.take(i as int));
        }
        if v[i] {
            n = n + 1;
        }
        i = i + 1;
    }
    proof {
        assert(v@.take(i as int) =~= v@);
    }
    n >= MULTI_REPO_THRESHOLD
}

/// What git printed, if it succeeded and printed anything.
pub fn rev_parse_answer(success: bool, stdout: &str) -> (r: Option<String>)
    ensures
        opt_text(r) == (if success && trimmed(stdout@).len() > 0 {
            Some(trimmed(stdout@))
        } else {
            None
        }),
{
    if !success {
        return None;
    }
    let s: String = trim(stdout);
    if s.as_str().unicode_len() == 0 {
        None
    } else {
        Some(s)
    }
}

/// Whether a checkout is a linked worktree: its own git directory is not the one that all its
/// worktrees have in common. Where git gives no answer it counts as none.
pub fn is_worktree_checkout(git_dir: &Option<String>, common_dir: &Option<String>) -> (r: bool)
    ensures
        r == is_linked(opt_text(*git_dir), opt_text(*common_dir)),
{
    match (git_dir, common_dir) {
        (Some(g), Some(c)) => !same_path(g, c),
        _ => false,
    }
}

/// The items whose flag is set, in their order.
pub open spec fn kept_where<T>(items: Seq<T>, flags: Seq<bool>) -> Seq<T>
    decreases items.len(),
{
    if items.len() == 0 {
        Seq::empty()
    } else if flags[items.len() - 1] {
        kept_where(items.drop_last(), flags).push(items.last())
    } else {
        kept_where(items.drop_last(), flags)
    }
}

/// Drops the projects that `keep` refuses; returns the registry and how many were dropped. Nothing
/// need be written where none was.
pub fn retain<F: Fn(&ProjectEntry) -> bool>(registry: RegistryV2, keep: F) -> (r: (
    RegistryV2,
    usize,
))
    requires
        forall|p: &ProjectEntry| #[trigger] call_requires(keep, (p,)),
    ensures
        exists|flags: Seq<bool>|
            {
                &&& flags.len() == registry.projects@.len()
                &&& forall|i: int|
                    0 <= i < flags.len() ==> call_ensures(
                        keep,
                        (&registry.projects@[i],),
                        #[trigger] flags[i],
                    )
                &&& r.0.projects@ == #[trigger] kept_where(registry.projects@, flags)
                &&& r.1 == registry.projects@.len() - r.0.projects@.len()
            },
        r.0.version == registry.version,
{
    let ghost all = registry.projects@;
    let version: u32 = registry.version;
    let before: usize = registry.projects.len();
    let mut kept: Vec<ProjectEntry> = Vec::new();
    let mut answers: Vec<bool> = Vec::new();
    proof {
        assert(kept@ =~= kept_where(all.take(0), answers@));
    }
    for p in it: registry.projects
        invariant
            it.seq() == all,
            forall|p: &ProjectEntry| #[trigger] call_requires(keep, (p,)),
            answers@.len() == it.index(),
            kept@.len() <= it.index(),
            forall|i: int|
                0 <= i < answers@.len() ==> call_ensures(keep, (&all[i],), #[trigger] answers@[i]),
            kept@ == kept_where(all.take(it.index()), answers@),
    {
        let answer: bool = keep(&p);
        let ghost flags = answers@;
        answers.push(answer);
        proof {
            lemma_kept_where_flags(all.take(it.index()), flags, answers@);
            assert(all.take(it.index() + 1).drop_last() =~= all.take(it.index()));
            assert(all.take(it.index() + 1).last() == p);
        }
        if answer {
            kept.push(p);
        }
    }
    proof {
        assert(all.take(all.len() as int) =~= all);
    }
    let removed: usize = before - kept.len();
    (RegistryV2 { version, projects: kept }, removed)
}

proof fn lemma_kept_where_flags<T>(items: Seq<T>, a: Seq<bool>, b: Seq<bool>)
    requires
        forall|i: int| 0 <= i < items.len() ==> a[i] == b[i],
    ensures
        kept_where(items, a) == kept_where(items, b),
    decreases items.len(),
{
    if items.len() > 0 {
        lemma_kept_where_flags(items.drop_last(), a, b);
    }
}

/// The first project with the path; the number of projects where none has it.
pub open spec fn project_at(projects: Seq<ProjectEntryView>, path: Seq<char>) -> int
    decreases projects.len(),
{
    if projects.len() == 0 {
        0
    } else {
        let f = project_at(projects.drop_last(), path);
        if f < projects.len() - 1 || same_path_of(projects.last().path, path) {
            f
        } else {
            projects.len() as int
        }
    }
}

/// Finds a project by its path.
fn find_project(projects: &Vec<ProjectEntry>, path: &str) -> (r: usize)
    ensures
        r == project_at(views(projects@), path@),
        r <= projects@.len(),
{
    let ghost all = views(projects@);
    let mut i: usize = 0;
    while i < projects.len()
        invariant
            i <= projects@.len(),
            all == views(projects@),
            project_at(all.take(i as int), path@) == i,
        decreases projects@.len() - i,
    {
        proof {
            assert(all.take(i + 1).drop_last() =~= all.take(i as int));
            assert(all.take(i + 1).last() == projects@[i as int]@);
        }
        if same_path(&projects[i].path, path) {
            proof {
                lemma_project_at_take(all, path@, i + 1);
            }
            return i;
        }
        i = i + 1;
    }
    proof {
        assert(all.take(i as int) =~= all);
    }
    i
}

proof fn lemma_project_at_take(projects: Seq<ProjectEntryView>, path: Seq<char>, n: int)
    requires
        0 <= n <= projects.len(),
        project_at(projects.take(n), path) < n,
    ensures
        project_at(projects, path) == project_at(projects.take(n), path),
    decreases projects.len(),
{
    if n < projects.len() {
        assert(projects.drop_last().take(n) =~= projects.take(n));
        lemma_project_at_take(projects.drop_last(), path, n);
    } else {
        assert(projects.take(n) =~= projects);
    }
}

/// The project found has the path, and none before it has.
pub proof fn lemma_project_at(projects: Seq<ProjectEntryView>, path: Seq<char>)
    ensures
        0 <= project_at(projects, path) <= projects.len(),
        project_at(projects, path) < projects.len() ==> same_path_of(
            projects[project_at(projects, path)].path,
            path,
        ),
        forall|i: int|
            0 <= i < project_at(projects, path) ==> !same_path_of(
                (#[trigger] projects[i]).path,
                path,
            ),
    decreases projects.len(),
{
    if projects.len() > 0 {
        let front = projects.drop_last();
        lemma_project_at(front, path);
        let f = project_at(front, path);
        if f < front.len() {
            assert(front[f] == projects[f]);
        }
        assert forall|i: int| 0 <= i < project_at(projects, path) implies !same_path_of(
            (#[trigger] projects[i]).path,
            path,
        ) by {
            if i < front.len() {
                assert(front[i] == projects[i]);
            }
        }
    }
}

/// The registry with the project in it: as before where the path is a directory for temporary
/// files or is registered already, else with a new entry at the end.
pub open spec fn registered(
    r: RegistryView,
    path: Seq<char>,
    roots: Seq<Option<Seq<char>>>,
    is_worktree: bool,
) -> RegistryView {
    if is_one_of(path, roots) || project_at(r.projects, path) < r.projects.len() {
        r
    } else {
        RegistryView { projects: r.projects.push(fresh_entry(path, is_worktree)), ..r }
    }
}

/// Registers a project; says whether the registry has changed and is to be written.
pub fn register(
    registry: &mut RegistryV2,
    canonical: &str,
    roots: &TempRoots,
    is_worktree: bool,
) -> (r: bool)
    ensures
        final(registry)@ == registered(old(registry)@, canonical@, roots.all(), is_worktree),
        r == (!is_one_of(canonical@, roots.all()) && project_at(
            old(registry)@.projects,
            canonical@,
        ) == old(registry)@.projects.len()),
{
    if is_system_temp_root(canonical, roots) {
        return false;
    }
    let at: usize = find_project(&registry.projects, canonical);
    if at < registry.projects.len() {
        return false;
    }
    let entry: ProjectEntry = fresh(canonical, is_worktree);
    let ghost shown = registry@;
    registry.projects.push(entry);
    proof {
        assert(registry@.projects =~= shown.projects.push(entry@));
    }
    true
}

/// The first branch with the key; the number of branches where none has it.
pub open spec fn branch_at(branches: Seq<BranchEntryView>, key: Seq<char>) -> int
    decreases branches.len(),
{
    if branches.len() == 0 {
        0
    } else {
        let f = branch_at(branches.drop_last(), key);
        if f < branches.len() - 1 || branches.last().branch_key == key {
            f
        } else {
            branches.len() as int
        }
    }
}

/// Finds a branch by its key.
fn find_branch(branches: &Vec<BranchEntry>, key: &str) -> (r: usize)
    ensures
        r == branch_at(views(branches@), key@),
        r <= branches@.len(),
{
    let ghost all = views(branches@);
    let mut i: usize = 0;
    while i < branches.len()
        invariant
            i <= branches@.len(),
            all == views(branches@),
            branch_at(all.take(i as int), key@) == i,
        decreases branches@.len() - i,
    {
        proof {
            assert(all.take(i + 1).drop_last() =~= all.take(i as int));
            assert(all.take(i + 1).last() == branches@[i as int]@);
        }
        if same_text(&branches[i].branch_key, key) {
            proof {
                lemma_branch_at_take(all, key@, i + 1);
            }
            return i;
        }
        i = i + 1;
    }
    proof {
        assert(all.take(i as int) =~= all);
    }
    i
}

proof fn lemma_branch_at_take(branches: Seq<BranchEntryView>, key: Seq<char>, n: int)
    requires
        0 <= n <= branches.len(),
        branch_at(branches.take(n), key) < n,
    ensures
        branch_at(branches, key) == branch_at(branches.take(n), key),
    decreases branches.len(),
{
    if n < branches.len() {
        assert(branches.drop_last().take(n) =~= branches.take(n));
        lemma_branch_at_take(branches.drop_last(), key, n);
    } else {
        assert(branches.take(n) =~= branches);
    }
}

/// The branch found has the key, and none before it has.
pub proof fn lemma_branch_at(branches: Seq<BranchEntryView>, key: Seq<char>)
    ensures
        0 <= branch_at(branches, key) <= branches.len(),
        branch_at(branches, key) < branches.len() ==> branches[branch_at(
            branches,
            key,
        )].branch_key == key,
        forall|i: int|
            0 <= i < branch_at(branches, key) ==> (#[trigger] branches[i]).branch_key != key,
    decreases branches.len(),
{
    if branches.len() > 0 {
        let front = branches.drop_last();
        lemma_branch_at(front, key);
        let f = branch_at(front, key);
        if f < front.len() {
            assert(front[f] == branches[f]);
        }
        assert forall|i: int| 0 <= i < branch_at(branches, key) implies (
        #[trigger] branches[i]).branch_key != key by {
            if i < front.len() {
                assert(front[i] == branches[i]);
            }
        }
    }
}

/// The branches with `b` in the place of the one with its key, or at the end where there is none.
pub open spec fn with_branch(branches: Seq<BranchEntryView>, b: BranchEntryView) -> Seq<
    BranchEntryView,
> {
    let at = branch_at(branches, b.branch_key);
    if at < branches.len() {
        branches.update(at, b)
    } else {
        branches.push(b)
    }
}

/// Puts a branch in the place of the one with its key, or at the end.
fn put_branch(branches: &mut Vec<BranchEntry>, b: BranchEntry)
    ensures
        views(final(branches)@) == with_branch(views(old(branches)@), b@),
{
    let ghost shown = views(branches@);
    let at: usize = find_branch(branches, &b.branch_key);
    let ghost bv = b@;
    if at < branches.len() {
        branches.set(at, b);
        proof {
            assert(views(branches@) =~= shown.update(at as int, bv));
        }
    } else {
        branches.push(b);
        proof {
            assert(views(branches@) =~= shown.push(bv));
        }
    }
}

/// The projects with the branch `b` recorded for the one that has the path, which is entered where
/// it is not there yet.
pub open spec fn with_project_branch(
    projects: Seq<ProjectEntryView>,
    path: Seq<char>,
    b: BranchEntryView,
    fingerprint: Seq<char>,
    is_worktree: bool,
) -> Seq<ProjectEntryView> {
    let at = project_at(projects, path);
    let ps = if at < projects.len() {
        projects
    } else {
        projects.push(fresh_entry(path, is_worktree))
    };
    ps.update(
        at,
        ProjectEntryView {
            embedder_fingerprint: fingerprint,
            branches: with_branch(ps[at].branches, b),
            ..ps[at]
        },
    )
}

/// The registry with the branch recorded; as before where the path is a directory for temporary
/// files.
pub open spec fn branch_recorded(
    r: RegistryView,
    path: Seq<char>,
    b: BranchEntryView,
    fingerprint: Seq<char>,
    roots: Seq<Option<Seq<char>>>,
    is_worktree: bool,
) -> RegistryView {
    if is_one_of(path, roots) {
        r
    } else {
        RegistryView {
            projects: with_project_branch(r.projects, path, b, fingerprint, is_worktree),
            ..r
        }
    }
}

/// Records that a branch was indexed; says whether the registry is to be written.
pub fn upsert_branch(
    registry: &mut RegistryV2,
    canonical: &str,
    branch: &str,
    branch_key: &str,
    last_indexed_ts: i64,
    head_commit: Option<String>,
    embedder_fingerprint: &str,
    roots: &TempRoots,
    is_worktree: bool,
) -> (r: bool)
    ensures
        final(registry)@ == branch_recorded(
            old(registry)@,
            canonical@,
            (BranchEntryView {
                branch: branch@,
                branch_key: branch_key@,
                last_indexed_ts,
                head_commit: opt_text(head_commit),
            }),
            embedder_fingerprint@,
            roots.all(),
            is_worktree,
        ),
        r == !is_one_of(canonical@, roots.all()),
{
    if is_system_temp_root(canonical, roots) {
        return false;
    }
    let ghost shown = registry@.projects;
    let at: usize = find_project(&registry.projects, canonical);
    if at >= registry.projects.len() {
        registry.projects.push(fresh(canonical, is_worktree));
    }
    let ghost ps = views(registry.projects@);
    proof {
        assert(ps =~= if at < shown.len() {
            shown
        } else {
            shown.push(fresh_entry(canonical@, is_worktree))
        });
    }
    let entry: BranchEntry = BranchEntry {
        branch: branch.to_owned(),
        branch_key: branch_key.to_owned(),
        last_indexed_ts,
        head_commit,
    };
    let mut project: ProjectEntry = registry.projects[at].clone_entry();
    project.embedder_fingerprint = embedder_fingerprint.to_owned();
    put_branch(&mut project.branches, entry);
    let ghost pv = project@;
    registry.projects.set(at, project);
    proof {
        assert(views(registry.projects@) =~= ps.update(at as int, pv));
    }
    true
}

impl BranchEntry {
    /// A copy of the entry.
    pub fn clone_entry(&self) -> (r: BranchEntry)
        ensures
            r@ == self@,
    {
        BranchEntry {
            branch: self.branch.clone(),
            branch_key: self.branch_key.clone(),
            last_indexed_ts: self.last_indexed_ts,
            head_commit: match &self.head_commit {
                Some(h) => Some(h.clone()),
                None => None,
            },
        }
    }
}

impl ProjectEntry {
    /// A copy of the entry.
    pub fn clone_entry(&self) -> (r: ProjectEntry)
        ensures
            r@ == self@,
    {
        let mut branches: Vec<BranchEntry> = Vec::new();
        let mut i: usize = 0;
        while i < self.branches.len()
            invariant
                i <= self.branches@.len(),
                branches@.len() == i,
                forall|k: int| 0 <= k < i ==> (#[trigger] branches@[k])@ == self.branches@[k]@,
            decreases self.branches@.len() - i,
        {
            branches.push(self.branches[i].clone_entry());
            i = i + 1;
        }
        let r: ProjectEntry = ProjectEntry {
            path: self.path.clone(),
            project_id: self.project_id.clone(),
            display_name: self.display_name.clone(),
            branches,
            embedder_fingerprint: self.embedder_fingerprint.clone(),
            is_worktree: self.is_worktree,
        };
        proof {
            assert(r@.branches =~= self@.branches);
        }
        r
    }
}

/// No two projects have the same path, and no two branches of a project the same key.
pub open spec fn no_duplicates(projects: Seq<ProjectEntryView>) -> bool {
    &&& forall|i: int, j: int|
        0 <= i < j < projects.len() ==> !same_path_of(
            (#[trigger] projects[i]).path,
            (#[trigger] projects[j]).path,
        )
    &&& forall|i: int| 0 <= i < projects.len() ==> distinct_keys((#[trigger] projects[i]).branches)
}

/// No two branches have the same key.
pub open spec fn distinct_keys(branches: Seq<BranchEntryView>) -> bool {
    forall|i: int, j: int|
        0 <= i < j < branches.len() ==> (#[trigger] branches[i]).branch_key != (
        #[trigger] branches[j]).branch_key
}

/// Registering a project that is registered changes nothing, and one that is not refused is there
/// afterwards; what was there stays as it was, and no duplicate comes in.
pub proof fn lemma_register(
    r: RegistryView,
    path: Seq<char>,
    roots: Seq<Option<Seq<char>>>,
    is_worktree: bool,
    again: bool,
)
    ensures
        ({
            let once = registered(r, path, roots, is_worktree);
            &&& registered(once, path, roots, again) == once
            &&& !is_one_of(path, roots) ==> project_at(once.projects, path) < once.projects.len()
            &&& once.projects.len() <= r.projects.len() + 1
            &&& r.projects.is_prefix_of(once.projects)
            &&& no_duplicates(r.projects) ==> no_duplicates(once.projects)
        }),
{
    let once = registered(r, path, roots, is_worktree);
    lemma_project_at(r.projects, path);
    if once == r {
        assert(r.projects.subrange(0, r.projects.len() as int) =~= r.projects);
    } else {
        assert(once.projects.drop_last() =~= r.projects);
        assert(once.projects.subrange(0, r.projects.len() as int) =~= r.projects);
        if no_duplicates(r.projects) {
            assert forall|i: int, j: int| 0 <= i < j < once.projects.len() implies !same_path_of(
                (#[trigger] once.projects[i]).path,
                (#[trigger] once.projects[j]).path,
            ) by {
                assert(once.projects[i] == r.projects[i]);
                if j < r.projects.len() {
                    assert(once.projects[j] == r.projects[j]);
                }
            }
            assert forall|i: int| 0 <= i < once.projects.len() implies distinct_keys(
                (#[trigger] once.projects[i]).branches,
            ) by {
                if i < r.projects.len() {
                    assert(once.projects[i] == r.projects[i]);
                }
            }
        }
    }
}

/// After a branch is recorded, its key is found with what was recorded; every other branch stays as
/// it was, and no key comes in twice.
pub proof fn lemma_with_branch(branches: Seq<BranchEntryView>, b: BranchEntryView)
    ensures
        ({
            let after = with_branch(branches, b);
            let at = branch_at(branches, b.branch_key);
            &&& after[at] == b
            &&& branch_at(after, b.branch_key) == at
            &&& after.len() == if at < branches.len() {
                branches.len()
            } else {
                branches.len() + 1
            }
            &&& forall|i: int|
                0 <= i < branches.len() && i != at ==> #[trigger] after[i] == branches[i]
            &&& distinct_keys(branches) ==> distinct_keys(after)
        }),
{
    let after = with_branch(branches, b);
    let at = branch_at(branches, b.branch_key);
    lemma_branch_at(branches, b.branch_key);
    lemma_branch_at(after, b.branch_key);
    let found = branch_at(after, b.branch_key);
    if found < at {
        assert(after[found] == branches[found]);
    } else if found > at {
        assert(after[at].branch_key == b.branch_key);
    }
    if distinct_keys(branches) {
        assert forall|i: int, j: int| 0 <= i < j < after.len() implies (
        #[trigger] after[i]).branch_key != (#[trigger] after[j]).branch_key by {
            if i != at {
                assert(after[i] == branches[i]);
            }
            if j != at {
                assert(after[j] == branches[j]);
            }
            if at < branches.len() {
                assert(branches[at].branch_key == b.branch_key);
            }
        }
    }
}

/// After a branch is recorded, its project is in the registry once, with the branch as recorded and
/// the new fingerprint; every other project stays as it was. No duplicate comes in, and to record
/// the same again changes nothing more.
pub proof fn lemma_branch_recorded(
    r: RegistryView,
    path: Seq<char>,
    b: BranchEntryView,
    fingerprint: Seq<char>,
    roots: Seq<Option<Seq<char>>>,
    is_worktree: bool,
)
    requires
        !is_one_of(path, roots),
    ensures
        ({
            let after = branch_recorded(r, path, b, fingerprint, roots, is_worktree).projects;
            let at = project_at(r.projects, path);
            &&& project_at(after, path) == at && at < after.len()
            &&& after[at].embedder_fingerprint == fingerprint
            &&& after[at].branches[branch_at(after[at].branches, b.branch_key)] == b
            &&& after.len() == if at < r.projects.len() {
                r.projects.len()
            } else {
                r.projects.len() + 1
            }
            &&& forall|i: int|
                0 <= i < r.projects.len() && i != at ==> #[trigger] after[i] == r.projects[i]
            &&& no_duplicates(r.projects) ==> no_duplicates(after)
            &&& with_project_branch(after, path, b, fingerprint, is_worktree) == after
        }),
{
    let at = project_at(r.projects, path);
    let ps = if at < r.projects.len() {
        r.projects
    } else {
        r.projects.push(fresh_entry(path, is_worktree))
    };
    let after = with_project_branch(r.projects, path, b, fingerprint, is_worktree);
    lemma_project_at(r.projects, path);
    lemma_project_at(after, path);
    lemma_with_branch(ps[at].branches, b);
    assert(same_path_of(after[at].path, path));
    let found = project_at(after, path);
    if found < at {
        assert(after[found] == r.projects[found]);
    } else if found > at {
        assert(same_path_of(after[at].path, path));
    }
    let bs = after[at].branches;
    let k = branch_at(ps[at].branches, b.branch_key);
    lemma_branch_at(ps[at].branches, b.branch_key);
    assert(with_branch(bs, b) =~= bs) by {
        assert(branch_at(bs, b.branch_key) == k);
        assert(bs.update(k, b) =~= bs);
    }
    assert(with_project_branch(after, path, b, fingerprint, is_worktree) =~= after);
    if no_duplicates(r.projects) {
        assert(distinct_keys(ps[at].branches));
        assert forall|i: int, j: int| 0 <= i < j < after.len() implies !same_path_of(
            (#[trigger] after[i]).path,
            (#[trigger] after[j]).path,
        ) by {
            assert(after[i].path == ps[i].path);
            assert(after[j].path == ps[j].path);
            if j < r.projects.len() {
                assert(ps[i] == r.projects[i] && ps[j] == r.projects[j]);
            } else {
                assert(ps[i] == r.projects[i]);
            }
        }
        assert forall|i: int| 0 <= i < after.len() implies distinct_keys(
            (#[trigger] after[i]).branches,
        ) by {
            if i != at {
                assert(after[i] == r.projects[i]);
            }
        }
    }
}

/// A bare list of paths keeps its paths, in their order, when it is upgraded.
pub proof fn lemma_upgrade_keeps_paths(paths: Seq<Seq<char>>)
    ensures
        paths_of(upgraded(paths).projects) == paths,
        upgraded(paths).version == 2,
{
    assert(paths_of(upgraded(paths).projects) =~= paths);
}

proof fn lemma_kept_at<T>(items: Seq<T>, flags: Seq<bool>, places: spec_fn(int) -> bool)
    requires
        forall|i: int| #[trigger] places(i) == flags[i],
    ensures
        ({
            let at = Seq::new(items.len(), |i: int| i).filter(places);
            let r = kept_where(items, flags);
            &&& r.len() == at.len()
            &&& forall|k: int|
                0 <= k < r.len() ==> 0 <= #[trigger] at[k] < items.len() && r[k] == items[at[k]]
        }),
    decreases items.len(),
{
    reveal(Seq::filter);
    let all = Seq::new(items.len(), |i: int| i);
    if items.len() > 0 {
        let front = items.drop_last();
        lemma_kept_at(front, flags, places);
        assert(all.drop_last() =~= Seq::new(front.len(), |i: int| i));
        assert(all.last() == items.len() - 1);
        assert(places(items.len() - 1) == flags[items.len() - 1]);
        let at = Seq::new(front.len(), |i: int| i).filter(places);
        let r = kept_where(items, flags);
        let at2 = all.filter(places);
        assert forall|k: int| 0 <= k < r.len() implies 0 <= #[trigger] at2[k] < items.len() && r[k]
            == items[at2[k]] by {
            if k < at.len() {
                assert(at2[k] == at[k]);
                assert(items[at[k]] == front[at[k]]);
            }
        }
    }
}

/// What is kept are the items whose flag is set, in their order; there are as many as flags are
/// set.
pub proof fn lemma_kept_where<T>(items: Seq<T>, flags: Seq<bool>)
    ensures
        ({
            let at = Seq::new(items.len(), |i: int| i).filter(|i: int| flags[i]);
            let r = kept_where(items, flags);
            &&& r.len() == at.len()
            &&& forall|k: int| 0 <= k < r.len() ==> r[k] == items[#[trigger] at[k]]
        }),
        items.len() == flags.len() ==> kept_where(items, flags).len() == count_true(flags),
{
    let places = |i: int| flags[i];
    lemma_kept_at(items, flags, places);
    if items.len() == flags.len() {
        lemma_kept_count(items, flags);
    }
}

proof fn lemma_kept_count<T>(items: Seq<T>, flags: Seq<bool>)
    requires
        items.len() <= flags.len(),
    ensures
        kept_where(items, flags).len() == count_true(flags.take(items.len() as int)),
        items.len() == flags.len() ==> kept_where(items, flags).len() == count_true(flags),
    decreases items.len(),
{
    let n = items.len() as int;
    if n > 0 {
        lemma_kept_count(items.drop_last(), flags);
        assert(flags.take(n).drop_last() =~= flags.take(n - 1));
        assert(flags.take(n).last() == flags[n - 1]);
    }
    if items.len() == flags.len() {
        assert(flags.take(n) =~= flags);
    }
}

/// As many flags are set as there are set ones among them.
pub proof fn lemma_count_true(flags: Seq<bool>)
    ensures
        count_true(flags) == flags.filter(|b: bool| b).len(),
        count_true(flags) <= flags.len(),
        count_true(flags) == flags.len() <==> forall|i: int| 0 <= i < flags.len() ==> #[trigger] flags[i],
        count_true(flags) == 0 <==> forall|i: int| 0 <= i < flags.len() ==> !#[trigger] flags[i],
    decreases flags.len(),
{
    reveal(Seq::filter);
    if flags.len() > 0 {
        let front = flags.drop_last();
        let n = flags.len() - 1;
        lemma_count_true(front);
        assert(flags[n] == flags.last());
        if forall|i: int| 0 <= i < flags.len() ==> #[trigger] flags[i] {
            assert forall|i: int| 0 <= i < front.len() implies #[trigger] front[i] by {
                assert(flags[i]);
            }
        }
        if forall|i: int| 0 <= i < flags.len() ==> !#[trigger] flags[i] {
            assert forall|i: int| 0 <= i < front.len() implies !#[trigger] front[i] by {
                assert(!flags[i]);
            }
        }
        assert forall|i: int| 0 <= i < n implies front[i] == #[trigger] flags[i] by {}
    }
}

/// What is loaded: nothing where there is no file, the registry where it can be read, and what is
/// upgraded from a bare list of paths where the file holds one.
pub proof fn lemma_loaded(text: Seq<char>, r: RegistryView)
    ensures
        loaded(None, None).projects.len() == 0,
        loaded(None, Some(r)).projects.len() == 0,
        loaded(Some(text), Some(r)) == r,
        json_strings_of(text) is None ==> loaded(Some(text), None).projects.len() == 0,
        json_strings_of(text) matches Some(paths) ==> {
            let p = loaded(Some(text), None).projects;
            &&& p.len() == paths.len()
            &&& forall|i: int|
                0 <= i < p.len() ==> (#[trigger] p[i]).path == paths[i] && p[i].branches.len() == 0
                    && !p[i].is_worktree && p[i].embedder_fingerprint.len() == 0
        },
{
    reveal_strlit("");
}

/// A project is shown under the last component of its path.
pub proof fn lemma_display_name(base: Seq<char>, name: Seq<char>, is_worktree: bool)
    requires
        base.len() > 0,
        name.len() > 0,
        !name.contains('/'),
        name != "."@ && name != ".."@,
    ensures
        ({
            let e = fresh_entry(base.push('/') + name, is_worktree);
            &&& e.display_name == name
            &&& e.path == base.push('/') + name
            &&& e.is_worktree == is_worktree
            &&& e.branches.len() == 0
        }),
{
    crate::path::lemma_file_name(base, name);
}

/// The system's directories for temporary files, and the one that is set, are never projects
/// themselves, and what lies in them is not indexed unasked.
pub proof fn lemma_temp_dirs(t: TempRoots, name: Seq<char>)
    requires
        name.len() > 0,
        !name.contains('/'),
        name != "."@,
    ensures
        is_one_of("/tmp"@, t.all()),
        is_one_of("/private/tmp"@, t.all()),
        is_one_of(t.temp_dir@, t.all()),
        t.temp_dir_resolved matches Some(d) ==> is_one_of(d@, t.all()),
        t.tmp_resolved matches Some(d) ==> is_one_of(d@, t.all()),
        t.private_tmp_resolved matches Some(d) ==> is_one_of(d@, t.all()),
        is_under_one_of("/tmp"@.push('/') + name, t.all()),
        is_under_one_of("/private/tmp"@.push('/') + name, t.all()),
        t.temp_dir@.len() > 0 ==> is_under_one_of(t.temp_dir@.push('/') + name, t.all()),
{
    reveal_strlit("/tmp");
    reveal_strlit("/private/tmp");
    let all = t.all();
    assert(all[0] == Some(t.temp_dir@));
    assert(all[1] == Some("/tmp"@));
    assert(all[2] == Some("/private/tmp"@));
    assert(all[3] == opt_text(t.temp_dir_resolved));
    assert(all[4] == opt_text(t.tmp_resolved));
    assert(all[5] == opt_text(t.private_tmp_resolved));
    crate::path::lemma_file_name("/tmp"@, name);
    crate::path::lemma_file_name("/private/tmp"@, name);
    if t.temp_dir@.len() > 0 {
        crate::path::lemma_file_name(t.temp_dir@, name);
    }
}

/// A directory looks like one that holds many repositories: it is none itself, and enough of its
/// entries are.
pub open spec fn holds_many(has_git: bool, entries: Option<Seq<bool>>) -> bool {
    !has_git && entries is Some && count_true(entries->0) >= MULTI_REPO_THRESHOLD
}

/// A repository never counts as a directory of many, and neither does what cannot be listed; every
/// other directory does exactly if as many of its entries as the threshold are repositories.
pub proof fn lemma_holds_many(entries: Seq<bool>)
    ensures
        !holds_many(true, Some(entries)),
        !holds_many(false, None),
        holds_many(false, Some(entries)) <==> entries.filter(|b: bool| b).len()
            >= MULTI_REPO_THRESHOLD,
{
    lemma_count_true(entries);
}

/// A checkout is a linked one: its own directory of git is not the common one.
pub open spec fn is_linked(git_dir: Option<Seq<char>>, common_dir: Option<Seq<char>>) -> bool {
    git_dir is Some && common_dir is Some && !same_path_of(git_dir->0, common_dir->0)
}

/// A checkout with one directory of git, however it is written, is not a linked one; where one of
/// the two is not known, it is not taken for one either.
pub proof fn lemma_linked(dir: Seq<char>, name: Seq<char>)
    requires
        dir.len() > 0,
        name.len() > 0 && !name.contains('/') && name != "."@,
    ensures
        !is_linked(Some(dir), Some(dir)),
        !is_linked(Some(dir.push('/')), Some(dir)),
        !is_linked(None, Some(dir)),
        !is_linked(Some(dir), None),
        is_linked(Some(dir.push('/') + name), Some(dir)),
{
    crate::path::lemma_file_name(dir, name);
    crate::path::lemma_path_step(dir, name);
    assert(crate::path::path_parts(dir).push(name).len() != crate::path::path_parts(dir).len());
}

/// The id of a project has sixteen characters, each the digit of a hexadecimal number.
pub proof fn lemma_project_id(path: Seq<char>)
    ensures
        project_id(path).len() == 16,
        forall|i: int|
            0 <= i < 16 ==> '0' <= (#[trigger] project_id(path)[i]) <= '9' || 'a' <= project_id(
                path,
            )[i] <= 'f',
{
    let b = digest_start(path, 8);
    assert forall|i: int| 0 <= i < 16 implies '0' <= (#[trigger] project_id(path)[i]) <= '9' || 'a'
        <= project_id(path)[i] <= 'f' by {
        crate::text::lemma_hex_digits(b, i / 2);
        assert(i == 2 * (i / 2) || i == 2 * (i / 2) + 1);
    }
}

} // verus!
