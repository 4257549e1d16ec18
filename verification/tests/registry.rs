use semantex_core::index::registry::{
    display_name_for_path, is_likely_multi_repo_container, is_system_temp_root,
    is_under_system_temp_root, is_worktree_checkout, load, project_id_for_path, read_all,
    read_all_v2, register, registry_path, registry_tmp_name, retain, rev_parse_answer,
    upsert_branch, ProjectEntry, RegistryV2, TempRoots,
};

const TEMP_DIR: &str = "/var/folders/t";

fn roots() -> TempRoots {
    TempRoots {
        temp_dir: TEMP_DIR.to_string(),
        temp_dir_resolved: Some("/private/var/folders/t".to_string()),
        tmp_resolved: Some("/private/tmp".to_string()),
        private_tmp_resolved: None,
    }
}

fn paths(r: &RegistryV2) -> Vec<String> {
    r.projects.iter().map(|p| p.path.clone()).collect()
}

fn some(s: &str) -> Option<String> {
    Some(s.to_string())
}

#[test]
fn is_worktree_checkout_false_for_non_git_dir() {
    assert!(!is_worktree_checkout(&None, &None));
    assert!(!is_worktree_checkout(&some("/r/.git"), &None));
}

#[test]
fn is_worktree_checkout_distinguishes_main_from_linked_worktree() {
    assert!(!is_worktree_checkout(&some("/r/.git"), &some("/r/.git/")));
    assert!(is_worktree_checkout(&some("/r/.git/worktrees/x"), &some("/r/.git")));
}

#[test]
fn register_at_stamps_is_worktree_correctly() {
    let mut reg = RegistryV2::default();
    assert!(register(&mut reg, "/repo/main", &roots(), false));
    assert!(register(&mut reg, "/repo/linked", &roots(), true));
    assert!(!reg.projects[0].is_worktree);
    assert!(reg.projects[1].is_worktree);
}

#[test]
fn register_and_read_all_round_trip() {
    let mut reg = RegistryV2::default();
    assert!(register(&mut reg, "/tmp/project-one", &roots(), false));
    assert!(register(&mut reg, "/tmp/project-two", &roots(), false));
    assert!(!register(&mut reg, "/tmp/project-one", &roots(), false));
    assert!(!register(&mut reg, "/tmp/project-one/", &roots(), false));

    let all = paths(&reg);
    assert_eq!(all.len(), 2);
    assert!(all.contains(&"/tmp/project-one".to_string()));
    assert!(all.contains(&"/tmp/project-two".to_string()));
    assert_eq!(reg.version, 2);
    let entry = &reg.projects[0];
    assert_eq!(entry.project_id, project_id_for_path("/tmp/project-one"));
    assert_eq!(entry.display_name, "project-one");
    assert_eq!(read_all(Some("{}"), Some(reg)), all);
}

#[test]
fn multi_repo_container_true_above_threshold_when_root_has_no_git() {
    assert!(is_likely_multi_repo_container(false, &Some(vec![true, true, true])));
}

#[test]
fn multi_repo_container_false_below_threshold() {
    assert!(!is_likely_multi_repo_container(false, &Some(vec![true, true, false])));
}

#[test]
fn multi_repo_container_false_when_root_itself_is_a_repo() {
    assert!(!is_likely_multi_repo_container(true, &Some(vec![true, true, true])));
}

#[test]
fn multi_repo_container_false_for_plain_non_git_directory() {
    assert!(!is_likely_multi_repo_container(false, &Some(vec![false])));
    assert!(!is_likely_multi_repo_container(false, &None));
}

#[test]
fn is_system_temp_root_true_for_env_temp_dir_and_unix_aliases() {
    assert!(is_system_temp_root(TEMP_DIR, &roots()));
    assert!(is_system_temp_root("/private/var/folders/t", &roots()));
    assert!(is_system_temp_root("/tmp", &roots()));
    assert!(is_system_temp_root("/private/tmp", &roots()));
}

#[test]
fn is_system_temp_root_false_for_a_subdirectory_or_unrelated_path() {
    assert!(!is_system_temp_root("/tmp/some-scratch-repo", &roots()));
    assert!(!is_system_temp_root("/Users/dev/my-project", &roots()));
}

#[test]
fn is_under_system_temp_root_true_for_root_and_any_depth_subdirectory() {
    assert!(is_under_system_temp_root("/tmp", &roots()));
    assert!(is_under_system_temp_root("/tmp/some-scratch-repo", &roots()));
    assert!(is_under_system_temp_root(
        "/private/tmp/pytest-of-tk/pytest-1/tiny_corpus",
        &roots()
    ));
}

#[test]
fn is_under_system_temp_root_false_for_unrelated_path() {
    assert!(!is_under_system_temp_root("/Users/dev/my-project", &roots()));
}

#[test]
fn register_at_refuses_the_system_temp_root() {
    let mut reg = RegistryV2::default();
    assert!(!register(&mut reg, TEMP_DIR, &roots(), false));
    assert!(reg.projects.is_empty());
}

#[test]
fn upsert_branch_at_refuses_the_system_temp_root() {
    let mut reg = RegistryV2::default();
    let changed = upsert_branch(
        &mut reg, TEMP_DIR, "main", "main-abc", 1, None, "fp", &roots(), false,
    );
    assert!(!changed);
    assert!(reg.projects.is_empty());
}

#[test]
fn retain_removes_only_entries_the_predicate_rejects() {
    let mut reg = RegistryV2::default();
    register(&mut reg, "/tmp/keep-me", &roots(), false);
    register(&mut reg, "/tmp/drop-me", &roots(), false);
    let (reg, removed) = retain(reg, |p: &ProjectEntry| p.path != "/tmp/drop-me");
    assert_eq!(removed, 1);
    assert_eq!(paths(&reg), vec!["/tmp/keep-me".to_string()]);
    assert_eq!(reg.version, 2);
}

#[test]
fn retain_is_a_no_op_write_when_nothing_is_removed() {
    let mut reg = RegistryV2::default();
    register(&mut reg, "/tmp/keep-me", &roots(), false);
    let (reg, removed) = retain(reg, |_: &ProjectEntry| true);
    assert_eq!(removed, 0);
    assert_eq!(paths(&reg), vec!["/tmp/keep-me".to_string()]);
}

#[test]
fn v1_array_is_upgraded_to_v2_on_load() {
    let v1_json =
        serde_json::to_string(&vec!["/repo/a".to_string(), "/repo/b".to_string()]).unwrap();
    let mut v2 = load(Some(&v1_json), None);
    assert_eq!(v2.version, 2);
    assert_eq!(v2.projects.len(), 2);
    assert!(v2.projects.iter().any(|p| p.path == "/repo/a"));
    assert_eq!(v2.projects[0].project_id, project_id_for_path("/repo/a"));
    assert_eq!(v2.projects[1].display_name, "b");

    assert!(register(&mut v2, "/repo/c", &roots(), false));
    assert_eq!(v2.version, 2);
    assert_eq!(v2.projects.len(), 3);
}

#[test]
fn upsert_branch_creates_project_and_updates_existing_branch() {
    let mut reg = RegistryV2::default();
    let proj = "/tmp/branchy-project";
    assert!(upsert_branch(
        &mut reg, proj, "main", "main-abc12345", 100, some("c1"), "fp1", &roots(), false,
    ));
    let entry = &reg.projects[0];
    assert_eq!(entry.branches.len(), 1);
    assert_eq!(entry.branches[0].last_indexed_ts, 100);
    assert_eq!(entry.embedder_fingerprint, "fp1");

    upsert_branch(
        &mut reg, proj, "main", "main-abc12345", 200, some("c2"), "fp2", &roots(), false,
    );
    let entry = &reg.projects[0];
    assert_eq!(entry.branches.len(), 1);
    assert_eq!(entry.branches[0].last_indexed_ts, 200);
    assert_eq!(entry.branches[0].head_commit, Some("c2".to_string()));
    assert_eq!(entry.embedder_fingerprint, "fp2");

    upsert_branch(
        &mut reg, proj, "develop", "develop-def67890", 50, None, "fp2", &roots(), false,
    );
    assert_eq!(reg.projects.len(), 1);
    assert_eq!(reg.projects[0].branches.len(), 2);
}

#[test]
fn corrupt_registry_loads_as_empty_and_is_replaced_on_next_save() {
    let mut reg = load(Some("{ this is not json"), None);
    assert!(reg.projects.is_empty());
    assert!(register(&mut reg, "/tmp/recovered", &roots(), false));
    assert_eq!(reg.projects.len(), 1);
    assert!(load(None, None).projects.is_empty());
    assert!(load(Some("[1, 2]"), None).projects.is_empty());
}

#[test]
fn registry_path_honors_semantex_home_layout() {
    assert_eq!(registry_path("/home/u/.semantex"), "/home/u/.semantex/projects.json");
}

#[test]
fn project_id_is_stable_for_same_path() {
    let p = "/tmp/stable-id-project";
    assert_eq!(project_id_for_path(p), project_id_for_path(p));
    assert_ne!(project_id_for_path(p), project_id_for_path("/tmp/other-project"));
    // SHA-256 of "abc" begins with ba7816bf8f01cfea.
    assert_eq!(project_id_for_path("abc"), "ba7816bf8f01cfea");
}

#[test]
fn names_of_projects_and_files() {
    assert_eq!(display_name_for_path("/repo/a/"), "a");
    assert_eq!(display_name_for_path("/"), "/");
    assert_eq!(display_name_for_path("/x/.."), "/x/..");
    assert_eq!(registry_tmp_name("projects.json", 42), ".projects.json.tmp.42");
    assert_eq!(rev_parse_answer(true, " .git\n"), some(".git"));
    assert_eq!(rev_parse_answer(true, " \n"), None);
    assert_eq!(rev_parse_answer(false, ".git"), None);
    let r = read_all_v2(Some("x"), Some(RegistryV2 { version: 3, projects: vec![] }));
    assert_eq!(r.version, 3);
}
