use semantex_core::index::layout::{
    branch_index_dir, branch_key_for_branch, branch_meta_for, common_git_dir, container_dir,
    current_branch_key, current_branch_name, find_packed_ref, gitdir_pointer, head_ref,
    history_db_path, indexes_root, join_path, memory_db_path, mirror_into_branch_dir,
    mirror_tmp_dir, project_meta_for, project_meta_path, ref_name_hash8, resolve_git_dir,
    resolve_git_head_branch, resolve_git_head_commit, resolve_ref_in, sanitize_branch_name,
    BranchMeta, DotGit, MirrorMethod, PresentParts, RefFiles, BRANCH_KEY_NAME_MAX,
    DEFAULT_BRANCH_KEY, LAYOUT_VERSION,
};
use semantex_core::path::{file_name, parts, path_starts_with, same_path};
use semantex_core::types::IndexMeta;

fn no_refs() -> RefFiles {
    RefFiles { loose: None, packed: None }
}

fn sample_index_meta() -> IndexMeta {
    IndexMeta {
        schema_version: 13,
        project_path: "/x".to_string(),
        created_at: "0".to_string(),
        updated_at: "0".to_string(),
        file_count: 3,
        chunk_count: 9,
        embedding_model: "CodeRankEmbed".to_string(),
        embedding_dim: 768,
        use_bm25_stemmer: true,
        dense_backend: "coderank-hnsw".to_string(),
        embedder_fingerprint: "fp".to_string(),
    }
}

#[test]
fn sanitize_replaces_non_alnum() {
    assert_eq!(sanitize_branch_name("feature/foo-bar"), "feature-foo-bar");
    assert_eq!(sanitize_branch_name("main"), "main");
    assert_eq!(sanitize_branch_name("a b.c"), "a-b-c");
}

#[test]
fn branch_key_is_deterministic_and_unique_per_name() {
    let k1 = branch_key_for_branch("main");
    let k2 = branch_key_for_branch("main");
    let k3 = branch_key_for_branch("develop");
    assert_eq!(k1, k2, "same branch name must yield the same key");
    assert_ne!(k1, k3, "different branch names must yield different keys");
    assert!(k1.starts_with("main-"));
    let hash_part = k1.rsplit('-').next().unwrap();
    assert_eq!(hash_part.len(), 8);
    assert!(hash_part.chars().all(|c| c.is_ascii_hexdigit()));
}

#[test]
fn digest_of_a_known_name() {
    // SHA-256 of "abc" begins with ba7816bf.
    assert_eq!(ref_name_hash8("abc"), "ba7816bf");
    assert_eq!(branch_key_for_branch("abc"), "abc-ba7816bf");
}

#[test]
fn non_git_dir_resolves_to_default_branch_key() {
    assert_eq!(current_branch_key(None), DEFAULT_BRANCH_KEY);
    assert_eq!(current_branch_name(None), DEFAULT_BRANCH_KEY);
    assert_eq!(resolve_git_dir("/p", &DotGit::Missing), None);
}

#[test]
fn resolves_current_branch_from_real_git_dir() {
    let head = Some("ref: refs/heads/feature/x\n");
    assert_eq!(resolve_git_head_branch(head), Some("feature/x".to_string()));
    assert_eq!(current_branch_key(head), branch_key_for_branch("feature/x"));
    assert_eq!(current_branch_name(head), "feature/x");
}

#[test]
fn detached_head_resolves_to_default() {
    let head = Some("deadbeefdeadbeefdeadbeef\n");
    assert_eq!(resolve_git_head_branch(head), None);
    assert_eq!(current_branch_key(head), DEFAULT_BRANCH_KEY);
    assert_eq!(
        resolve_git_head_commit(head, &no_refs(), &None),
        Some("deadbeefdeadbeefdeadbeef".to_string())
    );
}

#[test]
fn worktree_gitdir_pointer_is_followed() {
    let content = "gitdir: /t/real.git/worktrees/wt1\n";
    assert_eq!(gitdir_pointer(content), Some("/t/real.git/worktrees/wt1".to_string()));
    assert_eq!(
        resolve_git_dir("/t/worktree-dir", &DotGit::File(Some(content.to_string()))),
        Some("/t/real.git/worktrees/wt1".to_string())
    );
    assert_eq!(
        resolve_git_dir("/t/wt", &DotGit::File(Some("gitdir: ../main/.git\n".to_string()))),
        Some("/t/wt/../main/.git".to_string())
    );
    assert_eq!(resolve_git_dir("/t", &DotGit::Dir), Some("/t/.git".to_string()));
    assert_eq!(resolve_git_dir("/t", &DotGit::File(None)), None);
    assert_eq!(resolve_git_head_branch(Some("ref: refs/heads/main\n")), Some("main".to_string()));
}

#[test]
fn project_meta_is_superset_compatible_with_index_meta() {
    let meta = project_meta_for("proj-abc", Some("ref: refs/heads/main\n"), sample_index_meta());
    assert_eq!(meta.active_index_meta.schema_version, 13);
    assert_eq!(meta.active_index_meta.embedder_fingerprint, "fp");
    assert_eq!(meta.layout_version, LAYOUT_VERSION);
    assert_eq!(meta.project_id, "proj-abc");
    assert_eq!(meta.default_branch, "main");
}

#[test]
fn sync_on_empty_project_is_a_safe_no_op_for_mirror() {
    let nothing = PresentParts {
        chunks_db: false,
        meta_json: true,
        models_toml: true,
        dense: true,
        sparse: true,
    };
    assert!(mirror_into_branch_dir(nothing).is_empty());
}

#[test]
fn branch_key_name_prefix_is_capped() {
    let long_name = "x".repeat(500);
    let key = branch_key_for_branch(&long_name);
    assert_eq!(key.len(), BRANCH_KEY_NAME_MAX + 1 + 8, "key was: {key}");
    let key2 = branch_key_for_branch(&format!("{}{}", "x".repeat(64), "different-tail"));
    assert_ne!(key, key2);
    assert_eq!(key, branch_key_for_branch(&long_name));
}

#[test]
fn worktree_commondir_fallback_resolves_head_commit() {
    let head = Some("ref: refs/heads/main\n");
    let common = Some(RefFiles { loose: Some("cafebabe\n".to_string()), packed: None });
    assert_eq!(
        resolve_git_head_commit(head, &no_refs(), &common),
        Some("cafebabe".to_string())
    );
    let packed = Some(RefFiles {
        loose: None,
        packed: Some("deadf00d refs/heads/main\n".to_string()),
    });
    assert_eq!(
        resolve_git_head_commit(head, &no_refs(), &packed),
        Some("deadf00d".to_string())
    );
    assert_eq!(resolve_git_head_commit(head, &no_refs(), &None), None);
    assert_eq!(common_git_dir("/m/.git/worktrees/wt1", "../..\n"), "/m/.git/worktrees/wt1/../..");
}

#[test]
fn packed_refs_skip_comments_and_other_names() {
    let packed = "# pack-refs with: peeled\naaa refs/heads/x\nbbb refs/heads/main\n^ccc\n";
    assert_eq!(find_packed_ref(packed, "refs/heads/main"), Some("bbb".to_string()));
    assert_eq!(find_packed_ref(packed, "refs/heads/none"), None);
    let own = RefFiles { loose: Some(" 123 \n".to_string()), packed: Some(packed.to_string()) };
    assert_eq!(resolve_ref_in(&own, "refs/heads/main"), Some("123".to_string()));
    assert_eq!(head_ref("ref: refs/heads/main\n"), Some("refs/heads/main".to_string()));
    assert_eq!(head_ref("0123\n"), None);
}

#[test]
fn paths_of_the_layout() {
    assert_eq!(container_dir("/p"), "/p/.semantex");
    assert_eq!(indexes_root("/p"), "/p/.semantex/indexes");
    assert_eq!(branch_index_dir("/p", "k"), "/p/.semantex/indexes/k");
    assert_eq!(mirror_tmp_dir("/p", "k"), "/p/.semantex/indexes/k.tmp-mirror");
    assert_eq!(history_db_path("/p"), "/p/.semantex/history.db");
    assert_eq!(memory_db_path("/p"), "/p/.semantex/memory.db");
    assert_eq!(project_meta_path("/p/"), "/p/.semantex/meta.json");
    assert_eq!(join_path("/p", "/abs"), "/abs");
    assert_eq!(join_path("", "rel"), "rel");
}

#[test]
fn a_snapshot_holds_no_notes_and_no_history() {
    let all = PresentParts {
        chunks_db: true,
        meta_json: true,
        models_toml: true,
        dense: true,
        sparse: true,
    };
    let steps = mirror_into_branch_dir(all);
    let names: Vec<&str> = steps.iter().map(|s| s.name).collect();
    assert_eq!(names, vec!["chunks.db", "meta.json", "models.toml", "dense", "sparse"]);
    assert_eq!(steps[0].method, MirrorMethod::DatabaseSnapshot);
    assert_eq!(steps[3].method, MirrorMethod::Copy);
    assert_eq!(steps[4].method, MirrorMethod::HardLink);
}

#[test]
fn branch_metadata_names_the_branch() {
    let m = branch_meta_for("k", Some("ref: refs/heads/dev\n"), Some("c1".to_string()));
    assert_eq!((m.branch.as_str(), m.branch_key.as_str()), ("dev", "k"));
    assert_eq!(m.head_commit.as_deref(), Some("c1"));
    let none = BranchMeta::default();
    assert!(none.branch.is_empty() && none.branch_key.is_empty() && none.head_commit.is_none());
}

#[test]
fn paths_are_told_apart_by_their_parts() {
    for p in ["/a/b", "/a//b/", "/a/./b", "a/b", "./a", ".", "..", "/", "", "a/../b", "//x", "a/."] {
        let shown: Vec<String> = std::path::Path::new(p)
            .components()
            .map(|c| c.as_os_str().to_str().unwrap().to_string())
            .collect();
        assert_eq!(parts(p), shown, "{p}");
        let name = std::path::Path::new(p).file_name().map(|n| n.to_str().unwrap().to_string());
        assert_eq!(file_name(p), name, "{p}");
    }
    assert!(same_path("/a/b", "/a//b/."));
    assert!(!same_path("/a/b", "a/b"));
    assert!(!same_path("./a", "a"));
    assert!(path_starts_with("/tmp/x/y", "/tmp/"));
    assert!(!path_starts_with("/tmpx", "/tmp"));
    assert!(!path_starts_with("/tmp", "/tmp/x"));
}
