use semantex_core::index::branches::{
    branch_switch_pending, detect_and_handle_branch_switch, enforce_retention,
    enforce_retention_with_cap, max_branch_indexes, record_branch_indexed,
    root_embedder_fingerprint, BranchSwitchAction, IndexedFacts, SnapshotEntry, SwitchFacts,
    SwitchWork,
};
use semantex_core::index::layout::{branch_key_for_branch, BranchMeta, RefFiles};
use semantex_core::index::registry::{RegistryV2, TempRoots};
use semantex_core::types::IndexMeta;

fn meta_of(branch: &str, commit: Option<&str>) -> BranchMeta {
    BranchMeta {
        branch: branch.to_string(),
        branch_key: branch_key_for_branch(branch),
        head_commit: commit.map(|c| c.to_string()),
    }
}

fn on(branch: &str, root: Option<BranchMeta>) -> SwitchFacts {
    SwitchFacts {
        new_key: branch_key_for_branch(branch),
        root_meta: root,
        new_snapshot: false,
        outgoing_snapshot: false,
        outgoing_meta: None,
    }
}

fn snapshot(branch: &str, modified: i128) -> SnapshotEntry {
    SnapshotEntry { name: branch_key_for_branch(branch), modified }
}

fn roots() -> TempRoots {
    TempRoots {
        temp_dir: "/var/tmp-of-user".to_string(),
        temp_dir_resolved: None,
        tmp_resolved: None,
        private_tmp_resolved: None,
    }
}

#[test]
fn round_trip_switch_a_to_b_and_back_restores_a() {
    let mut facts = on("b", Some(meta_of("a", Some("1"))));
    let (action, work) = detect_and_handle_branch_switch(&facts);
    assert!(matches!(action, BranchSwitchAction::SnapshottedOutgoing { .. }), "{action:?}");
    assert_eq!(work, SwitchWork::MirrorOutgoing);
    assert!(action.switched());

    facts = on("a", Some(meta_of("b", Some("2"))));
    facts.new_snapshot = true;
    let (back, work) = detect_and_handle_branch_switch(&facts);
    assert!(matches!(back, BranchSwitchAction::Restored { .. }), "{back:?}");
    assert_eq!(work, SwitchWork::RestoreSnapshot);
    assert!(back.switched());
}

#[test]
fn unchanged_branch_is_a_no_op() {
    let (action, work) =
        detect_and_handle_branch_switch(&on("main", Some(meta_of("main", Some("1")))));
    assert!(matches!(action, BranchSwitchAction::Unchanged { .. }));
    assert_eq!(work, SwitchWork::Nothing);
    assert!(!action.switched());
}

#[test]
fn brand_new_project_is_first_build() {
    let (action, work) = detect_and_handle_branch_switch(&on("main", None));
    assert!(matches!(action, BranchSwitchAction::FirstBuild));
    assert_eq!(work, SwitchWork::Nothing);
}

#[test]
fn branch_switch_pending_is_cheap_and_read_only() {
    let root = Some(meta_of("main", None));
    assert!(!branch_switch_pending(&root, &branch_key_for_branch("main")));
    assert!(branch_switch_pending(&root, &branch_key_for_branch("feature")));
    assert_eq!(root.unwrap().branch, "main");
    assert!(!branch_switch_pending(&None, &branch_key_for_branch("feature")));
}

#[test]
fn retention_evicts_oldest_but_never_the_current_branch() {
    let entries = vec![snapshot("one", 2), snapshot("two", 4), snapshot("three", 6)];
    let current_key = branch_key_for_branch("three");
    let evicted = enforce_retention_with_cap(entries, &current_key, 2);
    assert_eq!(evicted, vec![branch_key_for_branch("one")]);

    let entries = vec![snapshot("one", 2), snapshot("two", 4), snapshot("three", 6)];
    let evicted = enforce_retention_with_cap(entries, &branch_key_for_branch("one"), 1);
    assert_eq!(
        evicted,
        vec![branch_key_for_branch("three"), branch_key_for_branch("two")]
    );
}

#[test]
fn retention_default_cap_is_five_and_keeps_all_when_under_cap() {
    let three = || ["a", "b", "c"].iter().map(|n| snapshot(n, 1)).collect::<Vec<_>>();
    let current_key = branch_key_for_branch("c");
    let evicted = enforce_retention_with_cap(three(), &current_key, 5);
    assert!(evicted.is_empty(), "3 snapshots is under a cap of 5");
    assert!(enforce_retention(three(), &current_key, None).is_empty());
    let seven: Vec<SnapshotEntry> = (0..7).map(|i| snapshot(&format!("n{i}"), i)).collect();
    assert_eq!(enforce_retention(seven, &branch_key_for_branch("n0"), None).len(), 2);
}

#[test]
fn as_many_snapshots_go_as_there_are_over_the_cap() {
    let six = || (0..6).map(|i| snapshot(&format!("n{i}"), i)).collect::<Vec<_>>();
    let gone = |current: &str, cap| {
        enforce_retention_with_cap(six(), &branch_key_for_branch(current), cap).len()
    };
    assert_eq!((gone("n0", 7), gone("n0", 6), gone("n0", 5), gone("n0", 2)), (0, 0, 1, 4));
    assert_eq!((gone("n0", 1), gone("n0", 0)), (5, 5));
    // A current branch without a snapshot has its place all the same.
    assert_eq!((gone("other", 5), gone("other", 1)), (2, 6));
}

#[test]
fn snapshots_in_the_making_are_not_counted() {
    let mut entries = vec![snapshot("one", 1), snapshot("two", 2)];
    entries.push(SnapshotEntry { name: "x.tmp-mirror.1".to_string(), modified: 9 });
    assert!(enforce_retention_with_cap(entries, &branch_key_for_branch("one"), 2).is_empty());
}

#[test]
fn failed_build_does_not_contaminate_outgoing_branch_snapshot() {
    let mut facts = on("b", Some(meta_of("a", Some("1"))));
    facts.outgoing_snapshot = true;
    facts.outgoing_meta = Some(meta_of("a", Some("1")));
    let (_, work) = detect_and_handle_branch_switch(&facts);
    assert_eq!(work, SwitchWork::KeepOutgoing);
}

#[test]
fn stale_outgoing_snapshot_is_remirrored_on_switch() {
    let mut facts = on("b", Some(meta_of("a", Some("1"))));
    facts.outgoing_snapshot = true;
    facts.outgoing_meta = Some(meta_of("a", Some("0000000000000000000000000000000000000000")));
    let (action, work) = detect_and_handle_branch_switch(&facts);
    assert!(matches!(action, BranchSwitchAction::SnapshottedOutgoing { .. }));
    assert_eq!(work, SwitchWork::MirrorOutgoing);
}

#[test]
fn max_branch_indexes_parses_env_override_and_rejects_garbage() {
    assert_eq!(max_branch_indexes(Some("3")), 3);
    assert_eq!(max_branch_indexes(Some("not-a-number")), 5);
    assert_eq!(max_branch_indexes(Some("0")), 5);
    assert_eq!(max_branch_indexes(None), 5);
}

#[test]
fn recording_a_branch_updates_the_registry_and_the_snapshots() {
    let mut registry = RegistryV2::default();
    let meta = IndexMeta {
        schema_version: 13,
        project_path: "/repo".to_string(),
        created_at: "0".to_string(),
        updated_at: "0".to_string(),
        file_count: 1,
        chunk_count: 1,
        embedding_model: "CodeRankEmbed".to_string(),
        embedding_dim: 768,
        use_bm25_stemmer: true,
        dense_backend: "coderank-hnsw".to_string(),
        embedder_fingerprint: "fp".to_string(),
    };
    let mut facts = IndexedFacts {
        project_root: "/repo".to_string(),
        head: Some("ref: refs/heads/main\n".to_string()),
        own: RefFiles { loose: Some("c1\n".to_string()), packed: None },
        common: None,
        meta: Some(meta),
        now: 7,
        roots: roots(),
        is_worktree: false,
    };
    let entries = vec![snapshot("main", 3), snapshot("old", 1), snapshot("dev", 2)];
    let (changed, evicted) = record_branch_indexed(&mut registry, &facts, entries, Some("2"));
    assert!(changed);
    assert_eq!(evicted, vec![branch_key_for_branch("old")]);
    let p = &registry.projects[0];
    assert_eq!(p.embedder_fingerprint, "fp");
    assert_eq!(p.branches[0].branch, "main");
    assert_eq!(p.branches[0].branch_key, branch_key_for_branch("main"));
    assert_eq!(p.branches[0].head_commit.as_deref(), Some("c1"));
    assert_eq!(p.branches[0].last_indexed_ts, 7);

    facts.project_root = "/tmp".to_string();
    let (changed, evicted) = record_branch_indexed(&mut registry, &facts, vec![], None);
    assert!(!changed);
    assert!(evicted.is_empty());
    assert_eq!(registry.projects.len(), 1);
    assert_eq!(root_embedder_fingerprint(&None), "");
}
