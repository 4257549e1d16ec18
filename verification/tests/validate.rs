use semantex_core::index::storage::GraphStats;
use semantex_core::index::validate::{
    check_dense_index, check_graph_consistency, check_meta_db_consistency, check_sparse_index,
    check_stale_files, validate, IndexFacts, MtimeSample, StoreFacts, StoredCounts,
};
use semantex_core::types::IndexMeta;

const CURRENT: u32 = 13;

fn meta(file_count: u64, chunk_count: u64) -> Result<IndexMeta, String> {
    Ok(IndexMeta {
        schema_version: CURRENT,
        project_path: "/x".to_string(),
        created_at: "2026-01-01T00:00:00Z".to_string(),
        updated_at: "2026-01-01T00:00:00Z".to_string(),
        file_count,
        chunk_count,
        embedding_model: "test".to_string(),
        embedding_dim: 48,
        use_bm25_stemmer: true,
        dense_backend: "colbert-plaid".to_string(),
        embedder_fingerprint: "fp".to_string(),
    })
}

fn stats(symbols: usize) -> GraphStats {
    GraphStats {
        calls_resolved: 1,
        types_resolved: 2,
        hierarchy_resolved: 3,
        module_edges_count: 4,
        symbol_defs_count: symbols,
    }
}

fn store(files: u64, chunks: u64) -> Result<StoreFacts, String> {
    Ok(StoreFacts {
        counts: StoredCounts { files, chunks },
        present: Ok(vec![true; files as usize]),
        sample: vec![],
        graph: Ok(stats(5)),
    })
}

#[test]
fn test_validate_nonexistent_project() {
    let facts = IndexFacts {
        meta: Err("reading".to_string()),
        expected: CURRENT,
        store: Err("unable to open database file".to_string()),
        db_exists: false,
        plaid_exists: false,
        mapping_exists: false,
        mapping_len: None,
    };
    let report = validate(&facts);
    assert!(report.failed > 0);
    assert!(!report.all_passed());
    assert_eq!(report.failed, 5);
    assert_eq!(report.summary(), "0/5 checks passed");
}

#[test]
fn test_check_meta_db_consistency_matching() {
    let result = check_meta_db_consistency(&meta(1, 1), CURRENT, &store(1, 1));
    assert!(result.passed, "Expected pass, got: {}", result.message);
    assert_eq!(
        result.message,
        "OK: files=1 (meta: 1), chunks=1 (meta: 1), schema=v13"
    );
}

#[test]
fn test_check_meta_db_consistency_mismatch() {
    let result = check_meta_db_consistency(&meta(99, 999), CURRENT, &store(1, 1));
    assert!(!result.passed, "Expected fail, got: {}", result.message);
    assert_eq!(
        result.message,
        "file count mismatch: DB=1, meta=99; chunk count drift: DB=1, meta=999 (>49 tolerance)"
    );
}

#[test]
fn chunk_counts_may_drift_by_a_twentieth() {
    for (meta_chunks, db_chunks, ok) in [
        (100u64, 105u64, true),
        (100, 106, false),
        (100, 95, true),
        (100, 94, false),
        (3, 4, true),
        (3, 5, false),
        (0, 1, true),
        (39, 40, true),
        (40, 42, true),
        (40, 43, false),
    ] {
        let r = check_meta_db_consistency(&meta(1, meta_chunks), CURRENT, &store(1, db_chunks));
        assert_eq!(r.passed, ok, "{meta_chunks} {db_chunks}");
        let by_float = db_chunks.abs_diff(meta_chunks) <= (meta_chunks as f64 * 0.05).max(1.0) as u64;
        assert_eq!(ok, by_float);
    }
}

#[test]
fn metadata_errors_come_first() {
    let r = check_meta_db_consistency(&Err("gone".to_string()), CURRENT, &store(1, 1));
    assert_eq!(r.message, "Cannot read meta.json: gone");
    let r = check_meta_db_consistency(&meta(1, 1), 14, &Err("x".to_string()));
    assert_eq!(r.message, "Schema version mismatch: meta has 13, expected 14");
    let r = check_meta_db_consistency(&meta(1, 1), CURRENT, &Err("locked".to_string()));
    assert_eq!(r.message, "Cannot open chunks.db: locked");
}

#[test]
fn test_check_stale_files_all_present() {
    let mut s = store(1, 1).unwrap();
    s.sample = vec![MtimeSample { stored: 1000, on_disk: Some(1000) }];
    let result = check_stale_files(&Ok(s));
    assert!(result.passed, "Expected pass, got: {}", result.message);
    assert_eq!(result.message, "1 indexed files, all present, mtime sample OK");
}

#[test]
fn test_check_stale_files_missing() {
    let mut s = store(1, 1).unwrap();
    s.present = Ok(vec![false]);
    s.sample = vec![MtimeSample { stored: 1000, on_disk: None }];
    let result = check_stale_files(&Ok(s));
    assert!(!result.passed, "Expected fail, got: {}", result.message);
    assert!(result.message.contains("missing"));
    assert_eq!(result.message, "1 indexed files, 1 missing from disk");
}

#[test]
fn modified_files_and_unreadable_paths_fail() {
    let mut s = store(2, 1).unwrap();
    s.sample = vec![
        MtimeSample { stored: 1, on_disk: Some(2) },
        MtimeSample { stored: 3, on_disk: Some(3) },
    ];
    let r = check_stale_files(&Ok(s));
    assert_eq!(r.message, "2 indexed files, 1/2 sampled files have changed mtime");
    let mut s = store(2, 1).unwrap();
    s.present = Err("bad".to_string());
    assert_eq!(check_stale_files(&Ok(s)).message, "Cannot read file paths from DB: bad");
    assert_eq!(
        check_stale_files(&Err("e".to_string())).message,
        "Cannot open chunks.db: e"
    );
}

#[test]
fn dense_index_needs_its_directory_and_its_mapping() {
    assert!(check_dense_index(true, true, Some(12)).passed);
    assert_eq!(
        check_dense_index(true, true, Some(12)).message,
        "OK: plaid/ directory present, mapping=12 bytes"
    );
    assert_eq!(
        check_dense_index(false, false, None).message,
        "Dense index missing: no plaid/ directory or plaid_mapping.bin"
    );
    assert_eq!(check_dense_index(false, true, Some(3)).message, "plaid/ directory missing");
    assert_eq!(check_dense_index(true, false, None).message, "plaid_mapping.bin missing");
    assert_eq!(
        check_dense_index(false, true, Some(0)).message,
        "plaid/ directory missing; plaid_mapping.bin is empty (0 bytes)"
    );
    assert!(check_dense_index(true, true, None).passed);
}

#[test]
fn sparse_index_needs_chunks() {
    assert_eq!(check_sparse_index(false, &store(1, 1)).message, "chunks.db not found");
    assert_eq!(
        check_sparse_index(true, &store(1, 0)).message,
        "chunks.db is readable but contains 0 chunks"
    );
    assert_eq!(
        check_sparse_index(true, &store(1, 8)).message,
        "OK: chunks.db readable, 8 chunks"
    );
    assert_eq!(
        check_sparse_index(true, &Err("bad".to_string())).message,
        "chunks.db is corrupted or unreadable: bad"
    );
}

#[test]
fn graph_needs_symbols_where_there_are_chunks() {
    let r = check_graph_consistency(&store(1, 1));
    assert!(r.passed);
    assert_eq!(
        r.message,
        "symbol_defs=5, calls_resolved=1, types_resolved=2, hierarchy=3, modules=4"
    );
    let mut s = store(1, 1).unwrap();
    s.graph = Ok(stats(0));
    let r = check_graph_consistency(&Ok(s));
    assert!(!r.passed);
    assert!(r.message.ends_with(" (WARNING: no symbol defs despite having chunks)"));
    let mut s = store(1, 1).unwrap();
    s.graph = Err("bad".to_string());
    assert_eq!(check_graph_consistency(&Ok(s)).message, "Cannot read graph stats: bad");
    let mut s = store(0, 0).unwrap();
    s.graph = Ok(stats(0));
    assert!(check_graph_consistency(&Ok(s)).passed);
}

#[test]
fn a_sound_index_passes_every_check() {
    let facts = IndexFacts {
        meta: meta(1, 1),
        expected: CURRENT,
        store: store(1, 1),
        db_exists: true,
        plaid_exists: true,
        mapping_exists: true,
        mapping_len: Some(1),
    };
    let report = validate(&facts);
    assert!(report.all_passed());
    assert_eq!(report.summary(), "5/5 checks passed");
    assert_eq!(report.warnings, 0);
    let names: Vec<&str> = report.checks.iter().map(|c| c.name.as_str()).collect();
    assert_eq!(
        names,
        vec![
            "meta_db_consistency",
            "stale_files",
            "dense_index",
            "sparse_index",
            "graph_consistency"
        ]
    );
}
