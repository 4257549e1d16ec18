use semantex_core::config::SemantexConfig;
use semantex_core::index::builder::{
    annotation_rows, bm25_base, bm25_content, chunks_at, decide_by_hash, decide_content,
    decide_dense_build, deleted_paths, epoch_text, file_imports, flips_active, gitignore_addition,
    needs_rebuild, normalize_newlines, outdated_dirs, outdated_files, plan_dense, raw_schema_version, schema_check, symbol_kind,
    type_ref_label, version_label, BuildProgress, ChunkerKind, DenseBackendKind,
    DenseBuildDecision, DenseOutcome, DensePlan, FileKind, FileStep, HashDecision, IndexBuilder,
    MetaFacts, TypeRefContext,
};
use semantex_core::index::pattern_catalog::{PatternCatalog, PatternLang};
use semantex_core::types::{Chunk, ChunkType, DENSE_TOMBSTONE};

fn make_chunk(id: u64, content: &str) -> Chunk {
    Chunk {
        id,
        file_path: "x.rs".to_string(),
        start_line: 1,
        end_line: 1,
        content: content.to_string(),
        chunk_type: ChunkType::TextWindow { window_index: 0 },
    }
}

fn texts(v: &[&str]) -> Vec<String> {
    v.iter().map(|s| s.to_string()).collect()
}

#[test]
fn decide_dense_build_matrix() {
    let d = decide_dense_build(None, "FP1", false, false);
    assert!(d.full_rebuild);
    assert!(!d.present_no_migration);

    let d = decide_dense_build(None, "FP1", false, true);
    assert!(d.full_rebuild, "legacy plain must migrate via full rebuild");
    assert!(!d.present_no_migration);

    let d = decide_dense_build(Some("FP1"), "FP1", true, true);
    assert!(!d.full_rebuild, "same embedder → incremental");
    assert!(d.present_no_migration);

    let d = decide_dense_build(Some("OLD"), "NEW", false, true);
    assert!(d.full_rebuild, "fingerprint change MUST rebuild");
    assert!(!d.present_no_migration);

    let d = decide_dense_build(Some("FP1"), "FP1", false, false);
    assert!(d.full_rebuild);
    assert!(!d.present_no_migration);
}

#[test]
fn tombstone_skipping_in_doc_to_chunk_lookup() {
    let mapping: Vec<u64> = vec![100, DENSE_TOMBSTONE, 300];
    let passage_ids = vec![0i64, 1, 2];
    let scored: Vec<u64> = chunks_at(&passage_ids, &mapping);
    assert_eq!(scored, vec![100u64, 300]);
    assert!(chunks_at(&vec![-1, 3], &mapping).is_empty());
}

#[test]
fn dense_tombstone_is_reserved_sentinel() {
    assert_eq!(DENSE_TOMBSTONE, u64::MAX);
}

#[test]
fn aux_persistence_skips_empty_annotation() {
    let anns = vec![(1u64, String::new())];
    assert_eq!(annotation_rows(&anns).len(), 0, "empty annotations should be skipped");
    let anns = vec![(1u64, String::new()), (2, "adds".to_string())];
    assert_eq!(annotation_rows(&anns), vec![(2, "adds".to_string())]);
}

#[test]
fn make_chunk_helper_compiles() {
    let c = make_chunk(42, "hello");
    assert_eq!(c.id, 42);
    assert_eq!(c.content, "hello");
    assert_eq!(c.symbol_name(), None);
    assert_eq!(c.symbol_or_file(), "x.rs");
}

#[test]
fn schema_version_is_read_from_the_metadata() {
    assert_eq!(raw_schema_version("{\"schema_version\": 13, \"x\": 1}"), Some(13));
    assert_eq!(raw_schema_version("{\"schema_version\": \"13\"}"), None);
    assert_eq!(raw_schema_version("{\"schema_version\": -1}"), None);
    assert_eq!(raw_schema_version("not json"), None);
    assert!(!schema_check("{\"schema_version\": 13}", true, 13));
    assert!(schema_check("{\"schema_version\": 13}", false, 13));
    assert!(schema_check("{\"schema_version\": 12}", true, 13));
    assert!(needs_rebuild(None, true, 13));
    assert_ne!(version_label(Some(7)), version_label(None));
    assert!(version_label(Some(7)).contains('7'));
}

#[test]
fn an_index_of_another_version_is_removed_whole() {
    assert_eq!(outdated_dirs(), vec!["sparse", "plaid", "dense"]);
    assert_eq!(
        outdated_files(),
        vec![
            "plaid_mapping.bin",
            "chunks.db",
            "meta.json",
            "dense.usearch",
            "dense_coarse.usearch"
        ]
    );
}

#[test]
fn a_file_is_skipped_indexed_or_replaced_by_its_hash() {
    assert_eq!(decide_by_hash(None, Some(1)), HashDecision::Skip);
    assert_eq!(decide_by_hash(Some(1), Some(1)), HashDecision::Skip);
    assert_eq!(decide_by_hash(Some(2), Some(1)), HashDecision::Replace);
    assert_eq!(decide_by_hash(Some(2), None), HashDecision::Index);
}

#[test]
fn carriage_returns_go_only_before_line_feeds() {
    assert_eq!(normalize_newlines("a\r\nb\rc\n\r\n"), "a\nb\rc\n\n");
    assert_eq!(normalize_newlines(""), "");
}

#[test]
fn content_decides_how_a_file_is_cut() {
    assert!(matches!(decide_content(FileKind::Pdf, None), Some((ChunkerKind::Pdf, t)) if t.is_empty()));
    assert!(decide_content(FileKind::Binary, Some("x")).is_none());
    assert!(decide_content(FileKind::Text, None).is_none());
    assert!(matches!(
        decide_content(FileKind::Source, Some("a\r\n")), Some((ChunkerKind::Ast, t)) if t == "a\n"
    ));
    assert!(matches!(
        decide_content(FileKind::Text, Some("a")), Some((ChunkerKind::Text, t)) if t == "a"
    ));
}

#[test]
fn sparse_text_puts_annotations_above_the_code() {
    assert_eq!(bm25_base("", "", "code"), "code");
    assert_eq!(bm25_base("", "exp", "code"), "exp\ncode");
    assert_eq!(bm25_base("ann", "", "code"), "ann\ncode");
    assert_eq!(bm25_base("ann", "exp", "code"), "ann\nexp\ncode");
    assert_eq!(bm25_content("", "base"), "base");
    assert_eq!(bm25_content("ids", "base"), "ids\nbase");
}

#[test]
fn imports_come_from_the_first_chunk_that_has_any() {
    let lists = vec![vec![], texts(&["a", "b"]), texts(&["c"])];
    assert_eq!(file_imports(&lists), texts(&["a", "b"]));
    assert!(file_imports(&vec![vec![], vec![]]).is_empty());
}

#[test]
fn stored_labels() {
    assert_eq!(type_ref_label(TypeRefContext::Param), "param");
    assert_eq!(type_ref_label(TypeRefContext::Return), "return");
    assert_eq!(type_ref_label(TypeRefContext::Field), "field");
    assert_eq!(type_ref_label(TypeRefContext::Local), "local");
    assert_eq!(type_ref_label(TypeRefContext::Generic), "generic");
    assert_eq!(symbol_kind(None), "function");
    assert_eq!(symbol_kind(Some("struct")), "struct");
    assert_eq!(epoch_text(1700000000), "1700000000");
}

#[test]
fn deleted_files_are_those_no_longer_there() {
    let gone = deleted_paths(&texts(&["a", "b", "c"]), &texts(&["c", "a"]));
    assert_eq!(gone, texts(&["b"]));
}

#[test]
fn gitignore_gets_one_entry() {
    let added = gitignore_addition("target\n").unwrap();
    assert!(added.contains(".semantex"));
    assert!(gitignore_addition(".semantex/\n").is_none());
}

#[test]
fn progress_counts_every_file_once() {
    let catalog = PatternCatalog::new();
    let mut p = BuildProgress::start(4);
    p.on_deleted(&vec![90, 91]);
    assert!(!p.on_file());
    assert_eq!(p.on_hash(Some(5), Some(5)), HashDecision::Skip);
    assert!(!p.on_file());
    assert_eq!(p.on_hash(Some(5), Some(4)), HashDecision::Replace);
    assert_eq!(p.step, FileStep::Removing);
    p.on_removed(&vec![92]);
    assert!(p.on_content(FileKind::Source, Some("impl Drop for X {}")).is_some());
    assert!(p.on_chunks(Some(1)));
    p.on_chunk(
        7,
        "drops".to_string(),
        "impl Drop for Guard { fn drop(&mut self) {} }",
        "src/g.rs",
        Some(PatternLang::Rust),
        &catalog,
    );
    assert_eq!(p.step, FileStep::Storing { left: 0 });
    p.on_indexed();
    assert_eq!(p.step, FileStep::Between);
    assert!(!p.on_file());
    assert_eq!(p.on_hash(Some(1), None), HashDecision::Index);
    assert!(p.on_content(FileKind::Binary, None).is_none());
    assert!(!p.on_file());
    assert_eq!(p.on_hash(Some(1), None), HashDecision::Index);
    assert!(p.on_content(FileKind::Text, Some("t")).is_some());
    assert!(!p.on_chunks(None));
    assert!(p.pattern_matches.iter().any(|m| m.0 == 7 && m.2 == "src/g.rs"));
    assert_eq!(p.annotations, vec![(7, "drops".to_string())]);
    let s = p.stats(12);
    assert_eq!((s.files_scanned, s.files_indexed, s.files_skipped), (4, 1, 3));
    assert_eq!((s.files_deleted, s.chunks_created, s.chunks_removed), (1, 1, 3));
    assert_eq!(s.duration_millis, 12);
}

#[test]
fn a_second_build_of_the_same_files_changes_nothing() {
    // Of an indexed file the hash is stored; one that is not text, or gives no chunk, has none, or
    // that of an earlier content whose chunks are gone.
    let mut p = BuildProgress::start(4);
    let paths = texts(&["a.rs", "b.bin", "c.txt", "d.txt"]);
    assert!(deleted_paths(&texts(&["d.txt", "a.rs"]), &paths).is_empty());
    p.on_file();
    assert_eq!(p.on_hash(Some(1), Some(1)), HashDecision::Skip);
    p.on_file();
    assert_eq!(p.on_hash(Some(2), None), HashDecision::Index);
    assert!(p.on_content(FileKind::Binary, None).is_none());
    p.on_file();
    assert_eq!(p.on_hash(Some(3), None), HashDecision::Index);
    assert!(p.on_content(FileKind::Text, Some("")).is_some());
    assert!(!p.on_chunks(Some(0)));
    p.on_file();
    assert_eq!(p.on_hash(Some(4), Some(9)), HashDecision::Replace);
    p.on_removed(&vec![]);
    assert!(p.on_content(FileKind::Text, None).is_none());
    let s = p.stats(0);
    assert_eq!((s.files_scanned, s.files_skipped, s.files_indexed), (4, 4, 0));
    assert_eq!((s.files_deleted, s.chunks_created, s.chunks_removed), (0, 0, 0));
    let live = decide_dense_build(Some("fp"), "fp", true, true);
    assert_eq!(plan_dense(&p, live), DensePlan::NoChange);
}

#[test]
fn memory_is_checked_every_64_files() {
    let mut p = BuildProgress::start(200);
    let mut checks: Vec<usize> = vec![];
    for i in 1..=130 {
        if p.on_file() {
            checks.push(i);
        }
        p.on_hash(None, None);
    }
    assert_eq!(checks, vec![64, 128]);
}

#[test]
fn dense_plan_follows_the_decision() {
    let live = DenseBuildDecision { full_rebuild: false, present_no_migration: true };
    let full = DenseBuildDecision { full_rebuild: true, present_no_migration: false };
    let mut p = BuildProgress::start(1);
    assert_eq!(plan_dense(&p, live), DensePlan::NoChange);
    assert_eq!(plan_dense(&p, full), DensePlan::Full);
    p.on_deleted(&vec![1]);
    assert_eq!(
        plan_dense(&p, live),
        DensePlan::Incremental { delete: true, insert: false }
    );
}

#[test]
fn only_a_complete_full_build_becomes_active() {
    assert!(flips_active(DenseOutcome::FullBuild));
    assert!(!flips_active(DenseOutcome::EmptyCorpus));
    assert!(!flips_active(DenseOutcome::Updated));
    assert!(!flips_active(DenseOutcome::Failed));
}

#[test]
fn backend_names() {
    assert_eq!(DenseBackendKind::CoderankHnsw.name(), "coderank-hnsw");
    assert_eq!(DenseBackendKind::ColbertPlaid.name(), "colbert-plaid");
}

#[test]
fn metadata_counts_the_build_where_the_index_cannot_tell() {
    let config = SemantexConfig {
        use_bm25_stemmer: true,
        hnsw_preset: "default".to_string(),
        hnsw_ef_search: 0,
        dense_rescore_k: 0,
    };
    let builder = IndexBuilder::new(&config);
    let mut p = BuildProgress::start(2);
    for _ in 0..2 {
        p.on_file();
        p.on_hash(None, None);
    }
    let mut facts = MetaFacts {
        schema_version: 13,
        project_path: "/x".to_string(),
        now_secs: 99,
        chunk_count: None,
        file_count: None,
        backend: DenseBackendKind::CoderankHnsw,
        single_vector_dim: 768,
        embedder_fingerprint: "fp".to_string(),
    };
    let m = builder.meta(&p, &facts);
    assert_eq!((m.file_count, m.chunk_count), (2, 0));
    assert_eq!((m.created_at.as_str(), m.updated_at.as_str()), ("99", "99"));
    assert_eq!((m.embedding_model.as_str(), m.embedding_dim), ("CodeRankEmbed", 768));
    assert_eq!(m.dense_backend, "coderank-hnsw");
    assert!(m.use_bm25_stemmer);
    facts.file_count = Some(7);
    facts.chunk_count = Some(70);
    facts.backend = DenseBackendKind::ColbertPlaid;
    let m = builder.meta(&p, &facts);
    assert_eq!((m.file_count, m.chunk_count), (7, 70));
    assert_eq!((m.embedding_model.as_str(), m.embedding_dim), ("LateOn-Code-edge", 48));
}
