use semantex_core::index::architecture::ArchFacts;
use semantex_core::index::docs_scaffold::{
    apply_module_budget, apply_overview_budget, build_module_scaffold, build_overview_scaffold,
    language_label, FileFacts, ModuleFacts, ModuleInventoryEntry, ModuleScaffold, OverviewFacts,
    OverviewScaffold, Provenance, SymbolMeta, SymbolScaffold,
};
use semantex_core::index::history::CommitInfo;
use semantex_core::types::{Chunk, ChunkType};

const RUN: u64 = 1;
const HELPER: u64 = 2;

/// The name of the type that is detected for a path.
fn detected(path: &str) -> &'static str {
    if path.ends_with(".rs") {
        "Rust"
    } else {
        "Unknown"
    }
}

fn chunk(id: u64, name: &str, file: &str, start_line: u32, end_line: u32) -> Chunk {
    Chunk {
        id,
        file_path: file.to_string(),
        start_line,
        end_line,
        content: format!("fn {name}() {{}}"),
        chunk_type: ChunkType::AstNode {
            name: name.to_string(),
            language: "rust".to_string(),
        },
    }
}

fn meta(signature: &str, docstring: &str, calls: &[&str]) -> SymbolMeta {
    SymbolMeta {
        qualified_name: None,
        signature: Some(signature.to_string()),
        params: vec![],
        return_type: None,
        docstring: Some(docstring.to_string()),
        doc_tags: vec![],
        parent_class: None,
        semantic_role: None,
        calls: calls.iter().map(|c| c.to_string()).collect(),
        called_by: vec![],
    }
}

fn chunks() -> Vec<Chunk> {
    vec![
        chunk(RUN, "run", "src/lib.rs", 1, 5),
        chunk(HELPER, "helper", "src/helper.rs", 10, 12),
    ]
}

fn lib_facts() -> ModuleFacts {
    ModuleFacts {
        path: "src/lib.rs".to_string(),
        type_label: detected("src/lib.rs").to_string(),
        file_role: None,
        symbol_rows: vec![(RUN, "run".to_string(), "function".to_string())],
        metas: vec![(RUN, meta("pub fn run()", "Runs the thing.", &["helper"]))],
        imports: vec!["src/helper.rs".to_string()],
        imported_by: vec![],
        out_edges: vec![("helper".to_string(), Some(HELPER))],
        caller_ids: vec![],
        chunks: chunks(),
        commits: None,
    }
}

fn helper_facts() -> ModuleFacts {
    ModuleFacts {
        path: "src/helper.rs".to_string(),
        type_label: detected("src/helper.rs").to_string(),
        file_role: None,
        symbol_rows: vec![(HELPER, "helper".to_string(), "function".to_string())],
        metas: vec![(HELPER, meta("fn helper()", "Helper routine.", &[]))],
        imports: vec![],
        imported_by: vec!["src/lib.rs".to_string()],
        out_edges: vec![],
        caller_ids: vec![RUN],
        chunks: chunks(),
        commits: None,
    }
}

fn no_arch() -> ArchFacts {
    ArchFacts {
        top: vec![],
        seeds: vec![],
        call_out: vec![],
        call_in: vec![],
        module_edges: vec![],
        chunks: vec![],
        roles: vec![],
    }
}

fn file(path: &str) -> FileFacts {
    FileFacts {
        path: path.to_string(),
        type_label: detected(path).to_string(),
        file_role: None,
    }
}

fn overview_facts() -> OverviewFacts {
    OverviewFacts {
        total_files: 2,
        total_chunks: 2,
        arch: no_arch(),
        files: vec![file("src/lib.rs"), file("src/helper.rs")],
        chunk_counts: vec![("src/lib.rs".to_string(), 1), ("src/helper.rs".to_string(), 1)],
        symbol_counts: vec![("src/lib.rs".to_string(), 1), ("src/helper.rs".to_string(), 1)],
        commits: None,
    }
}

fn ada() -> CommitInfo {
    CommitInfo {
        hash: "deadbeef".to_string(),
        author: "Ada".to_string(),
        ts: 1700000000,
        subject: "Add helper()".to_string(),
    }
}

#[test]
fn module_scaffold_captures_symbol_and_call_edges() {
    let scaffold = build_module_scaffold(&lib_facts(), 1700000000);
    assert_eq!(scaffold.path, "src/lib.rs");
    assert_eq!(scaffold.symbols.len(), 1);
    assert_eq!(scaffold.symbols[0].name, "run");
    assert_eq!(scaffold.symbols[0].docstring.as_deref(), Some("Runs the thing."));
    assert_eq!(scaffold.symbols[0].provenance.file, "src/lib.rs");
    assert_eq!(scaffold.symbols[0].provenance.start_line, 1);
    assert_eq!(scaffold.imports, vec!["src/helper.rs".to_string()]);
    assert_eq!(scaffold.calls_out.len(), 1);
    assert_eq!(scaffold.calls_out[0].callee_name, "helper");
    assert_eq!(
        scaffold.calls_out[0].resolved.as_ref().map(|p| p.file.as_str()),
        Some("src/helper.rs")
    );
}

#[test]
fn module_scaffold_reverse_edges_on_callee_side() {
    let scaffold = build_module_scaffold(&helper_facts(), 1700000000);
    assert_eq!(scaffold.symbols.len(), 1);
    assert_eq!(scaffold.symbols[0].name, "helper");
    assert_eq!(scaffold.imported_by, vec!["src/lib.rs".to_string()]);
    assert_eq!(scaffold.calls_in.len(), 1);
    assert_eq!(scaffold.calls_in[0].caller_symbol.as_deref(), Some("run"));
    assert_eq!(scaffold.calls_in[0].provenance.file, "src/lib.rs");
}

#[test]
fn module_scaffold_unknown_file_returns_empty_not_error() {
    let facts = ModuleFacts {
        path: "src/does_not_exist.rs".to_string(),
        type_label: detected("src/does_not_exist.rs").to_string(),
        file_role: None,
        symbol_rows: vec![],
        metas: vec![],
        imports: vec![],
        imported_by: vec![],
        out_edges: vec![],
        caller_ids: vec![],
        chunks: chunks(),
        commits: None,
    };
    let scaffold = build_module_scaffold(&facts, 1700000000);
    assert!(scaffold.symbols.is_empty());
    assert!(scaffold.imports.is_empty());
    assert!(scaffold.imported_by.is_empty());
}

#[test]
fn history_fields_absent_when_history_db_does_not_exist() {
    let overview = build_overview_scaffold(&overview_facts(), 1700000000);
    assert!(overview.recent_changes.is_none());
    let module = build_module_scaffold(&lib_facts(), 1700000000);
    assert!(module.commits_touching.is_none());
}

#[test]
fn history_fields_present_when_history_db_populated() {
    let mut facts = overview_facts();
    facts.commits = Some(vec![ada()]);
    let overview = build_overview_scaffold(&facts, 1700000000);
    let recent = overview.recent_changes.unwrap();
    assert_eq!(recent.len(), 1);
    assert_eq!(recent[0].subject, "Add helper()");
    assert_eq!(recent[0].author, "Ada");

    let mut facts = lib_facts();
    facts.commits = Some(vec![ada()]);
    let module = build_module_scaffold(&facts, 1700000000);
    let touching = module.commits_touching.unwrap();
    assert_eq!(touching.len(), 1);
    assert_eq!(touching[0].hash, "deadbeef");

    let mut facts = helper_facts();
    facts.commits = Some(vec![]);
    let untouched = build_module_scaffold(&facts, 1700000000);
    assert!(untouched.commits_touching.is_none());
}

#[test]
fn no_more_than_the_latest_ten_commits_are_shown() {
    let many: Vec<CommitInfo> = (0..12)
        .map(|i| {
            let mut c = ada();
            c.hash = format!("c{i}");
            c
        })
        .collect();
    let mut facts = lib_facts();
    facts.commits = Some(many.clone());
    let touching = build_module_scaffold(&facts, 1700000000).commits_touching.unwrap();
    assert_eq!((touching.len(), touching[9].hash.as_str()), (10, "c9"));
    let mut facts = overview_facts();
    facts.commits = Some(many);
    let recent = build_overview_scaffold(&facts, 1700000000).recent_changes.unwrap();
    assert_eq!((recent.len(), recent[0].hash.as_str()), (10, "c0"));
}

#[test]
fn overview_scaffold_module_inventory_and_language_stats() {
    let overview = build_overview_scaffold(&overview_facts(), 1700000000);
    assert_eq!(overview.total_files, 2);
    assert_eq!(overview.total_chunks, 2);
    assert_eq!(overview.module_inventory.len(), 2);
    assert_eq!(overview.module_inventory[0].path, "src/helper.rs");
    assert_eq!(overview.module_inventory[0].symbol_count, 1);
    assert_eq!(overview.module_inventory[0].language.as_deref(), Some("rust"));

    let rust_stats = overview.language_stats.iter().find(|s| s.language == "rust").unwrap();
    assert_eq!(rust_stats.file_count, 2);
    assert_eq!(rust_stats.chunk_count, 2);
}

#[test]
fn overview_scaffold_tiny_repo_still_succeeds_with_empty_arch() {
    let facts = OverviewFacts {
        total_files: 0,
        total_chunks: 0,
        arch: no_arch(),
        files: vec![],
        chunk_counts: vec![],
        symbol_counts: vec![],
        commits: None,
    };
    let overview = build_overview_scaffold(&facts, 0);
    assert_eq!(overview.total_files, 0);
    assert_eq!(overview.total_chunks, 0);
    assert!(overview.god_nodes.is_empty());
    assert!(overview.module_inventory.is_empty());
}

fn size(s: &ModuleScaffold) -> usize {
    format!("{s:?}").len()
}

#[test]
fn apply_module_budget_shrinks_large_scaffold() {
    let mut scaffold = ModuleScaffold {
        path: "src/big.rs".to_string(),
        language: Some("rust".to_string()),
        file_role: None,
        symbols: (0..50)
            .map(|i| SymbolScaffold {
                name: format!("sym_{i}"),
                kind: "function".to_string(),
                qualified_name: None,
                signature: Some(format!("fn sym_{i}()")),
                params: vec![],
                return_type: None,
                docstring: Some("x".repeat(200)),
                doc_tags: vec![],
                parent_class: None,
                semantic_role: None,
                calls: vec![],
                called_by: vec![],
                provenance: Provenance {
                    file: "src/big.rs".to_string(),
                    start_line: i,
                    end_line: i + 1,
                },
            })
            .collect(),
        imports: vec![],
        imported_by: vec![],
        calls_out: vec![],
        calls_in: vec![],
        commits_touching: None,
    };
    let before = size(&scaffold);
    apply_module_budget(&mut scaffold, 200, size);
    let after = size(&scaffold);
    assert!(after < before, "budget trim must shrink the scaffold");
    assert!(!scaffold.symbols.is_empty(), "must not trim to nothing");
}

#[test]
fn apply_module_budget_zero_is_noop() {
    let mut scaffold = ModuleScaffold {
        path: "src/x.rs".to_string(),
        language: None,
        file_role: None,
        symbols: vec![],
        imports: vec![],
        imported_by: vec![],
        calls_out: vec![],
        calls_in: vec![],
        commits_touching: None,
    };
    apply_module_budget(&mut scaffold, 0, size);
    assert!(scaffold.symbols.is_empty());
}

#[test]
fn language_label_maps_known_extension_and_none_for_unknown() {
    assert_eq!(language_label(detected("src/lib.rs")), Some("rust".to_string()));
    assert_eq!(language_label(detected("README.weirdext")), None);
}

#[test]
fn overview_budget_trims_the_inventory_first() {
    let mut facts = overview_facts();
    facts.files = (0..90).map(|i| file(&format!("src/m{i:02}.rs"))).collect();
    facts.chunk_counts = vec![];
    facts.symbol_counts = vec![];
    let mut overview = build_overview_scaffold(&facts, 0);
    assert_eq!(overview.module_inventory.len(), 90);
    let cost = |o: &OverviewScaffold| o.module_inventory.len() * 4;
    apply_overview_budget(&mut overview, 30, cost);
    assert_eq!(overview.module_inventory.len(), 22);
    let kept: &ModuleInventoryEntry = &overview.module_inventory[0];
    assert_eq!(kept.path, "src/m00.rs");
}

#[test]
fn call_edges_come_in_order_and_once() {
    let mut facts = lib_facts();
    facts.out_edges = vec![
        ("zeta".to_string(), None),
        ("helper".to_string(), Some(HELPER)),
        ("helper".to_string(), Some(HELPER)),
    ];
    let scaffold = build_module_scaffold(&facts, 0);
    let names: Vec<&str> = scaffold.calls_out.iter().map(|e| e.callee_name.as_str()).collect();
    assert_eq!(names, vec!["helper", "zeta"]);
    assert!(scaffold.calls_out[1].resolved.is_none());
}
