use semantex_core::index::architecture::{
    build_arch_overview, build_boundaries, build_boundaries_n, build_communities,
    build_communities_n, build_god_nodes, budget_for_chunk_count, effective_budget,
    query_pattern_matches, top_level_dir, ArchBudget, ArchFacts, Seed,
};
use semantex_core::index::components::connected_components;
use semantex_core::index::history::SqlValue;
use semantex_core::types::{Chunk, ChunkType};

fn ast_chunk(id: u64, name: &str, file: &str) -> Chunk {
    Chunk {
        id,
        file_path: file.to_string(),
        start_line: 1,
        end_line: 5,
        content: format!("fn {name}() {{}}"),
        chunk_type: ChunkType::AstNode {
            name: name.to_string(),
            language: "rust".to_string(),
        },
    }
}

fn no_facts() -> ArchFacts {
    ArchFacts {
        top: vec![],
        seeds: vec![],
        call_out: vec![],
        call_in: vec![],
        module_edges: vec![],
        chunks: vec![],
        roles: vec![],
    }
}

#[test]
fn top_level_dir_extracts_first_component() {
    assert_eq!(top_level_dir("crates/semantex-mcp/src/server.rs"), "crates");
    assert_eq!(top_level_dir("src/main.rs"), "src");
    assert_eq!(top_level_dir("Cargo.toml"), "Cargo.toml");
    assert_eq!(top_level_dir(""), "");
}

#[test]
fn build_boundaries_handles_missing_table() {
    assert!(build_boundaries(&vec![]).is_empty());
}

#[test]
fn query_pattern_matches_handles_missing_table() {
    assert!(query_pattern_matches(false, "rust.drop_impl", None, 3).is_none());
}

#[test]
fn pattern_query_binds_the_language_only_when_given() {
    let all = query_pattern_matches(true, "rust.drop_impl", None, 3).unwrap();
    assert!(all.sql.ends_with("WHERE pattern_name = ?1 LIMIT ?2"));
    assert_eq!(all.bound.len(), 2);
    assert!(matches!(&all.bound[1], SqlValue::Integer(3)));
    let one = query_pattern_matches(true, "rust.drop_impl", Some("rust"), 3).unwrap();
    assert!(one.sql.ends_with("AND language = ?2 LIMIT ?3"));
    assert!(matches!(&one.bound[1], SqlValue::Text(t) if t == "rust"));
    assert!(matches!(&one.bound[2], SqlValue::Integer(3)));
}

#[test]
fn budget_small_tier_for_500_chunks() {
    let b = budget_for_chunk_count(500);
    assert_eq!(
        b,
        ArchBudget {
            god_nodes: 5,
            communities: 3,
            boundaries: 10,
            deep_examples_max: 1,
            exhaustive_max: 12,
        }
    );
}

#[test]
fn budget_small_tier_for_zero_chunks() {
    let b = budget_for_chunk_count(0);
    assert_eq!(b.god_nodes, 5);
    assert_eq!(b.deep_examples_max, 1);
}

#[test]
fn budget_small_tier_upper_bound() {
    let b = budget_for_chunk_count(2_000);
    assert_eq!(b.god_nodes, 5);
    assert_eq!(b.exhaustive_max, 12);
}

#[test]
fn budget_medium_tier_lower_bound() {
    let b = budget_for_chunk_count(2_001);
    assert_eq!(b.god_nodes, 10);
    assert_eq!(b.exhaustive_max, 25);
}

#[test]
fn budget_medium_tier_upper_bound() {
    let b = budget_for_chunk_count(10_000);
    assert_eq!(b.god_nodes, 10);
    assert_eq!(b.boundaries, 25);
}

#[test]
fn budget_large_tier_for_15k_chunks() {
    let b = budget_for_chunk_count(15_000);
    assert_eq!(
        b,
        ArchBudget {
            god_nodes: 15,
            communities: 8,
            boundaries: 40,
            deep_examples_max: 5,
            exhaustive_max: 40,
        }
    );
}

#[test]
fn arch_budget_medium_matches_phase4_defaults() {
    assert_eq!(ArchBudget::medium().god_nodes, 10);
    assert_eq!(ArchBudget::medium().communities, 5);
    assert_eq!(ArchBudget::medium().boundaries, 25);
}

#[test]
fn exhaustive_max_replaces_hardcoded_30() {
    assert_eq!(budget_for_chunk_count(1_000).exhaustive_max, 12);
    assert_eq!(budget_for_chunk_count(5_000).exhaustive_max, 25);
    assert_eq!(budget_for_chunk_count(15_000).exhaustive_max, 40);
    assert_ne!(budget_for_chunk_count(1_000).exhaustive_max, 30);
    assert_ne!(budget_for_chunk_count(5_000).exhaustive_max, 30);
    assert_ne!(budget_for_chunk_count(15_000).exhaustive_max, 30);
}

#[test]
fn build_communities_n_respects_cap() {
    let seeds: Vec<Seed> = (1..=12).map(|i| Seed { chunk_id: i, score: 100 - i }).collect();
    let calls: Vec<(u64, u64)> = vec![(1, 2), (3, 4), (5, 6), (7, 8), (9, 10), (11, 12)];
    let all = build_communities_n(&seeds, &calls, &vec![], &vec![], 10);
    assert_eq!(all.len(), 6);
    let capped = build_communities_n(&seeds, &calls, &vec![], &vec![], 4);
    assert_eq!(capped.len(), 4);
    assert_eq!(build_communities(&seeds, &calls, &vec![], &vec![]).len(), 5);
    assert!(build_communities_n(&vec![], &vec![], &vec![], &vec![], 5).is_empty());
}

#[test]
fn build_communities_n_zero_cap_returns_empty() {
    let seeds = vec![Seed { chunk_id: 1, score: 9 }, Seed { chunk_id: 2, score: 8 }];
    assert!(build_communities_n(&seeds, &vec![(1, 2)], &vec![], &vec![], 0).is_empty());
}

#[test]
fn build_boundaries_n_zero_cap_returns_empty() {
    let edges = vec![("a/x.rs".to_string(), "b/y.rs".to_string())];
    assert!(build_boundaries_n(&edges, 0).is_empty());
    assert_eq!(build_boundaries_n(&edges, 1).len(), 1);
}

#[test]
fn build_arch_overview_with_tiny_budget_skips_sections() {
    let tiny_budget = ArchBudget {
        god_nodes: 5,
        communities: 0,
        boundaries: 0,
        deep_examples_max: 1,
        exhaustive_max: 12,
    };
    let overview = build_arch_overview(&no_facts(), Some(tiny_budget));
    assert!(overview.communities.is_empty());
    assert!(overview.boundaries.is_empty());
    assert!(overview.god_nodes.len() <= 5);

    let mut facts = no_facts();
    facts.top = (1..=9).map(|i| (i, 0u64)).collect();
    facts.chunks = (1..=9).map(|i| ast_chunk(i, "f", "src/a.rs")).collect();
    facts.seeds = vec![Seed { chunk_id: 1, score: 2 }, Seed { chunk_id: 2, score: 1 }];
    facts.call_out = vec![(1, 2)];
    facts.module_edges = vec![("a/x.rs".to_string(), "b/y.rs".to_string())];
    let overview = build_arch_overview(&facts, Some(tiny_budget));
    assert!(overview.communities.is_empty());
    assert!(overview.boundaries.is_empty());
    assert_eq!(overview.god_nodes.len(), 5);
    let medium = build_arch_overview(&facts, None);
    assert_eq!(medium.god_nodes.len(), 9);
    assert_eq!(medium.boundaries.len(), 1);
}

#[test]
fn budget_for_100_chunks_falls_in_small_tier() {
    let b = budget_for_chunk_count(100);
    assert_eq!(b.god_nodes, 5);
    assert_eq!(b.communities, 3);
    assert_eq!(b.boundaries, 10);
}

#[test]
fn build_god_nodes_reads_symbol_from_chunk_not_structured_meta() {
    let chunk = ast_chunk(7, "FooBar", "src/lib.rs");
    let roles = vec![(7, "WrongName".to_string())];
    let god_nodes = build_god_nodes(&vec![(7, 0.9f64.to_bits())], &vec![chunk], &roles);
    assert_eq!(god_nodes.len(), 1);
    assert_eq!(god_nodes[0].symbol, "FooBar");
    assert_ne!(god_nodes[0].symbol, "WrongName");
    assert_eq!(f64::from_bits(god_nodes[0].centrality_bits), 0.9);
    assert_eq!(god_nodes[0].semantic_role.as_deref(), Some("WrongName"));
}

#[test]
fn build_god_nodes_falls_back_to_file_path_for_text_window_chunks() {
    let chunk = Chunk {
        id: 3,
        file_path: "docs/notes.md".to_string(),
        start_line: 1,
        end_line: 20,
        content: "long-form documentation".to_string(),
        chunk_type: ChunkType::TextWindow { window_index: 0 },
    };
    let god_nodes = build_god_nodes(&vec![(3, 0.5f64.to_bits())], &vec![chunk], &vec![]);
    assert_eq!(god_nodes.len(), 1);
    assert_eq!(god_nodes[0].symbol, "docs/notes.md");
}

#[test]
fn god_nodes_leave_out_chunks_that_cannot_be_read() {
    let top = vec![(1, 9), (2, 8), (3, 7)];
    let chunks = vec![ast_chunk(1, "a", "a.rs"), ast_chunk(3, "c", "c.rs")];
    let nodes = build_god_nodes(&top, &chunks, &vec![]);
    let ids: Vec<u64> = nodes.iter().map(|n| n.chunk_id).collect();
    assert_eq!(ids, vec![1, 3]);
    assert_eq!(nodes[0].semantic_role, None);
}

#[test]
fn boundaries_count_crossings_and_put_the_heaviest_first() {
    let edge = |a: &str, b: &str| (a.to_string(), b.to_string());
    let edges = vec![
        edge("crates/a.rs", "src/b.rs"),
        edge("docs/x.md", "src/b.rs"),
        edge("docs/y.md", "src/c.rs"),
        edge("src/a.rs", "src/b.rs"),
    ];
    let b = build_boundaries(&edges);
    assert_eq!(b.len(), 2);
    assert_eq!((b[0].from.as_str(), b[0].to.as_str(), b[0].edge_count), ("docs", "src", 2));
    assert_eq!((b[1].from.as_str(), b[1].to.as_str(), b[1].edge_count), ("crates", "src", 1));
    let b = build_boundaries_n(&edges, 1);
    assert_eq!((b.len(), b[0].edge_count), (1, 2));
}

#[test]
fn communities_are_the_largest_components_with_their_central_members() {
    let seeds = vec![
        Seed { chunk_id: 1, score: 10 },
        Seed { chunk_id: 2, score: 30 },
        Seed { chunk_id: 3, score: 20 },
        Seed { chunk_id: 8, score: 5 },
        Seed { chunk_id: 9, score: 4 },
    ];
    let chunks = vec![
        ast_chunk(1, "one", "a.rs"),
        ast_chunk(2, "two", "b.rs"),
        ast_chunk(3, "three", "a.rs"),
        ast_chunk(8, "eight", "c.rs"),
        ast_chunk(9, "nine", "d.rs"),
    ];
    let c = build_communities_n(&seeds, &vec![(1, 2), (8, 9)], &vec![(3, 2)], &chunks, 5);
    assert_eq!(c.len(), 2);
    assert_eq!(c[0].size, 3);
    assert_eq!(c[1].size, 2);
    assert_eq!(c[0].entry_points[0].symbol, "two");
    assert!(c[0].member_files.contains(&"a.rs".to_string()));
    assert!(c[0].member_files.contains(&"b.rs".to_string()));
    let c = build_communities_n(&seeds, &vec![(1, 2), (8, 9)], &vec![(3, 2)], &chunks, 1);
    assert_eq!((c.len(), c[0].size), (1, 3));
}

#[test]
fn components_partition_the_nodes() {
    let ids = vec![1, 2, 3, 4, 5];
    let mut parts = connected_components(&ids, &vec![(1, 2), (2, 3), (5, 4)]);
    for p in parts.iter_mut() {
        p.sort();
    }
    parts.sort();
    assert_eq!(parts, vec![vec![1, 2, 3], vec![4, 5]]);
}

#[test]
fn effective_budget_is_medium_without_one() {
    assert_eq!(effective_budget(None), ArchBudget::medium());
    let b = budget_for_chunk_count(15_000);
    assert_eq!(effective_budget(Some(b)), b);
    let small = budget_for_chunk_count(10);
    assert!(small.god_nodes <= b.god_nodes && small.exhaustive_max <= b.exhaustive_max);
}
