use rusqlite::Connection;
use semantex_core::index::hnsw_index::{
    baked_ef_search, hnsw_min_vectors, plan_search, rows_for, shortlist, subset_hits,
    surviving_rows, top_places, widened_k, HnswParams, SearchPlan, BACKEND_NAME,
};
use semantex_core::index::page_rank::{build_code_graph, rank_layout, CodeGraph};
use semantex_core::index::storage::{
    batches, chunks_statement, edge_statement, exact_pattern, get_file_roles,
    get_import_neighbors, neighbors_statement, placeholders, roles_statement, EdgeQuery,
    FileRoleRow,
};

#[test]
fn preset_names_resolve() {
    assert_eq!(HnswParams::preset("default").m, 16);
    assert_eq!(HnswParams::preset("high_recall").ef_search, 200);
    assert_eq!(HnswParams::preset("low_latency").ef_search, 32);
    assert_eq!(HnswParams::preset("memory_optimized").m, 8);
    assert_eq!(HnswParams::preset("garbage").m, 16);
    assert_eq!(HnswParams::preset(" High_Recall\n").ef_construction, 400);
}

#[test]
fn resolve_keeps_preset_ef_search_when_override_is_zero() {
    let p = HnswParams::resolve("high_recall", 0, 0);
    assert_eq!(p.ef_search, 200, "preset ef_search must survive a 0 override");
    assert_eq!(p.rescore_k, 0);
    let p2 = HnswParams::resolve("high_recall", 96, 0);
    assert_eq!(p2.ef_search, 96, "explicit ef_search override must win");
    assert_eq!(HnswParams::resolve("default", 0, 0).ef_search, 64);
    assert_eq!(HnswParams::resolve("default", 0, 256).rescore_k, 256);
}

#[test]
fn baked_ef_search_covers_explicit_rescore_k() {
    let params = HnswParams { ef_search: 64, rescore_k: 300, ..HnswParams::default() };
    assert_eq!(baked_ef_search(params), 300);
    let params2 = HnswParams { ef_search: 200, rescore_k: 50, ..HnswParams::default() };
    assert_eq!(baked_ef_search(params2), 200);
    let none = HnswParams { ef_search: 0, rescore_k: 0, ..HnswParams::default() };
    assert_eq!(baked_ef_search(none), 1);
}

#[test]
fn a_search_is_as_wide_as_its_parameters_say() {
    let p = HnswParams::default();
    assert_eq!(plan_search(0, true, p, 5), SearchPlan::Nothing);
    assert_eq!(plan_search(9, false, p, 5), SearchPlan::BruteForce { shortlist: 20 });
    assert_eq!(plan_search(9, false, p, 0), SearchPlan::BruteForce { shortlist: 0 });
    assert_eq!(plan_search(9, true, p, 5), SearchPlan::Graph { candidates: 20 });
    assert_eq!(plan_search(9, true, p, 50), SearchPlan::Graph { candidates: 64 });
    let wide = HnswParams { rescore_k: 300, ..p };
    assert_eq!(plan_search(9, true, wide, 50), SearchPlan::Graph { candidates: 300 });
    assert_eq!(plan_search(9, false, wide, 400), SearchPlan::BruteForce { shortlist: 400 });
    assert_eq!((widened_k(3), widened_k(9)), (64, 72));
    assert_eq!(hnsw_min_vectors(None), 2000);
    assert_eq!(hnsw_min_vectors(Some("4")), 4);
    assert_eq!(hnsw_min_vectors(Some("four")), 2000);
}

#[test]
fn the_best_scored_come_out_and_no_more_than_are_asked_for() {
    let scores = vec![3, -7, 9, 3, 9];
    assert_eq!(top_places(&scores, 3), vec![2, 4, 0]);
    assert_eq!(top_places(&scores, 9), vec![2, 4, 0, 3, 1]);
    assert!(top_places(&scores, 0).is_empty());
    assert!(top_places(&vec![], 4).is_empty());
}

#[test]
fn a_copied_graph_holds_the_same() {
    let mut g = CodeGraph::new();
    g.add_edge(1, 2);
    g.add_node(7);
    let copy = g.clone();
    assert_eq!((copy.nodes(), copy.edge_count()), (g.nodes(), g.edge_count()));
    g.add_edge(2, 7);
    assert_eq!(copy.edge_count(), 1);
}

#[test]
fn empty_store_returns_no_hits() {
    assert!(shortlist(&vec![0, 0, 0, 0], &vec![], 5).is_empty());
}

#[test]
fn brute_force_ranks_by_cosine_descending() {
    let vectors = vec![vec![127, 0], vec![127, 127], vec![0, 127]];
    assert_eq!(shortlist(&vec![127, 0], &vectors, 3), vec![0, 1, 2]);
    assert_eq!(shortlist(&vec![127, 1], &vectors, 3), vec![1, 0, 2]);
    assert_eq!(shortlist(&vec![-128, 127], &vectors, 1), vec![2]);
}

#[test]
fn brute_force_wide_shortlist_recovers_int8_misranked_topk() {
    // The second row has the greater product though the first one is nearer by its angle.
    let query = vec![127, 4, 0];
    let vectors = vec![vec![127, 29, 67], vec![127, 83, 20]];
    assert_eq!(shortlist(&query, &vectors, 1), vec![1]);
    assert_eq!(shortlist(&query, &vectors, 4), vec![1, 0]);
}

#[test]
fn builder_name_and_empty_build_is_ok() {
    assert_eq!(BACKEND_NAME, "coderank-hnsw");
}

#[test]
fn vectors_for_dequantizes_stored_ids_and_skips_missing() {
    let got = rows_for(&vec![10, 20], &vec![20, 99, 10]);
    assert_eq!(got, vec![(20, 1), (10, 0)]);
    assert_eq!(rows_for(&vec![7, 7], &vec![7, 7]), vec![(7, 1), (7, 1)]);
}

#[test]
fn removed_chunks_leave_the_store_and_others_keep_their_order() {
    assert_eq!(surviving_rows(&vec![5, 6, 7, 6], &vec![6, 9]), vec![0, 2]);
    assert_eq!(subset_hits(&vec![5, 6, 7, 6], &vec![6, 7], 2), vec![1, 2]);
    assert!(subset_hits(&vec![5], &vec![], 2).is_empty());
}

#[test]
fn build_code_graph_merges_all_edge_types() {
    let calls = vec![(1u64, 2u64)];
    let type_refs = vec![(3u64, 4u64)];
    let hierarchy = vec![(5u64, 6u64)];
    let all_ids = vec![1u64, 2, 3, 4, 5, 6, 7];
    let g = build_code_graph(&calls, &type_refs, &hierarchy, &all_ids);
    assert_eq!(g.node_count(), 7);
    assert_eq!(g.edge_count(), 5);
    let l = rank_layout(&g);
    assert_eq!(l.nodes.len(), 7);
    assert!(l.nodes.contains(&7));
}

#[test]
fn empty_graph_returns_empty_ranks() {
    let g = CodeGraph::new();
    assert!(g.is_empty());
    assert!(rank_layout(&g).nodes.is_empty());
    assert!(CodeGraph::default().is_empty());
}

#[test]
fn self_loops_are_ignored() {
    let mut g = CodeGraph::new();
    g.add_edge(1, 1);
    g.add_edge(2, 3);
    assert_eq!((g.node_count(), g.edge_count()), (3, 1));
    let l = rank_layout(&g);
    let at = |n: u64| l.nodes.iter().position(|x| *x == n).unwrap();
    assert_eq!(l.out_degree[at(1)], 0);
    assert_eq!(l.out_degree[at(2)], 1);
    assert_eq!(l.in_neighbors[at(3)], vec![at(2)]);
    assert!(l.in_neighbors[at(1)].is_empty());
}

#[test]
fn undirected_edges_run_both_ways() {
    let mut g = CodeGraph::new();
    g.add_undirected_edge(8, 9);
    g.add_node(8);
    g.add_edge(8, 9);
    assert_eq!((g.node_count(), g.nodes().len()), (2, 2));
    assert!(g.nodes().contains(&8) && g.nodes().contains(&9));
}

#[test]
fn statements_have_a_placeholder_for_each_value() {
    assert_eq!(placeholders(0), "");
    assert_eq!(placeholders(1), "?");
    assert_eq!(placeholders(3), "?,?,?");
    assert_eq!(roles_statement(2), "SELECT path, role FROM file_metadata WHERE path IN (?,?)");
    assert!(chunks_statement(0).is_none());
    assert!(chunks_statement(2).unwrap().ends_with("WHERE id IN (?,?)"));
    assert!(edge_statement(EdgeQuery::CallsTo, 0).is_none());
    for q in [
        EdgeQuery::CallsFrom,
        EdgeQuery::CallsTo,
        EdgeQuery::TypeUsesOf,
        EdgeQuery::TypeDefsOf,
        EdgeQuery::Hierarchy,
    ] {
        let (sql, times) = edge_statement(q, 3).unwrap();
        assert_eq!(sql.matches('?').count(), 3 * times);
    }
    assert_eq!(batches(0), vec![]);
    assert_eq!(batches(500), vec![(0, 500)]);
    assert_eq!(batches(1001), vec![(0, 500), (500, 1000), (1000, 1001)]);
}

#[test]
fn neighbors_are_looked_up_both_ways() {
    let conn = Connection::open_in_memory().unwrap();
    conn.execute_batch(
        "CREATE TABLE module_edges (importer_path TEXT, imported_path TEXT);
         INSERT INTO module_edges VALUES ('a', 'b'), ('c', 'a'), ('b', 'a'), ('d', 'e');",
    )
    .unwrap();
    let inputs = vec!["a".to_string(), "c".to_string()];
    let mut stmt = conn.prepare(&neighbors_statement(2)).unwrap();
    let found: Vec<String> = stmt
        .query_map(["a", "c", "a", "c"], |r| r.get(0))
        .unwrap()
        .map(|r| r.unwrap())
        .collect();
    assert_eq!(get_import_neighbors(&found, &inputs), vec!["b".to_string()]);
}

#[test]
fn a_pattern_finds_only_what_is_asked_for() {
    assert_eq!(exact_pattern(""), None);
    assert_eq!(exact_pattern("a_%\\b"), Some("%a\\_\\%\\\\b%".to_string()));
    let conn = Connection::open_in_memory().unwrap();
    let like = |text: &str, query: &str| -> bool {
        conn.query_row(
            "SELECT ?1 LIKE ?2 ESCAPE '\\'",
            [text, exact_pattern(query).unwrap().as_str()],
            |r| r.get(0),
        )
        .unwrap()
    };
    assert!(like("let a_b = 1", "a_b"));
    assert!(!like("let axb = 1", "a_b"));
    assert!(like("100% of", "100%"));
    assert!(!like("100 of", "0%o"));
    assert!(like("c:\\tmp", "\\t"));
}

#[test]
fn every_file_has_its_role_once() {
    let row = |p: &str, r: Option<&str>| FileRoleRow {
        path: p.to_string(),
        role: r.map(str::to_string),
    };
    let paths = vec!["a".to_string(), "b".to_string(), "a".to_string()];
    let got = get_file_roles(&paths, &vec![row("a", Some("test")), row("x", Some("docs"))]);
    let shown: Vec<(&str, Option<&str>)> =
        got.iter().map(|r| (r.path.as_str(), r.role.as_deref())).collect();
    assert_eq!(shown, vec![("a", Some("test")), ("b", None)]);
}
