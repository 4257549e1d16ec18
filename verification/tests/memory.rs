use rusqlite::Connection;
use semantex_core::index::layout::{mirror_into_branch_dir, PresentParts};
use semantex_core::index::memory::{
    after_insert, build_match_query, clamp_limit, enforce_cap, ensure_migrations,
    escape_fts5_token, format_tags, generate_key, max_notes, parse_tags, rank_notes, recall,
    recall_like, row_to_note, save, InsertOutcome, Note, NoteError, RecallPlan, SaveStep,
    MAX_SAVE_ATTEMPTS, NOTE_SOURCE,
};

fn texts(t: &[&str]) -> Vec<String> {
    t.iter().map(|s| s.to_string()).collect()
}

fn note(id: i64, content: &str, tags: &[&str]) -> Note {
    Note {
        id,
        created_ts: id,
        updated_ts: id,
        scope: "global".to_string(),
        content: content.to_string(),
        tags: texts(tags),
        source: NOTE_SOURCE.to_string(),
    }
}

fn ids(notes: &[Note]) -> Vec<i64> {
    notes.iter().map(|n| n.id).collect()
}

/// What a plan finds in a full-text index over the notes, best first.
fn found(plan: &RecallPlan, notes: &[&str]) -> Vec<String> {
    let conn = Connection::open_in_memory().unwrap();
    conn.execute_batch("CREATE VIRTUAL TABLE notes_fts USING fts5(content, tags)").unwrap();
    for n in notes {
        conn.execute("INSERT INTO notes_fts (content, tags) VALUES (?1, '')", [n]).unwrap();
    }
    match plan {
        RecallPlan::Match { expr, limit } => {
            let mut stmt = conn
                .prepare("SELECT content FROM notes_fts WHERE notes_fts MATCH ?1 ORDER BY bm25(notes_fts) LIMIT ?2")
                .unwrap();
            let rows = stmt.query_map((expr, *limit as i64), |r| r.get::<_, String>(0)).unwrap();
            rows.map(|r| r.unwrap()).collect()
        }
        other => panic!("{other:?}"),
    }
}

#[test]
fn save_and_get_roundtrip() {
    let row = save("remember to use WAL mode", "global", &texts(&["sqlite"]), 17).unwrap();
    let note = row_to_note(1, row.ts, row.ts, row.scope, row.content, &row.tags, row.source);
    assert_eq!(note.content, "remember to use WAL mode");
    assert_eq!(note.scope, "global");
    assert_eq!(note.tags, vec!["sqlite".to_string()]);
    assert_eq!(note.source, NOTE_SOURCE);
    assert!(note.created_ts > 0);
    assert_eq!((note.created_ts, note.updated_ts), (17, 17));
}

#[test]
fn save_rejects_empty_content_or_scope() {
    assert!(save("", "global", &vec![], 1).is_err());
    assert!(save("  ", "global", &vec![], 1).is_err());
    assert!(save("hello", "", &vec![], 1).is_err());
    assert!(save("hello", "   ", &vec![], 1).is_err());
    assert_eq!(save("", "", &vec![], 1).unwrap_err(), NoteError::EmptyContent);
    assert_eq!(NoteError::EmptyContent.message(), "memory note content must not be empty");
    assert_eq!(NoteError::EmptyScope.message(), "memory note scope must not be empty");
}

#[test]
fn tags_are_normalized_sorted_and_deduped() {
    let row = save("note", "global", &texts(&["zeta", "alpha", "alpha", " beta "]), 1).unwrap();
    assert_eq!(parse_tags(&row.tags), vec!["alpha", "beta", "zeta"]);
    assert_eq!(row.tags, "alpha,beta,zeta");
}

#[test]
fn tags_with_a_comma_come_back_as_two() {
    assert_eq!(parse_tags(&format_tags(&texts(&["b,a"]))), vec!["b", "a"]);
    assert!(parse_tags(" , ,").is_empty());
    assert_eq!(format_tags(&vec![]), "");
    // The order is that of the code points.
    assert_eq!(format_tags(&texts(&["é", "z", "Z", "a"])), "Z,a,z,é");
}

#[test]
fn save_generates_distinct_ids_for_repeated_calls() {
    let a = generate_key(1_000, 0, 255);
    let b = generate_key(1_000, 1, 255);
    let c = generate_key(1_001, 2, 255);
    assert!(a != b && b != c && a != c);
    assert_eq!(a, "3e8-0-ff");
    assert_eq!(generate_key(u128::MAX, 16, 0), format!("{:x}-10-0", u128::MAX));
}

#[test]
fn a_taken_key_is_tried_again() {
    for attempt in 1..MAX_SAVE_ATTEMPTS {
        assert_eq!(after_insert(attempt, InsertOutcome::KeyTaken), SaveStep::Retry);
    }
    assert_eq!(after_insert(MAX_SAVE_ATTEMPTS, InsertOutcome::KeyTaken), SaveStep::GiveUp);
    assert_eq!(after_insert(1, InsertOutcome::Failed), SaveStep::Fail);
    assert_eq!(after_insert(1, InsertOutcome::Inserted), SaveStep::Done);
}

#[test]
fn recall_none_query_behaves_like_list() {
    assert!(matches!(recall(None, 10, true), RecallPlan::List { limit: 10 }));
    assert!(matches!(recall(Some("  "), 10, true), RecallPlan::List { limit: 10 }));
    assert!(matches!(recall(None, 0, true), RecallPlan::List { limit: 1 }));
    assert!(matches!(recall(None, 201, true), RecallPlan::List { limit: 200 }));
    assert_eq!(clamp_limit(usize::MAX), 200);
}

#[test]
fn recall_ranks_by_match_quality() {
    let all = [
        "unrelated content about parsing json files",
        "sqlite schema migration guard notes",
        "migration guard migration guard: always add a guard before altering the schema migration",
    ];
    let results = found(&recall(Some("migration guard"), 10, true), &all);
    assert_eq!(results.len(), 2, "unrelated note must not match `migration guard`: {results:?}");
    assert!(results[0].starts_with("migration guard migration"));
    assert!(
        !results.iter().any(|n| n.starts_with("unrelated")),
        "unrelated note should never appear: {results:?}"
    );
}

#[test]
fn recall_handles_fts5_special_characters_without_erroring() {
    for weird in ["\"quoted\"", "a-b:c*(d)", "NOT AND OR", "'; DROP TABLE notes; --"] {
        found(&recall(Some(weird), 10, true), &["normal note"]);
    }
    assert_eq!(escape_fts5_token("\"a"), "\"\"\"a\"");
    assert_eq!(build_match_query(" a  b\" "), Some("\"a\" OR \"b\"\"\"".to_string()));
    assert_eq!(build_match_query(" \t"), None);
}

#[test]
fn without_an_index_notes_are_ranked_by_their_words() {
    match recall(Some(" Cache Key "), 3, false) {
        RecallPlan::Score { query, limit } => assert_eq!((query.as_str(), limit), ("Cache Key", 3)),
        other => panic!("{other:?}"),
    }
    let notes = || {
        vec![
            note(1, "the CACHE key", &[]),
            note(2, "a key", &["cache"]),
            note(3, "only a key", &[]),
            note(4, "nothing", &[]),
        ]
    };
    assert_eq!(ids(&recall_like(notes(), "Cache KEY cache", 10)), vec![2, 1, 3]);
    assert_eq!(ids(&recall_like(notes(), "Cache KEY", 1)), vec![2]);
    assert_eq!(ids(&recall_like(notes(), "  ", 2)), vec![1, 2]);
    assert_eq!(ids(&rank_notes(notes(), &texts(&["thing"]), 9)), vec![4]);
    // The case of a letter makes no difference, whichever letter it is.
    for (held, asked) in [("É", "É"), ("é", "É"), ("É", "é"), ("ÜBER", "über")] {
        assert_eq!(ids(&recall_like(vec![note(1, held, &[])], asked, 9)), vec![1]);
        assert_eq!(ids(&recall_like(vec![note(1, "", &[held])], asked, 9)), vec![1]);
    }
    assert!(recall_like(vec![note(1, "É", &[])], "e", 9).is_empty());
}

#[test]
fn cap_behaviour_serial() {
    assert_eq!(enforce_cap(5, max_notes(Some("3"))), 2, "cap must evict down to 3");
    assert_eq!(enforce_cap(10, max_notes(Some("0"))), 0, "cap of 0 disables eviction");
    assert_eq!(max_notes(None), 1000);
    assert_eq!(max_notes(Some("x")), 1000);
    assert_eq!(enforce_cap(1001, max_notes(None)), 1);
    assert_eq!(enforce_cap(-1, 3), 0);
}

#[test]
fn reopening_an_existing_memory_db_is_idempotent() {
    assert_eq!(ensure_migrations(0, 0), (true, true));
    assert_eq!(ensure_migrations(1, 1), (false, false));
}

#[test]
fn branch_switch_leaves_memory_db_untouched() {
    let all = PresentParts {
        chunks_db: true,
        meta_json: true,
        models_toml: true,
        dense: true,
        sparse: true,
    };
    assert!(mirror_into_branch_dir(all).iter().all(|s| s.name != "memory.db"));
}
