use rusqlite::types::Value;
use rusqlite::Connection;
use semantex_core::index::history::{
    blame_enabled, changed_files_args, check_sha, chunk_blame, commit_detail, commit_from_row,
    commit_log_args, fetch_changed_files, fetch_commit_metadata, filter_commits,
    history_commit_limit, humanize_age, next_watermark, parse_blame_porcelain, parse_commit_log,
    parse_utc_date_to_ts, populate_history, populate_history_best_effort,
    populate_history_with_bound, resolve_since_to_ts, search_commit_messages, shown_time,
    store_commit_batch, truncate_at_boundary, truncate_body, CommitInfo, CommitQuery, GitOutput,
    HistoryFacts, HistoryFilter, Population, SinceSelector, SqlValue, DEFAULT_HISTORY_COMMITS,
    MAX_BODY_BYTES,
};

fn printed(stdout: &str) -> GitOutput {
    GitOutput { success: true, stdout: stdout.to_string(), stderr: String::new() }
}

fn failed(stderr: &str) -> GitOutput {
    GitOutput { success: false, stdout: String::new(), stderr: stderr.to_string() }
}

fn facts(head: Option<&str>, last: Option<&str>, exists: bool, behind: Option<usize>) -> HistoryFacts {
    HistoryFacts {
        head: head.map(str::to_string),
        last_sha: last.map(str::to_string),
        last_exists: exists,
        behind,
    }
}

/// A database with the given commits: hash, author, time, message, file.
fn database(commits: &[(&str, &str, i64, &str, &str)]) -> Connection {
    let conn = Connection::open_in_memory().unwrap();
    conn.execute_batch(
        "CREATE TABLE commits (hash TEXT PRIMARY KEY, author TEXT, ts INTEGER, message TEXT, body TEXT);
         CREATE TABLE file_commits (path TEXT, hash TEXT);",
    )
    .unwrap();
    for (hash, author, ts, message, file) in commits {
        conn.execute(
            "INSERT INTO commits VALUES (?1, ?2, ?3, ?4, '')",
            (hash, author, ts, message),
        )
        .unwrap();
        conn.execute("INSERT INTO file_commits VALUES (?1, ?2)", (file, hash)).unwrap();
    }
    conn
}

fn numbered(n: i64) -> Connection {
    let rows: Vec<(String, String, String)> = (0..n)
        .map(|i| (format!("h{i}"), format!("commit number {i}"), format!("file{i}.txt")))
        .collect();
    let all: Vec<(&str, &str, i64, &str, &str)> = rows
        .iter()
        .enumerate()
        .map(|(i, (h, m, f))| (h.as_str(), "Test User", i as i64, m.as_str(), f.as_str()))
        .collect();
    database(&all)
}

fn run(conn: &Connection, sql: &str, bound: Vec<Value>) -> Vec<CommitInfo> {
    let mut stmt = conn.prepare(sql).unwrap();
    let rows = stmt
        .query_map(rusqlite::params_from_iter(bound), |r| {
            let message: String = r.get(3)?;
            Ok(commit_from_row(r.get(0)?, r.get(1)?, r.get(2)?, &message))
        })
        .unwrap();
    rows.map(|r| r.unwrap()).collect()
}

fn select(conn: &Connection, filter: &HistoryFilter) -> Vec<CommitInfo> {
    match filter_commits(filter) {
        CommitQuery::Select { sql, bound } => run(
            conn,
            &sql,
            bound
                .into_iter()
                .map(|v| match v {
                    SqlValue::Integer(i) => Value::Integer(i),
                    SqlValue::Text(t) => Value::Text(t),
                })
                .collect(),
        ),
        CommitQuery::Search { query, limit } => match search_commit_messages(&query) {
            Some(m) => run(
                conn,
                "SELECT hash, author, ts, message FROM commits WHERE message LIKE ? ORDER BY ts DESC LIMIT ?",
                vec![Value::Text(m.like), Value::Integer(limit as i64)],
            ),
            None => vec![],
        },
    }
}

#[test]
fn non_git_dir_populate_is_a_silent_no_op() {
    assert!(matches!(populate_history(&facts(None, None, false, None), None), Population::Nothing));
    assert!(matches!(
        populate_history(&facts(None, Some("a"), true, Some(3)), None),
        Population::Nothing
    ));
}

#[test]
fn incremental_repopulation_only_adds_new_commits() {
    let same = facts(Some("c3"), Some("c3"), true, Some(0));
    assert!(matches!(populate_history(&same, None), Population::Nothing));
    match populate_history(&facts(Some("c4"), Some("c3"), true, Some(1)), None) {
        Population::Fetch { range, max_count } => {
            assert_eq!((range.as_str(), max_count), ("c3..HEAD", None));
        }
        other => panic!("{other:?}"),
    }
    match populate_history(&facts(Some("c2"), Some("c3"), true, Some(0)), None) {
        Population::MarkHead(h) => assert_eq!(h, "c2"),
        other => panic!("{other:?}"),
    }
}

#[test]
fn a_second_run_with_the_same_head_does_nothing() {
    let log = printed("c1\0A\u{0}1\0one\0\0\nc2\0A\u{0}2\0two\0\0\n");
    let fetched = fetch_commit_metadata(&log).unwrap();
    let mark = next_watermark("c2", &fetched);
    for last_exists in [true, false] {
        let again = facts(Some("c2"), Some(&mark), last_exists, None);
        assert!(matches!(populate_history(&again, None), Population::Nothing), "{mark}");
    }
    assert_eq!(next_watermark("c2", &vec![]), "c2");
    assert!(matches!(
        populate_history(&facts(None, None, false, None), None),
        Population::Nothing
    ));
}

#[test]
fn history_commit_limit_bounds_a_cold_start() {
    for f in [
        facts(Some("h"), None, false, None),
        facts(Some("h"), Some("gone"), false, Some(1)),
        facts(Some("h"), Some("old"), true, Some(4)),
        facts(Some("h"), Some("old"), true, None),
    ] {
        match populate_history_with_bound(&f, 3) {
            Population::Fetch { range, max_count } => {
                assert_eq!((range.as_str(), max_count), ("HEAD", Some(3)));
            }
            other => panic!("{other:?}"),
        }
    }
}

#[test]
fn default_history_commits_constant_is_500() {
    assert_eq!(DEFAULT_HISTORY_COMMITS, 500);
    assert_eq!(history_commit_limit(None), 500);
    assert_eq!(history_commit_limit(Some(" 7\n")), 7);
    assert_eq!(history_commit_limit(Some("0")), 500);
    assert_eq!(history_commit_limit(Some("-7")), 500);
}

#[test]
fn search_commit_messages_finds_substring() {
    let conn = numbered(3);
    let find = |q: &str| {
        select(
            &conn,
            &HistoryFilter {
                message_query: Some(q.to_string()),
                limit: 10,
                ..Default::default()
            },
        )
    };
    let hits = find("number 2");
    assert_eq!(hits.len(), 1);
    assert_eq!(hits[0].subject, "commit number 2");
    assert!(find("nonexistent-xyz").is_empty());
    assert!(find("   ").is_empty());
    assert!(search_commit_messages("   ").is_none());
    let m = search_commit_messages(" 100%_sure ").unwrap();
    assert_eq!((m.fts_query.as_str(), m.like.as_str()), ("100%_sure", "%100sure%"));
}

#[test]
fn body_is_stored_and_truncated() {
    let long_body = "y".repeat(10_000);
    let log = format!("h\0Test User\u{0}7\0subject line\0{long_body}\n\0");
    let commits = parse_commit_log(&log);
    assert_eq!(commits.len(), 1);
    let body = &commits[0].body;
    assert!(body.len() <= MAX_BODY_BYTES + 4);
    assert!(body.starts_with('y'));
    assert_eq!(body.len(), 4003);
    assert_eq!(truncate_body("short"), "short");
    // A character is never cut in two.
    let wide = "é".repeat(2001);
    assert_eq!(truncate_body(&wide), format!("{}…", "é".repeat(2000)));
    assert_eq!(truncate_body(&format!("x{wide}")), format!("x{}…", "é".repeat(1999)));
}

#[test]
fn humanize_age_buckets() {
    let now: i64 = 1_783_641_600;
    assert!(humanize_age(now, now).ends_with("s ago"));
    assert!(humanize_age(now - 3600, now).ends_with("h ago"));
    assert!(humanize_age(now - 86400 * 2, now).ends_with("d ago"));
    assert!(humanize_age(now - 86400 * 400, now).ends_with("y ago"));
    assert_eq!(humanize_age(now + 5, now), "0s ago");
    assert_eq!(humanize_age(now - 59, now), "59s ago");
    assert_eq!(humanize_age(now - 60, now), "1m ago");
    assert_eq!(humanize_age(now - 86400 * 29, now), "29d ago");
    assert_eq!(humanize_age(now - 86400 * 90, now), "3mo ago");
    assert_eq!(humanize_age(now - 86400 * 365, now), "1y ago");
    assert_eq!(humanize_age(i64::MIN, i64::MAX), "584942417355y ago");
}

#[test]
fn chunk_blame_maps_lines_to_commits_when_opted_in() {
    let a = "a".repeat(40);
    let b = "b".repeat(40);
    let blame = vec![(1u32, a.clone()), (2, b.clone()), (3, a.clone())];
    assert_eq!(chunk_blame(&blame, 1, 3), vec![a.clone(), b.clone()]);
    assert_eq!(chunk_blame(&blame, 2, 2), vec![b]);
    assert_eq!(chunk_blame(&blame, 3, 90), vec![a]);
    assert!(chunk_blame(&blame, 4, 9).is_empty());
    assert!(chunk_blame(&blame, 3, 1).is_empty());
}

#[test]
fn blame_disabled_by_default_leaves_chunk_blame_empty() {
    assert!(!blame_enabled(None));
    assert!(!blame_enabled(Some("true")));
    assert!(blame_enabled(Some("1")));
    let files: Vec<String> = (0..501).map(|i| format!("{i}.rs")).collect();
    assert!(populate_history_best_effort(None, &files).is_empty());
    assert_eq!(populate_history_best_effort(Some("1"), &files).len(), 500);
}

#[test]
fn tracked_file_named_head_does_not_break_population() {
    for args in [commit_log_args("HEAD", None), changed_files_args("HEAD", Some(9))] {
        let n = args.len();
        assert_eq!((args[n - 2].as_str(), args[n - 1].as_str()), ("HEAD", "--"));
    }
    assert_eq!(
        commit_log_args("a..HEAD", Some(3)),
        vec![
            "log",
            "--no-color",
            "--date=unix",
            "--reverse",
            "-n",
            "3",
            "--pretty=format:%H%x00%an%x00%ct%x00%s%x00%b%x00",
            "a..HEAD",
            "--"
        ]
    );
    let out = fetch_changed_files(&printed("\0c1\nHEAD\n")).unwrap();
    assert_eq!(out[0].files, vec!["HEAD"]);
}

#[test]
fn non_ascii_filenames_are_stored_unquoted() {
    let args = changed_files_args("HEAD", None);
    assert_eq!((args[0].as_str(), args[1].as_str()), ("-c", "core.quotepath=off"));
    let out = fetch_changed_files(&printed("\0c1\n\nhéllo.txt\n")).unwrap();
    assert_eq!(out[0].hash, "c1");
    assert_eq!(out[0].files, vec!["héllo.txt"]);
}

#[test]
fn subdir_project_stores_project_relative_paths() {
    assert!(changed_files_args("HEAD", None).contains(&"--relative".to_string()));
}

#[test]
fn hostile_commit_body_cannot_forge_commit_rows() {
    let hostile_body = format!(
        "innocent first line\n{rs}\ndeadbeefdeadbeefdeadbeefdeadbeefdeadbeef{fs}Fake Author{fs}1{fs}fake subject{fs}fake body{rs}\ntrailing text",
        rs = '\u{1e}',
        fs = '\u{1f}',
    );
    let log = format!("h1\0Real Author\u{0}5\0real subject\0{hostile_body}\n\0");
    let commits = fetch_commit_metadata(&printed(&log)).unwrap();
    assert_eq!(commits.len(), 1, "exactly one real commit, no forged rows");
    assert_eq!(commits[0].author, "Real Author");
    assert_eq!(commits[0].subject, "real subject");
    assert_ne!(commits[0].hash, "deadbeefdeadbeefdeadbeefdeadbeefdeadbeef");
}

#[test]
fn a_log_is_read_commit_by_commit() {
    let log = "c1\0Ann\u{0}10\0first\0\0\nc2\0Bob\u{0}20\0second\0why\n\0\n";
    let commits = parse_commit_log(log);
    assert_eq!(commits.len(), 2);
    assert_eq!((commits[1].hash.as_str(), commits[1].ts), ("c2", 20));
    let changed = fetch_changed_files(&printed("\0c1\na\n\0c2\nb\nc\n")).unwrap();
    let rows = store_commit_batch(&commits, &changed);
    assert_eq!(rows[0].message, "first");
    assert_eq!(rows[0].files, vec!["a"]);
    assert_eq!(rows[1].message, "second\n\nwhy");
    assert_eq!(rows[1].files, vec!["b", "c"]);
    assert_eq!(next_watermark("head", &commits), "c2");
    assert_eq!(next_watermark("head", &vec![]), "head");
    assert_eq!(
        fetch_commit_metadata(&failed("bad")).unwrap_err().message(),
        "git log failed: bad"
    );
    assert_eq!(
        fetch_changed_files(&failed("bad")).unwrap_err().message(),
        "git log --name-only failed: bad"
    );
}

#[test]
fn parse_blame_porcelain_skips_uncommitted_zero_sha() {
    let out = "\
0000000000000000000000000000000000000000 1 1 1\n\
author Not Committed Yet\n\
\tuncommitted line\n\
deadbeefdeadbeefdeadbeefdeadbeefdeadbeef 2 2 1\n\
author Real\n\
\tcommitted line\n";
    let parsed = parse_blame_porcelain(out);
    assert_eq!(parsed.len(), 1);
    assert_eq!(parsed[0].0, 2);
    assert_eq!(parsed[0].1, "deadbeefdeadbeefdeadbeefdeadbeefdeadbeef");
}

#[test]
fn filter_commits_since_ts_is_strictly_greater() {
    let conn = database(&[
        ("a", "Test User", 1_000_000_000, "first", "a.txt"),
        ("b", "Test User", 1_000_000_100, "second", "b.txt"),
        ("c", "Test User", 1_000_000_200, "third", "c.txt"),
    ]);
    let filter = HistoryFilter { since_ts: Some(1_000_000_100), limit: 10, ..Default::default() };
    let hits = select(&conn, &filter);
    assert_eq!(hits.len(), 1);
    assert_eq!(hits[0].subject, "third");
}

#[test]
fn filter_commits_composes_file_and_message() {
    let conn = numbered(3);
    let hits = select(
        &conn,
        &HistoryFilter {
            file: Some("file1.txt".into()),
            message_query: Some("number".into()),
            limit: 10,
            ..Default::default()
        },
    );
    assert_eq!(hits.len(), 1);
    assert_eq!(hits[0].subject, "commit number 1");
    let none = select(
        &conn,
        &HistoryFilter {
            file: Some("file1.txt".into()),
            message_query: Some("nonexistent-xyz".into()),
            limit: 10,
            ..Default::default()
        },
    );
    assert!(none.is_empty());
}

#[test]
fn filter_commits_author_substring() {
    let conn = database(&[
        ("a", "Alice Wonder", 1, "by alice", "a.txt"),
        ("b", "Bob Builder", 2, "by bob", "b.txt"),
    ]);
    let hits = select(
        &conn,
        &HistoryFilter { author: Some("Alice".into()), limit: 10, ..Default::default() },
    );
    assert_eq!(hits.len(), 1);
    assert_eq!(hits[0].subject, "by alice");
}

#[test]
fn filter_commits_message_only_delegates_to_fts_search() {
    let filter = HistoryFilter {
        message_query: Some("number 2".into()),
        limit: 10,
        ..Default::default()
    };
    match filter_commits(&filter) {
        CommitQuery::Search { query, limit } => {
            assert_eq!((query.as_str(), limit), ("number 2", 10));
        }
        other => panic!("{other:?}"),
    }
    assert_eq!(select(&numbered(3), &filter).len(), 1);
}

#[test]
fn filter_commits_zero_limit_defaults_to_twenty() {
    assert_eq!(select(&numbered(25), &HistoryFilter::default()).len(), 20);
}

#[test]
fn parse_utc_date_handles_known_values() {
    assert_eq!(parse_utc_date_to_ts("1970-01-01"), Some(0));
    assert_eq!(parse_utc_date_to_ts("2020-01-01"), Some(1_577_836_800));
    assert_eq!(parse_utc_date_to_ts("2026-07-10"), Some(1_783_641_600));
    assert_eq!(parse_utc_date_to_ts("2020-13-01"), None);
    assert_eq!(parse_utc_date_to_ts("2020-00-10"), None);
    assert_eq!(parse_utc_date_to_ts("not-a-date"), None);
    assert_eq!(parse_utc_date_to_ts("2020-1-1"), None);
    assert_eq!(parse_utc_date_to_ts("2000-03-01"), Some(951_868_800));
    assert_eq!(parse_utc_date_to_ts("0000-01-01"), Some(-62_167_219_200));
}

#[test]
fn resolve_since_rejects_flag_like_and_empty_input() {
    for s in ["-n", "--all", "   "] {
        assert!(matches!(resolve_since_to_ts(s), SinceSelector::Rejected), "{s}");
    }
}

#[test]
fn resolve_since_tag_sha_and_garbage() {
    match resolve_since_to_ts(" v1 ") {
        SinceSelector::Revision(r) => assert_eq!(r, "v1^{commit}"),
        other => panic!("{other:?}"),
    }
    assert!(matches!(
        resolve_since_to_ts("2001-09-09"),
        SinceSelector::At(t) if Some(t) == parse_utc_date_to_ts("2001-09-09")
    ));
    match resolve_since_to_ts("HEAD~1") {
        SinceSelector::Revision(r) => assert_eq!(r, "HEAD~1^{commit}"),
        other => panic!("{other:?}"),
    }
    assert_eq!(shown_time("1000000000\n"), Some(1_000_000_000));
    assert_eq!(shown_time(""), None);
}

const SHA: &str = "deadbeefdeadbeefdeadbeefdeadbeefdeadbeef";

fn shown() -> GitOutput {
    printed(&format!("{SHA}\0Test User\u{0}9\0commit number 1\0why\n"))
}

#[test]
fn commit_detail_returns_stat_files_and_patch() {
    let d = commit_detail(
        SHA,
        &shown(),
        vec!["file1.txt".to_string()],
        &printed("\n file1.txt | 1 +\n"),
        &printed("diff\n+content 1\n"),
        64 * 1024,
    )
    .unwrap();
    assert_eq!(d.hash, SHA);
    assert_eq!((d.author.as_str(), d.ts), ("Test User", 9));
    assert_eq!(d.subject, "commit number 1");
    assert_eq!(d.files, vec!["file1.txt".to_string()]);
    assert!(d.stat.contains("file1.txt"), "stat: {}", d.stat);
    assert!(d.patch.contains("+content 1"), "patch: {}", d.patch);
    assert!(!d.patch_truncated);
}

#[test]
fn commit_detail_truncates_patch_to_budget() {
    let d = commit_detail(
        SHA,
        &shown(),
        vec![],
        &printed(""),
        &printed("diff --git a/file0.txt b/file0.txt\n"),
        10,
    )
    .unwrap();
    assert!(d.patch_truncated);
    assert!(d.patch.len() <= 10);
    assert_eq!(d.patch, "diff --git");
    assert_eq!(truncate_at_boundary("ab  ", 4), ("ab".to_string(), false));
    assert_eq!(truncate_at_boundary("éé", 3), ("é".to_string(), true));
}

#[test]
fn commit_detail_short_prefix_resolves() {
    let d = commit_detail(&SHA[..8], &shown(), vec![], &printed(""), &printed(""), 4096).unwrap();
    assert_eq!(d.hash, SHA, "short prefix must resolve to the full hash");
}

#[test]
fn commit_detail_rejects_non_hex_or_flag_shas() {
    for sha in ["HEAD", "--stat", "abc"] {
        assert!(check_sha(sha).is_err(), "{sha}");
        let d = commit_detail(sha, &shown(), vec![], &printed(""), &printed(""), 4096);
        assert_eq!(
            d.unwrap_err().message(),
            format!("invalid commit sha '{sha}' (need 7-40 hex chars)")
        );
    }
    let d = commit_detail(SHA, &failed("fatal: bad object\n"), vec![], &failed(""), &failed(""), 4096);
    assert_eq!(
        d.unwrap_err().message(),
        format!("commit '{SHA}' not found: fatal: bad object")
    );
    let d = commit_detail(SHA, &printed("x"), vec![], &failed(""), &failed(""), 4096);
    assert_eq!(
        d.unwrap_err().message(),
        format!("unexpected `git show` output for '{SHA}'")
    );
}
