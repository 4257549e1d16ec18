//! Whether the parts of an index agree with each other and with the files of the project.

use crate::index::storage::GraphStats;
use crate::text::{decimal, decimal_text, join, joined, views};
use crate::types::IndexMeta;
use vstd::prelude::*;

verus! {

/// Of so many files it is seen whether they have changed since they were indexed.
pub const SAMPLED_FILES: usize = 100;

/// The outcome of one check.
#[derive(Debug, Clone)]
pub struct CheckResult {
    pub name: String,
    pub passed: bool,
    pub message: String,
}

/// What a [`CheckResult`] says.
pub struct CheckView {
    pub name: Seq<char>,
    pub passed: bool,
    pub message: Seq<char>,
}

impl View for CheckResult {
    type V = CheckView;

    open spec fn view(&self) -> CheckView {
        CheckView { name: self.name@, passed: self.passed, message: self.message@ }
    }
}

/// The outcome of all checks.
#[derive(Debug, Clone)]
pub struct ValidationReport {
    pub checks: Vec<CheckResult>,
    pub passed: usize,
    pub failed: usize,
    pub warnings: usize,
}

impl ValidationReport {
    /// The counts are those of the checks.
    pub open spec fn wf(&self) -> bool {
        &&& self.passed == passed_in(views(self.checks@))
        &&& self.failed == self.checks@.len() - passed_in(views(self.checks@))
    }

    /// Whether no check has failed.
    pub fn all_passed(&self) -> (r: bool)
        ensures
            r == (self.failed == 0),
    {
        self.failed == 0
    }

    /// How many checks have passed, in words.
    pub fn summary(&self) -> (r: String)
        ensures
            r@ == decimal(self.passed as nat) + "/"@ + decimal(self.checks@.len())
                + " checks passed"@,
    {
        decimal_text(self.passed as u64).concat("/").concat(
            &decimal_text(self.checks.len() as u64),
        ).concat(" checks passed")
    }
}

/// The number of checks that have passed.
pub open spec fn passed_in(checks: Seq<CheckView>) -> nat
    decreases checks.len(),
{
    if checks.len() == 0 {
        0
    } else {
        passed_in(checks.drop_last()) + if checks.last().passed {
            1nat
        } else {
            0
        }
    }
}

/// The report on a list of checks.
pub fn report_on(checks: Vec<CheckResult>) -> (r: ValidationReport)
    ensures
        r.checks == checks,
        r.wf(),
        r.warnings == 0,
{
    let ghost all = views(checks@);
    let mut passed: usize = 0;
    let mut failed: usize = 0;
    let mut i: usize = 0;
    while i < checks.len()
        invariant
            i <= checks@.len(),
            checks@.len() == checks.len(),
            all == views(checks@),
            passed == passed_in(all.take(i as int)),
            passed + failed == i,
        decreases checks@.len() - i,
    {
        proof {
            assert(all.take(i + 1).drop_last() =~= all.take(i as int));
            assert(all.take(i + 1).last() == checks@[i as int]@);
        }
        if checks[i].passed {
            passed = passed + 1;
        } else {
            failed = failed + 1;
        }
        i = i + 1;
    }
    proof {
        assert(all.take(i as int) =~= all);
    }
    ValidationReport { checks, passed, failed, warnings: 0 }
}

proof fn lemma_passed_bound(checks: Seq<CheckView>)
    ensures
        passed_in(checks) <= checks.len(),
        passed_in(checks) == checks.len() <==> forall|i: int|
            0 <= i < checks.len() ==> (#[trigger] checks[i]).passed,
    decreases checks.len(),
{
    if checks.len() > 0 {
        let front = checks.drop_last();
        lemma_passed_bound(front);
        if forall|i: int| 0 <= i < front.len() ==> (#[trigger] front[i]).passed {
            assert forall|i: int| 0 <= i < checks.len() && checks.last().passed implies (
            #[trigger] checks[i]).passed by {
                if i < front.len() {
                    assert(front[i] == checks[i]);
                }
            }
        } else {
            let j = choose|j: int| 0 <= j < front.len() && !(#[trigger] front[j]).passed;
            assert(!checks[j].passed);
        }
    }
}

/// Every check either passes or fails, and a report is good exactly when each has passed.
pub proof fn lemma_report(r: ValidationReport)
    requires
        r.wf(),
    ensures
        r.passed + r.failed == r.checks@.len(),
        r.failed == 0 <==> forall|i: int|
            0 <= i < r.checks@.len() ==> (#[trigger] r.checks@[i]).passed,
{
    let all = views(r.checks@);
    lemma_passed_bound(all);
    assert forall|i: int| 0 <= i < all.len() implies (#[trigger] all[i]).passed
        == r.checks@[i].passed by {}
    if r.failed == 0 {
        assert forall|i: int| 0 <= i < r.checks@.len() implies (
        #[trigger] r.checks@[i]).passed by {
            assert(all[i].passed);
        }
    }
    if forall|i: int| 0 <= i < r.checks@.len() ==> (#[trigger] r.checks@[i]).passed {
        assert forall|i: int| 0 <= i < all.len() implies (#[trigger] all[i]).passed by {
            assert(r.checks@[i].passed);
        }
    }
}

fn failed_check(name: &str, message: String) -> (r: CheckResult)
    ensures
        r@ == (CheckView { name: name@, passed: false, message: message@ }),
{
    CheckResult { name: name.to_owned(), passed: false, message }
}

/// The view of what is known of a thing, or of the error that kept it from being known.
pub open spec fn or_error<T>(known: Result<T, String>) -> Result<T, Seq<char>> {
    match known {
        Ok(t) => Ok(t),
        Err(e) => Err(e@),
    }
}

/// How many files and chunks the database holds.
#[derive(Debug, Clone, Copy)]
pub struct StoredCounts {
    pub files: u64,
    pub chunks: u64,
}

/// When a file was last modified, by the database and on disk, in seconds since 1970.
#[derive(Debug, Clone, Copy)]
pub struct MtimeSample {
    pub stored: i64,
    /// `None` where it cannot be read.
    pub on_disk: Option<i64>,
}

/// What an open database says.
#[derive(Debug)]
pub struct StoreFacts {
    pub counts: StoredCounts,
    /// Of each file that was indexed, whether it is still there.
    pub present: Result<Vec<bool>, String>,
    /// Some of the files.
    pub sample: Vec<MtimeSample>,
    pub graph: Result<GraphStats, String>,
}

/// By how much the number of chunks may be off: a twentieth of them, and at least one.
pub open spec fn tolerance(chunks: u64) -> u64 {
    if chunks / 20 > 1 {
        chunks / 20
    } else {
        1
    }
}

/// The distance of two numbers.
pub open spec fn distance(a: u64, b: u64) -> int {
    if a < b {
        b - a
    } else {
        a - b
    }
}

/// What does not agree between the metadata and the database.
pub open spec fn count_issues(files: u64, chunks: u64, stored: StoredCounts) -> Seq<Seq<char>> {
    let a = if stored.files == files {
        Seq::<Seq<char>>::empty()
    } else {
        seq![
            "file count mismatch: DB="@ + decimal(stored.files as nat) + ", meta="@ + decimal(
                files as nat,
            ),
        ]
    };
    if distance(stored.chunks, chunks) <= tolerance(chunks) {
        a
    } else {
        a.push(
            "chunk count drift: DB="@ + decimal(stored.chunks as nat) + ", meta="@ + decimal(
                chunks as nat,
            ) + " (>"@ + decimal(tolerance(chunks) as nat) + " tolerance)"@,
        )
    }
}

/// What the check of the metadata says: it fails where the metadata cannot be read, has another
/// schema version than the present one, where the database cannot be opened, and where the counts
/// do not agree.
pub open spec fn meta_check(
    meta: Result<IndexMeta, Seq<char>>,
    expected: u32,
    store: Result<StoreFacts, Seq<char>>,
) -> (bool, Seq<char>) {
    match meta {
        Err(e) => (false, "Cannot read meta.json: "@ + e),
        Ok(m) => if m.schema_version != expected {
            (
                false,
                "Schema version mismatch: meta has "@ + decimal(m.schema_version as nat)
                    + ", expected "@ + decimal(expected as nat),
            )
        } else {
            match store {
                Err(e) => (false, "Cannot open chunks.db: "@ + e),
                Ok(f) => {
                    let s = f.counts;
                    let issues = count_issues(m.file_count, m.chunk_count, s);
                    if issues.len() == 0 {
                        (
                            true,
                            "OK: files="@ + decimal(s.files as nat) + " (meta: "@ + decimal(
                                m.file_count as nat,
                            ) + "), chunks="@ + decimal(s.chunks as nat) + " (meta: "@ + decimal(
                                m.chunk_count as nat,
                            ) + "), schema=v"@ + decimal(m.schema_version as nat),
                        )
                    } else {
                        (false, joined(issues, "; "@))
                    }
                },
            }
        },
    }
}

/// Compares the counts of the metadata with those of the database.
pub fn check_meta_db_consistency(
    meta: &Result<IndexMeta, String>,
    expected: u32,
    store: &Result<StoreFacts, String>,
) -> (r: CheckResult)
    ensures
        r@.name == "meta_db_consistency"@,
        (r@.passed, r@.message) == meta_check(or_error(*meta), expected, or_error(*store)),
{
    let name: &str = "meta_db_consistency";
    let m: &IndexMeta = match meta {
        Ok(m) => m,
        Err(e) => {
            return failed_check(name, "Cannot read meta.json: ".to_owned().concat(e));
        },
    };
    if m.schema_version != expected {
        return failed_check(
            name,
            "Schema version mismatch: meta has ".to_owned().concat(
                &decimal_text(m.schema_version as u64),
            ).concat(", expected ").concat(&decimal_text(expected as u64)),
        );
    }
    let s: &StoredCounts = match store {
        Ok(f) => &f.counts,
        Err(e) => {
            return failed_check(name, "Cannot open chunks.db: ".to_owned().concat(e));
        },
    };
    let allowed: u64 = if m.chunk_count / 20 > 1 {
        m.chunk_count / 20
    } else {
        1
    };
    let drift: u64 = if s.chunks < m.chunk_count {
        m.chunk_count - s.chunks
    } else {
        s.chunks - m.chunk_count
    };
    let mut issues: Vec<String> = Vec::new();
    proof {
        assert(views(issues@) =~= Seq::<Seq<char>>::empty());
    }
    if s.files != m.file_count {
        issues.push(
            "file count mismatch: DB=".to_owned().concat(&decimal_text(s.files)).concat(
                ", meta=",
            ).concat(&decimal_text(m.file_count)),
        );
        proof {
            assert(views(issues@) =~= seq![issues@[0]@]);
        }
    }
    if drift > allowed {
        let ghost shown = views(issues@);
        let line: String = "chunk count drift: DB=".to_owned().concat(
            &decimal_text(s.chunks),
        ).concat(", meta=").concat(&decimal_text(m.chunk_count)).concat(" (>").concat(
            &decimal_text(allowed),
        ).concat(" tolerance)");
        let ghost lv = line@;
        issues.push(line);
        proof {
            assert(views(issues@) =~= shown.push(lv));
        }
    }
    proof {
        assert(views(issues@) =~= count_issues(m.file_count, m.chunk_count, *s));
    }
    if issues.len() == 0 {
        CheckResult {
            name: name.to_owned(),
            passed: true,
            message: "OK: files=".to_owned().concat(&decimal_text(s.files)).concat(
                " (meta: ",
            ).concat(&decimal_text(m.file_count)).concat("), chunks=").concat(
                &decimal_text(s.chunks),
            ).concat(" (meta: ").concat(&decimal_text(m.chunk_count)).concat(
                "), schema=v",
            ).concat(&decimal_text(m.schema_version as u64)),
        }
    } else {
        failed_check(name, join(&issues, "; "))
    }
}

/// How many of the files are no longer there.
pub open spec fn missing_in(present: Seq<bool>) -> nat
    decreases present.len(),
{
    if present.len() == 0 {
        0
    } else {
        missing_in(present.drop_last()) + if present.last() {
            0nat
        } else {
            1
        }
    }
}

/// How many of the files were modified at another time than the one stored.
pub open spec fn modified_in(sample: Seq<MtimeSample>) -> nat
    decreases sample.len(),
{
    if sample.len() == 0 {
        0
    } else {
        modified_in(sample.drop_last()) + if sample.last().on_disk is Some
            && sample.last().on_disk->0 != sample.last().stored {
            1nat
        } else {
            0
        }
    }
}

fn count_missing(present: &Vec<bool>) -> (r: usize)
    ensures
        r == missing_in(present@),
{
    let mut n: usize = 0;
    let mut i: usize = 0;
    while i < present.len()
        invariant
            i <= present@.len(),
            present@.len() == present.len(),
            n <= i,
            n == missing_in(present@.take(i as int)),
        decreases present@.len() - i,
    {
        proof {
            assert(present@.take(i + 1).drop_last() =~= present@.take(i as int));
        }
        if !present[i] {
            n = n + 1;
        }
        i = i + 1;
    }
    proof {
        assert(present@.take(i as int) =~= present@);
    }
    n
}

fn count_modified(sample: &Vec<MtimeSample>) -> (r: usize)
    ensures
        r == modified_in(sample@),
{
    let mut n: usize = 0;
    let mut i: usize = 0;
    while i < sample.len()
        invariant
            i <= sample@.len(),
            sample@.len() == sample.len(),
            n <= i,
            n == modified_in(sample@.take(i as int)),
        decreases sample@.len() - i,
    {
        proof {
            assert(sample@.take(i + 1).drop_last() =~= sample@.take(i as int));
        }
        match sample[i].on_disk {
            Some(t) => {
                if t != sample[i].stored {
                    n = n + 1;
                }
            },
            None => {},
        }
        i = i + 1;
    }
    proof {
        assert(sample@.take(i as int) =~= sample@);
    }
    n
}

/// What is said of the files: how many there are, how many are missing and how many of the sample
/// have changed, or that all is well.
pub open spec fn file_notes(total: nat, missing: nat, modified: nat, sampled: nat) -> Seq<
    Seq<char>,
> {
    let a = seq![decimal(total) + " indexed files"@];
    let b = if missing > 0 {
        a.push(decimal(missing) + " missing from disk"@)
    } else {
        a
    };
    let c = if modified > 0 {
        b.push(
            decimal(modified) + "/"@ + decimal(sampled) + " sampled files have changed mtime"@,
        )
    } else {
        b
    };
    if missing == 0 && modified == 0 {
        c.push("all present, mtime sample OK"@)
    } else {
        c
    }
}

/// What the check of the files says: it fails where the database cannot be read, where a file is
/// missing and where one of the sample has changed.
pub open spec fn files_check(store: Result<StoreFacts, Seq<char>>) -> (bool, Seq<char>) {
    match store {
        Err(e) => (false, "Cannot open chunks.db: "@ + e),
        Ok(f) => match f.present {
            Err(e) => (false, "Cannot read file paths from DB: "@ + e@),
            Ok(present) => {
                let missing = missing_in(present@);
                let modified = modified_in(f.sample@);
                (
                    missing == 0 && modified == 0,
                    joined(
                        file_notes(present@.len(), missing, modified, f.sample@.len()),
                        ", "@,
                    ),
                )
            },
        },
    }
}

fn note(parts: &mut Vec<String>, line: String)
    ensures
        views(final(parts)@) == views(old(parts)@).push(line@),
{
    let ghost shown = views(parts@);
    let ghost lv = line@;
    parts.push(line);
    proof {
        assert(views(parts@) =~= shown.push(lv));
    }
}

/// Looks for files that were deleted or modified since they were indexed.
pub fn check_stale_files(store: &Result<StoreFacts, String>) -> (r: CheckResult)
    ensures
        r@.name == "stale_files"@,
        (r@.passed, r@.message) == files_check(or_error(*store)),
{
    let name: &str = "stale_files";
    let f: &StoreFacts = match store {
        Ok(f) => f,
        Err(e) => {
            return failed_check(name, "Cannot open chunks.db: ".to_owned().concat(e));
        },
    };
    let present: &Vec<bool> = match &f.present {
        Ok(p) => p,
        Err(e) => {
            return failed_check(name, "Cannot read file paths from DB: ".to_owned().concat(e));
        },
    };
    let missing: usize = count_missing(present);
    let modified: usize = count_modified(&f.sample);
    let mut parts: Vec<String> = Vec::new();
    note(&mut parts, decimal_text(present.len() as u64).concat(" indexed files"));
    proof {
        assert(views(parts@) =~= seq![decimal(present@.len()) + " indexed files"@]);
    }
    if missing > 0 {
        note(&mut parts, decimal_text(missing as u64).concat(" missing from disk"));
    }
    if modified > 0 {
        note(
            &mut parts,
            decimal_text(modified as u64).concat("/").concat(
                &decimal_text(f.sample.len() as u64),
            ).concat(" sampled files have changed mtime"),
        );
    }
    let passed: bool = missing == 0 && modified == 0;
    if passed {
        note(&mut parts, "all present, mtime sample OK".to_owned());
    }
    CheckResult { name: name.to_owned(), passed, message: join(&parts, ", ") }
}

/// What the check of the dense index says, given whether its directory and its mapping are there,
/// and the size of the mapping, if it can be read.
pub open spec fn dense_check(plaid: bool, mapping: bool, mapping_len: Option<u64>) -> (
    bool,
    Seq<char>,
) {
    if !plaid && !mapping {
        (false, "Dense index missing: no plaid/ directory or plaid_mapping.bin"@)
    } else {
        let empty = mapping && mapping_len == Some(0u64);
        let a = if plaid {
            Seq::<Seq<char>>::empty()
        } else {
            seq!["plaid/ directory missing"@]
        };
        let b = if mapping {
            a
        } else {
            a.push("plaid_mapping.bin missing"@)
        };
        let c = if empty {
            b.push("plaid_mapping.bin is empty (0 bytes)"@)
        } else {
            b
        };
        if c.len() == 0 {
            (
                true,
                "OK: plaid/ directory present, mapping="@ + decimal(
                    match mapping_len {
                        Some(n) => n as nat,
                        None => 0,
                    },
                ) + " bytes"@,
            )
        } else {
            (false, joined(c, "; "@))
        }
    }
}

/// Looks at the directory and the mapping of the dense index.
pub fn check_dense_index(plaid: bool, mapping: bool, mapping_len: Option<u64>) -> (r: CheckResult)
    ensures
        r@.name == "dense_index"@,
        (r@.passed, r@.message) == dense_check(plaid, mapping, mapping_len),
{
    let name: &str = "dense_index";
    if !plaid && !mapping {
        return failed_check(
            name,
            "Dense index missing: no plaid/ directory or plaid_mapping.bin".to_owned(),
        );
    }
    let mut issues: Vec<String> = Vec::new();
    proof {
        assert(views(issues@) =~= Seq::<Seq<char>>::empty());
    }
    if !plaid {
        note(&mut issues, "plaid/ directory missing".to_owned());
        proof {
            assert(views(issues@) =~= seq!["plaid/ directory missing"@]);
        }
    }
    if !mapping {
        note(&mut issues, "plaid_mapping.bin missing".to_owned());
    }
    let size: u64 = match mapping_len {
        Some(n) => n,
        None => 0,
    };
    if mapping && mapping_len.is_some() && size == 0 {
        note(&mut issues, "plaid_mapping.bin is empty (0 bytes)".to_owned());
    }
    proof {
        assert(views(issues@).len() == issues@.len());
    }
    if issues.len() == 0 {
        CheckResult {
            name: name.to_owned(),
            passed: true,
            message: "OK: plaid/ directory present, mapping=".to_owned().concat(
                &decimal_text(size),
            ).concat(" bytes"),
        }
    } else {
        failed_check(name, join(&issues, "; "))
    }
}

/// What the check of the sparse index says: it fails where the database is not there, cannot be
/// opened or holds no chunk.
pub open spec fn sparse_check(exists: bool, store: Result<StoreFacts, Seq<char>>) -> (
    bool,
    Seq<char>,
) {
    if !exists {
        (false, "chunks.db not found"@)
    } else {
        match store {
            Err(e) => (false, "chunks.db is corrupted or unreadable: "@ + e),
            Ok(f) => if f.counts.chunks == 0 {
                (false, "chunks.db is readable but contains 0 chunks"@)
            } else {
                (true, "OK: chunks.db readable, "@ + decimal(f.counts.chunks as nat) + " chunks"@)
            },
        }
    }
}

/// Looks whether the database is there and holds chunks.
pub fn check_sparse_index(exists: bool, store: &Result<StoreFacts, String>) -> (r: CheckResult)
    ensures
        r@.name == "sparse_index"@,
        (r@.passed, r@.message) == sparse_check(exists, or_error(*store)),
{
    let name: &str = "sparse_index";
    if !exists {
        return failed_check(name, "chunks.db not found".to_owned());
    }
    match store {
        Ok(f) => if f.counts.chunks == 0 {
            failed_check(name, "chunks.db is readable but contains 0 chunks".to_owned())
        } else {
            CheckResult {
                name: name.to_owned(),
                passed: true,
                message: "OK: chunks.db readable, ".to_owned().concat(
                    &decimal_text(f.counts.chunks),
                ).concat(" chunks"),
            }
        },
        Err(e) => failed_check(
            name,
            "chunks.db is corrupted or unreadable: ".to_owned().concat(e),
        ),
    }
}

/// What the check of the code graph says: it fails where the database cannot be read, and where
/// there are chunks but no definitions of symbols.
pub open spec fn graph_check(store: Result<StoreFacts, Seq<char>>) -> (bool, Seq<char>) {
    match store {
        Err(e) => (false, "Cannot open chunks.db: "@ + e),
        Ok(f) => match f.graph {
            Err(e) => (false, "Cannot read graph stats: "@ + e@),
            Ok(g) => {
                let good = f.counts.chunks == 0 || g.symbol_defs_count > 0;
                (
                    good,
                    "symbol_defs="@ + decimal(g.symbol_defs_count as nat) + ", calls_resolved="@
                        + decimal(g.calls_resolved as nat) + ", types_resolved="@ + decimal(
                        g.types_resolved as nat,
                    ) + ", hierarchy="@ + decimal(g.hierarchy_resolved as nat) + ", modules="@
                        + decimal(g.module_edges_count as nat) + if good {
                        ""@
                    } else {
                        " (WARNING: no symbol defs despite having chunks)"@
                    },
                )
            },
        },
    }
}

/// Looks whether the code graph has what the chunks let expect.
pub fn check_graph_consistency(store: &Result<StoreFacts, String>) -> (r: CheckResult)
    ensures
        r@.name == "graph_consistency"@,
        (r@.passed, r@.message) == graph_check(or_error(*store)),
{
    let name: &str = "graph_consistency";
    let f: &StoreFacts = match store {
        Ok(f) => f,
        Err(e) => {
            return failed_check(name, "Cannot open chunks.db: ".to_owned().concat(e));
        },
    };
    let g: &GraphStats = match &f.graph {
        Ok(g) => g,
        Err(e) => {
            return failed_check(name, "Cannot read graph stats: ".to_owned().concat(e));
        },
    };
    let passed: bool = f.counts.chunks == 0 || g.symbol_defs_count > 0;
    let warning: &str = if passed {
        ""
    } else {
        " (WARNING: no symbol defs despite having chunks)"
    };
    CheckResult {
        name: name.to_owned(),
        passed,
        message: "symbol_defs=".to_owned().concat(
            &decimal_text(g.symbol_defs_count as u64),
        ).concat(", calls_resolved=").concat(&decimal_text(g.calls_resolved as u64)).concat(
            ", types_resolved=",
        ).concat(&decimal_text(g.types_resolved as u64)).concat(", hierarchy=").concat(
            &decimal_text(g.hierarchy_resolved as u64),
        ).concat(", modules=").concat(&decimal_text(g.module_edges_count as u64)).concat(warning),
    }
}

/// What is known of an index when it is validated.
#[derive(Debug)]
pub struct IndexFacts {
    pub meta: Result<IndexMeta, String>,
    /// The present schema version.
    pub expected: u32,
    pub store: Result<StoreFacts, String>,
    pub db_exists: bool,
    pub plaid_exists: bool,
    pub mapping_exists: bool,
    pub mapping_len: Option<u64>,
}

/// The names and outcomes of the five checks.
pub open spec fn all_checks(f: IndexFacts) -> Seq<CheckView> {
    let m = meta_check(or_error(f.meta), f.expected, or_error(f.store));
    let s = files_check(or_error(f.store));
    let d = dense_check(f.plaid_exists, f.mapping_exists, f.mapping_len);
    let p = sparse_check(f.db_exists, or_error(f.store));
    let g = graph_check(or_error(f.store));
    seq![
        CheckView { name: "meta_db_consistency"@, passed: m.0, message: m.1 },
        CheckView { name: "stale_files"@, passed: s.0, message: s.1 },
        CheckView { name: "dense_index"@, passed: d.0, message: d.1 },
        CheckView { name: "sparse_index"@, passed: p.0, message: p.1 },
        CheckView { name: "graph_consistency"@, passed: g.0, message: g.1 },
    ]
}

/// Runs the five checks.
pub fn validate(facts: &IndexFacts) -> (r: ValidationReport)
    ensures
        views(r.checks@) == all_checks(*facts),
        r.wf(),
        r.warnings == 0,
{
    let mut checks: Vec<CheckResult> = Vec::new();
    checks.push(check_meta_db_consistency(&facts.meta, facts.expected, &facts.store));
    checks.push(check_stale_files(&facts.store));
    checks.push(
        check_dense_index(facts.plaid_exists, facts.mapping_exists, facts.mapping_len),
    );
    checks.push(check_sparse_index(facts.db_exists, &facts.store));
    checks.push(check_graph_consistency(&facts.store));
    proof {
        assert(views(checks@) =~= all_checks(*facts));
    }
    report_on(checks)
}

/// Where the database cannot be opened, no check that needs it passes.
pub proof fn lemma_no_database(f: IndexFacts)
    requires
        f.store is Err,
    ensures
        forall|i: int|
            0 <= i < 5 && i != 2 ==> !(#[trigger] all_checks(f)[i]).passed,
{
}

/// The checks that passed are counted one by one.
pub proof fn lemma_passed_counts(checks: Seq<CheckView>)
    ensures
        passed_in(checks) == checks.filter(|c: CheckView| c.passed).len(),
    decreases checks.len(),
{
    reveal(Seq::filter);
    if checks.len() > 0 {
        lemma_passed_counts(checks.drop_last());
    }
}

/// A file is missing if it is not on disk, and modified if it is there with another time than the
/// one that is stored; each is counted once.
pub proof fn lemma_stale_counts(present: Seq<bool>, sample: Seq<MtimeSample>)
    ensures
        missing_in(present) == present.filter(|b: bool| !b).len(),
        missing_in(present) == 0 <==> forall|i: int|
            0 <= i < present.len() ==> #[trigger] present[i],
        modified_in(sample) == sample.filter(
            |m: MtimeSample| m.on_disk is Some && m.on_disk != Some(m.stored),
        ).len(),
        modified_in(sample) == 0 <==> forall|i: int|
            0 <= i < sample.len() ==> (#[trigger] sample[i]).on_disk is None || sample[i].on_disk
                == Some(sample[i].stored),
    decreases present.len() + sample.len(),
{
    reveal(Seq::filter);
    if present.len() > 0 {
        let front = present.drop_last();
        let n = present.len() - 1;
        lemma_stale_counts(front, sample);
        assert(present[n] == present.last());
        assert forall|i: int| 0 <= i < n implies front[i] == #[trigger] present[i] by {}
        if forall|i: int| 0 <= i < present.len() ==> #[trigger] present[i] {
            assert forall|i: int| 0 <= i < front.len() implies #[trigger] front[i] by {
                assert(present[i]);
            }
        }
    } else if sample.len() > 0 {
        let front = sample.drop_last();
        let n = sample.len() - 1;
        lemma_stale_counts(present, front);
        assert(sample[n] == sample.last());
        assert forall|i: int| 0 <= i < n implies front[i] == #[trigger] sample[i] by {}
        if forall|i: int|
            0 <= i < sample.len() ==> (#[trigger] sample[i]).on_disk is None || sample[i].on_disk
                == Some(sample[i].stored) {
            assert forall|i: int| 0 <= i < front.len() implies (#[trigger] front[i]).on_disk is None
                || front[i].on_disk == Some(front[i].stored) by {
                assert(sample[i].on_disk is None || sample[i].on_disk == Some(sample[i].stored));
            }
        }
    }
}

/// The number of chunks may be off by a twentieth, and always by one.
pub proof fn lemma_tolerance(chunks: u64)
    ensures
        tolerance(chunks) >= 1,
        chunks >= 20 ==> 20 * tolerance(chunks) <= chunks < 20 * (tolerance(chunks) + 1),
        chunks < 20 ==> tolerance(chunks) == 1,
{
}

/// The metadata is consistent exactly if it can be read with the expected version, the database can
/// be opened, the numbers of files are the same, and those of chunks differ by no more than is
/// tolerated.
pub proof fn lemma_meta_check_passes(
    meta: Result<IndexMeta, Seq<char>>,
    expected: u32,
    store: Result<StoreFacts, Seq<char>>,
)
    ensures
        meta_check(meta, expected, store).0 <==> {
            &&& meta is Ok
            &&& meta->Ok_0.schema_version == expected
            &&& store is Ok
            &&& store->Ok_0.counts.files == meta->Ok_0.file_count
            &&& store->Ok_0.counts.chunks <= meta->Ok_0.chunk_count + tolerance(
                meta->Ok_0.chunk_count,
            )
            &&& meta->Ok_0.chunk_count <= store->Ok_0.counts.chunks + tolerance(
                meta->Ok_0.chunk_count,
            )
        },
{
}

/// No file is stale exactly if the database can be opened and its files read, every file is on
/// disk, and no sampled one has another time.
pub proof fn lemma_files_check_passes(store: Result<StoreFacts, Seq<char>>)
    ensures
        files_check(store).0 <==> {
            &&& store is Ok
            &&& store->Ok_0.present is Ok
            &&& forall|i: int|
                0 <= i < store->Ok_0.present->Ok_0@.len() ==> #[trigger] store->Ok_0.present->Ok_0@[i]
            &&& forall|i: int|
                0 <= i < store->Ok_0.sample@.len() ==> (
                #[trigger] store->Ok_0.sample@[i]).on_disk is None
                    || store->Ok_0.sample@[i].on_disk == Some(store->Ok_0.sample@[i].stored)
        },
{
    if store is Ok && store->Ok_0.present is Ok {
        lemma_stale_counts(store->Ok_0.present->Ok_0@, store->Ok_0.sample@);
    }
}

/// The other checks: the dense index passes exactly if its directory and its mapping are there and
/// the mapping is not known to be empty; the sparse one if the database is there, can be opened and
/// holds a chunk; and the graph if it can be read and has a symbol, unless there is no chunk.
pub proof fn lemma_store_checks_pass(
    plaid: bool,
    mapping: bool,
    mapping_len: Option<u64>,
    exists: bool,
    store: Result<StoreFacts, Seq<char>>,
)
    ensures
        dense_check(plaid, mapping, mapping_len).0 <==> plaid && mapping && mapping_len != Some(
            0u64,
        ),
        sparse_check(exists, store).0 <==> exists && store is Ok && store->Ok_0.counts.chunks > 0,
        graph_check(store).0 <==> store is Ok && store->Ok_0.graph is Ok && (
        store->Ok_0.counts.chunks == 0 || store->Ok_0.graph->Ok_0.symbol_defs_count > 0),
{
}

/// There are five checks, each under its own name and with its own outcome.
pub proof fn lemma_checks_named(f: IndexFacts)
    ensures
        all_checks(f).len() == 5,
        all_checks(f)[0].name == "meta_db_consistency"@,
        all_checks(f)[0].passed == meta_check(or_error(f.meta), f.expected, or_error(f.store)).0,
        all_checks(f)[1].name == "stale_files"@,
        all_checks(f)[1].passed == files_check(or_error(f.store)).0,
        all_checks(f)[2].name == "dense_index"@,
        all_checks(f)[2].passed == dense_check(f.plaid_exists, f.mapping_exists, f.mapping_len).0,
        all_checks(f)[3].name == "sparse_index"@,
        all_checks(f)[3].passed == sparse_check(f.db_exists, or_error(f.store)).0,
        all_checks(f)[4].name == "graph_consistency"@,
        all_checks(f)[4].passed == graph_check(or_error(f.store)).0,
{
}

} // verus!
