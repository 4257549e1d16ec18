//! What the database of an index holds, and the queries that are put to it.

use crate::text::{
    chars_of, first_ones, holds_text, lemma_marks_add, lemma_no_mark, lemma_one_mark_last,
    opt_text, question_marks, same_text, text_of, unique_texts, views,
};
use vstd::prelude::*;

verus! {

/// How much of the code graph is resolved.
#[derive(Debug, Clone, Copy)]
pub struct GraphStats {
    pub calls_resolved: usize,
    pub types_resolved: usize,
    pub hierarchy_resolved: usize,
    pub module_edges_count: usize,
    pub symbol_defs_count: usize,
}

/// The most values that are bound to one statement at a time.
pub const BATCH: usize = 500;

/// `n` placeholders with commas between them.
pub open spec fn marks(n: nat) -> Seq<char>
    decreases n,
{
    if n == 0 {
        Seq::empty()
    } else if n == 1 {
        "?"@
    } else {
        marks((n - 1) as nat) + ",?"@
    }
}

/// `n` placeholders with commas between them.
pub fn placeholders(n: usize) -> (r: String)
    ensures
        r@ == marks(n as nat),
{
    if n == 0 {
        return String::new();
    }
    let mut r: String = "?".to_owned();
    let mut i: usize = 1;
    while i < n
        invariant
            1 <= i <= n,
            r@ == marks(i as nat),
        decreases n - i,
    {
        r.append(",?");
        i = i + 1;
    }
    r
}

/// There are as many placeholders as values.
pub proof fn lemma_marks(n: nat)
    ensures
        marks(n).filter(|c: char| c == '?').len() == n,
    decreases n,
{
    reveal_strlit("?");
    reveal_strlit(",?");
    let q = |c: char| c == '?';
    reveal(Seq::filter);
    if n == 1 {
        assert(marks(n).drop_last() =~= Seq::<char>::empty());
        assert(marks(n).drop_last().filter(q).len() == 0);
    } else if n > 1 {
        let m = marks((n - 1) as nat);
        lemma_marks((n - 1) as nat);
        assert(marks(n).drop_last() =~= m.push(','));
        assert(m.push(',').drop_last() =~= m);
        assert(marks(n).last() == '?');
        assert(marks(n).filter(q) == marks(n).drop_last().filter(q).push('?'));
    }
}

/// The edges that are looked up for a list of chunks.
#[derive(Debug, Clone, Copy, PartialEq, Eq, Structural)]
pub enum EdgeQuery {
    /// From callers to what they call.
    CallsFrom,
    /// From what is called to its callers.
    CallsTo,
    /// From definitions of types to their uses.
    TypeUsesOf,
    /// From uses of types to their definitions.
    TypeDefsOf,
    /// From types to those that they extend and to those that extend them.
    Hierarchy,
}

/// The statement that looks edges up for chunks, with `marks` in the place of their ids.
pub open spec fn edge_sql(q: EdgeQuery, marks: Seq<char>) -> Seq<char> {
    match q {
        EdgeQuery::CallsFrom =>
            "SELECT caller_chunk_id, callee_chunk_id FROM call_graph WHERE caller_chunk_id IN ("@
                + marks + ") AND callee_chunk_id IS NOT NULL"@,
        EdgeQuery::CallsTo =>
            "SELECT callee_chunk_id, caller_chunk_id FROM call_graph WHERE callee_chunk_id IN ("@
                + marks + ")"@,
        EdgeQuery::TypeUsesOf =>
            "SELECT defining_chunk, chunk_id FROM type_refs WHERE defining_chunk IN ("@ + marks
                + ")"@,
        EdgeQuery::TypeDefsOf =>
            "SELECT chunk_id, defining_chunk FROM type_refs WHERE chunk_id IN ("@ + marks
                + ") AND defining_chunk IS NOT NULL"@,
        EdgeQuery::Hierarchy =>
            "SELECT child_chunk, parent_chunk FROM type_hierarchy WHERE child_chunk IN ("@ + marks
                + ") AND parent_chunk IS NOT NULL UNION ALL SELECT parent_chunk, child_chunk FROM type_hierarchy WHERE parent_chunk IN ("@
                + marks + ") AND child_chunk IS NOT NULL"@,
    }
}

/// The statement that looks edges up for `n` chunks and how often the list of their ids is bound to
/// it; `None` where there is no chunk, so that nothing is looked up.
pub fn edge_statement(q: EdgeQuery, n: usize) -> (r: Option<(String, usize)>)
    ensures
        (match r {
            None => n == 0,
            Some((sql, times)) => n > 0 && sql@ == edge_sql(q, marks(n as nat)) && times
                == times_bound(q),
        }),
{
    if n == 0 {
        return None;
    }
    let m: String = placeholders(n);
    let sql: String = match q {
        EdgeQuery::CallsFrom =>
            "SELECT caller_chunk_id, callee_chunk_id FROM call_graph WHERE caller_chunk_id IN (".to_owned().concat(
        &m).concat(") AND callee_chunk_id IS NOT NULL"),
        EdgeQuery::CallsTo =>
            "SELECT callee_chunk_id, caller_chunk_id FROM call_graph WHERE callee_chunk_id IN (".to_owned().concat(
        &m).concat(")"),
        EdgeQuery::TypeUsesOf =>
            "SELECT defining_chunk, chunk_id FROM type_refs WHERE defining_chunk IN (".to_owned().concat(
        &m).concat(")"),
        EdgeQuery::TypeDefsOf =>
            "SELECT chunk_id, defining_chunk FROM type_refs WHERE chunk_id IN (".to_owned().concat(
        &m).concat(") AND defining_chunk IS NOT NULL"),
        EdgeQuery::Hierarchy =>
            "SELECT child_chunk, parent_chunk FROM type_hierarchy WHERE child_chunk IN (".to_owned().concat(
        &m).concat(
            ") AND parent_chunk IS NOT NULL UNION ALL SELECT parent_chunk, child_chunk FROM type_hierarchy WHERE parent_chunk IN (",
        ).concat(&m).concat(") AND child_chunk IS NOT NULL"),
    };
    let times: usize = match q {
        EdgeQuery::Hierarchy => 2,
        _ => 1,
    };
    Some((sql, times))
}

/// The statement that reads `n` chunks by their ids; `None` where there is none to read.
pub fn chunks_statement(n: usize) -> (r: Option<String>)
    ensures
        opt_text(r) == (if n == 0 {
            None
        } else {
            Some(chunks_sql(marks(n as nat)))
        }),
{
    if n == 0 {
        return None;
    }
    Some(
        "SELECT id, file_path, start_line, end_line, content, chunk_type FROM chunks WHERE id IN (".to_owned().concat(
        &placeholders(n)).concat(")"),
    )
}

/// The statement that reads the roles of `n` files by their paths.
pub fn roles_statement(n: usize) -> (r: String)
    ensures
        r@ == roles_sql(marks(n as nat)),
{
    "SELECT path, role FROM file_metadata WHERE path IN (".to_owned().concat(
        &placeholders(n),
    ).concat(")")
}

/// The statement that reads what `n` files import and what imports them; their paths are bound to
/// it twice.
pub fn neighbors_statement(n: usize) -> (r: String)
    ensures
        r@ == neighbors_sql(marks(n as nat)),
{
    let m: String = placeholders(n);
    "SELECT DISTINCT imported_path FROM module_edges WHERE importer_path IN (".to_owned().concat(
        &m,
    ).concat(
        ") UNION SELECT DISTINCT importer_path FROM module_edges WHERE imported_path IN (",
    ).concat(&m).concat(")")
}

/// `len` things cut into batches of at most `size`: where each begins and ends.
pub open spec fn batches_of(len: nat, size: nat) -> Seq<(int, int)>
    decreases len,
{
    if len == 0 || size == 0 {
        Seq::empty()
    } else {
        let from = (len - 1) / size as int * size;
        if 0 <= from < len {
            batches_of(from as nat, size).push((from, len as int))
        } else {
            Seq::empty()
        }
    }
}

/// `len` things cut into batches: where each begins and ends.
pub fn batches(len: usize) -> (r: Vec<(usize, usize)>)
    ensures
        r@.len() == batches_of(len as nat, BATCH as nat).len(),
        forall|i: int|
            0 <= i < r@.len() ==> ((#[trigger] r@[i]).0 as int, r@[i].1 as int) == batches_of(
                len as nat,
                BATCH as nat,
            )[i],
{
    let mut r: Vec<(usize, usize)> = Vec::new();
    let mut at: usize = 0;
    while at < len
        invariant
            at <= len,
            at < len ==> at % BATCH == 0,
            r@.len() == batches_of(at as nat, BATCH as nat).len(),
            forall|i: int|
                0 <= i < r@.len() ==> ((#[trigger] r@[i]).0 as int, r@[i].1 as int) == batches_of(
                    at as nat,
                    BATCH as nat,
                )[i],
        decreases len - at,
    {
        let end: usize = if len - at <= BATCH {
            len
        } else {
            at + BATCH
        };
        proof {
            let n: int = end - 1;
            assert(n / 500 * 500 == at);
            assert(batches_of(end as nat, 500) == batches_of(at as nat, 500).push(
                (at as int, end as int),
            ));
        }
        r.push((at, end));
        at = end;
    }
    r
}

/// The batches follow each other without a gap, from the first thing to the last; none is empty or
/// too large.
pub proof fn lemma_batches(len: nat, size: nat)
    requires
        size > 0,
    ensures
        ({
            let b = batches_of(len, size);
            &&& b.len() == 0 <==> len == 0
            &&& b.len() > 0 ==> b[0].0 == 0 && b.last().1 == len
            &&& forall|i: int|
                0 <= i < b.len() ==> 0 <= (#[trigger] b[i]).0 < b[i].1 && b[i].1 - b[i].0 <= size
            &&& forall|i: int, j: int|
                0 <= i && j == i + 1 && j < b.len() ==> (#[trigger] b[i]).1 == (#[trigger] b[j]).0
        }),
    decreases len,
{
    if len > 0 {
        let s = size as int;
        let n: int = len - 1;
        let from = n / s * s;
        vstd::arithmetic::div_mod::lemma_fundamental_div_mod(n, s);
        vstd::arithmetic::div_mod::lemma_mod_bound(n, s);
        vstd::arithmetic::mul::lemma_mul_is_commutative(n / s, s);
        vstd::arithmetic::div_mod::lemma_div_pos_is_pos(n, s);
        vstd::arithmetic::mul::lemma_mul_nonnegative(n / s, s);
        lemma_batches(from as nat, size);
        let b = batches_of(len, size);
        let f = batches_of(from as nat, size);
        assert(b == f.push((from, len as int)));
        assert forall|i: int| 0 <= i < b.len() implies 0 <= (#[trigger] b[i]).0 < b[i].1 && b[i].1
            - b[i].0 <= size by {
            if i < f.len() {
                assert(b[i] == f[i]);
            }
        }
        assert forall|i: int, j: int| 0 <= i && j == i + 1 && j < b.len() implies (
        #[trigger] b[i]).1 == (#[trigger] b[j]).0 by {
            if j < f.len() {
                assert(b[i] == f[i] && b[j] == f[j]);
            } else {
                assert(b[i] == f.last());
            }
        }
    }
}

/// A character that stands for itself in a pattern only behind a backslash.
pub open spec fn is_special(c: char) -> bool {
    c == '\\' || c == '%' || c == '_'
}

/// A character as it is written in a pattern to stand for itself.
pub open spec fn escaped_char(c: char) -> Seq<char> {
    if is_special(c) {
        seq!['\\', c]
    } else {
        seq![c]
    }
}

/// A text as it is written in a pattern to stand for itself.
pub open spec fn escaped(q: Seq<char>) -> Seq<char>
    decreases q.len(),
{
    if q.len() == 0 {
        Seq::empty()
    } else {
        escaped_char(q[0]) + escaped(q.skip(1))
    }
}

/// The pattern that finds every text that contains `query`; `None` where the query is empty, which
/// finds nothing.
pub fn exact_pattern(query: &str) -> (r: Option<String>)
    ensures
        opt_text(r) == (if query@.len() == 0 {
            None
        } else {
            Some("%"@ + escaped(query@) + "%"@)
        }),
{
    let v: Vec<char> = chars_of(query);
    if v.len() == 0 {
        return None;
    }
    let mut out: Vec<char> = Vec::new();
    let mut i: usize = 0;
    proof {
        assert(v@.skip(0) =~= v@);
        assert(out@ + escaped(v@.skip(0)) =~= escaped(v@));
    }
    while i < v.len()
        invariant
            i <= v@.len(),
            out@ + escaped(v@.skip(i as int)) == escaped(v@),
        decreases v@.len() - i,
    {
        let c: char = v[i];
        let ghost before = out@;
        proof {
            assert(v@.skip(i as int)[0] == c);
            assert(v@.skip(i as int).skip(1) =~= v@.skip(i + 1));
        }
        if c == '\\' || c == '%' || c == '_' {
            out.push('\\');
        }
        out.push(c);
        proof {
            assert(out@ =~= before + escaped_char(c));
            assert(out@ + escaped(v@.skip(i + 1)) =~= before + (escaped_char(c) + escaped(
                v@.skip(i + 1),
            )));
        }
        i = i + 1;
    }
    proof {
        assert(escaped(v@.skip(i as int)) =~= Seq::<char>::empty());
        assert(out@ =~= escaped(v@));
    }
    Some("%".to_owned().concat(&text_of(&out)).concat("%"))
}

/// The only text that a pattern without wildcards finds; `None` where it has a wildcard or ends with
/// a backslash that nothing follows.
pub open spec fn literal_of(pattern: Seq<char>) -> Option<Seq<char>>
    decreases pattern.len(),
{
    if pattern.len() == 0 {
        Some(Seq::empty())
    } else if pattern[0] == '%' || pattern[0] == '_' {
        None
    } else if pattern[0] == '\\' {
        if pattern.len() == 1 {
            None
        } else {
            match literal_of(pattern.skip(2)) {
                Some(rest) => Some(seq![pattern[1]] + rest),
                None => None,
            }
        }
    } else {
        match literal_of(pattern.skip(1)) {
            Some(rest) => Some(seq![pattern[0]] + rest),
            None => None,
        }
    }
}

/// Whatever the query holds, what stands between the two wildcards of its pattern finds the query
/// and nothing else.
pub proof fn lemma_escaped_literal(q: Seq<char>)
    ensures
        literal_of(escaped(q)) == Some(q),
    decreases q.len(),
{
    if q.len() > 0 {
        let rest = escaped(q.skip(1));
        let p = escaped(q);
        lemma_escaped_literal(q.skip(1));
        assert(seq![q[0]] + q.skip(1) =~= q);
        if is_special(q[0]) {
            assert(p[0] == '\\' && p[1] == q[0]);
            assert(p.skip(2) =~= rest);
        } else {
            assert(p[0] == q[0]);
            assert(p.skip(1) =~= rest);
        }
    } else {
        assert(q =~= Seq::<char>::empty());
    }
}

/// A file and the name of its role, where the database has one.
#[derive(Debug, Clone)]
pub struct FileRoleRow {
    pub path: String,
    pub role: Option<String>,
}

/// What a [`FileRoleRow`] holds.
pub struct FileRoleView {
    pub path: Seq<char>,
    pub role: Option<Seq<char>>,
}

impl View for FileRoleRow {
    type V = FileRoleView;

    open spec fn view(&self) -> FileRoleView {
        FileRoleView { path: self.path@, role: opt_text(self.role) }
    }
}

/// The role in the last row for a path; `None` where there is no row.
pub open spec fn role_in(rows: Seq<FileRoleView>, path: Seq<char>) -> Option<Seq<char>>
    decreases rows.len(),
{
    if rows.len() == 0 {
        None
    } else if rows.last().path == path {
        rows.last().role
    } else {
        role_in(rows.drop_last(), path)
    }
}

/// The roles of the files, each file once: by the rows that were read, and unknown where there is
/// none.
pub open spec fn roles_of(paths: Seq<Seq<char>>, rows: Seq<FileRoleView>) -> Seq<FileRoleView> {
    let u = first_ones(paths);
    Seq::new(u.len(), |i: int| FileRoleView { path: u[i], role: role_in(rows, u[i]) })
}

fn find_role(rows: &Vec<FileRoleRow>, path: &str) -> (r: Option<String>)
    ensures
        opt_text(r) == role_in(views(rows@), path@),
{
    let ghost all = views(rows@);
    let mut i: usize = rows.len();
    proof {
        assert(all.take(i as int) =~= all);
    }
    while i > 0
        invariant
            i <= rows@.len(),
            all == views(rows@),
            role_in(all, path@) == role_in(all.take(i as int), path@),
        decreases i,
    {
        i = i - 1;
        proof {
            assert(all.take(i + 1).drop_last() =~= all.take(i as int));
            assert(all.take(i + 1).last() == rows@[i as int]@);
        }
        if same_text(&rows[i].path, path) {
            return match &rows[i].role {
                Some(t) => Some(t.clone()),
                None => None,
            };
        }
    }
    None
}

/// The roles of the files, by the rows that were read.
pub fn get_file_roles(paths: &Vec<String>, rows: &Vec<FileRoleRow>) -> (r: Vec<FileRoleRow>)
    ensures
        views(r@) == roles_of(views(paths@), views(rows@)),
{
    let unique: Vec<String> = unique_texts(paths);
    let ghost u = views(unique@);
    let mut r: Vec<FileRoleRow> = Vec::new();
    let mut i: usize = 0;
    while i < unique.len()
        invariant
            i <= unique@.len(),
            u == views(unique@),
            r@.len() == i,
            forall|k: int|
                0 <= k < i ==> (#[trigger] r@[k])@ == (FileRoleView {
                    path: u[k],
                    role: role_in(views(rows@), u[k]),
                }),
        decreases unique@.len() - i,
    {
        let role: Option<String> = find_role(rows, &unique[i]);
        r.push(FileRoleRow { path: unique[i].clone(), role });
        i = i + 1;
    }
    proof {
        assert(views(r@) =~= roles_of(views(paths@), views(rows@)));
    }
    r
}

/// The paths that are not among `inputs`, in their order.
pub open spec fn paths_outside(found: Seq<Seq<char>>, inputs: Seq<Seq<char>>) -> Seq<Seq<char>>
    decreases found.len(),
{
    if found.len() == 0 {
        Seq::empty()
    } else if inputs.contains(found.last()) {
        paths_outside(found.drop_last(), inputs)
    } else {
        paths_outside(found.drop_last(), inputs).push(found.last())
    }
}

/// The files that import the given ones or are imported by them, without the given ones themselves,
/// from what the statements for all batches have found.
pub fn get_import_neighbors(found: &Vec<String>, file_paths: &Vec<String>) -> (r: Vec<String>)
    ensures
        views(r@) == paths_outside(views(found@), views(file_paths@)),
{
    let ghost all = views(found@);
    let ghost inputs = views(file_paths@);
    let mut r: Vec<String> = Vec::new();
    let mut i: usize = 0;
    proof {
        assert(views(r@) =~= paths_outside(all.take(0), inputs));
    }
    while i < found.len()
        invariant
            i <= found@.len(),
            all == views(found@),
            inputs == views(file_paths@),
            views(r@) == paths_outside(all.take(i as int), inputs),
        decreases found@.len() - i,
    {
        let ghost shown = views(r@);
        proof {
            assert(all.take(i + 1).drop_last() =~= all.take(i as int));
            assert(all.take(i + 1).last() == found@[i as int]@);
        }
        if !holds_text(file_paths, &found[i]) {
            r.push(found[i].clone());
            proof {
                assert(views(r@) =~= shown.push(found@[i as int]@));
            }
        }
        i = i + 1;
    }
    proof {
        assert(all.take(i as int) =~= all);
    }
    r
}

/// No file is a neighbor of itself: what comes out is what was found but for the given files.
pub proof fn lemma_paths_outside(found: Seq<Seq<char>>, inputs: Seq<Seq<char>>, x: Seq<char>)
    ensures
        paths_outside(found, inputs).contains(x) <==> found.contains(x) && !inputs.contains(x),
    decreases found.len(),
{
    if found.len() > 0 {
        let front = found.drop_last();
        let o = paths_outside(front, inputs);
        let r = paths_outside(found, inputs);
        lemma_paths_outside(front, inputs, x);
        if r.contains(x) {
            let k = choose|k: int| 0 <= k < r.len() && r[k] == x;
            if k < o.len() {
                assert(o[k] == x);
                let m = choose|m: int| 0 <= m < front.len() && front[m] == x;
                assert(found[m] == x);
            } else {
                assert(found[found.len() - 1] == x);
            }
        }
        if found.contains(x) && !inputs.contains(x) {
            let m = choose|m: int| 0 <= m < found.len() && found[m] == x;
            if m < front.len() {
                assert(front[m] == x);
                let k = choose|k: int| 0 <= k < o.len() && o[k] == x;
                assert(r[k] == x);
            } else {
                assert(r[o.len() as int] == x);
            }
        }
    }
}

/// The role of a file is that of the last row for its path; without a row it has none.
pub proof fn lemma_role_in(rows: Seq<FileRoleView>, path: Seq<char>)
    ensures
        forall|i: int|
            0 <= i < rows.len() && (#[trigger] rows[i]).path == path && (forall|j: int|
                i < j < rows.len() ==> (#[trigger] rows[j]).path != path) ==> role_in(rows, path)
                == rows[i].role,
        (forall|i: int| 0 <= i < rows.len() ==> (#[trigger] rows[i]).path != path) ==> role_in(
            rows,
            path,
        ) is None,
    decreases rows.len(),
{
    if rows.len() > 0 {
        let front = rows.drop_last();
        let n = rows.len() - 1;
        lemma_role_in(front, path);
        assert(rows[n] == rows.last());
        assert forall|i: int|
            0 <= i < rows.len() && (#[trigger] rows[i]).path == path && (forall|j: int|
                i < j < rows.len() ==> (#[trigger] rows[j]).path != path) implies role_in(
            rows,
            path,
        ) == rows[i].role by {
            if i < n {
                assert(rows[n].path != path);
                assert(front[i] == rows[i]);
                assert forall|j: int| i < j < front.len() implies (#[trigger] front[j]).path
                    != path by {
                    assert(front[j] == rows[j]);
                }
            }
        }
        if forall|i: int| 0 <= i < rows.len() ==> (#[trigger] rows[i]).path != path {
            assert(rows[n].path != path);
            assert forall|j: int| 0 <= j < front.len() implies (#[trigger] front[j]).path
                != path by {
                assert(front[j] == rows[j]);
            }
        }
    }
}

/// Every file that is asked for has exactly one answer, and there is no other answer; each names
/// its own file and the role recorded for it.
pub proof fn lemma_roles_answered(paths: Seq<Seq<char>>, rows: Seq<FileRoleView>)
    ensures
        ({
            let r = roles_of(paths, rows);
            &&& forall|p: Seq<char>| #[trigger]
                paths.contains(p) <==> exists|i: int| 0 <= i < r.len() && (#[trigger] r[i]).path == p
            &&& forall|i: int, j: int|
                0 <= i < j < r.len() ==> (#[trigger] r[i]).path != (#[trigger] r[j]).path
            &&& forall|i: int, k: int|
                0 <= i < r.len() && 0 <= k < rows.len() && (#[trigger] rows[k]).path == (
                #[trigger] r[i]).path && (forall|l: int|
                    k < l < rows.len() ==> (#[trigger] rows[l]).path != r[i].path) ==> r[i].role
                    == rows[k].role
            &&& forall|i: int|
                0 <= i < r.len() && (forall|l: int|
                    0 <= l < rows.len() ==> (#[trigger] rows[l]).path != r[i].path) ==> (
                #[trigger] r[i]).role is None
        }),
{
    let u = first_ones(paths);
    let r = roles_of(paths, rows);
    crate::text::lemma_first_ones(paths, Seq::empty());
    assert forall|p: Seq<char>| #[trigger] paths.contains(p) <==> exists|i: int|
        0 <= i < r.len() && (#[trigger] r[i]).path == p by {
        if paths.contains(p) {
            assert(u.contains(p));
            let i = choose|i: int| 0 <= i < u.len() && u[i] == p;
            assert(r[i].path == p);
        }
        if exists|i: int| 0 <= i < r.len() && (#[trigger] r[i]).path == p {
            let i = choose|i: int| 0 <= i < r.len() && (#[trigger] r[i]).path == p;
            assert(u[i] == p);
            assert(u.contains(p));
        }
    }
    assert forall|i: int, j: int| 0 <= i < j < r.len() implies (#[trigger] r[i]).path != (
    #[trigger] r[j]).path by {
        assert(u[i] != u[j]);
    }
    assert forall|i: int, k: int|
        0 <= i < r.len() && 0 <= k < rows.len() && (#[trigger] rows[k]).path == (
        #[trigger] r[i]).path && (forall|l: int|
            k < l < rows.len() ==> (#[trigger] rows[l]).path != r[i].path) implies r[i].role
        == rows[k].role by {
        lemma_role_in(rows, u[i]);
    }
    assert forall|i: int|
        0 <= i < r.len() && (forall|l: int|
            0 <= l < rows.len() ==> (#[trigger] rows[l]).path != r[i].path) implies (
    #[trigger] r[i]).role is None by {
        lemma_role_in(rows, u[i]);
    }
}

/// What is found outside the given files stands in its order, as often as it was found.
pub proof fn lemma_outside_in_order(found: Seq<Seq<char>>, inputs: Seq<Seq<char>>)
    ensures
        paths_outside(found, inputs) == found.filter(|p: Seq<char>| !inputs.contains(p)),
    decreases found.len(),
{
    reveal(Seq::filter);
    if found.len() > 0 {
        lemma_outside_in_order(found.drop_last(), inputs);
    }
}

/// Every query for edges asks for the given chunks.
pub proof fn lemma_edge_queries_ask(q: EdgeQuery, marks: Seq<char>)
    ensures
        crate::text::has_text(edge_sql(q, marks), marks),
{
    match q {
        EdgeQuery::CallsFrom => {
            crate::text::lemma_holding_text(
                "SELECT caller_chunk_id, callee_chunk_id FROM call_graph WHERE caller_chunk_id IN ("@,
                marks,
                ") AND callee_chunk_id IS NOT NULL"@,
            );
        },
        EdgeQuery::CallsTo => {
            crate::text::lemma_holding_text(
                "SELECT callee_chunk_id, caller_chunk_id FROM call_graph WHERE callee_chunk_id IN ("@,
                marks,
                ")"@,
            );
        },
        EdgeQuery::TypeUsesOf => {
            crate::text::lemma_holding_text(
                "SELECT defining_chunk, chunk_id FROM type_refs WHERE defining_chunk IN ("@,
                marks,
                ")"@,
            );
        },
        EdgeQuery::TypeDefsOf => {
            crate::text::lemma_holding_text(
                "SELECT chunk_id, defining_chunk FROM type_refs WHERE chunk_id IN ("@,
                marks,
                ") AND defining_chunk IS NOT NULL"@,
            );
        },
        EdgeQuery::Hierarchy => {
            let head =
                "SELECT child_chunk, parent_chunk FROM type_hierarchy WHERE child_chunk IN ("@;
            let middle =
                ") AND parent_chunk IS NOT NULL UNION ALL SELECT parent_chunk, child_chunk FROM type_hierarchy WHERE parent_chunk IN ("@;
            let tail = middle + marks + ") AND child_chunk IS NOT NULL"@;
            crate::text::lemma_holding_text(head, marks, tail);
            assert(head + marks + tail =~= edge_sql(q, marks));
        },
    }
}

/// How often the values are bound to a query for edges.
pub open spec fn times_bound(q: EdgeQuery) -> usize {
    if q == EdgeQuery::Hierarchy {
        2usize
    } else {
        1usize
    }
}

/// The statement that reads chunks.
pub open spec fn chunks_sql(marks: Seq<char>) -> Seq<char> {
    "SELECT id, file_path, start_line, end_line, content, chunk_type FROM chunks WHERE id IN ("@
        + marks + ")"@
}

/// The statement that reads the roles of files.
pub open spec fn roles_sql(marks: Seq<char>) -> Seq<char> {
    "SELECT path, role FROM file_metadata WHERE path IN ("@ + marks + ")"@
}

/// The statement that reads which files import the given ones or are imported by them.
pub open spec fn neighbors_sql(marks: Seq<char>) -> Seq<char> {
    "SELECT DISTINCT imported_path FROM module_edges WHERE importer_path IN ("@ + marks
        + ") UNION SELECT DISTINCT importer_path FROM module_edges WHERE imported_path IN ("@
        + marks + ")"@
}

proof fn lemma_as_many_marks(n: nat)
    ensures
        question_marks(marks(n)) == n,
    decreases n,
{
    reveal_strlit("?");
    reveal_strlit(",?");
    let one = seq!['?'];
    let more = seq![',', '?'];
    assert("?"@ =~= one);
    assert(",?"@ =~= more);
    lemma_one_mark_last(one);
    lemma_one_mark_last(more);
    if n > 1 {
        lemma_as_many_marks((n - 1) as nat);
        lemma_marks_add(marks((n - 1) as nat), ",?"@);
    }
}

proof fn lemma_no_place_in_from()
    ensures
        question_marks("SELECT caller_chunk_id, callee_chunk_id FROM call_graph WHERE caller_chunk_id IN ("@) == 0,
{
    reveal_strlit("SELECT caller_chunk_id, callee_chunk_id FROM call_graph WHERE caller_chunk_id IN (");
    let s = seq![
        'S', 'E', 'L', 'E', 'C', 'T', ' ', 'c', 'a', 'l', 'l', 'e', 'r', '_', 'c', 'h', 'u', 'n',
        'k', '_', 'i', 'd', ',', ' ', 'c', 'a', 'l', 'l', 'e', 'e', '_', 'c', 'h', 'u', 'n', 'k',
        '_', 'i', 'd', ' ', 'F', 'R', 'O', 'M', ' ', 'c', 'a', 'l', 'l', '_', 'g', 'r', 'a', 'p',
        'h', ' ', 'W', 'H', 'E', 'R', 'E', ' ', 'c', 'a', 'l', 'l', 'e', 'r', '_', 'c', 'h', 'u',
        'n', 'k', '_', 'i', 'd', ' ', 'I', 'N', ' ', '(',
    ];
    assert("SELECT caller_chunk_id, callee_chunk_id FROM call_graph WHERE caller_chunk_id IN ("@ =~= s);
    lemma_no_mark(s);
}

proof fn lemma_no_place_in_callee()
    ensures
        question_marks(") AND callee_chunk_id IS NOT NULL"@) == 0,
{
    reveal_strlit(") AND callee_chunk_id IS NOT NULL");
    let s = seq![
        ')', ' ', 'A', 'N', 'D', ' ', 'c', 'a', 'l', 'l', 'e', 'e', '_', 'c', 'h', 'u', 'n', 'k',
        '_', 'i', 'd', ' ', 'I', 'S', ' ', 'N', 'O', 'T', ' ', 'N', 'U', 'L', 'L',
    ];
    assert(") AND callee_chunk_id IS NOT NULL"@ =~= s);
    lemma_no_mark(s);
}

proof fn lemma_no_place_in_to()
    ensures
        question_marks("SELECT callee_chunk_id, caller_chunk_id FROM call_graph WHERE callee_chunk_id IN ("@) == 0,
{
    reveal_strlit("SELECT callee_chunk_id, caller_chunk_id FROM call_graph WHERE callee_chunk_id IN (");
    let s = seq![
        'S', 'E', 'L', 'E', 'C', 'T', ' ', 'c', 'a', 'l', 'l', 'e', 'e', '_', 'c', 'h', 'u', 'n',
        'k', '_', 'i', 'd', ',', ' ', 'c', 'a', 'l', 'l', 'e', 'r', '_', 'c', 'h', 'u', 'n', 'k',
        '_', 'i', 'd', ' ', 'F', 'R', 'O', 'M', ' ', 'c', 'a', 'l', 'l', '_', 'g', 'r', 'a', 'p',
        'h', ' ', 'W', 'H', 'E', 'R', 'E', ' ', 'c', 'a', 'l', 'l', 'e', 'e', '_', 'c', 'h', 'u',
        'n', 'k', '_', 'i', 'd', ' ', 'I', 'N', ' ', '(',
    ];
    assert("SELECT callee_chunk_id, caller_chunk_id FROM call_graph WHERE callee_chunk_id IN ("@ =~= s);
    lemma_no_mark(s);
}

proof fn lemma_no_place_in_close()
    ensures
        question_marks(")"@) == 0,
{
    reveal_strlit(")");
    let s = seq![
        ')',
    ];
    assert(")"@ =~= s);
    lemma_no_mark(s);
}

proof fn lemma_no_place_in_uses()
    ensures
        question_marks("SELECT defining_chunk, chunk_id FROM type_refs WHERE defining_chunk IN ("@) == 0,
{
    reveal_strlit("SELECT defining_chunk, chunk_id FROM type_refs WHERE defining_chunk IN (");
    let s = seq![
        'S', 'E', 'L', 'E', 'C', 'T', ' ', 'd', 'e', 'f', 'i', 'n', 'i', 'n', 'g', '_', 'c', 'h',
        'u', 'n', 'k', ',', ' ', 'c', 'h', 'u', 'n', 'k', '_', 'i', 'd', ' ', 'F', 'R', 'O', 'M',
        ' ', 't', 'y', 'p', 'e', '_', 'r', 'e', 'f', 's', ' ', 'W', 'H', 'E', 'R', 'E', ' ', 'd',
        'e', 'f', 'i', 'n', 'i', 'n', 'g', '_', 'c', 'h', 'u', 'n', 'k', ' ', 'I', 'N', ' ', '(',
    ];
    assert("SELECT defining_chunk, chunk_id FROM type_refs WHERE defining_chunk IN ("@ =~= s);
    lemma_no_mark(s);
}

proof fn lemma_no_place_in_defs()
    ensures
        question_marks("SELECT chunk_id, defining_chunk FROM type_refs WHERE chunk_id IN ("@) == 0,
{
    reveal_strlit("SELECT chunk_id, defining_chunk FROM type_refs WHERE chunk_id IN (");
    let s = seq![
        'S', 'E', 'L', 'E', 'C', 'T', ' ', 'c', 'h', 'u', 'n', 'k', '_', 'i', 'd', ',', ' ', 'd',
        'e', 'f', 'i', 'n', 'i', 'n', 'g', '_', 'c', 'h', 'u', 'n', 'k', ' ', 'F', 'R', 'O', 'M',
        ' ', 't', 'y', 'p', 'e', '_', 'r', 'e', 'f', 's', ' ', 'W', 'H', 'E', 'R', 'E', ' ', 'c',
        'h', 'u', 'n', 'k', '_', 'i', 'd', ' ', 'I', 'N', ' ', '(',
    ];
    assert("SELECT chunk_id, defining_chunk FROM type_refs WHERE chunk_id IN ("@ =~= s);
    lemma_no_mark(s);
}

proof fn lemma_no_place_in_defined()
    ensures
        question_marks(") AND defining_chunk IS NOT NULL"@) == 0,
{
    reveal_strlit(") AND defining_chunk IS NOT NULL");
    let s = seq![
        ')', ' ', 'A', 'N', 'D', ' ', 'd', 'e', 'f', 'i', 'n', 'i', 'n', 'g', '_', 'c', 'h', 'u',
        'n', 'k', ' ', 'I', 'S', ' ', 'N', 'O', 'T', ' ', 'N', 'U', 'L', 'L',
    ];
    assert(") AND defining_chunk IS NOT NULL"@ =~= s);
    lemma_no_mark(s);
}

proof fn lemma_no_place_in_children()
    ensures
        question_marks("SELECT child_chunk, parent_chunk FROM type_hierarchy WHERE child_chunk IN ("@) == 0,
{
    reveal_strlit("SELECT child_chunk, parent_chunk FROM type_hierarchy WHERE child_chunk IN (");
    let s = seq![
        'S', 'E', 'L', 'E', 'C', 'T', ' ', 'c', 'h', 'i', 'l', 'd', '_', 'c', 'h', 'u', 'n', 'k',
        ',', ' ', 'p', 'a', 'r', 'e', 'n', 't', '_', 'c', 'h', 'u', 'n', 'k', ' ', 'F', 'R', 'O',
        'M', ' ', 't', 'y', 'p', 'e', '_', 'h', 'i', 'e', 'r', 'a', 'r', 'c', 'h', 'y', ' ', 'W',
        'H', 'E', 'R', 'E', ' ', 'c', 'h', 'i', 'l', 'd', '_', 'c', 'h', 'u', 'n', 'k', ' ', 'I',
        'N', ' ', '(',
    ];
    assert("SELECT child_chunk, parent_chunk FROM type_hierarchy WHERE child_chunk IN ("@ =~= s);
    lemma_no_mark(s);
}

proof fn lemma_no_place_in_parents()
    ensures
        question_marks(") AND parent_chunk IS NOT NULL UNION ALL SELECT parent_chunk, child_chunk FROM type_hierarchy WHERE parent_chunk IN ("@) == 0,
{
    reveal_strlit(") AND parent_chunk IS NOT NULL UNION ALL SELECT parent_chunk, child_chunk FROM type_hierarchy WHERE parent_chunk IN (");
    let s = seq![
        ')', ' ', 'A', 'N', 'D', ' ', 'p', 'a', 'r', 'e', 'n', 't', '_', 'c', 'h', 'u', 'n', 'k',
        ' ', 'I', 'S', ' ', 'N', 'O', 'T', ' ', 'N', 'U', 'L', 'L', ' ', 'U', 'N', 'I', 'O', 'N',
        ' ', 'A', 'L', 'L', ' ', 'S', 'E', 'L', 'E', 'C', 'T', ' ', 'p', 'a', 'r', 'e', 'n', 't',
        '_', 'c', 'h', 'u', 'n', 'k', ',', ' ', 'c', 'h', 'i', 'l', 'd', '_', 'c', 'h', 'u', 'n',
        'k', ' ', 'F', 'R', 'O', 'M', ' ', 't', 'y', 'p', 'e', '_', 'h', 'i', 'e', 'r', 'a', 'r',
        'c', 'h', 'y', ' ', 'W', 'H', 'E', 'R', 'E', ' ', 'p', 'a', 'r', 'e', 'n', 't', '_', 'c',
        'h', 'u', 'n', 'k', ' ', 'I', 'N', ' ', '(',
    ];
    assert(") AND parent_chunk IS NOT NULL UNION ALL SELECT parent_chunk, child_chunk FROM type_hierarchy WHERE parent_chunk IN ("@ =~= s);
    lemma_no_mark(s);
}

proof fn lemma_no_place_in_child()
    ensures
        question_marks(") AND child_chunk IS NOT NULL"@) == 0,
{
    reveal_strlit(") AND child_chunk IS NOT NULL");
    let s = seq![
        ')', ' ', 'A', 'N', 'D', ' ', 'c', 'h', 'i', 'l', 'd', '_', 'c', 'h', 'u', 'n', 'k', ' ',
        'I', 'S', ' ', 'N', 'O', 'T', ' ', 'N', 'U', 'L', 'L',
    ];
    assert(") AND child_chunk IS NOT NULL"@ =~= s);
    lemma_no_mark(s);
}

proof fn lemma_no_place_in_chunks()
    ensures
        question_marks("SELECT id, file_path, start_line, end_line, content, chunk_type FROM chunks WHERE id IN ("@) == 0,
{
    reveal_strlit("SELECT id, file_path, start_line, end_line, content, chunk_type FROM chunks WHERE id IN (");
    let s = seq![
        'S', 'E', 'L', 'E', 'C', 'T', ' ', 'i', 'd', ',', ' ', 'f', 'i', 'l', 'e', '_', 'p', 'a',
        't', 'h', ',', ' ', 's', 't', 'a', 'r', 't', '_', 'l', 'i', 'n', 'e', ',', ' ', 'e', 'n',
        'd', '_', 'l', 'i', 'n', 'e', ',', ' ', 'c', 'o', 'n', 't', 'e', 'n', 't', ',', ' ', 'c',
        'h', 'u', 'n', 'k', '_', 't', 'y', 'p', 'e', ' ', 'F', 'R', 'O', 'M', ' ', 'c', 'h', 'u',
        'n', 'k', 's', ' ', 'W', 'H', 'E', 'R', 'E', ' ', 'i', 'd', ' ', 'I', 'N', ' ', '(',
    ];
    assert("SELECT id, file_path, start_line, end_line, content, chunk_type FROM chunks WHERE id IN ("@ =~= s);
    lemma_no_mark(s);
}

proof fn lemma_no_place_in_roles()
    ensures
        question_marks("SELECT path, role FROM file_metadata WHERE path IN ("@) == 0,
{
    reveal_strlit("SELECT path, role FROM file_metadata WHERE path IN (");
    let s = seq![
        'S', 'E', 'L', 'E', 'C', 'T', ' ', 'p', 'a', 't', 'h', ',', ' ', 'r', 'o', 'l', 'e', ' ',
        'F', 'R', 'O', 'M', ' ', 'f', 'i', 'l', 'e', '_', 'm', 'e', 't', 'a', 'd', 'a', 't', 'a',
        ' ', 'W', 'H', 'E', 'R', 'E', ' ', 'p', 'a', 't', 'h', ' ', 'I', 'N', ' ', '(',
    ];
    assert("SELECT path, role FROM file_metadata WHERE path IN ("@ =~= s);
    lemma_no_mark(s);
}

proof fn lemma_no_place_in_imported()
    ensures
        question_marks("SELECT DISTINCT imported_path FROM module_edges WHERE importer_path IN ("@) == 0,
{
    reveal_strlit("SELECT DISTINCT imported_path FROM module_edges WHERE importer_path IN (");
    let s = seq![
        'S', 'E', 'L', 'E', 'C', 'T', ' ', 'D', 'I', 'S', 'T', 'I', 'N', 'C', 'T', ' ', 'i', 'm',
        'p', 'o', 'r', 't', 'e', 'd', '_', 'p', 'a', 't', 'h', ' ', 'F', 'R', 'O', 'M', ' ', 'm',
        'o', 'd', 'u', 'l', 'e', '_', 'e', 'd', 'g', 'e', 's', ' ', 'W', 'H', 'E', 'R', 'E', ' ',
        'i', 'm', 'p', 'o', 'r', 't', 'e', 'r', '_', 'p', 'a', 't', 'h', ' ', 'I', 'N', ' ', '(',
    ];
    assert("SELECT DISTINCT imported_path FROM module_edges WHERE importer_path IN ("@ =~= s);
    lemma_no_mark(s);
}

proof fn lemma_no_place_in_importers()
    ensures
        question_marks(") UNION SELECT DISTINCT importer_path FROM module_edges WHERE imported_path IN ("@) == 0,
{
    reveal_strlit(") UNION SELECT DISTINCT importer_path FROM module_edges WHERE imported_path IN (");
    let s = seq![
        ')', ' ', 'U', 'N', 'I', 'O', 'N', ' ', 'S', 'E', 'L', 'E', 'C', 'T', ' ', 'D', 'I', 'S',
        'T', 'I', 'N', 'C', 'T', ' ', 'i', 'm', 'p', 'o', 'r', 't', 'e', 'r', '_', 'p', 'a', 't',
        'h', ' ', 'F', 'R', 'O', 'M', ' ', 'm', 'o', 'd', 'u', 'l', 'e', '_', 'e', 'd', 'g', 'e',
        's', ' ', 'W', 'H', 'E', 'R', 'E', ' ', 'i', 'm', 'p', 'o', 'r', 't', 'e', 'd', '_', 'p',
        'a', 't', 'h', ' ', 'I', 'N', ' ', '(',
    ];
    assert(") UNION SELECT DISTINCT importer_path FROM module_edges WHERE imported_path IN ("@ =~= s);
    lemma_no_mark(s);
}

/// A query for edges has as many places for values as are bound to it: one for each chunk, or two
/// where each chunk is bound twice.
pub proof fn lemma_places_in_edge_queries(q: EdgeQuery, n: nat)
    ensures
        question_marks(edge_sql(q, marks(n))) == times_bound(q) * n,
{
    lemma_as_many_marks(n);
    let m = marks(n);
    let t = times_bound(q) as int;
    assert(q == EdgeQuery::Hierarchy ==> t * n == n + n) by (nonlinear_arith)
        requires
            q == EdgeQuery::Hierarchy ==> t == 2,
    ;
    assert(q != EdgeQuery::Hierarchy ==> t * n == n) by (nonlinear_arith)
        requires
            q != EdgeQuery::Hierarchy ==> t == 1,
    ;
    match q {
        EdgeQuery::CallsFrom => {
            lemma_no_place_in_from();
            lemma_no_place_in_callee();
            let a = "SELECT caller_chunk_id, callee_chunk_id FROM call_graph WHERE caller_chunk_id IN ("@;
            let b = ") AND callee_chunk_id IS NOT NULL"@;
            lemma_marks_add(a, m);
            lemma_marks_add(a + m, b);
        },
        EdgeQuery::CallsTo => {
            lemma_no_place_in_to();
            lemma_no_place_in_close();
            let a = "SELECT callee_chunk_id, caller_chunk_id FROM call_graph WHERE callee_chunk_id IN ("@;
            let b = ")"@;
            lemma_marks_add(a, m);
            lemma_marks_add(a + m, b);
        },
        EdgeQuery::TypeUsesOf => {
            lemma_no_place_in_uses();
            lemma_no_place_in_close();
            let a = "SELECT defining_chunk, chunk_id FROM type_refs WHERE defining_chunk IN ("@;
            let b = ")"@;
            lemma_marks_add(a, m);
            lemma_marks_add(a + m, b);
        },
        EdgeQuery::TypeDefsOf => {
            lemma_no_place_in_defs();
            lemma_no_place_in_defined();
            let a = "SELECT chunk_id, defining_chunk FROM type_refs WHERE chunk_id IN ("@;
            let b = ") AND defining_chunk IS NOT NULL"@;
            lemma_marks_add(a, m);
            lemma_marks_add(a + m, b);
        },
        EdgeQuery::Hierarchy => {
            lemma_no_place_in_children();
            lemma_no_place_in_parents();
            lemma_no_place_in_child();
            let a = "SELECT child_chunk, parent_chunk FROM type_hierarchy WHERE child_chunk IN ("@;
            let b = ") AND parent_chunk IS NOT NULL UNION ALL SELECT parent_chunk, child_chunk FROM type_hierarchy WHERE parent_chunk IN ("@;
            let c = ") AND child_chunk IS NOT NULL"@;
            lemma_marks_add(a, m);
            lemma_marks_add(a + m, b);
            lemma_marks_add(a + m + b, m);
            lemma_marks_add(a + m + b + m, c);
        },
    }
}

/// The other statements have one place for each value, and that for neighbors two, since the files
/// are bound to it twice.
pub proof fn lemma_places_in_statements(n: nat)
    ensures
        question_marks(chunks_sql(marks(n))) == n,
        question_marks(roles_sql(marks(n))) == n,
        question_marks(neighbors_sql(marks(n))) == 2 * n,
{
    lemma_as_many_marks(n);
    let m = marks(n);
    lemma_no_place_in_chunks();
    lemma_no_place_in_roles();
    lemma_no_place_in_imported();
    lemma_no_place_in_importers();
    lemma_no_place_in_close();
    let z = ")"@;
    let a = "SELECT id, file_path, start_line, end_line, content, chunk_type FROM chunks WHERE id IN ("@;
    lemma_marks_add(a, m);
    lemma_marks_add(a + m, z);
    let b = "SELECT path, role FROM file_metadata WHERE path IN ("@;
    lemma_marks_add(b, m);
    lemma_marks_add(b + m, z);
    let c = "SELECT DISTINCT imported_path FROM module_edges WHERE importer_path IN ("@;
    let d = ") UNION SELECT DISTINCT importer_path FROM module_edges WHERE imported_path IN ("@;
    lemma_marks_add(c, m);
    lemma_marks_add(c + m, d);
    lemma_marks_add(c + m + d, m);
    lemma_marks_add(c + m + d + m, z);
}

} // verus!
