//! Scaffolds for documentation: what a writer needs to know of a repository or of one file, with
//! the place of every claim in the source.

use crate::index::architecture::{
    budget_for, budget_for_chunk_count, build_arch_overview, community_of, god_nodes_of,
    largest_components, overview_parts, tally, top_of, ARCH_TINY_REPO_THRESHOLD, ArchBudget,
    ArchFacts, ArchOverview, Boundary, BoundaryView, Community, CommunityView, EntryPoint, GodNode,
    GodNodeView,
};
use crate::index::history::{age_text, humanize_age, seconds_since, CommitInfo, CommitInfoView};
use crate::order::{
    dedup, is_weak_order, lemma_merged_distinct, lemma_merged_in_order, lemma_merged_keeps,
    lemma_ranked_contains, lemma_ranked_in_order, lemma_ranked_multiset, lemma_ranked_stable,
    merged, ranked, sorted, Merged, Ranked,
};
use crate::text::{
    ascii_lower, comes_before, copy_texts, lemma_before_irreflexive, lemma_before_total,
    lemma_before_transitive, opt_text, same_text, text_before, to_ascii_lower, views,
};
use crate::types::{chunk_with_id, find_chunk, lemma_chunk_lookup, Chunk, ChunkView};
use vstd::prelude::*;

verus! {

/// The most recent commits shown for the repository.
pub const RECENT_CHANGES_LIMIT: usize = 10;

/// The most recent commits shown for a file.
pub const COMMITS_TOUCHING_LIMIT: usize = 10;

/// A place in the source: a file and the lines in it.
#[derive(Debug, Clone)]
pub struct Provenance {
    pub file: String,
    pub start_line: u32,
    pub end_line: u32,
}

/// What a [`Provenance`] holds.
pub struct ProvenanceView {
    pub file: Seq<char>,
    pub start_line: u32,
    pub end_line: u32,
}

impl View for Provenance {
    type V = ProvenanceView;

    open spec fn view(&self) -> ProvenanceView {
        ProvenanceView {
            file: self.file@,
            start_line: self.start_line,
            end_line: self.end_line,
        }
    }
}

impl ProvenanceView {
    /// By the file, then by the first and the last line.
    pub open spec fn precedes(self, other: ProvenanceView) -> bool {
        if self.file != other.file {
            text_before(self.file, other.file)
        } else if self.start_line != other.start_line {
            self.start_line < other.start_line
        } else {
            self.end_line < other.end_line
        }
    }
}

/// Where a chunk stands.
pub open spec fn place_of(c: ChunkView) -> ProvenanceView {
    ProvenanceView { file: c.file_path, start_line: c.start_line, end_line: c.end_line }
}

impl Provenance {
    /// Where a chunk stands.
    pub fn from_chunk(chunk: &Chunk) -> (r: Provenance)
        ensures
            r@ == place_of(chunk@),
    {
        Provenance {
            file: chunk.file_path.clone(),
            start_line: chunk.start_line,
            end_line: chunk.end_line,
        }
    }

    /// Whether this place comes before the other.
    fn is_before(&self, other: &Provenance) -> (r: bool)
        ensures
            r == self@.precedes(other@),
    {
        if !same_text(&self.file, &other.file) {
            comes_before(&self.file, &other.file)
        } else if self.start_line != other.start_line {
            self.start_line < other.start_line
        } else {
            self.end_line < other.end_line
        }
    }

    /// Whether the two places are the same.
    fn is_same_place(&self, other: &Provenance) -> (r: bool)
        ensures
            r == (self@ == other@),
    {
        same_text(&self.file, &other.file) && self.start_line == other.start_line && self.end_line
            == other.end_line
    }

    fn duplicate(&self) -> (r: Provenance)
        ensures
            r@ == self@,
    {
        Provenance {
            file: self.file.clone(),
            start_line: self.start_line,
            end_line: self.end_line,
        }
    }
}

/// What is known of a symbol beyond its name, kind and place.
#[derive(Debug, Clone)]
pub struct SymbolMeta {
    pub qualified_name: Option<String>,
    pub signature: Option<String>,
    pub params: Vec<String>,
    pub return_type: Option<String>,
    pub docstring: Option<String>,
    pub doc_tags: Vec<String>,
    pub parent_class: Option<String>,
    pub semantic_role: Option<String>,
    pub calls: Vec<String>,
    pub called_by: Vec<String>,
}

/// What a [`SymbolMeta`] holds.
pub struct SymbolMetaView {
    pub qualified_name: Option<Seq<char>>,
    pub signature: Option<Seq<char>>,
    pub params: Seq<Seq<char>>,
    pub return_type: Option<Seq<char>>,
    pub docstring: Option<Seq<char>>,
    pub doc_tags: Seq<Seq<char>>,
    pub parent_class: Option<Seq<char>>,
    pub semantic_role: Option<Seq<char>>,
    pub calls: Seq<Seq<char>>,
    pub called_by: Seq<Seq<char>>,
}

impl View for SymbolMeta {
    type V = SymbolMetaView;

    open spec fn view(&self) -> SymbolMetaView {
        SymbolMetaView {
            qualified_name: opt_text(self.qualified_name),
            signature: opt_text(self.signature),
            params: views(self.params@),
            return_type: opt_text(self.return_type),
            docstring: opt_text(self.docstring),
            doc_tags: views(self.doc_tags@),
            parent_class: opt_text(self.parent_class),
            semantic_role: opt_text(self.semantic_role),
            calls: views(self.calls@),
            called_by: views(self.called_by@),
        }
    }
}

/// Nothing is known of the symbol.
pub open spec fn no_meta() -> SymbolMetaView {
    SymbolMetaView {
        qualified_name: None,
        signature: None,
        params: Seq::empty(),
        return_type: None,
        docstring: None,
        doc_tags: Seq::empty(),
        parent_class: None,
        semantic_role: None,
        calls: Seq::empty(),
        called_by: Seq::empty(),
    }
}

/// The same text again, if there is one.
fn copy_opt(o: &Option<String>) -> (r: Option<String>)
    ensures
        opt_text(r) == opt_text(*o),
{
    match o {
        Some(t) => Some(t.clone()),
        None => None,
    }
}

/// One symbol of a file.
#[derive(Debug, Clone)]
pub struct SymbolScaffold {
    pub name: String,
    pub kind: String,
    pub qualified_name: Option<String>,
    pub signature: Option<String>,
    pub params: Vec<String>,
    pub return_type: Option<String>,
    pub docstring: Option<String>,
    pub doc_tags: Vec<String>,
    pub parent_class: Option<String>,
    pub semantic_role: Option<String>,
    pub calls: Vec<String>,
    pub called_by: Vec<String>,
    pub provenance: Provenance,
}

/// What a [`SymbolScaffold`] holds.
pub struct SymbolScaffoldView {
    pub name: Seq<char>,
    pub kind: Seq<char>,
    pub meta: SymbolMetaView,
    pub provenance: ProvenanceView,
}

impl View for SymbolScaffold {
    type V = SymbolScaffoldView;

    open spec fn view(&self) -> SymbolScaffoldView {
        SymbolScaffoldView {
            name: self.name@,
            kind: self.kind@,
            meta: SymbolMetaView {
                qualified_name: opt_text(self.qualified_name),
                signature: opt_text(self.signature),
                params: views(self.params@),
                return_type: opt_text(self.return_type),
                docstring: opt_text(self.docstring),
                doc_tags: views(self.doc_tags@),
                parent_class: opt_text(self.parent_class),
                semantic_role: opt_text(self.semantic_role),
                calls: views(self.calls@),
                called_by: views(self.called_by@),
            },
            provenance: self.provenance@,
        }
    }
}

impl Ranked for SymbolScaffold {
    /// By the first line.
    open spec fn before(a: SymbolScaffoldView, b: SymbolScaffoldView) -> bool {
        a.provenance.start_line < b.provenance.start_line
    }

    fn goes_before(&self, other: &Self) -> (r: bool) {
        self.provenance.start_line < other.provenance.start_line
    }
}

/// A call from a file to a named function, with the place of the function if it is known.
#[derive(Debug, Clone)]
pub struct CallEdgeOut {
    pub callee_name: String,
    pub resolved: Option<Provenance>,
}

/// What a [`CallEdgeOut`] holds.
pub struct CallEdgeOutView {
    pub callee_name: Seq<char>,
    pub resolved: Option<ProvenanceView>,
}

impl View for CallEdgeOut {
    type V = CallEdgeOutView;

    open spec fn view(&self) -> CallEdgeOutView {
        CallEdgeOutView {
            callee_name: self.callee_name@,
            resolved: match self.resolved {
                Some(p) => Some(p@),
                None => None,
            },
        }
    }
}

impl Ranked for CallEdgeOut {
    /// By the name; of one name the unresolved calls first, then by the place.
    open spec fn before(a: CallEdgeOutView, b: CallEdgeOutView) -> bool {
        if a.callee_name != b.callee_name {
            text_before(a.callee_name, b.callee_name)
        } else {
            match (a.resolved, b.resolved) {
                (None, Some(_)) => true,
                (Some(p), Some(q)) => p.precedes(q),
                _ => false,
            }
        }
    }

    fn goes_before(&self, other: &Self) -> (r: bool) {
        if !same_text(&self.callee_name, &other.callee_name) {
            comes_before(&self.callee_name, &other.callee_name)
        } else {
            match (&self.resolved, &other.resolved) {
                (None, Some(_)) => true,
                (Some(p), Some(q)) => p.is_before(q),
                _ => false,
            }
        }
    }
}

impl Merged for CallEdgeOut {
    /// The same name and the same place.
    open spec fn same(a: CallEdgeOutView, b: CallEdgeOutView) -> bool {
        a == b
    }

    fn is_same(&self, other: &Self) -> (r: bool) {
        same_text(&self.callee_name, &other.callee_name) && match (
            &self.resolved,
            &other.resolved,
        ) {
            (None, None) => true,
            (Some(p), Some(q)) => p.is_same_place(q),
            _ => false,
        }
    }
}

/// A call into a file, with the symbol that makes it.
#[derive(Debug, Clone)]
pub struct CallEdgeIn {
    pub caller_symbol: Option<String>,
    pub provenance: Provenance,
}

/// What a [`CallEdgeIn`] holds.
pub struct CallEdgeInView {
    pub caller_symbol: Option<Seq<char>>,
    pub provenance: ProvenanceView,
}

impl View for CallEdgeIn {
    type V = CallEdgeInView;

    open spec fn view(&self) -> CallEdgeInView {
        CallEdgeInView {
            caller_symbol: opt_text(self.caller_symbol),
            provenance: self.provenance@,
        }
    }
}

impl Ranked for CallEdgeIn {
    /// By the file, then by the first line.
    open spec fn before(a: CallEdgeInView, b: CallEdgeInView) -> bool {
        if a.provenance.file != b.provenance.file {
            text_before(a.provenance.file, b.provenance.file)
        } else {
            a.provenance.start_line < b.provenance.start_line
        }
    }

    fn goes_before(&self, other: &Self) -> (r: bool) {
        if !same_text(&self.provenance.file, &other.provenance.file) {
            comes_before(&self.provenance.file, &other.provenance.file)
        } else {
            self.provenance.start_line < other.provenance.start_line
        }
    }
}

impl Merged for CallEdgeIn {
    /// The same place.
    open spec fn same(a: CallEdgeInView, b: CallEdgeInView) -> bool {
        a.provenance == b.provenance
    }

    fn is_same(&self, other: &Self) -> (r: bool) {
        self.provenance.is_same_place(&other.provenance)
    }
}

/// A commit as a scaffold shows it, with its age in words.
#[derive(Debug, Clone)]
pub struct CommitScaffold {
    pub hash: String,
    pub author: String,
    pub age: String,
    pub subject: String,
}

/// What a [`CommitScaffold`] holds.
pub struct CommitScaffoldView {
    pub hash: Seq<char>,
    pub author: Seq<char>,
    pub age: Seq<char>,
    pub subject: Seq<char>,
}

impl View for CommitScaffold {
    type V = CommitScaffoldView;

    open spec fn view(&self) -> CommitScaffoldView {
        CommitScaffoldView {
            hash: self.hash@,
            author: self.author@,
            age: self.age@,
            subject: self.subject@,
        }
    }
}

/// A commit as a scaffold shows it at the time `now`.
pub open spec fn shown_commit_at(c: CommitInfoView, now: int) -> CommitScaffoldView {
    CommitScaffoldView {
        hash: c.hash,
        author: c.author,
        age: age_text(seconds_since(c.ts, now)),
        subject: c.subject,
    }
}

impl CommitScaffold {
    /// A commit as a scaffold shows it at the time `now`.
    pub fn at(c: &CommitInfo, now: i64) -> (r: CommitScaffold)
        ensures
            r@ == shown_commit_at(c@, now as int),
    {
        CommitScaffold {
            hash: c.hash.clone(),
            author: c.author.clone(),
            age: humanize_age(c.ts, now),
            subject: c.subject.clone(),
        }
    }
}

/// The first `limit` commits as a scaffold shows them; absent if there are none, or none were
/// gathered.
pub open spec fn shown_commits(
    commits: Option<Seq<CommitInfoView>>,
    limit: nat,
    now: int,
) -> Option<Seq<CommitScaffoldView>> {
    match commits {
        Some(cs) => if cs.len() == 0 {
            None
        } else {
            let top = top_of(cs, limit);
            Some(Seq::new(top.len(), |i: int| shown_commit_at(top[i], now)))
        },
        None => None,
    }
}

/// The view of an optional list.
pub open spec fn opt_views<T: View>(o: Option<Vec<T>>) -> Option<Seq<T::V>> {
    match o {
        Some(v) => Some(views(v@)),
        None => None,
    }
}

/// The first `limit` commits as a scaffold shows them; absent if there are none.
fn show_commits(commits: &Option<Vec<CommitInfo>>, limit: usize, now: i64) -> (r: Option<
    Vec<CommitScaffold>,
>)
    ensures
        opt_views(r) == shown_commits(opt_views(*commits), limit as nat, now as int),
        r matches Some(c) ==> c@.len() <= limit && (limit > 0 ==> c@.len() > 0),
{
    match commits {
        Some(cs) => {
            if cs.len() == 0 {
                return None;
            }
            let ghost all = top_of(views(cs@), limit as nat);
            let mut r: Vec<CommitScaffold> = Vec::new();
            let mut i: usize = 0;
            while i < cs.len() && i < limit
                invariant
                    i <= cs@.len(),
                    i <= limit,
                    r@.len() == i,
                    forall|k: int|
                        0 <= k < i ==> (#[trigger] r@[k])@ == shown_commit_at(cs@[k]@, now as int),
                decreases cs@.len() - i,
            {
                r.push(CommitScaffold::at(&cs[i], now));
                i = i + 1;
            }
            proof {
                assert(views(r@) =~= Seq::new(
                    all.len(),
                    |i: int| shown_commit_at(all[i], now as int),
                ));
            }
            Some(r)
        },
        None => None,
    }
}

/// The language of a file, from the name of its detected type; `None` for the type `Unknown`.
pub open spec fn language_of(type_label: Seq<char>) -> Option<Seq<char>> {
    if type_label == "Unknown"@ {
        None
    } else {
        Some(ascii_lower(type_label))
    }
}

/// The language of a file, from the name of its detected type.
pub fn language_label(type_label: &str) -> (r: Option<String>)
    ensures
        opt_text(r) == language_of(type_label@),
{
    if same_text(type_label, "Unknown") {
        None
    } else {
        Some(to_ascii_lower(type_label))
    }
}

/// Everything a writer needs to know of one file.
#[derive(Debug, Clone)]
pub struct ModuleScaffold {
    pub path: String,
    pub language: Option<String>,
    pub file_role: Option<String>,
    pub symbols: Vec<SymbolScaffold>,
    /// The files that this file imports.
    pub imports: Vec<String>,
    /// The files that import this file.
    pub imported_by: Vec<String>,
    pub calls_out: Vec<CallEdgeOut>,
    pub calls_in: Vec<CallEdgeIn>,
    /// The commits that touched the file; absent if none are known.
    pub commits_touching: Option<Vec<CommitScaffold>>,
}

/// What a [`ModuleScaffold`] holds.
pub struct ModuleScaffoldView {
    pub path: Seq<char>,
    pub language: Option<Seq<char>>,
    pub file_role: Option<Seq<char>>,
    pub symbols: Seq<SymbolScaffoldView>,
    pub imports: Seq<Seq<char>>,
    pub imported_by: Seq<Seq<char>>,
    pub calls_out: Seq<CallEdgeOutView>,
    pub calls_in: Seq<CallEdgeInView>,
    pub commits_touching: Option<Seq<CommitScaffoldView>>,
}

impl View for ModuleScaffold {
    type V = ModuleScaffoldView;

    open spec fn view(&self) -> ModuleScaffoldView {
        ModuleScaffoldView {
            path: self.path@,
            language: opt_text(self.language),
            file_role: opt_text(self.file_role),
            symbols: views(self.symbols@),
            imports: views(self.imports@),
            imported_by: views(self.imported_by@),
            calls_out: views(self.calls_out@),
            calls_in: views(self.calls_in@),
            commits_touching: opt_views(self.commits_touching),
        }
    }
}

/// What the index holds about one file.
#[derive(Debug, Clone)]
pub struct ModuleFacts {
    pub path: String,
    /// The name of the detected type of the file.
    pub type_label: String,
    pub file_role: Option<String>,
    /// The chunk, the name and the kind of each symbol.
    pub symbol_rows: Vec<(u64, String, String)>,
    /// What else is known of the symbols, by their chunks.
    pub metas: Vec<(u64, SymbolMeta)>,
    pub imports: Vec<String>,
    pub imported_by: Vec<String>,
    /// The name and, if it is known, the chunk of each function that the file calls.
    pub out_edges: Vec<(String, Option<u64>)>,
    /// The chunks that call into the file.
    pub caller_ids: Vec<u64>,
    /// The chunks that could be read.
    pub chunks: Vec<Chunk>,
    /// The commits that touched the file, if a history has been gathered.
    pub commits: Option<Vec<CommitInfo>>,
}

/// What is known of the symbol in the chunk `id`, by the last entry for it.
pub open spec fn meta_of(metas: Seq<(u64, SymbolMetaView)>, id: u64) -> SymbolMetaView
    decreases metas.len(),
{
    if metas.len() == 0 {
        no_meta()
    } else if metas.last().0 == id {
        metas.last().1
    } else {
        meta_of(metas.drop_last(), id)
    }
}

/// The symbols whose chunks could be read, in the order of the rows.
pub open spec fn symbols_of(
    rows: Seq<(u64, Seq<char>, Seq<char>)>,
    chunks: Seq<ChunkView>,
    metas: Seq<(u64, SymbolMetaView)>,
) -> Seq<SymbolScaffoldView>
    decreases rows.len(),
{
    if rows.len() == 0 {
        Seq::empty()
    } else {
        let r = symbols_of(rows.drop_last(), chunks, metas);
        let (id, name, kind) = rows.last();
        match chunk_with_id(chunks, id) {
            Some(c) => r.push(
                SymbolScaffoldView {
                    name,
                    kind,
                    meta: meta_of(metas, id),
                    provenance: place_of(c),
                },
            ),
            None => r,
        }
    }
}

/// A call with the place of its target, if its chunk is known and could be read.
pub open spec fn call_out_of(
    edge: (Seq<char>, Option<u64>),
    chunks: Seq<ChunkView>,
) -> CallEdgeOutView {
    CallEdgeOutView {
        callee_name: edge.0,
        resolved: match edge.1 {
            Some(id) => match chunk_with_id(chunks, id) {
                Some(c) => Some(place_of(c)),
                None => None,
            },
            None => None,
        },
    }
}

/// The calls out of a file, in the order of the edges.
pub open spec fn calls_out_of(
    edges: Seq<(Seq<char>, Option<u64>)>,
    chunks: Seq<ChunkView>,
) -> Seq<CallEdgeOutView> {
    Seq::new(edges.len(), |i: int| call_out_of(edges[i], chunks))
}

/// The calls into a file by chunks that could be read, in the order of the callers.
pub open spec fn calls_in_of(callers: Seq<u64>, chunks: Seq<ChunkView>) -> Seq<CallEdgeInView>
    decreases callers.len(),
{
    if callers.len() == 0 {
        Seq::empty()
    } else {
        let r = calls_in_of(callers.drop_last(), chunks);
        match chunk_with_id(chunks, callers.last()) {
            Some(c) => r.push(
                CallEdgeInView { caller_symbol: c.symbol, provenance: place_of(c) },
            ),
            None => r,
        }
    }
}

/// What the edges out of a file hold.
pub open spec fn out_edge_views(s: Seq<(String, Option<u64>)>) -> Seq<(Seq<char>, Option<u64>)> {
    Seq::new(s.len(), |i: int| (s[i].0@, s[i].1))
}

/// The scaffold of a file at the time `now`: its symbols by their lines, the calls out of it by
/// name and place and the calls into it by place, none of them twice.
pub open spec fn module_scaffold_of(f: ModuleFacts, now: int) -> ModuleScaffoldView {
    let chunks = views(f.chunks@);
    ModuleScaffoldView {
        path: f.path@,
        language: language_of(f.type_label@),
        file_role: opt_text(f.file_role),
        symbols: ranked::<SymbolScaffold>(
            symbols_of(views(f.symbol_rows@), chunks, views(f.metas@)),
        ),
        imports: views(f.imports@),
        imported_by: views(f.imported_by@),
        calls_out: merged::<CallEdgeOut>(
            ranked::<CallEdgeOut>(calls_out_of(out_edge_views(f.out_edges@), chunks)),
        ),
        calls_in: merged::<CallEdgeIn>(
            ranked::<CallEdgeIn>(calls_in_of(f.caller_ids@, chunks)),
        ),
        commits_touching: shown_commits(opt_views(f.commits), COMMITS_TOUCHING_LIMIT as nat, now),
    }
}

/// What is known of the symbol in the chunk `id`.
fn find_meta(metas: &Vec<(u64, SymbolMeta)>, id: u64) -> (r: Option<usize>)
    ensures
        match r {
            Some(i) => i < metas@.len() && meta_of(views(metas@), id) == metas@[i as int].1@,
            None => meta_of(views(metas@), id) == no_meta(),
        },
{
    let ghost all = views(metas@);
    let mut i: usize = metas.len();
    proof {
        assert(all.take(i as int) =~= all);
    }
    while i > 0
        invariant
            i <= metas@.len(),
            all == views(metas@),
            meta_of(all, id) == meta_of(all.take(i as int), id),
        decreases i,
    {
        proof {
            assert(all.take(i as int).drop_last() =~= all.take(i - 1));
            assert(all.take(i as int).last() == metas@[i - 1]@);
        }
        if metas[i - 1].0 == id {
            return Some(i - 1);
        }
        i = i - 1;
    }
    None
}

/// One symbol of a file.
fn make_symbol(row: &(u64, String, String), c: &Chunk, metas: &Vec<(u64, SymbolMeta)>) -> (r:
    SymbolScaffold)
    ensures
        r@ == (SymbolScaffoldView {
            name: row.1@,
            kind: row.2@,
            meta: meta_of(views(metas@), row.0),
            provenance: place_of(c@),
        }),
{
    let name: String = row.1.clone();
    let kind: String = row.2.clone();
    let provenance: Provenance = Provenance::from_chunk(c);
    match find_meta(metas, row.0) {
        Some(i) => {
            let m: &SymbolMeta = &metas[i].1;
            SymbolScaffold {
                name,
                kind,
                qualified_name: copy_opt(&m.qualified_name),
                signature: copy_opt(&m.signature),
                params: copy_texts(&m.params),
                return_type: copy_opt(&m.return_type),
                docstring: copy_opt(&m.docstring),
                doc_tags: copy_texts(&m.doc_tags),
                parent_class: copy_opt(&m.parent_class),
                semantic_role: copy_opt(&m.semantic_role),
                calls: copy_texts(&m.calls),
                called_by: copy_texts(&m.called_by),
                provenance,
            }
        },
        None => {
            let r: SymbolScaffold = SymbolScaffold {
                name,
                kind,
                qualified_name: None,
                signature: None,
                params: Vec::new(),
                return_type: None,
                docstring: None,
                doc_tags: Vec::new(),
                parent_class: None,
                semantic_role: None,
                calls: Vec::new(),
                called_by: Vec::new(),
                provenance,
            };
            proof {
                let none = Seq::<Seq<char>>::empty();
                assert(views(r.params@) =~= none);
                assert(views(r.doc_tags@) =~= none);
                assert(views(r.calls@) =~= none);
                assert(views(r.called_by@) =~= none);
            }
            r
        },
    }
}

/// The symbols whose chunks could be read.
fn list_symbols(f: &ModuleFacts) -> (r: Vec<SymbolScaffold>)
    ensures
        views(r@) == symbols_of(views(f.symbol_rows@), views(f.chunks@), views(f.metas@)),
{
    let ghost all = views(f.symbol_rows@);
    let mut r: Vec<SymbolScaffold> = Vec::new();
    let mut i: usize = 0;
    proof {
        assert(views(r@) =~= Seq::<SymbolScaffoldView>::empty());
    }
    while i < f.symbol_rows.len()
        invariant
            i <= f.symbol_rows@.len(),
            all == views(f.symbol_rows@),
            views(r@) == symbols_of(all.take(i as int), views(f.chunks@), views(f.metas@)),
        decreases f.symbol_rows@.len() - i,
    {
        let ghost shown = views(r@);
        proof {
            assert(all.take(i + 1).drop_last() =~= all.take(i as int));
            assert(all.take(i + 1).last() == f.symbol_rows@[i as int]@);
        }
        match find_chunk(&f.chunks, f.symbol_rows[i].0) {
            Some(p) => {
                let s: SymbolScaffold = make_symbol(&f.symbol_rows[i], &f.chunks[p], &f.metas);
                r.push(s);
                proof {
                    assert(views(r@) =~= shown.push(s@));
                }
            },
            None => {},
        }
        i = i + 1;
    }
    proof {
        assert(all.take(i as int) =~= all);
    }
    r
}

/// The calls out of a file.
fn list_calls_out(f: &ModuleFacts) -> (r: Vec<CallEdgeOut>)
    ensures
        views(r@) == calls_out_of(out_edge_views(f.out_edges@), views(f.chunks@)),
{
    let ghost all = calls_out_of(out_edge_views(f.out_edges@), views(f.chunks@));
    let mut r: Vec<CallEdgeOut> = Vec::new();
    let mut i: usize = 0;
    while i < f.out_edges.len()
        invariant
            i <= f.out_edges@.len(),
            all == calls_out_of(out_edge_views(f.out_edges@), views(f.chunks@)),
            r@.len() == i,
            forall|k: int| 0 <= k < i ==> (#[trigger] r@[k])@ == all[k],
        decreases f.out_edges@.len() - i,
    {
        let resolved: Option<Provenance> = match f.out_edges[i].1 {
            Some(id) => match find_chunk(&f.chunks, id) {
                Some(p) => Some(Provenance::from_chunk(&f.chunks[p])),
                None => None,
            },
            None => None,
        };
        r.push(CallEdgeOut { callee_name: f.out_edges[i].0.clone(), resolved });
        i = i + 1;
    }
    proof {
        assert(views(r@) =~= all);
    }
    r
}

/// The calls into a file by chunks that could be read.
fn list_calls_in(f: &ModuleFacts) -> (r: Vec<CallEdgeIn>)
    ensures
        views(r@) == calls_in_of(f.caller_ids@, views(f.chunks@)),
{
    let mut r: Vec<CallEdgeIn> = Vec::new();
    let mut i: usize = 0;
    proof {
        assert(views(r@) =~= Seq::<CallEdgeInView>::empty());
    }
    while i < f.caller_ids.len()
        invariant
            i <= f.caller_ids@.len(),
            views(r@) == calls_in_of(f.caller_ids@.take(i as int), views(f.chunks@)),
        decreases f.caller_ids@.len() - i,
    {
        let ghost shown = views(r@);
        proof {
            assert(f.caller_ids@.take(i + 1).drop_last() =~= f.caller_ids@.take(i as int));
        }
        match find_chunk(&f.chunks, f.caller_ids[i]) {
            Some(p) => {
                let c: &Chunk = &f.chunks[p];
                let e: CallEdgeIn = CallEdgeIn {
                    caller_symbol: c.symbol_name(),
                    provenance: Provenance::from_chunk(c),
                };
                r.push(e);
                proof {
                    assert(views(r@) =~= shown.push(e@));
                }
            },
            None => {},
        }
        i = i + 1;
    }
    proof {
        assert(f.caller_ids@.take(i as int) =~= f.caller_ids@);
    }
    r
}

/// The scaffold of a file, from what the index holds about it, at the time `now`.
pub fn build_module_scaffold(facts: &ModuleFacts, now: i64) -> (r: ModuleScaffold)
    ensures
        r@ == module_scaffold_of(*facts, now as int),
        r.commits_touching matches Some(c) ==> 0 < c@.len() <= COMMITS_TOUCHING_LIMIT,
{
    let symbols: Vec<SymbolScaffold> = sorted(list_symbols(facts));
    let calls_out: Vec<CallEdgeOut> = dedup(sorted(list_calls_out(facts)));
    let calls_in: Vec<CallEdgeIn> = dedup(sorted(list_calls_in(facts)));
    ModuleScaffold {
        path: facts.path.clone(),
        language: language_label(&facts.type_label),
        file_role: copy_opt(&facts.file_role),
        symbols,
        imports: copy_texts(&facts.imports),
        imported_by: copy_texts(&facts.imported_by),
        calls_out,
        calls_in,
        commits_touching: show_commits(&facts.commits, COMMITS_TOUCHING_LIMIT, now),
    }
}

/// The greater of two numbers.
pub open spec fn at_least(n: int, least: int) -> int {
    if n < least {
        least
    } else {
        n
    }
}

/// The scaffold of a file made one step smaller: of its commits, of the calls into it and of the
/// calls out of it one half is kept, of its symbols three quarters, the first of these lists that
/// is long enough; `None` if none is.
pub open spec fn module_trim(v: ModuleScaffoldView) -> Option<ModuleScaffoldView> {
    if v.commits_touching is Some && v.commits_touching->0.len() > 3 {
        let c = v.commits_touching->0;
        Some(
            ModuleScaffoldView {
                commits_touching: Some(c.take(at_least(c.len() as int / 2, 3))),
                ..v
            },
        )
    } else if v.calls_in.len() > 5 {
        Some(
            ModuleScaffoldView {
                calls_in: v.calls_in.take(at_least(v.calls_in.len() as int / 2, 5)),
                ..v
            },
        )
    } else if v.calls_out.len() > 5 {
        Some(
            ModuleScaffoldView {
                calls_out: v.calls_out.take(at_least(v.calls_out.len() as int / 2, 5)),
                ..v
            },
        )
    } else if v.symbols.len() > 3 {
        Some(
            ModuleScaffoldView {
                symbols: v.symbols.take(
                    at_least(v.symbols.len() - at_least(v.symbols.len() as int / 4, 1), 3),
                ),
                ..v
            },
        )
    } else {
        None
    }
}

/// The scaffold of a file after `k` steps; it stays as it is once no step is possible.
pub open spec fn module_trimmed(v: ModuleScaffoldView, k: nat) -> ModuleScaffoldView
    decreases k,
{
    if k == 0 {
        v
    } else {
        let p = module_trimmed(v, (k - 1) as nat);
        match module_trim(p) {
            Some(t) => t,
            None => p,
        }
    }
}

/// How many entries the lists hold that can be made shorter.
pub open spec fn module_weight(v: ModuleScaffoldView) -> nat {
    v.calls_in.len() + v.calls_out.len() + v.symbols.len() + match v.commits_touching {
        Some(c) => c.len(),
        None => 0,
    }
}

/// Each step makes the scaffold smaller; it keeps the start of each list, and every list that
/// held something still does.
pub proof fn lemma_module_trim(v: ModuleScaffoldView)
    ensures
        match module_trim(v) {
            Some(t) => {
                &&& module_weight(t) < module_weight(v)
                &&& t.path == v.path && t.language == v.language && t.file_role == v.file_role
                &&& t.imports == v.imports && t.imported_by == v.imported_by
                &&& t.symbols.is_prefix_of(v.symbols)
                &&& t.calls_out.is_prefix_of(v.calls_out)
                &&& t.calls_in.is_prefix_of(v.calls_in)
                &&& t.commits_touching is Some == v.commits_touching is Some
                &&& v.commits_touching is Some ==> t.commits_touching->0.is_prefix_of(
                    v.commits_touching->0,
                )
                &&& v.symbols.len() > 0 ==> t.symbols.len() > 0
                &&& v.calls_out.len() > 0 ==> t.calls_out.len() > 0
                &&& v.calls_in.len() > 0 ==> t.calls_in.len() > 0
            },
            None => true,
        },
{
    match module_trim(v) {
        Some(t) => {
            assert(t.symbols =~= v.symbols.subrange(0, t.symbols.len() as int));
            assert(t.calls_out =~= v.calls_out.subrange(0, t.calls_out.len() as int));
            assert(t.calls_in =~= v.calls_in.subrange(0, t.calls_in.len() as int));
            if v.commits_touching is Some {
                assert(t.commits_touching->0 =~= v.commits_touching->0.subrange(
                    0,
                    t.commits_touching->0.len() as int,
                ));
            }
        },
        None => {},
    }
}

/// Keeps the first `n` values, which are not more than there are.
fn keep_first<T: View>(v: &mut Vec<T>, n: usize)
    requires
        n <= old(v)@.len(),
    ensures
        views(final(v)@) == views(old(v)@).take(n as int),
{
    let ghost full = views(v@);
    v.truncate(n);
    proof {
        assert(views(v@) =~= full.take(n as int));
    }
}

/// Makes the scaffold of a file one step smaller, if that is possible.
pub fn trim_module(scaffold: &mut ModuleScaffold) -> (r: bool)
    ensures
        r == module_trim(old(scaffold)@) is Some,
        final(scaffold)@ == (match module_trim(old(scaffold)@) {
            Some(t) => t,
            None => old(scaffold)@,
        }),
{
    let commits: Option<Vec<CommitScaffold>> = scaffold.commits_touching.take();
    match commits {
        Some(mut c) => {
            if c.len() > 3 {
                let half: usize = c.len() / 2;
                let keep: usize = if half < 3 {
                    3
                } else {
                    half
                };
                keep_first(&mut c, keep);
                scaffold.commits_touching = Some(c);
                return true;
            }
            scaffold.commits_touching = Some(c);
        },
        None => {},
    }
    if scaffold.calls_in.len() > 5 {
        let half: usize = scaffold.calls_in.len() / 2;
        let keep: usize = if half < 5 {
            5
        } else {
            half
        };
        keep_first(&mut scaffold.calls_in, keep);
        return true;
    }
    if scaffold.calls_out.len() > 5 {
        let half: usize = scaffold.calls_out.len() / 2;
        let keep: usize = if half < 5 {
            5
        } else {
            half
        };
        keep_first(&mut scaffold.calls_out, keep);
        return true;
    }
    if scaffold.symbols.len() > 3 {
        let quarter: usize = scaffold.symbols.len() / 4;
        let rest: usize = scaffold.symbols.len() - if quarter < 1 {
            1
        } else {
            quarter
        };
        let keep: usize = if rest < 3 {
            3
        } else {
            rest
        };
        keep_first(&mut scaffold.symbols, keep);
        return true;
    }
    false
}

/// The bytes that a number of tokens stands for, four a token.
pub open spec fn bytes_for(budget_tokens: usize) -> int {
    if budget_tokens * 4 <= usize::MAX {
        budget_tokens * 4
    } else {
        usize::MAX as int
    }
}

/// A scaffold with this content has been measured and found too large.
pub open spec fn module_over<F: Fn(&ModuleScaffold) -> usize>(
    measure: F,
    v: ModuleScaffoldView,
    bytes: int,
) -> bool {
    exists|s: ModuleScaffold, n: usize|
        s@ == v && n > bytes && #[trigger] call_ensures(measure, (&s,), n)
}

/// Makes the scaffold of a file smaller, step by step, until its measured size is at most four
/// bytes for each token of the budget or no step is possible. A budget of 0 leaves it as it is.
pub fn apply_module_budget<F: Fn(&ModuleScaffold) -> usize>(
    scaffold: &mut ModuleScaffold,
    budget_tokens: usize,
    measure: F,
)
    requires
        forall|s: ModuleScaffold| #[trigger] call_requires(measure, (&s,)),
    ensures
        budget_tokens == 0 ==> *final(scaffold) == *old(scaffold),
        budget_tokens > 0 ==> exists|k: nat|
            {
                &&& final(scaffold)@ == #[trigger] module_trimmed(old(scaffold)@, k)
                &&& forall|j: nat|
                    j < k ==> module_over(
                        measure,
                        #[trigger] module_trimmed(old(scaffold)@, j),
                        bytes_for(budget_tokens),
                    )
                &&& {
                    ||| exists|n: usize|
                        n <= bytes_for(budget_tokens) && #[trigger] call_ensures(
                            measure,
                            (&*final(scaffold),),
                            n,
                        )
                    ||| module_over(measure, final(scaffold)@, bytes_for(budget_tokens))
                        && module_trim(final(scaffold)@) is None
                }
            },
{
    if budget_tokens == 0 {
        return ;
    }
    let bytes: usize = if budget_tokens <= usize::MAX / 4 {
        budget_tokens * 4
    } else {
        usize::MAX
    };
    let ghost start = scaffold@;
    let ghost mut k: nat = 0;
    loop
        invariant
            forall|s: ModuleScaffold| #[trigger] call_requires(measure, (&s,)),
            bytes == bytes_for(budget_tokens),
            start == old(scaffold)@,
            scaffold@ == module_trimmed(start, k),
            forall|j: nat|
                j < k ==> module_over(measure, #[trigger] module_trimmed(start, j), bytes as int),
            budget_tokens > 0,
        decreases module_weight(scaffold@),
    {
        let size: usize = measure(scaffold);
        if size <= bytes {
            return ;
        }
        let ghost before = *scaffold;
        proof {
            assert(module_over(measure, before@, bytes as int));
            lemma_module_trim(before@);
        }
        if !trim_module(scaffold) {
            return ;
        }
        proof {
            k = k + 1;
            assert(module_trimmed(start, (k - 1) as nat) == before@);
        }
    }
}

/// A god node of the overview.
#[derive(Debug, Clone)]
pub struct GodNodeScaffold {
    pub symbol: String,
    /// The bits of its centrality, a double-precision number.
    pub centrality_bits: u64,
    pub semantic_role: Option<String>,
    pub provenance: Provenance,
}

/// What a [`GodNodeScaffold`] holds.
pub struct GodNodeScaffoldView {
    pub symbol: Seq<char>,
    pub centrality_bits: u64,
    pub semantic_role: Option<Seq<char>>,
    pub provenance: ProvenanceView,
}

impl View for GodNodeScaffold {
    type V = GodNodeScaffoldView;

    open spec fn view(&self) -> GodNodeScaffoldView {
        GodNodeScaffoldView {
            symbol: self.symbol@,
            centrality_bits: self.centrality_bits,
            semantic_role: opt_text(self.semantic_role),
            provenance: self.provenance@,
        }
    }
}

/// An entry point of a community.
#[derive(Debug, Clone)]
pub struct EntryPointScaffold {
    pub symbol: String,
    pub provenance: Provenance,
}

/// What an [`EntryPointScaffold`] holds.
pub struct EntryPointScaffoldView {
    pub symbol: Seq<char>,
    pub provenance: ProvenanceView,
}

impl View for EntryPointScaffold {
    type V = EntryPointScaffoldView;

    open spec fn view(&self) -> EntryPointScaffoldView {
        EntryPointScaffoldView { symbol: self.symbol@, provenance: self.provenance@ }
    }
}

/// A community of the overview.
#[derive(Debug, Clone)]
pub struct CommunityScaffold {
    pub label: String,
    pub size: usize,
    pub member_files: Vec<String>,
    pub entry_points: Vec<EntryPointScaffold>,
}

/// What a [`CommunityScaffold`] holds.
pub struct CommunityScaffoldView {
    pub label: Seq<char>,
    pub size: nat,
    pub member_files: Seq<Seq<char>>,
    pub entry_points: Seq<EntryPointScaffoldView>,
}

impl View for CommunityScaffold {
    type V = CommunityScaffoldView;

    open spec fn view(&self) -> CommunityScaffoldView {
        CommunityScaffoldView {
            label: self.label@,
            size: self.size as nat,
            member_files: views(self.member_files@),
            entry_points: views(self.entry_points@),
        }
    }
}

/// A boundary of the overview.
#[derive(Debug, Clone)]
pub struct BoundaryScaffold {
    pub from: String,
    pub to: String,
    pub edge_count: u64,
}

impl View for BoundaryScaffold {
    type V = BoundaryView;

    open spec fn view(&self) -> BoundaryView {
        BoundaryView { from: self.from@, to: self.to@, edge_count: self.edge_count as nat }
    }
}

/// How many files and chunks of a language there are.
#[derive(Debug, Clone)]
pub struct LanguageStat {
    pub language: String,
    pub file_count: usize,
    pub chunk_count: usize,
}

/// What a [`LanguageStat`] holds.
pub struct LanguageStatView {
    pub language: Seq<char>,
    pub file_count: nat,
    pub chunk_count: nat,
}

impl View for LanguageStat {
    type V = LanguageStatView;

    open spec fn view(&self) -> LanguageStatView {
        LanguageStatView {
            language: self.language@,
            file_count: self.file_count as nat,
            chunk_count: self.chunk_count as nat,
        }
    }
}

impl Ranked for LanguageStat {
    /// More chunks first; on a level, by the name of the language.
    open spec fn before(a: LanguageStatView, b: LanguageStatView) -> bool {
        if a.chunk_count != b.chunk_count {
            a.chunk_count > b.chunk_count
        } else {
            text_before(a.language, b.language)
        }
    }

    fn goes_before(&self, other: &Self) -> (r: bool) {
        if self.chunk_count != other.chunk_count {
            self.chunk_count > other.chunk_count
        } else {
            comes_before(&self.language, &other.language)
        }
    }
}

/// One file of the inventory.
#[derive(Debug, Clone)]
pub struct ModuleInventoryEntry {
    pub path: String,
    pub language: Option<String>,
    pub file_role: Option<String>,
    pub symbol_count: usize,
}

/// What a [`ModuleInventoryEntry`] holds.
pub struct ModuleInventoryView {
    pub path: Seq<char>,
    pub language: Option<Seq<char>>,
    pub file_role: Option<Seq<char>>,
    pub symbol_count: nat,
}

impl View for ModuleInventoryEntry {
    type V = ModuleInventoryView;

    open spec fn view(&self) -> ModuleInventoryView {
        ModuleInventoryView {
            path: self.path@,
            language: opt_text(self.language),
            file_role: opt_text(self.file_role),
            symbol_count: self.symbol_count as nat,
        }
    }
}

impl Ranked for ModuleInventoryEntry {
    /// More symbols first; on a level, by the path.
    open spec fn before(a: ModuleInventoryView, b: ModuleInventoryView) -> bool {
        if a.symbol_count != b.symbol_count {
            a.symbol_count > b.symbol_count
        } else {
            text_before(a.path, b.path)
        }
    }

    fn goes_before(&self, other: &Self) -> (r: bool) {
        if self.symbol_count != other.symbol_count {
            self.symbol_count > other.symbol_count
        } else {
            comes_before(&self.path, &other.path)
        }
    }
}

/// Everything a writer needs to know of a repository.
#[derive(Debug, Clone)]
pub struct OverviewScaffold {
    pub total_files: u64,
    pub total_chunks: u64,
    pub god_nodes: Vec<GodNodeScaffold>,
    pub communities: Vec<CommunityScaffold>,
    pub boundaries: Vec<BoundaryScaffold>,
    /// Every file, those with the most symbols first.
    pub module_inventory: Vec<ModuleInventoryEntry>,
    pub language_stats: Vec<LanguageStat>,
    /// The most recent commits; absent if none are known.
    pub recent_changes: Option<Vec<CommitScaffold>>,
}

/// What an [`OverviewScaffold`] holds.
pub struct OverviewScaffoldView {
    pub total_files: u64,
    pub total_chunks: u64,
    pub god_nodes: Seq<GodNodeScaffoldView>,
    pub communities: Seq<CommunityScaffoldView>,
    pub boundaries: Seq<BoundaryView>,
    pub module_inventory: Seq<ModuleInventoryView>,
    pub language_stats: Seq<LanguageStatView>,
    pub recent_changes: Option<Seq<CommitScaffoldView>>,
}

impl View for OverviewScaffold {
    type V = OverviewScaffoldView;

    open spec fn view(&self) -> OverviewScaffoldView {
        OverviewScaffoldView {
            total_files: self.total_files,
            total_chunks: self.total_chunks,
            god_nodes: views(self.god_nodes@),
            communities: views(self.communities@),
            boundaries: views(self.boundaries@),
            module_inventory: views(self.module_inventory@),
            language_stats: views(self.language_stats@),
            recent_changes: opt_views(self.recent_changes),
        }
    }
}

/// A file of the index: its path, the name of its detected type and its role.
#[derive(Debug, Clone)]
pub struct FileFacts {
    pub path: String,
    pub type_label: String,
    pub file_role: Option<String>,
}

/// What a [`FileFacts`] holds.
pub struct FileFactsView {
    pub path: Seq<char>,
    pub type_label: Seq<char>,
    pub file_role: Option<Seq<char>>,
}

impl View for FileFacts {
    type V = FileFactsView;

    open spec fn view(&self) -> FileFactsView {
        FileFactsView {
            path: self.path@,
            type_label: self.type_label@,
            file_role: opt_text(self.file_role),
        }
    }
}

/// The number recorded for a path, by the last entry for it; 0 if there is none.
pub open spec fn count_of(counts: Seq<(Seq<char>, usize)>, path: Seq<char>) -> nat
    decreases counts.len(),
{
    if counts.len() == 0 {
        0
    } else if counts.last().0 == path {
        counts.last().1 as nat
    } else {
        count_of(counts.drop_last(), path)
    }
}

/// What a list of numbers by path holds.
pub open spec fn count_views(s: Seq<(String, usize)>) -> Seq<(Seq<char>, usize)> {
    Seq::new(s.len(), |i: int| (s[i].0@, s[i].1))
}

/// The number recorded for a path.
fn find_count(counts: &Vec<(String, usize)>, path: &str) -> (r: usize)
    ensures
        r == count_of(count_views(counts@), path@),
{
    let ghost all = count_views(counts@);
    let mut i: usize = counts.len();
    proof {
        assert(all.take(i as int) =~= all);
    }
    while i > 0
        invariant
            i <= counts@.len(),
            all == count_views(counts@),
            count_of(all, path@) == count_of(all.take(i as int), path@),
        decreases i,
    {
        proof {
            assert(all.take(i as int).drop_last() =~= all.take(i - 1));
        }
        if same_text(&counts[i - 1].0, path) {
            return counts[i - 1].1;
        }
        i = i - 1;
    }
    0
}

/// The name under which a file is counted: its language, or `unrecognized`.
pub open spec fn stat_key(type_label: Seq<char>) -> Seq<char> {
    match language_of(type_label) {
        Some(l) => l,
        None => "unrecognized"@,
    }
}

/// The counts `t` after one more file of `chunks` chunks under the name `key`.
pub open spec fn stat_bumped(t: Seq<LanguageStatView>, key: Seq<char>, chunks: nat) -> Seq<
    LanguageStatView,
>
    decreases t.len(),
{
    if t.len() == 0 {
        seq![LanguageStatView { language: key, file_count: 1, chunk_count: chunks }]
    } else if t[0].language == key {
        seq![
            LanguageStatView {
                language: key,
                file_count: t[0].file_count + 1,
                chunk_count: t[0].chunk_count + chunks,
            },
        ] + t.skip(1)
    } else {
        seq![t[0]] + stat_bumped(t.skip(1), key, chunks)
    }
}

/// How many files and chunks of each language there are, in the order in which they first occur.
pub open spec fn stats_of(files: Seq<FileFactsView>, counts: Seq<(Seq<char>, usize)>) -> Seq<
    LanguageStatView,
>
    decreases files.len(),
{
    if files.len() == 0 {
        Seq::empty()
    } else {
        stat_bumped(
            stats_of(files.drop_last(), counts),
            stat_key(files.last().type_label),
            count_of(counts, files.last().path),
        )
    }
}

/// How many chunks the files hold together.
pub open spec fn chunk_total(files: Seq<FileFactsView>, counts: Seq<(Seq<char>, usize)>) -> nat
    decreases files.len(),
{
    if files.len() == 0 {
        0
    } else {
        chunk_total(files.drop_last(), counts) + count_of(counts, files.last().path)
    }
}

/// The files and chunks counted in `t`, together.
pub open spec fn stat_total(t: Seq<LanguageStatView>) -> (nat, nat)
    decreases t.len(),
{
    if t.len() == 0 {
        (0, 0)
    } else {
        let (f, c) = stat_total(t.skip(1));
        (f + t[0].file_count, c + t[0].chunk_count)
    }
}

proof fn lemma_stat_bumped(t: Seq<LanguageStatView>, key: Seq<char>, chunks: nat)
    ensures
        stat_total(stat_bumped(t, key, chunks)).0 == stat_total(t).0 + 1,
        stat_total(stat_bumped(t, key, chunks)).1 == stat_total(t).1 + chunks,
    decreases t.len(),
{
    let r = stat_bumped(t, key, chunks);
    if t.len() == 0 {
        assert(r.skip(1) =~= Seq::<LanguageStatView>::empty());
        assert(stat_total(r.skip(1)) == (0nat, 0nat));
    } else if t[0].language == key {
        assert(r.skip(1) =~= t.skip(1));
    } else {
        lemma_stat_bumped(t.skip(1), key, chunks);
        assert(r.skip(1) =~= stat_bumped(t.skip(1), key, chunks));
    }
}

/// Every file and every chunk is counted under exactly one language.
pub proof fn lemma_stats_count_everything(
    files: Seq<FileFactsView>,
    counts: Seq<(Seq<char>, usize)>,
)
    ensures
        stat_total(stats_of(files, counts)) == (files.len(), chunk_total(files, counts)),
    decreases files.len(),
{
    if files.len() > 0 {
        lemma_stats_count_everything(files.drop_last(), counts);
        lemma_stat_bumped(
            stats_of(files.drop_last(), counts),
            stat_key(files.last().type_label),
            count_of(counts, files.last().path),
        );
    }
}

proof fn lemma_stat_total_bounds(t: Seq<LanguageStatView>, i: int)
    requires
        0 <= i < t.len(),
    ensures
        t[i].file_count <= stat_total(t).0,
        t[i].chunk_count <= stat_total(t).1,
    decreases t.len(),
{
    if i > 0 {
        lemma_stat_total_bounds(t.skip(1), i - 1);
        assert(t.skip(1)[i - 1] == t[i]);
    }
}

/// Counts one more file of `chunks` chunks under the name `key`.
fn bump_stat(t: &mut Vec<LanguageStat>, key: String, chunks: usize)
    requires
        forall|i: int|
            0 <= i < old(t)@.len() ==> (#[trigger] old(t)@[i]).file_count < usize::MAX
                && old(t)@[i].chunk_count + chunks <= usize::MAX,
    ensures
        views(final(t)@) == stat_bumped(views(old(t)@), key@, chunks as nat),
{
    let ghost s = views(t@);
    let mut i: usize = 0;
    proof {
        assert(s.skip(0) =~= s);
        assert(s.take(0) + stat_bumped(s, key@, chunks as nat) =~= stat_bumped(
            s,
            key@,
            chunks as nat,
        ));
    }
    while i < t.len()
        invariant
            i <= t@.len(),
            s == views(t@),
            t@ == old(t)@,
            forall|k: int|
                0 <= k < t@.len() ==> (#[trigger] t@[k]).file_count < usize::MAX
                    && t@[k].chunk_count + chunks <= usize::MAX,
            stat_bumped(s, key@, chunks as nat) == s.take(i as int) + stat_bumped(
                s.skip(i as int),
                key@,
                chunks as nat,
            ),
        decreases t@.len() - i,
    {
        let ghost rest = s.skip(i as int);
        proof {
            assert(rest[0] == t@[i as int]@);
            assert(rest.skip(1) =~= s.skip(i + 1));
        }
        if same_text(&t[i].language, &key) {
            let entry: LanguageStat = LanguageStat {
                language: key,
                file_count: t[i].file_count + 1,
                chunk_count: t[i].chunk_count + chunks,
            };
            let ghost ev = entry@;
            t.set(i, entry);
            proof {
                assert(views(t@) =~= s.take(i as int) + (seq![ev] + rest.skip(1)));
            }
            return ;
        }
        proof {
            assert(s.take(i as int) + (seq![rest[0]] + stat_bumped(
                rest.skip(1),
                key@,
                chunks as nat,
            )) =~= s.take(i + 1) + stat_bumped(s.skip(i + 1), key@, chunks as nat));
        }
        i = i + 1;
    }
    let entry: LanguageStat = LanguageStat { language: key, file_count: 1, chunk_count: chunks };
    let ghost ev = entry@;
    t.push(entry);
    proof {
        assert(s.skip(i as int) =~= Seq::<LanguageStatView>::empty());
        assert(views(t@) =~= s.take(i as int) + seq![ev]);
    }
}

/// What the index holds about a repository.
#[derive(Debug, Clone)]
pub struct OverviewFacts {
    pub total_files: u64,
    pub total_chunks: u64,
    pub arch: ArchFacts,
    pub files: Vec<FileFacts>,
    /// How many chunks each file has.
    pub chunk_counts: Vec<(String, usize)>,
    /// How many symbols each file defines.
    pub symbol_counts: Vec<(String, usize)>,
    /// The most recent commits, if a history has been gathered.
    pub commits: Option<Vec<CommitInfo>>,
}

/// The entry of a file in the inventory.
pub open spec fn inventory_entry(
    f: FileFactsView,
    counts: Seq<(Seq<char>, usize)>,
) -> ModuleInventoryView {
    ModuleInventoryView {
        path: f.path,
        language: language_of(f.type_label),
        file_role: f.file_role,
        symbol_count: count_of(counts, f.path),
    }
}

/// The files with their symbols counted, in their order.
pub open spec fn inventory_of(
    files: Seq<FileFactsView>,
    counts: Seq<(Seq<char>, usize)>,
) -> Seq<ModuleInventoryView> {
    Seq::new(files.len(), |i: int| inventory_entry(files[i], counts))
}

/// The files with their symbols counted.
fn list_inventory(f: &OverviewFacts) -> (r: Vec<ModuleInventoryEntry>)
    ensures
        views(r@) == inventory_of(views(f.files@), count_views(f.symbol_counts@)),
{
    let ghost all = inventory_of(views(f.files@), count_views(f.symbol_counts@));
    let mut r: Vec<ModuleInventoryEntry> = Vec::new();
    let mut i: usize = 0;
    while i < f.files.len()
        invariant
            i <= f.files@.len(),
            all == inventory_of(views(f.files@), count_views(f.symbol_counts@)),
            r@.len() == i,
            forall|k: int| 0 <= k < i ==> (#[trigger] r@[k])@ == all[k],
        decreases f.files@.len() - i,
    {
        let file: &FileFacts = &f.files[i];
        r.push(
            ModuleInventoryEntry {
                path: file.path.clone(),
                language: language_label(&file.type_label),
                file_role: copy_opt(&file.file_role),
                symbol_count: find_count(&f.symbol_counts, &file.path),
            },
        );
        i = i + 1;
    }
    proof {
        assert(views(r@) =~= all);
    }
    r
}

/// How many files and chunks of each language there are.
fn list_stats(f: &OverviewFacts) -> (r: Vec<LanguageStat>)
    requires
        chunk_total(views(f.files@), count_views(f.chunk_counts@)) <= usize::MAX,
    ensures
        views(r@) == stats_of(views(f.files@), count_views(f.chunk_counts@)),
{
    let ghost all = views(f.files@);
    let ghost counts = count_views(f.chunk_counts@);
    let mut r: Vec<LanguageStat> = Vec::new();
    let mut i: usize = 0;
    proof {
        assert(views(r@) =~= Seq::<LanguageStatView>::empty());
    }
    while i < f.files.len()
        invariant
            i <= f.files@.len(),
            f.files@.len() == f.files.len(),
            all == views(f.files@),
            counts == count_views(f.chunk_counts@),
            chunk_total(all, counts) <= usize::MAX,
            views(r@) == stats_of(all.take(i as int), counts),
        decreases f.files@.len() - i,
    {
        let file: &FileFacts = &f.files[i];
        let chunks: usize = find_count(&f.chunk_counts, &file.path);
        let key: String = match language_label(&file.type_label) {
            Some(l) => l,
            None => "unrecognized".to_owned(),
        };
        let ghost done = all.take(i as int);
        proof {
            assert(all.take(i + 1).drop_last() =~= done);
            assert(all.take(i + 1).last() == file@);
            lemma_stats_count_everything(done, counts);
            lemma_chunk_total_grows(all, counts, i + 1);
            assert forall|k: int| 0 <= k < r@.len() implies (#[trigger] r@[k]).file_count
                < usize::MAX && r@[k].chunk_count + chunks <= usize::MAX by {
                lemma_stat_total_bounds(stats_of(done, counts), k);
                assert(views(r@)[k] == r@[k]@);
            }
        }
        bump_stat(&mut r, key, chunks);
        i = i + 1;
    }
    proof {
        assert(all.take(i as int) =~= all);
    }
    r
}

proof fn lemma_chunk_total_grows(
    files: Seq<FileFactsView>,
    counts: Seq<(Seq<char>, usize)>,
    i: int,
)
    requires
        0 <= i <= files.len(),
    ensures
        chunk_total(files.take(i), counts) <= chunk_total(files, counts),
    decreases files.len(),
{
    if i == files.len() {
        assert(files.take(i) =~= files);
    } else {
        lemma_chunk_total_grows(files.drop_last(), counts, i);
        assert(files.drop_last().take(i) =~= files.take(i));
    }
}

/// The budget for the architecture in the overview: below 500 chunks god nodes only.
pub open spec fn overview_budget(total_chunks: u64) -> ArchBudget {
    if total_chunks < ARCH_TINY_REPO_THRESHOLD {
        ArchBudget {
            god_nodes: 5,
            communities: 0,
            boundaries: 0,
            deep_examples_max: 0,
            exhaustive_max: 0,
        }
    } else {
        budget_for(total_chunks as usize as nat)
    }
}

/// The budget for the architecture in the overview.
pub fn budget_for_overview(total_chunks: u64) -> (b: ArchBudget)
    ensures
        b == overview_budget(total_chunks),
{
    if total_chunks < ARCH_TINY_REPO_THRESHOLD {
        ArchBudget {
            god_nodes: 5,
            communities: 0,
            boundaries: 0,
            deep_examples_max: 0,
            exhaustive_max: 0,
        }
    } else {
        budget_for_chunk_count(total_chunks as usize)
    }
}

/// A god node as the overview shows it, named by the symbol of its chunk where that has one.
pub open spec fn god_shown(g: GodNodeView, chunks: Seq<ChunkView>) -> GodNodeScaffoldView {
    GodNodeScaffoldView {
        symbol: match chunk_with_id(chunks, g.chunk_id) {
            Some(c) => match c.symbol {
                Some(name) => name,
                None => g.symbol,
            },
            None => g.symbol,
        },
        centrality_bits: g.centrality_bits,
        semantic_role: g.semantic_role,
        provenance: ProvenanceView {
            file: g.file,
            start_line: g.start_line,
            end_line: g.end_line,
        },
    }
}

/// A community as the overview shows it.
pub open spec fn community_shown(c: CommunityView) -> CommunityScaffoldView {
    CommunityScaffoldView {
        label: c.label,
        size: c.size,
        member_files: c.member_files,
        entry_points: Seq::new(
            c.entry_points.len(),
            |i: int|
                EntryPointScaffoldView {
                    symbol: c.entry_points[i].symbol,
                    provenance: ProvenanceView {
                        file: c.entry_points[i].file,
                        start_line: c.entry_points[i].start_line,
                        end_line: c.entry_points[i].end_line,
                    },
                },
        ),
    }
}

/// A god node as the overview shows it.
fn show_god(g: &GodNode, chunks: &Vec<Chunk>) -> (r: GodNodeScaffold)
    ensures
        r@ == god_shown(g@, views(chunks@)),
{
    let symbol: String = match find_chunk(chunks, g.chunk_id) {
        Some(p) => match chunks[p].symbol_name() {
            Some(name) => name,
            None => g.symbol.clone(),
        },
        None => g.symbol.clone(),
    };
    GodNodeScaffold {
        symbol,
        centrality_bits: g.centrality_bits,
        semantic_role: copy_opt(&g.semantic_role),
        provenance: Provenance {
            file: g.file.clone(),
            start_line: g.start_line,
            end_line: g.end_line,
        },
    }
}

/// A community as the overview shows it.
fn show_community(c: &Community) -> (r: CommunityScaffold)
    ensures
        r@ == community_shown(c@),
{
    let mut entries: Vec<EntryPointScaffold> = Vec::new();
    let mut i: usize = 0;
    while i < c.entry_points.len()
        invariant
            i <= c.entry_points@.len(),
            entries@.len() == i,
            forall|k: int|
                0 <= k < i ==> (#[trigger] entries@[k])@ == community_shown(c@).entry_points[k],
        decreases c.entry_points@.len() - i,
    {
        let e: &EntryPoint = &c.entry_points[i];
        entries.push(
            EntryPointScaffold {
                symbol: e.symbol.clone(),
                provenance: Provenance {
                    file: e.file.clone(),
                    start_line: e.start_line,
                    end_line: e.end_line,
                },
            },
        );
        i = i + 1;
    }
    proof {
        assert(views(entries@) =~= community_shown(c@).entry_points);
    }
    CommunityScaffold {
        label: c.label.clone(),
        size: c.size,
        member_files: copy_texts(&c.member_files),
        entry_points: entries,
    }
}

/// The scaffold of a repository at the time `now`.
pub open spec fn overview_scaffold_of(f: OverviewFacts, now: int) -> OverviewScaffoldView {
    let b = overview_budget(f.total_chunks);
    let a = f.arch;
    let chunks = views(a.chunks@);
    let gods = god_nodes_of(top_of(a.top@, b.god_nodes as nat), chunks, views(a.roles@));
    let found = largest_components(a.seeds@, a.call_out@, a.call_in@, b.communities as nat);
    let files = views(f.files@);
    OverviewScaffoldView {
        total_files: f.total_files,
        total_chunks: f.total_chunks,
        god_nodes: Seq::new(gods.len(), |i: int| god_shown(gods[i], chunks)),
        communities: Seq::new(
            found.len(),
            |i: int| community_shown(community_of(i, found[i], a.seeds@, chunks)),
        ),
        boundaries: top_of(ranked::<Boundary>(tally(views(a.module_edges@))), b.boundaries as nat),
        module_inventory: ranked::<ModuleInventoryEntry>(
            inventory_of(files, count_views(f.symbol_counts@)),
        ),
        language_stats: ranked::<LanguageStat>(stats_of(files, count_views(f.chunk_counts@))),
        recent_changes: shown_commits(opt_views(f.commits), RECENT_CHANGES_LIMIT as nat, now),
    }
}

/// The scaffold of a repository, from what the index holds about it, at the time `now`.
pub fn build_overview_scaffold(facts: &OverviewFacts, now: i64) -> (r: OverviewScaffold)
    requires
        chunk_total(views(facts.files@), count_views(facts.chunk_counts@)) <= usize::MAX,
    ensures
        r@ == overview_scaffold_of(*facts, now as int),
        r.recent_changes matches Some(c) ==> 0 < c@.len() <= RECENT_CHANGES_LIMIT,
{
    let budget: ArchBudget = budget_for_overview(facts.total_chunks);
    let o: ArchOverview = build_arch_overview(&facts.arch, Some(budget));
    let ghost expected = overview_scaffold_of(*facts, now as int);
    let mut god_nodes: Vec<GodNodeScaffold> = Vec::new();
    let mut i: usize = 0;
    while i < o.god_nodes.len()
        invariant
            i <= o.god_nodes@.len(),
            god_nodes@.len() == i,
            forall|k: int|
                0 <= k < i ==> (#[trigger] god_nodes@[k])@ == god_shown(
                    views(o.god_nodes@)[k],
                    views(facts.arch.chunks@),
                ),
        decreases o.god_nodes@.len() - i,
    {
        god_nodes.push(show_god(&o.god_nodes[i], &facts.arch.chunks));
        i = i + 1;
    }
    let mut communities: Vec<CommunityScaffold> = Vec::new();
    let mut j: usize = 0;
    while j < o.communities.len()
        invariant
            j <= o.communities@.len(),
            communities@.len() == j,
            forall|k: int|
                0 <= k < j ==> (#[trigger] communities@[k])@ == community_shown(
                    o.communities@[k]@,
                ),
        decreases o.communities@.len() - j,
    {
        communities.push(show_community(&o.communities[j]));
        j = j + 1;
    }
    let mut boundaries: Vec<BoundaryScaffold> = Vec::new();
    let mut k: usize = 0;
    while k < o.boundaries.len()
        invariant
            k <= o.boundaries@.len(),
            boundaries@.len() == k,
            forall|n: int| 0 <= n < k ==> (#[trigger] boundaries@[n])@ == o.boundaries@[n]@,
        decreases o.boundaries@.len() - k,
    {
        let b: &Boundary = &o.boundaries[k];
        boundaries.push(
            BoundaryScaffold { from: b.from.clone(), to: b.to.clone(), edge_count: b.edge_count },
        );
        k = k + 1;
    }
    proof {
        assert(views(god_nodes@) =~= expected.god_nodes);
        assert(views(communities@) =~= expected.communities) by {
            assert forall|n: int| 0 <= n < communities@.len() implies views(communities@)[n]
                == expected.communities[n] by {
                assert(communities@[n]@ == community_shown(o.communities@[n]@));
            }
        }
        assert(views(boundaries@) =~= views(o.boundaries@));
    }
    OverviewScaffold {
        total_files: facts.total_files,
        total_chunks: facts.total_chunks,
        god_nodes,
        communities,
        boundaries,
        module_inventory: sorted(list_inventory(facts)),
        language_stats: sorted(list_stats(facts)),
        recent_changes: show_commits(&facts.commits, RECENT_CHANGES_LIMIT, now),
    }
}

/// The scaffold of a repository made one step smaller: of its commits, its inventory and its
/// boundaries one half is kept, of its communities all but the last, the first of these lists
/// that is long enough; `None` if none is.
pub open spec fn overview_trim(v: OverviewScaffoldView) -> Option<OverviewScaffoldView> {
    if v.recent_changes is Some && v.recent_changes->0.len() > 3 {
        let c = v.recent_changes->0;
        Some(
            OverviewScaffoldView {
                recent_changes: Some(c.take(at_least(c.len() as int / 2, 3))),
                ..v
            },
        )
    } else if v.module_inventory.len() > 20 {
        Some(
            OverviewScaffoldView {
                module_inventory: v.module_inventory.take(
                    at_least(v.module_inventory.len() as int / 2, 20),
                ),
                ..v
            },
        )
    } else if v.boundaries.len() > 5 {
        Some(
            OverviewScaffoldView {
                boundaries: v.boundaries.take(at_least(v.boundaries.len() as int / 2, 5)),
                ..v
            },
        )
    } else if v.communities.len() > 1 {
        Some(
            OverviewScaffoldView {
                communities: v.communities.take(v.communities.len() - 1),
                ..v
            },
        )
    } else {
        None
    }
}

/// The scaffold of a repository after `k` steps; it stays as it is once no step is possible.
pub open spec fn overview_trimmed(v: OverviewScaffoldView, k: nat) -> OverviewScaffoldView
    decreases k,
{
    if k == 0 {
        v
    } else {
        let p = overview_trimmed(v, (k - 1) as nat);
        match overview_trim(p) {
            Some(t) => t,
            None => p,
        }
    }
}

/// How many entries the lists hold that can be made shorter.
pub open spec fn overview_weight(v: OverviewScaffoldView) -> nat {
    v.module_inventory.len() + v.boundaries.len() + v.communities.len() + match v.recent_changes {
        Some(c) => c.len(),
        None => 0,
    }
}

/// Each step makes the scaffold smaller; it keeps the start of each list, and every list that
/// held something still does.
pub proof fn lemma_overview_trim(v: OverviewScaffoldView)
    ensures
        match overview_trim(v) {
            Some(t) => {
                &&& overview_weight(t) < overview_weight(v)
                &&& t.total_files == v.total_files && t.total_chunks == v.total_chunks
                &&& t.god_nodes == v.god_nodes && t.language_stats == v.language_stats
                &&& t.module_inventory.is_prefix_of(v.module_inventory)
                &&& t.boundaries.is_prefix_of(v.boundaries)
                &&& t.communities.is_prefix_of(v.communities)
                &&& t.recent_changes is Some == v.recent_changes is Some
                &&& v.recent_changes is Some ==> t.recent_changes->0.is_prefix_of(
                    v.recent_changes->0,
                )
                &&& v.module_inventory.len() > 0 ==> t.module_inventory.len() > 0
                &&& v.boundaries.len() > 0 ==> t.boundaries.len() > 0
                &&& v.communities.len() > 0 ==> t.communities.len() > 0
            },
            None => true,
        },
{
    match overview_trim(v) {
        Some(t) => {
            assert(t.module_inventory =~= v.module_inventory.subrange(
                0,
                t.module_inventory.len() as int,
            ));
            assert(t.boundaries =~= v.boundaries.subrange(0, t.boundaries.len() as int));
            assert(t.communities =~= v.communities.subrange(0, t.communities.len() as int));
            if v.recent_changes is Some {
                assert(t.recent_changes->0 =~= v.recent_changes->0.subrange(
                    0,
                    t.recent_changes->0.len() as int,
                ));
            }
        },
        None => {},
    }
}

/// Makes the scaffold of a repository one step smaller, if that is possible.
pub fn trim_overview(scaffold: &mut OverviewScaffold) -> (r: bool)
    ensures
        r == overview_trim(old(scaffold)@) is Some,
        final(scaffold)@ == (match overview_trim(old(scaffold)@) {
            Some(t) => t,
            None => old(scaffold)@,
        }),
{
    let changes: Option<Vec<CommitScaffold>> = scaffold.recent_changes.take();
    match changes {
        Some(mut c) => {
            if c.len() > 3 {
                let half: usize = c.len() / 2;
                let keep: usize = if half < 3 {
                    3
                } else {
                    half
                };
                keep_first(&mut c, keep);
                scaffold.recent_changes = Some(c);
                return true;
            }
            scaffold.recent_changes = Some(c);
        },
        None => {},
    }
    if scaffold.module_inventory.len() > 20 {
        let half: usize = scaffold.module_inventory.len() / 2;
        let keep: usize = if half < 20 {
            20
        } else {
            half
        };
        keep_first(&mut scaffold.module_inventory, keep);
        return true;
    }
    if scaffold.boundaries.len() > 5 {
        let half: usize = scaffold.boundaries.len() / 2;
        let keep: usize = if half < 5 {
            5
        } else {
            half
        };
        keep_first(&mut scaffold.boundaries, keep);
        return true;
    }
    if scaffold.communities.len() > 1 {
        let keep: usize = scaffold.communities.len() - 1;
        keep_first(&mut scaffold.communities, keep);
        return true;
    }
    false
}

/// A scaffold with this content has been measured and found too large.
pub open spec fn overview_over<F: Fn(&OverviewScaffold) -> usize>(
    measure: F,
    v: OverviewScaffoldView,
    bytes: int,
) -> bool {
    exists|s: OverviewScaffold, n: usize|
        s@ == v && n > bytes && #[trigger] call_ensures(measure, (&s,), n)
}

/// Makes the scaffold of a repository smaller, step by step, until its measured size is at most
/// four bytes for each token of the budget or no step is possible. A budget of 0 leaves it as it
/// is.
pub fn apply_overview_budget<F: Fn(&OverviewScaffold) -> usize>(
    scaffold: &mut OverviewScaffold,
    budget_tokens: usize,
    measure: F,
)
    requires
        forall|s: OverviewScaffold| #[trigger] call_requires(measure, (&s,)),
    ensures
        budget_tokens == 0 ==> *final(scaffold) == *old(scaffold),
        budget_tokens > 0 ==> exists|k: nat|
            {
                &&& final(scaffold)@ == #[trigger] overview_trimmed(old(scaffold)@, k)
                &&& forall|j: nat|
                    j < k ==> overview_over(
                        measure,
                        #[trigger] overview_trimmed(old(scaffold)@, j),
                        bytes_for(budget_tokens),
                    )
                &&& {
                    ||| exists|n: usize|
                        n <= bytes_for(budget_tokens) && #[trigger] call_ensures(
                            measure,
                            (&*final(scaffold),),
                            n,
                        )
                    ||| overview_over(measure, final(scaffold)@, bytes_for(budget_tokens))
                        && overview_trim(final(scaffold)@) is None
                }
            },
{
    if budget_tokens == 0 {
        return ;
    }
    let bytes: usize = if budget_tokens <= usize::MAX / 4 {
        budget_tokens * 4
    } else {
        usize::MAX
    };
    let ghost start = scaffold@;
    let ghost mut k: nat = 0;
    loop
        invariant
            forall|s: OverviewScaffold| #[trigger] call_requires(measure, (&s,)),
            bytes == bytes_for(budget_tokens),
            start == old(scaffold)@,
            scaffold@ == overview_trimmed(start, k),
            forall|j: nat|
                j < k ==> overview_over(
                    measure,
                    #[trigger] overview_trimmed(start, j),
                    bytes as int,
                ),
            budget_tokens > 0,
        decreases overview_weight(scaffold@),
    {
        let size: usize = measure(scaffold);
        if size <= bytes {
            return ;
        }
        let ghost before = *scaffold;
        proof {
            assert(overview_over(measure, before@, bytes as int));
            lemma_overview_trim(before@);
        }
        if !trim_overview(scaffold) {
            return ;
        }
        proof {
            k = k + 1;
            assert(overview_trimmed(start, (k - 1) as nat) == before@);
        }
    }
}

/// The metadata of a chunk is that of the last entry under its id, so that of the only one where
/// there is only one; without an entry it is empty.
pub proof fn lemma_meta_lookup(metas: Seq<(u64, SymbolMetaView)>, id: u64)
    ensures
        forall|i: int|
            0 <= i < metas.len() && (#[trigger] metas[i]).0 == id && (forall|j: int|
                i < j < metas.len() ==> (#[trigger] metas[j]).0 != id) ==> meta_of(metas, id)
                == metas[i].1,
        (forall|i: int| 0 <= i < metas.len() ==> (#[trigger] metas[i]).0 != id) ==> meta_of(
            metas,
            id,
        ) == no_meta(),
    decreases metas.len(),
{
    if metas.len() > 0 {
        let front = metas.drop_last();
        let n = metas.len() - 1;
        lemma_meta_lookup(front, id);
        assert(metas[n] == metas.last());
        assert forall|i: int|
            0 <= i < metas.len() && (#[trigger] metas[i]).0 == id && (forall|j: int|
                i < j < metas.len() ==> (#[trigger] metas[j]).0 != id) implies meta_of(metas, id)
            == metas[i].1 by {
            if i < n {
                assert(metas[n].0 != id);
                assert(front[i] == metas[i]);
                assert forall|j: int| i < j < front.len() implies (#[trigger] front[j]).0 != id by {
                    assert(front[j] == metas[j]);
                }
            }
        }
        if forall|i: int| 0 <= i < metas.len() ==> (#[trigger] metas[i]).0 != id {
            assert(metas[n].0 != id);
            assert forall|j: int| 0 <= j < front.len() implies (#[trigger] front[j]).0 != id by {
                assert(front[j] == metas[j]);
            }
        }
    }
}

/// The metadata of a chunk that has none: no name, signature or type, and no list holds anything.
pub proof fn lemma_no_meta()
    ensures
        no_meta().qualified_name is None,
        no_meta().signature is None,
        no_meta().return_type is None,
        no_meta().docstring is None,
        no_meta().parent_class is None,
        no_meta().semantic_role is None,
        no_meta().params.len() == 0,
        no_meta().doc_tags.len() == 0,
        no_meta().calls.len() == 0,
        no_meta().called_by.len() == 0,
{
}

proof fn lemma_symbols_listed(
    rows: Seq<(u64, Seq<char>, Seq<char>)>,
    chunks: Seq<ChunkView>,
    metas: Seq<(u64, SymbolMetaView)>,
    known: spec_fn((u64, Seq<char>, Seq<char>)) -> bool,
)
    requires
        forall|r: (u64, Seq<char>, Seq<char>)| #[trigger]
            known(r) == (chunk_with_id(chunks, r.0) is Some),
    ensures
        ({
            let found = rows.filter(known);
            let s = symbols_of(rows, chunks, metas);
            &&& s.len() == found.len()
            &&& forall|k: int|
                0 <= k < s.len() ==> {
                    &&& (#[trigger] s[k]).name == found[k].1
                    &&& s[k].kind == found[k].2
                    &&& s[k].meta == meta_of(metas, found[k].0)
                    &&& chunk_with_id(chunks, found[k].0) is Some
                    &&& s[k].provenance == place_of(chunk_with_id(chunks, found[k].0)->0)
                }
        }),
    decreases rows.len(),
{
    reveal(Seq::filter);
    if rows.len() > 0 {
        lemma_symbols_listed(rows.drop_last(), chunks, metas, known);
        assert(known(rows.last()) == (chunk_with_id(chunks, rows.last().0) is Some));
    }
}

/// The symbols of a file: one for each row whose chunk can be read, in the order of the rows, with
/// the name and kind of the row, the place of that chunk, and exactly the metadata under its id.
pub proof fn lemma_symbols_of_rows(
    rows: Seq<(u64, Seq<char>, Seq<char>)>,
    chunks: Seq<ChunkView>,
    metas: Seq<(u64, SymbolMetaView)>,
)
    ensures
        ({
            let found = rows.filter(
                |r: (u64, Seq<char>, Seq<char>)|
                    exists|j: int| 0 <= j < chunks.len() && (#[trigger] chunks[j]).id == r.0,
            );
            let s = symbols_of(rows, chunks, metas);
            &&& s.len() == found.len()
            &&& forall|k: int|
                0 <= k < s.len() ==> (#[trigger] s[k]).name == found[k].1 && s[k].kind
                    == found[k].2
            &&& forall|k: int, i: int|
                0 <= k < s.len() && 0 <= i < metas.len() && (#[trigger] metas[i]).0 == found[k].0
                    && (forall|j: int|
                    i < j < metas.len() ==> (#[trigger] metas[j]).0 != found[k].0) ==> (
                #[trigger] s[k]).meta == metas[i].1
            &&& forall|k: int|
                0 <= k < s.len() && (forall|j: int|
                    0 <= j < metas.len() ==> (#[trigger] metas[j]).0 != found[k].0) ==> (
                #[trigger] s[k]).meta == no_meta()
            &&& forall|k: int, i: int|
                0 <= k < s.len() && 0 <= i < chunks.len() && (#[trigger] chunks[i]).id
                    == found[k].0 && (forall|j: int|
                    i < j < chunks.len() ==> (#[trigger] chunks[j]).id != found[k].0) ==> {
                    &&& (#[trigger] s[k]).provenance.file == chunks[i].file_path
                    &&& s[k].provenance.start_line == chunks[i].start_line
                    &&& s[k].provenance.end_line == chunks[i].end_line
                }
        }),
{
    let known = |r: (u64, Seq<char>, Seq<char>)|
        exists|j: int| 0 <= j < chunks.len() && (#[trigger] chunks[j]).id == r.0;
    assert forall|r: (u64, Seq<char>, Seq<char>)| #[trigger]
        known(r) == (chunk_with_id(chunks, r.0) is Some) by {
        lemma_chunk_lookup(chunks, r.0);
    }
    lemma_symbols_listed(rows, chunks, metas, known);
    let found = rows.filter(known);
    let s = symbols_of(rows, chunks, metas);
    assert forall|k: int, i: int|
        0 <= k < s.len() && 0 <= i < metas.len() && (#[trigger] metas[i]).0 == found[k].0 && (
        forall|j: int| i < j < metas.len() ==> (#[trigger] metas[j]).0 != found[k].0) implies (
    #[trigger] s[k]).meta == metas[i].1 by {
        lemma_meta_lookup(metas, found[k].0);
    }
    assert forall|k: int|
        0 <= k < s.len() && (forall|j: int|
            0 <= j < metas.len() ==> (#[trigger] metas[j]).0 != found[k].0) implies (
    #[trigger] s[k]).meta == no_meta() by {
        lemma_meta_lookup(metas, found[k].0);
    }
    assert forall|k: int, i: int|
        0 <= k < s.len() && 0 <= i < chunks.len() && (#[trigger] chunks[i]).id == found[k].0 && (
        forall|j: int| i < j < chunks.len() ==> (#[trigger] chunks[j]).id != found[k].0) implies {
        &&& (#[trigger] s[k]).provenance.file == chunks[i].file_path
        &&& s[k].provenance.start_line == chunks[i].start_line
        &&& s[k].provenance.end_line == chunks[i].end_line
    } by {
        lemma_chunk_lookup(chunks, found[k].0);
    }
}

/// The scaffold of a file holds every one of its symbols as often as it is listed, by line; symbols
/// that start on the same line keep their order. What it says of the file itself is what is known
/// of it.
pub proof fn lemma_module_symbols(f: ModuleFacts, now: int)
    ensures
        ({
            let m = module_scaffold_of(f, now);
            let listed = symbols_of(views(f.symbol_rows@), views(f.chunks@), views(f.metas@));
            &&& m.symbols.to_multiset() == listed.to_multiset()
            &&& forall|i: int, j: int|
                0 <= i < j < m.symbols.len() ==> (#[trigger] m.symbols[i]).provenance.start_line
                    <= (#[trigger] m.symbols[j]).provenance.start_line
            &&& forall|line: u32|
                m.symbols.filter(
                    #[trigger] on_line(line),
                ) == listed.filter(on_line(line))
            &&& m.path == f.path@
            &&& m.file_role == opt_text(f.file_role)
            &&& m.imports == views(f.imports@)
            &&& m.imported_by == views(f.imported_by@)
        }),
{
    let m = module_scaffold_of(f, now);
    let listed = symbols_of(views(f.symbol_rows@), views(f.chunks@), views(f.metas@));
    assert(is_weak_order::<SymbolScaffold>());
    lemma_ranked_multiset::<SymbolScaffold>(listed);
    lemma_ranked_in_order::<SymbolScaffold>(listed);
    assert forall|i: int, j: int| 0 <= i < j < m.symbols.len() implies (
    #[trigger] m.symbols[i]).provenance.start_line <= (
    #[trigger] m.symbols[j]).provenance.start_line by {
        assert(!SymbolScaffold::before(m.symbols[j], m.symbols[i]));
    }
    assert forall|line: u32| m.symbols.filter(#[trigger] on_line(line)) == listed.filter(
        on_line(line),
    ) by {
        let x = SymbolScaffoldView {
            name: Seq::empty(),
            kind: Seq::empty(),
            meta: no_meta(),
            provenance: ProvenanceView { file: Seq::empty(), start_line: line, end_line: line },
        };
        lemma_ranked_stable::<SymbolScaffold>(listed, x);
        assert(on_line(line) =~= |v: SymbolScaffoldView|
            !SymbolScaffold::before(v, x) && !SymbolScaffold::before(x, v));
    }
}

/// A symbol starts on this line.
pub open spec fn on_line(line: u32) -> spec_fn(SymbolScaffoldView) -> bool {
    |v: SymbolScaffoldView| v.provenance.start_line == line
}

proof fn lemma_callers_listed(callers: Seq<u64>, chunks: Seq<ChunkView>)
    ensures
        forall|e: CallEdgeInView| #[trigger]
            calls_in_of(callers, chunks).contains(e) <==> exists|i: int|
                0 <= i < callers.len() && {
                    let c = chunk_with_id(chunks, #[trigger] callers[i]);
                    c is Some && e.caller_symbol == c->0.symbol && e.provenance == place_of(c->0)
                },
    decreases callers.len(),
{
    let s = calls_in_of(callers, chunks);
    if callers.len() > 0 {
        let front = callers.drop_last();
        let t = calls_in_of(front, chunks);
        lemma_callers_listed(front, chunks);
        assert forall|e: CallEdgeInView| #[trigger] s.contains(e) <==> exists|i: int|
            0 <= i < callers.len() && {
                let c = chunk_with_id(chunks, #[trigger] callers[i]);
                c is Some && e.caller_symbol == c->0.symbol && e.provenance == place_of(c->0)
            } by {
            let n = callers.len() - 1;
            if s.contains(e) {
                let k = choose|k: int| 0 <= k < s.len() && s[k] == e;
                if k < t.len() {
                    assert(t[k] == e);
                    assert(t.contains(e));
                    let i = choose|i: int|
                        0 <= i < front.len() && {
                            let c = chunk_with_id(chunks, #[trigger] front[i]);
                            c is Some && e.caller_symbol == c->0.symbol && e.provenance == place_of(
                                c->0,
                            )
                        };
                    assert(callers[i] == front[i]);
                } else {
                    assert(callers[n] == callers.last());
                }
            }
            if exists|i: int|
                0 <= i < callers.len() && {
                    let c = chunk_with_id(chunks, #[trigger] callers[i]);
                    c is Some && e.caller_symbol == c->0.symbol && e.provenance == place_of(c->0)
                } {
                let i = choose|i: int|
                    0 <= i < callers.len() && {
                        let c = chunk_with_id(chunks, #[trigger] callers[i]);
                        c is Some && e.caller_symbol == c->0.symbol && e.provenance == place_of(
                            c->0,
                        )
                    };
                if i < n {
                    assert(front[i] == callers[i]);
                    assert(t.contains(e));
                    let k = choose|k: int| 0 <= k < t.len() && t[k] == e;
                    assert(s[k] == e);
                } else {
                    assert(s[t.len() as int] == e);
                }
            }
        }
    }
}

/// Who calls into a file: each caller whose chunk can be read stands there with the place of that
/// chunk, and nothing else stands there.
pub proof fn lemma_module_callers(f: ModuleFacts, now: int)
    ensures
        ({
            let m = module_scaffold_of(f, now);
            let callers = f.caller_ids@;
            let chunks = views(f.chunks@);
            &&& forall|i: int, j: int|
                0 <= i < callers.len() && 0 <= j < chunks.len() && (#[trigger] chunks[j]).id
                    == #[trigger] callers[i] && (forall|l: int|
                    j < l < chunks.len() ==> (#[trigger] chunks[l]).id != callers[i])
                    ==> exists|k: int|
                    0 <= k < m.calls_in.len() && {
                        let p = (#[trigger] m.calls_in[k]).provenance;
                        p.file == chunks[j].file_path && p.start_line == chunks[j].start_line
                            && p.end_line == chunks[j].end_line
                    }
            &&& forall|k: int|
                0 <= k < m.calls_in.len() ==> exists|j: int|
                    0 <= j < chunks.len() && callers.contains((#[trigger] chunks[j]).id) && {
                        let e = #[trigger] m.calls_in[k];
                        e.caller_symbol == chunks[j].symbol && e.provenance.file
                            == chunks[j].file_path && e.provenance.start_line
                            == chunks[j].start_line && e.provenance.end_line == chunks[j].end_line
                    }
        }),
{
    let m = module_scaffold_of(f, now);
    let callers = f.caller_ids@;
    let chunks = views(f.chunks@);
    let listed = calls_in_of(callers, chunks);
    let sorted_calls = ranked::<CallEdgeIn>(listed);
    lemma_callers_listed(callers, chunks);
    lemma_merged_keeps::<CallEdgeIn>(sorted_calls);
    lemma_merged_distinct::<CallEdgeIn>(sorted_calls);
    assert forall|i: int, j: int|
        0 <= i < callers.len() && 0 <= j < chunks.len() && (#[trigger] chunks[j]).id
            == #[trigger] callers[i] && (forall|l: int|
            j < l < chunks.len() ==> (#[trigger] chunks[l]).id != callers[i]) implies exists|k: int|
        0 <= k < m.calls_in.len() && {
            let p = (#[trigger] m.calls_in[k]).provenance;
            p.file == chunks[j].file_path && p.start_line == chunks[j].start_line && p.end_line
                == chunks[j].end_line
        } by {
        lemma_chunk_lookup(chunks, callers[i]);
        let e = CallEdgeInView {
            caller_symbol: chunks[j].symbol,
            provenance: place_of(chunks[j]),
        };
        assert(listed.contains(e));
        lemma_ranked_contains::<CallEdgeIn>(listed, e);
        assert(sorted_calls.contains(e));
        let y = if m.calls_in.contains(e) {
            e
        } else {
            choose|y: CallEdgeInView| #[trigger] m.calls_in.contains(y) && CallEdgeIn::same(y, e)
        };
        let k = choose|k: int| 0 <= k < m.calls_in.len() && m.calls_in[k] == y;
        assert(m.calls_in[k].provenance == place_of(chunks[j]));
    }
    assert forall|k: int| 0 <= k < m.calls_in.len() implies exists|j: int|
        0 <= j < chunks.len() && callers.contains((#[trigger] chunks[j]).id) && {
            let e = #[trigger] m.calls_in[k];
            e.caller_symbol == chunks[j].symbol && e.provenance.file == chunks[j].file_path
                && e.provenance.start_line == chunks[j].start_line && e.provenance.end_line
                == chunks[j].end_line
        } by {
        let e = m.calls_in[k];
        assert(m.calls_in.contains(e));
        assert(sorted_calls.contains(e));
        lemma_ranked_contains::<CallEdgeIn>(listed, e);
        assert(listed.contains(e));
        let i = choose|i: int|
            0 <= i < callers.len() && {
                let c = chunk_with_id(chunks, #[trigger] callers[i]);
                c is Some && e.caller_symbol == c->0.symbol && e.provenance == place_of(c->0)
            };
        lemma_chunk_lookup(chunks, callers[i]);
        let c = chunk_with_id(chunks, callers[i])->0;
        let j = choose|j: int| 0 <= j < chunks.len() && chunks[j] == c;
        assert(callers.contains(chunks[j].id));
    }
}

/// What a file calls: every call stands there once under the name that is called, with the place of
/// the chunk that it was resolved to, if that can be read; and nothing else stands there.
pub proof fn lemma_module_calls(f: ModuleFacts, now: int)
    ensures
        ({
            let m = module_scaffold_of(f, now);
            let edges = f.out_edges@;
            let chunks = views(f.chunks@);
            &&& forall|i: int|
                0 <= i < edges.len() ==> exists|k: int|
                    0 <= k < m.calls_out.len() && (#[trigger] m.calls_out[k]).callee_name == (
                    #[trigger] edges[i]).0@ && leads_to(m.calls_out[k].resolved, edges[i].1, chunks)
            &&& forall|k: int|
                0 <= k < m.calls_out.len() ==> exists|i: int|
                    0 <= i < edges.len() && (#[trigger] m.calls_out[k]).callee_name == (
                    #[trigger] edges[i]).0@ && leads_to(m.calls_out[k].resolved, edges[i].1, chunks)
            &&& forall|k: int|
                0 <= k < m.calls_out.len() - 1 ==> #[trigger] m.calls_out[k] != m.calls_out[k + 1]
        }),
{
    let m = module_scaffold_of(f, now);
    let edges = f.out_edges@;
    let chunks = views(f.chunks@);
    let listed = calls_out_of(out_edge_views(edges), chunks);
    let sorted_calls = ranked::<CallEdgeOut>(listed);
    lemma_merged_keeps::<CallEdgeOut>(sorted_calls);
    lemma_merged_distinct::<CallEdgeOut>(sorted_calls);
    assert forall|i: int| 0 <= i < edges.len() implies exists|k: int|
        0 <= k < m.calls_out.len() && (#[trigger] m.calls_out[k]).callee_name == (
        #[trigger] edges[i]).0@ && leads_to(m.calls_out[k].resolved, edges[i].1, chunks) by {
        let e = listed[i];
        assert(listed.contains(e));
        lemma_ranked_contains::<CallEdgeOut>(listed, e);
        assert(sorted_calls.contains(e));
        assert(m.calls_out.contains(e));
        let k = choose|k: int| 0 <= k < m.calls_out.len() && m.calls_out[k] == e;
        if edges[i].1 is Some {
            lemma_chunk_lookup(chunks, edges[i].1->0);
        }
        assert(m.calls_out[k].callee_name == edges[i].0@);
    }
    assert forall|k: int| 0 <= k < m.calls_out.len() implies exists|i: int|
        0 <= i < edges.len() && (#[trigger] m.calls_out[k]).callee_name == (
        #[trigger] edges[i]).0@ && leads_to(m.calls_out[k].resolved, edges[i].1, chunks) by {
        let e = m.calls_out[k];
        assert(m.calls_out.contains(e));
        assert(sorted_calls.contains(e));
        lemma_ranked_contains::<CallEdgeOut>(listed, e);
        let i = choose|i: int| 0 <= i < listed.len() && listed[i] == e;
        if edges[i].1 is Some {
            lemma_chunk_lookup(chunks, edges[i].1->0);
        }
        assert(e.callee_name == edges[i].0@);
    }
}

/// The place that a call leads to: that of the chunk with the id it was resolved to; none if it was
/// not resolved or there is no such chunk.
pub open spec fn leads_to(
    place: Option<ProvenanceView>,
    id: Option<u64>,
    chunks: Seq<ChunkView>,
) -> bool {
    match place {
        Some(p) => exists|j: int|
            0 <= j < chunks.len() && id == Some((#[trigger] chunks[j]).id) && p.file
                == chunks[j].file_path && p.start_line == chunks[j].start_line && p.end_line
                == chunks[j].end_line,
        None => id is None || forall|j: int|
            0 <= j < chunks.len() ==> id != Some((#[trigger] chunks[j]).id),
    }
}

/// The count for a path is that of the last entry for it, so that of the only one where there is
/// only one; without an entry it is zero.
pub proof fn lemma_count_lookup(counts: Seq<(Seq<char>, usize)>, path: Seq<char>)
    ensures
        forall|i: int|
            0 <= i < counts.len() && (#[trigger] counts[i]).0 == path && (forall|j: int|
                i < j < counts.len() ==> (#[trigger] counts[j]).0 != path) ==> count_of(
                counts,
                path,
            ) == counts[i].1,
        (forall|i: int| 0 <= i < counts.len() ==> (#[trigger] counts[i]).0 != path) ==> count_of(
            counts,
            path,
        ) == 0,
    decreases counts.len(),
{
    if counts.len() > 0 {
        let front = counts.drop_last();
        let n = counts.len() - 1;
        lemma_count_lookup(front, path);
        assert(counts[n] == counts.last());
        assert forall|i: int|
            0 <= i < counts.len() && (#[trigger] counts[i]).0 == path && (forall|j: int|
                i < j < counts.len() ==> (#[trigger] counts[j]).0 != path) implies count_of(
            counts,
            path,
        ) == counts[i].1 by {
            if i < n {
                assert(counts[n].0 != path);
                assert(front[i] == counts[i]);
                assert forall|j: int| i < j < front.len() implies (#[trigger] front[j]).0
                    != path by {
                    assert(front[j] == counts[j]);
                }
            }
        }
        if forall|i: int| 0 <= i < counts.len() ==> (#[trigger] counts[i]).0 != path {
            assert(counts[n].0 != path);
            assert forall|j: int| 0 <= j < front.len() implies (#[trigger] front[j]).0 != path by {
                assert(front[j] == counts[j]);
            }
        }
    }
}

proof fn lemma_bumped_place(t: Seq<LanguageStatView>, key: Seq<char>, chunks: nat)
    ensures
        (forall|i: int| 0 <= i < t.len() ==> (#[trigger] t[i]).language != key) ==> stat_bumped(
            t,
            key,
            chunks,
        ) == t.push(LanguageStatView { language: key, file_count: 1, chunk_count: chunks }),
        forall|i: int|
            0 <= i < t.len() && (#[trigger] t[i]).language == key && (forall|j: int|
                0 <= j < i ==> (#[trigger] t[j]).language != key) ==> stat_bumped(t, key, chunks)
                == t.update(
                i,
                LanguageStatView {
                    language: key,
                    file_count: t[i].file_count + 1,
                    chunk_count: t[i].chunk_count + chunks,
                },
            ),
    decreases t.len(),
{
    let r = stat_bumped(t, key, chunks);
    if t.len() > 0 {
        let rest = t.skip(1);
        lemma_bumped_place(rest, key, chunks);
        if forall|i: int| 0 <= i < t.len() ==> (#[trigger] t[i]).language != key {
            assert(t[0].language != key);
            assert forall|j: int| 0 <= j < rest.len() implies (#[trigger] rest[j]).language
                != key by {
                assert(rest[j] == t[j + 1]);
            }
        }
        assert forall|i: int|
            0 <= i < t.len() && (#[trigger] t[i]).language == key && (forall|j: int|
                0 <= j < i ==> (#[trigger] t[j]).language != key) implies r == t.update(
            i,
            LanguageStatView {
                language: key,
                file_count: t[i].file_count + 1,
                chunk_count: t[i].chunk_count + chunks,
            },
        ) by {
            if i > 0 {
                assert(t[0].language != key);
                assert(rest[i - 1] == t[i]);
                assert forall|j: int| 0 <= j < i - 1 implies (#[trigger] rest[j]).language
                    != key by {
                    assert(rest[j] == t[j + 1]);
                }
            }
            assert(r =~= t.update(
                i,
                LanguageStatView {
                    language: key,
                    file_count: t[i].file_count + 1,
                    chunk_count: t[i].chunk_count + chunks,
                },
            ));
        }
    }
    if forall|i: int| 0 <= i < t.len() ==> (#[trigger] t[i]).language != key {
        assert(r =~= t.push(
            LanguageStatView { language: key, file_count: 1, chunk_count: chunks },
        ));
    }
}

proof fn lemma_stats_by_language(
    files: Seq<FileFactsView>,
    counts: Seq<(Seq<char>, usize)>,
    language: Seq<char>,
    p: spec_fn(FileFactsView) -> bool,
)
    requires
        forall|f: FileFactsView| #[trigger] p(f) == (stat_key(f.type_label) == language),
    ensures
        ({
            let t = stats_of(files, counts);
            let of = files.filter(p);
            &&& forall|i: int, j: int|
                0 <= i < j < t.len() ==> (#[trigger] t[i]).language != (#[trigger] t[j]).language
            &&& forall|i: int|
                0 <= i < t.len() && (#[trigger] t[i]).language == language ==> t[i].file_count
                    == of.len() && t[i].chunk_count == chunk_total(of, counts)
            &&& of.len() > 0 <==> exists|i: int|
                0 <= i < t.len() && (#[trigger] t[i]).language == language
        }),
    decreases files.len(),
{
    reveal(Seq::filter);
    if files.len() > 0 {
        let front = files.drop_last();
        let last = files.last();
        lemma_stats_by_language(front, counts, language, p);
        let t = stats_of(front, counts);
        let key = stat_key(last.type_label);
        let n = count_of(counts, last.path);
        let r = stats_of(files, counts);
        lemma_bumped_place(t, key, n);
        assert(p(last) == (key == language));
        let of = front.filter(p);
        if p(last) {
            assert(files.filter(p) == of.push(last));
            assert(of.push(last).drop_last() =~= of);
            assert(chunk_total(of.push(last), counts) == chunk_total(of, counts) + n);
        } else {
            assert(files.filter(p) == of);
        }
        if forall|i: int| 0 <= i < t.len() ==> (#[trigger] t[i]).language != key {
            assert(r == t.push(
                LanguageStatView { language: key, file_count: 1, chunk_count: n },
            ));
            if key == language {
                assert(of.len() == 0);
                assert(chunk_total(of, counts) == 0);
                assert(r[t.len() as int].language == language);
            } else if of.len() > 0 {
                let i = choose|i: int| 0 <= i < t.len() && (#[trigger] t[i]).language == language;
                assert(r[i] == t[i]);
            }
            if exists|i: int| 0 <= i < r.len() && (#[trigger] r[i]).language == language {
                let i = choose|i: int| 0 <= i < r.len() && (#[trigger] r[i]).language == language;
                if i < t.len() {
                    assert(t[i].language == language);
                }
            }
        } else {
            let i = choose|i: int| 0 <= i < t.len() && (#[trigger] t[i]).language == key;
            assert(forall|j: int| 0 <= j < i ==> (#[trigger] t[j]).language != key);
            assert(r == t.update(
                i,
                LanguageStatView {
                    language: key,
                    file_count: t[i].file_count + 1,
                    chunk_count: t[i].chunk_count + n,
                },
            ));
            assert forall|k: int| 0 <= k < r.len() implies (#[trigger] r[k]).language
                == t[k].language by {}
            if key == language {
                assert(r[i].language == language);
            } else if of.len() > 0 {
                let k = choose|k: int| 0 <= k < t.len() && (#[trigger] t[k]).language == language;
                assert(r[k].language == language);
            }
            if exists|k: int| 0 <= k < r.len() && (#[trigger] r[k]).language == language {
                let k = choose|k: int| 0 <= k < r.len() && (#[trigger] r[k]).language == language;
                assert(t[k].language == language);
            }
        }
    }
}

/// A language has a line of its own in the statistics exactly if some file is in it, and only one;
/// that line counts the files that are in it and the chunks of those files. Files of no known
/// language are counted as unrecognized.
pub proof fn lemma_language_line(
    files: Seq<FileFactsView>,
    counts: Seq<(Seq<char>, usize)>,
    language: Seq<char>,
)
    ensures
        ({
            let t = ranked::<LanguageStat>(stats_of(files, counts));
            let of = files.filter(
                |f: FileFactsView|
                    if f.type_label == "Unknown"@ {
                        language == "unrecognized"@
                    } else {
                        language == ascii_lower(f.type_label)
                    },
            );
            &&& of.len() > 0 <==> exists|i: int|
                0 <= i < t.len() && (#[trigger] t[i]).language == language
            &&& forall|i: int|
                0 <= i < t.len() && (#[trigger] t[i]).language == language ==> t[i].file_count
                    == of.len() && t[i].chunk_count == chunk_total(of, counts)
            &&& t.len() == stats_of(files, counts).len()
            &&& forall|i: int, j: int|
                0 <= i < j < t.len() ==> (#[trigger] t[i]).chunk_count >= (
                #[trigger] t[j]).chunk_count
        }),
{
    let p = |f: FileFactsView|
        if f.type_label == "Unknown"@ {
            language == "unrecognized"@
        } else {
            language == ascii_lower(f.type_label)
        };
    let s = stats_of(files, counts);
    let t = ranked::<LanguageStat>(s);
    lemma_stats_by_language(files, counts, language, p);
    lemma_ranked_multiset::<LanguageStat>(s);
    assert forall|i: int| 0 <= i < t.len() implies s.contains(#[trigger] t[i]) by {
        lemma_ranked_contains::<LanguageStat>(s, t[i]);
        assert(t.contains(t[i]));
    }
    assert forall|i: int|
        0 <= i < t.len() && (#[trigger] t[i]).language == language implies t[i].file_count
        == files.filter(p).len() && t[i].chunk_count == chunk_total(files.filter(p), counts) by {
        let k = choose|k: int| 0 <= k < s.len() && s[k] == t[i];
        assert(s[k].language == language);
    }
    if files.filter(p).len() > 0 {
        let k = choose|k: int| 0 <= k < s.len() && (#[trigger] s[k]).language == language;
        lemma_ranked_contains::<LanguageStat>(s, s[k]);
        let i = choose|i: int| 0 <= i < t.len() && t[i] == s[k];
        assert(t[i].language == language);
    }
    if exists|i: int| 0 <= i < t.len() && (#[trigger] t[i]).language == language {
        let i = choose|i: int| 0 <= i < t.len() && (#[trigger] t[i]).language == language;
        let k = choose|k: int| 0 <= k < s.len() && s[k] == t[i];
        assert(s[k].language == language);
    }
    lemma_stats_in_order();
    lemma_ranked_in_order::<LanguageStat>(s);
    assert forall|i: int, j: int| 0 <= i < j < t.len() implies (#[trigger] t[i]).chunk_count >= (
    #[trigger] t[j]).chunk_count by {
        assert(!LanguageStat::before(t[j], t[i]));
    }
}

proof fn lemma_stats_in_order()
    ensures
        is_weak_order::<LanguageStat>(),
        is_weak_order::<ModuleInventoryEntry>(),
{
    assert forall|a: Seq<char>, b: Seq<char>| #[trigger] text_before(a, b) implies !text_before(
        b,
        a,
    ) by {
        lemma_before_irreflexive(a);
        lemma_before_total(a, b);
    }
    assert forall|a: Seq<char>, b: Seq<char>, c: Seq<char>|
        !(#[trigger] text_before(a, b)) && !(#[trigger] text_before(b, c)) implies !text_before(
        a,
        c,
    ) by {
        if text_before(a, c) {
            lemma_before_total(a, b);
            lemma_before_total(b, c);
            if a != b {
                lemma_before_transitive(b, a, c);
            }
        }
    }
}

/// The inventory lists every file once, with its own path, role and language and with the number of
/// symbols recorded for its path; files with more symbols come first.
pub proof fn lemma_inventory(f: OverviewFacts, now: int)
    ensures
        ({
            let inv = overview_scaffold_of(f, now).module_inventory;
            let files = views(f.files@);
            let counts = count_views(f.symbol_counts@);
            &&& inv.len() == files.len()
            &&& forall|i: int|
                0 <= i < files.len() ==> exists|k: int|
                    0 <= k < inv.len() && (#[trigger] inv[k]).path == (#[trigger] files[i]).path
                        && inv[k].file_role == files[i].file_role && inv[k].language == language_of(
                        files[i].type_label,
                    ) && inv[k].symbol_count == count_of(counts, files[i].path)
            &&& forall|i: int, j: int|
                0 <= i < j < inv.len() ==> (#[trigger] inv[i]).symbol_count >= (
                #[trigger] inv[j]).symbol_count
        }),
{
    let inv = overview_scaffold_of(f, now).module_inventory;
    let files = views(f.files@);
    let counts = count_views(f.symbol_counts@);
    let s = inventory_of(files, counts);
    lemma_ranked_multiset::<ModuleInventoryEntry>(s);
    lemma_stats_in_order();
    lemma_ranked_in_order::<ModuleInventoryEntry>(s);
    assert forall|i: int| 0 <= i < files.len() implies exists|k: int|
        0 <= k < inv.len() && (#[trigger] inv[k]).path == (#[trigger] files[i]).path
            && inv[k].file_role == files[i].file_role && inv[k].language == language_of(
            files[i].type_label,
        ) && inv[k].symbol_count == count_of(counts, files[i].path) by {
        assert(s.contains(s[i]));
        lemma_ranked_contains::<ModuleInventoryEntry>(s, s[i]);
        let k = choose|k: int| 0 <= k < inv.len() && inv[k] == s[i];
        assert(inv[k].path == files[i].path);
    }
    assert forall|i: int, j: int| 0 <= i < j < inv.len() implies (#[trigger] inv[i]).symbol_count
        >= (#[trigger] inv[j]).symbol_count by {
        assert(!ModuleInventoryEntry::before(inv[j], inv[i]));
    }
}

/// The commits that are shown are the first ones of those given, at most as many as the limit, each
/// with its own hash, author and subject; nothing is shown if there are none.
pub proof fn lemma_shown_commits(commits: Option<Seq<CommitInfoView>>, limit: nat, now: int)
    ensures
        ({
            let r = shown_commits(commits, limit, now);
            &&& r is None <==> commits is None || commits->0.len() == 0
            &&& r is Some ==> {
                &&& r->0.len() <= limit && r->0.len() <= commits->0.len()
                &&& r->0.len() == limit || r->0.len() == commits->0.len()
                &&& forall|i: int|
                    0 <= i < r->0.len() ==> {
                        &&& (#[trigger] r->0[i]).hash == commits->0[i].hash
                        &&& r->0[i].author == commits->0[i].author
                        &&& r->0[i].subject == commits->0[i].subject
                        &&& r->0[i].age == age_text(
                            if now >= commits->0[i].ts {
                                (now - commits->0[i].ts) as nat
                            } else {
                                0
                            },
                        )
                    }
            }
        }),
{
}

/// A step cuts one list only: the commits while there are more than three, then the callers while
/// there are more than five, then the calls while there are more than five, then the symbols while
/// there are more than three. It halves the first three, as far as their least length allows, and
/// takes a quarter of the symbols, but at least one. There is no step left exactly if no list is
/// longer than that.
pub proof fn lemma_module_trim_order(v: ModuleScaffoldView)
    ensures
        ({
            let commits = match v.commits_touching {
                Some(c) => c.len() as int,
                None => 0,
            };
            let ins = v.calls_in.len() as int;
            let outs = v.calls_out.len() as int;
            let syms = v.symbols.len() as int;
            match module_trim(v) {
                None => commits <= 3 && ins <= 5 && outs <= 5 && syms <= 3,
                Some(t) => {
                    let left = match t.commits_touching {
                        Some(c) => c.len() as int,
                        None => 0,
                    };
                    &&& commits > 3 || ins > 5 || outs > 5 || syms > 3
                    &&& t.path == v.path && t.language == v.language && t.file_role == v.file_role
                    &&& t.imports == v.imports && t.imported_by == v.imported_by
                    &&& if commits > 3 {
                        &&& left == commits / 2 || (left == 3 && commits < 8)
                        &&& left >= 3
                    } else {
                        t.commits_touching == v.commits_touching
                    }
                    &&& if commits <= 3 && ins > 5 {
                        &&& t.calls_in.len() == ins / 2 || (t.calls_in.len() == 5 && ins < 12)
                        &&& t.calls_in.len() >= 5
                    } else {
                        t.calls_in == v.calls_in
                    }
                    &&& if commits <= 3 && ins <= 5 && outs > 5 {
                        &&& t.calls_out.len() == outs / 2 || (t.calls_out.len() == 5 && outs < 12)
                        &&& t.calls_out.len() >= 5
                    } else {
                        t.calls_out == v.calls_out
                    }
                    &&& if commits <= 3 && ins <= 5 && outs <= 5 {
                        t.symbols.len() == syms - syms / 4
                    } else {
                        t.symbols == v.symbols
                    }
                },
            }
        }),
{
}

/// A step cuts one list only: the commits while there are more than three, then the inventory while
/// it has more than twenty files, then the boundaries while there are more than five, then the
/// communities while there is more than one. It halves the first three, as far as their least
/// length allows, and takes off one community. There is no step left exactly if no list is longer
/// than that.
pub proof fn lemma_overview_trim_order(v: OverviewScaffoldView)
    ensures
        ({
            let commits = match v.recent_changes {
                Some(c) => c.len() as int,
                None => 0,
            };
            let files = v.module_inventory.len() as int;
            let bounds = v.boundaries.len() as int;
            let comms = v.communities.len() as int;
            match overview_trim(v) {
                None => commits <= 3 && files <= 20 && bounds <= 5 && comms <= 1,
                Some(t) => {
                    let left = match t.recent_changes {
                        Some(c) => c.len() as int,
                        None => 0,
                    };
                    &&& commits > 3 || files > 20 || bounds > 5 || comms > 1
                    &&& t.total_files == v.total_files && t.total_chunks == v.total_chunks
                    &&& t.god_nodes == v.god_nodes && t.language_stats == v.language_stats
                    &&& if commits > 3 {
                        &&& left == commits / 2 || (left == 3 && commits < 8)
                        &&& left >= 3
                    } else {
                        t.recent_changes == v.recent_changes
                    }
                    &&& if commits <= 3 && files > 20 {
                        &&& t.module_inventory.len() == files / 2 || (t.module_inventory.len() == 20
                            && files < 42)
                        &&& t.module_inventory.len() >= 20
                    } else {
                        t.module_inventory == v.module_inventory
                    }
                    &&& if commits <= 3 && files <= 20 && bounds > 5 {
                        &&& t.boundaries.len() == bounds / 2 || (t.boundaries.len() == 5 && bounds
                            < 12)
                        &&& t.boundaries.len() >= 5
                    } else {
                        t.boundaries == v.boundaries
                    }
                    &&& if commits <= 3 && files <= 20 && bounds <= 5 {
                        t.communities.len() == comms - 1
                    } else {
                        t.communities == v.communities
                    }
                },
            }
        }),
{
}

/// What the overview says of the whole repository is what is known of it.
pub proof fn lemma_overview_totals(f: OverviewFacts, now: int)
    ensures
        overview_scaffold_of(f, now).total_files == f.total_files,
        overview_scaffold_of(f, now).total_chunks == f.total_chunks,
{
}

/// A central symbol is shown under the name of its chunk where that can be read and has one, else
/// under its own, and always with its own weight, role and place.
pub proof fn lemma_god_shown(g: GodNodeView, chunks: Seq<ChunkView>)
    ensures
        ({
            let s = god_shown(g, chunks);
            &&& s.centrality_bits == g.centrality_bits && s.semantic_role == g.semantic_role
            &&& s.provenance.file == g.file && s.provenance.start_line == g.start_line
                && s.provenance.end_line == g.end_line
            &&& forall|i: int|
                0 <= i < chunks.len() && (#[trigger] chunks[i]).id == g.chunk_id && (forall|j: int|
                    i < j < chunks.len() ==> (#[trigger] chunks[j]).id != g.chunk_id)
                    && chunks[i].symbol is Some ==> s.symbol == chunks[i].symbol->0
            &&& (forall|i: int|
                0 <= i < chunks.len() && (#[trigger] chunks[i]).id == g.chunk_id
                    ==> chunks[i].symbol is None) ==> s.symbol == g.symbol
        }),
{
    lemma_chunk_lookup(chunks, g.chunk_id);
}

/// A community is shown with its own label, size, files and entry points.
pub proof fn lemma_community_shown(c: CommunityView)
    ensures
        ({
            let s = community_shown(c);
            &&& s.label == c.label && s.size == c.size && s.member_files == c.member_files
            &&& s.entry_points.len() == c.entry_points.len()
            &&& forall|i: int|
                0 <= i < c.entry_points.len() ==> {
                    let e = #[trigger] s.entry_points[i];
                    &&& e.symbol == c.entry_points[i].symbol
                    &&& e.provenance.file == c.entry_points[i].file
                    &&& e.provenance.start_line == c.entry_points[i].start_line
                    &&& e.provenance.end_line == c.entry_points[i].end_line
                }
        }),
{
}

proof fn lemma_text_weak(a: Seq<char>, b: Seq<char>, c: Seq<char>)
    ensures
        text_before(a, b) ==> !text_before(b, a),
        !text_before(a, b) && !text_before(b, c) ==> !text_before(a, c),
        !text_before(a, b) && !text_before(b, a) ==> a == b,
        a != b && !text_before(a, b) && !text_before(b, c) ==> text_before(c, a),
{
    lemma_before_total(a, b);
    lemma_before_total(b, c);
    lemma_before_total(a, c);
    lemma_before_irreflexive(a);
    if a != b && !text_before(a, b) && !text_before(b, c) {
        if b != c {
            lemma_before_transitive(c, b, a);
        }
    }
}

proof fn lemma_place_weak(a: ProvenanceView, b: ProvenanceView, c: ProvenanceView)
    ensures
        a.precedes(b) ==> !b.precedes(a),
        !a.precedes(b) && !b.precedes(c) ==> !a.precedes(c),
{
    lemma_text_weak(a.file, b.file, c.file);
    lemma_text_weak(b.file, a.file, c.file);
    lemma_text_weak(b.file, c.file, a.file);
}

proof fn lemma_call_orders()
    ensures
        is_weak_order::<CallEdgeOut>(),
        is_weak_order::<CallEdgeIn>(),
{
    assert forall|a: CallEdgeOutView, b: CallEdgeOutView| #[trigger]
        CallEdgeOut::before(a, b) implies !CallEdgeOut::before(b, a) by {
        lemma_text_weak(a.callee_name, b.callee_name, a.callee_name);
        if a.resolved is Some && b.resolved is Some {
            lemma_place_weak(a.resolved->0, b.resolved->0, a.resolved->0);
        }
    }
    assert forall|a: CallEdgeOutView, b: CallEdgeOutView, c: CallEdgeOutView|
        !(#[trigger] CallEdgeOut::before(a, b)) && !(#[trigger] CallEdgeOut::before(
            b,
            c,
        )) implies !CallEdgeOut::before(a, c) by {
        lemma_text_weak(a.callee_name, b.callee_name, c.callee_name);
        lemma_text_weak(b.callee_name, a.callee_name, c.callee_name);
        lemma_text_weak(b.callee_name, c.callee_name, a.callee_name);
        if a.resolved is Some && b.resolved is Some && c.resolved is Some {
            lemma_place_weak(a.resolved->0, b.resolved->0, c.resolved->0);
        }
    }
    assert forall|a: CallEdgeInView, b: CallEdgeInView| #[trigger]
        CallEdgeIn::before(a, b) implies !CallEdgeIn::before(b, a) by {
        lemma_text_weak(a.provenance.file, b.provenance.file, a.provenance.file);
    }
    assert forall|a: CallEdgeInView, b: CallEdgeInView, c: CallEdgeInView|
        !(#[trigger] CallEdgeIn::before(a, b)) && !(#[trigger] CallEdgeIn::before(b, c)) implies
        !CallEdgeIn::before(a, c) by {
        lemma_text_weak(a.provenance.file, b.provenance.file, c.provenance.file);
        lemma_text_weak(b.provenance.file, a.provenance.file, c.provenance.file);
        lemma_text_weak(b.provenance.file, c.provenance.file, a.provenance.file);
    }
}

/// What a file calls is listed by name; of calls of the same name those that were not resolved come
/// first, then by the place that they lead to. Who calls into it is listed by file and line.
pub proof fn lemma_calls_listed_in_order(f: ModuleFacts, now: int)
    ensures
        ({
            let m = module_scaffold_of(f, now);
            &&& forall|i: int, j: int|
                0 <= i < j < m.calls_out.len() ==> (#[trigger] m.calls_out[i]).callee_name == (
                #[trigger] m.calls_out[j]).callee_name || text_before(
                    m.calls_out[i].callee_name,
                    m.calls_out[j].callee_name,
                )
            &&& forall|i: int, j: int|
                0 <= i < j < m.calls_out.len() && (#[trigger] m.calls_out[i]).callee_name == (
                #[trigger] m.calls_out[j]).callee_name && m.calls_out[j].resolved is None
                    ==> m.calls_out[i].resolved is None
            &&& forall|i: int, j: int|
                0 <= i < j < m.calls_out.len() && (#[trigger] m.calls_out[i]).callee_name == (
                #[trigger] m.calls_out[j]).callee_name && m.calls_out[i].resolved is Some
                    && m.calls_out[j].resolved is Some ==> {
                    let p = m.calls_out[i].resolved->0;
                    let q = m.calls_out[j].resolved->0;
                    text_before(p.file, q.file) || (p.file == q.file && (p.start_line
                        < q.start_line || (p.start_line == q.start_line && p.end_line
                        <= q.end_line)))
                }
            &&& forall|i: int, j: int|
                0 <= i < j < m.calls_in.len() ==> {
                    let p = (#[trigger] m.calls_in[i]).provenance;
                    let q = (#[trigger] m.calls_in[j]).provenance;
                    text_before(p.file, q.file) || (p.file == q.file && p.start_line
                        <= q.start_line)
                }
        }),
{
    let m = module_scaffold_of(f, now);
    let chunks = views(f.chunks@);
    let outs = calls_out_of(out_edge_views(f.out_edges@), chunks);
    let ins = calls_in_of(f.caller_ids@, chunks);
    lemma_call_orders();
    lemma_ranked_in_order::<CallEdgeOut>(outs);
    lemma_merged_in_order::<CallEdgeOut>(ranked::<CallEdgeOut>(outs));
    lemma_ranked_in_order::<CallEdgeIn>(ins);
    lemma_merged_in_order::<CallEdgeIn>(ranked::<CallEdgeIn>(ins));
    assert forall|i: int, j: int| 0 <= i < j < m.calls_out.len() implies (
    #[trigger] m.calls_out[i]).callee_name == (#[trigger] m.calls_out[j]).callee_name || text_before(
        m.calls_out[i].callee_name,
        m.calls_out[j].callee_name,
    ) by {
        assert(!CallEdgeOut::before(m.calls_out[j], m.calls_out[i]));
        lemma_before_total(m.calls_out[i].callee_name, m.calls_out[j].callee_name);
    }
    assert forall|i: int, j: int|
        0 <= i < j < m.calls_out.len() && (#[trigger] m.calls_out[i]).callee_name == (
        #[trigger] m.calls_out[j]).callee_name && m.calls_out[j].resolved is None implies
        m.calls_out[i].resolved is None by {
        assert(!CallEdgeOut::before(m.calls_out[j], m.calls_out[i]));
    }
    assert forall|i: int, j: int|
        0 <= i < j < m.calls_out.len() && (#[trigger] m.calls_out[i]).callee_name == (
        #[trigger] m.calls_out[j]).callee_name && m.calls_out[i].resolved is Some
            && m.calls_out[j].resolved is Some implies {
        let p = m.calls_out[i].resolved->0;
        let q = m.calls_out[j].resolved->0;
        text_before(p.file, q.file) || (p.file == q.file && (p.start_line < q.start_line || (
        p.start_line == q.start_line && p.end_line <= q.end_line)))
    } by {
        assert(!CallEdgeOut::before(m.calls_out[j], m.calls_out[i]));
        lemma_before_total(m.calls_out[i].resolved->0.file, m.calls_out[j].resolved->0.file);
    }
    assert forall|i: int, j: int| 0 <= i < j < m.calls_in.len() implies {
        let p = (#[trigger] m.calls_in[i]).provenance;
        let q = (#[trigger] m.calls_in[j]).provenance;
        text_before(p.file, q.file) || (p.file == q.file && p.start_line <= q.start_line)
    } by {
        assert(!CallEdgeIn::before(m.calls_in[j], m.calls_in[i]));
        lemma_before_total(m.calls_in[i].provenance.file, m.calls_in[j].provenance.file);
    }
}

/// Languages with as many chunks are listed by name, and files with as many symbols by path.
pub proof fn lemma_overview_ties(f: OverviewFacts, now: int)
    ensures
        ({
            let v = overview_scaffold_of(f, now);
            &&& forall|i: int, j: int|
                0 <= i < j < v.language_stats.len() && (
                #[trigger] v.language_stats[i]).chunk_count == (
                #[trigger] v.language_stats[j]).chunk_count ==> v.language_stats[i].language
                    == v.language_stats[j].language || text_before(
                    v.language_stats[i].language,
                    v.language_stats[j].language,
                )
            &&& forall|i: int, j: int|
                0 <= i < j < v.module_inventory.len() && (
                #[trigger] v.module_inventory[i]).symbol_count == (
                #[trigger] v.module_inventory[j]).symbol_count ==> v.module_inventory[i].path
                    == v.module_inventory[j].path || text_before(
                    v.module_inventory[i].path,
                    v.module_inventory[j].path,
                )
        }),
{
    let v = overview_scaffold_of(f, now);
    let files = views(f.files@);
    lemma_stats_in_order();
    lemma_ranked_in_order::<LanguageStat>(stats_of(files, count_views(f.chunk_counts@)));
    lemma_ranked_in_order::<ModuleInventoryEntry>(
        inventory_of(files, count_views(f.symbol_counts@)),
    );
    assert forall|i: int, j: int|
        0 <= i < j < v.language_stats.len() && (#[trigger] v.language_stats[i]).chunk_count == (
        #[trigger] v.language_stats[j]).chunk_count implies v.language_stats[i].language
        == v.language_stats[j].language || text_before(
        v.language_stats[i].language,
        v.language_stats[j].language,
    ) by {
        assert(!LanguageStat::before(v.language_stats[j], v.language_stats[i]));
        lemma_before_total(v.language_stats[i].language, v.language_stats[j].language);
    }
    assert forall|i: int, j: int|
        0 <= i < j < v.module_inventory.len() && (
        #[trigger] v.module_inventory[i]).symbol_count == (
        #[trigger] v.module_inventory[j]).symbol_count implies v.module_inventory[i].path
        == v.module_inventory[j].path || text_before(
        v.module_inventory[i].path,
        v.module_inventory[j].path,
    ) by {
        assert(!ModuleInventoryEntry::before(v.module_inventory[j], v.module_inventory[i]));
        lemma_before_total(v.module_inventory[i].path, v.module_inventory[j].path);
    }
}

/// A token stands for four bytes; a budget too large to be counted in bytes is as large as can be.
pub proof fn lemma_bytes_for(budget_tokens: usize)
    ensures
        bytes_for(budget_tokens) == 4 * budget_tokens || (bytes_for(budget_tokens) == usize::MAX
            && 4 * budget_tokens > usize::MAX),
        bytes_for(budget_tokens) <= 4 * budget_tokens,
        bytes_for(budget_tokens) <= usize::MAX,
{
}

/// A file of an unknown type has no language; that of every other is the name of its type in lower
/// case.
pub proof fn lemma_language_of(type_label: Seq<char>)
    ensures
        language_of(type_label) is None <==> type_label == "Unknown"@,
        language_of(type_label) matches Some(l) ==> l.len() == type_label.len() && forall|i: int|
            0 <= i < l.len() ==> #[trigger] l[i] == ascii_lower(type_label)[i],
{
}

/// A tiny repository gets its central symbols only; every other one the budget for its size.
pub proof fn lemma_overview_budget(total_chunks: u64)
    ensures
        ({
            let b = overview_budget(total_chunks);
            &&& total_chunks < ARCH_TINY_REPO_THRESHOLD ==> b.communities == 0 && b.boundaries == 0
                && b.god_nodes == 5
            &&& ARCH_TINY_REPO_THRESHOLD <= total_chunks <= 2_000 ==> b == budget_for(
                total_chunks as nat,
            ) && b.communities > 0 && b.boundaries > 0
        }),
{
}

/// The overview shows each central symbol, community and coupling that its budget allows, in their
/// order and nothing besides.
pub proof fn lemma_overview_shows(f: OverviewFacts, now: int)
    ensures
        ({
            let v = overview_scaffold_of(f, now);
            let (gods, communities, boundaries) = overview_parts(
                f.arch,
                overview_budget(f.total_chunks),
            );
            &&& v.god_nodes.len() == gods.len()
            &&& forall|i: int|
                0 <= i < gods.len() ==> (#[trigger] v.god_nodes[i]).centrality_bits
                    == gods[i].centrality_bits && v.god_nodes[i].provenance.file == gods[i].file
                    && v.god_nodes[i].semantic_role == gods[i].semantic_role
            &&& v.communities.len() == communities.len()
            &&& forall|i: int|
                0 <= i < communities.len() ==> (#[trigger] v.communities[i]).label
                    == communities[i].label && v.communities[i].size == communities[i].size
                    && v.communities[i].member_files == communities[i].member_files
            &&& v.boundaries == boundaries
        }),
{
}

/// A scaffold is over its budget as soon as it can be measured to take more bytes, and is not while
/// every measure of it is within them.
pub proof fn lemma_module_over<F: Fn(&ModuleScaffold) -> usize>(
    measure: F,
    s: ModuleScaffold,
    n: usize,
    bytes: int,
)
    ensures
        call_ensures(measure, (&s,), n) && n >= bytes + 1 ==> module_over(measure, s@, bytes),
        (forall|t: ModuleScaffold, k: usize|
            t@ == s@ && #[trigger] call_ensures(measure, (&t,), k) ==> k <= bytes) ==> !module_over(
            measure,
            s@,
            bytes,
        ),
{
}

/// An overview is over its budget as soon as it can be measured to take more bytes, and is not while
/// every measure of it is within them.
pub proof fn lemma_overview_over<F: Fn(&OverviewScaffold) -> usize>(
    measure: F,
    s: OverviewScaffold,
    n: usize,
    bytes: int,
)
    ensures
        call_ensures(measure, (&s,), n) && n >= bytes + 1 ==> overview_over(measure, s@, bytes),
        (forall|t: OverviewScaffold, k: usize|
            t@ == s@ && #[trigger] call_ensures(measure, (&t,), k) ==> k <= bytes)
            ==> !overview_over(measure, s@, bytes),
{
}

/// Steps follow one another: each is made on what the ones before left, and where there is none
/// left nothing changes any more.
pub proof fn lemma_trims_follow(v: ModuleScaffoldView, w: OverviewScaffoldView, k: nat)
    ensures
        module_trimmed(v, 0) == v,
        module_trim(module_trimmed(v, k)) matches Some(t) ==> module_trimmed(v, k + 1) == t,
        module_trim(module_trimmed(v, k)) is None ==> module_trimmed(v, k + 1) == module_trimmed(
            v,
            k,
        ),
        overview_trimmed(w, 0) == w,
        overview_trim(overview_trimmed(w, k)) matches Some(t) ==> overview_trimmed(w, k + 1) == t,
        overview_trim(overview_trimmed(w, k)) is None ==> overview_trimmed(w, k + 1)
            == overview_trimmed(w, k),
{
}

} // verus!
