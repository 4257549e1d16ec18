//! Building an index: what is decided about each file, what is kept of it, and what happens to the
//! dense index.

use crate::config::{SemantexConfig, SemantexConfigView};
use crate::index::pattern_catalog::{
    catalog_for, mine_patterns_with, mined, PatternCatalog, PatternLang, PatternMatch,
    PatternMatchView,
};
use crate::json::{json_whole, json_whole_of};
use crate::text::{
    chars_of, copy_texts, decimal, decimal_text, has_text, holds_text, lemma_lines_of,
    lemma_split_concat, lemma_split_nonempty, lemma_split_single, lemma_trim_takes_space, lines,
    occurs_at, opt_text, same_text, split_at_each, text_lines, text_of, trim, trimmed, views,
    without_cr,
};
use crate::types::{IndexMeta, IndexMetaView};
use vstd::prelude::*;

verus! {

/// A line of `.gitignore` that keeps the index out of git.
pub open spec fn ignores_index(line: Seq<char>) -> bool {
    let t = trimmed(line);
    t == ".semantex"@ || t == ".semantex/"@ || t == "/.semantex"@
}

/// Some line keeps the index out of git.
pub open spec fn has_ignore_entry(existing: Seq<char>) -> bool {
    exists|i: int|
        0 <= i < text_lines(existing).len() && ignores_index(#[trigger] text_lines(existing)[i])
}

/// What is appended to `.gitignore`: nothing if it names the index already, else a line that does,
/// on a line of its own.
pub open spec fn ignore_addition(existing: Seq<char>) -> Option<Seq<char>> {
    if has_ignore_entry(existing) {
        None
    } else if existing.len() > 0 && existing.last() != '\n' {
        Some("\n.semantex/\n"@)
    } else {
        Some(".semantex/\n"@)
    }
}

/// What is appended to a `.gitignore` with this content.
pub fn gitignore_addition(existing: &str) -> (r: Option<String>)
    ensures
        opt_text(r) == ignore_addition(existing@),
{
    let ls: Vec<String> = lines(existing);
    let mut i: usize = 0;
    while i < ls.len()
        invariant
            i <= ls@.len(),
            views(ls@) == text_lines(existing@),
            forall|k: int| 0 <= k < i ==> !ignores_index(#[trigger] text_lines(existing@)[k]),
        decreases ls@.len() - i,
    {
        proof {
            assert(text_lines(existing@)[i as int] == ls@[i as int]@);
        }
        let t: String = trim(&ls[i]);
        if same_text(&t, ".semantex") || same_text(&t, ".semantex/") || same_text(
            &t,
            "/.semantex",
        ) {
            return None;
        }
        i = i + 1;
    }
    let v: Vec<char> = chars_of(existing);
    if v.len() > 0 && v[v.len() - 1] != '\n' {
        Some("\n.semantex/\n".to_owned())
    } else {
        Some(".semantex/\n".to_owned())
    }
}

/// The schema version in the text of a metadata file.
pub open spec fn version_in(meta_text: Seq<char>) -> Option<u64> {
    json_whole_of(meta_text, "schema_version"@)
}

/// The schema version in the text of a metadata file, if it can be read.
pub fn raw_schema_version(meta_text: &str) -> (r: Option<u64>)
    ensures
        r == version_in(meta_text@),
{
    json_whole(meta_text, "schema_version")
}

/// An index must be rebuilt from scratch: its metadata has another schema version than the
/// expected one, or does not have the shape of the current one.
pub open spec fn schema_mismatch(found: Option<u64>, strict_parse: bool, expected: u32) -> bool {
    found != Some(expected as u64) || !strict_parse
}

/// Whether an index must be rebuilt from scratch, given the version found in its metadata and
/// whether the metadata has the current shape.
pub fn needs_rebuild(found: Option<u64>, strict_parse: bool, expected: u32) -> (r: bool)
    ensures
        r == schema_mismatch(found, strict_parse, expected),
{
    match found {
        Some(v) => v != expected as u64 || !strict_parse,
        None => true,
    }
}

/// The version found, in words.
pub fn version_label(found: Option<u64>) -> (r: String)
    ensures
        r@ == (match found {
            Some(v) => "v"@ + decimal(v as nat),
            None => "unreadable"@,
        }),
{
    match found {
        Some(v) => "v".to_owned().concat(&decimal_text(v)),
        None => "unreadable".to_owned(),
    }
}

/// Whether the index with this metadata must be rebuilt from scratch.
pub fn schema_check(meta_text: &str, strict_parse: bool, expected: u32) -> (r: bool)
    ensures
        r == schema_mismatch(version_in(meta_text@), strict_parse, expected),
{
    needs_rebuild(raw_schema_version(meta_text), strict_parse, expected)
}

/// The directories of an index that are removed when it must be rebuilt from scratch, those of
/// earlier layouts among them.
pub fn outdated_dirs() -> (r: Vec<&'static str>)
    ensures
        views(r@) == seq!["sparse"@, "plaid"@, "dense"@],
{
    let mut r: Vec<&'static str> = Vec::new();
    r.push("sparse");
    r.push("plaid");
    r.push("dense");
    proof {
        assert(views(r@) =~= seq!["sparse"@, "plaid"@, "dense"@]);
    }
    r
}

/// The files of an index that are removed when it must be rebuilt from scratch, those of earlier
/// layouts among them.
pub fn outdated_files() -> (r: Vec<&'static str>)
    ensures
        views(r@) == seq![
            "plaid_mapping.bin"@,
            "chunks.db"@,
            "meta.json"@,
            "dense.usearch"@,
            "dense_coarse.usearch"@,
        ],
{
    let mut r: Vec<&'static str> = Vec::new();
    r.push("plaid_mapping.bin");
    r.push("chunks.db");
    r.push("meta.json");
    r.push("dense.usearch");
    r.push("dense_coarse.usearch");
    proof {
        assert(views(r@) =~= seq![
            "plaid_mapping.bin"@,
            "chunks.db"@,
            "meta.json"@,
            "dense.usearch"@,
            "dense_coarse.usearch"@,
        ]);
    }
    r
}

/// What becomes of a file, by its hash.
#[derive(Debug, Clone, Copy, PartialEq, Eq, Structural)]
pub enum HashDecision {
    /// It cannot be read, or has not changed.
    Skip,
    /// It is new.
    Index,
    /// It has changed: what the index holds of it is removed first.
    Replace,
}

/// What becomes of a file, given its hash, if it can be read, and the stored one, if there is one.
pub open spec fn hash_decision(hash: Option<u64>, stored: Option<u64>) -> HashDecision {
    match (hash, stored) {
        (None, _) => HashDecision::Skip,
        (Some(h), Some(s)) => if h == s {
            HashDecision::Skip
        } else {
            HashDecision::Replace
        },
        (Some(_), None) => HashDecision::Index,
    }
}

/// What becomes of a file, given its hash, if it can be read, and the stored one, if there is one.
pub fn decide_by_hash(hash: Option<u64>, stored: Option<u64>) -> (r: HashDecision)
    ensures
        r == hash_decision(hash, stored),
{
    match hash {
        None => HashDecision::Skip,
        Some(h) => match stored {
            Some(s) => if h == s {
                HashDecision::Skip
            } else {
                HashDecision::Replace
            },
            None => HashDecision::Index,
        },
    }
}

/// What kind of file it is, as far as chunking goes.
#[derive(Debug, Clone, Copy, PartialEq, Eq, Structural)]
pub enum FileKind {
    Pdf,
    /// Text in a language with a syntax tree.
    Source,
    /// Other text.
    Text,
    Binary,
}

/// What cuts a file into chunks.
#[derive(Debug, Clone, Copy, PartialEq, Eq, Structural)]
pub enum ChunkerKind {
    Pdf,
    Ast,
    Text,
}

/// A text with every `\r\n` replaced by `\n`.
pub open spec fn lf_only(s: Seq<char>) -> Seq<char>
    decreases s.len(),
{
    if s.len() == 0 {
        s
    } else if s.len() >= 2 && s[0] == '\r' && s[1] == '\n' {
        lf_only(s.skip(1))
    } else {
        seq![s[0]] + lf_only(s.skip(1))
    }
}

/// A text with every `\r\n` replaced by `\n`.
pub fn normalize_newlines(s: &str) -> (r: String)
    ensures
        r@ == lf_only(s@),
{
    let v: Vec<char> = chars_of(s);
    let mut out: Vec<char> = Vec::new();
    let mut i: usize = 0;
    proof {
        assert(v@.skip(0) =~= v@);
        assert(out@ + lf_only(v@) =~= lf_only(v@));
    }
    while i < v.len()
        invariant
            v@ == s@,
            i <= v@.len(),
            out@ + lf_only(v@.skip(i as int)) == lf_only(v@),
        decreases v@.len() - i,
    {
        let ghost before = out@;
        let ghost rest = v@.skip(i as int);
        proof {
            assert(rest.skip(1) =~= v@.skip(i + 1));
        }
        if v[i] == '\r' && i + 1 < v.len() && v[i + 1] == '\n' {
        } else {
            out.push(v[i]);
            proof {
                assert(before + (seq![rest[0]] + lf_only(rest.skip(1))) =~= out@ + lf_only(
                    v@.skip(i + 1),
                ));
            }
        }
        i = i + 1;
    }
    proof {
        assert(out@ + lf_only(v@.skip(i as int)) =~= out@);
    }
    text_of(&out)
}

/// A chunker and the text that it gets; a PDF is read by its chunker.
pub open spec fn chunk_input(kind: FileKind, content: Option<Seq<char>>) -> Option<
    (ChunkerKind, Seq<char>),
> {
    match (kind, content) {
        (FileKind::Pdf, _) => Some((ChunkerKind::Pdf, Seq::empty())),
        (FileKind::Source, Some(c)) => Some((ChunkerKind::Ast, lf_only(c))),
        (FileKind::Text, Some(c)) => Some((ChunkerKind::Text, lf_only(c))),
        _ => None,
    }
}

/// The chunker for a file and the text that it gets; `None` if the file is skipped because it is
/// not text or could not be read.
pub fn decide_content(kind: FileKind, content: Option<&str>) -> (r: Option<(ChunkerKind, String)>)
    ensures
        (match r {
            Some(p) => Some((p.0, p.1@)),
            None => None,
        }) == chunk_input(
            kind,
            match content {
                Some(c) => Some(c@),
                None => None,
            },
        ),
{
    match kind {
        FileKind::Pdf => Some((ChunkerKind::Pdf, String::new())),
        FileKind::Source => match content {
            Some(c) => Some((ChunkerKind::Ast, normalize_newlines(c))),
            None => None,
        },
        FileKind::Text => match content {
            Some(c) => Some((ChunkerKind::Text, normalize_newlines(c))),
            None => None,
        },
        FileKind::Binary => None,
    }
}

/// The parts that are not empty, one on a line each, above the content.
pub open spec fn bm25_base_of(
    annotation: Seq<char>,
    expansion: Seq<char>,
    content: Seq<char>,
) -> Seq<char> {
    above(annotation, above(expansion, content))
}

/// `head` on a line above `body`, if it is not empty.
pub open spec fn above(head: Seq<char>, body: Seq<char>) -> Seq<char> {
    if head.len() == 0 {
        body
    } else {
        head + "\n"@ + body
    }
}

/// `head` on a line above `body`, if it is not empty.
fn put_above(head: &str, body: &str) -> (r: String)
    ensures
        r@ == above(head@, body@),
{
    if head.is_empty() {
        body.to_owned()
    } else {
        head.to_owned().concat("\n").concat(body)
    }
}

/// The text of a chunk for the sparse index before its identifiers are expanded.
pub fn bm25_base(annotation: &str, expansion: &str, content: &str) -> (r: String)
    ensures
        r@ == bm25_base_of(annotation@, expansion@, content@),
{
    put_above(annotation, &put_above(expansion, content))
}

/// The text of a chunk for the sparse index: its expanded identifiers, if there are any, above the
/// rest.
pub fn bm25_content(ident_expansion: &str, base: &str) -> (r: String)
    ensures
        r@ == above(ident_expansion@, base@),
{
    put_above(ident_expansion, base)
}

/// The imports of the first list that is not empty.
pub open spec fn first_nonempty(lists: Seq<Seq<Seq<char>>>) -> Seq<Seq<char>>
    decreases lists.len(),
{
    if lists.len() == 0 {
        Seq::empty()
    } else if lists[0].len() > 0 {
        lists[0]
    } else {
        first_nonempty(lists.skip(1))
    }
}

/// What a list of lists of strings holds.
pub open spec fn list_views(s: Seq<Vec<String>>) -> Seq<Seq<Seq<char>>> {
    Seq::new(s.len(), |i: int| views(s[i]@))
}

/// The imports of a file: those of its first chunk that has any.
pub fn file_imports(chunk_imports: &Vec<Vec<String>>) -> (r: Vec<String>)
    ensures
        views(r@) == first_nonempty(list_views(chunk_imports@)),
{
    let ghost all = list_views(chunk_imports@);
    let mut i: usize = 0;
    proof {
        assert(all.skip(0) =~= all);
    }
    while i < chunk_imports.len()
        invariant
            i <= chunk_imports@.len(),
            all == list_views(chunk_imports@),
            first_nonempty(all) == first_nonempty(all.skip(i as int)),
        decreases chunk_imports@.len() - i,
    {
        proof {
            assert(all.skip(i as int)[0] == views(chunk_imports@[i as int]@));
            assert(all.skip(i as int).skip(1) =~= all.skip(i + 1));
        }
        if chunk_imports[i].len() > 0 {
            return copy_texts(&chunk_imports[i]);
        }
        i = i + 1;
    }
    let r: Vec<String> = Vec::new();
    proof {
        assert(views(r@) =~= Seq::<Seq<char>>::empty());
    }
    r
}

/// Where a type is referred to.
#[derive(Debug, Clone, Copy, PartialEq, Eq, Structural)]
pub enum TypeRefContext {
    Param,
    Return,
    Field,
    Local,
    Generic,
}

/// The name under which a place of reference is stored.
pub fn type_ref_label(context: TypeRefContext) -> (r: &'static str)
    ensures
        r@ == (match context {
            TypeRefContext::Param => "param"@,
            TypeRefContext::Return => "return"@,
            TypeRefContext::Field => "field"@,
            TypeRefContext::Local => "local"@,
            TypeRefContext::Generic => "generic"@,
        }),
{
    match context {
        TypeRefContext::Param => "param",
        TypeRefContext::Return => "return",
        TypeRefContext::Field => "field",
        TypeRefContext::Local => "local",
        TypeRefContext::Generic => "generic",
    }
}

/// The kind under which a symbol is stored: `function` if none is known.
pub fn symbol_kind(kind: Option<&str>) -> (r: String)
    ensures
        r@ == (match kind {
            Some(k) => k@,
            None => "function"@,
        }),
{
    match kind {
        Some(k) => k.to_owned(),
        None => "function".to_owned(),
    }
}

/// The indexed paths that are not among the current ones, in their order.
pub open spec fn vanished(indexed: Seq<Seq<char>>, current: Seq<Seq<char>>) -> Seq<Seq<char>>
    decreases indexed.len(),
{
    if indexed.len() == 0 {
        Seq::empty()
    } else {
        let r = vanished(indexed.drop_last(), current);
        if current.contains(indexed.last()) {
            r
        } else {
            r.push(indexed.last())
        }
    }
}

/// The indexed files that are no longer there.
pub fn deleted_paths(indexed: &Vec<String>, current: &Vec<String>) -> (r: Vec<String>)
    ensures
        views(r@) == vanished(views(indexed@), views(current@)),
{
    let ghost all = views(indexed@);
    let mut r: Vec<String> = Vec::new();
    let mut i: usize = 0;
    proof {
        assert(views(r@) =~= Seq::<Seq<char>>::empty());
    }
    while i < indexed.len()
        invariant
            i <= indexed@.len(),
            all == views(indexed@),
            views(r@) == vanished(all.take(i as int), views(current@)),
        decreases indexed@.len() - i,
    {
        let ghost shown = views(r@);
        proof {
            assert(all.take(i + 1).drop_last() =~= all.take(i as int));
            assert(all.take(i + 1).last() == indexed@[i as int]@);
        }
        if !holds_text(current, &indexed[i]) {
            r.push(indexed[i].clone());
            proof {
                assert(views(r@) =~= shown.push(indexed@[i as int]@));
            }
        }
        i = i + 1;
    }
    proof {
        assert(all.take(i as int) =~= all);
    }
    r
}

/// What a build did.
#[derive(Debug, Clone)]
pub struct IndexStats {
    pub files_scanned: u64,
    pub files_indexed: u64,
    pub files_skipped: u64,
    pub files_deleted: u64,
    pub chunks_created: u64,
    pub chunks_removed: u64,
    pub duration_millis: u64,
}

/// After so many files the use of memory is checked.
pub const RSS_CHECK_EVERY_N_FILES: usize = 64;

/// What a build is waiting for.
#[derive(Debug, Clone, Copy, PartialEq, Eq, Structural)]
pub enum FileStep {
    /// The next file, or the end of the build.
    Between,
    /// The hash of the file, and the stored one.
    Hashing,
    /// The removal of what the index holds of the file.
    Removing,
    /// The text of the file.
    Reading,
    /// The chunks of the file.
    Chunking,
    /// So many more chunks of the file, and then the record that the file is indexed.
    Storing { left: usize },
}

/// How far a build has come.
#[derive(Debug)]
pub struct BuildProgress {
    pub step: FileStep,
    pub files_scanned: u64,
    /// How many files have been looked at, or are being looked at.
    pub files_begun: u64,
    pub files_indexed: u64,
    pub files_skipped: u64,
    pub files_deleted: u64,
    /// The chunks that were removed.
    pub removed_chunk_ids: Vec<u64>,
    /// The chunks that were made.
    pub new_chunk_ids: Vec<u64>,
    /// The annotation of each new chunk.
    pub annotations: Vec<(u64, String)>,
    /// The patterns found in the new chunks, with the files of the chunks.
    pub pattern_matches: Vec<(u64, PatternMatch, String)>,
    /// How many files have been looked at since the last check of memory.
    pub files_since_rss_check: usize,
}

/// What a [`BuildProgress`] holds.
pub struct BuildProgressView {
    pub step: FileStep,
    pub files_scanned: nat,
    pub files_begun: nat,
    pub files_indexed: nat,
    pub files_skipped: nat,
    pub files_deleted: nat,
    pub removed: Seq<u64>,
    pub created: Seq<u64>,
    pub annotations: Seq<(u64, Seq<char>)>,
    pub pattern_matches: Seq<(u64, PatternMatchView, Seq<char>)>,
    pub since_check: nat,
}

impl View for BuildProgress {
    type V = BuildProgressView;

    open spec fn view(&self) -> BuildProgressView {
        BuildProgressView {
            step: self.step,
            files_scanned: self.files_scanned as nat,
            files_begun: self.files_begun as nat,
            files_indexed: self.files_indexed as nat,
            files_skipped: self.files_skipped as nat,
            files_deleted: self.files_deleted as nat,
            removed: self.removed_chunk_ids@,
            created: self.new_chunk_ids@,
            annotations: views(self.annotations@),
            pattern_matches: views(self.pattern_matches@),
            since_check: self.files_since_rss_check as nat,
        }
    }
}

impl BuildProgressView {
    /// How many files have been dealt with.
    pub open spec fn files_done(self) -> nat {
        self.files_indexed + self.files_skipped
    }

    /// Every file that has been looked at was either indexed or skipped, and not both; no file is
    /// looked at that was not scanned; every indexed file has given a chunk, and only an indexed
    /// file has, or the one whose chunks are being stored; every new chunk has one annotation, and
    /// patterns are recorded of new chunks only.
    pub open spec fn wf(self) -> bool {
        &&& self.files_begun == self.files_done() + (if self.step == FileStep::Between {
            0int
        } else {
            1int
        })
        &&& self.files_begun <= self.files_scanned
        &&& self.created.len() >= self.files_indexed
        &&& self.files_indexed == 0 && !(self.step is Storing) ==> self.created.len() == 0
        &&& self.step == (FileStep::Storing { left: 0 }) ==> self.created.len()
            > self.files_indexed
        &&& self.annotations.len() == self.created.len()
        &&& forall|i: int|
            0 <= i < self.created.len() ==> (#[trigger] self.annotations[i]).0 == self.created[i]
        &&& forall|i: int|
            0 <= i < self.pattern_matches.len() ==> self.created.contains(
                (#[trigger] self.pattern_matches[i]).0,
            )
        &&& self.since_check < RSS_CHECK_EVERY_N_FILES
    }

    /// Every scanned file has been dealt with.
    pub open spec fn complete(self) -> bool {
        self.step == FileStep::Between && self.files_begun == self.files_scanned
    }

    /// The build waits for something else.
    pub open spec fn at(self, step: FileStep) -> BuildProgressView {
        BuildProgressView { step, ..self }
    }

    /// A build that starts on so many files.
    pub open spec fn started(files_scanned: nat) -> BuildProgressView {
        BuildProgressView {
            step: FileStep::Between,
            files_scanned,
            files_begun: 0,
            files_indexed: 0,
            files_skipped: 0,
            files_deleted: 0,
            removed: Seq::empty(),
            created: Seq::empty(),
            annotations: Seq::empty(),
            pattern_matches: Seq::empty(),
            since_check: 0,
        }
    }

    /// The next file is looked at. The use of memory is checked at every so many files.
    pub open spec fn begun(self) -> BuildProgressView {
        BuildProgressView {
            step: FileStep::Hashing,
            files_begun: self.files_begun + 1,
            since_check: if self.since_check + 1 == RSS_CHECK_EVERY_N_FILES {
                0
            } else {
                self.since_check + 1
            },
            ..self
        }
    }

    /// It has been decided about the file by its hash.
    pub open spec fn hashed(self, d: HashDecision) -> BuildProgressView {
        match d {
            HashDecision::Skip => self.with_skipped(),
            HashDecision::Index => self.at(FileStep::Reading),
            HashDecision::Replace => self.at(FileStep::Removing),
        }
    }

    /// What the index held of the file has been removed.
    pub open spec fn with_removed(self, ids: Seq<u64>) -> BuildProgressView {
        BuildProgressView { removed: self.removed + ids, step: FileStep::Reading, ..self }
    }

    /// The file has been read, if it is text that can be.
    pub open spec fn read(self, input: Option<(ChunkerKind, Seq<char>)>) -> BuildProgressView {
        if input is None {
            self.with_skipped()
        } else {
            self.at(FileStep::Chunking)
        }
    }

    /// The file has been cut into so many chunks, if its chunker did not panic.
    pub open spec fn chunked(self, count: Option<usize>) -> BuildProgressView {
        if count is Some && count->0 > 0 {
            self.at(FileStep::Storing { left: count->0 })
        } else {
            self.with_skipped()
        }
    }

    /// A chunk has been taken in, with its annotation and the patterns found in it.
    pub open spec fn with_chunk(
        self,
        id: u64,
        annotation: Seq<char>,
        found: Seq<(u64, PatternMatchView, Seq<char>)>,
    ) -> BuildProgressView {
        BuildProgressView {
            step: FileStep::Storing { left: (self.step->left - 1) as usize },
            created: self.created.push(id),
            annotations: self.annotations.push((id, annotation)),
            pattern_matches: self.pattern_matches + found,
            ..self
        }
    }

    /// The file that is looked at has been indexed.
    pub open spec fn with_indexed(self) -> BuildProgressView {
        BuildProgressView {
            step: FileStep::Between,
            files_indexed: self.files_indexed + 1,
            ..self
        }
    }

    /// The file that is looked at has been skipped.
    pub open spec fn with_skipped(self) -> BuildProgressView {
        BuildProgressView {
            files_skipped: self.files_skipped + 1,
            step: FileStep::Between,
            ..self
        }
    }
}

/// The patterns found in a chunk, as they are recorded.
pub open spec fn recorded_matches(
    id: u64,
    found: Seq<PatternMatchView>,
    file: Seq<char>,
) -> Seq<(u64, PatternMatchView, Seq<char>)> {
    Seq::new(found.len(), |i: int| (id, found[i], file))
}

impl BuildProgress {
    /// A build that starts on so many files.
    pub fn start(files_scanned: u64) -> (r: BuildProgress)
        ensures
            r@.wf(),
            r@ == BuildProgressView::started(files_scanned as nat),
    {
        let r: BuildProgress = BuildProgress {
            step: FileStep::Between,
            files_scanned,
            files_begun: 0,
            files_indexed: 0,
            files_skipped: 0,
            files_deleted: 0,
            removed_chunk_ids: Vec::new(),
            new_chunk_ids: Vec::new(),
            annotations: Vec::new(),
            pattern_matches: Vec::new(),
            files_since_rss_check: 0,
        };
        proof {
            assert(r@.annotations =~= Seq::empty());
            assert(r@.pattern_matches =~= Seq::empty());
        }
        r
    }

    /// Adds chunks to those that were removed.
    fn add_removed(&mut self, ids: &Vec<u64>)
        ensures
            final(self)@ == (BuildProgressView {
                removed: old(self)@.removed + ids@,
                ..old(self)@
            }),
    {
        let ghost start = self@;
        let mut i: usize = 0;
        proof {
            assert(self@.removed =~= start.removed + ids@.take(0));
        }
        while i < ids.len()
            invariant
                i <= ids@.len(),
                start == old(self)@,
                self@ == (BuildProgressView {
                    removed: start.removed + ids@.take(i as int),
                    ..start
                }),
            decreases ids@.len() - i,
        {
            self.removed_chunk_ids.push(ids[i]);
            i = i + 1;
            proof {
                assert(self@.removed =~= start.removed + ids@.take(i as int));
            }
        }
        proof {
            assert(ids@.take(i as int) =~= ids@);
        }
    }

    /// Records that a file is no longer there; `ids` are the chunks that were removed with it. This
    /// comes before any file is looked at.
    pub fn on_deleted(&mut self, ids: &Vec<u64>)
        requires
            old(self)@.wf(),
            old(self)@.files_begun == 0,
            old(self)@.files_deleted < u64::MAX,
        ensures
            final(self)@.wf(),
            final(self)@ == (BuildProgressView {
                removed: old(self)@.removed + ids@,
                files_deleted: old(self)@.files_deleted + 1,
                ..old(self)@
            }),
    {
        self.add_removed(ids);
        self.files_deleted = self.files_deleted + 1;
    }

    /// Records that what the index held of the file, the chunks `ids`, was removed.
    pub fn on_removed(&mut self, ids: &Vec<u64>)
        requires
            old(self)@.wf(),
            old(self)@.step == FileStep::Removing,
        ensures
            final(self)@.wf(),
            final(self)@ == old(self)@.with_removed(ids@),
    {
        self.add_removed(ids);
        self.step = FileStep::Reading;
    }

    /// Begins with the next file; whether the use of memory is to be checked now.
    pub fn on_file(&mut self) -> (r: bool)
        requires
            old(self)@.wf(),
            old(self)@.step == FileStep::Between,
            old(self)@.files_begun < old(self)@.files_scanned,
        ensures
            final(self)@.wf(),
            r == (old(self)@.since_check + 1 == RSS_CHECK_EVERY_N_FILES),
            final(self)@ == old(self)@.begun(),
    {
        self.step = FileStep::Hashing;
        self.files_begun = self.files_begun + 1;
        self.files_since_rss_check = self.files_since_rss_check + 1;
        if self.files_since_rss_check >= RSS_CHECK_EVERY_N_FILES {
            self.files_since_rss_check = 0;
            true
        } else {
            false
        }
    }

    /// Counts the file that is looked at as skipped.
    fn skip(&mut self)
        requires
            old(self)@.wf(),
            old(self)@.step != FileStep::Between,
            !(old(self)@.step is Storing),
        ensures
            final(self)@.wf(),
            final(self)@ == old(self)@.with_skipped(),
    {
        self.files_skipped = self.files_skipped + 1;
        self.step = FileStep::Between;
    }

    /// Decides about a file by its hash, and counts it if it is skipped.
    pub fn on_hash(&mut self, hash: Option<u64>, stored: Option<u64>) -> (r: HashDecision)
        requires
            old(self)@.wf(),
            old(self)@.step == FileStep::Hashing,
        ensures
            final(self)@.wf(),
            r == hash_decision(hash, stored),
            final(self)@ == old(self)@.hashed(r),
    {
        let r: HashDecision = decide_by_hash(hash, stored);
        match r {
            HashDecision::Skip => self.skip(),
            HashDecision::Index => self.step = FileStep::Reading,
            HashDecision::Replace => self.step = FileStep::Removing,
        }
        r
    }

    /// Decides what a file is cut by, and counts it if it is skipped.
    pub fn on_content(&mut self, kind: FileKind, content: Option<&str>) -> (r: Option<
        (ChunkerKind, String),
    >)
        requires
            old(self)@.wf(),
            old(self)@.step == FileStep::Reading,
        ensures
            final(self)@.wf(),
            (match r {
                Some(p) => Some((p.0, p.1@)),
                None => None,
            }) == chunk_input(
                kind,
                match content {
                    Some(c) => Some(c@),
                    None => None,
                },
            ),
            final(self)@ == old(self)@.read(
                chunk_input(
                    kind,
                    match content {
                        Some(c) => Some(c@),
                        None => None,
                    },
                ),
            ),
    {
        let r: Option<(ChunkerKind, String)> = decide_content(kind, content);
        if r.is_none() {
            self.skip();
        } else {
            self.step = FileStep::Chunking;
        }
        r
    }

    /// Decides whether the chunks of a file are taken in, and counts the file if it is skipped:
    /// because its chunker panicked, or gave no chunk.
    pub fn on_chunks(&mut self, count: Option<usize>) -> (r: bool)
        requires
            old(self)@.wf(),
            old(self)@.step == FileStep::Chunking,
        ensures
            final(self)@.wf(),
            r == (count is Some && count->0 > 0),
            final(self)@ == old(self)@.chunked(count),
    {
        match count {
            Some(n) if n > 0 => {
                self.step = FileStep::Storing { left: n };
                true
            },
            _ => {
                self.skip();
                false
            },
        }
    }

    /// Takes in a chunk: its annotation, and the patterns of its language that occur in it.
    pub fn on_chunk(
        &mut self,
        chunk_id: u64,
        annotation: String,
        content: &str,
        file_path: &str,
        lang: Option<PatternLang>,
        catalog: &PatternCatalog,
    )
        requires
            old(self)@.wf(),
            old(self)@.step matches FileStep::Storing { left } && left > 0,
        ensures
            final(self)@.wf(),
            final(self)@ == old(self)@.with_chunk(
                chunk_id,
                annotation@,
                match lang {
                    Some(l) => recorded_matches(
                        chunk_id,
                        mined(content@, catalog_for(l)),
                        file_path@,
                    ),
                    None => Seq::empty(),
                },
            ),
    {
        let ghost start = self@;
        let ghost av = annotation@;
        if let FileStep::Storing { left } = self.step {
            self.step = FileStep::Storing { left: left - 1 };
        }
        self.new_chunk_ids.push(chunk_id);
        self.annotations.push((chunk_id, annotation));
        let ghost mid = self@;
        proof {
            assert(mid.annotations =~= start.annotations.push((chunk_id, av)));
        }
        match lang {
            Some(l) => {
                let found: Vec<PatternMatch> = mine_patterns_with(content, l, catalog);
                let ghost rows = recorded_matches(chunk_id, views(found@), file_path@);
                proof {
                    assert(mid.pattern_matches =~= start.pattern_matches + rows.take(0));
                }
                for m in it: found
                    invariant
                        it.seq() == found@,
                        rows == recorded_matches(chunk_id, views(found@), file_path@),
                        self@ == (BuildProgressView {
                            pattern_matches: start.pattern_matches + rows.take(it.index()),
                            ..mid
                        }),
                {
                    let ghost before = self@.pattern_matches;
                    let ghost mv = m@;
                    self.pattern_matches.push((chunk_id, m, file_path.to_owned()));
                    proof {
                        assert(rows[it.index()] == (chunk_id, mv, file_path@));
                        assert(self@.pattern_matches =~= before.push((chunk_id, mv, file_path@)));
                        assert(self@.pattern_matches =~= start.pattern_matches + rows.take(
                            it.index() + 1,
                        ));
                    }
                }
                proof {
                    assert(rows.take(rows.len() as int) =~= rows);
                }
            },
            None => {
                proof {
                    assert(mid.pattern_matches =~= start.pattern_matches + Seq::empty());
                }
            },
        }
        proof {
            assert forall|i: int| 0 <= i < self@.created.len() implies (#[trigger]
            self@.annotations[i]).0 == self@.created[i] by {
                if i < start.created.len() {
                    assert(start.annotations[i].0 == start.created[i]);
                }
            }
            assert forall|i: int| 0 <= i < self@.pattern_matches.len() implies
                self@.created.contains((#[trigger] self@.pattern_matches[i]).0) by {
                if i < start.pattern_matches.len() {
                    assert(start.created.contains(start.pattern_matches[i].0));
                    let k = choose|k: int|
                        0 <= k < start.created.len() && start.created[k]
                            == start.pattern_matches[i].0;
                    assert(self@.created[k] == start.pattern_matches[i].0);
                } else {
                    assert(self@.created[start.created.len() as int] == chunk_id);
                }
            }
        }
    }

    /// Counts a file all of whose chunks were taken in.
    pub fn on_indexed(&mut self)
        requires
            old(self)@.wf(),
            old(self)@.step == (FileStep::Storing { left: 0 }),
        ensures
            final(self)@.wf(),
            final(self)@ == old(self)@.with_indexed(),
    {
        self.step = FileStep::Between;
        self.files_indexed = self.files_indexed + 1;
    }

    /// What the build did, once it is through with the files: each was either indexed or skipped,
    /// and each that was indexed gave a chunk or more.
    pub fn stats(&self, duration_millis: u64) -> (r: IndexStats)
        requires
            self@.wf(),
            self@.complete(),
        ensures
            r.files_scanned == self@.files_scanned,
            r.files_indexed == self@.files_indexed,
            r.files_skipped == self@.files_skipped,
            r.files_deleted == self@.files_deleted,
            r.chunks_created == self@.created.len(),
            r.chunks_removed == self@.removed.len(),
            r.duration_millis == duration_millis,
            r.files_indexed + r.files_skipped == r.files_scanned,
            r.chunks_created >= r.files_indexed,
            r.chunks_created == 0 <==> r.files_indexed == 0,
    {
        IndexStats {
            files_scanned: self.files_scanned,
            files_indexed: self.files_indexed,
            files_skipped: self.files_skipped,
            files_deleted: self.files_deleted,
            chunks_created: self.new_chunk_ids.len() as u64,
            chunks_removed: self.removed_chunk_ids.len() as u64,
            duration_millis,
        }
    }
}

/// How a dense index that may exist already is dealt with.
#[derive(Debug, Clone, Copy, PartialEq, Eq, Structural)]
pub struct DenseBuildDecision {
    /// It is built from scratch.
    pub full_rebuild: bool,
    /// It is there, and was made by the current embedder.
    pub present_no_migration: bool,
}

/// The store of the current embedder is the active one, and it is there.
pub open spec fn same_embedder_live(
    active_fp: Option<Seq<char>>,
    current_fp: Seq<char>,
    versioned_sentinel_present: bool,
) -> bool {
    active_fp == Some(current_fp) && versioned_sentinel_present
}

/// How a dense index is dealt with, given the fingerprint of the embedder whose store is active,
/// that of the current embedder, whether the current embedder's store is there, and whether the
/// store that readers open is.
pub fn decide_dense_build(
    active_fp: Option<&str>,
    current_fp: &str,
    versioned_sentinel_present: bool,
    resolved_sentinel_present: bool,
) -> (r: DenseBuildDecision)
    ensures
        ({
            let live = same_embedder_live(
                match active_fp {
                    Some(f) => Some(f@),
                    None => None,
                },
                current_fp@,
                versioned_sentinel_present,
            );
            r == DenseBuildDecision {
                full_rebuild: !live,
                present_no_migration: resolved_sentinel_present && live,
            }
        }),
        !(r.full_rebuild && r.present_no_migration),
{
    let same: bool = match active_fp {
        Some(f) => same_text(f, current_fp),
        None => false,
    };
    let live: bool = same && versioned_sentinel_present;
    DenseBuildDecision {
        full_rebuild: !live,
        present_no_migration: resolved_sentinel_present && live,
    }
}

/// What is done to the dense index at the end of a build.
#[derive(Debug, Clone, Copy, PartialEq, Eq, Structural)]
pub enum DensePlan {
    /// Nothing has changed: the build ends here.
    NoChange,
    /// It is built from every chunk.
    Full,
    /// The removed chunks are taken out and the new ones put in, as far as there are any.
    Incremental { delete: bool, insert: bool },
}

/// What is done to the dense index at the end of a build.
pub open spec fn dense_plan_of(p: BuildProgressView, d: DenseBuildDecision) -> DensePlan {
    if p.created.len() == 0 && p.removed.len() == 0 && d.present_no_migration {
        DensePlan::NoChange
    } else if d.full_rebuild {
        DensePlan::Full
    } else {
        DensePlan::Incremental { delete: p.removed.len() > 0, insert: p.created.len() > 0 }
    }
}

/// What is done to the dense index at the end of a build.
pub fn plan_dense(progress: &BuildProgress, decision: DenseBuildDecision) -> (r: DensePlan)
    ensures
        r == dense_plan_of(progress@, decision),
{
    if progress.new_chunk_ids.len() == 0 && progress.removed_chunk_ids.len() == 0
        && decision.present_no_migration {
        DensePlan::NoChange
    } else if decision.full_rebuild {
        DensePlan::Full
    } else {
        DensePlan::Incremental {
            delete: progress.removed_chunk_ids.len() > 0,
            insert: progress.new_chunk_ids.len() > 0,
        }
    }
}

/// A build ends early only if no chunk was made or removed and the active store is that of the
/// current embedder; a change of embedder always leads to a full build.
pub proof fn lemma_dense_plan(
    p: BuildProgressView,
    active_fp: Option<Seq<char>>,
    current_fp: Seq<char>,
    versioned: bool,
    resolved: bool,
)
    ensures
        ({
            let live = same_embedder_live(active_fp, current_fp, versioned);
            let plan = dense_plan_of(
                p,
                DenseBuildDecision {
                    full_rebuild: !live,
                    present_no_migration: resolved && live,
                },
            );
            &&& plan == DensePlan::NoChange ==> live && p.created.len() == 0 && p.removed.len()
                == 0
            &&& active_fp != Some(current_fp) ==> plan == DensePlan::Full
            &&& plan == DensePlan::Full <==> !live
        }),
{
}

/// A chunk that is made of a file.
pub struct ChunkLook {
    pub id: u64,
    pub annotation: Seq<char>,
    pub found: Seq<(u64, PatternMatchView, Seq<char>)>,
}

/// What a build sees of a file.
pub struct FileLook {
    pub path: Seq<char>,
    /// Its hash, if it can be read.
    pub hash: Option<u64>,
    pub kind: FileKind,
    /// Its text, if it can be read.
    pub content: Option<Seq<char>>,
    /// How many chunks its chunker gives, if it does not panic.
    pub count: Option<usize>,
    /// These chunks, as they are stored.
    pub chunks: Seq<ChunkLook>,
}

impl FileLook {
    /// Its chunks are taken in, if it has changed.
    pub open spec fn gives_chunks(self) -> bool {
        chunk_input(self.kind, self.content) is Some && self.count is Some && self.count->0 > 0
    }

    /// The same file, as another build sees it that finds it unchanged; the chunks that would be
    /// made of it now have other numbers.
    pub open spec fn unchanged(self, other: FileLook) -> bool {
        &&& self.path == other.path
        &&& self.hash == other.hash
        &&& self.kind == other.kind
        &&& self.content == other.content
        &&& self.count == other.count
    }

    /// The same file is among those that another build sees, unchanged.
    pub open spec fn is_still_in(self, files: Seq<FileLook>) -> bool {
        exists|i: int| 0 <= i < files.len() && self.unchanged(#[trigger] files[i])
    }
}

/// What an index holds of a file.
pub struct FileRecord {
    /// The hash of the file when its chunks were last taken in.
    pub hash: Option<u64>,
    /// The chunks of the file.
    pub chunks: Seq<u64>,
}

/// What an index holds of the file at `path`: nothing, if it has no record of it.
pub open spec fn record_at(index: Map<Seq<char>, FileRecord>, path: Seq<char>) -> FileRecord {
    if index.contains_key(path) {
        index[path]
    } else {
        FileRecord { hash: None, chunks: Seq::empty() }
    }
}

/// Chunk after chunk is taken in.
pub open spec fn with_chunks(p: BuildProgressView, chunks: Seq<ChunkLook>) -> BuildProgressView
    decreases chunks.len(),
{
    if chunks.len() == 0 {
        p
    } else {
        let c = chunks.last();
        with_chunks(p, chunks.drop_last()).with_chunk(c.id, c.annotation, c.found)
    }
}

/// How far a build has come after a file of which the index holds `r`: the steps of
/// [`BuildProgress`], one after the other.
pub open spec fn after_file(p: BuildProgressView, f: FileLook, r: FileRecord) -> BuildProgressView {
    let d = hash_decision(f.hash, r.hash);
    let hashed = p.begun().hashed(d);
    let reading = if d == HashDecision::Replace {
        hashed.with_removed(r.chunks)
    } else {
        hashed
    };
    let input = chunk_input(f.kind, f.content);
    if d == HashDecision::Skip {
        hashed
    } else if input is None || !f.gives_chunks() {
        if input is None {
            reading.read(input)
        } else {
            reading.read(input).chunked(f.count)
        }
    } else {
        with_chunks(reading.read(input).chunked(f.count), f.chunks).with_indexed()
    }
}

/// What the index holds of a file after a build has looked at it: a file that has changed loses its
/// chunks, and one whose chunks are taken in gets them, and its hash is recorded.
pub open spec fn record_after(f: FileLook, r: FileRecord) -> FileRecord {
    let d = hash_decision(f.hash, r.hash);
    let kept = if d == HashDecision::Replace {
        Seq::empty()
    } else {
        r.chunks
    };
    if d == HashDecision::Skip {
        r
    } else if f.gives_chunks() {
        FileRecord { hash: f.hash, chunks: kept + Seq::new(f.chunks.len(), |i: int| f.chunks[i].id) }
    } else {
        FileRecord { hash: r.hash, chunks: kept }
    }
}

/// What the index holds after a build has looked at the files, one after the other.
pub open spec fn index_after(index: Map<Seq<char>, FileRecord>, files: Seq<FileLook>) -> Map<
    Seq<char>,
    FileRecord,
>
    decreases files.len(),
{
    if files.len() == 0 {
        index
    } else {
        let before = index_after(index, files.drop_last());
        let f = files.last();
        let r = record_after(f, record_at(before, f.path));
        if r == record_at(before, f.path) {
            before
        } else {
            before.insert(f.path, r)
        }
    }
}

/// How far a build has come after the files, one after the other.
pub open spec fn after_files(
    p: BuildProgressView,
    index: Map<Seq<char>, FileRecord>,
    files: Seq<FileLook>,
) -> BuildProgressView
    decreases files.len(),
{
    if files.len() == 0 {
        p
    } else {
        let f = files.last();
        after_file(
            after_files(p, index, files.drop_last()),
            f,
            record_at(index_after(index, files.drop_last()), f.path),
        )
    }
}

/// The paths of the files.
pub open spec fn paths_of(files: Seq<FileLook>) -> Seq<Seq<char>> {
    Seq::new(files.len(), |i: int| files[i].path)
}

/// What the index holds after a build: first the files that are no longer there are dropped, then
/// the files are looked at.
pub open spec fn built(index: Map<Seq<char>, FileRecord>, files: Seq<FileLook>) -> Map<
    Seq<char>,
    FileRecord,
> {
    index_after(
        index.restrict(Set::new(|path: Seq<char>| paths_of(files).contains(path))),
        files,
    )
}

/// A build that finds the file as it is leaves what the index holds of it.
pub open spec fn settled(f: FileLook, r: FileRecord) -> bool {
    f.hash is None || r.hash == f.hash || (!f.gives_chunks() && (r.hash is Some ==> r.chunks.len()
        == 0))
}

/// Once a build has looked at a file, the index is settled on it.
proof fn lemma_settles(f: FileLook, r: FileRecord)
    ensures
        settled(f, record_after(f, r)),
{
}

/// A file on which the index is settled is skipped, and nothing else happens.
proof fn lemma_settled_file(p: BuildProgressView, f: FileLook, r: FileRecord)
    requires
        settled(f, r),
    ensures
        record_after(f, r) == r,
        after_file(p, f, r) == p.begun().with_skipped(),
{
    let d = hash_decision(f.hash, r.hash);
    if d != HashDecision::Skip {
        if d == HashDecision::Replace {
            assert(r.chunks =~= Seq::empty());
            assert(p.removed + r.chunks =~= p.removed);
        }
        assert(record_after(f, r) == r);
        assert(after_file(p, f, r) == p.begun().with_skipped());
    }
}

/// After the files have been looked at, the index is settled on each, and has records of no others.
proof fn lemma_settled_index(index: Map<Seq<char>, FileRecord>, files: Seq<FileLook>)
    requires
        forall|i: int, j: int|
            0 <= i < j < files.len() ==> (#[trigger] files[i]).path != (#[trigger] files[j]).path,
    ensures
        forall|i: int|
            0 <= i < files.len() ==> settled(
                #[trigger] files[i],
                record_at(index_after(index, files), files[i].path),
            ),
        forall|path: Seq<char>| #[trigger]
            index_after(index, files).contains_key(path) ==> index.contains_key(path)
                || paths_of(files).contains(path),
        forall|path: Seq<char>|
            !paths_of(files).contains(path) ==> #[trigger] record_at(
                index_after(index, files),
                path,
            ) == record_at(index, path),
    decreases files.len(),
{
    if files.len() > 0 {
        let front = files.drop_last();
        let f = files.last();
        let before = index_after(index, front);
        let after = index_after(index, files);
        lemma_settled_index(index, front);
        lemma_settles(f, record_at(before, f.path));
        assert(record_at(after, f.path) == record_after(f, record_at(before, f.path)));
        assert forall|i: int| 0 <= i < files.len() implies settled(
            #[trigger] files[i],
            record_at(after, files[i].path),
        ) by {
            if i < front.len() {
                assert(front[i] == files[i]);
                assert(files[i].path != files[files.len() - 1].path);
                assert(record_at(after, files[i].path) == record_at(before, files[i].path));
            }
        }
        assert(paths_of(files)[files.len() - 1] == f.path);
        assert forall|path: Seq<char>| paths_of(front).contains(path) implies #[trigger] paths_of(
            files,
        ).contains(path) by {
            let i = choose|i: int| 0 <= i < front.len() && paths_of(front)[i] == path;
            assert(paths_of(files)[i] == path);
        }
        assert forall|path: Seq<char>| !paths_of(files).contains(path) implies #[trigger] record_at(
            after,
            path,
        ) == record_at(index, path) by {
            assert(!paths_of(front).contains(path));
            assert(record_at(before, path) == record_at(index, path));
            assert(path != f.path);
        }
    }
}

/// Files on which the index is settled are all skipped, and nothing else happens.
proof fn lemma_settled_files(
    p: BuildProgressView,
    index: Map<Seq<char>, FileRecord>,
    files: Seq<FileLook>,
)
    requires
        p.step == FileStep::Between,
        p.since_check < RSS_CHECK_EVERY_N_FILES,
        forall|i: int|
            0 <= i < files.len() ==> settled(#[trigger] files[i], record_at(index, files[i].path)),
    ensures
        index_after(index, files) == index,
        ({
            let q = after_files(p, index, files);
            &&& q.since_check < RSS_CHECK_EVERY_N_FILES
            &&& q == (BuildProgressView {
                files_begun: p.files_begun + files.len(),
                files_skipped: p.files_skipped + files.len(),
                since_check: q.since_check,
                ..p
            })
        }),
    decreases files.len(),
{
    if files.len() > 0 {
        let front = files.drop_last();
        let f = files.last();
        assert forall|i: int| 0 <= i < front.len() implies settled(
            #[trigger] front[i],
            record_at(index, front[i].path),
        ) by {
            assert(front[i] == files[i]);
        }
        assert(settled(files[files.len() - 1], record_at(index, f.path)));
        lemma_settled_files(p, index, front);
        lemma_settled_file(after_files(p, index, front), f, record_at(index, f.path));
    }
}

proof fn lemma_none_vanished(indexed: Seq<Seq<char>>, current: Seq<Seq<char>>)
    requires
        forall|i: int| 0 <= i < indexed.len() ==> current.contains(#[trigger] indexed[i]),
    ensures
        vanished(indexed, current).len() == 0,
    decreases indexed.len(),
{
    if indexed.len() > 0 {
        let front = indexed.drop_last();
        assert forall|i: int| 0 <= i < front.len() implies current.contains(#[trigger] front[i]) by {
            assert(front[i] == indexed[i]);
        }
        assert(current.contains(indexed[indexed.len() - 1]));
        lemma_none_vanished(front, current);
    }
}

/// A second build of a project of which no file was added, changed or removed changes nothing, in
/// whatever order it meets the files: none of the files that the index knows has vanished, every
/// file is skipped, no chunk is made or removed, the index holds what it held, and where the dense
/// index is live the build ends without touching it.
pub proof fn lemma_second_build(
    index: Map<Seq<char>, FileRecord>,
    first: Seq<FileLook>,
    second: Seq<FileLook>,
    known: Seq<Seq<char>>,
    live: DenseBuildDecision,
)
    requires
        forall|i: int, j: int|
            0 <= i < j < first.len() ==> (#[trigger] first[i]).path != (#[trigger] first[j]).path,
        forall|i: int| 0 <= i < second.len() ==> (#[trigger] second[i]).is_still_in(first),
        forall|j: int| 0 <= j < first.len() ==> (#[trigger] first[j]).is_still_in(second),
        forall|i: int|
            0 <= i < known.len() ==> built(index, first).contains_key(#[trigger] known[i]),
        live.present_no_migration,
    ensures
        vanished(known, paths_of(second)).len() == 0,
        built(built(index, first), second) == built(index, first),
        ({
            let start = BuildProgressView::started(second.len());
            let end = after_files(start, built(index, first), second);
            &&& end.complete()
            &&& end == (BuildProgressView {
                files_begun: second.len(),
                files_skipped: second.len(),
                since_check: end.since_check,
                ..start
            })
            &&& dense_plan_of(end, live) == DensePlan::NoChange
        }),
{
    let there = index.restrict(Set::new(|path: Seq<char>| paths_of(first).contains(path)));
    let one = built(index, first);
    lemma_settled_index(there, first);
    assert forall|path: Seq<char>| paths_of(first).contains(path) implies #[trigger] paths_of(
        second,
    ).contains(path) by {
        let j = choose|j: int| 0 <= j < first.len() && paths_of(first)[j] == path;
        assert(first[j].is_still_in(second));
        let i = choose|i: int|
            0 <= i < second.len() && first[j].unchanged(#[trigger] second[i]);
        assert(paths_of(second)[i] == path);
    }
    assert forall|i: int| 0 <= i < known.len() implies paths_of(second).contains(
        #[trigger] known[i],
    ) by {
        assert(one.contains_key(known[i]));
        assert(paths_of(first).contains(known[i]));
    }
    lemma_none_vanished(known, paths_of(second));
    assert(one.restrict(Set::new(|path: Seq<char>| paths_of(second).contains(path))) =~= one) by {
        assert forall|path: Seq<char>| one.contains_key(path) implies paths_of(second).contains(
            path,
        ) by {
            assert(paths_of(first).contains(path));
        }
    }
    assert forall|i: int| 0 <= i < second.len() implies settled(
        #[trigger] second[i],
        record_at(one, second[i].path),
    ) by {
        assert(second[i].is_still_in(first));
        let j = choose|j: int|
            0 <= j < first.len() && second[i].unchanged(#[trigger] first[j]);
        assert(settled(first[j], record_at(one, first[j].path)));
    }
    lemma_settled_files(BuildProgressView::started(second.len()), one, second);
}

/// How the work on the dense index ended.
#[derive(Debug, Clone, Copy, PartialEq, Eq, Structural)]
pub enum DenseOutcome {
    /// A complete store was written.
    FullBuild,
    /// There was no chunk to write.
    EmptyCorpus,
    /// The store was updated in place.
    Updated,
    /// It failed; the index goes on without it.
    Failed,
}

/// Whether readers are pointed to the store of the current embedder: only once a complete store
/// has been written.
pub fn flips_active(outcome: DenseOutcome) -> (r: bool)
    ensures
        r == (outcome == DenseOutcome::FullBuild),
{
    match outcome {
        DenseOutcome::FullBuild => true,
        _ => false,
    }
}

/// What the dense index is made with.
#[derive(Debug, Clone, Copy, PartialEq, Eq, Structural)]
pub enum DenseBackendKind {
    CoderankHnsw,
    ColbertPlaid,
}

impl DenseBackendKind {
    /// The name of the backend.
    pub open spec fn spec_name(self) -> Seq<char> {
        match self {
            DenseBackendKind::CoderankHnsw => "coderank-hnsw"@,
            DenseBackendKind::ColbertPlaid => "colbert-plaid"@,
        }
    }

    /// The name of the backend.
    pub fn name(&self) -> (r: &'static str)
        ensures
            r@ == self.spec_name(),
    {
        match self {
            DenseBackendKind::CoderankHnsw => "coderank-hnsw",
            DenseBackendKind::ColbertPlaid => "colbert-plaid",
        }
    }
}

/// The time `secs` as it is recorded.
pub fn epoch_text(secs: u64) -> (r: String)
    ensures
        r@ == decimal(secs as nat),
{
    decimal_text(secs)
}

/// The annotations that are stored: those that are not empty.
pub open spec fn stored_annotations(s: Seq<(u64, Seq<char>)>) -> Seq<(u64, Seq<char>)>
    decreases s.len(),
{
    if s.len() == 0 {
        s
    } else if s.last().1.len() == 0 {
        stored_annotations(s.drop_last())
    } else {
        stored_annotations(s.drop_last()).push(s.last())
    }
}

/// The annotations that are stored, by chunk.
pub fn annotation_rows(annotations: &Vec<(u64, String)>) -> (r: Vec<(u64, String)>)
    ensures
        views(r@) == stored_annotations(views(annotations@)),
{
    let ghost all = views(annotations@);
    let mut r: Vec<(u64, String)> = Vec::new();
    let mut i: usize = 0;
    proof {
        assert(views(r@) =~= stored_annotations(all.take(0)));
    }
    while i < annotations.len()
        invariant
            i <= annotations@.len(),
            all == views(annotations@),
            views(r@) == stored_annotations(all.take(i as int)),
        decreases annotations@.len() - i,
    {
        let ghost shown = views(r@);
        proof {
            assert(all.take(i + 1).drop_last() =~= all.take(i as int));
            assert(all.take(i + 1).last() == annotations@[i as int]@);
        }
        if !annotations[i].1.as_str().is_empty() {
            r.push((annotations[i].0, annotations[i].1.clone()));
            proof {
                assert(views(r@) =~= shown.push(annotations@[i as int]@));
            }
        }
        i = i + 1;
    }
    proof {
        assert(all.take(i as int) =~= all);
    }
    r
}

/// What a finished build is recorded with.
#[derive(Debug, Clone)]
pub struct MetaFacts {
    pub schema_version: u32,
    pub project_path: String,
    /// The time, in seconds since the epoch.
    pub now_secs: u64,
    /// How many chunks and files the index holds, if it can be told.
    pub chunk_count: Option<u64>,
    pub file_count: Option<u64>,
    pub backend: DenseBackendKind,
    /// How many numbers a vector of the single-vector embedder has.
    pub single_vector_dim: u32,
    pub embedder_fingerprint: String,
}

/// What is recorded about an index after a build.
pub open spec fn meta_of_build(
    config: SemantexConfigView,
    p: BuildProgressView,
    f: MetaFacts,
) -> IndexMetaView {
    IndexMetaView {
        schema_version: f.schema_version,
        project_path: f.project_path@,
        created_at: decimal(f.now_secs as nat),
        updated_at: decimal(f.now_secs as nat),
        file_count: match f.file_count {
            Some(n) => n,
            None => p.files_done() as u64,
        },
        chunk_count: match f.chunk_count {
            Some(n) => n,
            None => p.created.len() as u64,
        },
        embedding_model: match f.backend {
            DenseBackendKind::CoderankHnsw => "CodeRankEmbed"@,
            DenseBackendKind::ColbertPlaid => "LateOn-Code-edge"@,
        },
        embedding_dim: match f.backend {
            DenseBackendKind::CoderankHnsw => f.single_vector_dim,
            DenseBackendKind::ColbertPlaid => 48,
        },
        use_bm25_stemmer: config.use_bm25_stemmer,
        dense_backend: f.backend.spec_name(),
        embedder_fingerprint: f.embedder_fingerprint@,
    }
}

/// Builds the index of a project.
#[derive(Debug)]
pub struct IndexBuilder {
    config: SemantexConfig,
}

impl IndexBuilder {
    /// The settings of the builder.
    pub closed spec fn settings(self) -> SemantexConfigView {
        self.config@
    }

    /// A builder with the given settings.
    pub fn new(config: &SemantexConfig) -> (r: IndexBuilder)
        ensures
            r.settings() == config@,
    {
        IndexBuilder { config: config.duplicate() }
    }

    /// What is recorded about the index after a build. Where the index cannot tell how many chunks
    /// or files it holds, those of the build are counted.
    pub fn meta(&self, progress: &BuildProgress, facts: &MetaFacts) -> (r: IndexMeta)
        requires
            progress@.wf(),
        ensures
            r@ == meta_of_build(self.settings(), progress@, *facts),
    {
        let (model, dim): (String, u32) = match facts.backend {
            DenseBackendKind::CoderankHnsw => (
                "CodeRankEmbed".to_owned(),
                facts.single_vector_dim,
            ),
            DenseBackendKind::ColbertPlaid => ("LateOn-Code-edge".to_owned(), 48),
        };
        IndexMeta {
            schema_version: facts.schema_version,
            project_path: facts.project_path.clone(),
            created_at: epoch_text(facts.now_secs),
            updated_at: epoch_text(facts.now_secs),
            file_count: match facts.file_count {
                Some(n) => n,
                None => progress.files_indexed + progress.files_skipped,
            },
            chunk_count: match facts.chunk_count {
                Some(n) => n,
                None => progress.new_chunk_ids.len() as u64,
            },
            embedding_model: model,
            embedding_dim: dim,
            use_bm25_stemmer: self.config.use_bm25_stemmer,
            dense_backend: facts.backend.name().to_owned(),
            embedder_fingerprint: facts.embedder_fingerprint.clone(),
        }
    }
}

/// The chunks behind the positions that a search of a positional store returned: positions that
/// the store does not have, and those whose chunk was deleted, are left out.
pub open spec fn live_chunks(positions: Seq<i64>, mapping: Seq<u64>) -> Seq<u64>
    decreases positions.len(),
{
    if positions.len() == 0 {
        Seq::empty()
    } else {
        let r = live_chunks(positions.drop_last(), mapping);
        let p = positions.last();
        if 0 <= p < mapping.len() && mapping[p as int] != crate::types::DENSE_TOMBSTONE {
            r.push(mapping[p as int])
        } else {
            r
        }
    }
}

/// The chunks behind the positions that a search of a positional store returned.
pub fn chunks_at(positions: &Vec<i64>, mapping: &Vec<u64>) -> (r: Vec<u64>)
    ensures
        r@ == live_chunks(positions@, mapping@),
        !r@.contains(crate::types::DENSE_TOMBSTONE),
{
    let mut r: Vec<u64> = Vec::new();
    let mut i: usize = 0;
    while i < positions.len()
        invariant
            i <= positions@.len(),
            r@ == live_chunks(positions@.take(i as int), mapping@),
            forall|k: int| 0 <= k < r@.len() ==> #[trigger] r@[k] != crate::types::DENSE_TOMBSTONE,
        decreases positions@.len() - i,
    {
        let p: i64 = positions[i];
        proof {
            assert(positions@.take(i + 1).drop_last() =~= positions@.take(i as int));
        }
        if p >= 0 && (p as u64) < mapping.len() as u64 {
            let id: u64 = mapping[p as usize];
            if id != crate::types::DENSE_TOMBSTONE {
                r.push(id);
            }
        }
        i = i + 1;
    }
    proof {
        assert(positions@.take(i as int) =~= positions@);
    }
    r
}

/// What the dense index holds after a plan was carried out on one that held the chunks `dense`,
/// where `all` are the chunks that the build leaves.
pub open spec fn dense_after(
    plan: DensePlan,
    p: BuildProgressView,
    dense: Set<u64>,
    all: Set<u64>,
) -> Set<u64> {
    match plan {
        DensePlan::NoChange => dense,
        DensePlan::Full => all,
        DensePlan::Incremental { delete, insert } => {
            let kept = if delete {
                dense.difference(p.removed.to_set())
            } else {
                dense
            };
            if insert {
                kept.union(p.created.to_set())
            } else {
                kept
            }
        },
    }
}

/// Every chunk that a build makes comes into the dense index, whether or not one was removed, and
/// every chunk that it removes leaves it: the plan is a full build, or it puts chunks in exactly if
/// one was made and takes chunks out exactly if one was removed. Only a build that made and removed
/// none ends early.
pub proof fn lemma_dense_plan_covers_changes(p: BuildProgressView, d: DenseBuildDecision)
    ensures
        ({
            let plan = dense_plan_of(p, d);
            &&& p.created.len() > 0 ==> plan == DensePlan::Full || plan->insert
            &&& p.removed.len() > 0 ==> plan == DensePlan::Full || plan->delete
            &&& p.created.len() > 0 || p.removed.len() > 0 ==> plan != DensePlan::NoChange
            &&& plan is Incremental && plan->insert ==> p.created.len() > 0
            &&& plan is Incremental && plan->delete ==> p.removed.len() > 0
            &&& plan == DensePlan::Full ==> d.full_rebuild
            &&& plan is Incremental ==> !d.full_rebuild
            &&& plan == DensePlan::NoChange ==> d.present_no_migration
        }),
{
}

/// After a build that does not write the dense index anew, it holds exactly what it held, without
/// the removed chunks and with all that were made; and so, if it held every chunk of the index
/// before, it holds every chunk of the index after, whatever the plan.
pub proof fn lemma_dense_index_follows_build(
    p: BuildProgressView,
    d: DenseBuildDecision,
    dense: Set<u64>,
    all: Set<u64>,
)
    ensures
        ({
            let plan = dense_plan_of(p, d);
            let wanted = dense.difference(p.removed.to_set()).union(p.created.to_set());
            &&& plan != DensePlan::Full ==> dense_after(plan, p, dense, all) == wanted
            &&& all == wanted ==> dense_after(plan, p, dense, all) == all
        }),
{
    let plan = dense_plan_of(p, d);
    let wanted = dense.difference(p.removed.to_set()).union(p.created.to_set());
    if p.removed.len() == 0 {
        assert(dense.difference(p.removed.to_set()) =~= dense);
    }
    if p.created.len() == 0 {
        assert(dense.difference(p.removed.to_set()).union(p.created.to_set()) =~= dense.difference(
            p.removed.to_set(),
        ));
    }
    if plan != DensePlan::Full {
        assert(dense_after(plan, p, dense, all) =~= wanted);
    }
}

/// A file is skipped exactly if it cannot be read or has the hash that is stored; it is new exactly
/// if it can be read and no hash is stored; and it is replaced if both are known and differ.
pub proof fn lemma_hash_decision(hash: Option<u64>, stored: Option<u64>)
    ensures
        hash_decision(hash, stored) == HashDecision::Skip <==> hash is None || hash == stored,
        hash_decision(hash, stored) == HashDecision::Index <==> hash is Some && stored is None,
        hash_decision(hash, stored) == HashDecision::Replace <==> hash is Some && stored is Some
            && hash != stored,
{
}

/// Each line end of two characters becomes one of one character, and what stands on both sides of
/// it is dealt with as if it stood alone; a text without such a line end stays as it is.
pub proof fn lemma_line_ends(a: Seq<char>, b: Seq<char>)
    ensures
        lf_only(a + "\r\n"@ + b) == lf_only(a) + "\n"@ + lf_only(b),
        !has_text(a, "\r\n"@) ==> lf_only(a) == a,
{
    reveal_strlit("\r\n");
    reveal_strlit("\n");
    lemma_line_end_between(a, b);
    if !has_text(a, "\r\n"@) {
        lemma_no_line_end(a);
    }
}

proof fn lemma_line_end_between(a: Seq<char>, b: Seq<char>)
    ensures
        lf_only(a + seq!['\r', '\n'] + b) =~= lf_only(a) + seq!['\n'] + lf_only(b),
        "\r\n"@ =~= seq!['\r', '\n'],
        "\n"@ =~= seq!['\n'],
    decreases a.len(),
{
    reveal_strlit("\r\n");
    reveal_strlit("\n");
    let s = a + seq!['\r', '\n'] + b;
    if a.len() == 0 {
        assert(s.skip(1) =~= seq!['\n'] + b);
        assert((seq!['\n'] + b).skip(1) =~= b);
        assert(lf_only(s) == lf_only(s.skip(1)));
        assert(lf_only(seq!['\n'] + b) == seq!['\n'] + lf_only(b));
    } else {
        lemma_line_end_between(a.skip(1), b);
        assert(s.skip(1) =~= a.skip(1) + seq!['\r', '\n'] + b);
        if a.len() >= 2 {
            assert(s[1] == a[1]);
        } else {
            assert(s[1] == '\r');
        }
        assert(s[0] == a[0]);
        assert((seq![a[0]] + lf_only(a.skip(1))) + seq!['\n'] + lf_only(b) =~= seq![a[0]] + (
        lf_only(a.skip(1)) + seq!['\n'] + lf_only(b)));
    }
}

proof fn lemma_no_line_end(s: Seq<char>)
    requires
        !has_text(s, "\r\n"@),
    ensures
        lf_only(s) == s,
    decreases s.len(),
{
    reveal_strlit("\r\n");
    if s.len() > 0 {
        if s.len() >= 2 && s[0] == '\r' && s[1] == '\n' {
            assert(s.subrange(0, 2) =~= "\r\n"@);
            assert(occurs_at(s, "\r\n"@, 0));
        }
        assert forall|i: int| !#[trigger] occurs_at(s.skip(1), "\r\n"@, i) by {
            if occurs_at(s.skip(1), "\r\n"@, i) {
                assert(s.subrange(i + 1, i + 3) =~= s.skip(1).subrange(i, i + 2));
                assert(occurs_at(s, "\r\n"@, i + 1));
            }
        }
        lemma_no_line_end(s.skip(1));
        assert(seq![s[0]] + s.skip(1) =~= s);
    }
}

/// A binary file is never chunked, and neither is a text file or a source file that cannot be read;
/// every other file is, and the chunker of a text or source file gets its text with its line ends
/// made one character each.
pub proof fn lemma_chunk_input(kind: FileKind, content: Option<Seq<char>>)
    ensures
        chunk_input(kind, content) is Some <==> kind == FileKind::Pdf || (kind != FileKind::Binary
            && content is Some),
        chunk_input(kind, content) matches Some(i) ==> {
            &&& i.0 == ChunkerKind::Pdf <==> kind == FileKind::Pdf
            &&& i.0 == ChunkerKind::Ast <==> kind == FileKind::Source
            &&& i.0 == ChunkerKind::Text <==> kind == FileKind::Text
            &&& kind != FileKind::Pdf && !has_text(content->0, "\r\n"@) ==> i.1 == content->0
            &&& kind == FileKind::Pdf ==> i.1.len() == 0
        },
{
    if content is Some && !has_text(content->0, "\r\n"@) {
        lemma_no_line_end(content->0);
    }
}

/// The text of a chunk for the sparse index ends with the content; the expansion stands on lines
/// above it and the annotation on lines above both, and an empty one takes no line.
pub proof fn lemma_bm25_base(annotation: Seq<char>, expansion: Seq<char>, content: Seq<char>)
    ensures
        bm25_base_of(Seq::empty(), Seq::empty(), content) == content,
        expansion.len() > 0 ==> bm25_base_of(Seq::empty(), expansion, content) == expansion
            + seq!['\n'] + content,
        annotation.len() > 0 ==> bm25_base_of(annotation, expansion, content) == annotation
            + seq!['\n'] + bm25_base_of(Seq::empty(), expansion, content),
        annotation.len() == 0 ==> bm25_base_of(annotation, expansion, content) == bm25_base_of(
            Seq::empty(),
            expansion,
            content,
        ),
{
    reveal_strlit("\n");
    assert("\n"@ =~= seq!['\n']);
    if annotation.len() == 0 {
        assert(annotation =~= Seq::empty());
    }
}

/// The imports of a file are those of one of its chunks that has some and of which no chunk before
/// has any; there are none only if no chunk has any.
pub proof fn lemma_first_imports(lists: Seq<Seq<Seq<char>>>)
    ensures
        forall|i: int|
            0 <= i < lists.len() && (#[trigger] lists[i]).len() > 0 && (forall|j: int|
                0 <= j < i ==> (#[trigger] lists[j]).len() == 0) ==> first_nonempty(lists)
                == lists[i],
        (forall|i: int| 0 <= i < lists.len() ==> (#[trigger] lists[i]).len() == 0)
            ==> first_nonempty(lists).len() == 0,
    decreases lists.len(),
{
    if lists.len() > 0 {
        let rest = lists.skip(1);
        lemma_first_imports(rest);
        assert forall|i: int|
            0 <= i < lists.len() && (#[trigger] lists[i]).len() > 0 && (forall|j: int|
                0 <= j < i ==> (#[trigger] lists[j]).len() == 0) implies first_nonempty(lists)
            == lists[i] by {
            if i > 0 {
                assert(lists[0].len() == 0);
                assert(rest[i - 1] == lists[i]);
                assert forall|j: int| 0 <= j < i - 1 implies (#[trigger] rest[j]).len() == 0 by {
                    assert(rest[j] == lists[j + 1]);
                }
            }
        }
        if forall|i: int| 0 <= i < lists.len() ==> (#[trigger] lists[i]).len() == 0 {
            assert forall|j: int| 0 <= j < rest.len() implies (#[trigger] rest[j]).len() == 0 by {
                assert(rest[j] == lists[j + 1]);
            }
        }
    }
}

/// The files that are taken out of the index are exactly those indexed paths that are not among the
/// current ones, each as often as it was indexed and in that order.
pub proof fn lemma_vanished_paths(indexed: Seq<Seq<char>>, current: Seq<Seq<char>>)
    ensures
        vanished(indexed, current) == indexed.filter(|p: Seq<char>| !current.contains(p)),
        forall|p: Seq<char>| #[trigger]
            vanished(indexed, current).contains(p) <==> indexed.contains(p) && !current.contains(p),
    decreases indexed.len(),
{
    reveal(Seq::filter);
    let v = vanished(indexed, current);
    if indexed.len() > 0 {
        let front = indexed.drop_last();
        let u = vanished(front, current);
        lemma_vanished_paths(front, current);
        assert forall|p: Seq<char>| #[trigger]
            v.contains(p) <==> indexed.contains(p) && !current.contains(p) by {
            if v.contains(p) {
                let k = choose|k: int| 0 <= k < v.len() && v[k] == p;
                if k < u.len() {
                    assert(u[k] == p);
                    assert(u.contains(p));
                    let i = choose|i: int| 0 <= i < front.len() && front[i] == p;
                    assert(indexed[i] == p);
                } else {
                    assert(indexed[indexed.len() - 1] == p);
                }
            }
            if indexed.contains(p) && !current.contains(p) {
                let i = choose|i: int| 0 <= i < indexed.len() && indexed[i] == p;
                if i < front.len() {
                    assert(front[i] == p);
                    assert(front.contains(p));
                    assert(u.contains(p));
                    let k = choose|k: int| 0 <= k < u.len() && u[k] == p;
                    assert(v[k] == p);
                } else {
                    assert(v[u.len() as int] == p);
                }
            }
        }
    }
}

/// The annotations that are stored are exactly those with a text, by the chunk that each came with
/// and in their order.
pub proof fn lemma_stored_annotations(s: Seq<(u64, Seq<char>)>)
    ensures
        stored_annotations(s) == s.filter(|a: (u64, Seq<char>)| a.1.len() > 0),
    decreases s.len(),
{
    reveal(Seq::filter);
    if s.len() > 0 {
        lemma_stored_annotations(s.drop_last());
    } else {
        assert(stored_annotations(s) =~= s.filter(|a: (u64, Seq<char>)| a.1.len() > 0));
    }
}

/// The chunks at positions of the dense index: for each position that the mapping has and that no
/// removed chunk stands at, in the order of the positions, the chunk that stands there.
pub proof fn lemma_chunks_at_positions(positions: Seq<i64>, mapping: Seq<u64>)
    ensures
        ({
            let live = positions.filter(
                |p: i64|
                    0 <= p < mapping.len() && mapping[p as int] != crate::types::DENSE_TOMBSTONE,
            );
            let r = live_chunks(positions, mapping);
            &&& r.len() == live.len()
            &&& forall|k: int| 0 <= k < r.len() ==> #[trigger] r[k] == mapping[live[k] as int]
        }),
    decreases positions.len(),
{
    reveal(Seq::filter);
    if positions.len() > 0 {
        lemma_chunks_at_positions(positions.drop_last(), mapping);
    }
}

proof fn lemma_with_chunks(p: BuildProgressView, chunks: Seq<ChunkLook>)
    ensures
        ({
            let q = with_chunks(p, chunks);
            &&& q.created == p.created + Seq::new(chunks.len(), |i: int| chunks[i].id)
            &&& q.annotations == p.annotations + Seq::new(
                chunks.len(),
                |i: int| (chunks[i].id, chunks[i].annotation),
            )
            &&& q.removed == p.removed
            &&& q.files_scanned == p.files_scanned
            &&& q.files_begun == p.files_begun
            &&& q.files_indexed == p.files_indexed
            &&& q.files_skipped == p.files_skipped
            &&& q.files_deleted == p.files_deleted
        }),
    decreases chunks.len(),
{
    let q = with_chunks(p, chunks);
    if chunks.len() > 0 {
        lemma_with_chunks(p, chunks.drop_last());
    }
    assert(q.created =~= p.created + Seq::new(chunks.len(), |i: int| chunks[i].id));
    assert(q.annotations =~= p.annotations + Seq::new(
        chunks.len(),
        |i: int| (chunks[i].id, chunks[i].annotation),
    ));
}

/// A file whose hash is the stored one, or that cannot be read, is skipped, and nothing else
/// happens to it. Of a file that has changed all the old chunks are removed, and all its new chunks
/// are made, if it gives any; its record then holds the new hash and exactly the new chunks. A file
/// that gives none is skipped, and its record keeps its hash.
pub proof fn lemma_file_outcome(p: BuildProgressView, f: FileLook, r: FileRecord)
    ensures
        ({
            let q = after_file(p, f, r);
            let s = record_after(f, r);
            let changed = f.hash is Some && f.hash != r.hash;
            let known = r.hash is Some;
            let taken = changed && f.gives_chunks();
            let ids = Seq::new(f.chunks.len(), |i: int| f.chunks[i].id);
            &&& q.files_begun == p.files_begun + 1
            &&& q.files_indexed == p.files_indexed + (if taken { 1int } else { 0 })
            &&& q.files_skipped == p.files_skipped + (if taken { 0int } else { 1 })
            &&& q.files_scanned == p.files_scanned && q.files_deleted == p.files_deleted
            &&& changed && known ==> q.removed == p.removed + r.chunks
            &&& !changed || !known ==> q.removed == p.removed
            &&& taken ==> q.created == p.created + ids
            &&& !taken ==> q.created == p.created && q.annotations == p.annotations
            &&& q.step == FileStep::Between
            &&& !changed ==> s == r
            &&& taken ==> s.hash == f.hash
            &&& taken && known ==> s.chunks == ids
            &&& taken && !known ==> s.chunks == r.chunks + ids
            &&& !taken ==> s.hash == r.hash
            &&& changed && !taken && known ==> s.chunks.len() == 0
        }),
{
    let d = hash_decision(f.hash, r.hash);
    let hashed = p.begun().hashed(d);
    let reading = if d == HashDecision::Replace {
        hashed.with_removed(r.chunks)
    } else {
        hashed
    };
    let input = chunk_input(f.kind, f.content);
    lemma_with_chunks(reading.read(input).chunked(f.count), f.chunks);
    let ids = Seq::new(f.chunks.len(), |i: int| f.chunks[i].id);
    assert(Seq::<u64>::empty() + ids =~= ids);
}

proof fn lemma_lines_added(f: Seq<char>, line: Seq<char>)
    requires
        !line.contains('\n'),
        line.len() > 0 && line.last() != '\r',
    ensures
        text_lines(f.push('\n') + line.push('\n')) == split_at_each(f, '\n').map_values(
            |p: Seq<char>| without_cr(p),
        ).push(line),
        text_lines(f.push('\n')) == split_at_each(f, '\n').map_values(
            |p: Seq<char>| without_cr(p),
        ),
{
    let none = Seq::<char>::empty();
    lemma_split_concat(line, none, '\n');
    lemma_split_single(line, '\n');
    lemma_split_single(none, '\n');
    assert(line.push('\n') + none =~= line.push('\n'));
    lemma_split_concat(f, line.push('\n'), '\n');
    let pieces = split_at_each(f, '\n');
    let all = split_at_each(f.push('\n') + line.push('\n'), '\n');
    assert(all =~= pieces.push(line).push(none));
    assert(all.drop_last() =~= pieces.push(line));
    assert(text_lines(f.push('\n') + line.push('\n')) =~= pieces.map_values(
        |p: Seq<char>| without_cr(p),
    ).push(line));
    lemma_split_concat(f, none, '\n');
    assert(f.push('\n') + none =~= f.push('\n'));
    let fewer = split_at_each(f.push('\n'), '\n');
    assert(fewer =~= pieces.push(none));
    assert(fewer.drop_last() =~= pieces);
    assert(text_lines(f.push('\n')) =~= pieces.map_values(|p: Seq<char>| without_cr(p)));
}

proof fn lemma_line_left_open(e: Seq<char>)
    requires
        e.len() > 0,
        e.last() != '\n',
        e.last() != '\r',
    ensures
        text_lines(e) == split_at_each(e, '\n').map_values(|p: Seq<char>| without_cr(p)),
{
    let pieces = split_at_each(e, '\n');
    let before = split_at_each(e.drop_last(), '\n');
    lemma_split_nonempty(e.drop_last(), '\n');
    assert(pieces.last() == before.last().push(e.last()));
    assert(text_lines(e) =~= pieces.map_values(|p: Seq<char>| without_cr(p)));
}

/// Once the addition is appended, `.gitignore` keeps the index out of git, so a second one is never
/// made; it adds one line behind those that were there and changes none of them. Nothing is added
/// exactly if some line names the index already, white space around it aside.
pub proof fn lemma_ignore_addition(existing: Seq<char>)
    ensures
        ignore_addition(existing) is None <==> exists|i: int|
            0 <= i < text_lines(existing).len() && {
                let t = trimmed(#[trigger] text_lines(existing)[i]);
                t == ".semantex"@ || t == ".semantex/"@ || t == "/.semantex"@
            },
        ignore_addition(existing) matches Some(a) ==> {
            &&& has_ignore_entry(existing + a)
            &&& ignore_addition(existing + a) is None
            &&& existing.len() == 0 || existing.last() != '\r' ==> text_lines(existing + a)
                == text_lines(existing).push(".semantex/"@)
        },
{
    if has_ignore_entry(existing) {
        let i = choose|i: int|
            0 <= i < text_lines(existing).len() && ignores_index(#[trigger] text_lines(existing)[i]);
        let t = trimmed(text_lines(existing)[i]);
        assert(t == ".semantex"@ || t == ".semantex/"@ || t == "/.semantex"@);
    } else {
        reveal_strlit(".semantex/");
        reveal_strlit(".semantex/\n");
        reveal_strlit("\n.semantex/\n");
        let line = ".semantex/"@;
        let a = ignore_addition(existing)->0;
        let whole = existing + a;
        let none = Seq::<char>::empty();
        assert(".semantex/\n"@ =~= line.push('\n'));
        assert("\n.semantex/\n"@ =~= seq!['\n'] + line.push('\n'));
        assert(line.last() == '/' && line[0] == '.');
        assert(!line.contains('\n')) by {
            if line.contains('\n') {
                let k = choose|k: int| 0 <= k < line.len() && line[k] == '\n';
                assert(line =~= seq!['.', 's', 'e', 'm', 'a', 'n', 't', 'e', 'x', '/']);
            }
        }
        lemma_trim_takes_space(none, line, none);
        assert(none + line + none =~= line);
        if existing.len() == 0 {
            assert(whole =~= line.push('\n') + none);
            lemma_lines_of(line, none);
            assert(text_lines(none) =~= Seq::<Seq<char>>::empty());
            assert(existing =~= none);
            assert(text_lines(whole) =~= text_lines(existing).push(line));
        } else if existing.last() == '\n' {
            let f = existing.drop_last();
            assert(f.push('\n') =~= existing);
            lemma_lines_added(f, line);
            assert(whole =~= f.push('\n') + line.push('\n'));
        } else {
            lemma_lines_added(existing, line);
            assert(whole =~= existing.push('\n') + line.push('\n'));
            if existing.last() != '\r' {
                lemma_line_left_open(existing);
            }
        }
        let ls = text_lines(whole);
        assert(ls[ls.len() - 1] == line);
        assert(ignores_index(ls[ls.len() - 1]));
    }
}

/// An index is used as it is exactly if its metadata has the expected version and the present
/// shape.
pub proof fn lemma_schema_mismatch(found: Option<u64>, strict_parse: bool, expected: u32)
    ensures
        !schema_mismatch(found, strict_parse, expected) <==> strict_parse && (found matches Some(v)
            && v == expected),
{
}

/// The use of memory is checked at every file whose number is a multiple of the interval, and at no
/// other.
pub proof fn lemma_memory_checks(p: BuildProgressView)
    requires
        p.since_check < RSS_CHECK_EVERY_N_FILES,
        p.files_begun % (RSS_CHECK_EVERY_N_FILES as nat) == p.since_check,
    ensures
        p.begun().files_begun == p.files_begun + 1,
        p.begun().files_begun % (RSS_CHECK_EVERY_N_FILES as nat) == p.begun().since_check,
        p.since_check + 1 == RSS_CHECK_EVERY_N_FILES <==> p.begun().files_begun % (
        RSS_CHECK_EVERY_N_FILES as nat) == 0,
{
    let n = RSS_CHECK_EVERY_N_FILES as int;
    let b = p.files_begun as int;
    vstd::arithmetic::div_mod::lemma_fundamental_div_mod(b, n);
    if p.since_check + 1 < n {
        vstd::arithmetic::div_mod::lemma_fundamental_div_mod_converse(
            b + 1,
            n,
            b / n,
            p.since_check as int + 1,
        );
    } else {
        assert(n * (b / n) + n == n * (b / n + 1)) by (nonlinear_arith);
        vstd::arithmetic::div_mod::lemma_fundamental_div_mod_converse(b + 1, n, b / n + 1, 0);
    }
}

/// Each match that is found in a chunk is recorded once, with the chunk and the file it was found
/// in.
pub proof fn lemma_recorded_matches(id: u64, found: Seq<PatternMatchView>, file: Seq<char>)
    ensures
        recorded_matches(id, found, file).len() == found.len(),
        forall|i: int|
            0 <= i < found.len() ==> (#[trigger] recorded_matches(id, found, file)[i]).0 == id
                && recorded_matches(id, found, file)[i].1 == found[i] && recorded_matches(
                id,
                found,
                file,
            )[i].2 == file,
{
}

/// The metadata of a build: the numbers that the store counts, where it could, and else those of
/// the build; the backend that was used, and the embedder.
pub proof fn lemma_meta_of_build(config: SemantexConfigView, p: BuildProgressView, f: MetaFacts)
    ensures
        ({
            let m = meta_of_build(config, p, f);
            &&& m.schema_version == f.schema_version
            &&& m.project_path == f.project_path@
            &&& m.embedder_fingerprint == f.embedder_fingerprint@
            &&& m.created_at == m.updated_at
            &&& crate::text::digits_value(m.created_at) == f.now_secs
            &&& f.file_count matches Some(n) ==> m.file_count == n
            &&& f.chunk_count matches Some(n) ==> m.chunk_count == n
            &&& f.file_count is None && p.files_indexed + p.files_skipped <= u64::MAX
                ==> m.file_count == p.files_indexed + p.files_skipped
            &&& f.chunk_count is None && p.created.len() <= u64::MAX ==> m.chunk_count
                == p.created.len()
            &&& m.use_bm25_stemmer == config.use_bm25_stemmer
            &&& m.dense_backend == f.backend.spec_name()
            &&& f.backend == DenseBackendKind::CoderankHnsw ==> m.embedding_dim
                == f.single_vector_dim && m.embedding_model == "CodeRankEmbed"@
            &&& f.backend == DenseBackendKind::ColbertPlaid ==> m.embedding_dim == 48
                && m.embedding_model == "LateOn-Code-edge"@
        }),
{
    crate::text::lemma_decimal_reads_back(f.now_secs as nat);
}

/// Every chunk that a file gives is recorded with its own annotation, and what was found in the
/// chunks follows what was found before, chunk by chunk.
pub proof fn lemma_chunks_recorded(p: BuildProgressView, chunks: Seq<ChunkLook>, c: ChunkLook)
    ensures
        with_chunks(p, chunks).created == p.created + Seq::new(
            chunks.len(),
            |i: int| chunks[i].id,
        ),
        with_chunks(p, chunks).annotations == p.annotations + Seq::new(
            chunks.len(),
            |i: int| (chunks[i].id, chunks[i].annotation),
        ),
        with_chunks(p, chunks.push(c)).pattern_matches == with_chunks(p, chunks).pattern_matches
            + c.found,
        with_chunks(p, Seq::empty()).pattern_matches == p.pattern_matches,
{
    lemma_with_chunks(p, chunks);
    assert(chunks.push(c).drop_last() =~= chunks);
}

/// The chunks that an index holds.
pub open spec fn held(index: Map<Seq<char>, FileRecord>) -> Set<u64> {
    Set::new(
        |id: u64| exists|path: Seq<char>| (#[trigger] record_at(index, path)).chunks.contains(id),
    )
}

/// No chunk belongs to two files.
pub open spec fn apart(index: Map<Seq<char>, FileRecord>) -> bool {
    forall|p: Seq<char>, q: Seq<char>, id: u64|
        #![trigger record_at(index, p).chunks.contains(id), record_at(index, q).chunks.contains(id)]
        record_at(index, p).chunks.contains(id) && record_at(index, q).chunks.contains(id) ==> p
            == q
}

/// A chunk that one of the files gives now.
pub open spec fn is_new(files: Seq<FileLook>, id: u64) -> bool {
    exists|i: int, k: int|
        0 <= i < files.len() && 0 <= k < files[i].chunks.len() && (
        #[trigger] files[i].chunks[k]).id == id
}

/// No file is met twice.
pub open spec fn distinct_paths(files: Seq<FileLook>) -> bool {
    forall|i: int, j: int|
        0 <= i < j < files.len() ==> (#[trigger] files[i]).path != (#[trigger] files[j]).path
}

proof fn lemma_chunks_step(
    before: Map<Seq<char>, FileRecord>,
    f: FileLook,
    p: BuildProgressView,
)
    ensures
        ({
            let r = record_at(before, f.path);
            let s = record_after(f, r);
            let after = if s == r {
                before
            } else {
                before.insert(f.path, s)
            };
            let q = after_file(p, f, r);
            let changed = f.hash is Some && f.hash != r.hash;
            let gone = changed && r.hash is Some;
            let taken = changed && f.gives_chunks();
            let ids = Seq::new(f.chunks.len(), |i: int| f.chunks[i].id);
            &&& forall|path: Seq<char>| #[trigger]
                record_at(after, path) == if path == f.path {
                    s
                } else {
                    record_at(before, path)
                }
            &&& q.removed == if gone {
                p.removed + r.chunks
            } else {
                p.removed
            }
            &&& q.created == if taken {
                p.created + ids
            } else {
                p.created
            }
            &&& forall|id: u64| #[trigger]
                s.chunks.contains(id) <==> (!gone && r.chunks.contains(id)) || (taken
                    && ids.contains(id))
            &&& forall|id: u64| #[trigger]
                q.removed.contains(id) <==> p.removed.contains(id) || (gone && r.chunks.contains(
                    id,
                ))
            &&& forall|id: u64| #[trigger]
                q.created.contains(id) <==> p.created.contains(id) || (taken && ids.contains(id))
        }),
{
    let r = record_at(before, f.path);
    let s = record_after(f, r);
    let ids = Seq::new(f.chunks.len(), |i: int| f.chunks[i].id);
    lemma_file_outcome(p, f, r);
    lemma_concat_contains(r.chunks, ids);
    lemma_concat_contains(p.removed, r.chunks);
    lemma_concat_contains(p.created, ids);
}

proof fn lemma_concat_contains(a: Seq<u64>, b: Seq<u64>)
    ensures
        forall|id: u64| #[trigger] (a + b).contains(id) <==> a.contains(id) || b.contains(id),
{
    assert forall|id: u64| #[trigger] (a + b).contains(id) <==> a.contains(id) || b.contains(
        id,
    ) by {
        if (a + b).contains(id) {
            let k = choose|k: int| 0 <= k < (a + b).len() && (a + b)[k] == id;
            if k < a.len() {
                assert(a[k] == id);
            } else {
                assert(b[k - a.len()] == id);
            }
        }
        if a.contains(id) {
            let k = choose|k: int| 0 <= k < a.len() && a[k] == id;
            assert((a + b)[k] == id);
        }
        if b.contains(id) {
            let k = choose|k: int| 0 <= k < b.len() && b[k] == id;
            assert((a + b)[a.len() + k] == id);
        }
    }
}

proof fn lemma_chunks_follow(
    index: Map<Seq<char>, FileRecord>,
    files: Seq<FileLook>,
    start: BuildProgressView,
)
    requires
        apart(index),
        distinct_paths(files),
        forall|id: u64| #[trigger] held(index).contains(id) ==> !is_new(files, id),
        start.created.len() == 0,
        forall|id: u64| #[trigger] start.removed.contains(id) ==> !held(index).contains(id),
    ensures
        ({
            let after = index_after(index, files);
            let p = after_files(start, index, files);
            &&& forall|path: Seq<char>|
                (forall|i: int| 0 <= i < files.len() ==> (#[trigger] files[i]).path != path)
                    ==> #[trigger] record_at(after, path) == record_at(index, path)
            &&& forall|path: Seq<char>, id: u64| #[trigger]
                record_at(after, path).chunks.contains(id) ==> record_at(
                    index,
                    path,
                ).chunks.contains(id) || is_new(files, id)
            &&& forall|id: u64| #[trigger] p.created.contains(id) ==> is_new(files, id)
            &&& forall|id: u64| #[trigger]
                p.removed.contains(id) ==> start.removed.contains(id) || held(index).contains(id)
            &&& forall|id: u64| #[trigger] start.removed.contains(id) ==> p.removed.contains(id)
            &&& forall|id: u64| #[trigger]
                held(after).contains(id) <==> (held(index).contains(id) && !p.removed.contains(id))
                    || p.created.contains(id)
        }),
    decreases files.len(),
{
    let after = index_after(index, files);
    let p = after_files(start, index, files);
    if files.len() == 0 {
        assert forall|id: u64| #[trigger] held(after).contains(id) <==> (held(index).contains(id)
            && !p.removed.contains(id)) || p.created.contains(id) by {
            if held(index).contains(id) && p.removed.contains(id) {
                assert(start.removed.contains(id));
            }
        }
    } else {
        let front = files.drop_last();
        let f = files.last();
        let n = files.len() - 1;
        assert forall|id: u64| #[trigger] is_new(front, id) implies is_new(files, id) by {
            let (i, k) = choose|i: int, k: int|
                0 <= i < front.len() && 0 <= k < front[i].chunks.len() && (
                #[trigger] front[i].chunks[k]).id == id;
            assert(files[i].chunks[k].id == id);
        }
        assert forall|i: int, j: int| 0 <= i < j < front.len() implies (#[trigger] front[i]).path
            != (#[trigger] front[j]).path by {
            assert(files[i].path != files[j].path);
        }
        lemma_chunks_follow(index, front, start);
        let b = index_after(index, front);
        let q = after_files(start, index, front);
        let r = record_at(b, f.path);
        lemma_chunks_step(b, f, q);
        assert(files[n] == f);
        assert forall|i: int| 0 <= i < front.len() implies (#[trigger] front[i]).path != f.path by {
            assert(files[i].path != files[n].path);
        }
        assert(r == record_at(index, f.path));
        let ids = Seq::new(f.chunks.len(), |i: int| f.chunks[i].id);
        assert forall|id: u64| #[trigger] ids.contains(id) implies is_new(files, id) by {
            let k = choose|k: int| 0 <= k < ids.len() && ids[k] == id;
            assert(files[n].chunks[k].id == id);
        }
        assert forall|id: u64| #[trigger] r.chunks.contains(id) implies held(index).contains(id) by {
            assert(record_at(index, f.path).chunks.contains(id));
        }
        assert forall|path: Seq<char>|
            (forall|i: int| 0 <= i < files.len() ==> (#[trigger] files[i]).path != path) implies
            #[trigger] record_at(after, path) == record_at(index, path) by {
            assert(files[n].path != path);
            assert forall|i: int| 0 <= i < front.len() implies (#[trigger] front[i]).path
                != path by {
                assert(files[i].path != path);
            }
            assert(record_at(b, path) == record_at(index, path));
            assert(path != f.path);
        }
        assert forall|path: Seq<char>, id: u64| #[trigger]
            record_at(after, path).chunks.contains(id) implies record_at(
            index,
            path,
        ).chunks.contains(id) || is_new(files, id) by {
            if path != f.path {
                assert(record_at(b, path).chunks.contains(id));
            }
        }
        assert forall|id: u64| #[trigger] held(after).contains(id) <==> (held(index).contains(id)
            && !p.removed.contains(id)) || p.created.contains(id) by {
            lemma_held_step(index, files, start, id);
        }
    }
}

proof fn lemma_held_step(
    index: Map<Seq<char>, FileRecord>,
    files: Seq<FileLook>,
    start: BuildProgressView,
    id: u64,
)
    requires
        files.len() > 0,
        apart(index),
        forall|x: u64| #[trigger] held(index).contains(x) ==> !is_new(files, x),
        ({
            let front = files.drop_last();
            let f = files.last();
            let b = index_after(index, front);
            let q = after_files(start, index, front);
            &&& record_at(b, f.path) == record_at(index, f.path)
            &&& forall|x: u64| #[trigger] is_new(front, x) ==> is_new(files, x)
            &&& forall|path: Seq<char>, x: u64| #[trigger]
                record_at(b, path).chunks.contains(x) ==> record_at(index, path).chunks.contains(x)
                    || is_new(front, x)
            &&& forall|x: u64| #[trigger] q.created.contains(x) ==> is_new(front, x)
            &&& held(b).contains(id) <==> (held(index).contains(id) && !q.removed.contains(id))
                || q.created.contains(id)
        }),
    ensures
        held(index_after(index, files)).contains(id) <==> (held(index).contains(id) && !after_files(
            start,
            index,
            files,
        ).removed.contains(id)) || after_files(start, index, files).created.contains(id),
{
    let front = files.drop_last();
    let f = files.last();
    let b = index_after(index, front);
    let q = after_files(start, index, front);
    let r = record_at(b, f.path);
    let s = record_after(f, r);
    let after = index_after(index, files);
    let p = after_files(start, index, files);
    let ids = Seq::new(f.chunks.len(), |i: int| f.chunks[i].id);
    let changed = f.hash is Some && f.hash != r.hash;
    let gone = changed && r.hash is Some;
    let taken = changed && f.gives_chunks();
    lemma_chunks_step(b, f, q);
    assert(r.chunks.contains(id) ==> held(index).contains(id)) by {
        if r.chunks.contains(id) {
            assert(record_at(index, f.path).chunks.contains(id));
        }
    }
    if held(after).contains(id) {
        let path = choose|path: Seq<char>| (#[trigger] record_at(after, path)).chunks.contains(id);
        if path == f.path {
            assert(s.chunks.contains(id));
            if r.chunks.contains(id) && !gone {
                assert(record_at(b, f.path).chunks.contains(id));
                assert(held(b).contains(id));
            }
        } else {
            assert(record_at(b, path).chunks.contains(id));
            assert(held(b).contains(id));
            if gone && r.chunks.contains(id) {
                assert(record_at(index, f.path).chunks.contains(id));
                assert(!record_at(index, path).chunks.contains(id));
                assert(is_new(files, id));
            }
        }
    }
    if p.created.contains(id) && !q.created.contains(id) {
        assert(ids.contains(id));
        assert(record_at(after, f.path).chunks.contains(id));
    } else if (held(index).contains(id) && !p.removed.contains(id)) || p.created.contains(id) {
        assert(held(b).contains(id));
        let path = choose|path: Seq<char>| (#[trigger] record_at(b, path)).chunks.contains(id);
        if path == f.path {
            assert(r.chunks.contains(id));
            assert(!gone) by {
                if gone {
                    assert(p.removed.contains(id));
                    assert(q.created.contains(id));
                    assert(is_new(front, id));
                }
            }
            assert(record_at(after, f.path).chunks.contains(id));
        } else {
            assert(record_at(after, path).chunks.contains(id));
        }
    }
}

/// A build keeps the index and the dense index together: after it the index holds exactly the
/// chunks that it held, without those that were removed and with all that were made; and a dense
/// index that held what the index held before holds what the index holds after, whatever the plan.
/// The chunks of files that are gone are removed first, and a new chunk has a number of its own.
pub proof fn lemma_build_keeps_together(
    index: Map<Seq<char>, FileRecord>,
    files: Seq<FileLook>,
    start: BuildProgressView,
    d: DenseBuildDecision,
)
    requires
        apart(index),
        distinct_paths(files),
        forall|id: u64| #[trigger] held(index).contains(id) ==> !is_new(files, id),
        start.created.len() == 0,
        forall|id: u64| #[trigger]
            start.removed.contains(id) <==> exists|path: Seq<char>|
                !paths_of(files).contains(path) && (#[trigger] record_at(
                    index,
                    path,
                )).chunks.contains(id),
    ensures
        ({
            let kept = index.restrict(Set::new(|path: Seq<char>| paths_of(files).contains(path)));
            let p = after_files(start, kept, files);
            let after = held(built(index, files));
            &&& after == held(index).difference(p.removed.to_set()).union(p.created.to_set())
            &&& dense_after(dense_plan_of(p, d), p, held(index), after) == after
        }),
{
    let kept = index.restrict(Set::new(|path: Seq<char>| paths_of(files).contains(path)));
    let p = after_files(start, kept, files);
    let after = held(built(index, files));
    assert forall|path: Seq<char>| #[trigger] record_at(kept, path) == if paths_of(files).contains(
        path,
    ) {
        record_at(index, path)
    } else {
        FileRecord { hash: None, chunks: Seq::empty() }
    } by {}
    assert forall|x: Seq<char>, y: Seq<char>, id: u64|
        #![trigger record_at(kept, x).chunks.contains(id), record_at(kept, y).chunks.contains(id)]
        record_at(kept, x).chunks.contains(id) && record_at(kept, y).chunks.contains(
            id,
        ) implies x == y by {
        assert(record_at(index, x).chunks.contains(id));
        assert(record_at(index, y).chunks.contains(id));
    }
    assert forall|id: u64| #[trigger] held(kept).contains(id) implies held(index).contains(id) by {
        let path = choose|path: Seq<char>| (#[trigger] record_at(kept, path)).chunks.contains(id);
        assert(record_at(index, path).chunks.contains(id));
    }
    assert forall|id: u64| #[trigger] start.removed.contains(id) implies !held(kept).contains(
        id,
    ) by {
        let gone = choose|path: Seq<char>|
            !paths_of(files).contains(path) && (#[trigger] record_at(index, path)).chunks.contains(
                id,
            );
        if held(kept).contains(id) {
            let path = choose|path: Seq<char>|
                (#[trigger] record_at(kept, path)).chunks.contains(id);
            assert(record_at(index, path).chunks.contains(id));
            assert(record_at(index, gone).chunks.contains(id));
        }
    }
    lemma_chunks_follow(kept, files, start);
    let wanted = held(index).difference(p.removed.to_set()).union(p.created.to_set());
    assert forall|id: u64| #[trigger] after.contains(id) <==> wanted.contains(id) by {
        if held(index).contains(id) && !held(kept).contains(id) {
            let path = choose|path: Seq<char>|
                (#[trigger] record_at(index, path)).chunks.contains(id);
            if paths_of(files).contains(path) {
                assert(record_at(kept, path).chunks.contains(id));
            }
            assert(start.removed.contains(id));
            assert(p.removed.contains(id));
        }
    }
    assert(after =~= wanted);
    lemma_dense_index_follows_build(p, d, held(index), after);
}

} // verus!
