//! The pieces of source text that the index holds.

use vstd::prelude::*;

verus! {

/// Marks a position of the dense index whose chunk has been deleted.
pub const DENSE_TOMBSTONE: u64 = 0xffff_ffff_ffff_ffff;

/// How a chunk was cut out of its file.
#[derive(Debug, Clone)]
pub enum ChunkType {
    /// One node of the syntax tree, with its name and the name of its language.
    AstNode { name: String, language: String },
    /// A window of lines.
    TextWindow { window_index: u32 },
    /// A page of a PDF document.
    PdfPage { page: u32 },
}

/// A piece of a file, with the lines that it covers.
#[derive(Debug, Clone)]
pub struct Chunk {
    pub id: u64,
    pub file_path: String,
    pub start_line: u32,
    pub end_line: u32,
    pub content: String,
    pub chunk_type: ChunkType,
}

/// What a [`Chunk`] holds, as far as it is shown to readers of the index.
pub struct ChunkView {
    pub id: u64,
    pub file_path: Seq<char>,
    pub start_line: u32,
    pub end_line: u32,
    pub content: Seq<char>,
    pub symbol: Option<Seq<char>>,
}

impl View for Chunk {
    type V = ChunkView;

    open spec fn view(&self) -> ChunkView {
        ChunkView {
            id: self.id,
            file_path: self.file_path@,
            start_line: self.start_line,
            end_line: self.end_line,
            content: self.content@,
            symbol: match self.chunk_type {
                ChunkType::AstNode { name, .. } => Some(name@),
                _ => None,
            },
        }
    }
}

impl ChunkView {
    /// The name of the symbol, or the path of the file where there is none.
    pub open spec fn label(self) -> Seq<char> {
        match self.symbol {
            Some(name) => name,
            None => self.file_path,
        }
    }
}

impl Chunk {
    /// The name of the symbol that the chunk defines; `None` for text windows and PDF pages.
    pub fn symbol_name(&self) -> (r: Option<String>)
        ensures
            crate::text::opt_text(r) == self@.symbol,
    {
        match &self.chunk_type {
            ChunkType::AstNode { name, .. } => Some(name.clone()),
            _ => None,
        }
    }

    /// The name of the symbol, or the path of the file where there is none.
    pub fn symbol_or_file(&self) -> (r: String)
        ensures
            r@ == self@.label(),
    {
        match self.symbol_name() {
            Some(name) => name,
            None => self.file_path.clone(),
        }
    }
}

/// The last chunk of `s` with the id `id`.
pub open spec fn chunk_with_id(s: Seq<ChunkView>, id: u64) -> Option<ChunkView>
    decreases s.len(),
{
    if s.len() == 0 {
        None
    } else if s.last().id == id {
        Some(s.last())
    } else {
        chunk_with_id(s.drop_last(), id)
    }
}

/// The position of the last chunk with the id `id`.
pub fn find_chunk(chunks: &Vec<Chunk>, id: u64) -> (r: Option<usize>)
    ensures
        match r {
            Some(i) => i < chunks@.len() && chunk_with_id(crate::text::views(chunks@), id) == Some(
                chunks@[i as int]@,
            ),
            None => chunk_with_id(crate::text::views(chunks@), id) is None,
        },
{
    let ghost all = crate::text::views(chunks@);
    let mut i: usize = chunks.len();
    proof {
        assert(all.take(i as int) =~= all);
    }
    while i > 0
        invariant
            i <= chunks@.len(),
            all == crate::text::views(chunks@),
            chunk_with_id(all, id) == chunk_with_id(all.take(i as int), id),
        decreases i,
    {
        proof {
            assert(all.take(i as int).drop_last() =~= all.take(i - 1));
            assert(all.take(i as int).last() == chunks@[i - 1]@);
        }
        if chunks[i - 1].id == id {
            return Some(i - 1);
        }
        i = i - 1;
    }
    None
}

/// What is recorded about an index as a whole.
#[derive(Debug, Clone)]
pub struct IndexMeta {
    pub schema_version: u32,
    pub project_path: String,
    pub created_at: String,
    pub updated_at: String,
    pub file_count: u64,
    pub chunk_count: u64,
    pub embedding_model: String,
    pub embedding_dim: u32,
    pub use_bm25_stemmer: bool,
    pub dense_backend: String,
    pub embedder_fingerprint: String,
}

/// What an [`IndexMeta`] holds.
pub struct IndexMetaView {
    pub schema_version: u32,
    pub project_path: Seq<char>,
    pub created_at: Seq<char>,
    pub updated_at: Seq<char>,
    pub file_count: u64,
    pub chunk_count: u64,
    pub embedding_model: Seq<char>,
    pub embedding_dim: u32,
    pub use_bm25_stemmer: bool,
    pub dense_backend: Seq<char>,
    pub embedder_fingerprint: Seq<char>,
}

impl View for IndexMeta {
    type V = IndexMetaView;

    open spec fn view(&self) -> IndexMetaView {
        IndexMetaView {
            schema_version: self.schema_version,
            project_path: self.project_path@,
            created_at: self.created_at@,
            updated_at: self.updated_at@,
            file_count: self.file_count,
            chunk_count: self.chunk_count,
            embedding_model: self.embedding_model@,
            embedding_dim: self.embedding_dim,
            use_bm25_stemmer: self.use_bm25_stemmer,
            dense_backend: self.dense_backend@,
            embedder_fingerprint: self.embedder_fingerprint@,
        }
    }
}

/// The chunk that is found for an id is the last one listed with that id, so the only one where
/// there is only one; none is found exactly if none is listed with it.
pub proof fn lemma_chunk_lookup(s: Seq<ChunkView>, id: u64)
    ensures
        forall|i: int|
            0 <= i < s.len() && (#[trigger] s[i]).id == id && (forall|j: int|
                i < j < s.len() ==> (#[trigger] s[j]).id != id) ==> chunk_with_id(s, id) == Some(
                s[i],
            ),
        chunk_with_id(s, id) is None <==> forall|i: int|
            0 <= i < s.len() ==> (#[trigger] s[i]).id != id,
        chunk_with_id(s, id) matches Some(c) ==> c.id == id && s.contains(c),
    decreases s.len(),
{
    if s.len() > 0 {
        let front = s.drop_last();
        let n = s.len() - 1;
        lemma_chunk_lookup(front, id);
        assert(s[n] == s.last());
        if s.last().id != id {
            assert forall|i: int|
                0 <= i < s.len() && (#[trigger] s[i]).id == id && (forall|j: int|
                    i < j < s.len() ==> (#[trigger] s[j]).id != id) implies chunk_with_id(s, id)
                == Some(s[i]) by {
                assert(front[i] == s[i]);
                assert forall|j: int| i < j < front.len() implies (#[trigger] front[j]).id != id by {
                    assert(front[j] == s[j]);
                }
            }
            if chunk_with_id(front, id) is None {
                assert forall|i: int| 0 <= i < s.len() implies (#[trigger] s[i]).id != id by {
                    if i < n {
                        assert(front[i] == s[i]);
                    }
                }
            } else {
                let c = chunk_with_id(front, id)->0;
                let k = choose|k: int| 0 <= k < front.len() && front[k] == c;
                assert(s[k] == c);
            }
        }
    }
}

/// A chunk is called by its symbol, and by its file where it has none.
pub proof fn lemma_chunk_label(c: ChunkView)
    ensures
        c.symbol is None ==> c.label() == c.file_path,
        c.symbol matches Some(name) ==> c.label() == name,
{
}

} // verus!
