# semantex-core

The core of a code search engine: what is decided when a repository is indexed, when its branches
change, when its history and notes are read, and when a language model is asked for help. The
library is written in Verus. Every public function in `src/` has a contract that says what it
returns, and Verus proves it.

## Layout

- `src/text.rs`, `path.rs`, `order.rs` — text as sequences of characters, paths, stable sorting.
- `src/json.rs`, `digest.rs` — the few calls into `serde_json` and `sha2`. Their contracts are
  taken on trust; each says what is claimed.
- `src/types.rs`, `config.rs` — chunks, metadata and settings.
- `src/index/` — the index:
  - `builder` follows a build file by file and decides what becomes of the dense index;
  - `layout`, `branches`, `registry`, `state`, `gate` keep the places, snapshots, projects, states
    and slots of builds in order;
  - `architecture`, `components`, `docs_scaffold`, `page_rank`, `pattern_catalog` say what an
    overview shows;
  - `history`, `memory`, `storage`, `validate`, `hnsw_index` plan what is asked of git, of the
    databases and of the vector store, and read the answers.
- `src/llm/` — prompts, the answers of models, and the choice between them.
- `tests/` — tests on concrete values.
- `app/` — ordinary Rust around the library: files, databases, processes, async calls, floating
  point, and the serialized forms of the library's types.

A function whose name begins with `lemma_` and that is public states a property of the library as a
whole, such as that no commit message can forge a commit, or that the snapshot of the current branch
is never removed.
