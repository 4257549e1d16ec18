//! The settings that the decisions of the index depend on.

use vstd::prelude::*;

verus! {

/// Settings of the index.
#[derive(Debug, Clone)]
pub struct SemantexConfig {
    /// Whether words are stemmed in the sparse index.
    pub use_bm25_stemmer: bool,
    /// The name of a preset for the dense index.
    pub hnsw_preset: String,
    /// How wide a search of the dense index is; 0 leaves it to the preset.
    pub hnsw_ef_search: usize,
    /// How many candidates are scored again; 0 leaves it to the search.
    pub dense_rescore_k: usize,
}

/// What a [`SemantexConfig`] holds.
pub struct SemantexConfigView {
    pub use_bm25_stemmer: bool,
    pub hnsw_preset: Seq<char>,
    pub hnsw_ef_search: nat,
    pub dense_rescore_k: nat,
}

impl View for SemantexConfig {
    type V = SemantexConfigView;

    open spec fn view(&self) -> SemantexConfigView {
        SemantexConfigView {
            use_bm25_stemmer: self.use_bm25_stemmer,
            hnsw_preset: self.hnsw_preset@,
            hnsw_ef_search: self.hnsw_ef_search as nat,
            dense_rescore_k: self.dense_rescore_k as nat,
        }
    }
}

impl SemantexConfig {
    /// The same settings again.
    pub fn duplicate(&self) -> (r: SemantexConfig)
        ensures
            r@ == self@,
    {
        SemantexConfig {
            use_bm25_stemmer: self.use_bm25_stemmer,
            hnsw_preset: self.hnsw_preset.clone(),
            hnsw_ef_search: self.hnsw_ef_search,
            dense_rescore_k: self.dense_rescore_k,
        }
    }
}

} // verus!
