//! The index: its layout, its lifecycle and what is derived from it.

pub mod architecture;
pub mod branches;
pub mod builder;
pub mod components;
pub mod docs_scaffold;
pub mod gate;
pub mod history;
pub mod hnsw_index;
pub mod layout;
pub mod memory;
pub mod page_rank;
pub mod pattern_catalog;
pub mod registry;
pub mod state;
pub mod storage;
pub mod validate;
