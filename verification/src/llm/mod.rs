//! Language models: which one is asked, what it is asked, and what its answers mean.

pub mod backend;
pub mod classifier;
pub mod genai_backend;
pub mod hyde;
pub mod loader;
pub mod prompts;
pub mod subscription_cli;
