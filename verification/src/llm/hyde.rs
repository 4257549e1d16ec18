//! Searching with code that a model has written in answer to a query.

use crate::llm::loader::OnnxLlm;
use vstd::prelude::*;

verus! {

/// Something that can write code in answer to a query.
pub trait LlmHyDE {
    /// The code, or why none was written.
    fn synthesize_doc(&self, query: &str) -> (r: Result<String, String>);
}

impl LlmHyDE for OnnxLlm {
    /// No code: the model that runs in the process writes none.
    fn synthesize_doc(&self, query: &str) -> (r: Result<String, String>)
        ensures
            r is Err,
            r->Err_0@ == "local-llm HyDE synthesizer not yet wired to model output (path="@
                + self.model_path@ + ")"@,
    {
        Err(
            "local-llm HyDE synthesizer not yet wired to model output (path=".to_owned().concat(
                &self.model_path,
            ).concat(")"),
        )
    }
}

} // verus!
