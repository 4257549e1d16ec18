//! Choosing a route with the help of a model.

use crate::llm::loader::OnnxLlm;
use crate::llm::prompts::AgentRoute;
use vstd::prelude::*;

verus! {

/// Something that can choose the route of a query.
pub trait LlmClassifier {
    /// The route of a query, or why none was chosen.
    fn classify(&self, query: &str) -> (r: Result<AgentRoute, String>);
}

impl LlmClassifier for OnnxLlm {
    /// No route: the model that runs in the process has no classifier.
    fn classify(&self, query: &str) -> (r: Result<AgentRoute, String>)
        ensures
            r is Err,
            r->Err_0@ == "local-llm classifier not yet wired to model output (path="@
                + self.model_path@ + ")"@,
    {
        Err(
            "local-llm classifier not yet wired to model output (path=".to_owned().concat(
                &self.model_path,
            ).concat(")"),
        )
    }
}

/// The route that was chosen, or the one that the words of the query say where none was.
pub open spec fn route_or(answer: Result<AgentRoute, String>, by_words: AgentRoute) -> AgentRoute {
    match answer {
        Ok(route) => route,
        Err(_) => by_words,
    }
}

/// The route that was chosen, or the one that the words of the query say where none was.
pub fn route_or_else(answer: Result<AgentRoute, String>, by_words: AgentRoute) -> (r: AgentRoute)
    ensures
        r == route_or(answer, by_words),
{
    match answer {
        Ok(route) => route,
        Err(_) => by_words,
    }
}

/// The route that the classifier chooses for a query; `by_words`, the one that its words say, where
/// it chooses none.
pub fn classify_with_llm<C: LlmClassifier>(query: &str, llm: &C, by_words: AgentRoute) -> (r:
    AgentRoute)
    ensures
        exists|answer: Result<AgentRoute, String>|
            call_ensures(C::classify, (llm, query), answer) && r == #[trigger] route_or(
                answer,
                by_words,
            ),
{
    let answer: Result<AgentRoute, String> = llm.classify(query);
    route_or_else(answer, by_words)
}

/// A route that was chosen is taken; only where none was, the words of the query say it.
pub proof fn lemma_route_or(answer: Result<AgentRoute, String>, by_words: AgentRoute)
    ensures
        answer matches Ok(route) ==> route_or(answer, by_words) == route,
        answer is Err ==> route_or(answer, by_words) == by_words,
{
}

} // verus!
