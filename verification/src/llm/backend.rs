//! Which model is asked.

use crate::llm::genai_backend::{
    genai_config, GenaiConfig, GenaiConfigView, ProviderError, ProviderErrorView,
};
use crate::llm::prompts::opt_str;
use crate::llm::subscription_cli::{
    cli_config, CliBackendView, CliError, CliErrorView, CliFacts, SubscriptionCliBackend,
};
use vstd::prelude::*;

verus! {

/// The model that is asked.
#[derive(Debug, Clone)]
pub enum LlmBackend {
    Genai(GenaiConfig),
    SubscriptionCli(SubscriptionCliBackend),
}

/// What an [`LlmBackend`] is.
pub enum BackendView {
    Genai(GenaiConfigView),
    SubscriptionCli(CliBackendView),
}

impl View for LlmBackend {
    type V = BackendView;

    open spec fn view(&self) -> BackendView {
        match self {
            LlmBackend::Genai(c) => BackendView::Genai(c@),
            LlmBackend::SubscriptionCli(b) => BackendView::SubscriptionCli(b@),
        }
    }
}

/// Why the settings name no model.
#[derive(Debug, Clone)]
pub enum BackendError {
    Genai(ProviderError),
    SubscriptionCli(CliError),
}

/// What a [`BackendError`] says.
pub enum BackendErrorView {
    Genai(ProviderErrorView),
    SubscriptionCli(CliErrorView),
}

impl View for BackendError {
    type V = BackendErrorView;

    open spec fn view(&self) -> BackendErrorView {
        match self {
            BackendError::Genai(e) => BackendErrorView::Genai(e@),
            BackendError::SubscriptionCli(e) => BackendErrorView::SubscriptionCli(e@),
        }
    }
}

impl BackendError {
    /// The error in words.
    pub fn message(&self) -> (r: String)
        ensures
            r@ == (match self@ {
                BackendErrorView::Genai(e) => e.text(),
                BackendErrorView::SubscriptionCli(e) => e.text(),
            }),
    {
        match self {
            BackendError::Genai(e) => e.message(),
            BackendError::SubscriptionCli(e) => e.message(),
        }
    }
}

/// The settings that say which model is asked.
#[derive(Debug, Clone)]
pub struct LlmSettings<'a> {
    /// `SEMANTEX_LLM_MODEL`
    pub model: Option<&'a str>,
    /// `SEMANTEX_LLM_PROVIDER`
    pub provider: Option<&'a str>,
    /// `SEMANTEX_LLM_ENDPOINT`
    pub endpoint: Option<&'a str>,
    /// `SEMANTEX_LLM_BACKEND`
    pub backend: Option<&'a str>,
}

/// The model that is asked: the one behind a web interface, where one is set, else the program that
/// is set; none where neither is.
pub open spec fn chosen_backend(s: LlmSettings<'_>, f: CliFacts) -> Result<
    Option<BackendView>,
    BackendErrorView,
> {
    match genai_config(opt_str(s.model), opt_str(s.provider), opt_str(s.endpoint), f.family@) {
        Err(e) => Err(BackendErrorView::Genai(e)),
        Ok(Some(c)) => Ok(Some(BackendView::Genai(c))),
        Ok(None) => match cli_config(opt_str(s.backend), f) {
            Err(e) => Err(BackendErrorView::SubscriptionCli(e)),
            Ok(Some(b)) => Ok(Some(BackendView::SubscriptionCli(b))),
            Ok(None) => Ok(None),
        },
    }
}

impl LlmBackend {
    /// The model that is asked.
    pub fn from_env(settings: &LlmSettings<'_>, facts: &CliFacts) -> (r: Result<
        Option<LlmBackend>,
        BackendError,
    >)
        ensures
            (match r {
                Ok(Some(b)) => Ok(Some(b@)),
                Ok(None) => Ok(None),
                Err(e) => Err(e@),
            }) == chosen_backend(*settings, *facts),
    {
        match GenaiConfig::from_env(
            settings.model,
            settings.provider,
            settings.endpoint,
            &facts.family,
        ) {
            Err(e) => Err(BackendError::Genai(e)),
            Ok(Some(c)) => Ok(Some(LlmBackend::Genai(c))),
            Ok(None) => match SubscriptionCliBackend::from_env(settings.backend, facts) {
                Err(e) => Err(BackendError::SubscriptionCli(e)),
                Ok(Some(b)) => Ok(Some(LlmBackend::SubscriptionCli(b))),
                Ok(None) => Ok(None),
            },
        }
    }

    /// The name that the model is shown under.
    pub fn label(&self) -> (r: String)
        ensures
            r@ == (match self@ {
                BackendView::Genai(c) => c.label,
                BackendView::SubscriptionCli(b) => b.label,
            }),
    {
        match self {
            LlmBackend::Genai(c) => c.label.clone(),
            LlmBackend::SubscriptionCli(b) => b.label.clone(),
        }
    }
}

/// A program is only chosen where no model behind a web interface is set.
pub proof fn lemma_web_before_program(s: LlmSettings<'_>, f: CliFacts)
    ensures
        s.model is Some ==> !(chosen_backend(s, f) matches Ok(
            Some(BackendView::SubscriptionCli(_)),
        )),
        s.model is None && s.backend is None ==> chosen_backend(s, f) == Ok::<
            Option<BackendView>,
            BackendErrorView,
        >(None),
{
}

} // verus!
