//! Models behind a web interface: which provider serves a model, what it is asked and what its
//! replies mean.

use crate::llm::prompts::{
    build_classify_prompt, build_hyde_prompt, classify_prompt, hyde_prompt, opt_str,
    parse_route_from_llm_output, route_in, AgentRoute, CLASSIFIER_SYSTEM_PROMPT,
    HYDE_SYSTEM_PROMPT, UnrecognizedRoute,
};
use crate::text::{
    ascii_lower, contains_text, has_prefix, has_text, opt_text, quoted_text, quoted_text_of,
    same_text, starts_with, to_ascii_lower,
};
use vstd::prelude::*;

verus! {

/// Who serves a model, or whose interface is spoken.
#[derive(Debug, Clone, Copy, PartialEq, Eq, Structural)]
pub enum Provider {
    OpenAI,
    OpenAIResp,
    Anthropic,
    Gemini,
    Ollama,
    Groq,
    Cohere,
    DeepSeek,
    Xai,
    Fireworks,
    Together,
}

/// Why no provider is known.
#[derive(Debug, Clone)]
pub enum ProviderError {
    /// The provider that was set is not one of them.
    UnknownProvider(String),
    /// The name of the model is a path.
    PathStyleModel(String),
    /// The model is one of Bedrock.
    BedrockModel(String),
    UnknownModel(String),
}

/// What a [`ProviderError`] says.
pub enum ProviderErrorView {
    UnknownProvider(Seq<char>),
    PathStyleModel(Seq<char>),
    BedrockModel(Seq<char>),
    UnknownModel(Seq<char>),
}

impl View for ProviderError {
    type V = ProviderErrorView;

    open spec fn view(&self) -> ProviderErrorView {
        match self {
            ProviderError::UnknownProvider(s) => ProviderErrorView::UnknownProvider(s@),
            ProviderError::PathStyleModel(s) => ProviderErrorView::PathStyleModel(s@),
            ProviderError::BedrockModel(s) => ProviderErrorView::BedrockModel(s@),
            ProviderError::UnknownModel(s) => ProviderErrorView::UnknownModel(s@),
        }
    }
}

impl ProviderErrorView {
    /// The error in words.
    pub open spec fn text(self) -> Seq<char> {
        match self {
            ProviderErrorView::UnknownProvider(p) => "SEMANTEX_LLM_PROVIDER="@ + quoted_text_of(p)
                + " is not a recognised provider. Valid values: openai, anthropic, gemini, ollama, groq, cohere, deepseek, xai, fireworks, together, openai_resp"@,
            ProviderErrorView::PathStyleModel(m) =>
                "Cannot infer LLM provider from path-style model name "@ + quoted_text_of(m)
                + " (contains '/').  Set SEMANTEX_LLM_PROVIDER explicitly, e.g. SEMANTEX_LLM_PROVIDER=fireworks for Fireworks paths, or SEMANTEX_LLM_PROVIDER=openai for any OpenAI-compatible gateway."@,
            ProviderErrorView::BedrockModel(m) => "AWS Bedrock model "@ + quoted_text_of(m)
                + " detected (nova-* prefix). Bedrock is not directly supported; set SEMANTEX_LLM_ENDPOINT to your OpenAI-compatible gateway URL and SEMANTEX_LLM_PROVIDER=openai."@,
            ProviderErrorView::UnknownModel(m) => "Cannot infer LLM provider from model name "@
                + quoted_text_of(m)
                + ". Set SEMANTEX_LLM_PROVIDER to one of: openai, anthropic, gemini, ollama, groq, cohere, deepseek, xai, fireworks, together. Tip: use SEMANTEX_LLM_PROVIDER=openai as a generic fallback for any OpenAI-compatible gateway (LiteLLM proxy, vLLM, LM Studio, etc.)."@,
        }
    }
}

impl ProviderError {
    /// The error in words.
    pub fn message(&self) -> (r: String)
        ensures
            r@ == self@.text(),
    {
        match self {
            ProviderError::UnknownProvider(p) => "SEMANTEX_LLM_PROVIDER=".to_owned().concat(
                &quoted_text(p),
            ).concat(
                " is not a recognised provider. Valid values: openai, anthropic, gemini, ollama, groq, cohere, deepseek, xai, fireworks, together, openai_resp",
            ),
            ProviderError::PathStyleModel(m) =>
                "Cannot infer LLM provider from path-style model name ".to_owned().concat(
                &quoted_text(m),
            ).concat(
                " (contains '/').  Set SEMANTEX_LLM_PROVIDER explicitly, e.g. SEMANTEX_LLM_PROVIDER=fireworks for Fireworks paths, or SEMANTEX_LLM_PROVIDER=openai for any OpenAI-compatible gateway.",
            ),
            ProviderError::BedrockModel(m) => "AWS Bedrock model ".to_owned().concat(
                &quoted_text(m),
            ).concat(
                " detected (nova-* prefix). Bedrock is not directly supported; set SEMANTEX_LLM_ENDPOINT to your OpenAI-compatible gateway URL and SEMANTEX_LLM_PROVIDER=openai.",
            ),
            ProviderError::UnknownModel(m) =>
                "Cannot infer LLM provider from model name ".to_owned().concat(
                &quoted_text(m),
            ).concat(
                ". Set SEMANTEX_LLM_PROVIDER to one of: openai, anthropic, gemini, ollama, groq, cohere, deepseek, xai, fireworks, together. Tip: use SEMANTEX_LLM_PROVIDER=openai as a generic fallback for any OpenAI-compatible gateway (LiteLLM proxy, vLLM, LM Studio, etc.).",
            ),
        }
    }
}

/// The provider with a name, in whatever case.
pub open spec fn provider_named(name: Seq<char>) -> Option<Provider> {
    let n = ascii_lower(name);
    if n == "openai"@ || n == "openrouter"@ {
        Some(Provider::OpenAI)
    } else if n == "openai_resp"@ {
        Some(Provider::OpenAIResp)
    } else if n == "anthropic"@ {
        Some(Provider::Anthropic)
    } else if n == "gemini"@ {
        Some(Provider::Gemini)
    } else if n == "ollama"@ {
        Some(Provider::Ollama)
    } else if n == "groq"@ {
        Some(Provider::Groq)
    } else if n == "cohere"@ {
        Some(Provider::Cohere)
    } else if n == "deepseek"@ {
        Some(Provider::DeepSeek)
    } else if n == "xai"@ {
        Some(Provider::Xai)
    } else if n == "fireworks"@ {
        Some(Provider::Fireworks)
    } else if n == "together"@ {
        Some(Provider::Together)
    } else {
        None
    }
}

/// The provider with a name, in whatever case.
pub fn parse_provider_string(s: &str) -> (r: Option<Provider>)
    ensures
        r == provider_named(s@),
{
    let n: String = to_ascii_lower(s);
    if same_text(&n, "openai") || same_text(&n, "openrouter") {
        Some(Provider::OpenAI)
    } else if same_text(&n, "openai_resp") {
        Some(Provider::OpenAIResp)
    } else if same_text(&n, "anthropic") {
        Some(Provider::Anthropic)
    } else if same_text(&n, "gemini") {
        Some(Provider::Gemini)
    } else if same_text(&n, "ollama") {
        Some(Provider::Ollama)
    } else if same_text(&n, "groq") {
        Some(Provider::Groq)
    } else if same_text(&n, "cohere") {
        Some(Provider::Cohere)
    } else if same_text(&n, "deepseek") {
        Some(Provider::DeepSeek)
    } else if same_text(&n, "xai") {
        Some(Provider::Xai)
    } else if same_text(&n, "fireworks") {
        Some(Provider::Fireworks)
    } else if same_text(&n, "together") {
        Some(Provider::Together)
    } else {
        None
    }
}

/// The families of models that run on the machine itself.
pub open spec fn local_families() -> Seq<Seq<char>> {
    seq![
        "qwen"@,
        "llama"@,
        "mistral"@,
        "mixtral"@,
        "deepseek"@,
        "phi"@,
        "gemma"@,
        "codellama"@,
        "vicuna"@,
        "orca"@,
        "wizard"@,
        "hermes"@,
        "nous"@,
        "openchat"@,
        "yi"@,
        "solar"@,
        "neural"@,
        "dolphin"@,
        "starling"@,
        "magicoder"@,
        "zephyr"@,
        "stablelm"@,
        "starcoder"@,
        "codestral"@,
        "granite"@,
        "smollm"@,
        "internlm"@,
    ]
}

/// Whether a name begins with one of the texts.
pub open spec fn begins_with_any(s: Seq<char>, heads: Seq<Seq<char>>) -> bool {
    exists|i: int| 0 <= i < heads.len() && has_prefix(s, #[trigger] heads[i])
}

/// Whether a model is of a family that runs on the machine itself.
fn is_local(model: &str) -> (r: bool)
    ensures
        r == begins_with_any(model@, local_families()),
{
    let heads: [&str; 27] = [
        "qwen",
        "llama",
        "mistral",
        "mixtral",
        "deepseek",
        "phi",
        "gemma",
        "codellama",
        "vicuna",
        "orca",
        "wizard",
        "hermes",
        "nous",
        "openchat",
        "yi",
        "solar",
        "neural",
        "dolphin",
        "starling",
        "magicoder",
        "zephyr",
        "stablelm",
        "starcoder",
        "codestral",
        "granite",
        "smollm",
        "internlm",
    ];
    proof {
        assert forall|k: int| 0 <= k < 27 implies (#[trigger] heads@[k])@ == local_families()[k] by {}
    }
    let mut i: usize = 0;
    while i < 27
        invariant
            i <= 27,
            heads@.len() == 27,
            local_families().len() == 27,
            forall|k: int| 0 <= k < 27 ==> (#[trigger] heads@[k])@ == local_families()[k],
            forall|k: int| 0 <= k < i ==> !has_prefix(model@, #[trigger] local_families()[k]),
        decreases 27 - i,
    {
        if starts_with(model, heads[i]) {
            proof {
                assert(has_prefix(model@, local_families()[i as int]));
            }
            return true;
        }
        i = i + 1;
    }
    false
}

/// The provider of a model, by its name; the error where the name says nothing. The names of
/// Anthropic's models begin with `family`, which is in lower case.
pub open spec fn provider_of_model(model: Seq<char>, family: Seq<char>) -> Result<
    Provider,
    ProviderErrorView,
> {
    let m = ascii_lower(model);
    if has_text(m, "/"@) {
        Err(ProviderErrorView::PathStyleModel(model))
    } else if has_prefix(m, family) {
        Ok(Provider::Anthropic)
    } else if has_prefix(m, "gemini"@) {
        Ok(Provider::Gemini)
    } else if has_prefix(m, "gpt"@) || has_prefix(m, "o1"@) || has_prefix(m, "o2"@) || has_prefix(
        m,
        "o3"@,
    ) || has_prefix(m, "o4"@) || has_prefix(m, "chatgpt"@) {
        Ok(Provider::OpenAI)
    } else if has_prefix(m, "grok"@) {
        Ok(Provider::Xai)
    } else if has_prefix(m, "command"@) || has_prefix(m, "embed-"@) {
        Ok(Provider::Cohere)
    } else if has_prefix(m, "nova-"@) {
        Err(ProviderErrorView::BedrockModel(model))
    } else if begins_with_any(m, local_families()) {
        Ok(Provider::Ollama)
    } else {
        Err(ProviderErrorView::UnknownModel(model))
    }
}

/// The provider of a model: the one that is set, or else the one that the name of the model says.
pub open spec fn provider_for(
    model: Seq<char>,
    set: Option<Seq<char>>,
    family: Seq<char>,
) -> Result<Provider, ProviderErrorView> {
    match set {
        Some(p) => match provider_named(p) {
            Some(k) => Ok(k),
            None => Err(ProviderErrorView::UnknownProvider(p)),
        },
        None => provider_of_model(model, family),
    }
}

/// The view of a result.
pub open spec fn viewed<T>(r: Result<T, ProviderError>) -> Result<T, ProviderErrorView> {
    match r {
        Ok(t) => Ok(t),
        Err(e) => Err(e@),
    }
}

/// The provider of a model, given the setting `SEMANTEX_LLM_PROVIDER` and the name of Anthropic's
/// models in lower case.
pub fn infer_provider(model: &str, override_: Option<&str>, family: &str) -> (r: Result<
    Provider,
    ProviderError,
>)
    ensures
        viewed(r) == provider_for(model@, opt_str(override_), family@),
{
    match override_ {
        Some(p) => {
            return match parse_provider_string(p) {
                Some(k) => Ok(k),
                None => Err(ProviderError::UnknownProvider(p.to_owned())),
            };
        },
        None => {},
    }
    let m: String = to_ascii_lower(model);
    if contains_text(&m, "/") {
        return Err(ProviderError::PathStyleModel(model.to_owned()));
    }
    if starts_with(&m, family) {
        return Ok(Provider::Anthropic);
    }
    if starts_with(&m, "gemini") {
        return Ok(Provider::Gemini);
    }
    if starts_with(&m, "gpt") || starts_with(&m, "o1") || starts_with(&m, "o2") || starts_with(
        &m,
        "o3",
    ) || starts_with(&m, "o4") || starts_with(&m, "chatgpt") {
        return Ok(Provider::OpenAI);
    }
    if starts_with(&m, "grok") {
        return Ok(Provider::Xai);
    }
    if starts_with(&m, "command") || starts_with(&m, "embed-") {
        return Ok(Provider::Cohere);
    }
    if starts_with(&m, "nova-") {
        return Err(ProviderError::BedrockModel(model.to_owned()));
    }
    if is_local(&m) {
        return Ok(Provider::Ollama);
    }
    Err(ProviderError::UnknownModel(model.to_owned()))
}

/// A provider that is set is taken whatever the model is called, and an error names what was given.
pub proof fn lemma_set_provider_wins(
    model: Seq<char>,
    other: Seq<char>,
    set: Seq<char>,
    family: Seq<char>,
)
    ensures
        provider_for(model, Some(set), family) == provider_for(other, Some(set), family),
        provider_named(set) is Some ==> provider_for(model, Some(set), family) == Ok::<
            Provider,
            ProviderErrorView,
        >(provider_named(set)->0),
{
}

/// A model behind a web interface.
#[derive(Debug, Clone)]
pub struct GenaiConfig {
    pub model: String,
    pub provider: Provider,
    /// Where the interface is, if not at its usual place.
    pub endpoint: Option<String>,
    pub label: String,
}

/// What a [`GenaiConfig`] holds.
pub struct GenaiConfigView {
    pub model: Seq<char>,
    pub provider: Provider,
    pub endpoint: Option<Seq<char>>,
    pub label: Seq<char>,
}

impl View for GenaiConfig {
    type V = GenaiConfigView;

    open spec fn view(&self) -> GenaiConfigView {
        GenaiConfigView {
            model: self.model@,
            provider: self.provider,
            endpoint: opt_text(self.endpoint),
            label: self.label@,
        }
    }
}

/// The model that is configured: none unless one is set.
pub open spec fn genai_config(
    model: Option<Seq<char>>,
    provider: Option<Seq<char>>,
    endpoint: Option<Seq<char>>,
    family: Seq<char>,
) -> Result<Option<GenaiConfigView>, ProviderErrorView> {
    match model {
        None => Ok(None),
        Some(m) => match provider_for(m, provider, family) {
            Ok(p) => Ok(
                Some(GenaiConfigView { model: m, provider: p, endpoint, label: "genai/"@ + m }),
            ),
            Err(e) => Err(e),
        },
    }
}

impl GenaiConfig {
    /// The model that is configured, given the settings `SEMANTEX_LLM_MODEL`,
    /// `SEMANTEX_LLM_PROVIDER` and `SEMANTEX_LLM_ENDPOINT` and the name of Anthropic's models.
    pub fn from_env(
        model: Option<&str>,
        provider: Option<&str>,
        endpoint: Option<&str>,
        family: &str,
    ) -> (r: Result<Option<GenaiConfig>, ProviderError>)
        ensures
            (match r {
                Ok(Some(c)) => Ok(Some(c@)),
                Ok(None) => Ok(None),
                Err(e) => Err(e@),
            }) == genai_config(opt_str(model), opt_str(provider), opt_str(endpoint), family@),
    {
        let m: &str = match model {
            Some(m) => m,
            None => {
                return Ok(None);
            },
        };
        match infer_provider(m, provider, family) {
            Ok(p) => Ok(
                Some(
                    GenaiConfig {
                        model: m.to_owned(),
                        provider: p,
                        endpoint: match endpoint {
                            Some(e) => Some(e.to_owned()),
                            None => None,
                        },
                        label: "genai/".to_owned().concat(m),
                    },
                ),
            ),
            Err(e) => Err(e),
        }
    }
}

/// What a model is asked.
#[derive(Debug, Clone)]
pub struct ChatPlan {
    /// What it is told first.
    pub system: String,
    /// The question.
    pub user: String,
    /// The longest reply.
    pub max_tokens: u32,
}

/// What a [`ChatPlan`] holds.
pub struct ChatPlanView {
    pub system: Seq<char>,
    pub user: Seq<char>,
    pub max_tokens: u32,
}

impl View for ChatPlan {
    type V = ChatPlanView;

    open spec fn view(&self) -> ChatPlanView {
        ChatPlanView { system: self.system@, user: self.user@, max_tokens: self.max_tokens }
    }
}

/// Why a reply is not taken.
#[derive(Debug, Clone)]
pub enum ReplyError {
    /// There is no text where a route was asked for.
    EmptyRoute,
    /// There is no text where code was asked for.
    EmptyDoc,
    /// The text names no route.
    NoRoute(UnrecognizedRoute),
}

impl ReplyError {
    /// The error in words.
    pub fn message(&self) -> (r: String)
        ensures
            r@ == (match *self {
                ReplyError::EmptyRoute => "empty LLM classifier response"@,
                ReplyError::EmptyDoc => "empty HyDE response"@,
                ReplyError::NoRoute(u) => "LLM returned unrecognized route: "@ + quoted_text_of(
                    u.text@,
                ),
            }),
    {
        match self {
            ReplyError::EmptyRoute => "empty LLM classifier response".to_owned(),
            ReplyError::EmptyDoc => "empty HyDE response".to_owned(),
            ReplyError::NoRoute(u) => u.message(),
        }
    }
}

impl ChatPlan {
    /// What a model is asked for the route of a query.
    pub fn for_route(query: &str) -> (r: ChatPlan)
        ensures
            r@ == (ChatPlanView {
                system: CLASSIFIER_SYSTEM_PROMPT@,
                user: classify_prompt(query@),
                max_tokens: 8,
            }),
    {
        ChatPlan {
            system: CLASSIFIER_SYSTEM_PROMPT.to_owned(),
            user: build_classify_prompt(query),
            max_tokens: 8,
        }
    }

    /// What a model is asked for code that answers a query.
    pub fn for_doc(query: &str) -> (r: ChatPlan)
        ensures
            r@ == (ChatPlanView {
                system: HYDE_SYSTEM_PROMPT@,
                user: hyde_prompt(query@),
                max_tokens: 400,
            }),
    {
        ChatPlan {
            system: HYDE_SYSTEM_PROMPT.to_owned(),
            user: build_hyde_prompt(query),
            max_tokens: 400,
        }
    }
}

impl GenaiConfig {
    /// The route in the first text of a reply.
    pub fn classify_route(reply: Option<&str>) -> (r: Result<AgentRoute, ReplyError>)
        ensures
            match reply {
                None => r is Err && r->Err_0 is EmptyRoute,
                Some(t) => match r {
                    Ok(route) => route_in(t@) == Some(route),
                    Err(ReplyError::NoRoute(u)) => route_in(t@) is None && u.text@ == t@,
                    Err(_) => false,
                },
            },
    {
        match reply {
            Some(t) => match parse_route_from_llm_output(t) {
                Ok(route) => Ok(route),
                Err(u) => Err(ReplyError::NoRoute(u)),
            },
            None => Err(ReplyError::EmptyRoute),
        }
    }

    /// The code in the first text of a reply.
    pub fn synthesize_hyde_doc(reply: Option<&str>) -> (r: Result<String, ReplyError>)
        ensures
            match reply {
                None => r is Err && r->Err_0 is EmptyDoc,
                Some(t) => r is Ok && r->Ok_0@ == t@,
            },
    {
        match reply {
            Some(t) => Ok(t.to_owned()),
            None => Err(ReplyError::EmptyDoc),
        }
    }
}

/// The case of a name makes no difference to the provider: neither where it is set nor where it is
/// told from the model.
pub proof fn lemma_provider_case(name: Seq<char>, family: Seq<char>)
    ensures
        provider_named(ascii_lower(name)) == provider_named(name),
        provider_of_model(name, family) is Ok <==> provider_of_model(
            ascii_lower(name),
            family,
        ) is Ok,
        provider_of_model(name, family) matches Ok(p) ==> provider_of_model(
            ascii_lower(name),
            family,
        ) == Ok::<Provider, ProviderErrorView>(p),
{
    crate::text::lemma_ascii_lower(name);
}

/// What a model is called tells its provider: a name with a slash tells none, whatever it starts
/// with; the family that is given comes first of the others; and each error names the model as it
/// was given.
pub proof fn lemma_provider_told(model: Seq<char>, family: Seq<char>)
    ensures
        ({
            let m = ascii_lower(model);
            let r = provider_of_model(model, family);
            &&& r == Err::<Provider, ProviderErrorView>(ProviderErrorView::PathStyleModel(model))
                <==> has_text(m, "/"@)
            &&& !has_text(m, "/"@) && has_prefix(m, family) ==> r == Ok::<
                Provider,
                ProviderErrorView,
            >(Provider::Anthropic)
            &&& r == Ok::<Provider, ProviderErrorView>(Provider::Anthropic) ==> has_prefix(m, family)
            &&& r == Ok::<Provider, ProviderErrorView>(Provider::Gemini) ==> has_prefix(
                m,
                "gemini"@,
            )
            &&& r == Ok::<Provider, ProviderErrorView>(Provider::Xai) ==> has_prefix(m, "grok"@)
            &&& r == Ok::<Provider, ProviderErrorView>(Provider::Cohere) ==> has_prefix(
                m,
                "command"@,
            ) || has_prefix(m, "embed-"@)
            &&& r == Ok::<Provider, ProviderErrorView>(Provider::Ollama) ==> begins_with_any(
                m,
                local_families(),
            )
            &&& r matches Err(e) ==> e == ProviderErrorView::PathStyleModel(model) || e
                == ProviderErrorView::BedrockModel(model) || e == ProviderErrorView::UnknownModel(
                model,
            )
            &&& r == Err::<Provider, ProviderErrorView>(ProviderErrorView::BedrockModel(model))
                ==> has_prefix(m, "nova-"@)
        }),
{
}

/// A model that is set is asked under its own name, at the address that is set; without one no
/// model is.
pub proof fn lemma_genai_config(
    model: Seq<char>,
    provider: Option<Seq<char>>,
    endpoint: Option<Seq<char>>,
    family: Seq<char>,
)
    ensures
        genai_config(None, provider, endpoint, family) == Ok::<
            Option<GenaiConfigView>,
            ProviderErrorView,
        >(None),
        genai_config(Some(model), provider, endpoint, family) matches Ok(c) ==> {
            &&& c is Some
            &&& c->0.model == model
            &&& c->0.endpoint == endpoint
            &&& c->0.label == "genai/"@ + model
            &&& provider_for(model, provider, family) == Ok::<Provider, ProviderErrorView>(
                c->0.provider,
            )
        },
        genai_config(Some(model), provider, endpoint, family) matches Err(e) ==> provider_for(
            model,
            provider,
            family,
        ) == Err::<Provider, ProviderErrorView>(e),
        provider_for(model, None, family) == provider_of_model(model, family),
{
}

/// The name of a provider.
pub open spec fn name_of_provider(p: Provider) -> Seq<char> {
    match p {
        Provider::OpenAI => "openai"@,
        Provider::OpenAIResp => "openai_resp"@,
        Provider::Anthropic => "anthropic"@,
        Provider::Gemini => "gemini"@,
        Provider::Ollama => "ollama"@,
        Provider::Groq => "groq"@,
        Provider::Cohere => "cohere"@,
        Provider::DeepSeek => "deepseek"@,
        Provider::Xai => "xai"@,
        Provider::Fireworks => "fireworks"@,
        Provider::Together => "together"@,
    }
}

proof fn lemma_names_differ()
    ensures
        "openai"@.len() == 6 && "openrouter"@.len() == 10 && "openai_resp"@.len() == 11,
        "anthropic"@.len() == 9 && "gemini"@.len() == 6 && "ollama"@.len() == 6,
        "groq"@.len() == 4 && "cohere"@.len() == 6 && "deepseek"@.len() == 8,
        "xai"@.len() == 3 && "fireworks"@.len() == 9 && "together"@.len() == 8,
        "openai"@[1] == 'p' && "gemini"@[1] == 'e' && "ollama"@[1] == 'l' && "cohere"@[1] == 'o',
        "anthropic"@[0] == 'a' && "fireworks"@[0] == 'f',
        "deepseek"@[0] == 'd' && "together"@[0] == 't',
{
    reveal_strlit("openai");
    reveal_strlit("openrouter");
    reveal_strlit("openai_resp");
    reveal_strlit("anthropic");
    reveal_strlit("gemini");
    reveal_strlit("ollama");
    reveal_strlit("groq");
    reveal_strlit("cohere");
    reveal_strlit("deepseek");
    reveal_strlit("xai");
    reveal_strlit("fireworks");
    reveal_strlit("together");
}

/// Every provider is known by its own name, in whatever case it is written, and by no other's.
pub proof fn lemma_providers_named(p: Provider, name: Seq<char>)
    ensures
        ascii_lower(name) == name_of_provider(p) ==> provider_named(name) == Some(p),
        provider_named(name) == Some(p) ==> ascii_lower(name) == name_of_provider(p) || (p
            == Provider::OpenAI && ascii_lower(name) == "openrouter"@),
{
    lemma_names_differ();
}

/// What the name of a model may start with, in the order in which it counts, and the provider that
/// it tells.
pub open spec fn model_heads() -> Seq<(Seq<char>, Provider)> {
    seq![
        ("gemini"@, Provider::Gemini),
        ("gpt"@, Provider::OpenAI),
        ("o1"@, Provider::OpenAI),
        ("o2"@, Provider::OpenAI),
        ("o3"@, Provider::OpenAI),
        ("o4"@, Provider::OpenAI),
        ("chatgpt"@, Provider::OpenAI),
        ("grok"@, Provider::Xai),
        ("command"@, Provider::Cohere),
        ("embed-"@, Provider::Cohere),
    ]
}

/// A model without a slash in its name, and not of the given family, is served by the provider that
/// the first of the known starts tells. One that starts with none of them is told to be one of
/// Bedrock, one that runs locally, or not known.
pub proof fn lemma_first_head_counts(model: Seq<char>, family: Seq<char>, i: int)
    requires
        0 <= i < model_heads().len(),
        !has_text(ascii_lower(model), "/"@),
        !has_prefix(ascii_lower(model), family),
    ensures
        has_prefix(ascii_lower(model), model_heads()[i].0) && (forall|j: int|
            0 <= j < i ==> !has_prefix(ascii_lower(model), (#[trigger] model_heads()[j]).0))
            ==> provider_of_model(model, family) == Ok::<Provider, ProviderErrorView>(
            model_heads()[i].1,
        ),
        (forall|j: int|
            0 <= j < model_heads().len() ==> !has_prefix(
                ascii_lower(model),
                (#[trigger] model_heads()[j]).0,
            )) ==> provider_of_model(model, family) == (if has_prefix(
            ascii_lower(model),
            "nova-"@,
        ) {
            Err::<Provider, ProviderErrorView>(ProviderErrorView::BedrockModel(model))
        } else if begins_with_any(ascii_lower(model), local_families()) {
            Ok(Provider::Ollama)
        } else {
            Err(ProviderErrorView::UnknownModel(model))
        }),
{
    let hs = model_heads();
    assert(hs[0] == ("gemini"@, Provider::Gemini));
    assert(hs[1] == ("gpt"@, Provider::OpenAI));
    assert(hs[2] == ("o1"@, Provider::OpenAI));
    assert(hs[3] == ("o2"@, Provider::OpenAI));
    assert(hs[4] == ("o3"@, Provider::OpenAI));
    assert(hs[5] == ("o4"@, Provider::OpenAI));
    assert(hs[6] == ("chatgpt"@, Provider::OpenAI));
    assert(hs[7] == ("grok"@, Provider::Xai));
    assert(hs[8] == ("command"@, Provider::Cohere));
    assert(hs[9] == ("embed-"@, Provider::Cohere));
}

} // verus!
