use semantex_core::llm::backend::{LlmBackend, LlmSettings};
use semantex_core::llm::classifier::{classify_with_llm, route_or_else, LlmClassifier};
use semantex_core::llm::genai_backend::{
    infer_provider, parse_provider_string, ChatPlan, GenaiConfig, Provider,
};
use semantex_core::llm::hyde::LlmHyDE;
use semantex_core::llm::loader::{ModelFile, OnnxLlm};
use semantex_core::llm::prompts::{
    build_classify_prompt, build_hyde_prompt, detect_language_hint, parse_route_from_llm_output,
    AgentRoute, CLASSIFIER_SYSTEM_PROMPT, HYDE_SYSTEM_PROMPT,
};
use semantex_core::llm::subscription_cli::{
    classify_timeout, hyde_timeout, names_cli, read_output, resolve_binary, BinaryOverride,
    ClaudeJsonResult, CliFacts, CliKind, CliOutput, SubscriptionCliBackend,
    MAX_CLASSIFY_STDOUT_BYTES, MAX_HYDE_STDOUT_BYTES,
};
use std::cell::Cell;

const ROUTES: [AgentRoute; 10] = [
    AgentRoute::FilePattern,
    AgentRoute::Regex,
    AgentRoute::ExactSymbol,
    AgentRoute::StructuralSearch,
    AgentRoute::Deep,
    AgentRoute::Analytical,
    AgentRoute::Exhaustive,
    AgentRoute::Semantic,
    AgentRoute::Architecture,
    AgentRoute::FeaturePlanning,
];

/// The name of Anthropic's models.
fn family() -> String {
    format!("{:?}", CliKind::Claude).to_lowercase()
}

fn facts() -> CliFacts {
    CliFacts { family: family(), set: None, claude_on_path: None, codex_on_path: None }
}

fn route(text: &str) -> AgentRoute {
    parse_route_from_llm_output(text).unwrap()
}

struct MockLlmClassifier {
    route: Option<AgentRoute>,
    calls: Cell<usize>,
}

impl LlmClassifier for MockLlmClassifier {
    fn classify(&self, _query: &str) -> Result<AgentRoute, String> {
        self.calls.set(self.calls.get() + 1);
        self.route.ok_or("synthetic LLM failure".to_string())
    }
}

fn mock(route: Option<AgentRoute>) -> MockLlmClassifier {
    MockLlmClassifier { route, calls: Cell::new(0) }
}

struct MockLlmHyDE {
    doc: Option<String>,
    calls: Cell<usize>,
}

impl LlmHyDE for MockLlmHyDE {
    fn synthesize_doc(&self, _query: &str) -> Result<String, String> {
        self.calls.set(self.calls.get() + 1);
        self.doc.clone().ok_or("synthetic HyDE failure".to_string())
    }
}

fn onnx() -> OnnxLlm {
    OnnxLlm { model_path: "/tmp/does-not-matter.onnx".to_string() }
}

#[test]
fn mock_returns_feature_planning_when_configured() {
    let m = mock(Some(AgentRoute::FeaturePlanning));
    assert_eq!(m.classify("anything").unwrap(), AgentRoute::FeaturePlanning);
    assert_eq!(m.calls.get(), 1);
}

#[test]
fn classify_with_llm_uses_mock_route() {
    let m = mock(Some(AgentRoute::FeaturePlanning));
    let route = classify_with_llm("authentication middleware", &m, AgentRoute::Semantic);
    assert_eq!(route, AgentRoute::FeaturePlanning);
}

#[test]
fn classify_with_llm_falls_back_when_mock_errs() {
    let m = mock(None);
    let route = classify_with_llm("how does authentication work?", &m, AgentRoute::Deep);
    assert_eq!(route, AgentRoute::Deep);
    assert_eq!(m.calls.get(), 1);
    assert_eq!(route_or_else(Ok(AgentRoute::Regex), AgentRoute::Deep), AgentRoute::Regex);
}

#[test]
fn onnx_classifier_returns_err_in_scaffold() {
    assert!(onnx().classify("anything").is_err());
}

#[test]
fn mock_returns_doc() {
    let m = MockLlmHyDE {
        doc: Some("fn handle_timeout(d: Duration) {}".to_string()),
        calls: Cell::new(0),
    };
    let doc = m.synthesize_doc("find timeout handling").unwrap();
    assert!(doc.contains("Duration"));
    assert_eq!(m.calls.get(), 1);
}

#[test]
fn mock_propagates_err() {
    let m = MockLlmHyDE { doc: None, calls: Cell::new(0) };
    assert!(m.synthesize_doc("anything").is_err());
    assert_eq!(m.calls.get(), 1);
}

#[test]
fn onnx_hyde_returns_err_in_scaffold() {
    assert!(onnx().synthesize_doc("anything").is_err());
}

#[test]
fn load_from_path_returns_none_when_missing() {
    assert!(OnnxLlm::load_from_path("/x.onnx", &ModelFile::Nothing).unwrap().is_none());
    assert!(OnnxLlm::load(None, &ModelFile::RegularFile).unwrap().is_none());
}

#[test]
fn load_from_path_returns_handle_when_file_exists() {
    let result = OnnxLlm::load_from_path("/x.onnx", &ModelFile::RegularFile).unwrap();
    assert_eq!(result.unwrap().model_path, "/x.onnx");
    let result = OnnxLlm::load(Some("/y.onnx"), &ModelFile::RegularFile).unwrap();
    assert_eq!(result.unwrap().model_path, "/y.onnx");
}

#[test]
fn load_from_path_errors_when_path_is_directory() {
    let err = OnnxLlm::load_from_path("/d", &ModelFile::Other).unwrap_err();
    assert!(err.message().contains("is not a regular file"));
    let err = OnnxLlm::load_from_path("/d", &ModelFile::Unreadable).unwrap_err();
    assert!(err.message().contains("/d"));
}

#[test]
fn parse_route_each_variant_round_trips() {
    for variant in ROUTES {
        let display = variant.as_str();
        assert_eq!(route(display), variant, "round-trip failed for {display:?}");
    }
}

#[test]
fn parse_route_accepts_both_cases() {
    assert_eq!(route("Deep"), AgentRoute::Deep);
    assert_eq!(route("deep"), AgentRoute::Deep);
    assert_eq!(route("DEEP"), AgentRoute::Deep);
    assert_eq!(route("  deep\n"), AgentRoute::Deep);
}

#[test]
fn parse_route_rejects_unknown() {
    let err = parse_route_from_llm_output("not a route").unwrap_err();
    assert!(
        err.message().contains("unrecognized"),
        "expected 'unrecognized' in error, got: {}",
        err.message()
    );
}

#[test]
fn parse_route_accepts_both_naming_forms() {
    assert_eq!(route("exact_symbol"), AgentRoute::ExactSymbol);
    assert_eq!(route("exactsymbol"), AgentRoute::ExactSymbol);
    assert_eq!(route("file_pattern"), AgentRoute::FilePattern);
    assert_eq!(route("filepattern"), AgentRoute::FilePattern);
    assert!(
        parse_route_from_llm_output("exhaustive_structural").is_err(),
        "exhaustive_structural is no longer a valid route"
    );
    assert!(
        parse_route_from_llm_output("deep_with_examples").is_err(),
        "deep_with_examples is no longer a valid route"
    );
    assert_eq!(route("feature_planning"), AgentRoute::FeaturePlanning);
    assert_eq!(route("featureplanning"), AgentRoute::FeaturePlanning);
}

#[test]
fn parse_route_strips_label_prefix() {
    assert_eq!(route("Route: deep"), AgentRoute::Deep);
    assert_eq!(route("route: deep"), AgentRoute::Deep);
    assert_eq!(route("Route = structural"), AgentRoute::StructuralSearch);
    assert_eq!(route("Answer: feature_planning"), AgentRoute::FeaturePlanning);
    assert_eq!(route("  Route:  exactSymbol  "), AgentRoute::ExactSymbol);
    assert_eq!(route("architecture"), AgentRoute::Architecture);
}

#[test]
fn detect_language_hint_ordering() {
    assert_eq!(detect_language_hint("write a server in javascript"), Some("JavaScript"));
    assert_eq!(detect_language_hint("write a server in typescript"), Some("TypeScript"));
    assert_eq!(detect_language_hint("write a class in java"), Some("Java"));
    assert_eq!(detect_language_hint("write this in js"), Some("JavaScript"));
    assert_eq!(detect_language_hint("write this in ts"), Some("TypeScript"));
    assert_eq!(detect_language_hint("write me a class in c#"), Some("C#"));
    assert_eq!(detect_language_hint("write me a class in csharp"), Some("C#"));
    assert_eq!(detect_language_hint("write this in c++"), Some("C++"));
    assert_eq!(detect_language_hint("write this in cplusplus"), Some("C++"));
    assert_eq!(detect_language_hint("write a function in objective-c"), Some("Objective-C"));
    assert_eq!(detect_language_hint("write a function in c "), Some("C"));
    assert_eq!(detect_language_hint("a snippet in c"), Some("C"));
    assert_eq!(detect_language_hint("write this in golang"), Some("Go"));
    assert_eq!(detect_language_hint("write this in go "), Some("Go"));
    assert_eq!(detect_language_hint("in python please"), Some("Python"));
    assert_eq!(detect_language_hint("rust example"), Some("Rust"));
    assert_eq!(detect_language_hint("kotlin example"), Some("Kotlin"));
    assert_eq!(detect_language_hint("swift example"), Some("Swift"));
    assert_eq!(detect_language_hint("dart example"), Some("Dart"));
    assert_eq!(detect_language_hint("scala example"), Some("Scala"));
    assert_eq!(detect_language_hint("no language hint here"), None);
    assert_eq!(detect_language_hint("how does auth work"), None);
}

#[test]
fn all_variants_covered_by_parse_exhaustiveness_guard() {
    for r in ROUTES {
        // No arm for the rest: a new route has to be added here.
        match r {
            AgentRoute::FilePattern => {}
            AgentRoute::Regex => {}
            AgentRoute::ExactSymbol => {}
            AgentRoute::StructuralSearch => {}
            AgentRoute::Deep => {}
            AgentRoute::Analytical => {}
            AgentRoute::Exhaustive => {}
            AgentRoute::Semantic => {}
            AgentRoute::Architecture => {}
            AgentRoute::FeaturePlanning => {}
        }
    }
}

#[test]
fn prompts_hold_the_query() {
    assert!(build_classify_prompt("who calls f?").contains("who calls f?"));
    assert!(build_classify_prompt("x").ends_with("Route:"));
    assert!(build_hyde_prompt("a queue in rust").contains("a queue in rust"));
    assert!(build_hyde_prompt("a queue in rust").contains("Rust"));
    for r in ROUTES {
        assert!(CLASSIFIER_SYSTEM_PROMPT.contains(r.as_str()), "{}", r.as_str());
    }
}

#[test]
fn genai_backend_from_env_returns_none_when_unset() {
    let result = GenaiConfig::from_env(None, Some("openai"), None, &family());
    assert!(result.is_ok());
    assert!(result.unwrap().is_none());
}

#[test]
fn provider_inference_from_model_name() {
    let f = family();
    let ours = [format!("{f}-sonnet-4-6"), format!("{f}-3-opus-20240229")];
    let cases: Vec<(&str, Option<&str>, Option<Provider>)> = vec![
        (&ours[0], None, Some(Provider::Anthropic)),
        (&ours[1], None, Some(Provider::Anthropic)),
        ("gpt-4o", None, Some(Provider::OpenAI)),
        ("gpt-3.5-turbo", None, Some(Provider::OpenAI)),
        ("o1-preview", None, Some(Provider::OpenAI)),
        ("o3-mini", None, Some(Provider::OpenAI)),
        ("gemini-2.5-pro", None, Some(Provider::Gemini)),
        ("gemini-flash-1.5", None, Some(Provider::Gemini)),
        ("qwen2.5-coder:7b", None, Some(Provider::Ollama)),
        ("llama3.2", None, Some(Provider::Ollama)),
        ("mistral:latest", None, Some(Provider::Ollama)),
        ("mixtral:8x7b", None, Some(Provider::Ollama)),
        ("deepseek-coder:latest", None, Some(Provider::Ollama)),
        ("phi3:mini", None, Some(Provider::Ollama)),
        ("my-private-model", Some("anthropic"), Some(Provider::Anthropic)),
        ("my-private-model", Some("openai"), Some(Provider::OpenAI)),
        ("my-private-model", Some("ollama"), Some(Provider::Ollama)),
        ("my-private-model", Some("gemini"), Some(Provider::Gemini)),
        ("unknown-model-xyz", None, None),
        ("o2-mini", None, Some(Provider::OpenAI)),
        ("command-r", None, Some(Provider::Cohere)),
        ("command-r-plus", None, Some(Provider::Cohere)),
        ("accounts/fireworks/models/qwen2p5-coder-7b-instruct", None, None),
        ("nova-micro", None, None),
        ("nova-pro", None, None),
        ("nova-pro", Some("openai"), Some(Provider::OpenAI)),
        ("GPT-4o", None, Some(Provider::OpenAI)),
        ("gpt-4o", Some("nobody"), None),
    ];
    for (model, set, expect) in cases {
        match (infer_provider(model, set, &f), expect) {
            (Ok(p), Some(e)) => assert_eq!(p, e, "model={model:?} provider={set:?}"),
            (Err(e), None) => {
                let msg = e.message();
                assert!(
                    msg.contains("SEMANTEX_LLM_PROVIDER") || msg.contains("unknown provider"),
                    "error should mention SEMANTEX_LLM_PROVIDER, got: {msg}"
                );
            }
            (got, _) => panic!("model={model:?} provider={set:?} got {got:?}"),
        }
    }
}

#[test]
fn provider_errors_quote_what_was_given() {
    let err = infer_provider("a\"b\n", None, &family()).unwrap_err().message();
    assert!(err.starts_with("Cannot infer LLM provider from model name \"a\\\"b\\n\". Set"), "{err}");
    let err = infer_provider("x", Some("me"), &family()).unwrap_err().message();
    assert!(err.starts_with("SEMANTEX_LLM_PROVIDER=\"me\" is not a recognised provider."), "{err}");
    assert_eq!(parse_provider_string("nobody"), None);
    assert_eq!(parse_provider_string("groq"), Some(Provider::Groq));
}

#[test]
fn subscription_cli_from_env_returns_none_when_unset() {
    let result = SubscriptionCliBackend::from_env(None, &facts());
    assert!(matches!(result, Ok(None)), "expected Ok(None), got {result:?}");
}

#[test]
fn from_env_returns_none_when_not_cli_prefix() {
    let result = SubscriptionCliBackend::from_env(Some("genai/something"), &facts());
    assert!(matches!(result, Ok(None)), "expected Ok(None), got {result:?}");
}

#[test]
fn from_env_rejects_unknown_kind() {
    let err = SubscriptionCliBackend::from_env(Some("cli:bogus"), &facts()).unwrap_err();
    assert!(
        err.message().contains("unknown SEMANTEX_LLM_BACKEND value: cli:bogus"),
        "unexpected error: {}",
        err.message()
    );
}

#[test]
fn from_env_rejects_antigravity_at_startup() {
    let err = SubscriptionCliBackend::from_env(Some("cli:antigravity"), &facts()).unwrap_err();
    let msg = err.message();
    assert!(
        msg.contains("antigravity") && msg.contains(&format!("Use cli:{}", family())),
        "expected antigravity startup-error message, got: {msg}"
    );
    assert_eq!(
        msg,
        format!(
            "cli:antigravity is not yet supported. Use cli:{} or cli:codex until the Antigravity \
             headless surface stabilizes (Spec L §5 Item 2.4).",
            family()
        )
    );
}

#[test]
fn a_program_is_found_on_the_path_or_where_it_is_set() {
    let mut f = facts();
    let ours = format!("cli:{}", family());
    let err = SubscriptionCliBackend::from_env(Some(&ours), &f).unwrap_err();
    assert!(err.message().starts_with(&format!("{} CLI not found on PATH", family())));
    let err = SubscriptionCliBackend::from_env(Some("cli:auto"), &f).unwrap_err();
    assert_eq!(err.message(), "SEMANTEX_LLM_BACKEND=cli:auto but no supported CLI found on PATH");

    f.codex_on_path = Some("/bin/codex".to_string());
    let b = SubscriptionCliBackend::from_env(Some("cli:auto"), &f).unwrap().unwrap();
    assert_eq!((b.kind, b.binary.as_str(), b.label.as_str()), (CliKind::Codex, "/bin/codex", "cli:codex"));
    f.claude_on_path = Some("/bin/other".to_string());
    let b = SubscriptionCliBackend::from_env(Some("cli:auto"), &f).unwrap().unwrap();
    assert_eq!((b.kind, b.label), (CliKind::Claude, ours));

    assert!(names_cli(CliKind::Codex, &family(), "/opt/codex.exe"));
    assert!(!names_cli(CliKind::Codex, &family(), "/opt/codex2"));
    assert!(!names_cli(CliKind::Codex, &family(), "/codex/.."));
    let set = |exists: bool| Some(BinaryOverride { path: "/opt/codex.exe".to_string(), exists });
    let on_path = Some("/bin/x".to_string());
    let found = resolve_binary(CliKind::Codex, &family(), &set(true), &on_path);
    assert_eq!(found.unwrap(), "/opt/codex.exe");
    let found = resolve_binary(CliKind::Codex, &family(), &set(false), &on_path);
    assert_eq!(found.unwrap_err().message(), "SEMANTEX_LLM_CLI_BINARY=/opt/codex.exe does not exist");
    let found = resolve_binary(CliKind::Claude, &family(), &set(false), &on_path);
    assert_eq!(found.unwrap(), "/bin/x");
}

/// What a program prints, read as JSON with a result.
fn parsed(raw: &str) -> Option<ClaudeJsonResult> {
    let value: serde_json::Value = serde_json::from_str(raw).ok()?;
    Some(ClaudeJsonResult {
        result: value.get("result")?.as_str()?.to_string(),
        is_error: match value.get("is_error") {
            Some(flag) => flag.as_bool()?,
            None => false,
        },
    })
}

fn claude_text(raw: &str) -> String {
    CliKind::Claude.extract_text(raw, &parsed(raw))
}

#[test]
fn extract_text_claude_strips_json() {
    let raw = r#"{"type":"result","result":"deep","is_error":false}"#;
    assert_eq!(claude_text(raw), "deep");
    let raw = r#"{"result":"deep\n"}"#;
    assert_eq!(claude_text(raw), "deep\n");
    let raw = r#"{"result":"deep","is_error":true}"#;
    assert_eq!(claude_text(raw), "[LLM ERROR] deep");
    assert!(parse_route_from_llm_output("[LLM ERROR] deep").is_err());
}

#[test]
fn extract_text_claude_malformed_falls_back_to_raw() {
    let raw = "not json";
    assert_eq!(claude_text(raw), "not json");
    for raw in [r#"{"result":7}"#, r#"{"result":"a","is_error":"no"}"#, r#"{"result":"a"} x"#] {
        assert_eq!(claude_text(raw), raw);
    }
}

#[test]
fn extract_text_codex_passes_through() {
    let raw = "deep";
    assert_eq!(CliKind::Codex.extract_text(raw, &None), "deep");
    let raw = r#"{"result":"deep"}"#;
    assert_eq!(CliKind::Codex.extract_text(raw, &parsed(raw)), raw);
}

#[test]
fn an_answer_in_json_is_read_from_the_output() {
    let backend = SubscriptionCliBackend::new(CliKind::Claude, &family(), "/bin/x".to_string());
    let raw = r#"{"result":"deep","is_error":true}"#;
    let mut out = CliOutput {
        success: true,
        status: "exit status: 0".to_string(),
        stderr: String::new(),
        stdout_len: raw.len(),
        stdout: raw.to_string(),
        parsed: parsed(raw),
    };
    assert!(backend.classify_route(&out).is_err());
    assert_eq!(backend.synthesize_hyde_doc(&out).unwrap(), "[LLM ERROR] deep");
    out.parsed = Some(ClaudeJsonResult { result: "deep".to_string(), is_error: false });
    assert_eq!(backend.classify_route(&out).unwrap(), AgentRoute::Deep);
    out.parsed = None;
    assert_eq!(backend.synthesize_hyde_doc(&out).unwrap(), raw);
}

#[test]
fn classify_timeout_env_override() {
    assert_eq!(classify_timeout(Some("3000")), 3000);
    assert_eq!(classify_timeout(Some("3 s")), 8000);
}

#[test]
fn hyde_timeout_env_override() {
    assert_eq!(hyde_timeout(Some("30000")), 30000);
}

#[test]
fn default_timeouts_are_correct() {
    assert_eq!(classify_timeout(None), 8 * 1000);
    assert_eq!(hyde_timeout(None), 15 * 1000);
}

#[test]
fn exec_claude_command_has_no_prompt_arg() {
    let args = CliKind::Claude.args();
    assert_eq!(args.len(), 3);
    assert_eq!(args[0], "--print");
    assert_eq!(args[1], "--output-format");
    assert_eq!(args[2], "json");
    assert_eq!(CliKind::Codex.args(), vec!["exec", "--quiet"]);
    let asked = SubscriptionCliBackend::classify_input("who calls f?");
    assert_eq!(asked, format!("{CLASSIFIER_SYSTEM_PROMPT}\n\n{}", build_classify_prompt("who calls f?")));
    let asked = SubscriptionCliBackend::hyde_input("a queue");
    assert_eq!(asked, format!("{HYDE_SYSTEM_PROMPT}\n\n{}", build_hyde_prompt("a queue")));
}

#[test]
fn output_is_only_read_where_the_program_succeeded() {
    let mut out = CliOutput {
        success: false,
        status: "exit status: 2".to_string(),
        stderr: "no".to_string(),
        stdout_len: 4,
        stdout: "deep".to_string(),
        parsed: None,
    };
    let err = read_output(CliKind::Codex, &out, MAX_CLASSIFY_STDOUT_BYTES).unwrap_err();
    assert_eq!(err.message(), "LLM CLI exited exit status: 2: no");
    out.success = true;
    assert_eq!(read_output(CliKind::Codex, &out, 4).unwrap(), "deep");
    let err = read_output(CliKind::Codex, &out, 3).unwrap_err();
    assert_eq!(
        err.message(),
        "LLM CLI produced oversized output (4 bytes); expected at most 3 bytes"
    );
}

#[test]
fn a_web_model_is_chosen_before_a_program() {
    let mut f = facts();
    f.codex_on_path = Some("/bin/codex".to_string());
    let mut s = LlmSettings {
        model: Some("gpt-4o"),
        provider: None,
        endpoint: None,
        backend: Some("cli:codex"),
    };
    assert_eq!(LlmBackend::from_env(&s, &f).unwrap().unwrap().label(), "genai/gpt-4o");
    s.model = None;
    assert_eq!(LlmBackend::from_env(&s, &f).unwrap().unwrap().label(), "cli:codex");
    s.backend = None;
    assert!(LlmBackend::from_env(&s, &f).unwrap().is_none());
    s.model = Some("what");
    assert!(LlmBackend::from_env(&s, &f).unwrap_err().message().starts_with("Cannot infer"));
    s.model = None;
    s.backend = Some("cli:what");
    assert_eq!(
        LlmBackend::from_env(&s, &f).unwrap_err().message(),
        "unknown SEMANTEX_LLM_BACKEND value: cli:what"
    );
}

#[test]
fn a_web_model_is_asked_for_a_route_or_a_document() {
    let plan = ChatPlan::for_route("who calls it");
    assert_eq!(plan.system, CLASSIFIER_SYSTEM_PROMPT);
    assert_eq!(plan.user, build_classify_prompt("who calls it"));
    assert_eq!(plan.max_tokens, 8);
    let plan = ChatPlan::for_doc("a queue");
    assert_eq!(plan.system, HYDE_SYSTEM_PROMPT);
    assert_eq!(plan.user, build_hyde_prompt("a queue"));
    assert_eq!(plan.max_tokens, 400);
}

#[test]
fn a_reply_of_a_web_model_is_read() {
    assert_eq!(GenaiConfig::classify_route(Some(" Deep\n")).unwrap(), AgentRoute::Deep);
    assert_eq!(
        GenaiConfig::classify_route(None).unwrap_err().message(),
        "empty LLM classifier response"
    );
    assert_eq!(
        GenaiConfig::classify_route(Some("perhaps")).unwrap_err().message(),
        parse_route_from_llm_output("perhaps").unwrap_err().message()
    );
    assert_eq!(GenaiConfig::synthesize_hyde_doc(Some(" fn f() {} ")).unwrap(), " fn f() {} ");
    assert_eq!(
        GenaiConfig::synthesize_hyde_doc(None).unwrap_err().message(),
        "empty HyDE response"
    );
}

#[test]
fn output_of_a_program_gives_a_route_or_a_document() {
    let backend = SubscriptionCliBackend::new(CliKind::Codex, &family(), "/bin/codex".to_string());
    let mut out = CliOutput {
        success: true,
        status: "exit status: 0".to_string(),
        stderr: String::new(),
        stdout_len: 6,
        stdout: "route: regex".to_string(),
        parsed: None,
    };
    assert_eq!(backend.classify_route(&out).unwrap(), AgentRoute::Regex);
    assert_eq!(backend.synthesize_hyde_doc(&out).unwrap(), "route: regex");
    out.stdout = "perhaps".to_string();
    assert_eq!(
        backend.classify_route(&out).unwrap_err().message(),
        parse_route_from_llm_output("perhaps").unwrap_err().message()
    );
    out.stdout_len = MAX_CLASSIFY_STDOUT_BYTES + 1;
    assert!(backend.classify_route(&out).is_err());
    assert!(backend.synthesize_hyde_doc(&out).is_ok());
    out.stdout_len = MAX_HYDE_STDOUT_BYTES + 1;
    assert!(backend.synthesize_hyde_doc(&out).is_err());
}
