//! Models behind the command line of a coding agent: which program is run, with which arguments,
//! and what its output means.

use crate::llm::prompts::{
    build_classify_prompt, build_hyde_prompt, classify_prompt, hyde_prompt, opt_str,
    parse_route_from_llm_output, route_in, without_label, AgentRoute, CLASSIFIER_SYSTEM_PROMPT,
    HYDE_SYSTEM_PROMPT, UnrecognizedRoute,
};
use crate::path::{file_name, file_name_of};
use crate::text::{
    after_prefix, ascii_lower, chars_of, decimal, decimal_text, has_prefix, is_space, opt_text,
    parse_unsigned, quoted_text_of, same_text, strip_prefix, text_of_range, trimmed, trimmed_end,
    trimmed_start, unsigned_upto, views,
};
use vstd::prelude::*;

verus! {

/// The longest output that is read when a route is asked for, in bytes.
pub const MAX_CLASSIFY_STDOUT_BYTES: usize = 1024;

/// The longest output that is read when code is asked for, in bytes.
pub const MAX_HYDE_STDOUT_BYTES: usize = 51200;

/// A time in milliseconds: what a setting says, if it is a number, else the default.
pub open spec fn millis_or(setting: Option<Seq<char>>, default: u64) -> nat {
    match setting {
        Some(s) => match unsigned_upto(s, u64::MAX as nat) {
            Some(n) => n,
            None => default as nat,
        },
        None => default as nat,
    }
}

fn millis(setting: Option<&str>, default: u64) -> (r: u64)
    ensures
        r == millis_or(opt_str(setting), default),
{
    match setting {
        Some(s) => match parse_unsigned(s, u64::MAX) {
            Some(n) => n,
            None => default,
        },
        None => default,
    }
}

/// How long a route is waited for, in milliseconds, given the setting
/// `SEMANTEX_LLM_CLASSIFY_TIMEOUT_MS`: 8 seconds unless it is a number.
pub fn classify_timeout(setting: Option<&str>) -> (r: u64)
    ensures
        r == millis_or(opt_str(setting), 8000),
{
    millis(setting, 8000)
}

/// How long code is waited for, in milliseconds, given the setting `SEMANTEX_LLM_HYDE_TIMEOUT_MS`:
/// 15 seconds unless it is a number.
pub fn hyde_timeout(setting: Option<&str>) -> (r: u64)
    ensures
        r == millis_or(opt_str(setting), 15000),
{
    millis(setting, 15000)
}

/// The program that is run.
#[derive(Debug, Clone, Copy, PartialEq, Eq, Structural)]
pub enum CliKind {
    Claude,
    Codex,
}

impl CliKind {
    /// The name of the program. The one that runs Anthropic's models is called as they are:
    /// `family` is their name, in lower case.
    pub open spec fn name(self, family: Seq<char>) -> Seq<char> {
        match self {
            CliKind::Claude => family,
            CliKind::Codex => "codex"@,
        }
    }

    /// The name of the program, given the name of Anthropic's models.
    pub fn cli_name<'a>(self, family: &'a str) -> (r: &'a str)
        ensures
            r@ == self.name(family@),
    {
        match self {
            CliKind::Claude => family,
            CliKind::Codex => "codex",
        }
    }

    /// The arguments of the program. The question is not among them: it is written to its standard
    /// input.
    pub fn args(self) -> (r: Vec<String>)
        ensures
            views(r@) == (match self {
                CliKind::Claude => seq!["--print"@, "--output-format"@, "json"@],
                CliKind::Codex => seq!["exec"@, "--quiet"@],
            }),
    {
        let mut r: Vec<String> = Vec::new();
        match self {
            CliKind::Claude => {
                r.push("--print".to_owned());
                r.push("--output-format".to_owned());
                r.push("json".to_owned());
                proof {
                    assert(views(r@) =~= seq!["--print"@, "--output-format"@, "json"@]);
                }
            },
            CliKind::Codex => {
                r.push("exec".to_owned());
                r.push("--quiet".to_owned());
                proof {
                    assert(views(r@) =~= seq!["exec"@, "--quiet"@]);
                }
            },
        }
        r
    }

    /// The answer in what the program has printed, which is `raw`, and `parsed` where that is the
    /// JSON that a program prints: the result in it, marked where it is an error; all that was
    /// printed where it is not such JSON, and always for a program that prints plain text.
    pub fn extract_text(self, raw: &str, parsed: &Option<ClaudeJsonResult>) -> (r: String)
        ensures
            r@ == text_in(self, raw@, reply_view(*parsed)),
    {
        match self {
            CliKind::Claude => match parsed {
                Some(p) => if p.is_error {
                    "[LLM ERROR] ".to_owned().concat(&p.result)
                } else {
                    p.result.clone()
                },
                None => raw.to_owned(),
            },
            CliKind::Codex => raw.to_owned(),
        }
    }
}

/// What a program prints as JSON, as far as it is read.
#[derive(Debug, Clone)]
pub struct ClaudeJsonResult {
    /// The answer, or what went wrong.
    pub result: String,
    /// Whether something did; `false` where nothing is said of it.
    pub is_error: bool,
}

/// The result and whether it is an error, where there is JSON.
pub open spec fn reply_view(o: Option<ClaudeJsonResult>) -> Option<(Seq<char>, bool)> {
    match o {
        Some(p) => Some((p.result@, p.is_error)),
        None => None,
    }
}

/// The answer in what a program has printed.
pub open spec fn text_in(kind: CliKind, raw: Seq<char>, parsed: Option<(Seq<char>, bool)>) -> Seq<
    char,
> {
    match (kind, parsed) {
        (CliKind::Claude, Some((result, true))) => "[LLM ERROR] "@ + result,
        (CliKind::Claude, Some((result, false))) => result,
        _ => raw,
    }
}

/// Why a program cannot be run, or why its output is not taken.
#[derive(Debug, Clone)]
pub enum CliError {
    /// `cli:antigravity`, which cannot be run without a screen.
    Antigravity { family: String },
    /// Any other value after `cli:`.
    UnknownKind(String),
    /// None of the programs is there.
    NoneFound,
    /// The program that was set is not there.
    MissingBinary(String),
    /// The program of this name is not on the path.
    NotOnPath(String),
    /// The program failed.
    Exited { status: String, stderr: String },
    /// The program printed too much.
    Oversized { bytes: usize, max: usize },
    /// The answer names no route.
    NoRoute(UnrecognizedRoute),
}

/// What a [`CliError`] says.
pub enum CliErrorView {
    Antigravity(Seq<char>),
    UnknownKind(Seq<char>),
    NoneFound,
    MissingBinary(Seq<char>),
    NotOnPath(Seq<char>),
    Exited(Seq<char>, Seq<char>),
    Oversized(usize, usize),
    NoRoute(Seq<char>),
}

impl View for CliError {
    type V = CliErrorView;

    open spec fn view(&self) -> CliErrorView {
        match self {
            CliError::Antigravity { family } => CliErrorView::Antigravity(family@),
            CliError::UnknownKind(k) => CliErrorView::UnknownKind(k@),
            CliError::NoneFound => CliErrorView::NoneFound,
            CliError::MissingBinary(p) => CliErrorView::MissingBinary(p@),
            CliError::NotOnPath(n) => CliErrorView::NotOnPath(n@),
            CliError::Exited { status, stderr } => CliErrorView::Exited(status@, stderr@),
            CliError::Oversized { bytes, max } => CliErrorView::Oversized(*bytes, *max),
            CliError::NoRoute(u) => CliErrorView::NoRoute(u.text@),
        }
    }
}

impl CliErrorView {
    /// The error in words.
    pub open spec fn text(self) -> Seq<char> {
        match self {
            CliErrorView::Antigravity(family) =>
                "cli:antigravity is not yet supported. Use cli:"@ + family
                + " or cli:codex until the Antigravity headless surface stabilizes (Spec L §5 Item 2.4)."@,
            CliErrorView::UnknownKind(k) => "unknown SEMANTEX_LLM_BACKEND value: cli:"@ + k,
            CliErrorView::NoneFound =>
                "SEMANTEX_LLM_BACKEND=cli:auto but no supported CLI found on PATH"@,
            CliErrorView::MissingBinary(p) => "SEMANTEX_LLM_CLI_BINARY="@ + p + " does not exist"@,
            CliErrorView::NotOnPath(n) => n
                + " CLI not found on PATH — install it or set SEMANTEX_LLM_CLI_BINARY"@,
            CliErrorView::Exited(status, stderr) => "LLM CLI exited "@ + status + ": "@ + stderr,
            CliErrorView::Oversized(bytes, max) => "LLM CLI produced oversized output ("@ + decimal(
                bytes as nat,
            ) + " bytes); expected at most "@ + decimal(max as nat) + " bytes"@,
            CliErrorView::NoRoute(t) => "LLM returned unrecognized route: "@ + quoted_text_of(t),
        }
    }
}

impl CliError {
    /// The error in words.
    pub fn message(&self) -> (r: String)
        ensures
            r@ == self@.text(),
    {
        match self {
            CliError::Antigravity { family } =>
                "cli:antigravity is not yet supported. Use cli:".to_owned().concat(family).concat(
                " or cli:codex until the Antigravity headless surface stabilizes (Spec L §5 Item 2.4).",
            ),
            CliError::UnknownKind(k) => "unknown SEMANTEX_LLM_BACKEND value: cli:".to_owned().concat(
                k,
            ),
            CliError::NoneFound =>
                "SEMANTEX_LLM_BACKEND=cli:auto but no supported CLI found on PATH".to_owned(),
            CliError::MissingBinary(p) => "SEMANTEX_LLM_CLI_BINARY=".to_owned().concat(p).concat(
                " does not exist",
            ),
            CliError::NotOnPath(n) => n.clone().concat(
                " CLI not found on PATH — install it or set SEMANTEX_LLM_CLI_BINARY",
            ),
            CliError::Exited { status, stderr } => "LLM CLI exited ".to_owned().concat(
                status,
            ).concat(": ").concat(stderr),
            CliError::Oversized { bytes, max } =>
                "LLM CLI produced oversized output (".to_owned().concat(
                &decimal_text(*bytes as u64),
            ).concat(" bytes); expected at most ").concat(&decimal_text(*max as u64)).concat(
                " bytes",
            ),
            CliError::NoRoute(u) => u.message(),
        }
    }
}

/// The last dot in a name; `None` where there is none.
pub open spec fn last_dot(s: Seq<char>) -> Option<int>
    decreases s.len(),
{
    if s.len() == 0 {
        None
    } else if s.last() == '.' {
        Some(s.len() - 1)
    } else {
        last_dot(s.drop_last())
    }
}

/// A name without its extension; a dot at the start does not begin one.
pub open spec fn stem_of(name: Seq<char>) -> Seq<char> {
    match last_dot(name) {
        Some(k) => if k > 0 {
            name.take(k)
        } else {
            name
        },
        None => name,
    }
}

/// A name without its extension.
fn stem(name: &str) -> (r: String)
    ensures
        r@ == stem_of(name@),
{
    let v: Vec<char> = chars_of(name);
    let mut i: usize = v.len();
    proof {
        assert(v@.take(i as int) =~= v@);
    }
    while i > 0
        invariant
            i <= v@.len(),
            v@ == name@,
            last_dot(v@) == last_dot(v@.take(i as int)),
        decreases i,
    {
        i = i - 1;
        proof {
            assert(v@.take(i + 1).drop_last() =~= v@.take(i as int));
            assert(v@.take(i + 1).last() == v@[i as int]);
        }
        if v[i] == '.' {
            if i > 0 {
                proof {
                    assert(v@.subrange(0, i as int) =~= v@.take(i as int));
                }
                return text_of_range(&v, 0, i);
            }
            return name.to_owned();
        }
    }
    name.to_owned()
}

/// The program that is set, and whether it is there.
#[derive(Debug, Clone)]
pub struct BinaryOverride {
    pub path: String,
    pub exists: bool,
}

/// Whether a path is one of the program: its last part is the name of the program, with an
/// extension or without.
pub open spec fn is_binary_of(kind: CliKind, family: Seq<char>, path: Seq<char>) -> bool {
    match file_name_of(path) {
        Some(n) => stem_of(n) == kind.name(family),
        None => false,
    }
}

/// Whether a path is one of the program.
pub fn names_cli(kind: CliKind, family: &str, path: &str) -> (r: bool)
    ensures
        r == is_binary_of(kind, family@, path@),
{
    match file_name(path) {
        Some(n) => same_text(&stem(&n), kind.cli_name(family)),
        None => false,
    }
}

/// The program that is run: the one that is set, if it is one of this kind, else the one that is
/// found on the path.
pub open spec fn binary_for(
    kind: CliKind,
    family: Seq<char>,
    set: Option<(Seq<char>, bool)>,
    on_path: Option<Seq<char>>,
) -> Result<Seq<char>, CliErrorView> {
    let found = match on_path {
        Some(p) => Ok(p),
        None => Err(CliErrorView::NotOnPath(kind.name(family))),
    };
    match set {
        Some((path, exists)) => if is_binary_of(kind, family, path) {
            if exists {
                Ok(path)
            } else {
                Err(CliErrorView::MissingBinary(path))
            }
        } else {
            found
        },
        None => found,
    }
}

/// The view of an optional program that is set.
pub open spec fn opt_override(o: Option<BinaryOverride>) -> Option<(Seq<char>, bool)> {
    match o {
        Some(b) => Some((b.path@, b.exists)),
        None => None,
    }
}

/// The view of a result.
pub open spec fn path_viewed(r: Result<String, CliError>) -> Result<Seq<char>, CliErrorView> {
    match r {
        Ok(p) => Ok(p@),
        Err(e) => Err(e@),
    }
}

/// The program that is run, given the one that is set by `SEMANTEX_LLM_CLI_BINARY` and the one that
/// is found on the path.
pub fn resolve_binary(
    kind: CliKind,
    family: &str,
    set: &Option<BinaryOverride>,
    on_path: &Option<String>,
) -> (r: Result<String, CliError>)
    ensures
        path_viewed(r) == binary_for(kind, family@, opt_override(*set), opt_text(*on_path)),
{
    match set {
        Some(b) => {
            if names_cli(kind, family, &b.path) {
                if b.exists {
                    return Ok(b.path.clone());
                }
                return Err(CliError::MissingBinary(b.path.clone()));
            }
        },
        None => {},
    }
    match on_path {
        Some(p) => Ok(p.clone()),
        None => Err(CliError::NotOnPath(kind.cli_name(family).to_owned())),
    }
}

/// A program that is set is only ever run as what its name says it is.
pub proof fn lemma_override_matches(
    kind: CliKind,
    family: Seq<char>,
    path: Seq<char>,
    exists: bool,
    on_path: Option<Seq<char>>,
)
    ensures
        !is_binary_of(kind, family, path) ==> binary_for(
            kind,
            family,
            Some((path, exists)),
            on_path,
        ) == binary_for(kind, family, None, on_path),
        family != CliKind::Codex.name(family) && is_binary_of(CliKind::Claude, family, path)
            ==> !is_binary_of(CliKind::Codex, family, path),
{
}

/// A program that is run for answers.
#[derive(Debug, Clone)]
pub struct SubscriptionCliBackend {
    pub kind: CliKind,
    pub binary: String,
    pub label: String,
}

/// What a [`SubscriptionCliBackend`] holds.
pub struct CliBackendView {
    pub kind: CliKind,
    pub binary: Seq<char>,
    pub label: Seq<char>,
}

impl View for SubscriptionCliBackend {
    type V = CliBackendView;

    open spec fn view(&self) -> CliBackendView {
        CliBackendView { kind: self.kind, binary: self.binary@, label: self.label@ }
    }
}

/// The backend of a program.
pub open spec fn cli_backend(
    kind: CliKind,
    family: Seq<char>,
    binary: Seq<char>,
) -> CliBackendView {
    CliBackendView { kind, binary, label: "cli:"@ + kind.name(family) }
}

/// What is known when a program is chosen.
#[derive(Debug, Clone)]
pub struct CliFacts {
    /// The name of Anthropic's models, in lower case.
    pub family: String,
    /// The program that is set by `SEMANTEX_LLM_CLI_BINARY`.
    pub set: Option<BinaryOverride>,
    /// Where the program that runs Anthropic's models is found on the path.
    pub claude_on_path: Option<String>,
    /// Where `codex` is found on the path.
    pub codex_on_path: Option<String>,
}

impl CliFacts {
    /// The program of a kind.
    pub open spec fn binary(&self, kind: CliKind) -> Result<Seq<char>, CliErrorView> {
        binary_for(
            kind,
            self.family@,
            opt_override(self.set),
            match kind {
                CliKind::Claude => opt_text(self.claude_on_path),
                CliKind::Codex => opt_text(self.codex_on_path),
            },
        )
    }

    fn resolve(&self, kind: CliKind) -> (r: Result<String, CliError>)
        ensures
            path_viewed(r) == self.binary(kind),
    {
        match kind {
            CliKind::Claude => resolve_binary(kind, &self.family, &self.set, &self.claude_on_path),
            CliKind::Codex => resolve_binary(kind, &self.family, &self.set, &self.codex_on_path),
        }
    }
}

/// The first of the two programs that is there.
pub open spec fn first_found(f: CliFacts) -> Result<CliBackendView, CliErrorView> {
    match f.binary(CliKind::Claude) {
        Ok(b) => Ok(cli_backend(CliKind::Claude, f.family@, b)),
        Err(_) => match f.binary(CliKind::Codex) {
            Ok(b) => Ok(cli_backend(CliKind::Codex, f.family@, b)),
            Err(_) => Err(CliErrorView::NoneFound),
        },
    }
}

/// The program that is configured: none unless the setting begins with `cli:`.
pub open spec fn cli_config(spec_: Option<Seq<char>>, f: CliFacts) -> Result<
    Option<CliBackendView>,
    CliErrorView,
> {
    match spec_ {
        None => Ok(None),
        Some(s) => match after_prefix(s, "cli:"@) {
            None => Ok(None),
            Some(k) => if k == f.family@ {
                match f.binary(CliKind::Claude) {
                    Ok(b) => Ok(Some(cli_backend(CliKind::Claude, f.family@, b))),
                    Err(e) => Err(e),
                }
            } else if k == "codex"@ {
                match f.binary(CliKind::Codex) {
                    Ok(b) => Ok(Some(cli_backend(CliKind::Codex, f.family@, b))),
                    Err(e) => Err(e),
                }
            } else if k == "antigravity"@ {
                Err(CliErrorView::Antigravity(f.family@))
            } else if k == "auto"@ {
                match first_found(f) {
                    Ok(b) => Ok(Some(b)),
                    Err(e) => Err(e),
                }
            } else {
                Err(CliErrorView::UnknownKind(k))
            },
        },
    }
}

impl SubscriptionCliBackend {
    /// The backend of a program.
    pub fn new(kind: CliKind, family: &str, binary: String) -> (r: SubscriptionCliBackend)
        ensures
            r@ == cli_backend(kind, family@, binary@),
    {
        SubscriptionCliBackend {
            kind,
            binary,
            label: "cli:".to_owned().concat(kind.cli_name(family)),
        }
    }

    /// The first of the two programs that is there, Anthropic's before `codex`.
    pub fn auto_detect(facts: &CliFacts) -> (r: Result<SubscriptionCliBackend, CliError>)
        ensures
            (match r {
                Ok(b) => Ok(b@),
                Err(e) => Err(e@),
            }) == first_found(*facts),
    {
        match facts.resolve(CliKind::Claude) {
            Ok(b) => Ok(SubscriptionCliBackend::new(CliKind::Claude, &facts.family, b)),
            Err(_) => match facts.resolve(CliKind::Codex) {
                Ok(b) => Ok(SubscriptionCliBackend::new(CliKind::Codex, &facts.family, b)),
                Err(_) => Err(CliError::NoneFound),
            },
        }
    }

    /// The program that is configured, given the setting `SEMANTEX_LLM_BACKEND`.
    pub fn from_env(setting: Option<&str>, facts: &CliFacts) -> (r: Result<
        Option<SubscriptionCliBackend>,
        CliError,
    >)
        ensures
            (match r {
                Ok(Some(b)) => Ok(Some(b@)),
                Ok(None) => Ok(None),
                Err(e) => Err(e@),
            }) == cli_config(opt_str(setting), *facts),
    {
        let kind_text: String = match setting {
            Some(s) => match strip_prefix(s, "cli:") {
                Some(k) => k,
                None => {
                    return Ok(None);
                },
            },
            None => {
                return Ok(None);
            },
        };
        let kind: CliKind = if same_text(&kind_text, &facts.family) {
            CliKind::Claude
        } else if same_text(&kind_text, "codex") {
            CliKind::Codex
        } else if same_text(&kind_text, "antigravity") {
            return Err(CliError::Antigravity { family: facts.family.clone() });
        } else if same_text(&kind_text, "auto") {
            return match SubscriptionCliBackend::auto_detect(facts) {
                Ok(b) => Ok(Some(b)),
                Err(e) => Err(e),
            };
        } else {
            return Err(CliError::UnknownKind(kind_text));
        };
        match facts.resolve(kind) {
            Ok(b) => Ok(Some(SubscriptionCliBackend::new(kind, &facts.family, b))),
            Err(e) => Err(e),
        }
    }

    /// What the program is asked for the route of a query: what it is told first, and the question.
    pub fn classify_input(query: &str) -> (r: String)
        ensures
            r@ == CLASSIFIER_SYSTEM_PROMPT@ + "\n\n"@ + classify_prompt(query@),
    {
        CLASSIFIER_SYSTEM_PROMPT.to_owned().concat("\n\n").concat(&build_classify_prompt(query))
    }

    /// What the program is asked for code that answers a query.
    pub fn hyde_input(query: &str) -> (r: String)
        ensures
            r@ == HYDE_SYSTEM_PROMPT@ + "\n\n"@ + hyde_prompt(query@),
    {
        HYDE_SYSTEM_PROMPT.to_owned().concat("\n\n").concat(&build_hyde_prompt(query))
    }
}

/// How a program ended, and what it printed.
#[derive(Debug, Clone)]
pub struct CliOutput {
    pub success: bool,
    /// How it ended, in words.
    pub status: String,
    pub stderr: String,
    /// The length of what it printed, in bytes.
    pub stdout_len: usize,
    /// What it printed, as text.
    pub stdout: String,
    /// What it printed, where that is JSON with a result.
    pub parsed: Option<ClaudeJsonResult>,
}

/// The answer in the output of a program; an error where the program failed or printed more than
/// `max` bytes.
pub open spec fn answer_in(kind: CliKind, out: CliOutput, max: usize) -> Result<
    Seq<char>,
    CliErrorView,
> {
    if !out.success {
        Err(CliErrorView::Exited(out.status@, out.stderr@))
    } else if out.stdout_len > max {
        Err(CliErrorView::Oversized(out.stdout_len, max))
    } else {
        Ok(text_in(kind, out.stdout@, reply_view(out.parsed)))
    }
}

/// The answer in the output of a program.
pub fn read_output(kind: CliKind, out: &CliOutput, max: usize) -> (r: Result<String, CliError>)
    ensures
        path_viewed(r) == answer_in(kind, *out, max),
{
    if !out.success {
        return Err(
            CliError::Exited { status: out.status.clone(), stderr: out.stderr.clone() },
        );
    }
    if out.stdout_len > max {
        return Err(CliError::Oversized { bytes: out.stdout_len, max });
    }
    Ok(kind.extract_text(&out.stdout, &out.parsed))
}

impl SubscriptionCliBackend {
    /// The route in the output of the program; an error where the output is not taken or its answer
    /// names no route.
    pub fn classify_route(&self, out: &CliOutput) -> (r: Result<AgentRoute, CliError>)
        ensures
            (match r {
                Ok(route) => Ok(route),
                Err(e) => Err(e@),
            }) == (match answer_in(self.kind, *out, MAX_CLASSIFY_STDOUT_BYTES) {
                Ok(a) => match route_in(a) {
                    Some(route) => Ok(route),
                    None => Err(CliErrorView::NoRoute(a)),
                },
                Err(e) => Err(e),
            }),
    {
        match read_output(self.kind, out, MAX_CLASSIFY_STDOUT_BYTES) {
            Ok(a) => match parse_route_from_llm_output(&a) {
                Ok(route) => Ok(route),
                Err(u) => Err(CliError::NoRoute(u)),
            },
            Err(e) => Err(e),
        }
    }

    /// The code in the output of the program.
    pub fn synthesize_hyde_doc(&self, out: &CliOutput) -> (r: Result<String, CliError>)
        ensures
            path_viewed(r) == answer_in(self.kind, *out, MAX_HYDE_STDOUT_BYTES),
    {
        read_output(self.kind, out, MAX_HYDE_STDOUT_BYTES)
    }
}

/// An answer that is marked as an error names no route, whatever it says.
pub proof fn lemma_error_names_no_route(raw: Seq<char>, t: Seq<char>)
    ensures
        route_in(text_in(CliKind::Claude, raw, Some((t, true)))) is None,
{
    reveal_strlit("[LLM ERROR] ");
    let a = "[LLM ERROR] "@ + t;
    assert(a[0] == '[');
    assert(trimmed_start(a) == a);
    lemma_trimmed_end_head(a);
    let x = ascii_lower(trimmed(a));
    assert(x.len() > 0 && x[0] == '[');
    reveal_strlit("route:");
    reveal_strlit("route =");
    reveal_strlit("route=");
    reveal_strlit("answer:");
    reveal_strlit("answer =");
    if has_prefix(x, "route:"@) {
        assert(x.take(6)[0] == x[0]);
    }
    if has_prefix(x, "route ="@) {
        assert(x.take(7)[0] == x[0]);
    }
    if has_prefix(x, "route="@) {
        assert(x.take(6)[0] == x[0]);
    }
    if has_prefix(x, "answer:"@) {
        assert(x.take(7)[0] == x[0]);
    }
    if has_prefix(x, "answer ="@) {
        assert(x.take(8)[0] == x[0]);
    }
    assert(without_label(x) == x);
    reveal_strlit("file_pattern");
    reveal_strlit("filepattern");
    reveal_strlit("regex");
    reveal_strlit("exact_symbol");
    reveal_strlit("exactsymbol");
    reveal_strlit("structural");
    reveal_strlit("deep");
    reveal_strlit("analytical");
    reveal_strlit("exhaustive");
    reveal_strlit("semantic");
    reveal_strlit("architecture");
    reveal_strlit("feature_planning");
    reveal_strlit("featureplanning");
    assert("file_pattern"@[0] == 'f' && "filepattern"@[0] == 'f' && "regex"@[0] == 'r');
    assert("exact_symbol"@[0] == 'e' && "exactsymbol"@[0] == 'e' && "structural"@[0] == 's');
    assert("deep"@[0] == 'd' && "analytical"@[0] == 'a' && "exhaustive"@[0] == 'e');
    assert("semantic"@[0] == 's' && "architecture"@[0] == 'a');
    assert("feature_planning"@[0] == 'f' && "featureplanning"@[0] == 'f');
}

proof fn lemma_trimmed_end_head(s: Seq<char>)
    requires
        s.len() > 0,
        !is_space(s[0]),
    ensures
        trimmed_end(s).len() > 0,
        trimmed_end(s)[0] == s[0],
    decreases s.len(),
{
    if is_space(s.last()) {
        assert(s.drop_last().len() > 0);
        lemma_trimmed_end_head(s.drop_last());
    }
}

/// A setting in milliseconds counts where it is a whole number, zero as well; else the default
/// does.
pub proof fn lemma_millis_or(n: nat, default: u64)
    ensures
        n <= u64::MAX ==> millis_or(Some(decimal(n)), default) == n,
        n > u64::MAX ==> millis_or(Some(decimal(n)), default) == default,
        millis_or(None, default) == default,
{
    crate::text::lemma_numbers_read(n, u64::MAX as nat);
}

/// The stem of a name is what stands before its last dot; a name without a dot, and one whose only
/// dot stands first, is its own stem.
pub proof fn lemma_stem(stem: Seq<char>, ext: Seq<char>)
    requires
        !ext.contains('.'),
    ensures
        stem.len() > 0 ==> stem_of(stem.push('.') + ext) == stem,
        stem_of(ext) == ext,
        stem_of(seq!['.'] + ext) == seq!['.'] + ext,
{
    lemma_last_dot(stem, ext);
    lemma_last_dot(Seq::empty(), ext);
    assert(Seq::<char>::empty().push('.') + ext =~= seq!['.'] + ext);
    assert((stem.push('.') + ext).take(stem.len() as int) =~= stem);
}

proof fn lemma_last_dot(stem: Seq<char>, ext: Seq<char>)
    requires
        !ext.contains('.'),
    ensures
        last_dot(stem.push('.') + ext) == Some(stem.len() as int),
        last_dot(ext) is None,
    decreases ext.len(),
{
    let s = stem.push('.') + ext;
    if ext.len() == 0 {
        assert(s =~= stem.push('.'));
    } else {
        let front = ext.drop_last();
        assert forall|c: char| #[trigger] front.contains(c) implies ext.contains(c) by {
            let k = choose|k: int| 0 <= k < front.len() && front[k] == c;
            assert(ext[k] == c);
        }
        lemma_last_dot(stem, front);
        assert(s.drop_last() =~= stem.push('.') + front);
        assert(s.last() == ext[ext.len() - 1]);
        assert(ext.contains(ext[ext.len() - 1]));
    }
}

/// The program that is run: the one that is set, where it is of the kind that is asked for, and an
/// error if that is not there; else the one that was found, and an error if none was.
pub proof fn lemma_binary_for(
    kind: CliKind,
    family: Seq<char>,
    path: Seq<char>,
    exists: bool,
    on_path: Option<Seq<char>>,
)
    ensures
        is_binary_of(kind, family, path) && exists ==> binary_for(
            kind,
            family,
            Some((path, exists)),
            on_path,
        ) == Ok::<Seq<char>, CliErrorView>(path),
        is_binary_of(kind, family, path) && !exists ==> binary_for(
            kind,
            family,
            Some((path, exists)),
            on_path,
        ) == Err::<Seq<char>, CliErrorView>(CliErrorView::MissingBinary(path)),
        !is_binary_of(kind, family, path) ==> binary_for(
            kind,
            family,
            Some((path, exists)),
            on_path,
        ) == binary_for(kind, family, None, on_path),
        on_path matches Some(p) ==> binary_for(kind, family, None, on_path) == Ok::<
            Seq<char>,
            CliErrorView,
        >(p),
        on_path is None ==> binary_for(kind, family, None, on_path) == Err::<
            Seq<char>,
            CliErrorView,
        >(CliErrorView::NotOnPath(kind.name(family))),
{
}

/// A program is of a kind if its name, without an extension, is that of the kind, wherever it lies.
pub proof fn lemma_binary_named(
    kind: CliKind,
    family: Seq<char>,
    dir: Seq<char>,
    name: Seq<char>,
    ext: Seq<char>,
)
    requires
        dir.len() > 0,
        name.len() > 0 && !name.contains('/') && !name.contains('.'),
        !ext.contains('/') && !ext.contains('.'),
    ensures
        is_binary_of(kind, family, dir.push('/') + name) <==> name == kind.name(family),
        is_binary_of(kind, family, dir.push('/') + (name.push('.') + ext)) <==> name == kind.name(
            family,
        ),
{
    reveal_strlit(".");
    reveal_strlit("..");
    let full = name.push('.') + ext;
    assert(name.contains(name[0]));
    assert(full[0] == name[0]);
    assert(name[0] != '.');
    assert(!full.contains('/')) by {
        if full.contains('/') {
            let k = choose|k: int| 0 <= k < full.len() && full[k] == '/';
            if k < name.len() {
                assert(name[k] == '/');
            } else if k > name.len() {
                assert(ext[k - name.len() - 1] == '/');
            }
        }
    }
    crate::path::lemma_file_name(dir, name);
    crate::path::lemma_file_name(dir, full);
    lemma_stem(name, ext);
    lemma_stem(name, name);
}

/// An answer is taken only from a run that succeeded and printed no more than is allowed; each
/// failure says what it was.
pub proof fn lemma_answer_taken(kind: CliKind, out: CliOutput, max: usize)
    ensures
        answer_in(kind, out, max) is Ok <==> out.success && out.stdout_len <= max,
        !out.success ==> answer_in(kind, out, max) == Err::<Seq<char>, CliErrorView>(
            CliErrorView::Exited(out.status@, out.stderr@),
        ),
        out.success && out.stdout_len > max ==> answer_in(kind, out, max) == Err::<
            Seq<char>,
            CliErrorView,
        >(CliErrorView::Oversized(out.stdout_len, max)),
{
}

/// The text of an answer: what was printed, unless it is a reply of the form that the first kind of
/// program gives; of that, its result, marked where it is an error.
pub proof fn lemma_text_in(kind: CliKind, raw: Seq<char>, result: Seq<char>)
    ensures
        text_in(kind, raw, None) == raw,
        kind == CliKind::Codex ==> text_in(kind, raw, Some((result, false))) == raw && text_in(
            kind,
            raw,
            Some((result, true)),
        ) == raw,
        kind != CliKind::Codex ==> text_in(kind, raw, Some((result, false))) == result && text_in(
            kind,
            raw,
            Some((result, true)),
        ) == "[LLM ERROR] "@ + result,
{
}

/// Which program is configured: none unless the setting starts with its mark; the kind that it
/// names; the first that is found where it asks for any, the one of the family before the other.
pub proof fn lemma_cli_config(setting: Seq<char>, kind: Seq<char>, f: CliFacts)
    ensures
        cli_config(None, f) == Ok::<Option<CliBackendView>, CliErrorView>(None),
        !has_prefix(setting, "cli:"@) ==> cli_config(Some(setting), f) == Ok::<
            Option<CliBackendView>,
            CliErrorView,
        >(None),
        ({
            let r = cli_config(Some("cli:"@ + kind), f);
            &&& r != Ok::<Option<CliBackendView>, CliErrorView>(None)
            &&& kind == f.family@ ==> (r matches Ok(b) ==> f.binary(CliKind::Claude) == Ok::<
                Seq<char>,
                CliErrorView,
            >(b->0.binary) && b->0.kind == CliKind::Claude)
            &&& kind != f.family@ && kind == "codex"@ ==> (r matches Ok(b) ==> f.binary(
                CliKind::Codex,
            ) == Ok::<Seq<char>, CliErrorView>(b->0.binary) && b->0.kind == CliKind::Codex)
            &&& r is Ok ==> kind == f.family@ || kind == "codex"@ || kind == "auto"@
            &&& kind != f.family@ && kind == "auto"@ ==> {
                &&& r is Err <==> f.binary(CliKind::Claude) is Err && f.binary(
                    CliKind::Codex,
                ) is Err
                &&& f.binary(CliKind::Claude) is Ok ==> r->Ok_0->0.kind == CliKind::Claude
                &&& f.binary(CliKind::Claude) is Err && f.binary(CliKind::Codex) is Ok
                    ==> r->Ok_0->0.kind == CliKind::Codex
            }
        }),
{
    reveal_strlit("codex");
    reveal_strlit("auto");
    reveal_strlit("antigravity");
    assert("codex"@.len() == 5 && "auto"@.len() == 4 && "antigravity"@.len() == 11);
    crate::text::lemma_holding_text(Seq::empty(), "cli:"@, kind);
}

} // verus!
