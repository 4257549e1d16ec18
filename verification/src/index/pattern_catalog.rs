//! A catalog of idiomatic patterns, and the matcher that finds them in a chunk.
//!
//! A pattern is a set of texts that must all occur in the chunk, and a set of texts of which none
//! may.

use crate::text::{contains_text, has_text, same_text, views};
use vstd::prelude::*;

verus! {

/// The language that a pattern belongs to.
#[derive(Debug, Clone, Copy, PartialEq, Eq, Hash, Structural)]
pub enum PatternLang {
    Rust,
    TypeScript,
    Any,
}

impl PatternLang {
    /// The catalog for a language, by the name of the language.
    pub open spec fn for_name(name: Seq<char>) -> Option<PatternLang> {
        if name == "rust"@ {
            Some(PatternLang::Rust)
        } else if name == "typescript"@ || name == "javascript"@ {
            Some(PatternLang::TypeScript)
        } else {
            None
        }
    }

    /// The catalog for a language, by the name of the language; `None` if there is no catalog.
    pub fn from_language_name(name: &str) -> (r: Option<PatternLang>)
        ensures
            r == PatternLang::for_name(name@),
    {
        if same_text(name, "rust") {
            Some(PatternLang::Rust)
        } else if same_text(name, "typescript") || same_text(name, "javascript") {
            Some(PatternLang::TypeScript)
        } else {
            None
        }
    }

    /// The name under which matches of the language are stored.
    pub open spec fn name(self) -> Seq<char> {
        match self {
            PatternLang::Rust => "rust"@,
            PatternLang::TypeScript => "typescript"@,
            PatternLang::Any => "any"@,
        }
    }

    /// The name under which matches of the language are stored.
    pub fn label(&self) -> (r: &'static str)
        ensures
            r@ == self.name(),
    {
        match self {
            PatternLang::Rust => "rust",
            PatternLang::TypeScript => "typescript",
            PatternLang::Any => "any",
        }
    }
}

/// The stored name of a language leads back to its catalog.
pub proof fn lemma_label_names_catalog(lang: PatternLang)
    requires
        lang != PatternLang::Any,
    ensures
        PatternLang::for_name(lang.name()) == Some(lang),
{
    reveal_strlit("rust");
    reveal_strlit("typescript");
    assert("rust"@.len() != "typescript"@.len());
}

/// One pattern of the catalog.
#[derive(Debug, Clone)]
pub struct PatternDef {
    /// The name under which matches are stored.
    pub name: &'static str,
    pub lang: PatternLang,
    /// What the pattern shows, in one line.
    pub description: &'static str,
    /// All of these texts must occur.
    pub required: Vec<&'static str>,
    /// None of these texts may occur.
    pub forbidden: Vec<&'static str>,
}

/// What a [`PatternDef`] holds.
pub struct PatternDefView {
    pub name: Seq<char>,
    pub lang: PatternLang,
    pub description: Seq<char>,
    pub required: Seq<Seq<char>>,
    pub forbidden: Seq<Seq<char>>,
}

impl View for PatternDef {
    type V = PatternDefView;

    open spec fn view(&self) -> PatternDefView {
        PatternDefView {
            name: self.name@,
            lang: self.lang,
            description: self.description@,
            required: views(self.required@),
            forbidden: views(self.forbidden@),
        }
    }
}

/// A pattern that occurs in a chunk.
#[derive(Debug, Clone)]
pub struct PatternMatch {
    pub pattern_name: String,
    pub description: String,
    pub language: String,
}

/// What a [`PatternMatch`] holds.
pub struct PatternMatchView {
    pub pattern_name: Seq<char>,
    pub description: Seq<char>,
    pub language: Seq<char>,
}

impl View for PatternMatch {
    type V = PatternMatchView;

    open spec fn view(&self) -> PatternMatchView {
        PatternMatchView {
            pattern_name: self.pattern_name@,
            description: self.description@,
            language: self.language@,
        }
    }
}

/// The match of a pattern.
pub open spec fn match_of(d: PatternDefView) -> PatternMatchView {
    PatternMatchView {
        pattern_name: d.name,
        description: d.description,
        language: d.lang.name(),
    }
}

impl PatternMatch {
    /// The match of a pattern.
    pub fn from_def(def: &PatternDef) -> (r: PatternMatch)
        ensures
            r@ == match_of(def@),
    {
        PatternMatch {
            pattern_name: def.name.to_owned(),
            description: def.description.to_owned(),
            language: def.lang.label().to_owned(),
        }
    }
}

/// No text.
fn none() -> (r: Vec<&'static str>)
    ensures
        views(r@) == Seq::<Seq<char>>::empty(),
{
    let r: Vec<&'static str> = Vec::new();
    proof {
        assert(views(r@) =~= Seq::<Seq<char>>::empty());
    }
    r
}

/// One text.
fn one(a: &'static str) -> (r: Vec<&'static str>)
    ensures
        views(r@) == seq![a@],
{
    let mut r: Vec<&'static str> = Vec::new();
    r.push(a);
    proof {
        assert(views(r@) =~= seq![a@]);
    }
    r
}

/// Two texts.
fn two(a: &'static str, b: &'static str) -> (r: Vec<&'static str>)
    ensures
        views(r@) == seq![a@, b@],
{
    let mut r: Vec<&'static str> = Vec::new();
    r.push(a);
    r.push(b);
    proof {
        assert(views(r@) =~= seq![a@, b@]);
    }
    r
}

/// Three texts.
fn three(a: &'static str, b: &'static str, c: &'static str) -> (r: Vec<&'static str>)
    ensures
        views(r@) == seq![a@, b@, c@],
{
    let mut r: Vec<&'static str> = Vec::new();
    r.push(a);
    r.push(b);
    r.push(c);
    proof {
        assert(views(r@) =~= seq![a@, b@, c@]);
    }
    r
}

/// Adds a pattern to a list.
fn add_def(
    defs: &mut Vec<PatternDef>,
    name: &'static str,
    lang: PatternLang,
    description: &'static str,
    required: Vec<&'static str>,
    forbidden: Vec<&'static str>,
)
    ensures
        views(final(defs)@) == views(old(defs)@).push(
            PatternDefView {
                name: name@,
                lang,
                description: description@,
                required: views(required@),
                forbidden: views(forbidden@),
            },
        ),
{
    let ghost before = views(defs@);
    let d: PatternDef = PatternDef { name, lang, description, required, forbidden };
    let ghost dv = d@;
    defs.push(d);
    proof {
        assert(views(defs@) =~= before.push(dv));
    }
}

/// Patterns of the Rust catalog, from number 1 on.
pub open spec fn rust_part_1() -> Seq<PatternDefView> {
    seq![
        PatternDefView {
            name: "rust.drop_impl"@,
            lang: PatternLang::Rust,
            description: "Custom Drop impl for explicit resource cleanup"@,
            required: seq!["impl Drop"@, "fn drop"@],
            forbidden: Seq::empty(),
        },
        PatternDefView {
            name: "rust.from_impl"@,
            lang: PatternLang::Rust,
            description: "From conversion impl (infallible Into route)"@,
            required: seq!["impl From<"@, "fn from"@],
            forbidden: Seq::empty(),
        },
        PatternDefView {
            name: "rust.try_from_impl"@,
            lang: PatternLang::Rust,
            description: "TryFrom conversion impl (fallible parse/validation)"@,
            required: seq!["impl TryFrom<"@, "fn try_from"@],
            forbidden: Seq::empty(),
        },
        PatternDefView {
            name: "rust.serde_derive"@,
            lang: PatternLang::Rust,
            description: "Serde derive macro for (de)serialization"@,
            required: seq!["#[derive("@, "Serialize"@],
            forbidden: Seq::empty(),
        },
        PatternDefView {
            name: "rust.error_with_thiserror"@,
            lang: PatternLang::Rust,
            description: "Custom error enum with thiserror derive"@,
            required: seq!["#[derive("@, "thiserror::Error"@],
            forbidden: Seq::empty(),
        },
        PatternDefView {
            name: "rust.anyhow_context"@,
            lang: PatternLang::Rust,
            description: "anyhow Result with .context() for error annotation"@,
            required: seq![".context("@, "Result"@],
            forbidden: Seq::empty(),
        },
        PatternDefView {
            name: "rust.result_question_mark_chain"@,
            lang: PatternLang::Rust,
            description: "Question-mark operator chain for short-circuit error propagation"@,
            required: seq!["?;\n"@, "Result"@],
            forbidden: Seq::empty(),
        },
        PatternDefView {
            name: "rust.tokio_spawn"@,
            lang: PatternLang::Rust,
            description: "tokio::spawn for an async task on the runtime"@,
            required: seq!["tokio::spawn"@],
            forbidden: Seq::empty(),
        },
    ]
}

/// Adds the patterns of the Rust catalog, from number 1 on.
fn add_rust_part_1(defs: &mut Vec<PatternDef>)
    ensures
        views(final(defs)@) == views(old(defs)@) + rust_part_1(),
{
    let ghost before = views(defs@);
    add_def(
        defs,
        "rust.drop_impl",
        PatternLang::Rust,
        "Custom Drop impl for explicit resource cleanup",
        two("impl Drop", "fn drop"),
        none(),
    );
    add_def(
        defs,
        "rust.from_impl",
        PatternLang::Rust,
        "From conversion impl (infallible Into route)",
        two("impl From<", "fn from"),
        none(),
    );
    add_def(
        defs,
        "rust.try_from_impl",
        PatternLang::Rust,
        "TryFrom conversion impl (fallible parse/validation)",
        two("impl TryFrom<", "fn try_from"),
        none(),
    );
    add_def(
        defs,
        "rust.serde_derive",
        PatternLang::Rust,
        "Serde derive macro for (de)serialization",
        two("#[derive(", "Serialize"),
        none(),
    );
    add_def(
        defs,
        "rust.error_with_thiserror",
        PatternLang::Rust,
        "Custom error enum with thiserror derive",
        two("#[derive(", "thiserror::Error"),
        none(),
    );
    add_def(
        defs,
        "rust.anyhow_context",
        PatternLang::Rust,
        "anyhow Result with .context() for error annotation",
        two(".context(", "Result"),
        none(),
    );
    add_def(
        defs,
        "rust.result_question_mark_chain",
        PatternLang::Rust,
        "Question-mark operator chain for short-circuit error propagation",
        two("?;\n", "Result"),
        none(),
    );
    add_def(
        defs,
        "rust.tokio_spawn",
        PatternLang::Rust,
        "tokio::spawn for an async task on the runtime",
        one("tokio::spawn"),
        none(),
    );
    proof {
        assert(views(defs@) =~= before + rust_part_1());
    }
}

/// Patterns of the Rust catalog, from number 9 on.
pub open spec fn rust_part_2() -> Seq<PatternDefView> {
    seq![
        PatternDefView {
            name: "rust.tokio_select"@,
            lang: PatternLang::Rust,
            description: "tokio::select! for concurrent branch selection"@,
            required: seq!["tokio::select!"@],
            forbidden: Seq::empty(),
        },
        PatternDefView {
            name: "rust.tokio_main"@,
            lang: PatternLang::Rust,
            description: "#[tokio::main] async entrypoint"@,
            required: seq!["#[tokio::main]"@],
            forbidden: Seq::empty(),
        },
        PatternDefView {
            name: "rust.async_trait_method"@,
            lang: PatternLang::Rust,
            description: "async fn (often behind #[async_trait]) for asynchronous methods"@,
            required: seq!["async fn"@],
            forbidden: Seq::empty(),
        },
        PatternDefView {
            name: "rust.arc_mutex_shared_state"@,
            lang: PatternLang::Rust,
            description: "Arc<Mutex<T>> shared mutable state across threads"@,
            required: seq!["Arc<Mutex<"@],
            forbidden: Seq::empty(),
        },
        PatternDefView {
            name: "rust.arc_rwlock_shared_state"@,
            lang: PatternLang::Rust,
            description: "Arc<RwLock<T>> shared multi-reader / single-writer state"@,
            required: seq!["Arc<RwLock<"@],
            forbidden: Seq::empty(),
        },
        PatternDefView {
            name: "rust.builder_pattern"@,
            lang: PatternLang::Rust,
            description: "Builder struct ending in .build() returning the configured value"@,
            required: seq!["fn build("@],
            forbidden: seq!["fn build_path"@, "fn build_index"@, "fn build_url"@],
        },
        PatternDefView {
            name: "rust.new_constructor"@,
            lang: PatternLang::Rust,
            description: "Associated `new` constructor — idiomatic factory"@,
            required: seq!["pub fn new("@],
            forbidden: Seq::empty(),
        },
        PatternDefView {
            name: "rust.default_impl"@,
            lang: PatternLang::Rust,
            description: "impl Default for sensible zero-config construction"@,
            required: seq!["impl Default"@, "fn default"@],
            forbidden: Seq::empty(),
        },
    ]
}

/// Adds the patterns of the Rust catalog, from number 9 on.
fn add_rust_part_2(defs: &mut Vec<PatternDef>)
    ensures
        views(final(defs)@) == views(old(defs)@) + rust_part_2(),
{
    let ghost before = views(defs@);
    add_def(
        defs,
        "rust.tokio_select",
        PatternLang::Rust,
        "tokio::select! for concurrent branch selection",
        one("tokio::select!"),
        none(),
    );
    add_def(
        defs,
        "rust.tokio_main",
        PatternLang::Rust,
        "#[tokio::main] async entrypoint",
        one("#[tokio::main]"),
        none(),
    );
    add_def(
        defs,
        "rust.async_trait_method",
        PatternLang::Rust,
        "async fn (often behind #[async_trait]) for asynchronous methods",
        one("async fn"),
        none(),
    );
    add_def(
        defs,
        "rust.arc_mutex_shared_state",
        PatternLang::Rust,
        "Arc<Mutex<T>> shared mutable state across threads",
        one("Arc<Mutex<"),
        none(),
    );
    add_def(
        defs,
        "rust.arc_rwlock_shared_state",
        PatternLang::Rust,
        "Arc<RwLock<T>> shared multi-reader / single-writer state",
        one("Arc<RwLock<"),
        none(),
    );
    add_def(
        defs,
        "rust.builder_pattern",
        PatternLang::Rust,
        "Builder struct ending in .build() returning the configured value",
        one("fn build("),
        three("fn build_path", "fn build_index", "fn build_url"),
    );
    add_def(
        defs,
        "rust.new_constructor",
        PatternLang::Rust,
        "Associated `new` constructor — idiomatic factory",
        one("pub fn new("),
        none(),
    );
    add_def(
        defs,
        "rust.default_impl",
        PatternLang::Rust,
        "impl Default for sensible zero-config construction",
        two("impl Default", "fn default"),
        none(),
    );
    proof {
        assert(views(defs@) =~= before + rust_part_2());
    }
}

/// Patterns of the Rust catalog, from number 17 on.
pub open spec fn rust_part_3() -> Seq<PatternDefView> {
    seq![
        PatternDefView {
            name: "rust.display_impl"@,
            lang: PatternLang::Rust,
            description: "impl Display for user-facing formatting"@,
            required: seq!["impl Display"@, "fn fmt"@],
            forbidden: Seq::empty(),
        },
        PatternDefView {
            name: "rust.debug_impl"@,
            lang: PatternLang::Rust,
            description: "Custom Debug impl (overriding the derive)"@,
            required: seq!["impl Debug"@, "fn fmt"@],
            forbidden: seq!["#[derive("@],
        },
        PatternDefView {
            name: "rust.iterator_impl"@,
            lang: PatternLang::Rust,
            description: "Custom Iterator impl with next()"@,
            required: seq!["impl Iterator"@, "fn next"@],
            forbidden: Seq::empty(),
        },
        PatternDefView {
            name: "rust.derive_clone_copy"@,
            lang: PatternLang::Rust,
            description: "Derive Clone + Copy for value-type semantics"@,
            required: seq!["#[derive("@, "Clone"@, "Copy"@],
            forbidden: Seq::empty(),
        },
        PatternDefView {
            name: "rust.if_let_some"@,
            lang: PatternLang::Rust,
            description: "if let Some(x) = ... — idiomatic Option destructuring"@,
            required: seq!["if let Some("@],
            forbidden: Seq::empty(),
        },
        PatternDefView {
            name: "rust.match_result"@,
            lang: PatternLang::Rust,
            description: "match on Result with Ok / Err arms"@,
            required: seq!["match "@, "Ok("@, "Err("@],
            forbidden: Seq::empty(),
        },
        PatternDefView {
            name: "rust.lazy_static_oncelock"@,
            lang: PatternLang::Rust,
            description: "OnceLock / OnceCell for lazy one-shot initialisation"@,
            required: seq!["OnceLock"@],
            forbidden: Seq::empty(),
        },
        PatternDefView {
            name: "rust.channel_mpsc"@,
            lang: PatternLang::Rust,
            description: "mpsc channel for cross-thread message passing"@,
            required: seq!["mpsc::channel"@],
            forbidden: Seq::empty(),
        },
    ]
}

/// Adds the patterns of the Rust catalog, from number 17 on.
fn add_rust_part_3(defs: &mut Vec<PatternDef>)
    ensures
        views(final(defs)@) == views(old(defs)@) + rust_part_3(),
{
    let ghost before = views(defs@);
    add_def(
        defs,
        "rust.display_impl",
        PatternLang::Rust,
        "impl Display for user-facing formatting",
        two("impl Display", "fn fmt"),
        none(),
    );
    add_def(
        defs,
        "rust.debug_impl",
        PatternLang::Rust,
        "Custom Debug impl (overriding the derive)",
        two("impl Debug", "fn fmt"),
        one("#[derive("),
    );
    add_def(
        defs,
        "rust.iterator_impl",
        PatternLang::Rust,
        "Custom Iterator impl with next()",
        two("impl Iterator", "fn next"),
        none(),
    );
    add_def(
        defs,
        "rust.derive_clone_copy",
        PatternLang::Rust,
        "Derive Clone + Copy for value-type semantics",
        three("#[derive(", "Clone", "Copy"),
        none(),
    );
    add_def(
        defs,
        "rust.if_let_some",
        PatternLang::Rust,
        "if let Some(x) = ... — idiomatic Option destructuring",
        one("if let Some("),
        none(),
    );
    add_def(
        defs,
        "rust.match_result",
        PatternLang::Rust,
        "match on Result with Ok / Err arms",
        three("match ", "Ok(", "Err("),
        none(),
    );
    add_def(
        defs,
        "rust.lazy_static_oncelock",
        PatternLang::Rust,
        "OnceLock / OnceCell for lazy one-shot initialisation",
        one("OnceLock"),
        none(),
    );
    add_def(
        defs,
        "rust.channel_mpsc",
        PatternLang::Rust,
        "mpsc channel for cross-thread message passing",
        one("mpsc::channel"),
        none(),
    );
    proof {
        assert(views(defs@) =~= before + rust_part_3());
    }
}

/// Patterns of the Rust catalog, from number 25 on.
pub open spec fn rust_part_4() -> Seq<PatternDefView> {
    seq![
        PatternDefView {
            name: "rust.test_module"@,
            lang: PatternLang::Rust,
            description: "#[cfg(test)] mod tests — colocated unit tests"@,
            required: seq!["#[cfg(test)]"@, "mod tests"@],
            forbidden: Seq::empty(),
        },
        PatternDefView {
            name: "rust.test_fn"@,
            lang: PatternLang::Rust,
            description: "#[test] function — standard unit test"@,
            required: seq!["#[test]"@, "fn "@],
            forbidden: Seq::empty(),
        },
        PatternDefView {
            name: "rust.tracing_instrument"@,
            lang: PatternLang::Rust,
            description: "#[tracing::instrument] for span instrumentation"@,
            required: seq!["#[tracing::instrument"@],
            forbidden: Seq::empty(),
        },
        PatternDefView {
            name: "rust.tracing_log"@,
            lang: PatternLang::Rust,
            description: "Structured logging via tracing macros (info!/warn!/error!)"@,
            required: seq!["tracing::"@],
            forbidden: Seq::empty(),
        },
        PatternDefView {
            name: "rust.box_dyn_trait"@,
            lang: PatternLang::Rust,
            description: "Box<dyn Trait> heap-allocated trait object"@,
            required: seq!["Box<dyn "@],
            forbidden: Seq::empty(),
        },
        PatternDefView {
            name: "rust.lifetime_param"@,
            lang: PatternLang::Rust,
            description: "Lifetime parameter — borrow-checker-driven API"@,
            required: seq!["<'"@],
            forbidden: Seq::empty(),
        },
        PatternDefView {
            name: "rust.macro_rules_def"@,
            lang: PatternLang::Rust,
            description: "macro_rules! declarative macro definition"@,
            required: seq!["macro_rules!"@],
            forbidden: Seq::empty(),
        },
        PatternDefView {
            name: "rust.unsafe_block"@,
            lang: PatternLang::Rust,
            description: "unsafe block — review carefully for soundness"@,
            required: seq!["unsafe {"@],
            forbidden: Seq::empty(),
        },
    ]
}

/// Adds the patterns of the Rust catalog, from number 25 on.
fn add_rust_part_4(defs: &mut Vec<PatternDef>)
    ensures
        views(final(defs)@) == views(old(defs)@) + rust_part_4(),
{
    let ghost before = views(defs@);
    add_def(
        defs,
        "rust.test_module",
        PatternLang::Rust,
        "#[cfg(test)] mod tests — colocated unit tests",
        two("#[cfg(test)]", "mod tests"),
        none(),
    );
    add_def(
        defs,
        "rust.test_fn",
        PatternLang::Rust,
        "#[test] function — standard unit test",
        two("#[test]", "fn "),
        none(),
    );
    add_def(
        defs,
        "rust.tracing_instrument",
        PatternLang::Rust,
        "#[tracing::instrument] for span instrumentation",
        one("#[tracing::instrument"),
        none(),
    );
    add_def(
        defs,
        "rust.tracing_log",
        PatternLang::Rust,
        "Structured logging via tracing macros (info!/warn!/error!)",
        one("tracing::"),
        none(),
    );
    add_def(
        defs,
        "rust.box_dyn_trait",
        PatternLang::Rust,
        "Box<dyn Trait> heap-allocated trait object",
        one("Box<dyn "),
        none(),
    );
    add_def(
        defs,
        "rust.lifetime_param",
        PatternLang::Rust,
        "Lifetime parameter — borrow-checker-driven API",
        one("<'"),
        none(),
    );
    add_def(
        defs,
        "rust.macro_rules_def",
        PatternLang::Rust,
        "macro_rules! declarative macro definition",
        one("macro_rules!"),
        none(),
    );
    add_def(
        defs,
        "rust.unsafe_block",
        PatternLang::Rust,
        "unsafe block — review carefully for soundness",
        one("unsafe {"),
        none(),
    );
    proof {
        assert(views(defs@) =~= before + rust_part_4());
    }
}

/// The Rust catalog.
pub open spec fn rust_catalog() -> Seq<PatternDefView> {
    rust_part_1() + rust_part_2() + rust_part_3() + rust_part_4()
}

/// The patterns of the Rust catalog.
pub fn rust_patterns() -> (r: Vec<PatternDef>)
    ensures
        views(r@) == rust_catalog(),
{
    let mut r: Vec<PatternDef> = Vec::new();
    proof {
        assert(views(r@) =~= Seq::<PatternDefView>::empty());
    }
    add_rust_part_1(&mut r);
    add_rust_part_2(&mut r);
    add_rust_part_3(&mut r);
    add_rust_part_4(&mut r);
    proof {
        assert(views(r@) =~= rust_catalog());
    }
    r
}

/// Patterns of the TypeScript catalog, from number 1 on.
pub open spec fn ts_part_1() -> Seq<PatternDefView> {
    seq![
        PatternDefView {
            name: "ts.promise_all_settled"@,
            lang: PatternLang::TypeScript,
            description: "Promise.allSettled — parallel execution with per-task failure handling"@,
            required: seq!["Promise.allSettled"@],
            forbidden: Seq::empty(),
        },
        PatternDefView {
            name: "ts.promise_all"@,
            lang: PatternLang::TypeScript,
            description: "Promise.all — parallel fan-out, fail-fast"@,
            required: seq!["Promise.all("@],
            forbidden: Seq::empty(),
        },
        PatternDefView {
            name: "ts.promise_race"@,
            lang: PatternLang::TypeScript,
            description: "Promise.race — first-to-settle wins (timeout / fallback)"@,
            required: seq!["Promise.race"@],
            forbidden: Seq::empty(),
        },
        PatternDefView {
            name: "ts.async_await"@,
            lang: PatternLang::TypeScript,
            description: "async/await — suspending asynchronous control flow"@,
            required: seq!["async "@, "await "@],
            forbidden: Seq::empty(),
        },
        PatternDefView {
            name: "ts.try_catch_async"@,
            lang: PatternLang::TypeScript,
            description: "try/catch around await — async error handling"@,
            required: seq!["try {"@, "catch"@, "await "@],
            forbidden: Seq::empty(),
        },
        PatternDefView {
            name: "ts.optional_chaining"@,
            lang: PatternLang::TypeScript,
            description: "Optional chaining (?.) — null-safe property access"@,
            required: seq!["?."@],
            forbidden: Seq::empty(),
        },
        PatternDefView {
            name: "ts.nullish_coalescing"@,
            lang: PatternLang::TypeScript,
            description: "Nullish coalescing (??) — default for null/undefined only"@,
            required: seq![" ?? "@],
            forbidden: Seq::empty(),
        },
        PatternDefView {
            name: "ts.destructure_object"@,
            lang: PatternLang::TypeScript,
            description: "Object destructuring in function params — named-arg ergonomics"@,
            required: seq!["({ "@],
            forbidden: Seq::empty(),
        },
    ]
}

/// Adds the patterns of the TypeScript catalog, from number 1 on.
fn add_ts_part_1(defs: &mut Vec<PatternDef>)
    ensures
        views(final(defs)@) == views(old(defs)@) + ts_part_1(),
{
    let ghost before = views(defs@);
    add_def(
        defs,
        "ts.promise_all_settled",
        PatternLang::TypeScript,
        "Promise.allSettled — parallel execution with per-task failure handling",
        one("Promise.allSettled"),
        none(),
    );
    add_def(
        defs,
        "ts.promise_all",
        PatternLang::TypeScript,
        "Promise.all — parallel fan-out, fail-fast",
        one("Promise.all("),
        none(),
    );
    add_def(
        defs,
        "ts.promise_race",
        PatternLang::TypeScript,
        "Promise.race — first-to-settle wins (timeout / fallback)",
        one("Promise.race"),
        none(),
    );
    add_def(
        defs,
        "ts.async_await",
        PatternLang::TypeScript,
        "async/await — suspending asynchronous control flow",
        two("async ", "await "),
        none(),
    );
    add_def(
        defs,
        "ts.try_catch_async",
        PatternLang::TypeScript,
        "try/catch around await — async error handling",
        three("try {", "catch", "await "),
        none(),
    );
    add_def(
        defs,
        "ts.optional_chaining",
        PatternLang::TypeScript,
        "Optional chaining (?.) — null-safe property access",
        one("?."),
        none(),
    );
    add_def(
        defs,
        "ts.nullish_coalescing",
        PatternLang::TypeScript,
        "Nullish coalescing (??) — default for null/undefined only",
        one(" ?? "),
        none(),
    );
    add_def(
        defs,
        "ts.destructure_object",
        PatternLang::TypeScript,
        "Object destructuring in function params — named-arg ergonomics",
        one("({ "),
        none(),
    );
    proof {
        assert(views(defs@) =~= before + ts_part_1());
    }
}

/// Patterns of the TypeScript catalog, from number 9 on.
pub open spec fn ts_part_2() -> Seq<PatternDefView> {
    seq![
        PatternDefView {
            name: "ts.rest_spread"@,
            lang: PatternLang::TypeScript,
            description: "Rest/spread operator for arrays or args"@,
            required: seq!["..."@],
            forbidden: Seq::empty(),
        },
        PatternDefView {
            name: "ts.arrow_function"@,
            lang: PatternLang::TypeScript,
            description: "Arrow function — lexical-this callback"@,
            required: seq![" => "@],
            forbidden: Seq::empty(),
        },
        PatternDefView {
            name: "ts.array_map_chain"@,
            lang: PatternLang::TypeScript,
            description: "Array .map().filter() — functional chain over collections"@,
            required: seq![".map("@, ".filter("@],
            forbidden: Seq::empty(),
        },
        PatternDefView {
            name: "ts.array_reduce"@,
            lang: PatternLang::TypeScript,
            description: "Array.reduce — accumulator-driven aggregation"@,
            required: seq![".reduce("@],
            forbidden: Seq::empty(),
        },
        PatternDefView {
            name: "ts.type_alias"@,
            lang: PatternLang::TypeScript,
            description: "type alias declaration — structural typing primitive"@,
            required: seq!["type "@, " = "@],
            forbidden: seq!["type of "@],
        },
        PatternDefView {
            name: "ts.interface_decl"@,
            lang: PatternLang::TypeScript,
            description: "interface declaration — extensible object contract"@,
            required: seq!["interface "@, "{"@],
            forbidden: Seq::empty(),
        },
        PatternDefView {
            name: "ts.enum_decl"@,
            lang: PatternLang::TypeScript,
            description: "enum declaration — bounded set of named values"@,
            required: seq!["enum "@, "{"@],
            forbidden: Seq::empty(),
        },
        PatternDefView {
            name: "ts.discriminated_union"@,
            lang: PatternLang::TypeScript,
            description: "Discriminated union via shared 'kind' field — safe pattern-matching"@,
            required: seq!["kind:"@, "|"@],
            forbidden: Seq::empty(),
        },
    ]
}

/// Adds the patterns of the TypeScript catalog, from number 9 on.
fn add_ts_part_2(defs: &mut Vec<PatternDef>)
    ensures
        views(final(defs)@) == views(old(defs)@) + ts_part_2(),
{
    let ghost before = views(defs@);
    add_def(
        defs,
        "ts.rest_spread",
        PatternLang::TypeScript,
        "Rest/spread operator for arrays or args",
        one("..."),
        none(),
    );
    add_def(
        defs,
        "ts.arrow_function",
        PatternLang::TypeScript,
        "Arrow function — lexical-this callback",
        one(" => "),
        none(),
    );
    add_def(
        defs,
        "ts.array_map_chain",
        PatternLang::TypeScript,
        "Array .map().filter() — functional chain over collections",
        two(".map(", ".filter("),
        none(),
    );
    add_def(
        defs,
        "ts.array_reduce",
        PatternLang::TypeScript,
        "Array.reduce — accumulator-driven aggregation",
        one(".reduce("),
        none(),
    );
    add_def(
        defs,
        "ts.type_alias",
        PatternLang::TypeScript,
        "type alias declaration — structural typing primitive",
        two("type ", " = "),
        one("type of "),
    );
    add_def(
        defs,
        "ts.interface_decl",
        PatternLang::TypeScript,
        "interface declaration — extensible object contract",
        two("interface ", "{"),
        none(),
    );
    add_def(
        defs,
        "ts.enum_decl",
        PatternLang::TypeScript,
        "enum declaration — bounded set of named values",
        two("enum ", "{"),
        none(),
    );
    add_def(
        defs,
        "ts.discriminated_union",
        PatternLang::TypeScript,
        "Discriminated union via shared 'kind' field — safe pattern-matching",
        two("kind:", "|"),
        none(),
    );
    proof {
        assert(views(defs@) =~= before + ts_part_2());
    }
}

/// Patterns of the TypeScript catalog, from number 17 on.
pub open spec fn ts_part_3() -> Seq<PatternDefView> {
    seq![
        PatternDefView {
            name: "ts.generic_function"@,
            lang: PatternLang::TypeScript,
            description: "Generic function with type parameter"@,
            required: seq!["function "@, "<"@, ">("@],
            forbidden: Seq::empty(),
        },
        PatternDefView {
            name: "ts.readonly_field"@,
            lang: PatternLang::TypeScript,
            description: "readonly modifier — immutable field declaration"@,
            required: seq!["readonly "@],
            forbidden: Seq::empty(),
        },
        PatternDefView {
            name: "ts.private_class_field"@,
            lang: PatternLang::TypeScript,
            description: "private class field (TS access modifier)"@,
            required: seq!["private "@],
            forbidden: Seq::empty(),
        },
        PatternDefView {
            name: "ts.class_constructor"@,
            lang: PatternLang::TypeScript,
            description: "class with constructor — OOP initialisation"@,
            required: seq!["class "@, "constructor("@],
            forbidden: Seq::empty(),
        },
        PatternDefView {
            name: "ts.class_extends"@,
            lang: PatternLang::TypeScript,
            description: "class extends — single-class inheritance"@,
            required: seq!["class "@, "extends "@],
            forbidden: Seq::empty(),
        },
        PatternDefView {
            name: "ts.implements_interface"@,
            lang: PatternLang::TypeScript,
            description: "class implements interface — contract conformance"@,
            required: seq!["class "@, "implements "@],
            forbidden: Seq::empty(),
        },
        PatternDefView {
            name: "ts.import_module"@,
            lang: PatternLang::TypeScript,
            description: "ES module import"@,
            required: seq!["import "@, "from "@],
            forbidden: Seq::empty(),
        },
        PatternDefView {
            name: "ts.export_default"@,
            lang: PatternLang::TypeScript,
            description: "export default declaration — module's primary export"@,
            required: seq!["export default"@],
            forbidden: Seq::empty(),
        },
    ]
}

/// Adds the patterns of the TypeScript catalog, from number 17 on.
fn add_ts_part_3(defs: &mut Vec<PatternDef>)
    ensures
        views(final(defs)@) == views(old(defs)@) + ts_part_3(),
{
    let ghost before = views(defs@);
    add_def(
        defs,
        "ts.generic_function",
        PatternLang::TypeScript,
        "Generic function with type parameter",
        three("function ", "<", ">("),
        none(),
    );
    add_def(
        defs,
        "ts.readonly_field",
        PatternLang::TypeScript,
        "readonly modifier — immutable field declaration",
        one("readonly "),
        none(),
    );
    add_def(
        defs,
        "ts.private_class_field",
        PatternLang::TypeScript,
        "private class field (TS access modifier)",
        one("private "),
        none(),
    );
    add_def(
        defs,
        "ts.class_constructor",
        PatternLang::TypeScript,
        "class with constructor — OOP initialisation",
        two("class ", "constructor("),
        none(),
    );
    add_def(
        defs,
        "ts.class_extends",
        PatternLang::TypeScript,
        "class extends — single-class inheritance",
        two("class ", "extends "),
        none(),
    );
    add_def(
        defs,
        "ts.implements_interface",
        PatternLang::TypeScript,
        "class implements interface — contract conformance",
        two("class ", "implements "),
        none(),
    );
    add_def(
        defs,
        "ts.import_module",
        PatternLang::TypeScript,
        "ES module import",
        two("import ", "from "),
        none(),
    );
    add_def(
        defs,
        "ts.export_default",
        PatternLang::TypeScript,
        "export default declaration — module's primary export",
        one("export default"),
        none(),
    );
    proof {
        assert(views(defs@) =~= before + ts_part_3());
    }
}

/// Patterns of the TypeScript catalog, from number 25 on.
pub open spec fn ts_part_4() -> Seq<PatternDefView> {
    seq![
        PatternDefView {
            name: "ts.export_named"@,
            lang: PatternLang::TypeScript,
            description: "named export"@,
            required: seq!["export "@],
            forbidden: seq!["export default"@],
        },
        PatternDefView {
            name: "ts.fetch_api_call"@,
            lang: PatternLang::TypeScript,
            description: "fetch() with await — standard HTTP request"@,
            required: seq!["fetch("@, "await "@],
            forbidden: Seq::empty(),
        },
        PatternDefView {
            name: "ts.json_parse_stringify"@,
            lang: PatternLang::TypeScript,
            description: "JSON.parse / JSON.stringify for serialisation"@,
            required: seq!["JSON."@],
            forbidden: Seq::empty(),
        },
        PatternDefView {
            name: "ts.set_timeout"@,
            lang: PatternLang::TypeScript,
            description: "setTimeout / setInterval scheduling"@,
            required: seq!["setTimeout("@],
            forbidden: Seq::empty(),
        },
        PatternDefView {
            name: "ts.error_throw"@,
            lang: PatternLang::TypeScript,
            description: "throw new Error — explicit failure signal"@,
            required: seq!["throw new "@],
            forbidden: Seq::empty(),
        },
        PatternDefView {
            name: "ts.error_handler_chain"@,
            lang: PatternLang::TypeScript,
            description: "Promise.catch() — promise-chain error handler"@,
            required: seq![".catch("@],
            forbidden: Seq::empty(),
        },
    ]
}

/// Adds the patterns of the TypeScript catalog, from number 25 on.
fn add_ts_part_4(defs: &mut Vec<PatternDef>)
    ensures
        views(final(defs)@) == views(old(defs)@) + ts_part_4(),
{
    let ghost before = views(defs@);
    add_def(
        defs,
        "ts.export_named",
        PatternLang::TypeScript,
        "named export",
        one("export "),
        one("export default"),
    );
    add_def(
        defs,
        "ts.fetch_api_call",
        PatternLang::TypeScript,
        "fetch() with await — standard HTTP request",
        two("fetch(", "await "),
        none(),
    );
    add_def(
        defs,
        "ts.json_parse_stringify",
        PatternLang::TypeScript,
        "JSON.parse / JSON.stringify for serialisation",
        one("JSON."),
        none(),
    );
    add_def(
        defs,
        "ts.set_timeout",
        PatternLang::TypeScript,
        "setTimeout / setInterval scheduling",
        one("setTimeout("),
        none(),
    );
    add_def(
        defs,
        "ts.error_throw",
        PatternLang::TypeScript,
        "throw new Error — explicit failure signal",
        one("throw new "),
        none(),
    );
    add_def(
        defs,
        "ts.error_handler_chain",
        PatternLang::TypeScript,
        "Promise.catch() — promise-chain error handler",
        one(".catch("),
        none(),
    );
    proof {
        assert(views(defs@) =~= before + ts_part_4());
    }
}

/// The TypeScript catalog.
pub open spec fn ts_catalog() -> Seq<PatternDefView> {
    ts_part_1() + ts_part_2() + ts_part_3() + ts_part_4()
}

/// The patterns of the TypeScript catalog.
pub fn typescript_patterns() -> (r: Vec<PatternDef>)
    ensures
        views(r@) == ts_catalog(),
{
    let mut r: Vec<PatternDef> = Vec::new();
    proof {
        assert(views(r@) =~= Seq::<PatternDefView>::empty());
    }
    add_ts_part_1(&mut r);
    add_ts_part_2(&mut r);
    add_ts_part_3(&mut r);
    add_ts_part_4(&mut r);
    proof {
        assert(views(r@) =~= ts_catalog());
    }
    r
}

/// The patterns that are tried on a chunk in the given language.
pub open spec fn catalog_for(lang: PatternLang) -> Seq<PatternDefView> {
    match lang {
        PatternLang::Rust => rust_catalog(),
        PatternLang::TypeScript => ts_catalog(),
        PatternLang::Any => rust_catalog() + ts_catalog(),
    }
}

/// The catalogs hold 32 patterns for Rust and 30 for TypeScript.
pub proof fn lemma_catalog_sizes()
    ensures
        catalog_for(PatternLang::Rust).len() == 32,
        catalog_for(PatternLang::TypeScript).len() == 30,
        catalog_for(PatternLang::Any).len() == 62,
{
}

/// The patterns of all languages.
#[derive(Debug)]
pub struct PatternCatalog {
    rust: Vec<PatternDef>,
    typescript: Vec<PatternDef>,
}

impl PatternCatalog {
    #[verifier::type_invariant]
    spec fn holds_catalog(self) -> bool {
        views(self.rust@) == rust_catalog() && views(self.typescript@) == ts_catalog()
    }

    /// The patterns that the catalog holds.
    pub closed spec fn patterns(&self) -> Seq<PatternDefView> {
        views(self.rust@) + views(self.typescript@)
    }

    /// The catalog of every pattern.
    pub fn new() -> (r: PatternCatalog)
        ensures
            r.patterns() == catalog_for(PatternLang::Any),
    {
        PatternCatalog { rust: rust_patterns(), typescript: typescript_patterns() }
    }

    /// How many patterns there are.
    pub fn pattern_count(&self) -> (r: usize)
        ensures
            r == catalog_for(PatternLang::Any).len(),
    {
        proof {
            use_type_invariant(self);
            lemma_catalog_sizes();
        }
        self.rust.len() + self.typescript.len()
    }

    /// How many patterns are tried on a chunk in the given language.
    pub fn count_for(&self, lang: PatternLang) -> (r: usize)
        ensures
            r == catalog_for(lang).len(),
    {
        proof {
            use_type_invariant(self);
        }
        match lang {
            PatternLang::Rust => self.rust.len(),
            PatternLang::TypeScript => self.typescript.len(),
            PatternLang::Any => self.pattern_count(),
        }
    }

    /// Every pattern: those of Rust, then those of TypeScript.
    pub fn all_patterns(&self) -> (r: Vec<&PatternDef>)
        ensures
            views(r@) == catalog_for(PatternLang::Any),
    {
        proof {
            use_type_invariant(self);
        }
        let mut r: Vec<&PatternDef> = Vec::new();
        let ghost all = views(self.rust@) + views(self.typescript@);
        let mut i: usize = 0;
        while i < self.rust.len()
            invariant
                i <= self.rust@.len(),
                all == views(self.rust@) + views(self.typescript@),
                r@.len() == i,
                forall|k: int| 0 <= k < i ==> (#[trigger] r@[k])@ == all[k],
            decreases self.rust@.len() - i,
        {
            r.push(&self.rust[i]);
            i = i + 1;
        }
        let mut j: usize = 0;
        while j < self.typescript.len()
            invariant
                j <= self.typescript@.len(),
                all == views(self.rust@) + views(self.typescript@),
                r@.len() == self.rust@.len() + j,
                forall|k: int| 0 <= k < r@.len() ==> (#[trigger] r@[k])@ == all[k],
            decreases self.typescript@.len() - j,
        {
            r.push(&self.typescript[j]);
            j = j + 1;
        }
        proof {
            assert(views(r@) =~= all);
        }
        r
    }

    /// The pattern with the given name.
    pub fn lookup(&self, pattern_name: &str) -> (r: Option<&PatternDef>)
        ensures
            match r {
                Some(d) => exists|i: int|
                    {
                        &&& 0 <= i < catalog_for(PatternLang::Any).len()
                        &&& d@ == catalog_for(PatternLang::Any)[i]
                        &&& d@.name == pattern_name@
                        &&& forall|k: int|
                            0 <= k < i ==> (#[trigger] catalog_for(PatternLang::Any)[k]).name != pattern_name@
                    },
                None => forall|k: int|
                    0 <= k < catalog_for(PatternLang::Any).len() ==> (#[trigger] catalog_for(PatternLang::Any)[k]).name
                        != pattern_name@,
            },
    {
        let all: Vec<&PatternDef> = self.all_patterns();
        let mut i: usize = 0;
        while i < all.len()
            invariant
                i <= all@.len(),
                views(all@) == catalog_for(PatternLang::Any),
                forall|k: int|
                    0 <= k < i ==> (#[trigger] catalog_for(PatternLang::Any)[k]).name != pattern_name@,
            decreases all@.len() - i,
        {
            proof {
                assert(views(all@)[i as int] == all@[i as int]@);
            }
            if same_text(all[i].name, pattern_name) {
                return Some(all[i]);
            }
            i = i + 1;
        }
        None
    }
}

impl Default for PatternCatalog {
    /// The catalog of every pattern.
    fn default() -> (r: PatternCatalog)
        ensures
            r.patterns() == catalog_for(PatternLang::Any),
    {
        PatternCatalog::new()
    }
}

/// The pattern occurs in the text: all that it requires occurs, and nothing that it forbids.
pub open spec fn occurs(content: Seq<char>, d: PatternDefView) -> bool {
    &&& forall|i: int| 0 <= i < d.required.len() ==> has_text(content, #[trigger] d.required[i])
    &&& forall|i: int| 0 <= i < d.forbidden.len() ==> !has_text(content, #[trigger] d.forbidden[i])
}

/// Whether the pattern occurs in the text.
pub fn matches_pattern(content: &str, def: &PatternDef) -> (r: bool)
    ensures
        r == occurs(content@, def@),
{
    let mut i: usize = 0;
    while i < def.required.len()
        invariant
            i <= def.required@.len(),
            forall|k: int| 0 <= k < i ==> has_text(content@, #[trigger] def@.required[k]),
        decreases def.required@.len() - i,
    {
        proof {
            assert(def@.required[i as int] == def.required@[i as int]@);
        }
        if !contains_text(content, def.required[i]) {
            return false;
        }
        i = i + 1;
    }
    let mut j: usize = 0;
    while j < def.forbidden.len()
        invariant
            j <= def.forbidden@.len(),
            forall|k: int| 0 <= k < j ==> !has_text(content@, #[trigger] def@.forbidden[k]),
        decreases def.forbidden@.len() - j,
    {
        proof {
            assert(def@.forbidden[j as int] == def.forbidden@[j as int]@);
        }
        if contains_text(content, def.forbidden[j]) {
            return false;
        }
        j = j + 1;
    }
    true
}

/// The matches of the patterns that occur in the text, in the order of the patterns.
pub open spec fn mined(content: Seq<char>, defs: Seq<PatternDefView>) -> Seq<PatternMatchView>
    decreases defs.len(),
{
    if defs.len() == 0 {
        Seq::empty()
    } else {
        let r = mined(content, defs.drop_last());
        if occurs(content, defs.last()) {
            r.push(match_of(defs.last()))
        } else {
            r
        }
    }
}

/// Adds the matches of the patterns that occur in the text.
fn mine_into(content: &str, defs: &Vec<PatternDef>, r: &mut Vec<PatternMatch>)
    ensures
        views(final(r)@) == views(old(r)@) + mined(content@, views(defs@)),
{
    let ghost before = views(r@);
    let ghost all = views(defs@);
    let mut i: usize = 0;
    proof {
        assert(views(r@) =~= before + mined(content@, all.take(0)));
    }
    while i < defs.len()
        invariant
            i <= defs@.len(),
            all == views(defs@),
            views(r@) == before + mined(content@, all.take(i as int)),
        decreases defs@.len() - i,
    {
        let ghost shown = views(r@);
        proof {
            assert(all.take(i + 1).drop_last() =~= all.take(i as int));
            assert(all.take(i + 1).last() == defs@[i as int]@);
        }
        if matches_pattern(content, &defs[i]) {
            let m: PatternMatch = PatternMatch::from_def(&defs[i]);
            let ghost mv = m@;
            r.push(m);
            proof {
                assert(views(r@) =~= shown.push(mv));
                assert(shown.push(mv) =~= before + mined(content@, all.take(i as int)).push(mv));
            }
        }
        i = i + 1;
    }
    proof {
        assert(all.take(i as int) =~= all);
    }
}

/// The matches in one list of patterns, then those in another, are the matches in both.
pub proof fn lemma_mined_concat(
    content: Seq<char>,
    a: Seq<PatternDefView>,
    b: Seq<PatternDefView>,
)
    ensures
        mined(content, a + b) == mined(content, a) + mined(content, b),
    decreases b.len(),
{
    if b.len() == 0 {
        assert(a + b =~= a);
        assert(mined(content, a) + mined(content, b) =~= mined(content, a));
    } else {
        lemma_mined_concat(content, a, b.drop_last());
        assert((a + b).drop_last() =~= a + b.drop_last());
        assert((mined(content, a) + mined(content, b.drop_last())).push(match_of(b.last()))
            =~= mined(content, a) + mined(content, b.drop_last()).push(match_of(b.last())));
    }
}

/// The matches of the patterns for a language in a text, with a catalog at hand.
pub fn mine_patterns_with(
    chunk_content: &str,
    language: PatternLang,
    catalog: &PatternCatalog,
) -> (r: Vec<PatternMatch>)
    ensures
        views(r@) == mined(chunk_content@, catalog_for(language)),
{
    proof {
        use_type_invariant(catalog);
    }
    match language {
        PatternLang::Rust => {
            let mut r: Vec<PatternMatch> = Vec::new();
            mine_into(chunk_content, &catalog.rust, &mut r);
            proof {
                assert(views(r@) =~= mined(chunk_content@, rust_catalog()));
            }
            r
        },
        PatternLang::TypeScript => {
            let mut r: Vec<PatternMatch> = Vec::new();
            mine_into(chunk_content, &catalog.typescript, &mut r);
            proof {
                assert(views(r@) =~= mined(chunk_content@, ts_catalog()));
            }
            r
        },
        PatternLang::Any => mine_all_languages(chunk_content, catalog),
    }
}

/// The matches of the patterns of every language in a text.
pub fn mine_all_languages(chunk_content: &str, catalog: &PatternCatalog) -> (r: Vec<PatternMatch>)
    ensures
        views(r@) == mined(chunk_content@, catalog_for(PatternLang::Any)),
{
    proof {
        use_type_invariant(catalog);
    }
    let mut r: Vec<PatternMatch> = Vec::new();
    mine_into(chunk_content, &catalog.rust, &mut r);
    mine_into(chunk_content, &catalog.typescript, &mut r);
    proof {
        lemma_mined_concat(chunk_content@, rust_catalog(), ts_catalog());
        assert(views(r@) =~= mined(chunk_content@, rust_catalog()) + mined(
            chunk_content@,
            ts_catalog(),
        ));
    }
    r
}

/// The matches of the patterns for a language in a text.
pub fn mine_patterns(chunk_content: &str, language: PatternLang) -> (r: Vec<PatternMatch>)
    ensures
        views(r@) == mined(chunk_content@, catalog_for(language)),
{
    let catalog: PatternCatalog = PatternCatalog::new();
    mine_patterns_with(chunk_content, language, &catalog)
}

/// A number that tells the names of the patterns apart.
pub open spec fn name_key(n: Seq<char>) -> int {
    let a = if n.len() > 5 {
        n[5] as int
    } else {
        0
    };
    let b = if n.len() > 6 {
        n[6] as int
    } else {
        0
    };
    n.len() * 1_000_000 + a * 1_000 + b
}

/// The number of the pattern with the given key.
pub open spec fn position_of_key(k: int) -> int {
    if k == 14100114 {
        0
    } else if k == 14102114 {
        1
    } else if k == 18116114 {
        2
    } else if k == 17115101 {
        3
    } else if k == 25101114 {
        4
    } else if k == 19097110 {
        5
    } else if k == 31114101 {
        6
    } else if k == 16116111 {
        7
    } else if k == 17116111 {
        8
    } else if k == 15116111 {
        9
    } else if k == 23097115 {
        10
    } else if k == 27097114 {
        11
    } else if k == 28097114 {
        12
    } else if k == 20098117 {
        13
    } else if k == 20110101 {
        14
    } else if k == 17100101 {
        15
    } else if k == 17100105 {
        16
    } else if k == 15100101 {
        17
    } else if k == 18105116 {
        18
    } else if k == 22100101 {
        19
    } else if k == 16105102 {
        20
    } else if k == 17109097 {
        21
    } else if k == 25108097 {
        22
    } else if k == 17099104 {
        23
    } else if k == 16116101 {
        24
    } else if k == 12116101 {
        25
    } else if k == 23116114 {
        26
    } else if k == 16116114 {
        27
    } else if k == 18098111 {
        28
    } else if k == 19108105 {
        29
    } else if k == 20109097 {
        30
    } else if k == 17117110 {
        31
    } else if k == 22111109 {
        32
    } else if k == 14111109 {
        33
    } else if k == 15111109 {
        34
    } else if k == 14121110 {
        35
    } else if k == 18121095 {
        36
    } else if k == 20116105 {
        37
    } else if k == 21108108 {
        38
    } else if k == 21115116 {
        39
    } else if k == 14115116 {
        40
    } else if k == 17114111 {
        41
    } else if k == 18114097 {
        42
    } else if k == 15114097 {
        43
    } else if k == 13112101 {
        44
    } else if k == 17116101 {
        45
    } else if k == 12117109 {
        46
    } else if k == 22115099 {
        47
    } else if k == 19110101 {
        48
    } else if k == 17097100 {
        49
    } else if k == 22105118 {
        50
    } else if k == 20097115 {
        51
    } else if k == 16097115 {
        52
    } else if k == 23112108 {
        53
    } else if k == 16112111 {
        54
    } else if k == 17112111 {
        55
    } else if k == 15112111 {
        56
    } else if k == 17116099 {
        57
    } else if k == 23111110 {
        58
    } else if k == 14116095 {
        59
    } else if k == 14114111 {
        60
    } else if k == 22114111 {
        61
    } else {
        -1
    }
}

proof fn lemma_rust_names_1()
    ensures
        forall|i: int|
            0 <= i < rust_part_1().len() ==> position_of_key(name_key((#[trigger] rust_part_1()[i]).name)) == i + 0,
        rust_part_1().len() == 8,
{
    reveal_strlit("rust.drop_impl");
    assert(name_key("rust.drop_impl"@) == 14100114);
    reveal_strlit("rust.from_impl");
    assert(name_key("rust.from_impl"@) == 14102114);
    reveal_strlit("rust.try_from_impl");
    assert(name_key("rust.try_from_impl"@) == 18116114);
    reveal_strlit("rust.serde_derive");
    assert(name_key("rust.serde_derive"@) == 17115101);
    reveal_strlit("rust.error_with_thiserror");
    assert(name_key("rust.error_with_thiserror"@) == 25101114);
    reveal_strlit("rust.anyhow_context");
    assert(name_key("rust.anyhow_context"@) == 19097110);
    reveal_strlit("rust.result_question_mark_chain");
    assert(name_key("rust.result_question_mark_chain"@) == 31114101);
    reveal_strlit("rust.tokio_spawn");
    assert(name_key("rust.tokio_spawn"@) == 16116111);
}

proof fn lemma_rust_names_2()
    ensures
        forall|i: int|
            0 <= i < rust_part_2().len() ==> position_of_key(name_key((#[trigger] rust_part_2()[i]).name)) == i + 8,
        rust_part_2().len() == 8,
{
    reveal_strlit("rust.tokio_select");
    assert(name_key("rust.tokio_select"@) == 17116111);
    reveal_strlit("rust.tokio_main");
    assert(name_key("rust.tokio_main"@) == 15116111);
    reveal_strlit("rust.async_trait_method");
    assert(name_key("rust.async_trait_method"@) == 23097115);
    reveal_strlit("rust.arc_mutex_shared_state");
    assert(name_key("rust.arc_mutex_shared_state"@) == 27097114);
    reveal_strlit("rust.arc_rwlock_shared_state");
    assert(name_key("rust.arc_rwlock_shared_state"@) == 28097114);
    reveal_strlit("rust.builder_pattern");
    assert(name_key("rust.builder_pattern"@) == 20098117);
    reveal_strlit("rust.new_constructor");
    assert(name_key("rust.new_constructor"@) == 20110101);
    reveal_strlit("rust.default_impl");
    assert(name_key("rust.default_impl"@) == 17100101);
}

proof fn lemma_rust_names_3()
    ensures
        forall|i: int|
            0 <= i < rust_part_3().len() ==> position_of_key(name_key((#[trigger] rust_part_3()[i]).name)) == i + 16,
        rust_part_3().len() == 8,
{
    reveal_strlit("rust.display_impl");
    assert(name_key("rust.display_impl"@) == 17100105);
    reveal_strlit("rust.debug_impl");
    assert(name_key("rust.debug_impl"@) == 15100101);
    reveal_strlit("rust.iterator_impl");
    assert(name_key("rust.iterator_impl"@) == 18105116);
    reveal_strlit("rust.derive_clone_copy");
    assert(name_key("rust.derive_clone_copy"@) == 22100101);
    reveal_strlit("rust.if_let_some");
    assert(name_key("rust.if_let_some"@) == 16105102);
    reveal_strlit("rust.match_result");
    assert(name_key("rust.match_result"@) == 17109097);
    reveal_strlit("rust.lazy_static_oncelock");
    assert(name_key("rust.lazy_static_oncelock"@) == 25108097);
    reveal_strlit("rust.channel_mpsc");
    assert(name_key("rust.channel_mpsc"@) == 17099104);
}

proof fn lemma_rust_names_4()
    ensures
        forall|i: int|
            0 <= i < rust_part_4().len() ==> position_of_key(name_key((#[trigger] rust_part_4()[i]).name)) == i + 24,
        rust_part_4().len() == 8,
{
    reveal_strlit("rust.test_module");
    assert(name_key("rust.test_module"@) == 16116101);
    reveal_strlit("rust.test_fn");
    assert(name_key("rust.test_fn"@) == 12116101);
    reveal_strlit("rust.tracing_instrument");
    assert(name_key("rust.tracing_instrument"@) == 23116114);
    reveal_strlit("rust.tracing_log");
    assert(name_key("rust.tracing_log"@) == 16116114);
    reveal_strlit("rust.box_dyn_trait");
    assert(name_key("rust.box_dyn_trait"@) == 18098111);
    reveal_strlit("rust.lifetime_param");
    assert(name_key("rust.lifetime_param"@) == 19108105);
    reveal_strlit("rust.macro_rules_def");
    assert(name_key("rust.macro_rules_def"@) == 20109097);
    reveal_strlit("rust.unsafe_block");
    assert(name_key("rust.unsafe_block"@) == 17117110);
}

proof fn lemma_ts_names_1()
    ensures
        forall|i: int|
            0 <= i < ts_part_1().len() ==> position_of_key(name_key((#[trigger] ts_part_1()[i]).name)) == i + 32,
        ts_part_1().len() == 8,
{
    reveal_strlit("ts.promise_all_settled");
    assert(name_key("ts.promise_all_settled"@) == 22111109);
    reveal_strlit("ts.promise_all");
    assert(name_key("ts.promise_all"@) == 14111109);
    reveal_strlit("ts.promise_race");
    assert(name_key("ts.promise_race"@) == 15111109);
    reveal_strlit("ts.async_await");
    assert(name_key("ts.async_await"@) == 14121110);
    reveal_strlit("ts.try_catch_async");
    assert(name_key("ts.try_catch_async"@) == 18121095);
    reveal_strlit("ts.optional_chaining");
    assert(name_key("ts.optional_chaining"@) == 20116105);
    reveal_strlit("ts.nullish_coalescing");
    assert(name_key("ts.nullish_coalescing"@) == 21108108);
    reveal_strlit("ts.destructure_object");
    assert(name_key("ts.destructure_object"@) == 21115116);
}

proof fn lemma_ts_names_2()
    ensures
        forall|i: int|
            0 <= i < ts_part_2().len() ==> position_of_key(name_key((#[trigger] ts_part_2()[i]).name)) == i + 40,
        ts_part_2().len() == 8,
{
    reveal_strlit("ts.rest_spread");
    assert(name_key("ts.rest_spread"@) == 14115116);
    reveal_strlit("ts.arrow_function");
    assert(name_key("ts.arrow_function"@) == 17114111);
    reveal_strlit("ts.array_map_chain");
    assert(name_key("ts.array_map_chain"@) == 18114097);
    reveal_strlit("ts.array_reduce");
    assert(name_key("ts.array_reduce"@) == 15114097);
    reveal_strlit("ts.type_alias");
    assert(name_key("ts.type_alias"@) == 13112101);
    reveal_strlit("ts.interface_decl");
    assert(name_key("ts.interface_decl"@) == 17116101);
    reveal_strlit("ts.enum_decl");
    assert(name_key("ts.enum_decl"@) == 12117109);
    reveal_strlit("ts.discriminated_union");
    assert(name_key("ts.discriminated_union"@) == 22115099);
}

proof fn lemma_ts_names_3()
    ensures
        forall|i: int|
            0 <= i < ts_part_3().len() ==> position_of_key(name_key((#[trigger] ts_part_3()[i]).name)) == i + 48,
        ts_part_3().len() == 8,
{
    reveal_strlit("ts.generic_function");
    assert(name_key("ts.generic_function"@) == 19110101);
    reveal_strlit("ts.readonly_field");
    assert(name_key("ts.readonly_field"@) == 17097100);
    reveal_strlit("ts.private_class_field");
    assert(name_key("ts.private_class_field"@) == 22105118);
    reveal_strlit("ts.class_constructor");
    assert(name_key("ts.class_constructor"@) == 20097115);
    reveal_strlit("ts.class_extends");
    assert(name_key("ts.class_extends"@) == 16097115);
    reveal_strlit("ts.implements_interface");
    assert(name_key("ts.implements_interface"@) == 23112108);
    reveal_strlit("ts.import_module");
    assert(name_key("ts.import_module"@) == 16112111);
    reveal_strlit("ts.export_default");
    assert(name_key("ts.export_default"@) == 17112111);
}

proof fn lemma_ts_names_4()
    ensures
        forall|i: int|
            0 <= i < ts_part_4().len() ==> position_of_key(name_key((#[trigger] ts_part_4()[i]).name)) == i + 56,
        ts_part_4().len() == 6,
{
    reveal_strlit("ts.export_named");
    assert(name_key("ts.export_named"@) == 15112111);
    reveal_strlit("ts.fetch_api_call");
    assert(name_key("ts.fetch_api_call"@) == 17116099);
    reveal_strlit("ts.json_parse_stringify");
    assert(name_key("ts.json_parse_stringify"@) == 23111110);
    reveal_strlit("ts.set_timeout");
    assert(name_key("ts.set_timeout"@) == 14116095);
    reveal_strlit("ts.error_throw");
    assert(name_key("ts.error_throw"@) == 14114111);
    reveal_strlit("ts.error_handler_chain");
    assert(name_key("ts.error_handler_chain"@) == 22114111);
}

/// No two patterns have the same name.
pub proof fn lemma_pattern_names_unique()
    ensures
        forall|i: int, j: int|
            0 <= i < j < catalog_for(PatternLang::Any).len() ==> (#[trigger] catalog_for(
                PatternLang::Any,
            )[i]).name != (#[trigger] catalog_for(PatternLang::Any)[j]).name,
{
    lemma_rust_names_1();
    lemma_rust_names_2();
    lemma_rust_names_3();
    lemma_rust_names_4();
    lemma_ts_names_1();
    lemma_ts_names_2();
    lemma_ts_names_3();
    lemma_ts_names_4();
    let all = catalog_for(PatternLang::Any);
    assert forall|i: int| 0 <= i < all.len() implies position_of_key(
        name_key((#[trigger] all[i]).name),
    ) == i by {
        if i < 8 {
            assert(all[i] == rust_part_1()[i]);
        } else if i < 16 {
            assert(all[i] == rust_part_2()[i - 8]);
        } else if i < 24 {
            assert(all[i] == rust_part_3()[i - 16]);
        } else if i < 32 {
            assert(all[i] == rust_part_4()[i - 24]);
        } else if i < 40 {
            assert(all[i] == ts_part_1()[i - 32]);
        } else if i < 48 {
            assert(all[i] == ts_part_2()[i - 40]);
        } else if i < 56 {
            assert(all[i] == ts_part_3()[i - 48]);
        } else {
            assert(all[i] == ts_part_4()[i - 56]);
        }
    }
}

/// A pattern is found in a text exactly if the text holds everything that it requires and nothing
/// that it forbids; each that is found is told once, in the order of the catalog, with its own name,
/// description and language.
pub proof fn lemma_mined_exactly(content: Seq<char>, defs: Seq<PatternDefView>)
    ensures
        ({
            let found = defs.filter(
                |d: PatternDefView|
                    (forall|i: int|
                        0 <= i < d.required.len() ==> has_text(content, #[trigger] d.required[i]))
                        && (forall|i: int|
                        0 <= i < d.forbidden.len() ==> !has_text(
                            content,
                            #[trigger] d.forbidden[i],
                        )),
            );
            let r = mined(content, defs);
            &&& r.len() == found.len()
            &&& forall|k: int|
                0 <= k < r.len() ==> {
                    &&& (#[trigger] r[k]).pattern_name == found[k].name
                    &&& r[k].description == found[k].description
                    &&& found[k].lang == PatternLang::Rust ==> r[k].language == "rust"@
                    &&& found[k].lang == PatternLang::TypeScript ==> r[k].language == "typescript"@
                    &&& found[k].lang == PatternLang::Any ==> r[k].language == "any"@
                }
        }),
    decreases defs.len(),
{
    reveal(Seq::filter);
    if defs.len() > 0 {
        lemma_mined_exactly(content, defs.drop_last());
    }
}

/// What a pattern requires is found wherever it stands: more text around it changes nothing for a
/// pattern that forbids nothing.
pub proof fn lemma_occurs_within(
    before: Seq<char>,
    content: Seq<char>,
    after: Seq<char>,
    d: PatternDefView,
)
    requires
        occurs(content, d),
        d.forbidden.len() == 0,
    ensures
        occurs(before + content + after, d),
{
    let whole = before + content + after;
    assert forall|i: int| 0 <= i < d.required.len() implies has_text(
        whole,
        #[trigger] d.required[i],
    ) by {
        let p = d.required[i];
        assert(has_text(content, p));
        let k = choose|k: int| #[trigger] crate::text::occurs_at(content, p, k);
        let at = before.len() + k;
        assert(whole.subrange(at, at + p.len()) =~= content.subrange(k, k + p.len()));
        assert(crate::text::occurs_at(whole, p, at));
    }
}

proof fn lemma_rust_parts()
    ensures
        forall|i: int|
            0 <= i < rust_part_1().len() ==> (#[trigger] rust_part_1()[i]).lang == PatternLang::Rust
                && rust_part_1()[i].required.len() > 0,
        forall|i: int|
            0 <= i < rust_part_2().len() ==> (#[trigger] rust_part_2()[i]).lang == PatternLang::Rust
                && rust_part_2()[i].required.len() > 0,
        forall|i: int|
            0 <= i < rust_part_3().len() ==> (#[trigger] rust_part_3()[i]).lang == PatternLang::Rust
                && rust_part_3()[i].required.len() > 0,
        forall|i: int|
            0 <= i < rust_part_4().len() ==> (#[trigger] rust_part_4()[i]).lang == PatternLang::Rust
                && rust_part_4()[i].required.len() > 0,
{
}

proof fn lemma_ts_parts()
    ensures
        forall|i: int|
            0 <= i < ts_part_1().len() ==> (#[trigger] ts_part_1()[i]).lang
                == PatternLang::TypeScript && ts_part_1()[i].required.len() > 0,
        forall|i: int|
            0 <= i < ts_part_2().len() ==> (#[trigger] ts_part_2()[i]).lang
                == PatternLang::TypeScript && ts_part_2()[i].required.len() > 0,
        forall|i: int|
            0 <= i < ts_part_3().len() ==> (#[trigger] ts_part_3()[i]).lang
                == PatternLang::TypeScript && ts_part_3()[i].required.len() > 0,
        forall|i: int|
            0 <= i < ts_part_4().len() ==> (#[trigger] ts_part_4()[i]).lang
                == PatternLang::TypeScript && ts_part_4()[i].required.len() > 0,
{
}

/// Every pattern that is tried on a language is of that language and requires something.
pub proof fn lemma_catalog_languages()
    ensures
        forall|i: int|
            0 <= i < catalog_for(PatternLang::Rust).len() ==> (#[trigger] catalog_for(
                PatternLang::Rust,
            )[i]).lang == PatternLang::Rust && catalog_for(PatternLang::Rust)[i].required.len() > 0,
        forall|i: int|
            0 <= i < catalog_for(PatternLang::TypeScript).len() ==> (#[trigger] catalog_for(
                PatternLang::TypeScript,
            )[i]).lang == PatternLang::TypeScript && catalog_for(
                PatternLang::TypeScript,
            )[i].required.len() > 0,
{
    lemma_rust_parts();
    lemma_ts_parts();
    let r = rust_catalog();
    assert forall|i: int| 0 <= i < r.len() implies (#[trigger] r[i]).lang == PatternLang::Rust
        && r[i].required.len() > 0 by {
        if i < 8 {
            assert(r[i] == rust_part_1()[i]);
        } else if i < 16 {
            assert(r[i] == rust_part_2()[i - 8]);
        } else if i < 24 {
            assert(r[i] == rust_part_3()[i - 16]);
        } else {
            assert(r[i] == rust_part_4()[i - 24]);
        }
    }
    let t = ts_catalog();
    assert forall|i: int| 0 <= i < t.len() implies (#[trigger] t[i]).lang
        == PatternLang::TypeScript && t[i].required.len() > 0 by {
        if i < 8 {
            assert(t[i] == ts_part_1()[i]);
        } else if i < 16 {
            assert(t[i] == ts_part_2()[i - 8]);
        } else if i < 24 {
            assert(t[i] == ts_part_3()[i - 16]);
        } else {
            assert(t[i] == ts_part_4()[i - 24]);
        }
    }
}

} // verus!
