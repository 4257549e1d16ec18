//! What a language model is asked, and how its answer is read.

use crate::text::{
    after_prefix, ascii_lower, contains_text, ends_with, has_prefix, has_suffix, has_text,
    quoted_text, quoted_text_of, same_text, strip_prefix, to_ascii_lower, trim, trimmed,
};
use vstd::prelude::*;

verus! {

/// How a query is answered.
#[derive(Debug, Clone, Copy, PartialEq, Eq, Structural)]
pub enum AgentRoute {
    FilePattern,
    Regex,
    ExactSymbol,
    StructuralSearch,
    Deep,
    Analytical,
    Exhaustive,
    Semantic,
    Architecture,
    FeaturePlanning,
}

impl AgentRoute {
    /// The name of the route.
    pub open spec fn name(self) -> Seq<char> {
        match self {
            AgentRoute::FilePattern => "file_pattern"@,
            AgentRoute::Regex => "regex"@,
            AgentRoute::ExactSymbol => "exact_symbol"@,
            AgentRoute::StructuralSearch => "structural"@,
            AgentRoute::Deep => "deep"@,
            AgentRoute::Analytical => "analytical"@,
            AgentRoute::Exhaustive => "exhaustive"@,
            AgentRoute::Semantic => "semantic"@,
            AgentRoute::Architecture => "architecture"@,
            AgentRoute::FeaturePlanning => "feature_planning"@,
        }
    }

    /// The name of the route.
    pub fn as_str(self) -> (r: &'static str)
        ensures
            r@ == self.name(),
    {
        match self {
            AgentRoute::FilePattern => "file_pattern",
            AgentRoute::Regex => "regex",
            AgentRoute::ExactSymbol => "exact_symbol",
            AgentRoute::StructuralSearch => "structural",
            AgentRoute::Deep => "deep",
            AgentRoute::Analytical => "analytical",
            AgentRoute::Exhaustive => "exhaustive",
            AgentRoute::Semantic => "semantic",
            AgentRoute::Architecture => "architecture",
            AgentRoute::FeaturePlanning => "feature_planning",
        }
    }
}

/// The route with a name, whose words are joined by underscores or not at all.
pub open spec fn route_named(s: Seq<char>) -> Option<AgentRoute> {
    if s == "file_pattern"@ || s == "filepattern"@ {
        Some(AgentRoute::FilePattern)
    } else if s == "regex"@ {
        Some(AgentRoute::Regex)
    } else if s == "exact_symbol"@ || s == "exactsymbol"@ {
        Some(AgentRoute::ExactSymbol)
    } else if s == "structural"@ {
        Some(AgentRoute::StructuralSearch)
    } else if s == "deep"@ {
        Some(AgentRoute::Deep)
    } else if s == "analytical"@ {
        Some(AgentRoute::Analytical)
    } else if s == "exhaustive"@ {
        Some(AgentRoute::Exhaustive)
    } else if s == "semantic"@ {
        Some(AgentRoute::Semantic)
    } else if s == "architecture"@ {
        Some(AgentRoute::Architecture)
    } else if s == "feature_planning"@ || s == "featureplanning"@ {
        Some(AgentRoute::FeaturePlanning)
    } else {
        None
    }
}

/// The route with a name.
pub fn route_by_name(s: &str) -> (r: Option<AgentRoute>)
    ensures
        r == route_named(s@),
{
    if same_text(s, "file_pattern") || same_text(s, "filepattern") {
        Some(AgentRoute::FilePattern)
    } else if same_text(s, "regex") {
        Some(AgentRoute::Regex)
    } else if same_text(s, "exact_symbol") || same_text(s, "exactsymbol") {
        Some(AgentRoute::ExactSymbol)
    } else if same_text(s, "structural") {
        Some(AgentRoute::StructuralSearch)
    } else if same_text(s, "deep") {
        Some(AgentRoute::Deep)
    } else if same_text(s, "analytical") {
        Some(AgentRoute::Analytical)
    } else if same_text(s, "exhaustive") {
        Some(AgentRoute::Exhaustive)
    } else if same_text(s, "semantic") {
        Some(AgentRoute::Semantic)
    } else if same_text(s, "architecture") {
        Some(AgentRoute::Architecture)
    } else if same_text(s, "feature_planning") || same_text(s, "featureplanning") {
        Some(AgentRoute::FeaturePlanning)
    } else {
        None
    }
}

/// What a model is told before it is asked for a route.
pub const CLASSIFIER_SYSTEM_PROMPT: &'static str = "\
You are a code-search query classifier. Given a developer's query, pick the \
single best search strategy from the list below and respond with its name in \
snake_case. Respond with EXACTLY ONE route name, no other text.

Routes:
  file_pattern     — query is a glob / file-name pattern (e.g. **/*.rs)
  regex            — query is a regex (contains \\b, \\d, |, [...], anchors)
  exact_symbol     — query is a single identifier or symbol name (CamelCase, snake_case, dot.path)
  structural       — callers / callees / imports / type references / call graph
  deep             — open-ended \"how\" / \"why\" / \"explain\" questions
  analytical       — comparative or quality analysis (most, least, compare, review)
  exhaustive       — enumerate all occurrences of something (list all, find all, show every, list all config/env/CLI flags)
  semantic         — natural-language concept search with no structural intent
  architecture     — high-level overview: main components, subsystems, god nodes, data flow
  feature_planning — impact analysis for adding a feature (\"if I wanted to add X\", \"what files would change\")

Respond with exactly one route name in snake_case, no other text.";

/// What a model is told before it is asked for code.
pub const HYDE_SYSTEM_PROMPT: &'static str = "\
You are a code-synthesis assistant. Given a developer's question about a \
codebase, write a short code snippet (1-30 lines) that would directly answer \
their question. Output ONLY the code, no markdown fences, no explanation.";

/// The question for the route of a query.
pub open spec fn classify_prompt(query: Seq<char>) -> Seq<char> {
    "Classify this code-search query:\n\n"@ + query + "\n\nRoute:"@
}

/// The question for the route of a query.
pub fn build_classify_prompt(query: &str) -> (r: String)
    ensures
        r@ == classify_prompt(query@),
{
    "Classify this code-search query:\n\n".to_owned().concat(query).concat("\n\nRoute:")
}

/// What follows a label such as `route:`, without white space around it; the text itself where it
/// has no label.
pub open spec fn without_label(s: Seq<char>) -> Seq<char> {
    match after_prefix(s, "route:"@) {
        Some(rest) => trimmed(rest),
        None => match after_prefix(s, "route ="@) {
            Some(rest) => trimmed(rest),
            None => match after_prefix(s, "route="@) {
                Some(rest) => trimmed(rest),
                None => match after_prefix(s, "answer:"@) {
                    Some(rest) => trimmed(rest),
                    None => match after_prefix(s, "answer ="@) {
                        Some(rest) => trimmed(rest),
                        None => s,
                    },
                },
            },
        },
    }
}

/// What follows a label such as `route:`.
fn strip_label_prefix(s: &str) -> (r: String)
    ensures
        r@ == without_label(s@),
{
    match strip_prefix(s, "route:") {
        Some(rest) => trim(&rest),
        None => match strip_prefix(s, "route =") {
            Some(rest) => trim(&rest),
            None => match strip_prefix(s, "route=") {
                Some(rest) => trim(&rest),
                None => match strip_prefix(s, "answer:") {
                    Some(rest) => trim(&rest),
                    None => match strip_prefix(s, "answer =") {
                        Some(rest) => trim(&rest),
                        None => s.to_owned(),
                    },
                },
            },
        },
    }
}

/// The route that an answer names, in whatever case, with white space around it and with a label or
/// without.
pub open spec fn route_in(answer: Seq<char>) -> Option<AgentRoute> {
    route_named(without_label(ascii_lower(trimmed(answer))))
}

/// An answer that names no route.
#[derive(Debug, Clone)]
pub struct UnrecognizedRoute {
    pub text: String,
}

impl UnrecognizedRoute {
    /// The error in words.
    pub fn message(&self) -> (r: String)
        ensures
            r@ == "LLM returned unrecognized route: "@ + quoted_text_of(self.text@),
    {
        "LLM returned unrecognized route: ".to_owned().concat(&quoted_text(&self.text))
    }
}

/// The route that an answer names.
pub fn parse_route_from_llm_output(text: &str) -> (r: Result<AgentRoute, UnrecognizedRoute>)
    ensures
        (match r {
            Ok(route) => Some(route),
            Err(_) => None,
        }) == route_in(text@),
        r is Err ==> r->Err_0.text@ == text@,
{
    let lowered: String = to_ascii_lower(&trim(text));
    match route_by_name(&strip_label_prefix(&lowered)) {
        Some(route) => Ok(route),
        None => Err(UnrecognizedRoute { text: text.to_owned() }),
    }
}

/// The programming language that a query names. The names that hold other names are looked for
/// first.
pub open spec fn language_in(query: Seq<char>) -> Option<Seq<char>> {
    let q = ascii_lower(query);
    if has_text(q, "typescript"@) || has_text(q, "in ts "@) || has_suffix(q, "in ts"@) {
        Some("TypeScript"@)
    } else if has_text(q, "javascript"@) || has_text(q, "in js "@) || has_suffix(q, "in js"@) {
        Some("JavaScript"@)
    } else if has_text(q, "objective-c"@) || has_text(q, "objc"@) {
        Some("Objective-C"@)
    } else if has_text(q, "c#"@) || has_text(q, "csharp"@) || has_text(q, "c-sharp"@) {
        Some("C#"@)
    } else if has_text(q, "c++"@) || has_text(q, "cplusplus"@) || has_text(q, "cpp "@) {
        Some("C++"@)
    } else if has_text(q, "python"@) {
        Some("Python"@)
    } else if has_text(q, "rust"@) {
        Some("Rust"@)
    } else if has_text(q, "golang"@) || has_text(q, "in go "@) || has_suffix(q, "in go"@) {
        Some("Go"@)
    } else if has_text(q, "kotlin"@) {
        Some("Kotlin"@)
    } else if has_text(q, "java"@) {
        Some("Java"@)
    } else if has_text(q, "swift"@) {
        Some("Swift"@)
    } else if has_text(q, "dart"@) {
        Some("Dart"@)
    } else if has_text(q, "scala"@) {
        Some("Scala"@)
    } else if has_text(q, "in c "@) || has_text(q, "in c\n"@) || has_suffix(q, "in c"@) || has_text(
        q,
        " c code"@,
    ) {
        Some("C"@)
    } else {
        None
    }
}

/// The view of an optional text.
pub open spec fn opt_str(o: Option<&str>) -> Option<Seq<char>> {
    match o {
        Some(s) => Some(s@),
        None => None,
    }
}

/// The programming language that a query names.
pub fn detect_language_hint(query: &str) -> (r: Option<&'static str>)
    ensures
        opt_str(r) == language_in(query@),
{
    let q: String = to_ascii_lower(query);
    if contains_text(&q, "typescript") || contains_text(&q, "in ts ") || ends_with(&q, "in ts") {
        return Some("TypeScript");
    }
    if contains_text(&q, "javascript") || contains_text(&q, "in js ") || ends_with(&q, "in js") {
        return Some("JavaScript");
    }
    if contains_text(&q, "objective-c") || contains_text(&q, "objc") {
        return Some("Objective-C");
    }
    if contains_text(&q, "c#") || contains_text(&q, "csharp") || contains_text(&q, "c-sharp") {
        return Some("C#");
    }
    if contains_text(&q, "c++") || contains_text(&q, "cplusplus") || contains_text(&q, "cpp ") {
        return Some("C++");
    }
    if contains_text(&q, "python") {
        return Some("Python");
    }
    if contains_text(&q, "rust") {
        return Some("Rust");
    }
    if contains_text(&q, "golang") || contains_text(&q, "in go ") || ends_with(&q, "in go") {
        return Some("Go");
    }
    if contains_text(&q, "kotlin") {
        return Some("Kotlin");
    }
    if contains_text(&q, "java") {
        return Some("Java");
    }
    if contains_text(&q, "swift") {
        return Some("Swift");
    }
    if contains_text(&q, "dart") {
        return Some("Dart");
    }
    if contains_text(&q, "scala") {
        return Some("Scala");
    }
    if contains_text(&q, "in c ") || contains_text(&q, "in c\n") || ends_with(&q, "in c")
        || contains_text(&q, " c code") {
        return Some("C");
    }
    None
}

/// The question for code that answers a query, in the language that the query names.
pub open spec fn hyde_prompt(query: Seq<char>) -> Seq<char> {
    match language_in(query) {
        Some(lang) => "Write a short "@ + lang
            + " code snippet that would directly answer:\n\n"@ + query,
        None => "Write a short code snippet that would directly answer:\n\n"@ + query,
    }
}

/// The question for code that answers a query.
pub fn build_hyde_prompt(query: &str) -> (r: String)
    ensures
        r@ == hyde_prompt(query@),
{
    match detect_language_hint(query) {
        Some(lang) => "Write a short ".to_owned().concat(lang).concat(
            " code snippet that would directly answer:\n\n",
        ).concat(query),
        None => "Write a short code snippet that would directly answer:\n\n".to_owned().concat(
            query,
        ),
    }
}

/// A text of small letters and underscores.
spec fn is_plain(s: Seq<char>) -> bool {
    s.len() > 0 && forall|i: int| 0 <= i < s.len() ==> 'a' <= #[trigger] s[i] <= 'z' || s[i] == '_'
}

/// Trimming, lowering and stripping leave a plain text as it is.
proof fn lemma_plain(s: Seq<char>)
    requires
        is_plain(s),
    ensures
        without_label(ascii_lower(trimmed(s))) == s,
{
    reveal_strlit("route:");
    reveal_strlit("route =");
    reveal_strlit("route=");
    reveal_strlit("answer:");
    reveal_strlit("answer =");
    assert('a' <= s[0] <= 'z' || s[0] == '_');
    assert('a' <= s[s.len() - 1] <= 'z' || s[s.len() - 1] == '_');
    assert(trimmed(s) == s);
    assert(ascii_lower(s) =~= s);
    if has_prefix(s, "route:"@) {
        assert(s[5] == s.take(6)[5] && "route:"@[5] == ':');
    }
    if has_prefix(s, "route ="@) {
        assert(s[6] == s.take(7)[6] && "route ="@[6] == '=');
    }
    if has_prefix(s, "route="@) {
        assert(s[5] == s.take(6)[5] && "route="@[5] == '=');
    }
    if has_prefix(s, "answer:"@) {
        assert(s[6] == s.take(7)[6] && "answer:"@[6] == ':');
    }
    if has_prefix(s, "answer ="@) {
        assert(s[7] == s.take(8)[7] && "answer ="@[7] == '=');
    }
}

/// An answer that is the name of a route names that route.
pub proof fn lemma_route_round_trip(route: AgentRoute)
    ensures
        route_in(route.name()) == Some(route),
{
    reveal_strlit("file_pattern");
    reveal_strlit("filepattern");
    reveal_strlit("regex");
    reveal_strlit("exact_symbol");
    reveal_strlit("exactsymbol");
    reveal_strlit("structural");
    reveal_strlit("deep");
    reveal_strlit("analytical");
    reveal_strlit("exhaustive");
    reveal_strlit("semantic");
    reveal_strlit("architecture");
    reveal_strlit("feature_planning");
    reveal_strlit("featureplanning");
    let s = route.name();
    assert(is_plain(s));
    lemma_plain(s);
    match route {
        AgentRoute::FilePattern => {},
        AgentRoute::Regex => {
            assert(s[0] != "file_pattern"@[0]);
            assert(s[0] != "filepattern"@[0]);
        },
        AgentRoute::ExactSymbol => {
            assert(s[0] != "file_pattern"@[0]);
            assert(s[0] != "filepattern"@[0]);
            assert(s[0] != "regex"@[0]);
        },
        AgentRoute::StructuralSearch => {
            assert(s[0] == 's' && s.len() == 10);
        },
        AgentRoute::Deep => {
            assert(s.len() == 4);
        },
        AgentRoute::Analytical => {
            assert(s[0] == 'a' && s.len() == 10);
            assert(s[0] != "structural"@[0]);
        },
        AgentRoute::Exhaustive => {
            assert(s[1] == 'x' && s.len() == 10);
            assert(s[0] != "structural"@[0]);
            assert(s[0] != "analytical"@[0]);
        },
        AgentRoute::Semantic => {
            assert(s.len() == 8);
        },
        AgentRoute::Architecture => {
            assert(s.len() == 12 && s[0] == 'a');
            assert(s[0] != "file_pattern"@[0]);
            assert(s[0] != "exact_symbol"@[0]);
        },
        AgentRoute::FeaturePlanning => {
            assert(s.len() == 16);
        },
    }
}

/// A label in front of the name of a route is dropped, with the white space behind it; an answer
/// without one is taken as it stands.
pub proof fn lemma_labels_dropped(rest: Seq<char>)
    ensures
        without_label("route:"@ + rest) == trimmed(rest),
        without_label("route ="@ + rest) == trimmed(rest),
        without_label("route="@ + rest) == trimmed(rest),
        without_label("answer:"@ + rest) == trimmed(rest),
        without_label("answer ="@ + rest) == trimmed(rest),
        rest.len() == 0 || (rest[0] != 'r' && rest[0] != 'a') ==> without_label(rest) == rest,
{
    reveal_strlit("route:");
    reveal_strlit("route =");
    reveal_strlit("route=");
    reveal_strlit("answer:");
    reveal_strlit("answer =");
    let none = Seq::<char>::empty();
    crate::text::lemma_holding_text(none, "route:"@, rest);
    crate::text::lemma_holding_text(none, "route ="@, rest);
    crate::text::lemma_holding_text(none, "route="@, rest);
    crate::text::lemma_holding_text(none, "answer:"@, rest);
    crate::text::lemma_holding_text(none, "answer ="@, rest);
    let b = "route ="@ + rest;
    assert(b[5] == ' ' && b[0] == 'r');
    lemma_not_begun(b, "route:"@, 5);
    let c = "route="@ + rest;
    assert(c[5] == '=' && c[0] == 'r');
    lemma_not_begun(c, "route:"@, 5);
    lemma_not_begun(c, "route ="@, 5);
    let d = "answer:"@ + rest;
    assert(d[0] == 'a');
    lemma_not_begun(d, "route:"@, 0);
    lemma_not_begun(d, "route ="@, 0);
    lemma_not_begun(d, "route="@, 0);
    let e = "answer ="@ + rest;
    assert(e[0] == 'a' && e[6] == ' ');
    lemma_not_begun(e, "route:"@, 0);
    lemma_not_begun(e, "route ="@, 0);
    lemma_not_begun(e, "route="@, 0);
    lemma_not_begun(e, "answer:"@, 6);
    if rest.len() == 0 {
    } else if rest[0] != 'r' && rest[0] != 'a' {
        lemma_not_begun(rest, "route:"@, 0);
        lemma_not_begun(rest, "route ="@, 0);
        lemma_not_begun(rest, "route="@, 0);
        lemma_not_begun(rest, "answer:"@, 0);
        lemma_not_begun(rest, "answer ="@, 0);
    }
}

proof fn lemma_not_begun(s: Seq<char>, p: Seq<char>, i: int)
    requires
        0 <= i < p.len(),
        i < s.len(),
        s[i] != p[i],
    ensures
        !has_prefix(s, p),
{
    if has_prefix(s, p) {
        assert(s.subrange(0, p.len() as int)[i] == s[i]);
    }
}

/// White space around an answer and the case of its letters make no difference.
pub proof fn lemma_answer_read_loosely(answer: Seq<char>, pad: Seq<char>)
    requires
        forall|i: int| 0 <= i < pad.len() ==> crate::text::is_space(#[trigger] pad[i]),
    ensures
        route_in(pad + trimmed(answer) + pad) == route_in(answer),
        route_in(answer) == route_named(without_label(ascii_lower(trimmed(answer)))),
{
    crate::text::lemma_trimmed_ends(answer);
    crate::text::lemma_trim_takes_space(pad, trimmed(answer), pad);
}

/// The prompts hold the query as it was given, and the language that it names.
pub proof fn lemma_prompts_hold_query(query: Seq<char>)
    ensures
        has_text(classify_prompt(query), query),
        has_suffix(hyde_prompt(query), query),
        language_in(query) matches Some(lang) ==> has_text(hyde_prompt(query), lang),
{
    crate::text::lemma_holding_text(
        "Classify this code-search query:\n\n"@,
        query,
        "\n\nRoute:"@,
    );
    match language_in(query) {
        Some(lang) => {
            let tail = " code snippet that would directly answer:\n\n"@;
            crate::text::lemma_holding_text("Write a short "@ + lang + tail, query, Seq::empty());
            crate::text::lemma_holding_text("Write a short "@, lang, tail + query);
            assert("Write a short "@ + lang + (tail + query) =~= hyde_prompt(query));
        },
        None => {
            crate::text::lemma_holding_text(
                "Write a short code snippet that would directly answer:\n\n"@,
                query,
                Seq::empty(),
            );
        },
    }
}

/// The case of a query makes no difference to the language that it names; and one that names
/// TypeScript or JavaScript is never taken for Java.
pub proof fn lemma_language_named(query: Seq<char>)
    ensures
        language_in(ascii_lower(query)) == language_in(query),
        has_text(ascii_lower(query), "typescript"@) ==> language_in(query) == Some("TypeScript"@),
        has_text(ascii_lower(query), "javascript"@) ==> language_in(query) == Some("TypeScript"@)
            || language_in(query) == Some("JavaScript"@),
        language_in(query) == Some("Java"@) ==> has_text(ascii_lower(query), "java"@),
        language_in(query) == Some("Rust"@) ==> has_text(ascii_lower(query), "rust"@),
        language_in(query) == Some("Python"@) ==> has_text(ascii_lower(query), "python"@),
{
    crate::text::lemma_ascii_lower(query);
    reveal_strlit("TypeScript");
    reveal_strlit("JavaScript");
    reveal_strlit("Objective-C");
    reveal_strlit("C#");
    reveal_strlit("C++");
    reveal_strlit("Python");
    reveal_strlit("Rust");
    reveal_strlit("Go");
    reveal_strlit("Kotlin");
    reveal_strlit("Java");
    reveal_strlit("Swift");
    reveal_strlit("Dart");
    reveal_strlit("Scala");
    reveal_strlit("C");
    assert("Java"@[0] == 'J' && "Rust"@[0] == 'R' && "Python"@[0] == 'P' && "Dart"@[0] == 'D');
    assert("Kotlin"@[0] == 'K');
    assert("Java"@.len() == 4 && "JavaScript"@.len() == 10);
}

/// What a query may hold to name a language, in the order in which it counts: a text, the language
/// that it names, and whether the query must end with it.
pub open spec fn language_marks() -> Seq<(Seq<char>, Seq<char>, bool)> {
    seq![
        ("typescript"@, "TypeScript"@, false),
        ("in ts "@, "TypeScript"@, false),
        ("in ts"@, "TypeScript"@, true),
        ("javascript"@, "JavaScript"@, false),
        ("in js "@, "JavaScript"@, false),
        ("in js"@, "JavaScript"@, true),
        ("objective-c"@, "Objective-C"@, false),
        ("objc"@, "Objective-C"@, false),
        ("c#"@, "C#"@, false),
        ("csharp"@, "C#"@, false),
        ("c-sharp"@, "C#"@, false),
        ("c++"@, "C++"@, false),
        ("cplusplus"@, "C++"@, false),
        ("cpp "@, "C++"@, false),
        ("python"@, "Python"@, false),
        ("rust"@, "Rust"@, false),
        ("golang"@, "Go"@, false),
        ("in go "@, "Go"@, false),
        ("in go"@, "Go"@, true),
        ("kotlin"@, "Kotlin"@, false),
        ("java"@, "Java"@, false),
        ("swift"@, "Swift"@, false),
        ("dart"@, "Dart"@, false),
        ("scala"@, "Scala"@, false),
        ("in c "@, "C"@, false),
        ("in c\n"@, "C"@, false),
        ("in c"@, "C"@, true),
        (" c code"@, "C"@, false),
    ]
}

/// A query holds the mark.
pub open spec fn has_mark(q: Seq<char>, mark: (Seq<char>, Seq<char>, bool)) -> bool {
    if mark.2 {
        has_suffix(q, mark.0)
    } else {
        has_text(q, mark.0)
    }
}

/// The language of a query is that of the first mark that it holds, and it names none exactly if it
/// holds no mark.
pub proof fn lemma_first_mark_counts(query: Seq<char>, i: int)
    requires
        0 <= i < language_marks().len(),
    ensures
        has_mark(ascii_lower(query), language_marks()[i]) && (forall|j: int|
            0 <= j < i ==> !has_mark(ascii_lower(query), #[trigger] language_marks()[j]))
            ==> language_in(query) == Some(language_marks()[i].1),
        (forall|j: int|
            0 <= j < language_marks().len() ==> !has_mark(
                ascii_lower(query),
                #[trigger] language_marks()[j],
            )) ==> language_in(query) is None,
{
    let q = ascii_lower(query);
    let ms = language_marks();
    assert(ms[0] == ("typescript"@, "TypeScript"@, false));
    assert(ms[1] == ("in ts "@, "TypeScript"@, false));
    assert(ms[2] == ("in ts"@, "TypeScript"@, true));
    assert(ms[3] == ("javascript"@, "JavaScript"@, false));
    assert(ms[4] == ("in js "@, "JavaScript"@, false));
    assert(ms[5] == ("in js"@, "JavaScript"@, true));
    assert(ms[6] == ("objective-c"@, "Objective-C"@, false));
    assert(ms[7] == ("objc"@, "Objective-C"@, false));
    assert(ms[8] == ("c#"@, "C#"@, false));
    assert(ms[9] == ("csharp"@, "C#"@, false));
    assert(ms[10] == ("c-sharp"@, "C#"@, false));
    assert(ms[11] == ("c++"@, "C++"@, false));
    assert(ms[12] == ("cplusplus"@, "C++"@, false));
    assert(ms[13] == ("cpp "@, "C++"@, false));
    assert(ms[14] == ("python"@, "Python"@, false));
    assert(ms[15] == ("rust"@, "Rust"@, false));
    assert(ms[16] == ("golang"@, "Go"@, false));
    assert(ms[17] == ("in go "@, "Go"@, false));
    assert(ms[18] == ("in go"@, "Go"@, true));
    assert(ms[19] == ("kotlin"@, "Kotlin"@, false));
    assert(ms[20] == ("java"@, "Java"@, false));
    assert(ms[21] == ("swift"@, "Swift"@, false));
    assert(ms[22] == ("dart"@, "Dart"@, false));
    assert(ms[23] == ("scala"@, "Scala"@, false));
    assert(ms[24] == ("in c "@, "C"@, false));
    assert(ms[25] == ("in c\n"@, "C"@, false));
    assert(ms[26] == ("in c"@, "C"@, true));
    assert(ms[27] == (" c code"@, "C"@, false));
}

} // verus!
