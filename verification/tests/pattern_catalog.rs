use semantex_core::index::pattern_catalog::{
    matches_pattern, mine_patterns, mine_patterns_with, PatternCatalog, PatternDef, PatternLang,
};


#[test]
fn catalog_meets_minimum_scope() {
    let cat = PatternCatalog::new();
    assert!(
        cat.count_for(PatternLang::Rust) >= 30,
        "Rust catalog must have >= 30 patterns, got {}",
        cat.count_for(PatternLang::Rust)
    );
    assert!(
        cat.count_for(PatternLang::TypeScript) >= 30,
        "TS catalog must have >= 30 patterns, got {}",
        cat.count_for(PatternLang::TypeScript)
    );
}

#[test]
fn pattern_names_are_unique() {
    let cat = PatternCatalog::new();
    let mut seen = std::collections::HashSet::new();
    for p in cat.all_patterns() {
        assert!(
            seen.insert(p.name),
            "duplicate pattern name in catalog: {}",
            p.name
        );
    }
}

#[test]
fn lookup_finds_known_pattern() {
    let cat = PatternCatalog::new();
    let p = cat
        .lookup("rust.drop_impl")
        .expect("rust.drop_impl must exist");
    assert_eq!(p.lang, PatternLang::Rust);
}

#[test]
fn rust_drop_impl_matches() {
    let chunk = "
        impl Drop for Foo {
            fn drop(&mut self) {
                self.close();
            }
        }
    ";
    let matches = mine_patterns(chunk, PatternLang::Rust);
    assert!(
        matches.iter().any(|m| m.pattern_name == "rust.drop_impl"),
        "Drop impl should match: {matches:?}"
    );
}

#[test]
fn rust_serde_derive_matches() {
    let chunk = "
        #[derive(Serialize, Deserialize)]
        struct Config { name: String }
    ";
    let matches = mine_patterns(chunk, PatternLang::Rust);
    assert!(
        matches
            .iter()
            .any(|m| m.pattern_name == "rust.serde_derive"),
        "serde derive should match: {matches:?}"
    );
}

#[test]
fn rust_tokio_spawn_matches() {
    let chunk = "
        fn launch() {
            tokio::spawn(async move {
                do_work().await;
            });
        }
    ";
    let matches = mine_patterns(chunk, PatternLang::Rust);
    assert!(
        matches.iter().any(|m| m.pattern_name == "rust.tokio_spawn"),
        "tokio::spawn should match: {matches:?}"
    );
}

#[test]
fn rust_question_mark_chain_matches() {
    let chunk = "
        fn read_config() -> Result<Config> {
            let bytes = read_file()?;
            let cfg = parse(&bytes)?;
            Ok(cfg)
        }
    ";
    let matches = mine_patterns(chunk, PatternLang::Rust);
    assert!(
        matches
            .iter()
            .any(|m| m.pattern_name == "rust.result_question_mark_chain"),
        "?-chain should match: {matches:?}"
    );
}

#[test]
fn rust_unsafe_block_matches() {
    let chunk = "
        fn raw_access() {
            unsafe {
                let ptr = std::ptr::null_mut();
            }
        }
    ";
    let matches = mine_patterns(chunk, PatternLang::Rust);
    assert!(
        matches
            .iter()
            .any(|m| m.pattern_name == "rust.unsafe_block"),
        "unsafe block should match: {matches:?}"
    );
}

#[test]
fn ts_promise_all_settled_matches() {
    let chunk = "
        const results = await Promise.allSettled([
            fetchA(),
            fetchB(),
        ]);
    ";
    let matches = mine_patterns(chunk, PatternLang::TypeScript);
    assert!(
        matches
            .iter()
            .any(|m| m.pattern_name == "ts.promise_all_settled"),
        "Promise.allSettled should match: {matches:?}"
    );
}

#[test]
fn ts_async_await_matches() {
    let chunk = "
        async function load() {
            const data = await fetch(url);
            return data.json();
        }
    ";
    let matches = mine_patterns(chunk, PatternLang::TypeScript);
    assert!(
        matches.iter().any(|m| m.pattern_name == "ts.async_await"),
        "async/await should match: {matches:?}"
    );
}

#[test]
fn ts_optional_chaining_matches() {
    let chunk = "
        const v = user?.profile?.name ?? 'anon';
    ";
    let matches = mine_patterns(chunk, PatternLang::TypeScript);
    let names: Vec<_> = matches.iter().map(|m| m.pattern_name.as_str()).collect();
    assert!(
        names.contains(&"ts.optional_chaining"),
        "optional chaining should match: {names:?}"
    );
    assert!(
        names.contains(&"ts.nullish_coalescing"),
        "?? should match: {names:?}"
    );
}

#[test]
fn ts_class_extends_matches() {
    let chunk = "
        class Foo extends Bar {
            constructor() { super(); }
        }
    ";
    let matches = mine_patterns(chunk, PatternLang::TypeScript);
    let names: Vec<_> = matches.iter().map(|m| m.pattern_name.as_str()).collect();
    assert!(
        names.contains(&"ts.class_extends"),
        "class extends should match: {names:?}"
    );
    assert!(
        names.contains(&"ts.class_constructor"),
        "constructor should match: {names:?}"
    );
}

#[test]
fn no_match_returns_empty() {
    let chunk = "let x = 42;";
    let matches = mine_patterns(chunk, PatternLang::Rust);
    assert!(
        matches.is_empty() || matches.iter().all(|m| m.pattern_name.starts_with("rust.")),
        "no Rust-specific pattern should match a JS-style chunk: {matches:?}"
    );
}

#[test]
fn unsupported_language_returns_empty() {
    // Cobol isn't in the catalog at all.
    assert_eq!(PatternLang::from_language_name("cobol"), None);
}

#[test]
fn from_language_name_maps_correctly() {
    assert_eq!(
        PatternLang::from_language_name("rust"),
        Some(PatternLang::Rust)
    );
    assert_eq!(
        PatternLang::from_language_name("typescript"),
        Some(PatternLang::TypeScript)
    );
    assert_eq!(
        PatternLang::from_language_name("javascript"),
        Some(PatternLang::TypeScript)
    );
    assert_eq!(PatternLang::from_language_name("python"), None);
}

#[test]
fn forbidden_substring_rejects_match() {
    // The custom Debug impl pattern has #[derive( in forbidden — if the
    // chunk has both impl Debug AND #[derive(, it's a derived Debug not a custom impl.
    let chunk = "
        #[derive(Debug)]
        struct Foo;
    ";
    let matches = mine_patterns(chunk, PatternLang::Rust);
    assert!(
        !matches.iter().any(|m| m.pattern_name == "rust.debug_impl"),
        "derived Debug should not match custom Debug pattern: {matches:?}"
    );
}

#[test]
fn any_language_mines_across_catalogs() {
    let chunk = "
        impl Drop for Foo {
            fn drop(&mut self) { Promise.allSettled(stuff); }
        }
    ";
    let matches = mine_patterns(chunk, PatternLang::Any);
    let names: Vec<_> = matches.iter().map(|m| m.pattern_name.as_str()).collect();
    assert!(
        names.contains(&"rust.drop_impl"),
        "Rust Drop should match under Any: {names:?}"
    );
    assert!(
        names.contains(&"ts.promise_all_settled"),
        "TS Promise.allSettled should match under Any: {names:?}"
    );
}

#[test]
fn reusing_catalog_yields_same_matches() {
    let chunk = "tokio::spawn(async move {});";
    let cat = PatternCatalog::new();
    let m1 = mine_patterns(chunk, PatternLang::Rust);
    let m2 = mine_patterns_with(chunk, PatternLang::Rust, &cat);
    assert_eq!(m1.len(), m2.len());
}

#[test]
fn catalog_holds_both_languages() {
    let cat = PatternCatalog::new();
    assert_eq!(
        cat.pattern_count(),
        cat.count_for(PatternLang::Rust) + cat.count_for(PatternLang::TypeScript)
    );
    assert_eq!(cat.all_patterns().len(), cat.pattern_count());
    assert_eq!(cat.count_for(PatternLang::Any), cat.pattern_count());
    assert!(cat.lookup("rust.nothing").is_none());
    assert_eq!(PatternLang::Rust.label(), "rust");
    assert_eq!(PatternLang::TypeScript.label(), "typescript");
    assert_eq!(PatternLang::Any.label(), "any");
}

#[test]
fn a_pattern_needs_all_that_is_required_and_nothing_forbidden() {
    let def = PatternDef {
        name: "x",
        lang: PatternLang::Rust,
        description: "d",
        required: vec!["a", "b"],
        forbidden: vec!["c"],
    };
    assert!(matches_pattern("xbxa", &def));
    assert!(!matches_pattern("a", &def));
    assert!(!matches_pattern("abc", &def));
}
