use pruner::config::{
    find_formatter, find_language, flatten_aliases, merge_vecs, AliasConflict, FormatterSpec,
    LanguageAliasSpec, LanguageFormatSpec, LanguageFormatters, NamedFormatter,
};
use pruner::grammar::LanguageAlias;

fn spec(canonical: &str, aliases: &[&str]) -> LanguageAliasSpec {
    LanguageAliasSpec {
        canonical: canonical.to_string(),
        aliases: aliases.iter().map(|a| a.to_string()).collect(),
    }
}

fn alias(alias: &str, canonical: &str) -> LanguageAlias {
    LanguageAlias { alias: alias.to_string(), canonical: canonical.to_string() }
}

#[test]
fn loads_and_normalizes_language_aliases() {
    let flat = flatten_aliases(&[spec("typescript", &["ts", "tsx"])]).expect("no conflict");
    assert_eq!(flat, vec![alias("ts", "typescript"), alias("tsx", "typescript")]);
}

#[test]
fn language_alias_conflict_is_an_error() {
    let err = flatten_aliases(&[spec("typescript", &["ts"]), spec("rust", &["ts"])])
        .expect_err("conflict");
    assert_eq!(
        err,
        AliasConflict {
            alias: "ts".to_string(),
            existing: "typescript".to_string(),
            canonical: "rust".to_string()
        }
    );
    assert!(err.message().contains("Language alias 'ts' conflicts"));
    assert_eq!(
        err.message(),
        "Language alias 'ts' conflicts: maps to 'typescript' and 'rust'"
    );
}

#[test]
fn an_alias_may_be_claimed_twice_for_one_language() {
    let flat = flatten_aliases(&[
        spec("typescript", &["ts", "ts"]),
        spec("python", &[]),
        spec("typescript", &["tsx", "ts"]),
    ])
    .expect("no conflict");
    assert_eq!(flat, vec![alias("ts", "typescript"), alias("tsx", "typescript")]);
    assert_eq!(flatten_aliases(&[]), Ok(Vec::new()));
}

#[test]
fn a_bare_formatter_runs_everywhere() {
    let bare: LanguageFormatSpec = String::from("prettier").into();
    assert_eq!(bare, LanguageFormatSpec::String("prettier".to_string()));
    assert_eq!(bare.formatter(), "prettier");
    assert!(bare.run_in_root());
    assert!(bare.run_in_injections());
    assert!(bare.should_run(true));
    assert!(bare.should_run(false));
    let table = LanguageFormatSpec::Table {
        formatter: "cljfmt".to_string(),
        run_in_root: false,
        run_in_injections: true,
    };
    assert_eq!(table.formatter(), "cljfmt");
    assert!(!table.run_in_root());
    assert!(table.run_in_injections());
    assert!(!table.should_run(true));
    assert!(table.should_run(false));
}

#[test]
fn languages_and_formatters_are_found_by_name() {
    let languages = vec![
        LanguageFormatters { language: "markdown".to_string(), formatters: Vec::new() },
        LanguageFormatters { language: "clojure".to_string(), formatters: Vec::new() },
        LanguageFormatters { language: "markdown".to_string(), formatters: Vec::new() },
    ];
    assert_eq!(find_language(&languages, "markdown"), Some(0));
    assert_eq!(find_language(&languages, "clojure"), Some(1));
    assert_eq!(find_language(&languages, "rust"), None);
    let formatters = vec![NamedFormatter {
        name: "prettier".to_string(),
        spec: FormatterSpec {
            cmd: "npx".to_string(),
            args: vec!["prettier".to_string()],
            stdin: None,
            fail_on_stderr: None,
        },
    }];
    assert_eq!(find_formatter(&formatters, "prettier"), Some(0));
    assert_eq!(find_formatter(&formatters, "npx"), None);
}

#[test]
fn optional_lists_are_laid_over_each_other() {
    let base = Some(vec!["base_query".to_string()]);
    let overlay = Some(vec!["overlay_query".to_string(), "more".to_string()]);
    assert_eq!(
        merge_vecs(&base, &overlay),
        Some(vec!["base_query".to_string(), "overlay_query".to_string(), "more".to_string()])
    );
    assert_eq!(merge_vecs(&base, &None), base);
    assert_eq!(merge_vecs(&None, &overlay), overlay);
    assert_eq!(merge_vecs::<String>(&None, &None), None);
}
