use pruner::config::{FormatterSpec, LanguageFormatSpec, LanguageFormatters, NamedFormatter};
use pruner::extract::extract_language_injections;
use pruner::format::{Action, Event, FormatContext, FormatError, FormatOpts, Formatter};
use pruner::grammar::{Grammar, LanguageAlias};

const MARKDOWN_INJECTIONS: &str = r#"
(fenced_code_block
  (info_string
    (language) @injection.language)
  (code_fence_content) @injection.content)

((inline) @injection.content
  (#set! injection.language "markdown_inline"))
"#;

fn grammars() -> Vec<Grammar> {
    let lang = tree_sitter::Language::new(tree_sitter_md::LANGUAGE);
    let injections = tree_sitter::Query::new(&lang, MARKDOWN_INJECTIONS).expect("query compiles");
    vec![Grammar { name: "markdown".to_string(), lang, injections, pruner_ignore: None }]
}

fn formatters() -> Vec<NamedFormatter> {
    vec![
        NamedFormatter {
            name: "prettier".to_string(),
            spec: FormatterSpec {
                cmd: "prettier".into(),
                args: Vec::from([
                    "--prose-wrap=always".into(),
                    "--print-width=$textwidth".into(),
                    "--parser=$language".into(),
                ]),
                stdin: None,
                fail_on_stderr: None,
            },
        },
        NamedFormatter {
            name: "cljfmt".to_string(),
            spec: FormatterSpec {
                cmd: "cljfmt".into(),
                args: Vec::from([
                    "fix".into(),
                    "-".into(),
                    "--remove-multiple-non-indenting-spaces".into(),
                ]),
                stdin: Some(true),
                fail_on_stderr: None,
            },
        },
    ]
}

/// What the two commands do to the texts of these tests.
fn stand_in(cmd: &str, input: &[u8], language: &str) -> Result<Vec<u8>, String> {
    let text = String::from_utf8(input.to_vec()).map_err(|e| e.to_string())?;
    match (cmd, language) {
        ("cljfmt", _) => Ok(text.replace("1  )", "1)").into_bytes()),
        ("prettier", "typescript") => Ok(text.replace("(  1  )", "(1);").into_bytes()),
        ("prettier", _) => Ok(text.into_bytes()),
        _ => Err(format!("unknown command {cmd}")),
    }
}

fn format(
    source: &[u8],
    opts: &FormatOpts,
    format_root: bool,
    languages: &[LanguageFormatters],
    language_aliases: &[LanguageAlias],
) -> Result<Vec<u8>, FormatError> {
    let grammars = grammars();
    let context = FormatContext {
        grammars: grammars.iter().map(|g| g.name.clone()).collect(),
        languages: languages.to_vec(),
        language_aliases: language_aliases.to_vec(),
        formatters: formatters(),
        alternate_formatters: Vec::new(),
    };
    let mut machine = Formatter::new(context, source, opts, format_root);
    let mut event = Event::Resume;
    loop {
        event = match machine.step(event) {
            Action::Continue => Event::Resume,
            Action::Format { formatter, input, language, .. } => {
                let cmd = machine.context.formatters[formatter].spec.cmd.clone();
                Event::Formatted(stand_in(&cmd, &input, &language))
            }
            Action::FormatAlternate { name, input, language, .. } => {
                Event::Formatted(stand_in(&name, &input, &language))
            }
            Action::Extract { grammar, source } => {
                let mut parser = tree_sitter::Parser::new();
                Event::Extracted(extract_language_injections(
                    &mut parser,
                    &grammars[grammar],
                    &source,
                ))
            }
            Action::Done(bytes) => return Ok(bytes),
            Action::Failed(error) => return Err(error),
        };
    }
}

#[test]
fn injections_only_pipeline_condition_test() {
    let languages = vec![LanguageFormatters {
        language: "clojure".to_string(),
        formatters: vec![LanguageFormatSpec::Table {
            formatter: "cljfmt".into(),
            run_in_root: false,
            run_in_injections: true,
        }],
    }];

    let source = r"(println 1  )";

    let result = format(
        source.as_bytes(),
        &FormatOpts { printwidth: 80, language: "clojure" },
        true,
        &languages,
        &[],
    )
    .unwrap();

    assert_eq!(String::from_utf8(result).unwrap(), source);

    let source = r"```clojure
(println 1  )
```
";

    let result = format(
        source.as_bytes(),
        &FormatOpts { printwidth: 80, language: "markdown" },
        true,
        &languages,
        &[],
    )
    .unwrap();

    assert_eq!(
        String::from_utf8(result).unwrap(),
        r"```clojure
(println 1)
```
"
    );
}

#[test]
fn root_only_pipeline_condition_test() {
    let languages = vec![LanguageFormatters {
        language: "clojure".to_string(),
        formatters: vec![LanguageFormatSpec::Table {
            formatter: "cljfmt".into(),
            run_in_root: true,
            run_in_injections: false,
        }],
    }];

    let source = r"(println 1  )";

    let result = format(
        source.as_bytes(),
        &FormatOpts { printwidth: 80, language: "clojure" },
        true,
        &languages,
        &[],
    )
    .unwrap();

    assert_eq!(String::from_utf8(result).unwrap(), r"(println 1)");

    let source = r"```clojure
(println 1  )
```
";

    let result = format(
        source.as_bytes(),
        &FormatOpts { printwidth: 80, language: "markdown" },
        true,
        &languages,
        &[],
    )
    .unwrap();

    assert_eq!(String::from_utf8(result).unwrap(), source);
}

#[test]
fn normalizes_injected_language_via_aliases() {
    let languages = vec![
        LanguageFormatters { language: "markdown".to_string(), formatters: vec![String::from("prettier").into()] },
        LanguageFormatters { language: "clojure".to_string(), formatters: vec![String::from("cljfmt").into()] },
        LanguageFormatters {
            language: "typescript".to_string(),
            formatters: vec![String::from("prettier").into()],
        },
    ];

    let language_aliases =
        vec![LanguageAlias { alias: "ts".to_string(), canonical: "typescript".to_string() }];

    let source = "```ts\nconsole.log(  1  )\n```\n";
    let result = format(
        source.as_bytes(),
        &FormatOpts { printwidth: 80, language: "markdown" },
        false,
        &languages,
        &language_aliases,
    )
    .unwrap();

    assert_eq!(String::from_utf8(result).unwrap(), "```ts\nconsole.log(1);\n```\n");
}
