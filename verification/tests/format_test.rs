use pruner::config::{FormatterSpec, LanguageFormatSpec, LanguageFormatters, NamedFormatter};
use pruner::extract::{extract_language_injections, ExtractError};
use pruner::format::{
    frame_step, resume_frame, Action, Event, FormatContext, FormatError, FormatOpts, Formatter,
    Frame, Outcome, Stage,
};
use pruner::grammar::{
    canonical_language, find_grammar, resolve_grammar, resolve_language, Grammar, LanguageAlias,
};
use pruner::injections::{InjectedRegion, InjectionOpts};
use pruner::range::{Point, Range};
use pruner::region::{finish_region, prepare_region, RegionError, RegionJob};
use pruner::splice::{regions_spliceable, sort_regions, splice, splice_all};

const MARKDOWN_INJECTIONS: &str = r#"
(fenced_code_block
  (info_string
    (language) @injection.language)
  (code_fence_content) @injection.content)

((inline) @injection.content
  (#set! injection.language "markdown_inline"))
"#;

fn markdown_grammar() -> Grammar {
    let lang = tree_sitter::Language::new(tree_sitter_md::LANGUAGE);
    let injections = tree_sitter::Query::new(&lang, MARKDOWN_INJECTIONS).expect("query compiles");
    Grammar { name: "markdown".to_string(), lang, injections, pruner_ignore: None }
}

fn formatter(name: &str, cmd: &str) -> NamedFormatter {
    NamedFormatter {
        name: name.to_string(),
        spec: FormatterSpec {
            cmd: cmd.to_string(),
            args: Vec::new(),
            stdin: None,
            fail_on_stderr: None,
        },
    }
}

fn language(name: &str, formatters: &[&str]) -> LanguageFormatters {
    LanguageFormatters {
        language: name.to_string(),
        formatters: formatters.iter().map(|f| LanguageFormatSpec::String(f.to_string())).collect(),
    }
}

fn context(languages: Vec<LanguageFormatters>, formatters: Vec<NamedFormatter>) -> FormatContext {
    FormatContext {
        grammars: vec!["markdown".to_string()],
        languages,
        language_aliases: Vec::new(),
        formatters,
        alternate_formatters: Vec::new(),
    }
}

fn region(start: usize, end: usize, lang: &str, escapes: &[&str]) -> InjectedRegion {
    InjectedRegion {
        range: Range {
            start_byte: start,
            end_byte: end,
            start_point: Point { row: 0, column: 0 },
            end_point: Point { row: 0, column: 0 },
        },
        lang: lang.to_string(),
        opts: InjectionOpts { escape_chars: escapes.iter().map(|e| e.to_string()).collect() },
    }
}

/// Runs the machine to its end. `call` stands for the external formatters: it gets the
/// name of the command, the input, the print width and the language.
fn run(
    context: FormatContext,
    source: &[u8],
    opts: &FormatOpts,
    format_root: bool,
    call: &mut dyn FnMut(&str, &[u8], u32, &str) -> Result<Vec<u8>, String>,
) -> Result<Vec<u8>, FormatError> {
    let grammars = vec![markdown_grammar()];
    let mut machine = Formatter::new(context, source, opts, format_root);
    let mut event = Event::Resume;
    loop {
        event = match machine.step(event) {
            Action::Continue => Event::Resume,
            Action::Format { formatter, input, printwidth, language } => {
                let cmd = machine.context.formatters[formatter].spec.cmd.clone();
                Event::Formatted(call(&cmd, &input, printwidth, &language))
            }
            Action::FormatAlternate { name, input, printwidth, language } => {
                Event::Formatted(call(&name, &input, printwidth, &language))
            }
            Action::Extract { grammar, source } => {
                let mut parser = tree_sitter::Parser::new();
                Event::Extracted(extract_language_injections(
                    &mut parser,
                    &grammars[grammar],
                    &source,
                ))
            }
            Action::Done(bytes) => return Ok(bytes),
            Action::Failed(error) => return Err(error),
        };
    }
}

#[test]
fn a_document_without_formatters_comes_back_as_it_was() {
    let source = "Title\n\n```js\nlet  x\n```\n\n   indented `code`\n";
    let opts = FormatOpts { printwidth: 80, language: "markdown" };
    let mut calls = 0;
    let result = run(context(Vec::new(), Vec::new()), source.as_bytes(), &opts, true, &mut |_, input, _, _| {
        calls += 1;
        Ok(input.to_vec())
    });
    assert_eq!(result, Ok(source.as_bytes().to_vec()));
    assert_eq!(calls, 0);
}

#[test]
fn identity_formatters_leave_the_document_unchanged() {
    let source = "Title\n\n```js\nlet  x\n\nlet y\n```\n";
    let opts = FormatOpts { printwidth: 80, language: "markdown" };
    let languages = vec![language("markdown", &["same"]), language("js", &["same"])];
    let mut seen = Vec::new();
    let result = run(
        context(languages, vec![formatter("same", "cat")]),
        source.as_bytes(),
        &opts,
        true,
        &mut |cmd, input, width, language| {
            seen.push((cmd.to_string(), String::from_utf8(input.to_vec()).unwrap(), width, language.to_string()));
            Ok(input.to_vec())
        },
    );
    assert_eq!(result, Ok(source.as_bytes().to_vec()));
    assert_eq!(
        seen,
        vec![
            ("cat".to_string(), source.to_string(), 80, "markdown".to_string()),
            ("cat".to_string(), "let  x\n\nlet y\n".to_string(), 80, "js".to_string()),
        ]
    );
}

#[test]
fn regions_are_formatted_and_put_back() {
    let source = "```js\nlet  x\n```\n\ntext\n\n```js\nlet  y\n```\n";
    let opts = FormatOpts { printwidth: 80, language: "markdown" };
    let languages = vec![language("js", &["squeeze"])];
    let result = run(
        context(languages, vec![formatter("squeeze", "squeeze")]),
        source.as_bytes(),
        &opts,
        true,
        &mut |_, input, _, _| Ok(String::from_utf8(input.to_vec()).unwrap().replace("  ", " ").into_bytes()),
    );
    assert_eq!(
        String::from_utf8(result.unwrap()).unwrap(),
        "```js\nlet x\n```\n\ntext\n\n```js\nlet y\n```\n"
    );
}

#[test]
fn indented_regions_get_a_narrower_print_width_and_their_indent_back() {
    let source = "Title\n\n   ```js\n   a\n\n   b\n   ```\n";
    let opts = FormatOpts { printwidth: 80, language: "markdown" };
    let languages = vec![language("js", &["grow"])];
    let mut widths = Vec::new();
    let result = run(
        context(languages, vec![formatter("grow", "grow")]),
        source.as_bytes(),
        &opts,
        true,
        &mut |_, input, width, _| {
            widths.push(width);
            assert_eq!(input, b"a\n\nb\n");
            Ok(b"a;\n\nb;\nc;\n\n\n".to_vec())
        },
    );
    assert_eq!(widths, vec![77]);
    assert_eq!(
        String::from_utf8(result.unwrap()).unwrap(),
        "Title\n\n   ```js\n   a;\n\n   b;\n   c;\n   ```\n"
    );
}

#[test]
fn fail_on_empty_stdout() {
    let source = "```js\nlet x\n```\n";
    let opts = FormatOpts { printwidth: 80, language: "markdown" };
    let languages = vec![language("js", &["prettier"])];
    let result = run(
        context(languages, vec![formatter("prettier", "echo")]),
        source.as_bytes(),
        &opts,
        true,
        &mut |_, _, _, _| Ok(Vec::new()),
    );
    match result {
        Ok(_) => panic!("the formatter should cause a failure"),
        Err(err) => assert_eq!(
            "Unexpected empty result received from formatter: echo",
            err.message()
        ),
    };
}

#[test]
fn a_failing_formatter_fails_the_whole() {
    let source = "```js\nlet x\n```\n";
    let opts = FormatOpts { printwidth: 80, language: "markdown" };
    let languages = vec![language("js", &["prettier"])];
    let result = run(
        context(languages, vec![formatter("prettier", "prettier")]),
        source.as_bytes(),
        &opts,
        true,
        &mut |_, _, _, _| Err("exit 2".to_string()),
    );
    assert_eq!(result, Err(FormatError::Formatter("exit 2".to_string())));
}

#[test]
fn formatters_run_in_order_and_unknown_ones_are_passed_over() {
    let source = "x";
    let opts = FormatOpts { printwidth: 80, language: "text" };
    let mut ctx = context(
        vec![language("text", &["first", "nowhere", "wasm", "second"])],
        vec![formatter("first", "one"), formatter("second", "two")],
    );
    ctx.alternate_formatters = vec!["wasm".to_string()];
    let result = run(ctx, source.as_bytes(), &opts, true, &mut |cmd, input, _, _| {
        let mut out = input.to_vec();
        out.extend_from_slice(b"-");
        out.extend_from_slice(cmd.as_bytes());
        Ok(out)
    });
    assert_eq!(String::from_utf8(result.unwrap()).unwrap(), "x-one-wasm-two");
}

#[test]
fn the_root_is_left_alone_when_asked() {
    let source = "x";
    let opts = FormatOpts { printwidth: 80, language: "text" };
    let ctx = context(vec![language("text", &["first"])], vec![formatter("first", "one")]);
    let result = run(ctx, source.as_bytes(), &opts, false, &mut |_, _, _, _| Ok(b"changed".to_vec()));
    assert_eq!(result, Ok(b"x".to_vec()));
}

#[test]
fn the_machine_refuses_what_it_did_not_ask_for() {
    let opts = FormatOpts { printwidth: 80, language: "text" };
    let mut machine = Formatter::new(context(Vec::new(), Vec::new()), b"x", &opts, true);
    assert_eq!(
        machine.step(Event::Formatted(Ok(b"y".to_vec()))),
        Action::Failed(FormatError::Unexpected)
    );
    assert_eq!(machine.step(Event::Resume), Action::Failed(FormatError::Unexpected));

    let mut machine = Formatter::new(context(Vec::new(), Vec::new()), b"x", &opts, true);
    assert_eq!(machine.step(Event::Resume), Action::Continue);
    assert_eq!(machine.step(Event::Resume), Action::Done(b"x".to_vec()));
    assert_eq!(machine.step(Event::Resume), Action::Failed(FormatError::Unexpected));
}

#[test]
fn a_document_that_cannot_be_read_fails() {
    let opts = FormatOpts { printwidth: 80, language: "markdown" };
    let result = run(context(Vec::new(), Vec::new()), &[b'a', 0xff], &opts, true, &mut |_, input, _, _| {
        Ok(input.to_vec())
    });
    assert_eq!(result, Err(FormatError::Extract(ExtractError::InvalidUtf8)));
    assert_eq!(
        FormatError::Extract(ExtractError::Parse).message(),
        "Parse returned None"
    );
}

#[test]
fn overlapping_regions_are_a_failure() {
    let frame = Frame {
        buffer: b"0123456789".to_vec(),
        printwidth: 80,
        language: "x".to_string(),
        is_root: true,
        stage: Stage::AwaitRegions,
    };
    let ctx = context(Vec::new(), Vec::new());
    let regions = vec![region(0, 4, "a", &[]), region(2, 6, "b", &[])];
    match frame_step(&ctx, true, frame.clone(), Event::Extracted(Ok(regions))) {
        Outcome::Fail(error) => assert_eq!(error, FormatError::Overlap),
        _ => panic!("overlap must fail"),
    }
    let regions = vec![region(0, 4, "a", &[]), region(4, 6, "b", &[])];
    match frame_step(&ctx, true, frame.clone(), Event::Extracted(Ok(regions))) {
        Outcome::Continue(next) => assert_eq!(
            next.stage,
            Stage::Regions {
                regions: vec![region(4, 6, "b", &[]), region(0, 4, "a", &[])],
                results: Vec::new(),
                job: None
            }
        ),
        _ => panic!("disjoint regions go on"),
    }
    assert_eq!(resume_frame(frame, Vec::new()), Err(FormatError::Unexpected));
}

#[test]
fn regions_sort_from_the_end_and_keep_their_order_among_equals() {
    let regions = vec![region(3, 4, "a", &[]), region(9, 9, "b", &[]), region(3, 8, "c", &[]), region(0, 1, "d", &[])];
    let sorted = sort_regions(&regions);
    assert_eq!(
        sorted,
        vec![region(9, 9, "b", &[]), region(3, 4, "a", &[]), region(3, 8, "c", &[]), region(0, 1, "d", &[])]
    );
    assert!(!regions_spliceable(&sorted, 10));
    let disjoint = vec![region(7, 9, "a", &[]), region(3, 7, "b", &[]), region(0, 1, "c", &[])];
    assert!(regions_spliceable(&disjoint, 9));
    assert!(!regions_spliceable(&disjoint, 8));
    assert!(!regions_spliceable(&[region(3, 2, "a", &[])], 9));
    assert!(regions_spliceable(&[], 0));
}

#[test]
fn splicing_replaces_each_region_and_nothing_else() {
    let mut buffer = b"aa[one]bb[two]cc".to_vec();
    let regions = vec![region(10, 13, "x", &[]), region(3, 6, "x", &[])];
    splice_all(&mut buffer, &regions, &[b"2".to_vec(), b"first".to_vec()]);
    assert_eq!(buffer, b"aa[first]bb[2]cc".to_vec());

    let mut same = b"aa[one]bb[two]cc".to_vec();
    splice_all(&mut same, &regions, &[b"two".to_vec(), b"one".to_vec()]);
    assert_eq!(same, b"aa[one]bb[two]cc".to_vec());

    let mut one = b"abc".to_vec();
    splice(&mut one, 1, 1, b"--");
    assert_eq!(one, b"a--bc".to_vec());
    splice(&mut one, 0, 5, b"");
    assert_eq!(one, Vec::<u8>::new());
}

#[test]
fn a_region_is_prepared_by_its_column() {
    let buffer = b"(defn f\n  \"Title\n\n   ```md\n   a \\\"b\\\"\n   ```\"\n  [])";
    let job = prepare_region(buffer, &region(11, 44, "markdown", &["\""]), 80).expect("prepares");
    assert_eq!(
        job,
        RegionJob {
            input: b"Title\n\n```md\na \"b\"\n```".to_vec(),
            printwidth: 77,
            lang: "markdown".to_string(),
            indent: 3,
            indent_from_content: false,
            trailing: Vec::new(),
            escapes: vec!["\"".to_string()],
        }
    );
    let finished = finish_region(&job, b"Title\n\n```md\na \"b\" c\n```\n".to_vec()).expect("finishes");
    assert_eq!(finished, b"Title\n\n   ```md\n   a \\\"b\\\" c\n   ```".to_vec());
}

#[test]
fn a_region_in_column_zero_takes_its_indent_from_its_text() {
    let buffer = b"```\n   a\n\n     b\n   c\n```\n";
    let job = prepare_region(buffer, &region(4, 22, "js", &[]), 80).expect("prepares");
    assert_eq!(job.input, b"a\n\n  b\nc\n".to_vec());
    assert_eq!(job.printwidth, 77);
    assert_eq!(job.indent, 3);
    assert!(job.indent_from_content);
    assert_eq!(job.trailing, b"\n".to_vec());
    let finished = finish_region(&job, b"a\n\n  b\nc\n".to_vec()).expect("finishes");
    assert_eq!(finished, b"   a\n\n     b\n   c\n".to_vec());
    let empty = finish_region(&job, b"\n".to_vec()).expect("finishes");
    assert_eq!(empty, b"\n".to_vec());
    let blank_first = finish_region(&job, b"\nx\n".to_vec()).expect("finishes");
    assert_eq!(blank_first, b"\n   x\n".to_vec());
}

#[test]
fn the_print_width_never_drops_below_one() {
    let buffer = b"          x";
    let job = prepare_region(buffer, &region(10, 11, "js", &[]), 4).expect("prepares");
    assert_eq!(job.printwidth, 1);
    assert_eq!(job.indent, 10);
    let job = prepare_region(buffer, &region(10, 11, "js", &[]), 11).expect("prepares");
    assert_eq!(job.printwidth, 1);
    let job = prepare_region(buffer, &region(10, 11, "js", &[]), 12).expect("prepares");
    assert_eq!(job.printwidth, 2);
}

#[test]
fn regions_that_cannot_be_read_are_errors() {
    let buffer = [b'a', 0xff, b'b'];
    assert_eq!(prepare_region(&buffer, &region(0, 3, "x", &[]), 80), Err(RegionError::InvalidUtf8));
    assert_eq!(prepare_region(&buffer, &region(2, 4, "x", &[]), 80), Err(RegionError::OutOfBounds));
    assert_eq!(prepare_region(&buffer, &region(2, 1, "x", &[]), 80), Err(RegionError::OutOfBounds));
    let job = prepare_region(b"\\\"x", &region(0, 3, "x", &["\"", ""]), 80).expect("prepares");
    assert_eq!(job.escapes, vec!["\"".to_string()]);
    assert_eq!(job.input, b"\"x".to_vec());
    assert_eq!(finish_region(&job, vec![0xff]), Err(RegionError::InvalidUtf8));
    let plain = prepare_region(b"x", &region(0, 1, "x", &[]), 80).expect("prepares");
    assert_eq!(finish_region(&plain, vec![0xff]), Ok(vec![0xff]));
}

#[test]
fn unchanged_regions_keep_their_bytes() {
    let buffer = b"say \\\"hi\\\" \\\\ there\n\nnext\n\n";
    let region = region(0, buffer.len(), "x", &["\""]);
    let job = prepare_region(buffer, &region, 80).expect("prepares");
    let input = job.input.clone();
    assert_eq!(finish_region(&job, input), Ok(buffer.to_vec()));
}

#[test]
fn languages_are_found_by_name_and_by_alias() {
    let names = vec!["markdown".to_string(), "typescript".to_string()];
    let aliases = vec![
        LanguageAlias { alias: "ts".to_string(), canonical: "typescript".to_string() },
        LanguageAlias { alias: "markdown".to_string(), canonical: "typescript".to_string() },
        LanguageAlias { alias: "py".to_string(), canonical: "python".to_string() },
    ];
    assert_eq!(resolve_language(&names, &aliases, "typescript"), Some(1));
    assert_eq!(resolve_language(&names, &aliases, "ts"), Some(1));
    assert_eq!(resolve_language(&names, &aliases, "markdown"), Some(0));
    assert_eq!(resolve_language(&names, &aliases, "py"), None);
    assert_eq!(resolve_language(&names, &aliases, "rust"), None);
    assert_eq!(canonical_language(&names, &aliases, "ts"), "typescript");
    assert_eq!(canonical_language(&names, &aliases, "markdown"), "markdown");
    assert_eq!(canonical_language(&names, &aliases, "py"), "python");
    assert_eq!(canonical_language(&names, &aliases, "rust"), "rust");
    let grammars = vec![markdown_grammar()];
    assert_eq!(find_grammar(&grammars, "markdown"), Some(0));
    assert_eq!(find_grammar(&grammars, "md"), None);
    let md = vec![LanguageAlias { alias: "md".to_string(), canonical: "markdown".to_string() }];
    assert_eq!(resolve_grammar(&grammars, &md, "md"), Some(0));
}

#[test]
fn escaped_and_indented_regions_keep_their_bytes() {
    let buffer = b"(defn f\n  \"Title\n\n   ```md\n   a \\\"b\\\" \\\\ c\n\n   ```\"\n  [])";
    let start = 11;
    let end = buffer.len() - 7;
    assert_eq!(buffer[end], b'"');
    let region = region(start, end, "markdown", &["\""]);
    let job = prepare_region(buffer, &region, 80).expect("prepares");
    assert_eq!(job.indent, 3);
    assert_eq!(job.input, b"Title\n\n```md\na \"b\" \\ c\n\n```".to_vec());
    let input = job.input.clone();
    assert_eq!(finish_region(&job, input), Ok(buffer[start..end].to_vec()));
}

#[test]
fn a_line_with_too_little_indent_does_not_keep_its_bytes() {
    let buffer = b"   x\n y";
    let job = prepare_region(buffer, &region(3, 7, "text", &[]), 80).expect("prepares");
    assert_eq!(job.input, b"x\ny".to_vec());
    let input = job.input.clone();
    assert_eq!(finish_region(&job, input), Ok(b"x\n   y".to_vec()));
}

#[test]
fn a_result_that_cannot_be_escaped_fails_the_frame() {
    let job = prepare_region(b"\\\"x", &region(0, 3, "x", &["\""]), 80).expect("prepares");
    let frame = Frame {
        buffer: b"\\\"x".to_vec(),
        printwidth: 80,
        language: "outer".to_string(),
        is_root: true,
        stage: Stage::Regions {
            regions: vec![region(0, 3, "x", &["\""])],
            results: Vec::new(),
            job: Some(job),
        },
    };
    assert_eq!(
        resume_frame(frame.clone(), vec![0xff]),
        Err(FormatError::Region(RegionError::InvalidUtf8))
    );
    assert_eq!(
        FormatError::Region(RegionError::InvalidUtf8).message(),
        "invalid utf-8 sequence in injected region"
    );
    match resume_frame(frame, b"\"y\n".to_vec()) {
        Ok(next) => assert_eq!(
            next.stage,
            Stage::Regions {
                regions: vec![region(0, 3, "x", &["\""])],
                results: vec![b"\\\"y".to_vec()],
                job: None
            }
        ),
        Err(error) => panic!("{}", error.message()),
    }
}

#[test]
fn a_frame_puts_its_results_back_when_all_are_there() {
    let ctx = context(Vec::new(), Vec::new());
    let frame = Frame {
        buffer: b"aa[one]bb".to_vec(),
        printwidth: 80,
        language: "outer".to_string(),
        is_root: false,
        stage: Stage::Regions {
            regions: vec![region(3, 6, "x", &[])],
            results: vec![b"1".to_vec()],
            job: None,
        },
    };
    match frame_step(&ctx, true, frame, Event::Resume) {
        Outcome::Complete(bytes) => assert_eq!(bytes, b"aa[1]bb".to_vec()),
        _ => panic!("the frame is through"),
    }
}
