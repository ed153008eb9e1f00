use pruner::extract::extract_language_injections;
use pruner::grammar::Grammar;
use pruner::ignore::{
    collect_ignore_ranges, is_comment_kind, is_ignored, IgnoreCapture, SyntaxNode,
};
use pruner::injections::{InjectedRegion, InjectionOpts};
use pruner::range::{Point, Range};

const NIX_INJECTIONS: &str = r##"
((comment) @injection.language
  .
  (indented_string_expression (string_fragment) @injection.content)
  (#gsub! @injection.language "#%s*([%w%p]+)%s*" "%1")
  (#set! pruner.injection.indented)
  (#set! injection.combined))
"##;

const MARKDOWN_INJECTIONS: &str = r#"
(fenced_code_block
  (info_string
    (language) @injection.language)
  (code_fence_content) @injection.content)

((html_block) @injection.content
  (#set! injection.language "html"))

((inline) @injection.content
  (#set! injection.language "markdown_inline"))
"#;

const MARKDOWN_IGNORE: &str = r#"
((html_block) @pruner.ignore.marker
  (#match? @pruner.ignore.marker "pruner-ignore"))
"#;

fn nix_grammar() -> Grammar {
    let lang = tree_sitter::Language::new(tree_sitter_nix::LANGUAGE);
    let injections = tree_sitter::Query::new(&lang, NIX_INJECTIONS).expect("query compiles");
    Grammar { name: "nix".to_string(), lang, injections, pruner_ignore: None }
}

fn markdown_grammar() -> Grammar {
    let lang = tree_sitter::Language::new(tree_sitter_md::LANGUAGE);
    let injections = tree_sitter::Query::new(&lang, MARKDOWN_INJECTIONS).expect("query compiles");
    let ignore = tree_sitter::Query::new(&lang, MARKDOWN_IGNORE).expect("query compiles");
    Grammar { name: "markdown".to_string(), lang, injections, pruner_ignore: Some(ignore) }
}

fn span(start_byte: usize, end_byte: usize) -> Range {
    Range {
        start_byte,
        end_byte,
        start_point: Point { row: 0, column: start_byte },
        end_point: Point { row: 0, column: end_byte },
    }
}

fn node(kind: &str, named: bool, depth: usize, start: usize, end: usize) -> SyntaxNode {
    SyntaxNode { kind: kind.to_string(), named, depth, range: span(start, end) }
}

#[test]
fn pruner_ignore_annotation_test() {
    let grammar = nix_grammar();

    let source = r#"{}: let
  embeddedTs =
    # pruner-ignore
    # typescript
    ''console.log("hello")'';
"#;
    let source_bytes = source.as_bytes();

    let mut parser = tree_sitter::Parser::new();
    let injected_regions =
        extract_language_injections(&mut parser, &grammar, source_bytes).expect("extracts");

    assert_eq!(injected_regions, vec![]);

    let source = r#"{}: let
  embeddedTs1 =
    # pruner-ignore
    # typescript
    ''console.log("hello")'';
  embeddedTs2 =
    # typescript
    ''console.log("hello")'';
"#;
    let source_bytes = source.as_bytes();

    let mut parser = tree_sitter::Parser::new();
    let injected_regions =
        extract_language_injections(&mut parser, &grammar, source_bytes).expect("extracts");

    assert_eq!(
        injected_regions,
        vec![InjectedRegion {
            range: Range {
                start_byte: 130,
                end_byte: 150,
                start_point: Point { row: 7, column: 6 },
                end_point: Point { row: 7, column: 26 }
            },
            lang: "typescript".into(),
            opts: InjectionOpts { escape_chars: Vec::new() }
        }]
    );
}

#[test]
fn pruner_ignore_markdown() {
    let markdown = markdown_grammar();

    let source = r#"abc

<!-- pruner-ignore -->
```typescript
console.log(1)
```
"#;
    let source_bytes = source.as_bytes();

    let mut parser = tree_sitter::Parser::new();
    let injected_regions =
        extract_language_injections(&mut parser, &markdown, source_bytes).expect("extracts");

    assert_eq!(
        injected_regions,
        vec![InjectedRegion {
            range: Range {
                start_byte: 0,
                end_byte: 3,
                start_point: Point { row: 0, column: 0 },
                end_point: Point { row: 0, column: 3 }
            },
            lang: "markdown_inline".into(),
            opts: InjectionOpts { escape_chars: Vec::new() }
        }]
    );
}

#[test]
fn pruner_ignore_indirect() {
    let nix = nix_grammar();

    let source = r#"{}: let
  # pruner-ignore
  embeddedTs =
    # typescript
    ''console.log("hello")'';
"#;
    let source_bytes = source.as_bytes();

    let mut parser = tree_sitter::Parser::new();
    let injected_regions =
        extract_language_injections(&mut parser, &nix, source_bytes).expect("extracts");

    assert_eq!(injected_regions, vec![]);
}

#[test]
fn a_marker_ignores_itself_and_the_next_sibling_that_is_no_comment() {
    //        0         1         2         3         4
    //        0123456789012345678901234567890123456789012345
    let source = b"# pruner-ignore # note (a) b # plain c";
    let nodes = vec![
        node("source", true, 0, 0, 38),
        node("comment", true, 1, 0, 15),
        node("line_comment", true, 1, 16, 22),
        node("(", false, 1, 23, 24),
        node("list", true, 1, 23, 26),
        node("symbol", true, 2, 24, 25),
        node("symbol", true, 1, 27, 28),
        node("comment", true, 1, 29, 36),
        node("symbol", true, 1, 37, 38),
    ];
    let ranges = collect_ignore_ranges(&nodes, source, &[], None, None);
    assert_eq!(ranges, vec![span(0, 15), span(23, 26)]);
    assert!(is_ignored(&span(24, 25), &ranges));
    assert!(is_ignored(&span(23, 26), &ranges));
    assert!(!is_ignored(&span(23, 27), &ranges));
    assert!(!is_ignored(&span(27, 28), &ranges));
    assert!(!is_ignored(&span(0, 1), &[]));
}

#[test]
fn a_marker_without_a_later_sibling_ignores_itself_alone() {
    let source = b"(a # pruner-ignore\n) b";
    let nodes = vec![
        node("source", true, 0, 0, 22),
        node("list", true, 1, 0, 20),
        node("symbol", true, 2, 1, 2),
        node("comment", true, 2, 3, 18),
        node("symbol", true, 1, 21, 22),
    ];
    let ranges = collect_ignore_ranges(&nodes, source, &[], None, None);
    assert_eq!(ranges, vec![span(3, 18)]);
}

#[test]
fn captures_of_an_ignore_query_name_targets_and_markers() {
    let source = b"<!-- x --> code more";
    let nodes = vec![
        node("document", true, 0, 0, 20),
        node("html_block", true, 1, 0, 10),
        node("code", true, 1, 11, 15),
        node("text", true, 1, 16, 20),
    ];
    let captures = vec![
        IgnoreCapture { index: 0, node: 1 },
        IgnoreCapture { index: 1, node: 3 },
        IgnoreCapture { index: 2, node: 2 },
        IgnoreCapture { index: 1, node: 9 },
    ];
    let ranges = collect_ignore_ranges(&nodes, source, &captures, Some(1), Some(0));
    assert_eq!(ranges, vec![span(0, 10), span(11, 15), span(16, 20)]);
    let none = collect_ignore_ranges(&nodes, source, &captures, None, None);
    assert_eq!(none, Vec::<Range>::new());
}

#[test]
fn comments_are_known_by_their_kind() {
    assert!(is_comment_kind("comment"));
    assert!(is_comment_kind("line_comment"));
    assert!(is_comment_kind("comment_block"));
    assert!(!is_comment_kind("commen"));
    assert!(!is_comment_kind("html_block"));
    assert!(!is_comment_kind(""));
}
