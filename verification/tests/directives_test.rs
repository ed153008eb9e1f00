use pruner::directives::escape as escape_directive;
use pruner::directives::gsub::{self, GsubRule};
use pruner::directives::indented::{is_indented, trim_bytes};
use pruner::directives::offset::{
    self, apply_offset_to_range, apply_signed, parse_signed, point_to_byte, RangeOffset,
};
use pruner::directives::trim::{
    self, apply_trim, is_charwise_whitespace, is_line_whitespace_only, parse_bool_int,
    trim_end_charwise, trim_end_linewise, trim_start_charwise, trim_start_linewise, TrimSpec,
};
use pruner::extract::extract_language_injections;
use pruner::grammar::Grammar;
use pruner::injections::{InjectedRegion, InjectionOpts};
use pruner::predicate::{Predicate, PredicateArg, Property};
use pruner::range::{Point, Range};

const NIX_INJECTIONS: &str = r##"
((comment) @injection.language
  .
  (indented_string_expression (string_fragment) @injection.content)
  (#gsub! @injection.language "#%s*([%w%p]+)%s*" "%1")
  (#set! pruner.injection.indented)
  (#set! injection.combined))
"##;

fn nix_grammar() -> Grammar {
    let lang = tree_sitter::Language::new(tree_sitter_nix::LANGUAGE);
    let injections = tree_sitter::Query::new(&lang, NIX_INJECTIONS).expect("query compiles");
    Grammar { name: "nix".to_string(), lang, injections, pruner_ignore: None }
}

fn predicate(operator: &str, args: Vec<PredicateArg>) -> Predicate {
    Predicate { operator: operator.to_string(), args }
}

fn text(value: &str) -> PredicateArg {
    PredicateArg::String(value.to_string())
}

#[test]
fn gsub_directive_test() {
    let grammar = nix_grammar();

    let source = r#"{}: let
  embeddedTs =
    # javascript
    ''console.log(1)'';
"#;
    let source_bytes = source.as_bytes();

    let mut parser = tree_sitter::Parser::new();
    let injected_regions =
        extract_language_injections(&mut parser, &grammar, source_bytes).expect("extracts");

    assert_eq!(
        injected_regions,
        vec![InjectedRegion {
            range: Range {
                start_byte: 46,
                end_byte: 60,
                start_point: Point { row: 3, column: 6 },
                end_point: Point { row: 3, column: 20 }
            },
            lang: "javascript".into(),
            opts: InjectionOpts { escape_chars: Vec::new() }
        }]
    );
}

#[test]
fn pruner_indented_property_test() {
    let grammar = nix_grammar();

    let source = r#"{}: let
  embeddedTs =
    # javascript
    ''
      console.log(1)
    '';
"#;
    let source_bytes = source.as_bytes();

    let mut parser = tree_sitter::Parser::new();
    let injected_regions =
        extract_language_injections(&mut parser, &grammar, source_bytes).expect("extracts");

    assert_eq!(
        injected_regions,
        vec![InjectedRegion {
            range: Range {
                start_byte: 47,
                end_byte: 68,
                start_point: Point { row: 4, column: 0 },
                end_point: Point { row: 5, column: 0 }
            },
            lang: "javascript".into(),
            opts: InjectionOpts { escape_chars: Vec::new() }
        }]
    );
}

#[test]
fn trim_default_drops_blank_lines_at_the_end() {
    let source = b"  \n\n  code\n  more  \n   \n\n";
    let spec = TrimSpec::default_end_linewise_only();
    assert_eq!(
        spec,
        TrimSpec {
            start_linewise: false,
            start_charwise: false,
            end_linewise: true,
            end_charwise: false
        }
    );
    assert_eq!(apply_trim(source, 0, source.len(), spec), (0, 20));
}

#[test]
fn trim_all_four_ways() {
    let source = b"  \n\n  code\n  more  \n   \n\n";
    let all = TrimSpec {
        start_linewise: true,
        start_charwise: true,
        end_linewise: true,
        end_charwise: true,
    };
    assert_eq!(apply_trim(source, 0, source.len(), all), (6, 17));
    let lines = TrimSpec {
        start_linewise: true,
        start_charwise: false,
        end_linewise: true,
        end_charwise: false,
    };
    assert_eq!(apply_trim(source, 0, source.len(), lines), (4, 20));
    let chars = TrimSpec {
        start_linewise: false,
        start_charwise: true,
        end_linewise: false,
        end_charwise: true,
    };
    assert_eq!(apply_trim(source, 0, source.len(), chars), (6, 17));
}

#[test]
fn trim_leaves_spans_that_do_not_fit() {
    let source = b" a ";
    let all = TrimSpec {
        start_linewise: true,
        start_charwise: true,
        end_linewise: true,
        end_charwise: true,
    };
    assert_eq!(apply_trim(source, 2, 1, all), (2, 1));
    assert_eq!(apply_trim(source, 1, 1, all), (1, 1));
    assert_eq!(apply_trim(source, 0, 9, all), (0, 9));
    assert_eq!(apply_trim(source, 0, 3, all), (1, 2));
}

#[test]
fn trim_helpers_stop_at_text() {
    let source = b" \t\n x \n \n";
    assert_eq!(trim_start_charwise(source, 0, source.len()), 4);
    assert_eq!(trim_end_charwise(source, 0, source.len()), 5);
    assert_eq!(trim_start_linewise(source, 0, source.len()), 3);
    assert_eq!(trim_end_linewise(source, 0, source.len()), 7);
    assert_eq!(trim_start_linewise(b"  \n \t", 0, 5), 5);
    assert_eq!(trim_end_linewise(b"  \n \t", 0, 5), 0);
    assert_eq!(trim_end_linewise(b"x  ", 0, 3), 3);
    assert_eq!(trim_start_linewise(b"  x", 0, 3), 0);
    assert!(is_line_whitespace_only(b" \t\r"));
    assert!(!is_line_whitespace_only(b" \n"));
    assert!(is_charwise_whitespace(b'\n'));
    assert!(!is_charwise_whitespace(b'x'));
}

#[test]
fn trim_predicate_takes_one_or_five_arguments() {
    let default = predicate("trim!", vec![PredicateArg::Capture(3)]);
    assert_eq!(
        trim::parse_trim_predicate(&default),
        Some((3, TrimSpec::default_end_linewise_only()))
    );
    let full = predicate(
        "trim!",
        vec![PredicateArg::Capture(1), text("1"), text("0"), text("0"), text("1")],
    );
    assert_eq!(
        trim::parse_trim_predicate(&full),
        Some((
            1,
            TrimSpec {
                start_linewise: true,
                start_charwise: false,
                end_linewise: false,
                end_charwise: true
            }
        ))
    );
    let bad = predicate(
        "trim!",
        vec![PredicateArg::Capture(1), text("1"), text("2"), text("0"), text("1")],
    );
    assert_eq!(trim::parse_trim_predicate(&bad), None);
    let short = predicate("trim!", vec![PredicateArg::Capture(1), text("1")]);
    assert_eq!(trim::parse_trim_predicate(&short), None);
    assert_eq!(parse_bool_int("0"), Some(false));
    assert_eq!(parse_bool_int("1"), Some(true));
    assert_eq!(parse_bool_int("true"), None);
    assert_eq!(parse_bool_int(""), None);

    let table = trim::collect(&[bad, default, predicate("other!", vec![]), full]);
    assert_eq!(table.len(), 2);
    assert_eq!(table.get(&3), Some(&TrimSpec::default_end_linewise_only()));
    assert!(table.get(&1).expect("installed").start_linewise);
}

#[test]
fn indented_region_loses_blank_first_line_and_closing_indent() {
    let source = b"''\n      console.log(1)\n    ''";
    assert_eq!(trim_bytes(source, 2, 28), (3, 24));
    let inline = b"''console.log(1)''";
    assert_eq!(trim_bytes(inline, 2, 16), (2, 16));
    let text_first = b"x \n  y  ";
    assert_eq!(trim_bytes(text_first, 0, 8), (0, 6));
    assert_eq!(trim_bytes(text_first, 5, 2), (5, 2));
    assert_eq!(trim_bytes(b" \t\r\n", 0, 4), (4, 4));
    assert_eq!(trim_bytes(b"\n  ", 0, 3), (1, 1));
}

#[test]
fn indented_property_is_found_by_its_key() {
    let set = Property { key: "pruner.injection.indented".to_string(), value: None };
    let other = Property { key: "injection.combined".to_string(), value: None };
    assert!(is_indented(&[other.clone(), set]));
    assert!(!is_indented(&[other]));
    assert!(!is_indented(&[]));
}

#[test]
fn signed_integers_are_read_as_the_parser_of_integers_reads_them() {
    assert_eq!(parse_signed("0"), Some(0));
    assert_eq!(parse_signed("-12"), Some(-12));
    assert_eq!(parse_signed("+7"), Some(7));
    assert_eq!(parse_signed("0042"), Some(42));
    assert_eq!(parse_signed(""), None);
    assert_eq!(parse_signed("-"), None);
    assert_eq!(parse_signed("+"), None);
    assert_eq!(parse_signed("1 "), None);
    assert_eq!(parse_signed("1_0"), None);
    assert_eq!(parse_signed("--1"), None);
    assert_eq!(parse_signed(&isize::MAX.to_string()), Some(isize::MAX));
    assert_eq!(parse_signed(&isize::MIN.to_string()), Some(isize::MIN));
    assert_eq!(parse_signed("99999999999999999999999999"), None);
    assert_eq!(parse_signed("-99999999999999999999999999"), None);
    for sample in ["5", "-5", "+5", "x", "", "007", "9223372036854775808"] {
        assert_eq!(parse_signed(sample), sample.parse::<isize>().ok());
    }
}

#[test]
fn offsets_move_rows_and_columns() {
    assert_eq!(apply_signed(3, 2), Some(5));
    assert_eq!(apply_signed(3, -3), Some(0));
    assert_eq!(apply_signed(3, -4), None);
    assert_eq!(apply_signed(usize::MAX, 0), None);
    assert_eq!(apply_signed(isize::MAX as usize, 1), None);
}

#[test]
fn points_are_found_in_the_text() {
    let source = b"ab\ncde\nf";
    assert_eq!(point_to_byte(source, Point { row: 0, column: 0 }), Some(0));
    assert_eq!(point_to_byte(source, Point { row: 1, column: 2 }), Some(5));
    assert_eq!(point_to_byte(source, Point { row: 1, column: 4 }), Some(7));
    assert_eq!(point_to_byte(source, Point { row: 1, column: 40 }), Some(7));
    assert_eq!(point_to_byte(source, Point { row: 2, column: 9 }), Some(8));
    assert_eq!(point_to_byte(source, Point { row: 3, column: 0 }), None);
    assert_eq!(point_to_byte(b"ab\n", Point { row: 1, column: 0 }), None);
    assert_eq!(point_to_byte(b"", Point { row: 0, column: 0 }), None);
}

#[test]
fn offset_moves_a_range() {
    let source = b"\"\"\"\nbody\n\"\"\"\n";
    let range = Range {
        start_byte: 0,
        end_byte: 12,
        start_point: Point { row: 0, column: 0 },
        end_point: Point { row: 2, column: 3 },
    };
    let offset = RangeOffset { start_row: 1, start_col: 0, end_row: -1, end_col: 1 };
    assert_eq!(
        apply_offset_to_range(source, &range, &offset),
        Some(Range {
            start_byte: 4,
            end_byte: 8,
            start_point: Point { row: 1, column: 0 },
            end_point: Point { row: 1, column: 4 },
        })
    );
    let negative = RangeOffset { start_row: -1, start_col: 0, end_row: 0, end_col: 0 };
    assert_eq!(apply_offset_to_range(source, &range, &negative), None);
    let beyond = RangeOffset { start_row: 0, start_col: 0, end_row: 5, end_col: 0 };
    assert_eq!(apply_offset_to_range(source, &range, &beyond), None);
}

#[test]
fn offset_predicate_takes_a_capture_and_four_integers() {
    let good = predicate(
        "offset!",
        vec![PredicateArg::Capture(2), text("0"), text("1"), text("0"), text("-1")],
    );
    assert_eq!(
        offset::parse_offset_predicate(&good),
        Some((2, RangeOffset { start_row: 0, start_col: 1, end_row: 0, end_col: -1 }))
    );
    let bad = predicate(
        "offset!",
        vec![PredicateArg::Capture(2), text("0"), text("one"), text("0"), text("-1")],
    );
    assert_eq!(offset::parse_offset_predicate(&bad), None);
    let table = offset::collect(&[bad, good]);
    assert_eq!(table.len(), 1);
    assert_eq!(table.get(&2).expect("installed").end_col, -1);
}

#[test]
fn escape_predicates_join_their_strings() {
    let first = predicate("escape!", vec![PredicateArg::Capture(0), text("\""), text("$")]);
    let second = predicate("escape!", vec![PredicateArg::Capture(0), text("$"), text("''")]);
    let other = predicate("escape!", vec![PredicateArg::Capture(1), text("x")]);
    let bad = predicate("escape!", vec![PredicateArg::Capture(0)]);
    let mixed = predicate("escape!", vec![PredicateArg::Capture(0), PredicateArg::Capture(1)]);
    assert_eq!(escape_directive::parse_escape_predicate(&bad), None);
    assert_eq!(escape_directive::parse_escape_predicate(&mixed), None);
    let table = escape_directive::collect(&[first, bad, other, second, mixed]);
    assert_eq!(
        escape_directive::escape_chars(&table, 0),
        vec!["\"".to_string(), "$".to_string(), "''".to_string()]
    );
    assert_eq!(escape_directive::escape_chars(&table, 1), vec!["x".to_string()]);
    assert_eq!(escape_directive::escape_chars(&table, 2), Vec::<String>::new());
}

#[test]
fn lua_replacements_become_regex_replacements() {
    assert_eq!(gsub::lua_replacement_to_regex("%1"), "$1");
    assert_eq!(gsub::lua_replacement_to_regex("%0-%9"), "$0-$9");
    assert_eq!(gsub::lua_replacement_to_regex("100%%"), "100%");
    assert_eq!(gsub::lua_replacement_to_regex("$x"), "$$x");
    assert_eq!(gsub::lua_replacement_to_regex("%$"), "$$");
    assert_eq!(gsub::lua_replacement_to_regex("%a%."), "a.");
    assert_eq!(gsub::lua_replacement_to_regex("end%"), "end%");
    assert_eq!(gsub::lua_replacement_to_regex(""), "");
}

#[test]
fn gsub_rules_rewrite_a_language_name() {
    let rule = gsub::compile_gsub_rule("#%s*([%w%p]+)%s*", "%1").expect("compiles");
    assert_eq!(rule.replacement, "$1");
    assert_eq!(gsub::apply("# javascript", &[rule.clone()]), "javascript");
    assert_eq!(gsub::apply("javascript", &[rule]), "javascript");
    assert_eq!(gsub::apply("# javascript", &[]), "# javascript");
    let second = GsubRule { regex: "script".to_string(), replacement: "$$".to_string() };
    let first = gsub::compile_gsub_rule("^java", "type").expect("compiles");
    assert_eq!(gsub::apply("javascript", &[first, second]), "type$");
}

#[test]
fn gsub_rules_that_do_not_compile_are_left_out() {
    assert_eq!(gsub::compile_gsub_rule("%", "x"), None);
    assert_eq!(gsub::compile_gsub_rule("%b()", "x"), None);
    assert_eq!(gsub::compile_gsub_rule("%f[%w]", "x"), None);
    assert_eq!(gsub::compile_gsub_rule("%z", "x"), None);
    assert!(gsub::compile_gsub_rule("%d+", "x").is_some());
    let broken = GsubRule { regex: "(".to_string(), replacement: "x".to_string() };
    assert_eq!(gsub::apply("text", &[broken]), "text");

    let good = predicate("gsub!", vec![PredicateArg::Capture(4), text("^x"), text("y")]);
    let bad = predicate("gsub!", vec![PredicateArg::Capture(4), text("%"), text("y")]);
    let short = predicate("gsub!", vec![PredicateArg::Capture(4), text("^x")]);
    let later = predicate("gsub!", vec![PredicateArg::Capture(4), text("y$"), text("z")]);
    let table = gsub::collect(&[good, bad, short, later]);
    assert_eq!(table.get(&4).expect("installed").len(), 2);
    assert_eq!(gsub::apply_gsub(&table, 4, "x"), "z");
    assert_eq!(gsub::apply_gsub(&table, 5, "x"), "x");
}

#[test]
fn a_pattern_opens_no_more_groups_than_its_parser_counts() {
    assert_eq!(gsub::count_open_groups(""), 0);
    assert_eq!(gsub::count_open_groups("(a)(b)%("), 3);
    let most = "()".repeat(gsub::MAX_GROUPS);
    assert_eq!(gsub::count_open_groups(&most), 254);
    let rule = gsub::compile_gsub_rule(&most, "x").expect("compiles");
    assert_eq!(rule.regex, most);
    let more = "()".repeat(gsub::MAX_GROUPS + 1);
    assert_eq!(gsub::compile_gsub_rule(&more, "x"), None);
    let deep = "(".repeat(100_000);
    assert_eq!(gsub::compile_gsub_rule(&deep, "x"), None);

    let long = predicate("gsub!", vec![PredicateArg::Capture(4), text(&more), text("y")]);
    let good = predicate("gsub!", vec![PredicateArg::Capture(4), text("^x"), text("y")]);
    let table = gsub::collect(&[long, good]);
    assert_eq!(table.get(&4).map(|rules| rules.len()), Some(1));
}
