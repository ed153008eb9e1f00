use pruner::extract::extract_language_injections;
use pruner::grammar::Grammar;
use pruner::injections::{InjectedRegion, InjectionOpts};
use pruner::range::{Point, Range};

const MARKDOWN_INJECTIONS: &str = r#"
(fenced_code_block
  (info_string
    (language) @injection.language)
  (code_fence_content) @injection.content)

((html_block) @injection.content
  (#set! injection.language "html"))

((inline) @injection.content
  (#set! injection.language "markdown_inline"))
"#;

fn markdown_grammar() -> Grammar {
    let lang = tree_sitter::Language::new(tree_sitter_md::LANGUAGE);
    let injections = tree_sitter::Query::new(&lang, MARKDOWN_INJECTIONS).expect("query compiles");
    Grammar { name: "markdown".to_string(), lang, injections, pruner_ignore: None }
}

/// Some grammars (like markdown) require the file to end with a newline. The document
/// below does not: the extraction appends one before parsing and clamps the regions
/// back to the document.
#[test]
fn injected_regions_newline() {
    let grammar = markdown_grammar();

    let source = r#"Title

   ```clojure
   (println 1 )
   (println 2)
   ```"#;
    let source_bytes = source.as_bytes();

    let mut parser = tree_sitter::Parser::new();
    let injected_regions =
        extract_language_injections(&mut parser, &grammar, source_bytes).expect("extracts");

    assert_eq!(
        injected_regions,
        vec![
            InjectedRegion {
                range: Range {
                    start_byte: 0,
                    end_byte: 5,
                    start_point: Point { row: 0, column: 0 },
                    end_point: Point { row: 0, column: 5 }
                },
                lang: "markdown_inline".into(),
                opts: InjectionOpts { escape_chars: Vec::new() }
            },
            InjectedRegion {
                range: Range {
                    start_byte: 21,
                    end_byte: 52,
                    start_point: Point { row: 3, column: 0 },
                    end_point: Point { row: 5, column: 0 }
                },
                lang: "clojure".into(),
                opts: InjectionOpts { escape_chars: Vec::new() }
            }
        ],
        "The clojure injected region should not contain the trailing ``` characters"
    );
}

#[test]
fn document_that_is_not_utf8_is_refused() {
    let grammar = markdown_grammar();
    let mut parser = tree_sitter::Parser::new();
    let found = extract_language_injections(&mut parser, &grammar, &[b'a', 0xff, b'b']);
    assert_eq!(found, Err(pruner::extract::ExtractError::InvalidUtf8));
}

fn property(key: &str, value: Option<&str>) -> pruner::predicate::Property {
    pruner::predicate::Property { key: key.to_string(), value: value.map(|v| v.to_string()) }
}

fn predicate(operator: &str, args: Vec<pruner::predicate::PredicateArg>) -> pruner::predicate::Predicate {
    pruner::predicate::Predicate { operator: operator.to_string(), args }
}

fn text_arg(value: &str) -> pruner::predicate::PredicateArg {
    pruner::predicate::PredicateArg::String(value.to_string())
}

fn capture(index: u32, start: usize, end: usize, container: (usize, usize)) -> pruner::injections::Capture {
    pruner::injections::Capture {
        index,
        range: Range {
            start_byte: start,
            end_byte: end,
            start_point: Point { row: 0, column: 0 },
            end_point: Point { row: 0, column: 0 },
        },
        container_start: container.0,
        container_end: container.1,
    }
}

fn found(pattern_index: usize, captures: Vec<pruner::injections::Capture>) -> pruner::injections::QueryMatch {
    pruner::injections::QueryMatch { pattern_index, captures }
}

fn region(start: (usize, usize, usize), end: (usize, usize, usize), lang: &str, escapes: &[&str]) -> InjectedRegion {
    InjectedRegion {
        range: Range {
            start_byte: start.0,
            end_byte: end.0,
            start_point: Point { row: start.1, column: start.2 },
            end_point: Point { row: end.1, column: end.2 },
        },
        lang: lang.to_string(),
        opts: InjectionOpts { escape_chars: escapes.iter().map(|e| e.to_string()).collect() },
    }
}

#[test]
fn combined_fragments_become_one_region() {
    let source = b"let s = ''ab${x}cd'';\n";
    let patterns = vec![pruner::predicate::PatternInfo {
        properties: vec![property("injection.language", Some("bash")), property("injection.combined", None)],
        predicates: vec![
            predicate("escape!", vec![pruner::predicate::PredicateArg::Capture(0), text_arg("$")]),
        ],
    }];
    let matches = vec![
        found(0, vec![capture(0, 16, 18, (8, 20))]),
        found(0, vec![capture(0, 10, 12, (8, 20))]),
    ];
    let regions = pruner::injections::extract_regions(source, &None, &patterns, 0, None, &matches, &[]);
    assert_eq!(regions, vec![region((10, 0, 10), (18, 0, 18), "bash", &["$"])]);
}

#[test]
fn combined_fragments_join_their_escape_strings() {
    let mut groups = Vec::new();
    let key = pruner::injections::GroupKey::Combined {
        pattern_index: 2,
        lang: "sql".to_string(),
        container_start: 4,
        container_end: 40,
    };
    let fragment = |start: usize, end: usize, escapes: &[&str]| pruner::injections::InjectedRegionFragment {
        pattern_index: 2,
        lang: "sql".to_string(),
        start_byte: start,
        end_byte: end,
        escape_chars: escapes.iter().map(|e| e.to_string()).collect(),
    };
    pruner::injections::upsert(&mut groups, key.clone(), fragment(20, 25, &["\"", "$"]));
    pruner::injections::upsert(&mut groups, pruner::injections::GroupKey::Single(1), fragment(0, 3, &[]));
    pruner::injections::upsert(&mut groups, key, fragment(10, 22, &["$", "'"]));
    assert_eq!(groups.len(), 2);
    assert_eq!(groups[0].fragment, fragment(10, 25, &["\"", "$", "'"]));
    assert_eq!(groups[1].fragment, fragment(0, 3, &[]));
}

#[test]
fn fragments_of_other_containers_or_languages_stay_apart() {
    let source = b"0123456789012345678901234567890123456789\n";
    let patterns = vec![pruner::predicate::PatternInfo {
        properties: vec![property("injection.combined", None)],
        predicates: vec![],
    }];
    let matches = vec![
        found(0, vec![capture(1, 0, 2, (0, 2)), capture(0, 4, 6, (3, 20))]),
        found(0, vec![capture(1, 0, 2, (0, 2)), capture(0, 22, 26, (21, 30))]),
        found(0, vec![capture(1, 2, 4, (2, 4)), capture(0, 8, 10, (3, 20))]),
        found(0, vec![capture(1, 0, 2, (0, 2)), capture(0, 12, 14, (3, 20))]),
    ];
    let regions = pruner::injections::extract_regions(source, &None, &patterns, 0, Some(1), &matches, &[]);
    assert_eq!(
        regions,
        vec![
            region((4, 0, 4), (14, 0, 14), "01", &[]),
            region((22, 0, 22), (26, 0, 26), "01", &[]),
            region((8, 0, 8), (10, 0, 10), "23", &[]),
        ]
    );
}

#[test]
fn regions_inside_ignored_ranges_are_dropped() {
    let source = b"aaaa bbbb cccc\n";
    let patterns = vec![pruner::predicate::PatternInfo {
        properties: vec![property("injection.language", Some("x"))],
        predicates: vec![],
    }];
    let matches = vec![
        found(0, vec![capture(0, 0, 4, (0, 4))]),
        found(0, vec![capture(0, 5, 9, (5, 9))]),
        found(0, vec![capture(0, 10, 14, (10, 14))]),
    ];
    let ignored = vec![
        Range { start_byte: 5, end_byte: 9, start_point: Point { row: 0, column: 5 }, end_point: Point { row: 0, column: 9 } },
        Range { start_byte: 11, end_byte: 14, start_point: Point { row: 0, column: 11 }, end_point: Point { row: 0, column: 14 } },
    ];
    let regions = pruner::injections::extract_regions(source, &None, &patterns, 0, None, &matches, &ignored);
    assert_eq!(
        regions,
        vec![region((0, 0, 0), (4, 0, 4), "x", &[]), region((10, 0, 10), (14, 0, 14), "x", &[])]
    );
}

#[test]
fn appended_newline_clamps_the_end_of_regions() {
    let document = b"ab\ncd";
    let (with_feed, endpoint) = pruner::injections::with_newline(document);
    assert_eq!(with_feed, b"ab\ncd\n".to_vec());
    assert_eq!(
        endpoint,
        Some(pruner::injections::EndPoint { byte: 5, point: Point { row: 1, column: 2 } })
    );
    let (unchanged, none) = pruner::injections::with_newline(b"ab\ncd\n");
    assert_eq!(unchanged, b"ab\ncd\n".to_vec());
    assert_eq!(none, None);

    let patterns = vec![pruner::predicate::PatternInfo {
        properties: vec![property("injection.language", Some("x"))],
        predicates: vec![],
    }];
    let matches = vec![
        found(0, vec![capture(0, 0, 2, (0, 2))]),
        found(0, vec![capture(0, 3, 6, (3, 6))]),
        found(0, vec![capture(0, 6, 6, (6, 6))]),
    ];
    let longer = pruner::injections::extract_regions(&with_feed, &None, &patterns, 0, None, &matches, &[]);
    let shorter = pruner::injections::extract_regions(&with_feed, &endpoint, &patterns, 0, None, &matches, &[]);
    assert_eq!(
        longer,
        vec![
            region((0, 0, 0), (2, 0, 2), "x", &[]),
            region((3, 1, 0), (6, 2, 0), "x", &[]),
            region((6, 2, 0), (6, 2, 0), "x", &[]),
        ]
    );
    assert_eq!(
        shorter,
        vec![region((0, 0, 0), (2, 0, 2), "x", &[]), region((3, 1, 0), (5, 1, 2), "x", &[])]
    );
    for (long, short) in longer.iter().zip(shorter.iter()) {
        assert_eq!(
            pruner::injections::remap_range_for_appended_newline(long.range, &endpoint),
            short.range
        );
    }
}

#[test]
fn directives_shape_the_span_of_a_region() {
    let source = b"\"\"\"\n  body\n\n\"\"\"\n";
    let patterns = vec![pruner::predicate::PatternInfo {
        properties: vec![],
        predicates: vec![
            predicate(
                "offset!",
                vec![pruner::predicate::PredicateArg::Capture(0), text_arg("1"), text_arg("0"), text_arg("0"), text_arg("-3")],
            ),
            predicate("trim!", vec![pruner::predicate::PredicateArg::Capture(0)]),
            predicate("gsub!", vec![pruner::predicate::PredicateArg::Capture(1), text_arg("^%s*(%a+)%s*$"), text_arg("%1-lang")]),
            predicate("escape!", vec![pruner::predicate::PredicateArg::Capture(0), text_arg("\"")]),
        ],
    }];
    let mut content = capture(0, 0, 15, (0, 16));
    content.range.end_point = Point { row: 3, column: 3 };
    let matches = vec![found(0, vec![capture(1, 4, 10, (0, 16)), content])];
    let regions = pruner::injections::extract_regions(source, &None, &patterns, 0, Some(1), &matches, &[]);
    assert_eq!(regions, vec![region((4, 1, 0), (11, 2, 0), "body-lang", &["\""])]);
}

#[test]
fn matches_without_language_or_content_give_nothing() {
    let source = b"abcdef\n";
    let patterns = vec![pruner::predicate::PatternInfo { properties: vec![], predicates: vec![] }];
    let matches = vec![
        found(0, vec![capture(0, 0, 3, (0, 3))]),
        found(0, vec![capture(1, 0, 3, (0, 3))]),
        found(7, vec![capture(1, 0, 3, (0, 3)), capture(0, 3, 6, (3, 6))]),
        found(0, vec![capture(1, 0, 3, (0, 3)), capture(0, 3, 60, (3, 6))]),
    ];
    let regions = pruner::injections::extract_regions(source, &None, &patterns, 0, Some(1), &matches, &[]);
    assert_eq!(regions, Vec::<InjectedRegion>::new());
    assert_eq!(pruner::injections::get_lang_name(&[property("injection.language", Some("sql"))]), Some("sql".to_string()));
    assert_eq!(pruner::injections::get_lang_name(&[property("injection.language", None)]), None);
    assert_eq!(pruner::injections::get_lang_name(&[property("other", Some("sql"))]), None);
}

#[test]
fn options_are_equal_when_their_escape_strings_are_the_same_set() {
    let opts = |items: &[&str]| InjectionOpts {
        escape_chars: items.iter().map(|item| item.to_string()).collect(),
    };
    assert_eq!(opts(&["a", "b"]), opts(&["b", "a", "a"]));
    assert_eq!(opts(&[]), opts(&[]));
    assert_ne!(opts(&["a"]), opts(&["a", "b"]));
    assert_ne!(opts(&["a", "b"]), opts(&["a"]));
    assert_ne!(opts(&["a"]), opts(&[]));
}

#[test]
fn an_offset_that_cannot_be_applied_leaves_the_span_of_the_node() {
    let source = b"abc\ndef\n";
    let offset = |row: &str, column: &str| {
        vec![pruner::predicate::PatternInfo {
            properties: vec![property("injection.language", Some("x"))],
            predicates: vec![predicate(
                "offset!",
                vec![
                    pruner::predicate::PredicateArg::Capture(0),
                    text_arg(row),
                    text_arg(column),
                    text_arg("0"),
                    text_arg("0"),
                ],
            )],
        }]
    };
    let mut content = capture(0, 1, 6, (0, 8));
    content.range.start_point = Point { row: 0, column: 1 };
    content.range.end_point = Point { row: 1, column: 2 };
    let matches = vec![found(0, vec![content])];
    let moved = pruner::injections::extract_regions(source, &None, &offset("0", "1"), 0, None, &matches, &[]);
    assert_eq!(moved, vec![region((2, 0, 2), (6, 1, 2), "x", &[])]);
    let negative = pruner::injections::extract_regions(source, &None, &offset("-1", "0"), 0, None, &matches, &[]);
    assert_eq!(negative, vec![region((1, 0, 1), (6, 1, 2), "x", &[])]);
    let beyond = pruner::injections::extract_regions(source, &None, &offset("5", "0"), 0, None, &matches, &[]);
    assert_eq!(beyond, vec![region((1, 0, 1), (6, 1, 2), "x", &[])]);
    let inverted = pruner::injections::extract_regions(source, &None, &offset("1", "3"), 0, None, &matches, &[]);
    assert_eq!(inverted, vec![region((1, 0, 1), (6, 1, 2), "x", &[])]);
}

#[test]
fn patterns_are_paired_place_by_place() {
    let properties = vec![
        vec![property("injection.language", Some("a"))],
        vec![],
        vec![property("injection.combined", None)],
    ];
    let predicates = vec![
        vec![],
        vec![predicate("trim!", vec![pruner::predicate::PredicateArg::Capture(0)])],
    ];
    let patterns = pruner::extract::pair_patterns(properties.clone(), predicates.clone());
    assert_eq!(
        patterns,
        vec![
            pruner::predicate::PatternInfo {
                properties: properties[0].clone(),
                predicates: predicates[0].clone()
            },
            pruner::predicate::PatternInfo {
                properties: properties[1].clone(),
                predicates: predicates[1].clone()
            },
        ]
    );
    assert_eq!(pruner::extract::pair_patterns(Vec::new(), predicates), Vec::new());
    assert_eq!(pruner::extract::place_of(&[7, 9, 9], 9), 1);
    assert_eq!(pruner::extract::place_of(&[7, 9, 9], 8), 3);
}

#[test]
fn the_appended_newline_keeps_the_list_of_regions() {
    let grammar = markdown_grammar();
    let shorter = "Title\n\n<div>\n</div>\n\n```nix\n{ a = 1; }\n```";
    let longer = format!("{shorter}\n");
    let end = shorter.len();
    let mut parser = tree_sitter::Parser::new();
    let short =
        extract_language_injections(&mut parser, &grammar, shorter.as_bytes()).expect("extracts");
    let long =
        extract_language_injections(&mut parser, &grammar, longer.as_bytes()).expect("extracts");
    assert_eq!(short.len(), 3);
    assert_eq!(short.len(), long.len());
    for (clamped, whole) in short.iter().zip(long.iter()) {
        assert_eq!(clamped.lang, whole.lang);
        assert_eq!(clamped.opts, whole.opts);
        assert_eq!(clamped.range.start_byte, whole.range.start_byte);
        assert_eq!(clamped.range.start_point, whole.range.start_point);
        if whole.range.end_byte < end {
            assert_eq!(clamped.range, whole.range);
        } else {
            assert_eq!(clamped.range.end_byte, end);
            assert_eq!(
                clamped.range.end_point,
                pruner::text::point_for_byte(shorter.as_bytes(), end)
            );
        }
    }
    assert_eq!(short[2].lang, "nix");
    assert_eq!(short[2].range.start_byte, 28);
}

#[test]
fn every_fragment_of_a_combined_key_stands_in_one_group() {
    let source = b"0123456789012345678901234567890123456789\n";
    let patterns = vec![
        pruner::predicate::PatternInfo {
            properties: vec![property("injection.language", Some("sql")), property("injection.combined", None)],
            predicates: vec![
                predicate("escape!", vec![pruner::predicate::PredicateArg::Capture(0), text_arg("'")]),
            ],
        },
        pruner::predicate::PatternInfo {
            properties: vec![property("injection.language", Some("sql"))],
            predicates: vec![],
        },
    ];
    let matches = vec![
        found(0, vec![capture(0, 12, 14, (10, 30))]),
        found(1, vec![capture(0, 2, 4, (0, 40))]),
        found(0, vec![capture(0, 34, 36, (32, 38))]),
        found(0, vec![capture(0, 20, 24, (10, 30)), capture(0, 11, 13, (10, 30))]),
        found(0, vec![capture(0, 33, 35, (32, 38))]),
        found(0, vec![capture(0, 26, 29, (10, 30))]),
    ];
    let regions = pruner::injections::extract_regions(source, &None, &patterns, 0, None, &matches, &[]);
    assert_eq!(
        regions,
        vec![
            region((11, 0, 11), (29, 0, 29), "sql", &["'"]),
            region((2, 0, 2), (4, 0, 4), "sql", &[]),
            region((33, 0, 33), (36, 0, 36), "sql", &["'"]),
        ]
    );
}

#[test]
fn regions_of_spans_that_lie_apart_lie_apart() {
    let source = b"a:\n  \n  one  \n  b: two\t\nc: three\n";
    let patterns = vec![pruner::predicate::PatternInfo {
        properties: vec![
            property("injection.language", Some("x")),
            property("pruner.injection.indented", None),
        ],
        predicates: vec![],
    }];
    let matches = vec![
        found(0, vec![capture(0, 2, 14, (0, 14))]),
        found(0, vec![capture(0, 14, 23, (14, 24))]),
        found(0, vec![capture(0, 27, 33, (24, 33))]),
    ];
    let regions = pruner::injections::extract_regions(source, &None, &patterns, 0, None, &matches, &[]);
    assert_eq!(regions.len(), 3);
    let spans: Vec<(usize, usize)> =
        regions.iter().map(|region| (region.range.start_byte, region.range.end_byte)).collect();
    assert_eq!(spans, vec![(3, 14), (14, 22), (27, 33)]);
    for (i, first) in regions.iter().enumerate() {
        for second in regions.iter().skip(i + 1) {
            assert!(
                first.range.end_byte <= second.range.start_byte
                    || second.range.end_byte <= first.range.start_byte
            );
        }
    }
}
