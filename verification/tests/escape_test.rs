use pruner::escape::{
    clone_strings, comes_before, contains_string, drop_empty, escape_text, sort_escape_chars,
    unescape_text, union_into,
};

fn strings(items: &[&str]) -> Vec<String> {
    items.iter().map(|item| item.to_string()).collect()
}

#[test]
fn escape_strings_sort_by_length_then_by_bytes() {
    let sorted = sort_escape_chars(&strings(&["b", "\"", "ab", "a", "ab", "${", "abc"]));
    assert_eq!(sorted, strings(&["abc", "${", "ab", "\"", "a", "b"]));
}

#[test]
fn escape_order_counts_bytes_not_characters() {
    assert!(comes_before("\u{e9}", "z"));
    assert!(comes_before("a", "b"));
    assert!(!comes_before("b", "a"));
    assert!(!comes_before("a", "a"));
    assert!(comes_before("aa", "z"));
}

#[test]
fn unescape_drops_the_backslash_of_an_escape() {
    let escapes = strings(&["\""]);
    assert_eq!(unescape_text(r#"say \"hi\" \\ \n"#, &escapes), r#"say "hi" \ \n"#);
}

#[test]
fn unescape_tries_the_escapes_in_order() {
    let escapes = strings(&["${", "$"]);
    assert_eq!(unescape_text(r"\${x} \$y \z", &escapes), r"${x} $y \z");
}

#[test]
fn unescape_keeps_a_final_backslash() {
    assert_eq!(unescape_text("a\\", &strings(&["\""])), "a\\");
    assert_eq!(unescape_text("a\\", &[]), "a\\");
}

#[test]
fn escape_doubles_backslashes_and_marks_escapes() {
    let escapes = strings(&["\""]);
    assert_eq!(escape_text(r#"say "hi" \ \n"#, &escapes), r#"say \"hi\" \\ \\n"#);
}

#[test]
fn escape_takes_the_longest_escape_first() {
    let escapes = sort_escape_chars(&strings(&["$", "${"]));
    assert_eq!(escape_text("${x} $y", &escapes), r"\${x} \$y");
}

#[test]
fn escape_keeps_characters_of_several_bytes() {
    let escapes = strings(&["\u{e9}"]);
    assert_eq!(escape_text("caf\u{e9} \u{1f600}", &escapes), "caf\\\u{e9} \u{1f600}");
    assert_eq!(unescape_text("caf\\\u{e9} \u{1f600}", &escapes), "caf\u{e9} \u{1f600}");
}

#[test]
fn unescape_undoes_escape() {
    let escapes = sort_escape_chars(&strings(&["\"", "${", "$", "''"]));
    for text in [
        "",
        "plain",
        "a \"quoted\" word",
        "back\\slash and \\\" both",
        "${interpolated} and $plain and '' and '",
        "\\\\\\",
        "na\u{ef}ve \"\u{1f600}\"",
    ] {
        let escaped = escape_text(text, &escapes);
        assert_eq!(unescape_text(&escaped, &escapes), text);
    }
}

#[test]
fn an_escape_with_a_backslash_breaks_the_round_trip() {
    let escapes = sort_escape_chars(&strings(&["\"", "\"\\"]));
    let escaped = escape_text("\"\"", &escapes);
    assert_eq!(escaped, "\\\"\\\"");
    assert_eq!(unescape_text(&escaped, &escapes), "\"\\\"");
}

#[test]
fn lists_of_strings_join_as_sets() {
    let mut list = strings(&["a", "b"]);
    union_into(&mut list, &strings(&["b", "c", "c", "a", "d"]));
    assert_eq!(list, strings(&["a", "b", "c", "d"]));
    assert!(contains_string(&list, "c"));
    assert!(!contains_string(&list, "e"));
    assert_eq!(clone_strings(&list), list);
}

#[test]
fn empty_escape_strings_are_dropped() {
    assert_eq!(drop_empty(&strings(&["a", "", "bc", ""])), strings(&["a", "bc"]));
}

#[test]
fn an_escape_that_begins_with_a_backslash_is_never_found() {
    let lone = strings(&["\\"]);
    for text in ["", "\\", "a\\b", "\\\\", "a\\\\b\\"] {
        let escaped = escape_text(text, &lone);
        assert_eq!(escaped, text.replace('\\', "\\\\"));
        assert_eq!(unescape_text(&escaped, &lone), text);
    }
    let led = sort_escape_chars(&strings(&["\\n", "\""]));
    for text in ["say \"hi\"\\n", "\\n\\n", "\"\\\""] {
        assert_eq!(unescape_text(&escape_text(text, &led), &led), text);
    }
}
