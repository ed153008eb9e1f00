use pruner::config::FormatterSpec;
use pruner::queries::{is_extending, merge_queries};
use pruner::runner::{decimal, expand_args, replace_all, run_outcome, uses_stdin};

fn spec(stdin: Option<bool>, fail_on_stderr: Option<bool>) -> FormatterSpec {
    FormatterSpec {
        cmd: "prettier".to_string(),
        args: vec![
            "--prose-wrap=always".to_string(),
            "--print-width=$textwidth".to_string(),
            "--parser=$language".to_string(),
            "$file:$file".to_string(),
        ],
        stdin,
        fail_on_stderr,
    }
}

#[test]
fn numbers_are_written_in_decimal() {
    assert_eq!(decimal(0), "0");
    assert_eq!(decimal(7), "7");
    assert_eq!(decimal(80), "80");
    assert_eq!(decimal(1203), "1203");
    assert_eq!(decimal(u32::MAX), "4294967295");
}

#[test]
fn replacing_goes_from_left_to_right_without_overlap() {
    assert_eq!(replace_all("aaa", "aa", "b"), "ba");
    assert_eq!(replace_all("x$y$", "$", "$$"), "x$$y$$");
    assert_eq!(replace_all("abc", "", "-"), "abc");
    assert_eq!(replace_all("", "a", "b"), "");
    assert_eq!(replace_all("h\u{e9}llo h\u{e9}", "h\u{e9}", "H"), "Hllo H");
    for (text, from, to) in [("a.b.c", ".", "::"), ("nothing", "x", "y"), ("xxxx", "xx", "x")] {
        assert_eq!(replace_all(text, from, to), text.replace(from, to));
    }
}

#[test]
fn placeholders_of_arguments_are_filled_in() {
    let args = expand_args(&spec(None, None).args, 77, "typescript", "/tmp/in");
    assert_eq!(
        args,
        vec![
            "--prose-wrap=always".to_string(),
            "--print-width=77".to_string(),
            "--parser=typescript".to_string(),
            "/tmp/in:/tmp/in".to_string(),
        ]
    );
    let chained = expand_args(&["$textwidth $language".to_string()], 1, "$file", "f");
    assert_eq!(chained, vec!["1 f".to_string()]);
}

#[test]
fn formatters_read_their_input_unless_told_otherwise() {
    assert!(uses_stdin(&spec(None, None)));
    assert!(uses_stdin(&spec(Some(true), None)));
    assert!(!uses_stdin(&spec(Some(false), None)));
}

#[test]
fn a_run_that_ended_badly_is_a_failure() {
    assert_eq!(
        run_outcome(&spec(None, None), false, b"out".to_vec(), "boom"),
        Err("Failed to run formatter prettier: boom".to_string())
    );
    assert_eq!(run_outcome(&spec(None, None), true, b"out".to_vec(), "warn"), Ok(b"out".to_vec()));
    assert_eq!(
        run_outcome(&spec(None, Some(false)), true, b"out".to_vec(), "warn"),
        Ok(b"out".to_vec())
    );
    assert_eq!(
        run_outcome(&spec(None, Some(true)), true, b"out".to_vec(), "warn"),
        Err("Failed to run formatter prettier: warn".to_string())
    );
    assert_eq!(run_outcome(&spec(None, Some(true)), true, Vec::new(), ""), Ok(Vec::new()));
}

#[test]
fn queries_are_laid_over_each_other() {
    assert_eq!(merge_queries("", "b"), "b");
    assert_eq!(merge_queries("a", ""), "a");
    assert_eq!(merge_queries("a", "b"), "a\nb");
    assert_eq!(merge_queries("a\n", "b\n"), "a\nb\n");
    assert_eq!(merge_queries("", ""), "");
}

#[test]
fn a_query_says_in_its_first_line_that_it_extends() {
    assert!(is_extending(";; extends\n(a)"));
    assert!(is_extending("  \t;; extends more\n(a)"));
    assert!(is_extending(";; extends"));
    assert!(!is_extending("\n;; extends\n"));
    assert!(!is_extending("; extends\n"));
    assert!(!is_extending(";; extend"));
    assert!(!is_extending(""));
    assert!(!is_extending("(a) ;; extends\n"));
}
