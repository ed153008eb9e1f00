//! The `gsub!` directive: rewrites the name of a language that was read from the
//! document, by a Lua pattern and a replacement.
use crate::directives::offset::is_digit;
use crate::predicate::{same_text, Predicate, PredicateArg};
use crate::strings::{from_chars, to_chars};
use std::collections::HashMap;
use vstd::prelude::*;

verus! {

/// A substitution: the source of a regular expression, and the replacement for each of
/// its matches, in which `$1` to `$9` stand for the groups and `$$` for a dollar sign.
#[derive(Clone, Debug, PartialEq, Eq)]
pub struct GsubRule {
    pub regex: String,
    pub replacement: String,
}

/// The most groups that a pattern may open: the translation numbers the groups of a
/// pattern in a byte, beginning with one.
pub const MAX_GROUPS: usize = 254;

/// The number of opening parentheses among the first `upto` characters of `pattern`.
pub open spec fn groups_upto(pattern: Seq<char>, upto: int) -> nat
    decreases upto,
{
    if upto <= 0 {
        0
    } else {
        groups_upto(pattern, upto - 1) + if pattern[upto - 1] == '(' {
            1nat
        } else {
            0nat
        }
    }
}

/// The number of opening parentheses in `pattern`: no pattern opens more groups.
pub open spec fn open_groups(pattern: Seq<char>) -> nat {
    groups_upto(pattern, pattern.len() as int)
}

/// Counts the opening parentheses in `pattern`.
pub fn count_open_groups(pattern: &str) -> (count: usize)
    ensures
        count == open_groups(pattern@),
{
    let chars = to_chars(pattern);
    let mut count: usize = 0;
    let mut i: usize = 0;
    while i < chars.len()
        invariant
            i <= chars.len(),
            count <= i,
            count == groups_upto(chars@, i as int),
        decreases chars.len() - i,
    {
        if chars[i] == '(' {
            count += 1;
        }
        i += 1;
    }
    count
}

// The source of the regular expression that a Lua pattern translates to, where it has
// one.
pub uninterp spec fn lua_regex_of(pattern: Seq<char>) -> Option<Seq<char>>;

// Whether a text is the source of a regular expression that compiles.
pub uninterp spec fn regex_compiles(source: Seq<char>) -> bool;

// A text in which every match of a regular expression, found from left to right without
// overlap, has given way to the expanded replacement.
pub uninterp spec fn regex_replaced(source: Seq<char>, text: Seq<char>, replacement: Seq<char>) -> Seq<
    char,
>;

/// `lua_pattern::parse`, then `lua_pattern::try_to_regex` without capture references and
/// without lookaround: the regular expression for a Lua pattern. Nothing comes back
/// where the pattern does not parse or has no regular expression. The result depends on
/// the pattern alone. The parser counts the groups in a byte and goes one call deeper for
/// each group that is open, so the pattern may open no more than `MAX_GROUPS`.
#[verifier::external_body]
fn lua_pattern_to_regex(pattern: &str) -> (regex: Option<String>)
    requires
        open_groups(pattern@) <= MAX_GROUPS,
    ensures
        regex matches Some(source) ==> lua_regex_of(pattern@) == Some(source@),
        regex is None ==> lua_regex_of(pattern@) is None,
{
    match lua_pattern::parse(pattern) {
        Ok(tree) => lua_pattern::try_to_regex(&tree, false, false).ok(),
        Err(_) => None,
    }
}

/// `regex::Regex::new`: whether `source` compiles as a regular expression. The answer
/// depends on `source` alone.
#[verifier::external_body]
fn regex_is_valid(source: &str) -> (valid: bool)
    ensures
        valid == regex_compiles(source@),
{
    regex::Regex::new(source).is_ok()
}

/// `regex::Regex::replace_all` on the expression compiled from `source`: `text` with
/// every match replaced. Nothing comes back exactly when `source` does not compile. The
/// result depends on the three texts alone.
#[verifier::external_body]
fn regex_replace_all(source: &str, text: &str, replacement: &str) -> (out: Option<String>)
    ensures
        out is Some <==> regex_compiles(source@),
        out matches Some(replaced) ==> replaced@ == regex_replaced(source@, text@, replacement@),
{
    match regex::Regex::new(source) {
        Ok(compiled) => Some(compiled.replace_all(text, replacement).into_owned()),
        Err(_) => None,
    }
}

/// A Lua replacement in the vocabulary of regular expressions: `%1` to `%9` and `%0`
/// become `$1` to `$9` and `$0`, `%%` becomes `%`, a dollar sign becomes `$$` with or
/// without a `%` in front, `%` in front of any other character gives that character, and
/// a `%` at the very end stays.
pub open spec fn lua_replacement_of(s: Seq<char>) -> Seq<char>
    decreases s.len(),
{
    if s.len() == 0 {
        Seq::empty()
    } else if s[0] == '$' {
        seq!['$', '$'] + lua_replacement_of(s.skip(1))
    } else if s[0] == '%' {
        if s.len() == 1 {
            seq!['%']
        } else {
            escaped_replacement(s[1]) + lua_replacement_of(s.skip(2))
        }
    } else {
        seq![s[0]] + lua_replacement_of(s.skip(1))
    }
}

/// What `%` followed by `next` becomes.
pub open spec fn escaped_replacement(next: char) -> Seq<char> {
    if next == '%' {
        seq!['%']
    } else if is_digit(next) {
        seq!['$', next]
    } else if next == '$' {
        seq!['$', '$']
    } else {
        seq![next]
    }
}

/// Translates the replacement of a Lua `gsub` into a replacement for a regular
/// expression.
pub fn lua_replacement_to_regex(repl: &str) -> (out: String)
    ensures
        out@ == lua_replacement_of(repl@),
{
    let chars = to_chars(repl);
    let mut out: Vec<char> = Vec::new();
    let mut at: usize = 0;
    proof {
        assert(chars@.skip(0) == chars@);
    }
    while at < chars.len()
        invariant
            at <= chars.len(),
            out@ + lua_replacement_of(chars@.skip(at as int)) == lua_replacement_of(chars@),
        decreases chars.len() - at,
    {
        let ghost rest = chars@.skip(at as int);
        let ghost before = out@;
        proof {
            assert(rest[0] == chars@[at as int]);
            assert(rest.skip(1) == chars@.skip(at as int + 1));
        }
        let c = chars[at];
        if c == '$' {
            out.push('$');
            out.push('$');
            proof {
                let tail = lua_replacement_of(rest.skip(1));
                assert(out@ + tail == before + (seq!['$', '$'] + tail));
            }
            at += 1;
        } else if c == '%' {
            if at + 1 == chars.len() {
                out.push('%');
                proof {
                    assert(rest.len() == 1);
                    assert(rest.skip(1).len() == 0);
                    assert(out@ + lua_replacement_of(rest.skip(1)) == before + seq!['%']);
                }
                at += 1;
            } else {
                let next = chars[at + 1];
                let code: u32 = next as u32;
                proof {
                    assert(rest[1] == next);
                    assert(rest.skip(2) == chars@.skip(at as int + 2));
                }
                if next == '%' {
                    out.push('%');
                } else if 0x30 <= code && code <= 0x39 {
                    out.push('$');
                    out.push(next);
                } else if next == '$' {
                    out.push('$');
                    out.push('$');
                } else {
                    out.push(next);
                }
                proof {
                    let tail = lua_replacement_of(rest.skip(2));
                    assert(out@ =~= before + escaped_replacement(next));
                    assert(out@ + tail == before + (escaped_replacement(next) + tail));
                }
                at += 2;
            }
        } else {
            out.push(c);
            proof {
                let tail = lua_replacement_of(rest.skip(1));
                assert(out@ + tail == before + (seq![c] + tail));
            }
            at += 1;
        }
    }
    proof {
        assert(out@ + Seq::<char>::empty() == out@);
    }
    from_chars(out.as_slice())
}

/// A rule as its two texts: the source of the expression and the replacement.
pub open spec fn rule_view(rule: GsubRule) -> (Seq<char>, Seq<char>) {
    (rule.regex@, rule.replacement@)
}

/// The rules of `rules`, each as its two texts.
pub open spec fn rule_views(rules: Seq<GsubRule>) -> Seq<(Seq<char>, Seq<char>)> {
    Seq::new(rules.len(), |i: int| rule_view(rules[i]))
}

/// The rule that a Lua pattern and a Lua replacement give: the pattern translated and
/// the replacement translated, or nothing where the pattern opens more than
/// `MAX_GROUPS` groups, has no regular expression, or that expression does not compile.
pub open spec fn gsub_rule_of(pattern: Seq<char>, replacement: Seq<char>) -> Option<
    (Seq<char>, Seq<char>),
> {
    if open_groups(pattern) > MAX_GROUPS {
        None
    } else {
        match lua_regex_of(pattern) {
            Some(source) => if regex_compiles(source) {
                Some((source, lua_replacement_of(replacement)))
            } else {
                None
            },
            None => None,
        }
    }
}

/// Compiles the rule of one `gsub!`: translates the Lua pattern and the replacement.
pub fn compile_gsub_rule(lua_pattern_src: &str, lua_replacement: &str) -> (rule: Option<GsubRule>)
    ensures
        match rule {
            Some(r) => gsub_rule_of(lua_pattern_src@, lua_replacement@) == Some(rule_view(r)),
            None => gsub_rule_of(lua_pattern_src@, lua_replacement@) is None,
        },
{
    if count_open_groups(lua_pattern_src) > MAX_GROUPS {
        return None;
    }
    let regex = match lua_pattern_to_regex(lua_pattern_src) {
        Some(source) => source,
        None => {
            return None;
        },
    };
    if !regex_is_valid(regex.as_str()) {
        return None;
    }
    Some(GsubRule { regex, replacement: lua_replacement_to_regex(lua_replacement) })
}

/// `text` after one rule: every match replaced, or `text` itself where the rule's
/// expression does not compile.
pub open spec fn replace_with(text: Seq<char>, rule: (Seq<char>, Seq<char>)) -> Seq<char> {
    if regex_compiles(rule.0) {
        regex_replaced(rule.0, text, rule.1)
    } else {
        text
    }
}

/// `text` after the first `upto` rules, each applied to what the one before left.
pub open spec fn apply_rules_upto(text: Seq<char>, rules: Seq<(Seq<char>, Seq<char>)>, upto: int) -> Seq<
    char,
>
    decreases upto,
{
    if upto <= 0 {
        text
    } else {
        replace_with(apply_rules_upto(text, rules, upto - 1), rules[upto - 1])
    }
}

/// `text` after all of `rules`, in their order.
pub open spec fn apply_rules(text: Seq<char>, rules: Seq<(Seq<char>, Seq<char>)>) -> Seq<char> {
    apply_rules_upto(text, rules, rules.len() as int)
}

/// Applies `rules` to `text`, one after the other.
pub fn apply(text: &str, rules: &[GsubRule]) -> (out: String)
    ensures
        out@ == apply_rules(text@, rule_views(rules@)),
{
    let mut out = text.to_owned();
    let mut i: usize = 0;
    while i < rules.len()
        invariant
            i <= rules.len(),
            out@ == apply_rules_upto(text@, rule_views(rules@), i as int),
        decreases rules.len() - i,
    {
        let rule = &rules[i];
        proof {
            assert(rule_views(rules@)[i as int] == rule_view(*rule));
        }
        match regex_replace_all(rule.regex.as_str(), out.as_str(), rule.replacement.as_str()) {
            Some(replaced) => {
                out = replaced;
            },
            None => {},
        }
        i += 1;
    }
    out
}

/// What a `gsub!` predicate with the arguments `args` installs: with a capture, a
/// pattern and a replacement, the capture and the two strings; else nothing.
pub open spec fn gsub_directive_of(args: Seq<PredicateArg>) -> Option<(u32, Seq<char>, Seq<char>)> {
    if args.len() == 3 {
        match (args[0], args[1], args[2]) {
            (
                PredicateArg::Capture(capture),
                PredicateArg::String(pattern),
                PredicateArg::String(replacement),
            ) => Some((capture, pattern@, replacement@)),
            _ => None,
        }
    } else {
        None
    }
}

/// Reads the arguments of a `gsub!` predicate.
pub fn parse_gsub_predicate(pred: &Predicate) -> (parsed: Option<(u32, String, String)>)
    ensures
        match parsed {
            Some((capture, pattern, replacement)) => gsub_directive_of(pred.args@) == Some(
                (capture, pattern@, replacement@),
            ),
            None => gsub_directive_of(pred.args@) is None,
        },
{
    if pred.args.len() != 3 {
        return None;
    }
    match (&pred.args[0], &pred.args[1], &pred.args[2]) {
        (
            PredicateArg::Capture(capture),
            PredicateArg::String(pattern),
            PredicateArg::String(replacement),
        ) => Some((*capture, pattern.clone(), replacement.clone())),
        _ => None,
    }
}

/// The rules of a table for `capture`; none where the table has no entry.
pub open spec fn rules_of(table: Map<u32, Seq<(Seq<char>, Seq<char>)>>, capture: u32) -> Seq<
    (Seq<char>, Seq<char>),
> {
    if table.dom().contains(capture) {
        table[capture]
    } else {
        Seq::empty()
    }
}

/// The rules that the first `upto` predicates install, by capture, in the order of
/// declaration. A `gsub!` whose pattern gives no rule is left out.
pub open spec fn gsub_table_upto(predicates: Seq<Predicate>, upto: int) -> Map<
    u32,
    Seq<(Seq<char>, Seq<char>)>,
>
    decreases upto,
{
    if upto <= 0 {
        Map::empty()
    } else {
        let before = gsub_table_upto(predicates, upto - 1);
        let pred = predicates[upto - 1];
        if pred.operator@ == "gsub!"@ {
            match gsub_directive_of(pred.args@) {
                Some((capture, pattern, replacement)) => match gsub_rule_of(pattern, replacement) {
                    Some(rule) => before.insert(capture, rules_of(before, capture).push(rule)),
                    None => before,
                },
                None => before,
            }
        } else {
            before
        }
    }
}

/// The rules that `predicates` install, by capture.
pub open spec fn gsub_table(predicates: Seq<Predicate>) -> Map<u32, Seq<(Seq<char>, Seq<char>)>> {
    gsub_table_upto(predicates, predicates.len() as int)
}

/// A table of rules by capture, each rule as its two texts.
pub open spec fn gsub_table_views(table: Map<u32, Vec<GsubRule>>) -> Map<
    u32,
    Seq<(Seq<char>, Seq<char>)>,
> {
    Map::new(|capture: u32| table.dom().contains(capture), |capture: u32| rule_views(table[capture]@))
}

/// A copy of `rules`.
fn clone_rules(rules: &[GsubRule]) -> (copy: Vec<GsubRule>)
    ensures
        rule_views(copy@) == rule_views(rules@),
{
    let mut copy: Vec<GsubRule> = Vec::new();
    let mut i: usize = 0;
    while i < rules.len()
        invariant
            i <= rules.len(),
            copy.len() == i,
            forall|k: int| 0 <= k < i ==> rule_view(#[trigger] copy@[k]) == rule_view(rules@[k]),
        decreases rules.len() - i,
    {
        copy.push(
            GsubRule { regex: rules[i].regex.clone(), replacement: rules[i].replacement.clone() },
        );
        i += 1;
    }
    proof {
        assert(rule_views(copy@) =~= rule_views(rules@));
    }
    copy
}

/// Collects the `gsub!` directives of a pattern, by the capture each is for.
pub fn collect(predicates: &[Predicate]) -> (table: HashMap<u32, Vec<GsubRule>>)
    ensures
        gsub_table_views(table@) == gsub_table(predicates@),
{
    let mut table: HashMap<u32, Vec<GsubRule>> = HashMap::new();
    let mut i: usize = 0;
    proof {
        assert(gsub_table_views(table@) =~= Map::empty());
    }
    while i < predicates.len()
        invariant
            i <= predicates.len(),
            gsub_table_views(table@) == gsub_table_upto(predicates@, i as int),
        decreases predicates.len() - i,
    {
        let pred = &predicates[i];
        if same_text(pred.operator.as_str(), "gsub!") {
            match parse_gsub_predicate(pred) {
                Some((capture, pattern, replacement)) => {
                    match compile_gsub_rule(pattern.as_str(), replacement.as_str()) {
                        Some(rule) => {
                            let ghost before = table@;
                            let mut rules = match table.get(&capture) {
                                Some(held) => clone_rules(held.as_slice()),
                                None => Vec::new(),
                            };
                            let ghost held = rule_views(rules@);
                            proof {
                                assert(held =~= rules_of(gsub_table_views(before), capture));
                            }
                            rules.push(rule);
                            proof {
                                assert(rule_views(rules@) =~= held.push(rule_view(rule)));
                            }
                            table.insert(capture, rules);
                            proof {
                                assert(gsub_table_views(table@) =~= gsub_table_views(before).insert(
                                    capture,
                                    rule_views(rules@),
                                ));
                            }
                        },
                        None => {},
                    }
                },
                None => {},
            }
        }
        i += 1;
    }
    table
}

/// Rewrites `text` by the rules that `modifiers` holds for `capture`. Without such
/// rules the text stays as it is.
pub fn apply_gsub(modifiers: &HashMap<u32, Vec<GsubRule>>, capture: u32, text: &str) -> (out: String)
    ensures
        out@ == apply_rules(text@, rules_of(gsub_table_views(modifiers@), capture)),
{
    match modifiers.get(&capture) {
        Some(rules) => apply(text, rules.as_slice()),
        None => text.to_owned(),
    }
}

} // verus!
