//! The `escape!` directive: names the strings that stand escaped, behind a backslash,
//! inside the regions of a capture.
use crate::escape::{clone_strings, string_views, union_into, union_of};
use crate::predicate::{same_text, Predicate, PredicateArg};
use std::collections::HashMap;
use vstd::prelude::*;

verus! {

/// The strings that the arguments `args[1..upto]` hold, each once, or nothing where one
/// of them is a capture.
pub open spec fn escape_strings_upto(args: Seq<PredicateArg>, upto: int) -> Option<Seq<Seq<char>>>
    decreases upto,
{
    if upto <= 1 {
        Some(Seq::empty())
    } else {
        match (escape_strings_upto(args, upto - 1), args[upto - 1]) {
            (Some(before), PredicateArg::String(text)) => Some(
                crate::escape::with_new(before, text@),
            ),
            _ => None,
        }
    }
}

/// What an `escape!` predicate with the arguments `args` installs: with a capture and
/// one string or more, those strings; else nothing.
pub open spec fn escape_directive_of(args: Seq<PredicateArg>) -> Option<(u32, Seq<Seq<char>>)> {
    if args.len() < 2 {
        None
    } else {
        match (args[0], escape_strings_upto(args, args.len() as int)) {
            (PredicateArg::Capture(capture), Some(strings)) => Some((capture, strings)),
            _ => None,
        }
    }
}

/// Reads the arguments of an `escape!` predicate.
pub fn parse_escape_predicate(pred: &Predicate) -> (parsed: Option<(u32, Vec<String>)>)
    ensures
        match parsed {
            Some((capture, strings)) => escape_directive_of(pred.args@) == Some(
                (capture, string_views(strings@)),
            ),
            None => escape_directive_of(pred.args@) is None,
        },
{
    if pred.args.len() < 2 {
        return None;
    }
    let capture = match &pred.args[0] {
        PredicateArg::Capture(capture) => *capture,
        PredicateArg::String(_) => {
            return None;
        },
    };
    let mut strings: Vec<String> = Vec::new();
    let mut i: usize = 1;
    proof {
        assert(string_views(strings@) =~= Seq::<Seq<char>>::empty());
    }
    while i < pred.args.len()
        invariant
            1 <= i <= pred.args.len(),
            escape_strings_upto(pred.args@, i as int) == Some(string_views(strings@)),
        ensures
            i == pred.args.len() ==> escape_strings_upto(pred.args@, pred.args.len() as int)
                == Some(string_views(strings@)),
            i < pred.args.len() ==> escape_strings_upto(pred.args@, pred.args.len() as int)
                is None,
        decreases pred.args.len() - i,
    {
        match &pred.args[i] {
            PredicateArg::String(text) => {
                let ghost before = string_views(strings@);
                if !crate::escape::contains_string(strings.as_slice(), text.as_str()) {
                    strings.push(text.clone());
                    proof {
                        assert(string_views(strings@) =~= before.push(text@));
                    }
                }
            },
            PredicateArg::Capture(_) => {
                proof {
                    lemma_escape_strings_stay_none(pred.args@, i as int + 1, pred.args.len() as int);
                }
                break;
            },
        }
        i += 1;
    }
    if i < pred.args.len() {
        return None;
    }
    Some((capture, strings))
}

proof fn lemma_escape_strings_stay_none(args: Seq<PredicateArg>, from: int, upto: int)
    requires
        1 < from <= upto,
        escape_strings_upto(args, from) is None,
    ensures
        escape_strings_upto(args, upto) is None,
    decreases upto - from,
{
    if from < upto {
        lemma_escape_strings_stay_none(args, from, upto - 1);
    }
}

/// The escape strings that the first `upto` predicates install, by capture. The
/// strings of a later `escape!` for a capture join those of the earlier ones.
pub open spec fn escape_table_upto(predicates: Seq<Predicate>, upto: int) -> Map<
    u32,
    Seq<Seq<char>>,
>
    decreases upto,
{
    if upto <= 0 {
        Map::empty()
    } else {
        let before = escape_table_upto(predicates, upto - 1);
        let pred = predicates[upto - 1];
        if pred.operator@ == "escape!"@ {
            match escape_directive_of(pred.args@) {
                Some((capture, strings)) => before.insert(
                    capture,
                    union_of(
                        if before.dom().contains(capture) {
                            before[capture]
                        } else {
                            Seq::empty()
                        },
                        strings,
                    ),
                ),
                None => before,
            }
        } else {
            before
        }
    }
}

/// The escape strings that `predicates` install, by capture.
pub open spec fn escape_table(predicates: Seq<Predicate>) -> Map<u32, Seq<Seq<char>>> {
    escape_table_upto(predicates, predicates.len() as int)
}

/// A table of strings by capture, each list of strings as the characters of its strings.
pub open spec fn table_views(table: Map<u32, Vec<String>>) -> Map<u32, Seq<Seq<char>>> {
    Map::new(|capture: u32| table.dom().contains(capture), |capture: u32| string_views(table[capture]@))
}

/// Collects the `escape!` directives of a pattern, by the capture each is for.
pub fn collect(predicates: &[Predicate]) -> (table: HashMap<u32, Vec<String>>)
    ensures
        table_views(table@) == escape_table(predicates@),
{
    let mut table: HashMap<u32, Vec<String>> = HashMap::new();
    let mut i: usize = 0;
    proof {
        assert(table_views(table@) =~= Map::empty());
    }
    while i < predicates.len()
        invariant
            i <= predicates.len(),
            table_views(table@) == escape_table_upto(predicates@, i as int),
        decreases predicates.len() - i,
    {
        let pred = &predicates[i];
        if same_text(pred.operator.as_str(), "escape!") {
            match parse_escape_predicate(pred) {
                Some((capture, strings)) => {
                    let ghost before = table@;
                    let mut merged = escape_chars(&table, capture);
                    union_into(&mut merged, strings.as_slice());
                    table.insert(capture, merged);
                    proof {
                        assert(table_views(table@) =~= table_views(before).insert(
                            capture,
                            string_views(merged@),
                        ));
                    }
                },
                None => {},
            }
        }
        i += 1;
    }
    table
}

/// The escape strings of a table for `capture`; none where the table has no entry.
pub open spec fn escape_chars_of(table: Map<u32, Seq<Seq<char>>>, capture: u32) -> Seq<Seq<char>> {
    if table.dom().contains(capture) {
        table[capture]
    } else {
        Seq::empty()
    }
}

/// The escape strings that `modifiers` holds for `capture`.
pub fn escape_chars(modifiers: &HashMap<u32, Vec<String>>, capture: u32) -> (strings: Vec<String>)
    ensures
        string_views(strings@) == escape_chars_of(table_views(modifiers@), capture),
{
    match modifiers.get(&capture) {
        Some(strings) => clone_strings(strings.as_slice()),
        None => {
            let strings: Vec<String> = Vec::new();
            proof {
                assert(string_views(strings@) =~= Seq::<Seq<char>>::empty());
            }
            strings
        },
    }
}

} // verus!
