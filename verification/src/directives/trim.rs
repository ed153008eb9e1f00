//! The `trim!` directive: narrows a span by dropping blank lines or white space at
//! either end.
use crate::predicate::{same_text, Predicate, PredicateArg};
use crate::text::{CARRIAGE_RETURN, LINE_FEED, SPACE, TAB};
use std::collections::HashMap;
use vstd::prelude::*;

verus! {

/// Which of the four trims to apply.
#[derive(Clone, Copy, Debug, PartialEq, Eq, Structural)]
pub struct TrimSpec {
    pub start_linewise: bool,
    pub start_charwise: bool,
    pub end_linewise: bool,
    pub end_charwise: bool,
}

impl TrimSpec {
    /// The trim of a `trim!` that names only its capture: blank lines at the end.
    pub fn default_end_linewise_only() -> (spec: Self)
        ensures
            spec == (TrimSpec {
                start_linewise: false,
                start_charwise: false,
                end_linewise: true,
                end_charwise: false,
            }),
    {
        Self { start_linewise: false, start_charwise: false, end_linewise: true, end_charwise: false }
    }
}

/// A byte that may stand in a blank line: space, tab or carriage return.
pub open spec fn is_blank_byte(byte: u8) -> bool {
    byte == SPACE || byte == TAB || byte == CARRIAGE_RETURN
}

/// A white-space byte: space, tab, line feed or carriage return.
pub open spec fn is_space_byte(byte: u8) -> bool {
    byte == SPACE || byte == TAB || byte == LINE_FEED || byte == CARRIAGE_RETURN
}

/// Every byte of `s` is a blank byte.
pub open spec fn all_blank(s: Seq<u8>) -> bool {
    forall|i: int| 0 <= i < s.len() ==> is_blank_byte(#[trigger] s[i])
}

/// The first position in `[start, end)` that holds no white space, or `end`.
pub open spec fn skip_space_forward(s: Seq<u8>, start: int, end: int) -> int
    decreases end - start,
{
    if start < end && is_space_byte(s[start]) {
        skip_space_forward(s, start + 1, end)
    } else {
        start
    }
}

/// The position just behind the last byte of `[start, end)` that is no white space, or
/// `start`.
pub open spec fn skip_space_backward(s: Seq<u8>, start: int, end: int) -> int
    decreases end - start,
{
    if start < end && is_space_byte(s[end - 1]) {
        skip_space_backward(s, start, end - 1)
    } else {
        end
    }
}

/// Where the line that holds `pos` begins, looking no further back than `start`.
pub open spec fn line_start_within(s: Seq<u8>, start: int, pos: int) -> int
    decreases pos - start,
{
    if pos <= start {
        start
    } else if s[pos - 1] == LINE_FEED {
        pos
    } else {
        line_start_within(s, start, pos - 1)
    }
}

/// The index of the first line feed in `[from, end)`, or `end`.
pub open spec fn next_line_feed(s: Seq<u8>, from: int, end: int) -> int
    decreases end - from,
{
    if from >= end {
        end
    } else if s[from] == LINE_FEED {
        from
    } else {
        next_line_feed(s, from + 1, end)
    }
}

/// The start of `[start, end)` moved past its leading blank lines: to the start of the
/// first line that holds more than blank bytes, or to `end` where there is none.
pub open spec fn trim_start_linewise_of(s: Seq<u8>, start: int, end: int) -> int {
    let text = skip_space_forward(s, start, end);
    if text >= end {
        end
    } else {
        line_start_within(s, start, text)
    }
}

/// The end of `[start, end)` pulled back over its trailing blank lines: to just behind
/// the line feed that ends the last line holding more than blank bytes, to `end` where
/// that line has no line feed, or to `start` where every line is blank.
pub open spec fn trim_end_linewise_of(s: Seq<u8>, start: int, end: int) -> int {
    let text = skip_space_backward(s, start, end);
    if text <= start {
        start
    } else {
        let feed = next_line_feed(s, text, end);
        if feed < end {
            feed + 1
        } else {
            end
        }
    }
}

/// The span `[start, end)` after the trims that `spec` asks for, applied in the order
/// start by lines, start by characters, end by lines, end by characters. A span that is
/// empty, inverted or reaches beyond `s` stays as it is.
pub open spec fn apply_trim_of(s: Seq<u8>, start: int, end: int, spec: TrimSpec) -> (int, int) {
    if start >= end || end > s.len() {
        (start, end)
    } else {
        let by_lines = if spec.start_linewise {
            trim_start_linewise_of(s, start, end)
        } else {
            start
        };
        let new_start = if spec.start_charwise {
            skip_space_forward(s, by_lines, end)
        } else {
            by_lines
        };
        let end_by_lines = if spec.end_linewise {
            trim_end_linewise_of(s, new_start, end)
        } else {
            end
        };
        let new_end = if spec.end_charwise {
            skip_space_backward(s, new_start, end_by_lines)
        } else {
            end_by_lines
        };
        (new_start, new_end)
    }
}

/// What the forward skip skips is white space, and it stops at the first other byte.
pub proof fn lemma_skip_space_forward(s: Seq<u8>, start: int, end: int)
    requires
        0 <= start <= end <= s.len(),
    ensures
        start <= skip_space_forward(s, start, end) <= end,
        forall|i: int| start <= i < skip_space_forward(s, start, end) ==> is_space_byte(s[i]),
        skip_space_forward(s, start, end) < end ==> !is_space_byte(
            s[skip_space_forward(s, start, end)],
        ),
    decreases end - start,
{
    if start < end && is_space_byte(s[start]) {
        lemma_skip_space_forward(s, start + 1, end);
    }
}

/// What the backward skip skips is white space, and it stops behind the last other byte.
pub proof fn lemma_skip_space_backward(s: Seq<u8>, start: int, end: int)
    requires
        0 <= start <= end <= s.len(),
    ensures
        start <= skip_space_backward(s, start, end) <= end,
        forall|i: int| skip_space_backward(s, start, end) <= i < end ==> is_space_byte(s[i]),
        start < skip_space_backward(s, start, end) ==> !is_space_byte(
            s[skip_space_backward(s, start, end) - 1],
        ),
    decreases end - start,
{
    if start < end && is_space_byte(s[end - 1]) {
        lemma_skip_space_backward(s, start, end - 1);
    }
}

/// The start of a line within a span follows a line feed or is the span's start, and no
/// line feed lies between it and the position asked for.
pub proof fn lemma_line_start_within(s: Seq<u8>, start: int, pos: int)
    requires
        0 <= start <= pos <= s.len(),
    ensures
        start <= line_start_within(s, start, pos) <= pos,
        forall|i: int| line_start_within(s, start, pos) <= i < pos ==> s[i] != LINE_FEED,
        line_start_within(s, start, pos) == start || s[line_start_within(s, start, pos) - 1]
            == LINE_FEED,
    decreases pos - start,
{
    if pos > start && s[pos - 1] != LINE_FEED {
        lemma_line_start_within(s, start, pos - 1);
    }
}

/// The next line feed of a span is its first one.
pub proof fn lemma_next_line_feed(s: Seq<u8>, from: int, end: int)
    requires
        0 <= from <= end <= s.len(),
    ensures
        from <= next_line_feed(s, from, end) <= end,
        forall|i: int| from <= i < next_line_feed(s, from, end) ==> s[i] != LINE_FEED,
        next_line_feed(s, from, end) < end ==> s[next_line_feed(s, from, end)] == LINE_FEED,
    decreases end - from,
{
    if from < end && s[from] != LINE_FEED {
        lemma_next_line_feed(s, from + 1, end);
    }
}

/// Tells whether `bytes` holds only spaces, tabs and carriage returns.
pub fn is_line_whitespace_only(bytes: &[u8]) -> (blank: bool)
    ensures
        blank == all_blank(bytes@),
{
    let mut i: usize = 0;
    while i < bytes.len()
        invariant
            i <= bytes.len(),
            forall|k: int| 0 <= k < i ==> is_blank_byte(#[trigger] bytes@[k]),
        decreases bytes.len() - i,
    {
        let byte = bytes[i];
        if !(byte == SPACE || byte == TAB || byte == CARRIAGE_RETURN) {
            return false;
        }
        i += 1;
    }
    true
}

/// Tells whether `byte` is a space, a tab, a line feed or a carriage return.
pub fn is_charwise_whitespace(byte: u8) -> (space: bool)
    ensures
        space == is_space_byte(byte),
{
    byte == SPACE || byte == TAB || byte == LINE_FEED || byte == CARRIAGE_RETURN
}

/// Moves `start` forward past white space, no further than `end`.
pub fn trim_start_charwise(source: &[u8], start: usize, end: usize) -> (trimmed: usize)
    requires
        start <= end <= source.len(),
    ensures
        trimmed == skip_space_forward(source@, start as int, end as int),
        start <= trimmed <= end,
{
    let mut at = start;
    while at < end && is_charwise_whitespace(source[at])
        invariant
            start <= at <= end <= source.len(),
            skip_space_forward(source@, start as int, end as int) == skip_space_forward(
                source@,
                at as int,
                end as int,
            ),
        decreases end - at,
    {
        at += 1;
    }
    at
}

/// Pulls `end` back over white space, no further than `start`.
pub fn trim_end_charwise(source: &[u8], start: usize, end: usize) -> (trimmed: usize)
    requires
        start <= end <= source.len(),
    ensures
        trimmed == skip_space_backward(source@, start as int, end as int),
        start <= trimmed <= end,
{
    let mut at = end;
    while at > start && is_charwise_whitespace(source[at - 1])
        invariant
            start <= at <= end <= source.len(),
            skip_space_backward(source@, start as int, end as int) == skip_space_backward(
                source@,
                start as int,
                at as int,
            ),
        decreases at - start,
    {
        at -= 1;
    }
    at
}

/// Moves `start` forward past the blank lines that begin `[start, end)`.
pub fn trim_start_linewise(source: &[u8], start: usize, end: usize) -> (trimmed: usize)
    requires
        start <= end <= source.len(),
    ensures
        trimmed == trim_start_linewise_of(source@, start as int, end as int),
        start <= trimmed <= end,
{
    let text = trim_start_charwise(source, start, end);
    if text >= end {
        return end;
    }
    let mut at = text;
    while at > start && source[at - 1] != LINE_FEED
        invariant
            start <= at <= text < end <= source.len(),
            line_start_within(source@, start as int, text as int) == line_start_within(
                source@,
                start as int,
                at as int,
            ),
        decreases at - start,
    {
        at -= 1;
    }
    at
}

/// Pulls `end` back over the blank lines that end `[start, end)`.
pub fn trim_end_linewise(source: &[u8], start: usize, end: usize) -> (trimmed: usize)
    requires
        start <= end <= source.len(),
    ensures
        trimmed == trim_end_linewise_of(source@, start as int, end as int),
        start <= trimmed <= end,
{
    let text = trim_end_charwise(source, start, end);
    if text <= start {
        return start;
    }
    let mut at = text;
    while at < end && source[at] != LINE_FEED
        invariant
            start < text <= at <= end <= source.len(),
            next_line_feed(source@, text as int, end as int) == next_line_feed(
                source@,
                at as int,
                end as int,
            ),
        decreases end - at,
    {
        at += 1;
    }
    if at < end {
        at + 1
    } else {
        end
    }
}

/// Narrows the span `[start_byte, end_byte)` of `source` as `spec` asks. A span that is
/// empty, inverted or reaches beyond `source` is handed back unchanged.
pub fn apply_trim(source: &[u8], start_byte: usize, end_byte: usize, spec: TrimSpec) -> (trimmed: (
    usize,
    usize,
))
    ensures
        (trimmed.0 as int, trimmed.1 as int) == apply_trim_of(
            source@,
            start_byte as int,
            end_byte as int,
            spec,
        ),
        start_byte < end_byte <= source.len() ==> start_byte <= trimmed.0 <= trimmed.1 <= end_byte,
{
    let mut start = start_byte;
    let mut end = end_byte;
    if start >= end || end > source.len() {
        return (start_byte, end_byte);
    }
    if spec.start_linewise {
        start = trim_start_linewise(source, start, end);
    }
    if spec.start_charwise {
        start = trim_start_charwise(source, start, end);
    }
    if spec.end_linewise {
        end = trim_end_linewise(source, start, end);
    }
    if spec.end_charwise {
        end = trim_end_charwise(source, start, end);
    }
    (start, end)
}

/// The truth value that `text` spells: `0` is false and `1` is true.
pub open spec fn bool_int_of(text: Seq<char>) -> Option<bool> {
    if text == seq!['0'] {
        Some(false)
    } else if text == seq!['1'] {
        Some(true)
    } else {
        None
    }
}

/// Reads `0` as false and `1` as true. Nothing else is accepted.
pub fn parse_bool_int(value: &str) -> (parsed: Option<bool>)
    ensures
        parsed == bool_int_of(value@),
{
    proof {
        reveal_strlit("0");
        reveal_strlit("1");
        assert("0"@ =~= seq!['0']);
        assert("1"@ =~= seq!['1']);
    }
    if same_text(value, "0") {
        Some(false)
    } else if same_text(value, "1") {
        Some(true)
    } else {
        None
    }
}

/// The truth value that argument `arg` spells, if it is the string `0` or `1`.
pub open spec fn bool_arg(arg: PredicateArg) -> Option<bool> {
    match arg {
        PredicateArg::String(text) => bool_int_of(text@),
        PredicateArg::Capture(_) => None,
    }
}

/// What a `trim!` predicate with the arguments `args` installs: with a capture alone,
/// the default trim; with a capture and four strings `0` or `1`, the trim they spell;
/// with anything else, nothing.
pub open spec fn trim_directive_of(args: Seq<PredicateArg>) -> Option<(u32, TrimSpec)> {
    if args.len() == 1 {
        match args[0] {
            PredicateArg::Capture(capture) => Some(
                (
                    capture,
                    TrimSpec {
                        start_linewise: false,
                        start_charwise: false,
                        end_linewise: true,
                        end_charwise: false,
                    },
                ),
            ),
            PredicateArg::String(_) => None,
        }
    } else if args.len() == 5 {
        match (args[0], bool_arg(args[1]), bool_arg(args[2]), bool_arg(args[3]), bool_arg(args[4])) {
            (
                PredicateArg::Capture(capture),
                Some(start_linewise),
                Some(start_charwise),
                Some(end_linewise),
                Some(end_charwise),
            ) => Some(
                (capture, TrimSpec { start_linewise, start_charwise, end_linewise, end_charwise }),
            ),
            _ => None,
        }
    } else {
        None
    }
}

/// Reads one argument as `0` or `1`.
fn parse_bool_arg(arg: &PredicateArg) -> (parsed: Option<bool>)
    ensures
        parsed == bool_arg(*arg),
{
    match arg {
        PredicateArg::String(text) => parse_bool_int(text.as_str()),
        PredicateArg::Capture(_) => None,
    }
}

/// Reads the arguments of a `trim!` predicate.
pub fn parse_trim_predicate(pred: &Predicate) -> (parsed: Option<(u32, TrimSpec)>)
    ensures
        parsed == trim_directive_of(pred.args@),
{
    if pred.args.len() == 1 {
        match &pred.args[0] {
            PredicateArg::Capture(capture) => Some(
                (*capture, TrimSpec::default_end_linewise_only()),
            ),
            PredicateArg::String(_) => None,
        }
    } else if pred.args.len() == 5 {
        let capture = match &pred.args[0] {
            PredicateArg::Capture(capture) => *capture,
            PredicateArg::String(_) => {
                return None;
            },
        };
        let start_linewise = match parse_bool_arg(&pred.args[1]) {
            Some(flag) => flag,
            None => {
                return None;
            },
        };
        let start_charwise = match parse_bool_arg(&pred.args[2]) {
            Some(flag) => flag,
            None => {
                return None;
            },
        };
        let end_linewise = match parse_bool_arg(&pred.args[3]) {
            Some(flag) => flag,
            None => {
                return None;
            },
        };
        let end_charwise = match parse_bool_arg(&pred.args[4]) {
            Some(flag) => flag,
            None => {
                return None;
            },
        };
        Some((capture, TrimSpec { start_linewise, start_charwise, end_linewise, end_charwise }))
    } else {
        None
    }
}

/// The trims that the first `upto` predicates install, by capture. A later `trim!` for
/// a capture replaces an earlier one.
pub open spec fn trim_table_upto(predicates: Seq<Predicate>, upto: int) -> Map<u32, TrimSpec>
    decreases upto,
{
    if upto <= 0 {
        Map::empty()
    } else {
        let before = trim_table_upto(predicates, upto - 1);
        let pred = predicates[upto - 1];
        if pred.operator@ == "trim!"@ {
            match trim_directive_of(pred.args@) {
                Some((capture, spec)) => before.insert(capture, spec),
                None => before,
            }
        } else {
            before
        }
    }
}

/// The trims that `predicates` install, by capture.
pub open spec fn trim_table(predicates: Seq<Predicate>) -> Map<u32, TrimSpec> {
    trim_table_upto(predicates, predicates.len() as int)
}

/// Collects the `trim!` directives of a pattern, by the capture each is for.
pub fn collect(predicates: &[Predicate]) -> (table: HashMap<u32, TrimSpec>)
    ensures
        table@ == trim_table(predicates@),
{
    let mut table: HashMap<u32, TrimSpec> = HashMap::new();
    let mut i: usize = 0;
    while i < predicates.len()
        invariant
            i <= predicates.len(),
            table@ == trim_table_upto(predicates@, i as int),
        decreases predicates.len() - i,
    {
        let pred = &predicates[i];
        if same_text(pred.operator.as_str(), "trim!") {
            match parse_trim_predicate(pred) {
                Some((capture, spec)) => {
                    table.insert(capture, spec);
                },
                None => {},
            }
        }
        i += 1;
    }
    table
}

} // verus!
