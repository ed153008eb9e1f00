//! The `offset!` directive: moves the two ends of a span by rows and columns.
use crate::directives::trim::next_line_feed;
use crate::predicate::{same_text, Predicate, PredicateArg};
use crate::range::{Point, Range};
use crate::strings::to_chars;
use crate::text::{smaller, LINE_FEED};
use std::collections::HashMap;
use vstd::prelude::*;

verus! {

/// What an `offset!` adds to the rows and columns of a span's two points.
#[derive(Clone, Copy, Debug, PartialEq, Eq, Structural)]
pub struct RangeOffset {
    pub start_row: isize,
    pub start_col: isize,
    pub end_row: isize,
    pub end_col: isize,
}

/// A decimal digit.
pub open spec fn is_digit(c: char) -> bool {
    0x30 <= c as u32 && c as u32 <= 0x39
}

/// Every character of `s` is a decimal digit.
pub open spec fn all_digits(s: Seq<char>) -> bool {
    forall|i: int| 0 <= i < s.len() ==> is_digit(#[trigger] s[i])
}

/// The number that the decimal digits `s` spell.
pub open spec fn digits_value(s: Seq<char>) -> int
    decreases s.len(),
{
    if s.len() == 0 {
        0
    } else {
        digits_value(s.drop_last()) * 10 + (s.last() as u32 - 0x30)
    }
}

/// The signed integer that `s` spells: an optional `+` or `-`, then one decimal digit or
/// more, with a value that fits the machine's signed word. Anything else spells nothing.
pub open spec fn signed_of(s: Seq<char>) -> Option<int> {
    if s.len() == 0 {
        None
    } else {
        let signed = s[0] == '-' || s[0] == '+';
        let digits = if signed {
            s.skip(1)
        } else {
            s
        };
        let value = if s[0] == '-' {
            -digits_value(digits)
        } else {
            digits_value(digits)
        };
        if digits.len() > 0 && all_digits(digits) && isize::MIN <= value <= isize::MAX {
            Some(value)
        } else {
            None
        }
    }
}

proof fn lemma_digits_value_grows(s: Seq<char>, upto: int)
    requires
        all_digits(s),
        0 <= upto <= s.len(),
    ensures
        0 <= digits_value(s.take(upto)) <= digits_value(s),
    decreases s.len() - upto,
{
    if upto < s.len() {
        lemma_digits_value_grows(s, upto + 1);
        assert(s.take(upto + 1).drop_last() == s.take(upto));
        assert(is_digit(s[upto]));
        lemma_digits_value_grows_base(s.take(upto));
    } else {
        assert(s.take(upto) == s);
        lemma_digits_value_grows_base(s);
    }
}

proof fn lemma_digits_value_grows_base(s: Seq<char>)
    requires
        all_digits(s),
    ensures
        0 <= digits_value(s),
    decreases s.len(),
{
    if s.len() > 0 {
        assert(is_digit(s.last()));
        assert(all_digits(s.drop_last())) by {
            assert forall|i: int| 0 <= i < s.drop_last().len() implies is_digit(
                #[trigger] s.drop_last()[i],
            ) by {
                assert(s.drop_last()[i] == s[i]);
            }
        }
        lemma_digits_value_grows_base(s.drop_last());
    }
}

/// Reads a signed decimal integer.
pub fn parse_signed(text: &str) -> (parsed: Option<isize>)
    ensures
        match parsed {
            Some(value) => signed_of(text@) == Some(value as int),
            None => signed_of(text@) is None,
        },
{
    let chars = to_chars(text);
    if chars.len() == 0 {
        return None;
    }
    let negative = chars[0] == '-';
    let first: usize = if chars[0] == '-' || chars[0] == '+' {
        1
    } else {
        0
    };
    if first == chars.len() {
        return None;
    }
    let ghost digits = chars@.skip(first as int);
    let mut acc: isize = 0;
    let mut i: usize = first;
    proof {
        assert(digits.take(0) =~= Seq::<char>::empty());
        assert(chars@.skip(0) == chars@);
    }
    while i < chars.len()
        invariant
            first <= i <= chars.len(),
            first < chars.len(),
            chars@ == text@,
            negative == (chars@[0] == '-'),
            first == if chars@[0] == '-' || chars@[0] == '+' {
                1int
            } else {
                0int
            },
            digits == chars@.skip(first as int),
            all_digits(digits.take(i - first)),
            acc == if negative {
                -digits_value(digits.take(i - first))
            } else {
                digits_value(digits.take(i - first))
            },
        decreases chars.len() - i,
    {
        let c = chars[i];
        let code: u32 = c as u32;
        proof {
            assert(digits[i - first] == c);
        }
        if code < 0x30 || code > 0x39 {
            proof {
                assert(chars@.skip(0) == chars@);
                assert(!is_digit(digits[i - first]));
            }
            return None;
        }
        let digit: i128 = (code - 0x30) as i128;
        let ghost seen = digits.take(i - first);
        let ghost more = digits.take(i - first + 1);
        proof {
            assert(more.drop_last() == seen);
            assert(more.last() == c);
            assert forall|k: int| 0 <= k < more.len() implies is_digit(#[trigger] more[k]) by {
                if k < seen.len() {
                    assert(more[k] == seen[k]);
                }
            }
            lemma_digits_value_grows_base(seen);
        }
        let next: i128 = if negative {
            (acc as i128) * 10 - digit
        } else {
            (acc as i128) * 10 + digit
        };
        if next < isize::MIN as i128 || next > isize::MAX as i128 {
            proof {
                assert(chars@.skip(0) == chars@);
                if all_digits(digits) {
                    lemma_digits_value_grows(digits, i - first + 1);
                }
            }
            return None;
        }
        acc = next as isize;
        i += 1;
    }
    proof {
        assert(digits.take(chars.len() - first) == digits);
        assert(chars@.skip(0) == chars@);
    }
    Some(acc)
}

/// `value` moved by `offset`, where both `value` and the result fit the machine's signed
/// word and the result is not negative.
pub open spec fn shifted(value: int, offset: int) -> Option<int> {
    if value <= isize::MAX && 0 <= value + offset <= isize::MAX {
        Some(value + offset)
    } else {
        None
    }
}

/// Adds a signed offset to a row or column. Gives nothing where the result would be
/// negative or does not fit.
pub fn apply_signed(value: usize, offset: isize) -> (moved: Option<usize>)
    ensures
        match moved {
            Some(v) => shifted(value as int, offset as int) == Some(v as int),
            None => shifted(value as int, offset as int) is None,
        },
{
    if value > isize::MAX as usize {
        return None;
    }
    let sum: i128 = value as i128 + offset as i128;
    if sum < 0 || sum > isize::MAX as i128 {
        return None;
    }
    Some(sum as usize)
}

/// Just behind the line that begins at `from`: behind its line feed, or at the end of
/// the text where it has none.
pub open spec fn segment_end(s: Seq<u8>, from: int) -> int {
    let feed = next_line_feed(s, from, s.len() as int);
    if feed < s.len() {
        feed + 1
    } else {
        s.len() as int
    }
}

/// The byte of row `row` and column `column`, counting rows from the line that begins at
/// `from`. A column beyond the line, its line feed included, counts as the line's end.
/// A row that the text does not have gives nothing.
pub open spec fn point_to_byte_from(s: Seq<u8>, from: int, row: int, column: int) -> Option<int>
    decreases s.len() - from,
{
    if from < 0 || from >= s.len() {
        None
    } else {
        let stop = segment_end(s, from);
        if row <= 0 {
            Some(from + smaller(column, stop - from))
        } else if from < stop <= s.len() {
            point_to_byte_from(s, stop, row - 1, column)
        } else {
            None
        }
    }
}

/// The byte position of `point` in `s`.
pub open spec fn point_to_byte_of(s: Seq<u8>, point: Point) -> Option<int> {
    point_to_byte_from(s, 0, point.row as int, point.column as int)
}

/// The byte position of `point` in `source`: the start of its row plus its column,
/// where a column beyond the row, its line feed included, counts as the row's end. Gives
/// nothing for a row that `source` does not have.
pub fn point_to_byte(source: &[u8], point: Point) -> (byte: Option<usize>)
    ensures
        match byte {
            Some(b) => point_to_byte_of(source@, point) == Some(b as int) && b <= source.len(),
            None => point_to_byte_of(source@, point) is None,
        },
{
    let mut from: usize = 0;
    let mut row: usize = point.row;
    while from < source.len()
        invariant
            from <= source.len(),
            point_to_byte_of(source@, point) == point_to_byte_from(
                source@,
                from as int,
                row as int,
                point.column as int,
            ),
        decreases source.len() - from,
    {
        let mut feed = from;
        while feed < source.len() && source[feed] != LINE_FEED
            invariant
                from <= feed <= source.len(),
                next_line_feed(source@, from as int, source.len() as int) == next_line_feed(
                    source@,
                    feed as int,
                    source.len() as int,
                ),
            decreases source.len() - feed,
        {
            feed += 1;
        }
        let stop = if feed < source.len() {
            feed + 1
        } else {
            source.len()
        };
        if row == 0 {
            let width = stop - from;
            let column = if point.column <= width {
                point.column
            } else {
                width
            };
            return Some(from + column);
        }
        row -= 1;
        from = stop;
    }
    None
}

/// `range` with its points moved by `offset` and its bytes taken from the moved points.
/// Gives nothing where a moved row or column is negative or does not fit, or where
/// a moved row lies beyond the text.
pub open spec fn offset_range_of(s: Seq<u8>, range: Range, offset: RangeOffset) -> Option<Range> {
    match (
        shifted(range.start_point.row as int, offset.start_row as int),
        shifted(range.start_point.column as int, offset.start_col as int),
        shifted(range.end_point.row as int, offset.end_row as int),
        shifted(range.end_point.column as int, offset.end_col as int),
    ) {
        (Some(start_row), Some(start_col), Some(end_row), Some(end_col)) => {
            let start_point = Point { row: start_row as usize, column: start_col as usize };
            let end_point = Point { row: end_row as usize, column: end_col as usize };
            match (point_to_byte_of(s, start_point), point_to_byte_of(s, end_point)) {
                (Some(start_byte), Some(end_byte)) => Some(
                    Range {
                        start_byte: start_byte as usize,
                        end_byte: end_byte as usize,
                        start_point,
                        end_point,
                    },
                ),
                _ => None,
            }
        },
        _ => None,
    }
}

/// Moves the two points of `range` by `offset` and reads its bytes anew from `source`.
pub fn apply_offset_to_range(source: &[u8], range: &Range, offset: &RangeOffset) -> (moved: Option<
    Range,
>)
    ensures
        moved == offset_range_of(source@, *range, *offset),
        moved matches Some(r) ==> r.start_byte <= source.len() && r.end_byte <= source.len(),
{
    let start_row = match apply_signed(range.start_point.row, offset.start_row) {
        Some(v) => v,
        None => {
            return None;
        },
    };
    let start_col = match apply_signed(range.start_point.column, offset.start_col) {
        Some(v) => v,
        None => {
            return None;
        },
    };
    let end_row = match apply_signed(range.end_point.row, offset.end_row) {
        Some(v) => v,
        None => {
            return None;
        },
    };
    let end_col = match apply_signed(range.end_point.column, offset.end_col) {
        Some(v) => v,
        None => {
            return None;
        },
    };
    let start_point = Point { row: start_row, column: start_col };
    let end_point = Point { row: end_row, column: end_col };
    let start_byte = match point_to_byte(source, start_point) {
        Some(v) => v,
        None => {
            return None;
        },
    };
    let end_byte = match point_to_byte(source, end_point) {
        Some(v) => v,
        None => {
            return None;
        },
    };
    Some(Range { start_byte, end_byte, start_point, end_point })
}

/// The signed integer that argument `arg` spells, if it is a string that spells one.
pub open spec fn signed_arg(arg: PredicateArg) -> Option<int> {
    match arg {
        PredicateArg::String(text) => signed_of(text@),
        PredicateArg::Capture(_) => None,
    }
}

/// What an `offset!` predicate with the arguments `args` installs: with a capture and
/// four strings that spell signed integers, the offset they spell; else nothing.
pub open spec fn offset_directive_of(args: Seq<PredicateArg>) -> Option<(u32, RangeOffset)> {
    if args.len() == 5 {
        match (
            args[0],
            signed_arg(args[1]),
            signed_arg(args[2]),
            signed_arg(args[3]),
            signed_arg(args[4]),
        ) {
            (
                PredicateArg::Capture(capture),
                Some(start_row),
                Some(start_col),
                Some(end_row),
                Some(end_col),
            ) => Some(
                (
                    capture,
                    RangeOffset {
                        start_row: start_row as isize,
                        start_col: start_col as isize,
                        end_row: end_row as isize,
                        end_col: end_col as isize,
                    },
                ),
            ),
            _ => None,
        }
    } else {
        None
    }
}

/// Reads one argument as a signed integer.
fn parse_signed_arg(arg: &PredicateArg) -> (parsed: Option<isize>)
    ensures
        match parsed {
            Some(value) => signed_arg(*arg) == Some(value as int),
            None => signed_arg(*arg) is None,
        },
{
    match arg {
        PredicateArg::String(text) => parse_signed(text.as_str()),
        PredicateArg::Capture(_) => None,
    }
}

/// Reads the arguments of an `offset!` predicate.
pub fn parse_offset_predicate(pred: &Predicate) -> (parsed: Option<(u32, RangeOffset)>)
    ensures
        parsed == offset_directive_of(pred.args@),
{
    if pred.args.len() != 5 {
        return None;
    }
    let capture = match &pred.args[0] {
        PredicateArg::Capture(capture) => *capture,
        PredicateArg::String(_) => {
            return None;
        },
    };
    let start_row = match parse_signed_arg(&pred.args[1]) {
        Some(v) => v,
        None => {
            return None;
        },
    };
    let start_col = match parse_signed_arg(&pred.args[2]) {
        Some(v) => v,
        None => {
            return None;
        },
    };
    let end_row = match parse_signed_arg(&pred.args[3]) {
        Some(v) => v,
        None => {
            return None;
        },
    };
    let end_col = match parse_signed_arg(&pred.args[4]) {
        Some(v) => v,
        None => {
            return None;
        },
    };
    Some((capture, RangeOffset { start_row, start_col, end_row, end_col }))
}

/// The offsets that the first `upto` predicates install, by capture. A later `offset!`
/// for a capture replaces an earlier one.
pub open spec fn offset_table_upto(predicates: Seq<Predicate>, upto: int) -> Map<u32, RangeOffset>
    decreases upto,
{
    if upto <= 0 {
        Map::empty()
    } else {
        let before = offset_table_upto(predicates, upto - 1);
        let pred = predicates[upto - 1];
        if pred.operator@ == "offset!"@ {
            match offset_directive_of(pred.args@) {
                Some((capture, offset)) => before.insert(capture, offset),
                None => before,
            }
        } else {
            before
        }
    }
}

/// The offsets that `predicates` install, by capture.
pub open spec fn offset_table(predicates: Seq<Predicate>) -> Map<u32, RangeOffset> {
    offset_table_upto(predicates, predicates.len() as int)
}

/// Collects the `offset!` directives of a pattern, by the capture each is for.
pub fn collect(predicates: &[Predicate]) -> (table: HashMap<u32, RangeOffset>)
    ensures
        table@ == offset_table(predicates@),
{
    let mut table: HashMap<u32, RangeOffset> = HashMap::new();
    let mut i: usize = 0;
    while i < predicates.len()
        invariant
            i <= predicates.len(),
            table@ == offset_table_upto(predicates@, i as int),
        decreases predicates.len() - i,
    {
        let pred = &predicates[i];
        if same_text(pred.operator.as_str(), "offset!") {
            match parse_offset_predicate(pred) {
                Some((capture, offset)) => {
                    table.insert(capture, offset);
                },
                None => {},
            }
        }
        i += 1;
    }
    table
}

} // verus!
