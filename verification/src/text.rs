//! Column, line and indentation arithmetic on document text.
//!
//! Byte buffers are modelled as `Seq<u8>`, strings as the `Seq<char>` of their characters.
use crate::range::Point;
use crate::strings::{from_chars, to_chars};
use vstd::prelude::*;

verus! {

/// The line feed byte.
pub const LINE_FEED: u8 = 10;

/// The carriage return byte.
pub const CARRIAGE_RETURN: u8 = 13;

/// The space byte.
pub const SPACE: u8 = 32;

/// The horizontal tab byte.
pub const TAB: u8 = 9;

/// A byte that ends a line: line feed or carriage return.
pub open spec fn is_line_break(byte: u8) -> bool {
    byte == LINE_FEED || byte == CARRIAGE_RETURN
}

/// The smaller of `i` and `len`.
pub open spec fn clamp(i: int, len: int) -> int {
    if i < len {
        i
    } else {
        len
    }
}

/// Where the line that holds position `pos` begins: just after the last line feed
/// before `pos`, or 0 where there is none.
pub open spec fn line_start(s: Seq<u8>, pos: int) -> int
    decreases pos,
{
    if pos <= 0 {
        0
    } else if s[pos - 1] == LINE_FEED {
        pos
    } else {
        line_start(s, pos - 1)
    }
}

/// `line_start` is the one position at or before `pos` that follows a line feed (or is 0)
/// with no line feed between it and `pos`.
pub proof fn lemma_line_start(s: Seq<u8>, pos: int)
    requires
        0 <= pos <= s.len(),
    ensures
        0 <= line_start(s, pos) <= pos,
        forall|j: int| line_start(s, pos) <= j < pos ==> s[j] != LINE_FEED,
        line_start(s, pos) == 0 || s[line_start(s, pos) - 1] == LINE_FEED,
    decreases pos,
{
    if pos > 0 && s[pos - 1] != LINE_FEED {
        lemma_line_start(s, pos - 1);
    }
}

/// The byte column of position `pos`: its distance from the start of its line.
pub open spec fn column_at(s: Seq<u8>, pos: int) -> int {
    pos - line_start(s, pos)
}

/// The number of line feeds in `s`.
pub open spec fn count_line_feeds(s: Seq<u8>) -> nat
    decreases s.len(),
{
    if s.len() == 0 {
        0
    } else {
        count_line_feeds(s.drop_last()) + if s.last() == LINE_FEED {
            1nat
        } else {
            0nat
        }
    }
}

/// The point of position `pos`: the line feeds before it and its byte column.
pub open spec fn point_at(s: Seq<u8>, pos: int) -> Point {
    Point { row: count_line_feeds(s.take(pos)) as usize, column: column_at(s, pos) as usize }
}

/// The number of line feeds in a buffer is at most its length.
pub proof fn lemma_count_line_feeds_bound(s: Seq<u8>)
    ensures
        count_line_feeds(s) <= s.len(),
    decreases s.len(),
{
    if s.len() > 0 {
        lemma_count_line_feeds_bound(s.drop_last());
    }
}

/// The byte column of `byte_index`, clamped to the end of `source`.
pub fn column_for_byte(source: &[u8], byte_index: usize) -> (column: usize)
    ensures
        column == column_at(source@, clamp(byte_index as int, source.len() as int)),
        column <= clamp(byte_index as int, source.len() as int),
{
    let target = if byte_index < source.len() {
        byte_index
    } else {
        source.len()
    };
    let mut start = target;
    while start > 0 && source[start - 1] != LINE_FEED
        invariant
            start <= target <= source.len(),
            line_start(source@, target as int) == line_start(source@, start as int),
        decreases start,
    {
        start -= 1;
    }
    target - start
}

/// The point of `byte_index`, clamped to the end of `source`.
pub fn point_for_byte(source: &[u8], byte_index: usize) -> (point: Point)
    ensures
        point == point_at(source@, clamp(byte_index as int, source.len() as int)),
        point.row <= clamp(byte_index as int, source.len() as int),
        point.column <= clamp(byte_index as int, source.len() as int),
{
    let target = if byte_index < source.len() {
        byte_index
    } else {
        source.len()
    };
    let mut row: usize = 0;
    let mut column: usize = 0;
    let mut i: usize = 0;
    while i < target
        invariant
            i <= target <= source.len(),
            row == count_line_feeds(source@.take(i as int)),
            column == column_at(source@, i as int),
            row <= i,
            column <= i,
        decreases target - i,
    {
        proof {
            assert(source@.take(i as int + 1).drop_last() == source@.take(i as int));
        }
        if source[i] == LINE_FEED {
            row += 1;
            column = 0;
        } else {
            column += 1;
        }
        i += 1;
    }
    Point { row, column }
}

/// How many line-break bytes end `s`.
pub open spec fn trailing_break_count(s: Seq<u8>) -> nat
    decreases s.len(),
{
    if s.len() > 0 && is_line_break(s.last()) {
        1 + trailing_break_count(s.drop_last())
    } else {
        0
    }
}

/// The line breaks at the end of a buffer are a suffix of it, and the byte before them
/// is no line break.
pub proof fn lemma_trailing_break_count(s: Seq<u8>)
    ensures
        trailing_break_count(s) <= s.len(),
        forall|j: int| s.len() - trailing_break_count(s) <= j < s.len() ==> is_line_break(s[j]),
        trailing_break_count(s) < s.len() ==> !is_line_break(
            s[s.len() - trailing_break_count(s) - 1],
        ),
    decreases s.len(),
{
    if s.len() > 0 && is_line_break(s.last()) {
        let shorter = s.drop_last();
        lemma_trailing_break_count(shorter);
        assert forall|j: int| s.len() - trailing_break_count(s) <= j < s.len() implies is_line_break(
            s[j],
        ) by {
            if j < shorter.len() {
                assert(s[j] == shorter[j]);
            }
        }
    }
}

/// The longest suffix of `s` made of line-break bytes.
pub open spec fn trailing_newlines_of(s: Seq<u8>) -> Seq<u8> {
    s.skip(s.len() - trailing_break_count(s))
}

/// `s` without its trailing line-break bytes.
pub open spec fn without_trailing_newlines(s: Seq<u8>) -> Seq<u8> {
    s.take(s.len() - trailing_break_count(s))
}

/// The index at which the trailing line breaks of `data` begin.
fn trailing_break_start(data: &[u8]) -> (index: usize)
    ensures
        index == data.len() - trailing_break_count(data@),
{
    let mut index = data.len();
    proof {
        assert(data@.take(index as int) == data@);
    }
    while index > 0 && (data[index - 1] == LINE_FEED || data[index - 1] == CARRIAGE_RETURN)
        invariant
            index <= data.len(),
            trailing_break_count(data@) == trailing_break_count(data@.take(index as int)) + (
            data.len() - index),
        decreases index,
    {
        proof {
            assert(data@.take(index as int).drop_last() == data@.take(index as int - 1));
        }
        index -= 1;
    }
    index
}

/// The suffix of `data` that consists of line feeds and carriage returns.
pub fn trailing_newlines(data: &[u8]) -> (suffix: Vec<u8>)
    ensures
        suffix@ == trailing_newlines_of(data@),
{
    let index = trailing_break_start(data);
    let mut suffix: Vec<u8> = Vec::new();
    let mut i = index;
    while i < data.len()
        invariant
            index <= i <= data.len(),
            suffix@ == data@.subrange(index as int, i as int),
        decreases data.len() - i,
    {
        suffix.push(data[i]);
        proof {
            assert(data@.subrange(index as int, i as int + 1) == data@.subrange(
                index as int,
                i as int,
            ).push(data@[i as int]));
        }
        i += 1;
    }
    proof {
        assert(data@.subrange(index as int, data.len() as int) == data@.skip(index as int));
    }
    suffix
}

/// Removes every trailing line feed and carriage return.
pub fn strip_trailing_newlines(data: &mut Vec<u8>)
    ensures
        final(data)@ == without_trailing_newlines(old(data)@),
{
    let index = trailing_break_start(data.as_slice());
    data.truncate(index);
}

/// `n` space bytes.
pub open spec fn spaces(n: nat) -> Seq<u8> {
    Seq::new(n, |i: int| SPACE)
}

/// The byte at `i` is a line feed that is followed by text: by a byte that is no line
/// break.
pub open spec fn starts_text_line(s: Seq<u8>, i: int) -> bool {
    s[i] == LINE_FEED && i + 1 < s.len() && !is_line_break(s[i + 1])
}

/// The first `upto` bytes of `s`, with `n` spaces inserted after each line feed that is
/// followed by text.
pub open spec fn offset_lines_upto(s: Seq<u8>, n: nat, upto: int) -> Seq<u8>
    decreases upto,
{
    if upto <= 0 {
        Seq::empty()
    } else {
        offset_lines_upto(s, n, upto - 1).push(s[upto - 1]) + if starts_text_line(s, upto - 1) {
            spaces(n)
        } else {
            Seq::empty()
        }
    }
}

/// `s` with `n` spaces inserted after each line feed, but for the line feeds that are
/// followed by a line feed, a carriage return or the end of the buffer.
pub open spec fn offset_lines_of(s: Seq<u8>, n: nat) -> Seq<u8> {
    offset_lines_upto(s, n, s.len() as int)
}

/// Appends `count` space bytes.
pub fn push_spaces(data: &mut Vec<u8>, count: usize)
    ensures
        final(data)@ == old(data)@ + spaces(count as nat),
{
    let mut i: usize = 0;
    proof {
        assert(data@ == old(data)@ + spaces(0));
    }
    while i < count
        invariant
            i <= count,
            data@ == old(data)@ + spaces(i as nat),
        decreases count - i,
    {
        data.push(SPACE);
        proof {
            assert(spaces(i as nat + 1) == spaces(i as nat).push(SPACE));
            assert(data@ == old(data)@ + spaces(i as nat + 1));
        }
        i += 1;
    }
}

/// Re-indents continuation lines: inserts `offset` spaces after every line feed
/// that is followed by text. Blank lines stay as they are.
pub fn offset_lines(data: &mut Vec<u8>, offset: usize)
    ensures
        final(data)@ == offset_lines_of(old(data)@, offset as nat),
{
    let mut out: Vec<u8> = Vec::new();
    let mut i: usize = 0;
    while i < data.len()
        invariant
            i <= data.len(),
            data@ == old(data)@,
            out@ == offset_lines_upto(data@, offset as nat, i as int),
        decreases data.len() - i,
    {
        let byte = data[i];
        out.push(byte);
        if byte == LINE_FEED && i + 1 < data.len() && data[i + 1] != LINE_FEED && data[i + 1]
            != CARRIAGE_RETURN {
            push_spaces(&mut out, offset);
        } else {
            proof {
                assert(out@ == out@ + Seq::<u8>::empty());
            }
        }
        i += 1;
    }
    *data = out;
}

/// A character with the Unicode property `White_Space`.
pub open spec fn is_whitespace(c: char) -> bool {
    let u = c as u32;
    (0x09 <= u && u <= 0x0D) || u == 0x20 || u == 0x85 || u == 0xA0 || u == 0x1680 || (0x2000
        <= u && u <= 0x200A) || u == 0x2028 || u == 0x2029 || u == 0x202F || u == 0x205F || u
        == 0x3000
}

/// Tells whether `c` has the Unicode property `White_Space`.
pub fn char_is_whitespace(c: char) -> (r: bool)
    ensures
        r == is_whitespace(c),
{
    let u: u32 = c as u32;
    (0x09 <= u && u <= 0x0D) || u == 0x20 || u == 0x85 || u == 0xA0 || u == 0x1680 || (0x2000
        <= u && u <= 0x200A) || u == 0x2028 || u == 0x2029 || u == 0x202F || u == 0x205F || u
        == 0x3000
}

/// Where the line that begins at `from` ends: the index of the first line feed at or
/// after `from`, or the length of the text.
pub open spec fn line_end(s: Seq<char>, from: int) -> int
    decreases s.len() - from,
{
    if from >= s.len() {
        s.len() as int
    } else if s[from] == '\n' {
        from
    } else {
        line_end(s, from + 1)
    }
}

/// `line_end` is the first line feed at or after `from`.
pub proof fn lemma_line_end(s: Seq<char>, from: int)
    requires
        0 <= from <= s.len(),
    ensures
        from <= line_end(s, from) <= s.len(),
        forall|j: int| from <= j < line_end(s, from) ==> s[j] != '\n',
        line_end(s, from) < s.len() ==> s[line_end(s, from)] == '\n',
    decreases s.len() - from,
{
    if from < s.len() && s[from] != '\n' {
        lemma_line_end(s, from + 1);
    }
}

/// How many spaces stand in a row from `from` on, before `to`.
pub open spec fn space_run(s: Seq<char>, from: int, to: int) -> int
    decreases to - from,
{
    if 0 <= from < to && from < s.len() && s[from] == ' ' {
        1 + space_run(s, from + 1, to)
    } else {
        0
    }
}

/// `space_run` counts exactly the spaces in front of the first other character.
pub proof fn lemma_space_run(s: Seq<char>, from: int, to: int)
    requires
        0 <= from <= to <= s.len(),
    ensures
        0 <= space_run(s, from, to) <= to - from,
        forall|j: int| from <= j < from + space_run(s, from, to) ==> s[j] == ' ',
        from + space_run(s, from, to) < to ==> s[from + space_run(s, from, to)] != ' ',
    decreases to - from,
{
    if from < to && s[from] == ' ' {
        lemma_space_run(s, from + 1, to);
    }
}

/// Every character of `s` in `[from, to)` is white space.
pub open spec fn blank_between(s: Seq<char>, from: int, to: int) -> bool {
    forall|j: int| from <= j < to ==> is_whitespace(#[trigger] s[j])
}

/// The smaller of two optional indents, where an absent one does not count.
pub open spec fn smaller_indent(a: Option<int>, b: Option<int>) -> Option<int> {
    match (a, b) {
        (None, _) => b,
        (_, None) => a,
        (Some(x), Some(y)) => if x <= y {
            a
        } else {
            b
        },
    }
}

/// The indent of the line in `[from, end)`: its leading spaces, or nothing for a blank
/// line.
pub open spec fn line_indent(s: Seq<char>, from: int, end: int) -> Option<int> {
    if blank_between(s, from, end) {
        None
    } else {
        Some(space_run(s, from, end))
    }
}

/// The least indent among the lines that begin at or after `from`, blank lines left out.
pub open spec fn min_indent_from(s: Seq<char>, from: int) -> Option<int>
    decreases s.len() - from,
{
    if from >= s.len() {
        None
    } else {
        let end = line_end(s, from);
        let rest = if from <= end < s.len() {
            min_indent_from(s, end + 1)
        } else {
            None
        };
        smaller_indent(line_indent(s, from, end), rest)
    }
}

/// The least count of leading spaces over the lines of `s` that are not blank; 0 where
/// every line is blank.
pub open spec fn min_leading_indent_of(s: Seq<char>) -> int {
    match min_indent_from(s, 0) {
        Some(indent) => indent,
        None => 0,
    }
}

/// The index of the first line feed at or after `from`, or the length of `chars`.
fn find_line_end(chars: &[char], from: usize) -> (end: usize)
    requires
        from <= chars.len(),
    ensures
        end == line_end(chars@, from as int),
        from <= end <= chars.len(),
{
    let mut end = from;
    while end < chars.len() && chars[end] != '\n'
        invariant
            from <= end <= chars.len(),
            line_end(chars@, from as int) == line_end(chars@, end as int),
        decreases chars.len() - end,
    {
        end += 1;
    }
    end
}

/// The number of spaces that stand in a row at `from`, before `to`.
fn count_space_run(chars: &[char], from: usize, to: usize) -> (count: usize)
    requires
        from <= to <= chars.len(),
    ensures
        count == space_run(chars@, from as int, to as int),
        count <= to - from,
{
    let mut at = from;
    while at < to && chars[at] == ' '
        invariant
            from <= at <= to <= chars.len(),
            space_run(chars@, from as int, to as int) == (at - from) + space_run(
                chars@,
                at as int,
                to as int,
            ),
        decreases to - at,
    {
        at += 1;
    }
    at - from
}

/// Tells whether `chars` holds only white space in `[from, to)`.
fn is_blank_between(chars: &[char], from: usize, to: usize) -> (blank: bool)
    requires
        from <= to <= chars.len(),
    ensures
        blank == blank_between(chars@, from as int, to as int),
{
    let mut at = from;
    while at < to
        invariant
            from <= at <= to <= chars.len(),
            blank_between(chars@, from as int, at as int),
        decreases to - at,
    {
        if !char_is_whitespace(chars[at]) {
            return false;
        }
        at += 1;
    }
    true
}

/// The least count of leading spaces over the lines of `text` that are not blank; 0 where
/// every line is blank.
pub fn min_leading_indent(text: &str) -> (indent: usize)
    ensures
        indent == min_leading_indent_of(text@),
{
    let chars = to_chars(text);
    let mut least: Option<usize> = None;
    let mut from: usize = 0;
    while from < chars.len()
        invariant
            from <= chars.len(),
            chars@ == text@,
            smaller_indent(
                match least {
                    Some(v) => Some(v as int),
                    None => None,
                },
                min_indent_from(chars@, from as int),
            ) == min_indent_from(chars@, 0),
        decreases chars.len() - from,
    {
        let end = find_line_end(chars.as_slice(), from);
        if !is_blank_between(chars.as_slice(), from, end) {
            let here = count_space_run(chars.as_slice(), from, end);
            least =
            match least {
                Some(v) => if v <= here {
                    Some(v)
                } else {
                    Some(here)
                },
                None => Some(here),
            };
        }
        from = if end < chars.len() {
            end + 1
        } else {
            end
        };
    }
    match least {
        Some(v) => v,
        None => 0,
    }
}

/// The smaller of two integers.
pub open spec fn smaller(a: int, b: int) -> int {
    if a <= b {
        a
    } else {
        b
    }
}

/// The text from `from` on, where each line has lost its leading spaces, at most `n` of
/// them. Line feeds stay where they are.
pub open spec fn strip_indent_from(s: Seq<char>, n: int, from: int) -> Seq<char>
    decreases s.len() - from,
{
    if from >= s.len() {
        Seq::empty()
    } else {
        let end = line_end(s, from);
        let line = s.subrange(from + smaller(n, space_run(s, from, end)), end);
        if end >= from && end < s.len() {
            line.push('\n') + strip_indent_from(s, n, end + 1)
        } else {
            line
        }
    }
}

/// `s` where each line has lost its leading spaces, at most `n` of them.
pub open spec fn strip_leading_indent_of(s: Seq<char>, n: int) -> Seq<char> {
    strip_indent_from(s, n, 0)
}

/// Removes up to `indent` leading spaces from every line of `text`. A line with fewer
/// leading spaces loses what it has; the line feeds stay.
pub fn strip_leading_indent(text: &str, indent: usize) -> (stripped: String)
    ensures
        stripped@ == strip_leading_indent_of(text@, indent as int),
{
    let chars = to_chars(text);
    let mut out: Vec<char> = Vec::new();
    let mut from: usize = 0;
    proof {
        assert(out@ + strip_indent_from(chars@, indent as int, 0) == strip_indent_from(
            chars@,
            indent as int,
            0,
        ));
    }
    while from < chars.len()
        invariant
            from <= chars.len(),
            chars@ == text@,
            out@ + strip_indent_from(chars@, indent as int, from as int) == strip_indent_from(
                chars@,
                indent as int,
                0,
            ),
        decreases chars.len() - from,
    {
        let end = find_line_end(chars.as_slice(), from);
        let run = count_space_run(chars.as_slice(), from, end);
        let cut = if indent <= run {
            indent
        } else {
            run
        };
        let ghost before = out@;
        let ghost line = chars@.subrange((from + cut) as int, end as int);
        let mut at = from + cut;
        while at < end
            invariant
                from + cut <= at <= end <= chars.len(),
                out@ == before + chars@.subrange((from + cut) as int, at as int),
            decreases end - at,
        {
            out.push(chars[at]);
            proof {
                assert(chars@.subrange((from + cut) as int, at as int + 1) == chars@.subrange(
                    (from + cut) as int,
                    at as int,
                ).push(chars@[at as int]));
            }
            at += 1;
        }
        if end < chars.len() {
            out.push('\n');
            proof {
                let rest = strip_indent_from(chars@, indent as int, end as int + 1);
                assert(out@ + rest == before + (line.push('\n') + rest));
            }
        } else {
            proof {
                assert(out@ + Seq::<char>::empty() == before + line);
            }
        }
        from = if end < chars.len() {
            end + 1
        } else {
            end
        };
    }
    proof {
        assert(out@ + Seq::<char>::empty() == out@);
    }
    from_chars(out.as_slice())
}

} // verus!

verus! {

/// Indenting a text goes through its parts one by one: up to the end of `first` the
/// result is that of `first` alone, unless `first` ends in a line feed that `second`
/// follows with text.
proof fn lemma_offset_lines_prefix(first: Seq<u8>, second: Seq<u8>, n: nat, upto: int)
    requires
        0 <= upto <= first.len(),
        upto < first.len() || !starts_text_line(first + second, first.len() - 1),
    ensures
        offset_lines_upto(first + second, n, upto) == offset_lines_upto(first, n, upto),
    decreases upto,
{
    if upto > 0 {
        lemma_offset_lines_prefix(first, second, n, upto - 1);
        let whole = first + second;
        assert(whole[upto - 1] == first[upto - 1]);
        if upto < first.len() {
            assert(whole[upto] == first[upto]);
        }
    }
}

/// Behind the end of `first`, the result is that of `first` followed by that of
/// `second` alone.
proof fn lemma_offset_lines_suffix(first: Seq<u8>, second: Seq<u8>, n: nat, upto: int)
    requires
        0 <= upto <= second.len(),
        first.len() == 0 || !starts_text_line(first + second, first.len() - 1),
    ensures
        offset_lines_upto(first + second, n, first.len() + upto) == offset_lines_upto(
            first,
            n,
            first.len() as int,
        ) + offset_lines_upto(second, n, upto),
    decreases upto,
{
    let whole = first + second;
    if upto == 0 {
        if first.len() > 0 {
            lemma_offset_lines_prefix(first, second, n, first.len() as int);
        }
        assert(offset_lines_upto(first, n, first.len() as int) + Seq::<u8>::empty()
            == offset_lines_upto(first, n, first.len() as int));
    } else {
        lemma_offset_lines_suffix(first, second, n, upto - 1);
        let at = first.len() + upto - 1;
        assert(whole[at] == second[upto - 1]);
        if upto < second.len() {
            assert(whole[at + 1] == second[upto]);
        }
        let head = offset_lines_upto(first, n, first.len() as int);
        let tail = offset_lines_upto(second, n, upto - 1);
        let gap = if starts_text_line(second, upto - 1) {
            spaces(n)
        } else {
            Seq::empty()
        };
        assert((head + tail).push(second[upto - 1]) + gap == head + (tail.push(second[upto - 1])
            + gap));
    }
}

/// Blank lines are not indented. Where `rest` is empty or begins with a line feed or a
/// carriage return, the line feed in front of it gets no spaces behind it: the text up
/// to that line feed and the text behind it are indented each on its own, whatever the
/// number of spaces.
pub proof fn offset_lines_keeps_blank_lines(text: Seq<u8>, rest: Seq<u8>, n: nat)
    requires
        rest.len() == 0 || is_line_break(rest[0]),
    ensures
        offset_lines_of(text.push(LINE_FEED) + rest, n) == offset_lines_of(text.push(LINE_FEED), n)
            + offset_lines_of(rest, n),
{
    let first = text.push(LINE_FEED);
    let whole = first + rest;
    if rest.len() > 0 {
        assert(whole[first.len() as int] == rest[0]);
    }
    lemma_offset_lines_suffix(first, rest, n, rest.len() as int);
}

/// A text in which every line feed is followed by a line feed, a carriage return or
/// the end stays as it is, whatever the number of spaces.
pub proof fn offset_lines_keeps_blank_text(text: Seq<u8>, n: nat)
    requires
        forall|i: int| 0 <= i < text.len() ==> !starts_text_line(text, i),
    ensures
        offset_lines_of(text, n) == text,
{
    lemma_offset_lines_plain(text, n, text.len() as int);
    assert(text.take(text.len() as int) == text);
}

proof fn lemma_offset_lines_plain(text: Seq<u8>, n: nat, upto: int)
    requires
        0 <= upto <= text.len(),
        forall|i: int| 0 <= i < upto ==> !starts_text_line(text, i),
    ensures
        offset_lines_upto(text, n, upto) == text.take(upto),
    decreases upto,
{
    if upto > 0 {
        lemma_offset_lines_plain(text, n, upto - 1);
        assert(text.take(upto - 1).push(text[upto - 1]) + Seq::<u8>::empty() == text.take(upto));
    } else {
        assert(text.take(0) == Seq::<u8>::empty());
    }
}

/// With no spaces to insert, a text stays as it is.
pub proof fn offset_lines_by_nothing(text: Seq<u8>)
    ensures
        offset_lines_of(text, 0) == text,
{
    lemma_offset_lines_zero(text, text.len() as int);
    assert(text.take(text.len() as int) == text);
}

proof fn lemma_offset_lines_zero(text: Seq<u8>, upto: int)
    requires
        0 <= upto <= text.len(),
    ensures
        offset_lines_upto(text, 0, upto) == text.take(upto),
    decreases upto,
{
    if upto > 0 {
        lemma_offset_lines_zero(text, upto - 1);
        assert(spaces(0) == Seq::<u8>::empty());
        assert(text.take(upto - 1).push(text[upto - 1]) + Seq::<u8>::empty() == text.take(upto));
    } else {
        assert(text.take(0) == Seq::<u8>::empty());
    }
}

/// A text is its part without the trailing line breaks followed by those line breaks.
pub proof fn lemma_trailing_newlines_split(text: Seq<u8>)
    ensures
        without_trailing_newlines(text) + trailing_newlines_of(text) == text,
{
    lemma_trailing_break_count(text);
    assert(without_trailing_newlines(text) + trailing_newlines_of(text) =~= text);
}

/// Points follow positions: a position that is not behind another has a point that is
/// not behind the other's, rows first and columns second.
pub proof fn lemma_point_at_monotone(s: Seq<u8>, first: int, second: int)
    requires
        0 <= first <= second <= s.len(),
        s.len() <= usize::MAX,
    ensures
        point_at(s, first).le(point_at(s, second)),
    decreases second - first,
{
    lemma_count_line_feeds_bound(s.take(first));
    lemma_count_line_feeds_bound(s.take(second));
    lemma_line_start(s, first);
    lemma_line_start(s, second);
    if first < second {
        lemma_point_at_monotone(s, first, second - 1);
        lemma_count_line_feeds_bound(s.take(second - 1));
        lemma_line_start(s, second - 1);
        assert(s.take(second).drop_last() == s.take(second - 1));
        assert(s.take(second).last() == s[second - 1]);
    }
}

/// The point of a position does not depend on what follows the position.
pub proof fn lemma_point_at_prefix(s: Seq<u8>, more: Seq<u8>, pos: int)
    requires
        0 <= pos <= s.len(),
    ensures
        point_at(s + more, pos) == point_at(s, pos),
{
    assert((s + more).take(pos) =~= s.take(pos));
    lemma_line_start_prefix(s, more, pos);
}

proof fn lemma_line_start_prefix(s: Seq<u8>, more: Seq<u8>, pos: int)
    requires
        0 <= pos <= s.len(),
    ensures
        line_start(s + more, pos) == line_start(s, pos),
    decreases pos,
{
    if pos > 0 {
        assert((s + more)[pos - 1] == s[pos - 1]);
        lemma_line_start_prefix(s, more, pos - 1);
    }
}

/// The spaces that indenting puts between two texts that stand one behind the other:
/// `n` spaces where the first ends in a line feed and the second begins with text, none
/// otherwise.
pub open spec fn junction(first: Seq<u8>, second: Seq<u8>, n: nat) -> Seq<u8> {
    if first.len() > 0 && first.last() == LINE_FEED && second.len() > 0 && !is_line_break(
        second[0],
    ) {
        spaces(n)
    } else {
        Seq::empty()
    }
}

proof fn lemma_offset_lines_joined(first: Seq<u8>, second: Seq<u8>, n: nat, upto: int)
    requires
        0 <= upto <= second.len(),
    ensures
        offset_lines_upto(first + second, n, first.len() + upto) == offset_lines_of(first, n)
            + junction(first, second, n) + offset_lines_upto(second, n, upto),
    decreases upto,
{
    let whole = first + second;
    let head = offset_lines_of(first, n) + junction(first, second, n);
    if upto == 0 {
        if first.len() > 0 {
            let k = first.len() as int;
            lemma_offset_lines_prefix(first, second, n, k - 1);
            assert(whole[k - 1] == first[k - 1]);
            if second.len() > 0 {
                assert(whole[k] == second[0]);
            }
            assert(!starts_text_line(first, k - 1));
            assert(offset_lines_upto(first, n, k) == offset_lines_upto(first, n, k - 1).push(
                first[k - 1],
            ) + Seq::<u8>::empty());
            assert(offset_lines_upto(first, n, k - 1).push(first[k - 1]) + Seq::<u8>::empty()
                + junction(first, second, n) =~= offset_lines_upto(first, n, k - 1).push(
                first[k - 1],
            ) + junction(first, second, n));
        } else {
            assert(whole =~= second);
        }
        assert(head + Seq::<u8>::empty() == head);
    } else {
        lemma_offset_lines_joined(first, second, n, upto - 1);
        let at = first.len() + upto - 1;
        assert(whole[at] == second[upto - 1]);
        if upto < second.len() {
            assert(whole[at + 1] == second[upto]);
        }
        let tail = offset_lines_upto(second, n, upto - 1);
        let gap = if starts_text_line(second, upto - 1) {
            spaces(n)
        } else {
            Seq::empty()
        };
        assert((head + tail).push(second[upto - 1]) + gap == head + (tail.push(second[upto - 1])
            + gap));
    }
}

/// Indenting goes through a text part by part: the result for two texts that stand one
/// behind the other is the result for the first, the spaces at their junction, and the
/// result for the second.
pub proof fn offset_lines_of_parts(first: Seq<u8>, second: Seq<u8>, n: nat)
    ensures
        offset_lines_of(first + second, n) == offset_lines_of(first, n) + junction(
            first,
            second,
            n,
        ) + offset_lines_of(second, n),
{
    lemma_offset_lines_joined(first, second, n, second.len() as int);
}

/// Line breaks at the end of a text are counted from its last byte back: text in front
/// that does not end in a line break adds nothing to the count.
pub proof fn lemma_trailing_breaks_behind(front: Seq<u8>, text: Seq<u8>)
    requires
        front.len() == 0 || !is_line_break(front.last()),
    ensures
        trailing_break_count(front + text) == trailing_break_count(text),
    decreases text.len(),
{
    let whole = front + text;
    if text.len() == 0 {
        assert(whole =~= front);
    } else {
        assert(whole.last() == text.last());
        assert(whole.drop_last() =~= front + text.drop_last());
        if is_line_break(text.last()) {
            lemma_trailing_breaks_behind(front, text.drop_last());
        }
    }
}

} // verus!
