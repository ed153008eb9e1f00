//! Indentation round trip: when taking the indent off the lines of a text and putting
//! it back gives the text as it was.
use crate::injections::RegionView;
use crate::region::{finished_of, indent_of, job_of, usable_escapes_of, RegionError};
use crate::text::{
    column_at, is_line_break, junction, line_end, offset_lines_of, smaller, space_run, spaces,
    starts_text_line, strip_indent_from, trailing_newlines_of, without_trailing_newlines,
    CARRIAGE_RETURN, LINE_FEED, SPACE,
};
use vstd::prelude::*;
use vstd::utf8::{decode_utf8, encode_scalar, encode_utf8, valid_utf8};

verus! {

/// The line that begins at `from` keeps its indent through stripping and indenting:
/// what stripping takes off its start is what indenting puts back. Indenting puts `n`
/// spaces in front of a line that is `indented` and holds text, which is anything
/// but a carriage return, behind its indent; it puts nothing in front of any other
/// line.
pub open spec fn line_keeps_indent(s: Seq<char>, n: int, from: int, indented: bool) -> bool {
    let end = line_end(s, from);
    let cut = smaller(n, space_run(s, from, end));
    let text_follows = from + cut < end && s[from + cut] != '\r';
    cut == if indented && text_follows {
        n
    } else {
        0
    }
}

/// Every line from `from` on keeps its indent, where the line at `from` is indented
/// only if `indented` says so and every later line is.
pub open spec fn lines_keep_indent(s: Seq<char>, n: int, from: int, indented: bool) -> bool
    decreases s.len() - from,
{
    if from < 0 || from >= s.len() {
        true
    } else {
        let end = line_end(s, from);
        line_keeps_indent(s, n, from, indented) && (from <= end < s.len() ==> lines_keep_indent(
            s,
            n,
            end + 1,
            true,
        ))
    }
}

/// The spaces in front of a stripped text that begins an indented line with text.
pub open spec fn lead(stripped: Seq<u8>, n: nat, indented: bool) -> Seq<u8> {
    if indented && stripped.len() > 0 && !is_line_break(stripped[0]) {
        spaces(n)
    } else {
        Seq::empty()
    }
}

/// Every byte of `bytes` is 128 or more.
pub open spec fn high_bytes(bytes: Seq<u8>) -> bool {
    forall|i: int| 0 <= i < bytes.len() ==> #[trigger] bytes[i] >= 0x80
}

proof fn lemma_high_bytes(y: u8)
    by (bit_vector)
    ensures
        (0x80u8 | y) >= 0x80u8,
        (0xC0u8 | y) >= 0x80u8,
        (0xE0u8 | y) >= 0x80u8,
        (0xF0u8 | y) >= 0x80u8,
{
}

proof fn lemma_low_byte(v: u32)
    by (bit_vector)
    requires
        v <= 0x7Fu32,
    ensures
        (v & 0x7Fu32) as u8 == v as u8,
        (v as u8) as u32 == v,
{
}

/// The encoding of one character: a character below 128 is its own byte, and every byte
/// of any other character is 128 or more.
proof fn lemma_encode_scalar(c: char)
    ensures
        encode_scalar(c as u32).len() > 0,
        (c as u32) < 0x80 ==> encode_scalar(c as u32) == seq![(c as u32) as u8],
        (c as u32) >= 0x80 ==> high_bytes(encode_scalar(c as u32)),
{
    let v = c as u32;
    vstd::utf8::char_is_scalar(c);
    if v < 0x80 {
        lemma_low_byte(v);
    } else {
        let bytes = encode_scalar(v);
        lemma_high_bytes(((v >> 6) & 0x1F) as u8);
        lemma_high_bytes(((v >> 12) & 0x0F) as u8);
        lemma_high_bytes(((v >> 18) & 0x7) as u8);
        lemma_high_bytes((v & 0x3F) as u8);
        lemma_high_bytes(((v >> 6) & 0x3F) as u8);
        lemma_high_bytes(((v >> 12) & 0x3F) as u8);
    }
}

/// The encoding of two texts that stand one behind the other is the encoding of the
/// first followed by that of the second.
pub proof fn lemma_encode_concat(a: Seq<char>, b: Seq<char>)
    ensures
        encode_utf8(a + b) == encode_utf8(a) + encode_utf8(b),
    decreases a.len(),
{
    if a.len() == 0 {
        assert(a + b =~= b);
        assert(encode_utf8(a) + encode_utf8(b) =~= encode_utf8(b));
    } else {
        assert((a + b)[0] == a[0]);
        assert((a + b).drop_first() =~= a.drop_first() + b);
        lemma_encode_concat(a.drop_first(), b);
        assert(encode_scalar(a[0] as u32) + (encode_utf8(a.drop_first()) + encode_utf8(b))
            =~= (encode_scalar(a[0] as u32) + encode_utf8(a.drop_first())) + encode_utf8(b));
    }
}

/// The encoding of a text that is not empty is not empty, and its first byte is a line
/// feed, a carriage return or a space exactly when its first character is.
proof fn lemma_encode_first(s: Seq<char>)
    requires
        s.len() > 0,
    ensures
        encode_utf8(s).len() > 0,
        encode_utf8(s)[0] == LINE_FEED <==> s[0] == '\n',
        encode_utf8(s)[0] == CARRIAGE_RETURN <==> s[0] == '\r',
        encode_utf8(s)[0] == SPACE <==> s[0] == ' ',
{
    lemma_encode_scalar(s[0]);
    let head = encode_scalar(s[0] as u32);
    assert(encode_utf8(s)[0] == head[0]);
    let v = s[0] as u32;
    if v < 0x80 {
        lemma_low_byte(v);
        assert('\n' as u32 == 10 && '\r' as u32 == 13 && ' ' as u32 == 32);
        vstd::utf8::char_u32_cast(s[0], v);
    } else {
        assert('\n' as u32 == 10 && '\r' as u32 == 13 && ' ' as u32 == 32);
    }
}

/// The encoding of a text without line feed holds no line feed.
proof fn lemma_encode_without_feed(s: Seq<char>)
    requires
        forall|i: int| 0 <= i < s.len() ==> s[i] != '\n',
    ensures
        forall|i: int| 0 <= i < encode_utf8(s).len() ==> encode_utf8(s)[i] != LINE_FEED,
    decreases s.len(),
{
    if s.len() > 0 {
        let rest = s.drop_first();
        assert forall|i: int| 0 <= i < rest.len() implies rest[i] != '\n' by {
            assert(rest[i] == s[i + 1]);
        }
        lemma_encode_without_feed(rest);
        lemma_encode_scalar(s[0]);
        let head = encode_scalar(s[0] as u32);
        let v = s[0] as u32;
        if v < 0x80 {
            lemma_low_byte(v);
            assert('\n' as u32 == 10);
            vstd::utf8::char_u32_cast(s[0], v);
        }
        assert forall|i: int| 0 <= i < encode_utf8(s).len() implies encode_utf8(s)[i]
            != LINE_FEED by {
            if i < head.len() {
                assert(encode_utf8(s)[i] == head[i]);
            } else {
                assert(encode_utf8(s)[i] == encode_utf8(rest)[i - head.len()]);
            }
        }
    }
}

/// The encoding of `count` spaces is `count` space bytes.
proof fn lemma_encode_spaces(s: Seq<char>)
    requires
        forall|i: int| 0 <= i < s.len() ==> s[i] == ' ',
    ensures
        encode_utf8(s) == spaces(s.len()),
    decreases s.len(),
{
    if s.len() > 0 {
        let rest = s.drop_first();
        assert forall|i: int| 0 <= i < rest.len() implies rest[i] == ' ' by {
            assert(rest[i] == s[i + 1]);
        }
        lemma_encode_spaces(rest);
        lemma_encode_first(s);
        lemma_encode_scalar(s[0]);
        assert(' ' as u32 == 32);
        assert(encode_utf8(s) =~= spaces(s.len()));
    } else {
        assert(encode_utf8(s) =~= spaces(0));
    }
}

/// A text without line feed that ends in one line feed stays as it is when indented.
proof fn lemma_offset_of_one_line(line: Seq<u8>, n: nat)
    requires
        forall|i: int| 0 <= i < line.len() ==> line[i] != LINE_FEED,
    ensures
        offset_lines_of(line.push(LINE_FEED), n) == line.push(LINE_FEED),
        offset_lines_of(line, n) == line,
{
    crate::text::offset_lines_keeps_blank_text(line, n);
    let ended = line.push(LINE_FEED);
    assert forall|i: int| 0 <= i < ended.len() implies !starts_text_line(ended, i) by {
        if i < line.len() {
            assert(ended[i] == line[i]);
        }
    }
    crate::text::offset_lines_keeps_blank_text(ended, n);
}

/// How many spaces stripping takes off the line that begins at `from`.
pub open spec fn line_cut(s: Seq<char>, n: int, from: int) -> int {
    smaller(n, space_run(s, from, line_end(s, from)))
}

/// The encoding of the line that begins at `from`, without what stripping takes off
/// and without its line feed.
pub open spec fn line_body(s: Seq<char>, n: int, from: int) -> Seq<u8> {
    encode_utf8(s.subrange(from + line_cut(s, n, from), line_end(s, from)))
}

/// The encoding of one line feed.
proof fn lemma_encode_feed()
    ensures
        encode_utf8(seq!['\n']) == seq![LINE_FEED],
{
    let feed = seq!['\n'];
    lemma_encode_scalar('\n');
    assert('\n' as u32 == 10);
    assert(encode_utf8(feed.drop_first()) =~= Seq::<u8>::empty());
    assert(encode_utf8(feed) =~= seq![LINE_FEED]);
}

/// The encoding of a text from the start of a line on: the spaces that stripping takes
/// off, the body of the line and, where the line ends in a line feed, the line feed and
/// the encoding of what follows.
proof fn lemma_text_pieces(s: Seq<char>, n: int, from: int)
    requires
        0 <= from < s.len(),
        0 <= n,
    ensures
        ({
            let end = line_end(s, from);
            let cut = line_cut(s, n, from);
            let body = line_body(s, n, from);
            &&& from <= end <= s.len()
            &&& 0 <= cut <= n
            &&& from + cut <= end
            &&& encode_utf8(s.skip(from)) == spaces(cut as nat) + body + if end < s.len() {
                seq![LINE_FEED] + encode_utf8(s.skip(end + 1))
            } else {
                Seq::empty()
            }
            &&& forall|i: int| 0 <= i < body.len() ==> body[i] != LINE_FEED
            &&& (from + cut < end && s[from + cut] != '\r') <==> (body.len() > 0 && !is_line_break(
                body[0],
            ))
        }),
{
    let end = line_end(s, from);
    crate::text::lemma_line_end(s, from);
    crate::text::lemma_space_run(s, from, end);
    let cut = line_cut(s, n, from);
    let chars = s.subrange(from + cut, end);
    let indent = s.subrange(from, from + cut);
    let body = line_body(s, n, from);
    assert forall|i: int| 0 <= i < chars.len() implies chars[i] != '\n' by {
        assert(chars[i] == s[from + cut + i]);
    }
    assert forall|i: int| 0 <= i < indent.len() implies indent[i] == ' ' by {
        assert(indent[i] == s[from + i]);
    }
    lemma_encode_without_feed(chars);
    lemma_encode_spaces(indent);
    if chars.len() > 0 {
        lemma_encode_first(chars);
        assert(chars[0] == s[from + cut]);
    } else {
        assert(body =~= Seq::<u8>::empty());
    }
    if end < s.len() {
        let feed = seq!['\n'];
        lemma_encode_feed();
        assert(s.skip(from) =~= (indent + chars) + (feed + s.skip(end + 1)));
        lemma_encode_concat(indent + chars, feed + s.skip(end + 1));
        lemma_encode_concat(indent, chars);
        lemma_encode_concat(feed, s.skip(end + 1));
        assert(encode_utf8(s.skip(from)) =~= spaces(cut as nat) + body + (seq![LINE_FEED]
            + encode_utf8(s.skip(end + 1))));
    } else {
        assert(s.skip(from) =~= indent + chars);
        lemma_encode_concat(indent, chars);
        assert(encode_utf8(s.skip(from)) =~= spaces(cut as nat) + body + Seq::<u8>::empty());
    }
}

/// The encoding of a stripped text from the start of a line on: the body of the line
/// and, where the line ends in a line feed, the line feed and the encoding of what
/// follows, stripped.
proof fn lemma_stripped_pieces(s: Seq<char>, n: int, from: int)
    requires
        0 <= from < s.len(),
        0 <= n,
    ensures
        ({
            let end = line_end(s, from);
            encode_utf8(strip_indent_from(s, n, from)) == line_body(s, n, from) + if end < s.len() {
                seq![LINE_FEED] + encode_utf8(strip_indent_from(s, n, end + 1))
            } else {
                Seq::empty()
            }
        }),
{
    let end = line_end(s, from);
    crate::text::lemma_line_end(s, from);
    let cut = line_cut(s, n, from);
    let chars = s.subrange(from + cut, end);
    if end < s.len() {
        let rest = strip_indent_from(s, n, end + 1);
        let feed = seq!['\n'];
        lemma_encode_feed();
        assert(strip_indent_from(s, n, from) =~= chars + (feed + rest));
        lemma_encode_concat(chars, feed + rest);
        lemma_encode_concat(feed, rest);
    } else {
        assert(encode_utf8(chars) + Seq::<u8>::empty() =~= encode_utf8(chars));
    }
}

/// One line put back: where a stripped line and the stripped rest are indented again,
/// the spaces of the rest come to stand at their junction.
proof fn lemma_line_put_back(body: Seq<u8>, tail: Seq<u8>, n: nat)
    requires
        forall|i: int| 0 <= i < body.len() ==> body[i] != LINE_FEED,
    ensures
        offset_lines_of(body + (seq![LINE_FEED] + tail), n) == body + (seq![LINE_FEED] + (lead(
            tail,
            n,
            true,
        ) + offset_lines_of(tail, n))),
        offset_lines_of(body, n) == body,
{
    lemma_offset_of_one_line(body, n);
    let ended = body.push(LINE_FEED);
    crate::text::offset_lines_of_parts(ended, tail, n);
    assert(junction(ended, tail, n) == lead(tail, n, true));
    assert(body + (seq![LINE_FEED] + tail) =~= ended + tail);
    assert(ended + lead(tail, n, true) + offset_lines_of(tail, n) =~= body + (seq![LINE_FEED] + (
    lead(tail, n, true) + offset_lines_of(tail, n))));
}

/// Stripping and indenting are inverse on lines that keep their indent: the stripped
/// text, encoded and indented again, with the spaces of its first line in front, is the
/// encoding of the text.
pub proof fn indent_round_trip(s: Seq<char>, n: nat, from: int, indented: bool)
    requires
        0 <= from <= s.len(),
        lines_keep_indent(s, n as int, from, indented),
    ensures
        ({
            let stripped = encode_utf8(strip_indent_from(s, n as int, from));
            lead(stripped, n, indented) + offset_lines_of(stripped, n) == encode_utf8(s.skip(from))
        }),
    decreases s.len() - from,
{
    let stripped = encode_utf8(strip_indent_from(s, n as int, from));
    if from >= s.len() {
        assert(s.skip(from) =~= Seq::<char>::empty());
        assert(lead(stripped, n, indented) + offset_lines_of(stripped, n) =~= Seq::<u8>::empty());
    } else {
        let end = line_end(s, from);
        let cut = line_cut(s, n as int, from);
        let body = line_body(s, n as int, from);
        lemma_text_pieces(s, n as int, from);
        lemma_stripped_pieces(s, n as int, from);
        assert(spaces(0) =~= Seq::<u8>::empty());
        if end < s.len() {
            let tail = encode_utf8(strip_indent_from(s, n as int, end + 1));
            indent_round_trip(s, n, end + 1, true);
            lemma_line_put_back(body, tail, n);
            assert(stripped[0] == (body + (seq![LINE_FEED] + tail))[0]);
            if body.len() > 0 {
                assert(stripped[0] == body[0]);
            } else {
                assert(stripped[0] == LINE_FEED);
            }
            assert(lead(stripped, n, indented) == spaces(cut as nat));
            assert(lead(stripped, n, indented) + offset_lines_of(stripped, n) =~= spaces(
                cut as nat,
            ) + body + (seq![LINE_FEED] + encode_utf8(s.skip(end + 1))));
        } else {
            lemma_line_put_back(body, Seq::empty(), n);
            assert(stripped =~= body);
            assert(lead(stripped, n, indented) == spaces(cut as nat));
            assert(lead(stripped, n, indented) + offset_lines_of(stripped, n) =~= spaces(
                cut as nat,
            ) + body + Seq::<u8>::empty());
        }
    }
}

/// What ends a text in line breaks does not change when a line break is added, and is
/// empty when another byte is.
proof fn lemma_trailing_newlines_push(text: Seq<u8>, byte: u8)
    ensures
        trailing_newlines_of(text.push(byte)) == if is_line_break(byte) {
            trailing_newlines_of(text).push(byte)
        } else {
            Seq::empty()
        },
{
    let longer = text.push(byte);
    assert(longer.drop_last() == text);
    crate::text::lemma_trailing_break_count(text);
    crate::text::lemma_trailing_break_count(longer);
    if is_line_break(byte) {
        assert(trailing_newlines_of(longer) =~= trailing_newlines_of(text).push(byte));
    } else {
        assert(trailing_newlines_of(longer) =~= Seq::<u8>::empty());
    }
}

/// The line breaks at the end of a text are those of its end: what stands in front,
/// and does not end in a line break itself, does not matter.
proof fn lemma_trailing_newlines_behind(front: Seq<u8>, text: Seq<u8>)
    requires
        front.len() == 0 || !is_line_break(front.last()),
    ensures
        trailing_newlines_of(front + text) == trailing_newlines_of(text),
{
    crate::text::lemma_trailing_breaks_behind(front, text);
    crate::text::lemma_trailing_break_count(text);
    assert(trailing_newlines_of(front + text) =~= trailing_newlines_of(text));
}

proof fn lemma_offset_keeps_trailing_newlines(text: Seq<u8>, n: nat, upto: int)
    requires
        0 <= upto <= text.len(),
        upto == 0 || !starts_text_line(text, upto - 1),
    ensures
        trailing_newlines_of(crate::text::offset_lines_upto(text, n, upto)) == trailing_newlines_of(
            text.take(upto),
        ),
    decreases upto,
{
    if upto > 0 {
        let before = crate::text::offset_lines_upto(text, n, upto - 1);
        let out = crate::text::offset_lines_upto(text, n, upto);
        assert(out =~= before.push(text[upto - 1]));
        assert(text.take(upto) =~= text.take(upto - 1).push(text[upto - 1]));
        lemma_trailing_newlines_push(before, text[upto - 1]);
        lemma_trailing_newlines_push(text.take(upto - 1), text[upto - 1]);
        if is_line_break(text[upto - 1]) {
            lemma_offset_keeps_trailing_newlines(text, n, upto - 1);
        }
    } else {
        assert(text.take(0) =~= Seq::<u8>::empty());
    }
}

/// `bytes` behind `n` spaces, where the indent was found in the text of the region
/// and `bytes` do not begin with a line break.
pub open spec fn first_indented(bytes: Seq<u8>, n: nat, from_content: bool) -> Seq<u8> {
    if from_content && n > 0 && !(bytes.len() > 0 && is_line_break(bytes[0])) {
        spaces(n) + bytes
    } else {
        bytes
    }
}

/// Putting a text back. A text whose lines keep their indent, stripped and encoded,
/// given the line breaks that its own encoding ends in and indented again, is its own
/// encoding.
pub proof fn lemma_put_back(
    text: Seq<char>,
    fragment: Seq<u8>,
    n: nat,
    from_content: bool,
    trailing: Seq<u8>,
)
    requires
        fragment == encode_utf8(text),
        lines_keep_indent(text, n as int, 0, from_content),
        from_content ==> n > 0 && text.len() > 0,
        trailing == trailing_newlines_of(fragment),
    ensures
        ({
            let again = encode_utf8(strip_indent_from(text, n as int, 0));
            offset_lines_of(
                first_indented(without_trailing_newlines(again) + trailing, n, from_content),
                n,
            ) == fragment
        }),
{
    let input = encode_utf8(strip_indent_from(text, n as int, 0));
    assert(text.skip(0) =~= text);
    indent_round_trip(text, n, 0, from_content);
    let front = lead(input, n, from_content);
    let indented = offset_lines_of(input, n);
    assert(front + indented == fragment);
    assert(front.len() == 0 || !is_line_break(front.last())) by {
        if front.len() > 0 {
            assert(front.last() == SPACE);
        }
    }
    lemma_trailing_newlines_behind(front, indented);
    lemma_offset_keeps_trailing_newlines(input, n, input.len() as int);
    assert(input.take(input.len() as int) == input);
    assert(trailing_newlines_of(fragment) == trailing_newlines_of(input));
    crate::text::lemma_trailing_newlines_split(input);
    let joined = without_trailing_newlines(input) + trailing;
    assert(joined == input);
    if from_content && !(input.len() > 0 && is_line_break(input[0])) {
        if input.len() == 0 {
            lemma_text_pieces(text, n as int, 0);
            lemma_stripped_pieces(text, n as int, 0);
            assert(false);
        }
        let margin = spaces(n);
        crate::text::offset_lines_of_parts(margin, input, n);
        assert forall|i: int| 0 <= i < margin.len() implies !starts_text_line(margin, i) by {
            assert(margin[i] == SPACE);
        }
        crate::text::offset_lines_keeps_blank_text(margin, n);
        assert(junction(margin, input, n) =~= Seq::<u8>::empty()) by {
            assert(margin.last() == SPACE);
        }
        assert(offset_lines_of(margin + input, n) =~= margin + indented);
        assert(front == margin);
    } else {
        assert(front =~= Seq::<u8>::empty());
        assert(front + indented =~= indented);
    }
}

/// Byte accounting for an indented region. A region without escape strings whose lines
/// keep their indent goes through the formatter unharmed: when the text that was handed
/// on comes back as it was, what goes back into the document is the region as it stood
/// there. The lines keep their indent where every line after the first either begins
/// with the whole indent and has text behind it, or does not begin with a space at all
/// and is empty or begins with a carriage return; the first line is held to the same
/// where the indent was found in the text, and else must not begin with a space.
pub proof fn indented_region_keeps_its_bytes(buffer: Seq<u8>, region: RegionView, printwidth: u32)
    requires
        region.range.fits(buffer.len() as int),
        valid_utf8(buffer.subrange(region.range.start_byte as int, region.range.end_byte as int)),
        usable_escapes_of(region.escape_chars).len() == 0,
        ({
            let text = decode_utf8(
                buffer.subrange(region.range.start_byte as int, region.range.end_byte as int),
            );
            let column = column_at(buffer, region.range.start_byte as int);
            let indent = indent_of(column, text);
            0 <= indent <= usize::MAX && lines_keep_indent(
                text,
                indent,
                0,
                column == 0 && indent > 0,
            )
        }),
    ensures
        job_of(buffer, region, printwidth) is Ok,
        finished_of(
            job_of(buffer, region, printwidth)->Ok_0,
            job_of(buffer, region, printwidth)->Ok_0.input,
        ) == Ok::<Seq<u8>, RegionError>(
            buffer.subrange(region.range.start_byte as int, region.range.end_byte as int),
        ),
{
    let fragment = buffer.subrange(region.range.start_byte as int, region.range.end_byte as int);
    let text = decode_utf8(fragment);
    let column = column_at(buffer, region.range.start_byte as int);
    let indent = indent_of(column, text);
    let from_content = column == 0 && indent > 0;
    let n = indent as nat;
    let job = job_of(buffer, region, printwidth)->Ok_0;
    let input = job.input;
    vstd::utf8::decode_utf8_encode_utf8(fragment);
    assert(input == encode_utf8(strip_indent_from(text, indent, 0)));
    lemma_put_back(text, fragment, n, from_content, job.trailing);
    assert(crate::region::escaped_again(input, job.escapes) == Ok::<Seq<u8>, RegionError>(input));
    assert(job.indent as nat == n);
    assert(job.indent_from_content == from_content);
    assert(crate::region::with_first_indent(
        without_trailing_newlines(input) + job.trailing,
        job,
    ) == first_indented(without_trailing_newlines(input) + job.trailing, n, from_content));
}

} // verus!
