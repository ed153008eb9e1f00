//! Byte accounting for regions that are both escaped and indented: escaping and
//! stripping of indentation do not get in each other's way, so a region that comes back
//! from its formatter unchanged goes back into the document unchanged.
use crate::escape::{
    backslash_leads, escape_of, escape_round_trip, first_match, first_match_from,
    lemma_first_match_from, none_empty, BACKSLASH,
};
use crate::indent::lines_keep_indent;
use crate::injections::RegionView;
use crate::region::{
    escaped_again, finished_of, indent_of, job_of, usable_escapes_of, with_first_indent,
    RegionError,
};
use crate::text::{
    column_at, line_end, smaller, space_run, spaces, strip_indent_from, trailing_newlines_of,
    without_trailing_newlines,
};
use vstd::prelude::*;
use vstd::utf8::{decode_utf8, encode_utf8, valid_utf8};

verus! {

/// No string of `escapes` holds the character `c`.
pub open spec fn free_of(escapes: Seq<Seq<char>>, c: char) -> bool {
    forall|i: int, j: int|
        0 <= i < escapes.len() && 0 <= j < escapes[i].len() ==> (#[trigger] escapes[i][j]) != c
}

/// The escape strings leave lines and their indent alone: none is empty, none holds a
/// space, and none holds a line feed.
pub open spec fn plain_escapes(escapes: Seq<Seq<char>>) -> bool {
    none_empty(escapes) && free_of(escapes, ' ') && free_of(escapes, '\n')
}

/// `s` holds no line feed.
pub open spec fn one_line(s: Seq<char>) -> bool {
    forall|i: int| 0 <= i < s.len() ==> s[i] != '\n'
}

/// `s` is made of spaces.
pub open spec fn all_spaces(s: Seq<char>) -> bool {
    forall|i: int| 0 <= i < s.len() ==> s[i] == ' '
}

proof fn lemma_line_end_shift(s: Seq<char>, k: int, j: int)
    requires
        0 <= k,
        0 <= j,
        k + j <= s.len(),
    ensures
        line_end(s.skip(k), j) + k == line_end(s, k + j),
    decreases s.len() - (k + j),
{
    let t = s.skip(k);
    if k + j < s.len() {
        assert(t[j] == s[k + j]);
        if s[k + j] != '\n' {
            lemma_line_end_shift(s, k, j + 1);
        }
    }
}

proof fn lemma_space_run_shift(s: Seq<char>, k: int, j: int, to: int)
    requires
        0 <= k,
        0 <= j,
        k + j <= to <= s.len(),
    ensures
        space_run(s.skip(k), j, to - k) == space_run(s, k + j, to),
    decreases to - (k + j),
{
    let t = s.skip(k);
    if k + j < to {
        assert(t[j] == s[k + j]);
        if s[k + j] == ' ' {
            lemma_space_run_shift(s, k, j + 1, to);
        }
    }
}

/// Stripping from a place on is stripping what stands from that place on.
proof fn lemma_strip_shift(s: Seq<char>, n: int, k: int, j: int)
    requires
        0 <= n,
        0 <= k,
        0 <= j,
        k + j <= s.len(),
    ensures
        strip_indent_from(s.skip(k), n, j) == strip_indent_from(s, n, k + j),
    decreases s.len() - (k + j),
{
    let t = s.skip(k);
    if k + j < s.len() {
        lemma_line_end_shift(s, k, j);
        crate::text::lemma_line_end(s, k + j);
        let end = line_end(s, k + j);
        lemma_space_run_shift(s, k, j, end);
        let cut = smaller(n, space_run(s, k + j, end));
        crate::text::lemma_space_run(s, k + j, end);
        assert(t.subrange(j + cut, end - k) =~= s.subrange(k + j + cut, end));
        if end < s.len() {
            lemma_strip_shift(s, n, k, end + 1 - k);
        }
    }
}

/// A text without line feed ends its line where it ends, whatever follows the line
/// feed behind it.
proof fn lemma_line_end_of_line(line: Seq<char>, rest: Seq<char>, from: int)
    requires
        one_line(line),
        0 <= from <= line.len(),
    ensures
        line_end(line.push('\n') + rest, from) == line.len(),
        line_end(line, from) == line.len(),
    decreases line.len() - from,
{
    let whole = line.push('\n') + rest;
    if from < line.len() {
        assert(whole[from] == line[from]);
        lemma_line_end_of_line(line, rest, from + 1);
    } else {
        assert(whole[from] == '\n');
    }
}

/// The spaces at the start of a line are counted up to the first other character.
proof fn lemma_space_run_of_indent(indent: Seq<char>, body: Seq<char>, from: int)
    requires
        all_spaces(indent),
        body.len() == 0 || body[0] != ' ',
        0 <= from <= indent.len(),
    ensures
        space_run(indent + body, from, (indent + body).len() as int) == indent.len() - from,
    decreases indent.len() - from,
{
    let line = indent + body;
    if from < indent.len() {
        assert(line[from] == indent[from]);
        lemma_space_run_of_indent(indent, body, from + 1);
    } else if body.len() > 0 {
        assert(line[from] == body[0]);
    }
}

/// The count of spaces at the start of a line does not depend on what follows the
/// line.
proof fn lemma_space_run_prefix(line: Seq<char>, more: Seq<char>, from: int)
    requires
        0 <= from <= line.len(),
    ensures
        space_run(line + more, from, line.len() as int) == space_run(
            line,
            from,
            line.len() as int,
        ),
    decreases line.len() - from,
{
    if from < line.len() {
        assert((line + more)[from] == line[from]);
        lemma_space_run_prefix(line, more, from + 1);
    }
}

/// Where no escape string is found, none is the first.
proof fn lemma_no_match(text: Seq<char>, escapes: Seq<Seq<char>>)
    requires
        forall|j: int| 0 <= j < escapes.len() ==> !(#[trigger] escapes[j]).is_prefix_of(text),
    ensures
        first_match(text, escapes) is None,
{
    lemma_first_match_from(text, escapes, 0);
}

/// Where two texts begin with the same escape strings, the first escape string found is
/// the same.
proof fn lemma_same_match(a: Seq<char>, b: Seq<char>, escapes: Seq<Seq<char>>, from: int)
    requires
        0 <= from,
        forall|j: int|
            0 <= j < escapes.len() ==> ((#[trigger] escapes[j]).is_prefix_of(a)
                <==> escapes[j].is_prefix_of(b)),
    ensures
        first_match_from(a, escapes, from) == first_match_from(b, escapes, from),
    decreases escapes.len() - from,
{
    if from < escapes.len() {
        if !escapes[from].is_prefix_of(a) {
            lemma_same_match(a, b, escapes, from + 1);
        }
    }
}

/// Spaces in front of a text are not escaped.
proof fn lemma_escape_behind_spaces(indent: Seq<char>, text: Seq<char>, escapes: Seq<Seq<char>>)
    requires
        all_spaces(indent),
        plain_escapes(escapes),
    ensures
        escape_of(indent + text, escapes) == indent + escape_of(text, escapes),
    decreases indent.len(),
{
    let whole = indent + text;
    if indent.len() == 0 {
        assert(whole =~= text);
        assert(indent + escape_of(text, escapes) =~= escape_of(text, escapes));
    } else {
        assert(whole[0] == indent[0]);
        assert forall|j: int| 0 <= j < escapes.len() implies !(#[trigger] escapes[j]).is_prefix_of(
            whole,
        ) by {
            if escapes[j].is_prefix_of(whole) {
                assert(escapes[j][0] == whole.subrange(0, escapes[j].len() as int)[0]);
                assert(escapes[j][0] == ' ');
            }
        }
        lemma_no_match(whole, escapes);
        let shorter = indent.skip(1);
        assert(whole.skip(1) =~= shorter + text);
        assert forall|i: int| 0 <= i < shorter.len() implies shorter[i] == ' ' by {
            assert(shorter[i] == indent[i + 1]);
        }
        lemma_escape_behind_spaces(shorter, text, escapes);
        assert(seq![whole[0]] + (shorter + escape_of(text, escapes)) =~= indent + escape_of(
            text,
            escapes,
        ));
    }
}

/// Escaping goes line by line: a line is escaped without regard to what follows its
/// line feed.
proof fn lemma_escape_line(line: Seq<char>, rest: Seq<char>, escapes: Seq<Seq<char>>)
    requires
        one_line(line),
        plain_escapes(escapes),
    ensures
        escape_of(line.push('\n') + rest, escapes) == escape_of(line, escapes).push('\n')
            + escape_of(rest, escapes),
    decreases line.len(),
{
    let whole = line.push('\n') + rest;
    if line.len() == 0 {
        assert(whole[0] == '\n');
        assert forall|j: int| 0 <= j < escapes.len() implies !(#[trigger] escapes[j]).is_prefix_of(
            whole,
        ) by {
            if escapes[j].is_prefix_of(whole) {
                assert(escapes[j][0] == whole.subrange(0, escapes[j].len() as int)[0]);
                assert(escapes[j][0] == '\n');
            }
        }
        lemma_no_match(whole, escapes);
        assert(whole.skip(1) =~= rest);
        assert(seq!['\n'] + escape_of(rest, escapes) =~= escape_of(line, escapes).push('\n')
            + escape_of(rest, escapes));
    } else {
        assert(whole[0] == line[0]);
        assert forall|j: int| 0 <= j < escapes.len() implies ((#[trigger] escapes[j]).is_prefix_of(
            whole,
        ) <==> escapes[j].is_prefix_of(line)) by {
            let e = escapes[j];
            if e.is_prefix_of(whole) {
                if e.len() > line.len() {
                    assert(e[line.len() as int] == whole.subrange(0, e.len() as int)[line.len() as int]);
                    assert(whole[line.len() as int] == '\n');
                    assert(false);
                }
                assert(e =~= line.subrange(0, e.len() as int)) by {
                    assert forall|i: int| 0 <= i < e.len() implies e[i] == line[i] by {
                        assert(e[i] == whole.subrange(0, e.len() as int)[i]);
                    }
                }
            }
            if e.is_prefix_of(line) {
                assert(e =~= whole.subrange(0, e.len() as int)) by {
                    assert forall|i: int| 0 <= i < e.len() implies e[i] == whole[i] by {
                        assert(e[i] == line.subrange(0, e.len() as int)[i]);
                    }
                }
            }
        }
        lemma_same_match(whole, line, escapes, 0);
        lemma_first_match_from(line, escapes, 0);
        if line[0] == BACKSLASH {
            let shorter = line.skip(1);
            assert(whole.skip(1) =~= shorter.push('\n') + rest);
            assert forall|i: int| 0 <= i < shorter.len() implies shorter[i] != '\n' by {
                assert(shorter[i] == line[i + 1]);
            }
            lemma_escape_line(shorter, rest, escapes);
            let tail = escape_of(shorter, escapes);
            assert(seq![BACKSLASH, BACKSLASH] + (tail.push('\n') + escape_of(rest, escapes)) =~= (
            seq![BACKSLASH, BACKSLASH] + tail).push('\n') + escape_of(rest, escapes));
        } else {
            match first_match(line, escapes) {
                Some(k) => {
                    let e = escapes[k];
                    let shorter = line.skip(e.len() as int);
                    assert(whole.skip(e.len() as int) =~= shorter.push('\n') + rest);
                    assert forall|i: int| 0 <= i < shorter.len() implies shorter[i] != '\n' by {
                        assert(shorter[i] == line[i + e.len()]);
                    }
                    lemma_escape_line(shorter, rest, escapes);
                    let tail = escape_of(shorter, escapes);
                    assert(seq![BACKSLASH] + e + (tail.push('\n') + escape_of(rest, escapes)) =~= (
                    seq![BACKSLASH] + e + tail).push('\n') + escape_of(rest, escapes));
                },
                None => {
                    let shorter = line.skip(1);
                    assert(whole.skip(1) =~= shorter.push('\n') + rest);
                    assert forall|i: int| 0 <= i < shorter.len() implies shorter[i] != '\n' by {
                        assert(shorter[i] == line[i + 1]);
                    }
                    lemma_escape_line(shorter, rest, escapes);
                    let tail = escape_of(shorter, escapes);
                    assert(seq![line[0]] + (tail.push('\n') + escape_of(rest, escapes)) =~= (seq![
                        line[0],
                    ] + tail).push('\n') + escape_of(rest, escapes));
                },
            }
        }
    }
}

/// The escaped form of a line is a line, and it begins with a space only if the line
/// does.
proof fn lemma_escaped_line(line: Seq<char>, escapes: Seq<Seq<char>>)
    requires
        one_line(line),
        plain_escapes(escapes),
    ensures
        one_line(escape_of(line, escapes)),
        line.len() == 0 ==> escape_of(line, escapes).len() == 0,
        line.len() > 0 ==> escape_of(line, escapes).len() > 0,
        line.len() > 0 && line[0] != ' ' ==> escape_of(line, escapes)[0] != ' ',
    decreases line.len(),
{
    if line.len() > 0 {
        lemma_first_match_from(line, escapes, 0);
        let out = escape_of(line, escapes);
        if line[0] == BACKSLASH {
            let shorter = line.skip(1);
            assert forall|i: int| 0 <= i < shorter.len() implies shorter[i] != '\n' by {
                assert(shorter[i] == line[i + 1]);
            }
            lemma_escaped_line(shorter, escapes);
            let tail = escape_of(shorter, escapes);
            assert(out == seq![BACKSLASH, BACKSLASH] + tail);
            assert forall|i: int| 0 <= i < out.len() implies out[i] != '\n' by {
                if i >= 2 {
                    assert(out[i] == tail[i - 2]);
                }
            }
            assert(out[0] == BACKSLASH);
        } else {
            match first_match(line, escapes) {
                Some(k) => {
                    let e = escapes[k];
                    let shorter = line.skip(e.len() as int);
                    assert forall|i: int| 0 <= i < shorter.len() implies shorter[i] != '\n' by {
                        assert(shorter[i] == line[i + e.len()]);
                    }
                    lemma_escaped_line(shorter, escapes);
                    let tail = escape_of(shorter, escapes);
                    assert(out == seq![BACKSLASH] + e + tail);
                    assert forall|i: int| 0 <= i < out.len() implies out[i] != '\n' by {
                        if 1 <= i < 1 + e.len() {
                            assert(out[i] == e[i - 1]);
                        } else if i >= 1 + e.len() {
                            assert(out[i] == tail[i - 1 - e.len()]);
                        }
                    }
                    assert(out[0] == BACKSLASH);
                },
                None => {
                    let shorter = line.skip(1);
                    assert forall|i: int| 0 <= i < shorter.len() implies shorter[i] != '\n' by {
                        assert(shorter[i] == line[i + 1]);
                    }
                    lemma_escaped_line(shorter, escapes);
                    let tail = escape_of(shorter, escapes);
                    assert(out == seq![line[0]] + tail);
                    assert forall|i: int| 0 <= i < out.len() implies out[i] != '\n' by {
                        if i >= 1 {
                            assert(out[i] == tail[i - 1]);
                        }
                    }
                    assert(out[0] == line[0]);
                },
            }
        }
    }
}

/// A text as its first line taken apart: the spaces at its start, the rest of the line,
/// and what follows the line feed.
proof fn lemma_first_line(s: Seq<char>)
    requires
        s.len() > 0,
    ensures
        ({
            let end = line_end(s, 0);
            let run = space_run(s, 0, end);
            let indent = s.subrange(0, run);
            let body = s.subrange(run, end);
            &&& 0 <= run <= end <= s.len()
            &&& all_spaces(indent)
            &&& one_line(body)
            &&& body.len() == 0 || body[0] != ' '
            &&& end < s.len() ==> s == (indent + body).push('\n') + s.skip(end + 1)
            &&& end == s.len() ==> s == indent + body
        }),
{
    let end = line_end(s, 0);
    crate::text::lemma_line_end(s, 0);
    crate::text::lemma_space_run(s, 0, end);
    let run = space_run(s, 0, end);
    let indent = s.subrange(0, run);
    let body = s.subrange(run, end);
    assert forall|i: int| 0 <= i < indent.len() implies indent[i] == ' ' by {
        assert(indent[i] == s[i]);
    }
    assert forall|i: int| 0 <= i < body.len() implies body[i] != '\n' by {
        assert(body[i] == s[run + i]);
    }
    if body.len() > 0 {
        assert(body[0] == s[run]);
    }
    if end < s.len() {
        assert(s =~= (indent + body).push('\n') + s.skip(end + 1));
    } else {
        assert(s =~= indent + body);
    }
}

/// A text made of an indent, a line and what follows, stripped: the indent loses up to
/// `n` spaces, the line stays, and what follows is stripped by itself.
proof fn lemma_strip_first_line(
    indent: Seq<char>,
    body: Seq<char>,
    rest: Seq<char>,
    ended: bool,
    n: int,
)
    requires
        all_spaces(indent),
        one_line(body),
        body.len() == 0 || body[0] != ' ',
        0 <= n,
        !ended ==> rest.len() == 0,
        indent.len() + body.len() > 0 || ended,
    ensures
        ({
            let whole = if ended {
                (indent + body).push('\n') + rest
            } else {
                indent + body
            };
            let cut = smaller(n, indent.len() as int);
            strip_indent_from(whole, n, 0) == if ended {
                (indent.skip(cut) + body).push('\n') + strip_indent_from(rest, n, 0)
            } else {
                indent.skip(cut) + body
            }
        }),
{
    let line = indent + body;
    let whole = if ended {
        line.push('\n') + rest
    } else {
        line
    };
    assert forall|i: int| 0 <= i < line.len() implies line[i] != '\n' by {
        if i < indent.len() {
            assert(line[i] == indent[i]);
        } else {
            assert(line[i] == body[i - indent.len()]);
        }
    }
    lemma_line_end_of_line(line, rest, 0);
    let end = line.len() as int;
    assert(line_end(whole, 0) == end);
    lemma_space_run_of_indent(indent, body, 0);
    if ended {
        lemma_space_run_prefix(line, seq!['\n'] + rest, 0);
        assert(line + (seq!['\n'] + rest) =~= whole);
        assert(whole.skip(end + 1) =~= rest);
        lemma_strip_shift(whole, n, end + 1, 0);
    }
    let cut = smaller(n, indent.len() as int);
    assert(whole.subrange(cut, end) =~= indent.skip(cut) + body);
}

/// Escaping and stripping commute. With escape strings that hold neither space nor
/// line feed, the escaped form of a stripped text is the stripped form of the escaped
/// text.
pub proof fn escape_commutes_with_strip(s: Seq<char>, escapes: Seq<Seq<char>>, n: int)
    requires
        plain_escapes(escapes),
        0 <= n,
    ensures
        strip_indent_from(escape_of(s, escapes), n, 0) == escape_of(
            strip_indent_from(s, n, 0),
            escapes,
        ),
    decreases s.len(),
{
    if s.len() > 0 {
        lemma_first_line(s);
        let end = line_end(s, 0);
        let run = space_run(s, 0, end);
        let indent = s.subrange(0, run);
        let body = s.subrange(run, end);
        let ended = end < s.len();
        let rest = if ended {
            s.skip(end + 1)
        } else {
            Seq::empty()
        };
        let cut = smaller(n, indent.len() as int);
        let kept = indent.skip(cut);
        assert forall|i: int| 0 <= i < kept.len() implies kept[i] == ' ' by {
            assert(kept[i] == indent[i + cut]);
        }
        let coded = escape_of(body, escapes);
        lemma_escaped_line(body, escapes);
        let coded_rest = escape_of(rest, escapes);
        let stripped_rest = strip_indent_from(rest, n, 0);
        lemma_strip_first_line(indent, body, rest, ended, n);
        lemma_strip_first_line(indent, coded, coded_rest, ended, n);
        if ended {
            escape_commutes_with_strip(rest, escapes, n);
            // the escaped text, taken apart
            assert((indent + body).push('\n') + rest =~= indent + (body.push('\n') + rest));
            lemma_escape_behind_spaces(indent, body.push('\n') + rest, escapes);
            lemma_escape_line(body, rest, escapes);
            assert(indent + (coded.push('\n') + coded_rest) =~= (indent + coded).push('\n')
                + coded_rest);
            // the stripped text, escaped
            assert((kept + body).push('\n') + stripped_rest =~= kept + (body.push('\n')
                + stripped_rest));
            lemma_escape_behind_spaces(kept, body.push('\n') + stripped_rest, escapes);
            lemma_escape_line(body, stripped_rest, escapes);
            assert(kept + (coded.push('\n') + escape_of(stripped_rest, escapes)) =~= (kept
                + coded).push('\n') + escape_of(stripped_rest, escapes));
        } else {
            lemma_escape_behind_spaces(indent, body, escapes);
            lemma_escape_behind_spaces(kept, body, escapes);
            assert(coded_rest =~= Seq::<char>::empty());
        }
    } else {
        assert(escape_of(s, escapes) =~= Seq::<char>::empty());
        assert(strip_indent_from(s, n, 0) =~= Seq::<char>::empty());
    }
}

/// Byte accounting for a region that is escaped and indented. The region stands in the
/// document as the escaped form of a text, under escape strings that hold neither
/// space nor line feed, nor a backslash behind their first character, and its lines
/// keep the indent that the formatter takes off. Then, when the text that was handed on comes back as it was, what goes
/// back into the document is the region as it stood there.
pub proof fn escaped_region_keeps_its_bytes(
    buffer: Seq<u8>,
    region: RegionView,
    printwidth: u32,
    plain: Seq<char>,
)
    requires
        region.range.fits(buffer.len() as int),
        valid_utf8(buffer.subrange(region.range.start_byte as int, region.range.end_byte as int)),
        usable_escapes_of(region.escape_chars).len() > 0,
        backslash_leads(usable_escapes_of(region.escape_chars)),
        free_of(usable_escapes_of(region.escape_chars), ' '),
        free_of(usable_escapes_of(region.escape_chars), '\n'),
        decode_utf8(buffer.subrange(region.range.start_byte as int, region.range.end_byte as int))
            == escape_of(plain, usable_escapes_of(region.escape_chars)),
        ({
            let text = decode_utf8(
                buffer.subrange(region.range.start_byte as int, region.range.end_byte as int),
            );
            let column = column_at(buffer, region.range.start_byte as int);
            let indent = indent_of(column, plain);
            0 <= indent <= usize::MAX && lines_keep_indent(
                text,
                indent,
                0,
                column == 0 && indent > 0,
            )
        }),
    ensures
        job_of(buffer, region, printwidth) is Ok,
        finished_of(
            job_of(buffer, region, printwidth)->Ok_0,
            job_of(buffer, region, printwidth)->Ok_0.input,
        ) == Ok::<Seq<u8>, RegionError>(
            buffer.subrange(region.range.start_byte as int, region.range.end_byte as int),
        ),
{
    let fragment = buffer.subrange(region.range.start_byte as int, region.range.end_byte as int);
    let escapes = usable_escapes_of(region.escape_chars);
    let text = decode_utf8(fragment);
    let column = column_at(buffer, region.range.start_byte as int);
    let indent = indent_of(column, plain);
    let from_content = column == 0 && indent > 0;
    let n = indent as nat;
    crate::escape::lemma_without_empty(crate::escape::sorted_escapes_of(region.escape_chars));
    escape_round_trip(plain, escapes);
    let job = job_of(buffer, region, printwidth)->Ok_0;
    let input = job.input;
    let stripped = strip_indent_from(plain, indent, 0);
    assert(input == encode_utf8(stripped));
    vstd::utf8::encode_utf8_valid_utf8(stripped);
    vstd::utf8::encode_utf8_decode_utf8(stripped);
    vstd::utf8::decode_utf8_encode_utf8(fragment);
    escape_commutes_with_strip(plain, escapes, indent);
    let again = encode_utf8(strip_indent_from(text, indent, 0));
    assert(escaped_again(input, escapes) == Ok::<Seq<u8>, RegionError>(again));
    if plain.len() > 0 {
        lemma_first_match_from(plain, escapes, 0);
        assert(text.len() > 0);
    }
    crate::indent::lemma_put_back(text, fragment, n, from_content, job.trailing);
    assert(job.indent as nat == n);
    assert(job.indent_from_content == from_content);
    assert(job.trailing == trailing_newlines_of(fragment));
    assert(with_first_indent(without_trailing_newlines(again) + job.trailing, job)
        == crate::indent::first_indented(
        without_trailing_newlines(again) + job.trailing,
        n,
        from_content,
    ));
}

} // verus!
