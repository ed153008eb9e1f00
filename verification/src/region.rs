//! The way of one region through the formatter: what is cut out of the document and
//! handed on, and what is made of the text that comes back.
use crate::escape::{
    drop_empty, escape_of, escape_text, none_empty, sort_escape_chars, sorted_escapes_of,
    string_views, unescape_of, unescape_text, without_empty,
};
use crate::injections::{InjectedRegion, RegionView};
use crate::strings::{decode, encode};
use crate::text::{
    column_at, column_for_byte, is_line_break, min_leading_indent, min_leading_indent_of,
    offset_lines, offset_lines_of, push_spaces, spaces, strip_leading_indent,
    strip_leading_indent_of, strip_trailing_newlines, trailing_newlines, trailing_newlines_of,
    without_trailing_newlines, CARRIAGE_RETURN, LINE_FEED,
};
use vstd::prelude::*;
use vstd::slice::{slice_subrange, slice_to_vec};
use vstd::utf8::{decode_utf8, encode_utf8, valid_utf8};

verus! {

/// Why a region could not be handed on or taken back.
#[derive(Clone, Copy, Debug, PartialEq, Eq, Structural)]
pub enum RegionError {
    /// The region does not lie in the document.
    OutOfBounds,
    /// The text of the region, or the text that came back for it, is not valid UTF-8.
    InvalidUtf8,
}

/// A region on its way: the text to format and what is needed to put the result back.
#[derive(Clone, Debug, PartialEq, Eq)]
pub struct RegionJob {
    /// The text to format: the region unescaped and without its indentation.
    pub input: Vec<u8>,
    /// The print width that is left for the region.
    pub printwidth: u32,
    /// The language of the region.
    pub lang: String,
    /// The number of spaces that every line of the region is indented by.
    pub indent: usize,
    /// Whether the indent was found in the text of the region and not in its column.
    pub indent_from_content: bool,
    /// The line breaks that end the region in the document.
    pub trailing: Vec<u8>,
    /// The escape strings of the region that are not empty, in the order in which they
    /// are tried.
    pub escapes: Vec<String>,
}

/// A job as plain values.
pub struct JobView {
    pub input: Seq<u8>,
    pub printwidth: u32,
    pub lang: Seq<char>,
    pub indent: usize,
    pub indent_from_content: bool,
    pub trailing: Seq<u8>,
    pub escapes: Seq<Seq<char>>,
}

impl View for RegionJob {
    type V = JobView;

    open spec fn view(&self) -> JobView {
        JobView {
            input: self.input@,
            printwidth: self.printwidth,
            lang: self.lang@,
            indent: self.indent,
            indent_from_content: self.indent_from_content,
            trailing: self.trailing@,
            escapes: string_views(self.escapes@),
        }
    }
}

/// The escape strings that are used: those of the region that are not empty, each once,
/// in the order in which they are tried.
pub open spec fn usable_escapes_of(escape_chars: Seq<Seq<char>>) -> Seq<Seq<char>> {
    without_empty(sorted_escapes_of(escape_chars))
}

/// The text of a region with one level of escaping removed, where the region has
/// escape strings.
pub open spec fn unescaped_of(text: Seq<char>, escapes: Seq<Seq<char>>) -> Seq<char> {
    if escapes.len() > 0 {
        unescape_of(text, escapes)
    } else {
        text
    }
}

/// The indent of a region: the column at which it starts or, where that is 0, the
/// least indent of its lines.
pub open spec fn indent_of(column: int, text: Seq<char>) -> int {
    if column > 0 {
        column
    } else {
        min_leading_indent_of(text)
    }
}

/// The print width that is left beside an indent: at least 1.
pub open spec fn narrowed(printwidth: u32, indent: int) -> u32 {
    if indent < printwidth {
        (printwidth - indent) as u32
    } else {
        1
    }
}

/// The job of a region of `buffer`: its text unescaped, each line without the indent,
/// and the print width narrowed by the indent.
pub open spec fn job_of(buffer: Seq<u8>, region: RegionView, printwidth: u32) -> Result<
    JobView,
    RegionError,
> {
    if !region.range.fits(buffer.len() as int) {
        Err(RegionError::OutOfBounds)
    } else {
        let fragment = buffer.subrange(region.range.start_byte as int, region.range.end_byte as int);
        if !valid_utf8(fragment) {
            Err(RegionError::InvalidUtf8)
        } else {
            let escapes = usable_escapes_of(region.escape_chars);
            let text = unescaped_of(decode_utf8(fragment), escapes);
            let column = column_at(buffer, region.range.start_byte as int);
            let indent = indent_of(column, text);
            Ok(
                JobView {
                    input: encode_utf8(strip_leading_indent_of(text, indent)),
                    printwidth: narrowed(printwidth, indent),
                    lang: region.lang,
                    indent: indent as usize,
                    indent_from_content: column == 0 && indent > 0,
                    trailing: trailing_newlines_of(fragment),
                    escapes,
                },
            )
        }
    }
}

/// Cuts a region out of `buffer` and prepares it for its formatter.
///
/// The text of the region is unescaped once, where the region has escape strings. Its
/// indent is the column at which it starts; where that is 0, the least indent of its
/// lines. Every line loses the indent, and the print width shrinks by it, down to 1 at
/// most. The line breaks at the end of the region are kept aside.
pub fn prepare_region(buffer: &[u8], region: &InjectedRegion, printwidth: u32) -> (job: Result<
    RegionJob,
    RegionError,
>)
    ensures
        match job {
            Ok(j) => job_of(buffer@, region@, printwidth) == Ok::<JobView, RegionError>(j@),
            Err(e) => job_of(buffer@, region@, printwidth) == Err::<JobView, RegionError>(e),
        },
        job matches Ok(j) ==> none_empty(string_views(j.escapes@)),
{
    let range = &region.range;
    if !(range.start_byte <= range.end_byte && range.end_byte <= buffer.len()) {
        return Err(RegionError::OutOfBounds);
    }
    let fragment = slice_subrange(buffer, range.start_byte, range.end_byte);
    let text = match decode(slice_to_vec(fragment)) {
        Some(text) => text,
        None => {
            return Err(RegionError::InvalidUtf8);
        },
    };
    let sorted = sort_escape_chars(region.opts.escape_chars.as_slice());
    let escapes = drop_empty(sorted.as_slice());
    let unescaped = if escapes.len() > 0 {
        unescape_text(text.as_str(), escapes.as_slice())
    } else {
        text
    };
    let column = column_for_byte(buffer, range.start_byte);
    let indent = if column > 0 {
        column
    } else {
        min_leading_indent(unescaped.as_str())
    };
    let normalized = strip_leading_indent(unescaped.as_str(), indent);
    let narrowed = if indent < printwidth as usize {
        printwidth - indent as u32
    } else {
        1
    };
    Ok(
        RegionJob {
            input: encode(normalized),
            printwidth: narrowed,
            lang: region.lang.clone(),
            indent,
            indent_from_content: column == 0 && indent > 0,
            trailing: trailing_newlines(fragment),
            escapes,
        },
    )
}

/// The formatted text escaped again, where the region has escape strings. It must be
/// valid UTF-8 then.
pub open spec fn escaped_again(formatted: Seq<u8>, escapes: Seq<Seq<char>>) -> Result<
    Seq<u8>,
    RegionError,
> {
    if escapes.len() > 0 {
        if valid_utf8(formatted) {
            Ok(encode_utf8(escape_of(decode_utf8(formatted), escapes)))
        } else {
            Err(RegionError::InvalidUtf8)
        }
    } else {
        Ok(formatted)
    }
}

/// `text` behind `indent` spaces, where the indent was found in the text of the region
/// and `text` does not begin with a line break.
pub open spec fn with_first_indent(text: Seq<u8>, job: JobView) -> Seq<u8> {
    if job.indent_from_content && job.indent > 0 && !(text.len() > 0 && is_line_break(text[0])) {
        spaces(job.indent as nat) + text
    } else {
        text
    }
}

/// What goes back into the document for a region: the formatted text escaped again,
/// ending in the line breaks that the region ended in, and indented as the region was.
pub open spec fn finished_of(job: JobView, formatted: Seq<u8>) -> Result<Seq<u8>, RegionError> {
    match escaped_again(formatted, job.escapes) {
        Ok(escaped) => Ok(
            offset_lines_of(
                with_first_indent(without_trailing_newlines(escaped) + job.trailing, job),
                job.indent as nat,
            ),
        ),
        Err(error) => Err(error),
    }
}

/// Makes of the formatted text of a region what goes back into the document.
///
/// The text is escaped once, where the region has escape strings. Its trailing line
/// breaks give way to those that the region had. Where the indent was found in the
/// text of the region, the first line is indented, unless it is empty. Every further
/// line that is not blank is indented.
pub fn finish_region(job: &RegionJob, formatted: Vec<u8>) -> (finished: Result<Vec<u8>, RegionError>)
    requires
        none_empty(string_views(job.escapes@)),
    ensures
        match finished {
            Ok(bytes) => finished_of(job@, formatted@) == Ok::<Seq<u8>, RegionError>(bytes@),
            Err(e) => finished_of(job@, formatted@) == Err::<Seq<u8>, RegionError>(e),
        },
{
    let ghost escapes = string_views(job.escapes@);
    let mut result = if job.escapes.len() > 0 {
        match decode(formatted) {
            Some(text) => encode(escape_text(text.as_str(), job.escapes.as_slice())),
            None => {
                return Err(RegionError::InvalidUtf8);
            },
        }
    } else {
        formatted
    };
    proof {
        assert(escapes.len() == job.escapes.len());
        assert(escaped_again(formatted@, escapes) == Ok::<Seq<u8>, RegionError>(result@));
    }
    let ghost escaped = result@;
    strip_trailing_newlines(&mut result);
    result.extend_from_slice(job.trailing.as_slice());
    proof {
        assert(result@ == without_trailing_newlines(escaped) + job.trailing@);
    }
    let ghost joined = result@;
    let starts_with_break = result.len() > 0 && (result[0] == LINE_FEED || result[0]
        == CARRIAGE_RETURN);
    if job.indent_from_content && job.indent > 0 && !starts_with_break {
        let mut indented: Vec<u8> = Vec::new();
        push_spaces(&mut indented, job.indent);
        indented.extend_from_slice(result.as_slice());
        proof {
            assert(indented@ =~= spaces(job.indent as nat) + result@);
        }
        result = indented;
    }
    proof {
        assert(result@ == with_first_indent(joined, job@));
    }
    offset_lines(&mut result, job.indent);
    Ok(result)
}

/// Byte accounting for a region. A region that starts in column 0, whose lines have no
/// common indent, and whose text is the escaped form of some text under its escape
/// strings, none of which holds a backslash behind its first character, goes through
/// the formatter unharmed: when
/// the text that was handed on comes back as it was, what goes back into the document
/// is the region as it stood there.
pub proof fn unchanged_region_keeps_its_bytes(
    buffer: Seq<u8>,
    region: RegionView,
    printwidth: u32,
    plain: Seq<char>,
)
    requires
        region.range.fits(buffer.len() as int),
        valid_utf8(buffer.subrange(region.range.start_byte as int, region.range.end_byte as int)),
        column_at(buffer, region.range.start_byte as int) == 0,
        crate::escape::backslash_leads(usable_escapes_of(region.escape_chars)),
        usable_escapes_of(region.escape_chars).len() > 0 ==> decode_utf8(
            buffer.subrange(region.range.start_byte as int, region.range.end_byte as int),
        ) == escape_of(plain, usable_escapes_of(region.escape_chars)),
        min_leading_indent_of(
            unescaped_of(
                decode_utf8(
                    buffer.subrange(region.range.start_byte as int, region.range.end_byte as int),
                ),
                usable_escapes_of(region.escape_chars),
            ),
        ) == 0,
    ensures
        job_of(buffer, region, printwidth) is Ok,
        finished_of(
            job_of(buffer, region, printwidth)->Ok_0,
            job_of(buffer, region, printwidth)->Ok_0.input,
        ) == Ok::<Seq<u8>, RegionError>(
            buffer.subrange(region.range.start_byte as int, region.range.end_byte as int),
        ),
{
    let fragment = buffer.subrange(region.range.start_byte as int, region.range.end_byte as int);
    let escapes = usable_escapes_of(region.escape_chars);
    let decoded = decode_utf8(fragment);
    let text = unescaped_of(decoded, escapes);
    let job = job_of(buffer, region, printwidth)->Ok_0;
    crate::escape::lemma_without_empty(sorted_escapes_of(region.escape_chars));
    lemma_strip_nothing(text, 0);
    assert(text.skip(0) =~= text);
    assert(job.input == encode_utf8(text));
    vstd::utf8::encode_utf8_valid_utf8(text);
    vstd::utf8::encode_utf8_decode_utf8(text);
    vstd::utf8::decode_utf8_encode_utf8(fragment);
    if escapes.len() > 0 {
        crate::escape::escape_round_trip(plain, escapes);
        assert(text == plain);
        assert(escape_of(decode_utf8(job.input), escapes) == decoded);
    }
    assert(escaped_again(job.input, escapes) == Ok::<Seq<u8>, RegionError>(fragment));
    crate::text::lemma_trailing_newlines_split(fragment);
    crate::text::offset_lines_by_nothing(fragment);
}

/// Stripping no indent leaves a text as it is.
pub proof fn lemma_strip_nothing(text: Seq<char>, from: int)
    requires
        0 <= from <= text.len(),
    ensures
        crate::text::strip_indent_from(text, 0, from) == text.skip(from),
    decreases text.len() - from,
{
    if from < text.len() {
        let end = crate::text::line_end(text, from);
        crate::text::lemma_line_end(text, from);
        crate::text::lemma_space_run(text, from, end);
        if end < text.len() {
            lemma_strip_nothing(text, end + 1);
            assert(text.subrange(from, end).push('\n') + text.skip(end + 1) =~= text.skip(from));
        } else {
            assert(text.subrange(from, end) =~= text.skip(from));
        }
    } else {
        assert(text.skip(from) =~= Seq::<char>::empty());
    }
}

} // verus!
