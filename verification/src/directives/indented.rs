//! The `pruner.injection.indented` property: drops the blank first line of a region
//! and the indentation in front of its closing delimiter.
use crate::directives::trim::{all_blank, next_line_feed};
use crate::predicate::{same_text, Property};
use crate::text::{CARRIAGE_RETURN, LINE_FEED, SPACE, TAB};
use vstd::prelude::*;

verus! {

/// The key of the property that marks a pattern's regions as indented.
pub open spec fn indented_key() -> Seq<char> {
    "pruner.injection.indented"@
}

/// One of `properties` has the key `key`.
pub open spec fn has_key(properties: Seq<Property>, key: Seq<char>) -> bool {
    exists|i: int| 0 <= i < properties.len() && (#[trigger] properties[i]).key@ == key
}

/// Tells whether the pattern sets `pruner.injection.indented`, with or without a value.
pub fn is_indented(properties: &[Property]) -> (indented: bool)
    ensures
        indented == has_key(properties@, indented_key()),
{
    has_property(properties, "pruner.injection.indented")
}

/// Tells whether one of `properties` has the key `key`.
pub fn has_property(properties: &[Property], key: &str) -> (found: bool)
    ensures
        found == has_key(properties@, key@),
{
    let mut i: usize = 0;
    while i < properties.len()
        invariant
            i <= properties.len(),
            forall|k: int| 0 <= k < i ==> (#[trigger] properties@[k]).key@ != key@,
        decreases properties.len() - i,
    {
        if same_text(properties[i].key.as_str(), key) {
            return true;
        }
        i += 1;
    }
    false
}

/// The position just behind the last byte of `[start, end)` that is neither space nor
/// tab, or `start`.
pub open spec fn skip_indent_backward(s: Seq<u8>, start: int, end: int) -> int
    decreases end - start,
{
    if start < end && (s[end - 1] == SPACE || s[end - 1] == TAB) {
        skip_indent_backward(s, start, end - 1)
    } else {
        end
    }
}

/// What the backward skip skips is spaces and tabs, and it stops behind the last other
/// byte.
pub proof fn lemma_skip_indent_backward(s: Seq<u8>, start: int, end: int)
    requires
        0 <= start <= end <= s.len(),
    ensures
        start <= skip_indent_backward(s, start, end) <= end,
        forall|i: int|
            skip_indent_backward(s, start, end) <= i < end ==> s[i] == SPACE || s[i] == TAB,
        start < skip_indent_backward(s, start, end) ==> {
            let last = s[skip_indent_backward(s, start, end) - 1];
            last != SPACE && last != TAB
        },
    decreases end - start,
{
    if start < end && (s[end - 1] == SPACE || s[end - 1] == TAB) {
        lemma_skip_indent_backward(s, start, end - 1);
    }
}

/// Where an indented region starts: behind the first line feed of `[start, end)` when
/// only blank bytes stand before it, else at `start`.
pub open spec fn indented_start(s: Seq<u8>, start: int, end: int) -> int {
    let feed = next_line_feed(s, start, end);
    if feed < end && all_blank(s.subrange(start, feed)) {
        feed + 1
    } else {
        start
    }
}

/// The span `[start, end)` as an indented region: without a blank first line, and
/// without the spaces and tabs at its end. A span that is empty, inverted or reaches
/// beyond `s` stays as it is.
pub open spec fn trim_bytes_of(s: Seq<u8>, start: int, end: int) -> (int, int) {
    if start >= end || end > s.len() {
        (start, end)
    } else {
        let new_start = indented_start(s, start, end);
        (new_start, skip_indent_backward(s, new_start, end))
    }
}

/// Narrows `[start_byte, end_byte)` to the text of an indented region. If the first
/// line holds only spaces, tabs and carriage returns, the span starts behind its line
/// feed. Spaces and tabs at the end are dropped; no line feed is.
pub fn trim_bytes(source: &[u8], start_byte: usize, end_byte: usize) -> (trimmed: (usize, usize))
    ensures
        (trimmed.0 as int, trimmed.1 as int) == trim_bytes_of(
            source@,
            start_byte as int,
            end_byte as int,
        ),
        start_byte < end_byte <= source.len() ==> start_byte <= trimmed.0 <= trimmed.1 <= end_byte,
{
    if start_byte >= end_byte || end_byte > source.len() {
        return (start_byte, end_byte);
    }
    let mut feed = start_byte;
    let mut blank = true;
    while feed < end_byte && source[feed] != LINE_FEED
        invariant
            start_byte <= feed <= end_byte <= source.len(),
            next_line_feed(source@, start_byte as int, end_byte as int) == next_line_feed(
                source@,
                feed as int,
                end_byte as int,
            ),
            blank == all_blank(source@.subrange(start_byte as int, feed as int)),
        decreases end_byte - feed,
    {
        let byte = source[feed];
        let ghost seen = source@.subrange(start_byte as int, feed as int);
        let ghost more = source@.subrange(start_byte as int, feed as int + 1);
        proof {
            assert(more == seen.push(byte));
            assert(more[feed - start_byte] == byte);
            if all_blank(more) {
                assert forall|k: int| 0 <= k < seen.len() implies crate::directives::trim::is_blank_byte(
                    #[trigger] seen[k],
                ) by {
                    assert(seen[k] == more[k]);
                }
            }
        }
        if !(byte == SPACE || byte == TAB || byte == CARRIAGE_RETURN) {
            blank = false;
        }
        feed += 1;
    }
    let start = if feed < end_byte && blank {
        feed + 1
    } else {
        start_byte
    };
    let mut end = end_byte;
    while end > start && (source[end - 1] == SPACE || source[end - 1] == TAB)
        invariant
            start <= end <= end_byte <= source.len(),
            skip_indent_backward(source@, start as int, end_byte as int) == skip_indent_backward(
                source@,
                start as int,
                end as int,
            ),
        decreases end - start,
    {
        end -= 1;
    }
    (start, end)
}

} // verus!
