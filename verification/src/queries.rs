//! Query files: how the query of a grammar and the queries laid over it become one.
use crate::strings::{from_chars, to_chars};
use crate::text::{char_is_whitespace, is_whitespace, line_end};
use vstd::prelude::*;

verus! {

/// `base` with `overlay` laid over it: the two texts one after the other, on lines of
/// their own. An empty text gives way to the other.
pub open spec fn merged_queries(base: Seq<char>, overlay: Seq<char>) -> Seq<char> {
    if base.len() == 0 {
        overlay
    } else if overlay.len() == 0 {
        base
    } else if base.last() == '\n' {
        base + overlay
    } else {
        base.push('\n') + overlay
    }
}

/// Lays the query `overlay` over the query `base`.
pub fn merge_queries(base: &str, overlay: &str) -> (merged: String)
    ensures
        merged@ == merged_queries(base@, overlay@),
{
    let first = to_chars(base);
    let second = to_chars(overlay);
    if first.len() == 0 {
        return overlay.to_owned();
    }
    if second.len() == 0 {
        return base.to_owned();
    }
    let mut out: Vec<char> = Vec::new();
    let mut i: usize = 0;
    while i < first.len()
        invariant
            i <= first.len(),
            out@ == first@.take(i as int),
        decreases first.len() - i,
    {
        out.push(first[i]);
        proof {
            assert(first@.take(i as int + 1) == first@.take(i as int).push(first@[i as int]));
        }
        i += 1;
    }
    proof {
        assert(first@.take(first.len() as int) == first@);
    }
    if first[first.len() - 1] != '\n' {
        out.push('\n');
    }
    let ghost head = out@;
    let mut j: usize = 0;
    proof {
        assert(out@ == head + second@.take(0));
    }
    while j < second.len()
        invariant
            j <= second.len(),
            out@ == head + second@.take(j as int),
        decreases second.len() - j,
    {
        out.push(second[j]);
        proof {
            assert(second@.take(j as int + 1) == second@.take(j as int).push(second@[j as int]));
            assert(out@ == head + second@.take(j as int + 1));
        }
        j += 1;
    }
    proof {
        assert(second@.take(second.len() as int) == second@);
    }
    from_chars(out.as_slice())
}

/// The words that mark a query as laid over the one before it.
pub open spec fn extends_words() -> Seq<char> {
    ";; extends"@
}

/// The first place at or after `from`, before `end`, that holds no white space; `end`
/// where there is none.
pub open spec fn skip_whitespace(s: Seq<char>, from: int, end: int) -> int
    decreases end - from,
{
    if 0 <= from < end && from < s.len() && is_whitespace(s[from]) {
        skip_whitespace(s, from + 1, end)
    } else {
        from
    }
}

/// The first line of `contents`, white space at its start apart, begins with
/// `;; extends`.
pub open spec fn extends_marked(contents: Seq<char>) -> bool {
    let end = line_end(contents, 0);
    let start = skip_whitespace(contents, 0, end);
    extends_words().is_prefix_of(contents.subrange(start, end))
}

/// Tells whether a query is laid over the one before it instead of taking its place:
/// whether its first line begins with `;; extends`.
pub fn is_extending(contents: &str) -> (extending: bool)
    ensures
        extending == extends_marked(contents@),
{
    let chars = to_chars(contents);
    let words = to_chars(";; extends");
    let mut end: usize = 0;
    while end < chars.len() && chars[end] != '\n'
        invariant
            end <= chars.len(),
            line_end(chars@, 0) == line_end(chars@, end as int),
        decreases chars.len() - end,
    {
        end += 1;
    }
    let mut start: usize = 0;
    while start < end && char_is_whitespace(chars[start])
        invariant
            start <= end <= chars.len(),
            skip_whitespace(chars@, 0, end as int) == skip_whitespace(
                chars@,
                start as int,
                end as int,
            ),
        decreases end - start,
    {
        start += 1;
    }
    let ghost line = chars@.subrange(start as int, end as int);
    if words.len() > end - start {
        return false;
    }
    let mut i: usize = 0;
    while i < words.len()
        invariant
            i <= words.len() <= end - start,
            start <= end <= chars.len(),
            line == chars@.subrange(start as int, end as int),
            chars@ == contents@,
            end == line_end(chars@, 0),
            start == skip_whitespace(chars@, 0, end as int),
            words@ == extends_words(),
            forall|k: int| 0 <= k < i ==> words@[k] == line[k],
        decreases words.len() - i,
    {
        if words[i] != chars[start + i] {
            proof {
                assert(line[i as int] == chars@[start + i]);
                assert(line.subrange(0, words.len() as int)[i as int] == line[i as int]);
            }
            return false;
        }
        proof {
            assert(line[i as int] == chars@[start + i]);
        }
        i += 1;
    }
    proof {
        assert(line.subrange(0, words.len() as int) =~= words@);
    }
    true
}

} // verus!
