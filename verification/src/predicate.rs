//! The predicates and properties that a query attaches to its patterns, as plain values.
use crate::strings::to_chars;
use vstd::prelude::*;

verus! {

/// One argument of a predicate: a capture, by its index in the query, or a string.
#[derive(Clone, Debug, PartialEq, Eq)]
pub enum PredicateArg {
    Capture(u32),
    String(String),
}

/// A predicate of a pattern: an operator such as `offset!` and its arguments.
#[derive(Clone, Debug, PartialEq, Eq)]
pub struct Predicate {
    pub operator: String,
    pub args: Vec<PredicateArg>,
}

/// A property that a pattern sets: a key and, where one is given, a value.
#[derive(Clone, Debug, PartialEq, Eq)]
pub struct Property {
    pub key: String,
    pub value: Option<String>,
}

/// What a pattern carries besides its nodes: the properties it sets and its predicates,
/// each list in the order of declaration.
#[derive(Clone, Debug, PartialEq, Eq)]
pub struct PatternInfo {
    pub properties: Vec<Property>,
    pub predicates: Vec<Predicate>,
}

/// Tells whether two strings hold the same characters.
pub fn same_text(a: &str, b: &str) -> (same: bool)
    ensures
        same == (a@ == b@),
{
    let x = to_chars(a);
    let y = to_chars(b);
    if x.len() != y.len() {
        return false;
    }
    let mut i: usize = 0;
    while i < x.len()
        invariant
            i <= x.len(),
            x.len() == y.len(),
            x@ == a@,
            y@ == b@,
            forall|k: int| 0 <= k < i ==> x@[k] == y@[k],
        decreases x.len() - i,
    {
        if x[i] != y[i] {
            proof {
                assert(a@[i as int] != b@[i as int]);
            }
            return false;
        }
        i += 1;
    }
    proof {
        assert(x@ =~= y@);
    }
    true
}

/// `needle` occurs in `hay` as a run of consecutive characters.
pub open spec fn occurs_in(needle: Seq<char>, hay: Seq<char>) -> bool {
    exists|at: int| 0 <= at <= hay.len() && #[trigger] needle.is_prefix_of(hay.skip(at))
}

/// Tells whether `needle` occurs in `hay`.
pub fn contains_text(hay: &str, needle: &str) -> (found: bool)
    ensures
        found == occurs_in(needle@, hay@),
{
    let text = to_chars(hay);
    let pattern = to_chars(needle);
    if pattern.len() == 0 {
        proof {
            assert(pattern@.is_prefix_of(text@.skip(0)));
        }
        return true;
    }
    let mut at: usize = 0;
    while at < text.len()
        invariant
            at <= text.len(),
            text@ == hay@,
            pattern@ == needle@,
            pattern.len() > 0,
            forall|k: int| 0 <= k < at ==> !#[trigger] pattern@.is_prefix_of(text@.skip(k)),
        decreases text.len() - at,
    {
        if pattern.len() <= text.len() - at {
            let mut i: usize = 0;
            while i < pattern.len() && pattern[i] == text[at + i]
                invariant
                    at <= text.len(),
                    i <= pattern.len() <= text.len() - at,
                    forall|k: int| 0 <= k < i ==> pattern@[k] == text@[at + k],
                decreases pattern.len() - i,
            {
                i += 1;
            }
            if i == pattern.len() {
                proof {
                    assert(text@.skip(at as int).subrange(0, pattern.len() as int) =~= pattern@);
                    assert(pattern@.is_prefix_of(text@.skip(at as int)));
                }
                return true;
            }
            proof {
                assert(text@.skip(at as int)[i as int] == text@[at + i]);
            }
        }
        at += 1;
    }
    proof {
        assert forall|k: int| 0 <= k <= text.len() implies !#[trigger] pattern@.is_prefix_of(
            text@.skip(k),
        ) by {
            if k == text.len() {
                assert(text@.skip(k).len() == 0);
            }
        }
    }
    false
}

} // verus!
