//! The options of a region, and when two of them are the same.
use crate::escape::{holds_all, same_strings, string_views};
use vstd::prelude::*;
use vstd::std_specs::cmp::PartialEqSpecImpl;

verus! {

/// What a region asks of the formatter besides its language.
#[derive(Clone, Debug)]
pub struct InjectionOpts {
    /// The strings that stand escaped inside the region, read as a set.
    pub escape_chars: Vec<String>,
}

impl PartialEq for InjectionOpts {
    /// Two options are equal when they name the same escape strings, in whatever order
    /// and however often.
    fn eq(&self, other: &Self) -> (same: bool) {
        holds_all(other.escape_chars.as_slice(), self.escape_chars.as_slice()) && holds_all(
            self.escape_chars.as_slice(),
            other.escape_chars.as_slice(),
        )
    }
}

impl PartialEqSpecImpl for InjectionOpts {
    open spec fn obeys_eq_spec() -> bool {
        true
    }

    open spec fn eq_spec(&self, other: &Self) -> bool {
        same_strings(string_views(self.escape_chars@), string_views(other.escape_chars@))
    }
}

impl Eq for InjectionOpts {

}

} // verus!
