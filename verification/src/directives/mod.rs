//! The directives that a query may attach to a pattern, each read from the pattern's
//! predicates or properties into plain values. A directive that is not well formed is
//! left out; it never stops the others.
pub mod escape;
pub mod gsub;
pub mod indented;
pub mod offset;
pub mod trim;
