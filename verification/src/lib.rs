//! Formatting of documents whose text holds regions written in other languages.
//!
//! The library finds the embedded regions of a parsed document, prepares each for a
//! formatter of its own language, and puts the formatted regions back without touching
//! the bytes around them.
pub mod range;
pub mod strings;
pub mod text;
pub mod escape;
pub mod predicate;
pub mod directives;
pub mod ignore;
pub mod opts;
pub mod injections;
pub mod syntax;
pub mod grammar;
pub mod extract;
pub mod config;
pub mod splice;
pub mod region;
pub mod indent;
pub mod accounting;
pub mod format;
pub mod intact;
pub mod protocol;
pub mod queries;
pub mod runner;
