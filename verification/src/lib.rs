//! A dual-flavor lexical path library.
//!
//! Path strings are decomposed under one of two grammars — a slash-delimited
//! flavor and a drive/backslash flavor with UNC and device-prefix forms —
//! into a drive, a root and a sequence of segments.  On top of that sit an
//! immutable algebra (join, parent, rename, relativize, compare) and a glob
//! pattern engine that compiles wildcard expressions into a matcher and
//! drives directory traversal through an external enumeration capability.

pub mod errors;
pub mod flavor;
pub mod globpat;
pub mod grammar;
pub mod laws;
pub mod parsing;
pub mod pure_path;
pub mod strutil;
pub mod traverse;
