//! The semantic error categories the path algebra and pattern engine
//! report.

use vstd::prelude::*;

verus! {

/// Why an operation was refused.
#[derive(Clone, Copy, PartialEq, Eq, Structural, Debug)]
pub enum PathError {
    /// A new name or suffix handed to a rewrite operation is empty, holds a
    /// separator, or (for a suffix) lacks its leading dot.
    InvalidComponent,
    /// A rewrite operation targets a path whose name is empty (a root or
    /// anchor-only path).
    EmptyName,
    /// Relativization was asked for and the candidate is not a structural
    /// prefix, or the anchors differ.
    NotRelative,
    /// Comparison or relativization was attempted across two paths of
    /// different flavors.
    FlavorMismatch,
    /// A glob pattern is malformed (an unterminated character class).
    PatternCompileError,
    /// A traversal root could not be opened by the enumeration collaborator.
    TraversalIOError,
}

impl PathError {
    /// A short description of the error.
    pub fn describe(&self) -> (r: &'static str)
        ensures
            r@.len() > 0,
    {
        let s = match self {
            PathError::InvalidComponent => "invalid name or suffix",
            PathError::EmptyName => "path has an empty name",
            PathError::NotRelative => "path is not in the subpath of the other",
            PathError::FlavorMismatch => "paths have different flavors",
            PathError::PatternCompileError => "malformed glob pattern",
            PathError::TraversalIOError => "traversal root cannot be opened",
        };
        proof {
            reveal_strlit("invalid name or suffix");
            reveal_strlit("path has an empty name");
            reveal_strlit("path is not in the subpath of the other");
            reveal_strlit("paths have different flavors");
            reveal_strlit("malformed glob pattern");
            reveal_strlit("traversal root cannot be opened");
        }
        s
    }
}

} // verus!
