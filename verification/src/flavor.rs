//! Path flavor: slash-based vs. backslash/drive-based grammar.

use vstd::prelude::*;

verus! {

/// The grammar a path string is read under.  `Posix` separates segments with
/// `/` and is case-sensitive; `Windows` uses `\` with `/` accepted as an
/// alternate separator, knows drive letters and UNC authorities, and compares
/// case-insensitively.
#[derive(Clone, Copy, PartialEq, Eq, Structural, Debug, Hash)]
pub enum PathFlavor {
    Posix,
    Windows,
}

/// Primary separator character of a flavor.
pub open spec fn sep_char(f: PathFlavor) -> char {
    match f {
        PathFlavor::Posix => '/',
        PathFlavor::Windows => '\\',
    }
}

/// Alternate separator character of a flavor, if it has one.
pub open spec fn alt_sep_char(f: PathFlavor) -> Option<char> {
    match f {
        PathFlavor::Posix => None,
        PathFlavor::Windows => Some('/'),
    }
}

/// Whether `c` acts as a separator under flavor `f`.
pub open spec fn is_sep_char(f: PathFlavor, c: char) -> bool {
    c == sep_char(f) || alt_sep_char(f) == Some(c)
}

impl PathFlavor {
    /// Returns the separator for this flavor.
    pub fn sep(&self) -> (c: char)
        ensures
            c == sep_char(*self),
    {
        match self {
            PathFlavor::Posix => '/',
            PathFlavor::Windows => '\\',
        }
    }

    /// Returns the alternate separator for this flavor (if any).
    pub fn altsep(&self) -> (c: Option<char>)
        ensures
            c == alt_sep_char(*self),
    {
        match self {
            PathFlavor::Posix => None,
            PathFlavor::Windows => Some('/'),
        }
    }

    /// Check if a character is a separator for this flavor.
    pub fn is_sep(&self, c: char) -> (r: bool)
        ensures
            r == is_sep_char(*self, c),
    {
        match self {
            PathFlavor::Posix => c == '/',
            PathFlavor::Windows => c == '\\' || c == '/',
        }
    }

    /// Returns the flavor of the platform this library is built for; hosts
    /// with the slash grammar select `Posix` at this single point.
    pub fn current() -> (r: Self)
        ensures
            r == PathFlavor::Posix,
    {
        PathFlavor::Posix
    }
}

} // verus!
