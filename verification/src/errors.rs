use vstd::prelude::*;

verus! {

/// The error kinds of the engine.
///
/// `IO` marks a missing or unreadable file or directory (in the pure model, a
/// directory without an index file). `NamingConvention` marks a path segment
/// without the required numeric separator, or a file whose derived title is
/// empty. `MarkdownConversion` marks content that fails to parse.
/// `LocatorResolution` marks a path that cannot be expressed relative to the
/// content root. `WrongKind` marks a section found where a page was
/// expected, or the reverse.
#[derive(Clone, Copy, Debug, PartialEq, Eq, Structural)]
pub enum Error {
    IO,
    NamingConvention,
    MarkdownConversion,
    LocatorResolution,
    WrongKind,
}

impl Error {
    /// A short human-readable description of the error kind.
    pub fn message(&self) -> (r: &'static str)
        ensures
            r@ == match *self {
                Error::IO => "missing or unreadable file or directory"@,
                Error::NamingConvention => "name lacks the required order separator or title"@,
                Error::MarkdownConversion => "content failed to parse as markdown"@,
                Error::LocatorResolution => "path is not under the content root"@,
                Error::WrongKind => "expected a section but found a page, or the reverse"@,
            },
    {
        match *self {
            Error::IO => "missing or unreadable file or directory",
            Error::NamingConvention => "name lacks the required order separator or title",
            Error::MarkdownConversion => "content failed to parse as markdown",
            Error::LocatorResolution => "path is not under the content root",
            Error::WrongKind => "expected a section but found a page, or the reverse",
        }
    }
}

} // verus!
