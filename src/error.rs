use vstd::prelude::*;

verus! {

/// The conditions that abort the processing of a document.
#[derive(Debug, Clone, Copy, PartialEq, Eq)]
pub enum DocumentError {
    /// A coordinate was infinite or not a number.
    InvalidNumber,
    /// A code had no entry in the font's direct code-to-text map.
    UnmappableCode,
    /// A content stream selected a font that the page does not declare.
    UnknownFont,
    /// The page tree nests deeper than the traversal allows.
    TreeTooDeep,
    /// A required bookmark could not be resolved to a page.
    ResolutionFailure,
    /// The top-level outline list runs in a cycle or beyond its limit.
    OutlineTooLong,
    /// A captured offset is no decimal that fits in a signed byte.
    InvalidOffset,
}

} // verus!
