//! Source locations carried by IR nodes and diagnostics.

use vstd::prelude::*;

verus! {

/// Identifies one loaded source file.
#[derive(Clone, Copy, PartialEq, Eq, PartialOrd, Ord, Debug, Structural)]
pub struct FileId {
    /// Position of the file in its load order.
    pub index: u32,
}

/// A half-open byte range `[start, end)` within one source file.
#[derive(Clone, Copy, PartialEq, Eq, Debug, Structural)]
pub struct Span {
    /// The file the range lies in.
    pub file: FileId,
    /// First byte of the range.
    pub start: u32,
    /// One past the last byte of the range.
    pub end: u32,
}

impl Span {
    /// The range `[start, end)` of `file`.
    pub fn new(file: FileId, start: u32, end: u32) -> (s: Span)
        ensures
            s == (Span { file, start, end }),
    {
        Span { file, start, end }
    }
}

} // verus!
