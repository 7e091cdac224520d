//! Position value types: logical buffer coordinates and wrapped visual
//! coordinates.

use vstd::prelude::*;

verus! {

/// A logical position in the document: a row index and a byte offset within
/// that row's UTF-8 text.
#[derive(Debug, Clone, Copy, PartialEq, Eq, Structural)]
pub struct BufferPosition {
    pub row: usize,
    pub column: usize,
}

impl BufferPosition {
    pub fn new(row: usize, column: usize) -> (r: Self)
        ensures
            r.row == row,
            r.column == column,
    {
        Self { row, column }
    }

    pub fn zero() -> (r: Self)
        ensures
            r.row == 0,
            r.column == 0,
    {
        Self { row: 0, column: 0 }
    }
}

/// A screen-space position: an index across all wrapped segments of the whole
/// document, and a byte offset within that segment.
#[derive(Debug, Clone, Copy, PartialEq, Eq, Structural)]
pub struct VisualPosition {
    pub visual_row: usize,
    pub column: usize,
}

impl VisualPosition {
    pub fn new(visual_row: usize, column: usize) -> (r: Self)
        ensures
            r.visual_row == visual_row,
            r.column == column,
    {
        Self { visual_row, column }
    }
}

} // verus!
