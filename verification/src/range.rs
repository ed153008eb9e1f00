//! Positions and spans inside a document.
use vstd::prelude::*;

verus! {

/// A position as a zero-based row and a zero-based byte column within that row.
#[derive(Clone, Copy, Debug, PartialEq, Eq, Structural)]
pub struct Point {
    pub row: usize,
    pub column: usize,
}

/// A span of a document, by bytes and by points.
#[derive(Clone, Copy, Debug, PartialEq, Eq, Structural)]
pub struct Range {
    pub start_byte: usize,
    pub end_byte: usize,
    pub start_point: Point,
    pub end_point: Point,
}

impl Point {
    /// Lexicographic order on (row, column).
    pub open spec fn le(self, other: Point) -> bool {
        self.row < other.row || (self.row == other.row && self.column <= other.column)
    }
}

impl Range {
    /// The bytes of the span lie in order and inside a document of `len` bytes.
    pub open spec fn fits(self, len: int) -> bool {
        self.start_byte <= self.end_byte && self.end_byte <= len
    }

    /// The span is well formed for a document of `len` bytes: bytes and points in order.
    pub open spec fn well_formed(self, len: int) -> bool {
        self.fits(len) && self.start_point.le(self.end_point)
    }

    /// `self` lies inside `outer`, both ends included.
    pub open spec fn inside(self, outer: Range) -> bool {
        self.start_byte >= outer.start_byte && self.end_byte <= outer.end_byte
    }

    /// The two spans share no byte.
    pub open spec fn disjoint(self, other: Range) -> bool {
        self.end_byte <= other.start_byte || other.end_byte <= self.start_byte
    }
}

} // verus!
