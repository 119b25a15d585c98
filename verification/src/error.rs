//! The ways in which a geometric query can have no answer.

use vstd::prelude::*;

verus! {

/// Why a query on lines or polygons has no representable answer.
#[derive(Copy, Clone, Debug, PartialEq, Eq, Structural)]
pub enum GeometryError {
    /// The line has no length: it is unbounded.
    InfiniteLine,
    /// The two points that define the line are closer than the tolerance.
    DegenerateLine,
    /// The two lines have the same direction, up to the tolerance.
    ParallelLines,
    /// The answer does not fit the grid.
    OutOfRange,
}

/// The result of a scalar query, as a mathematical integer.
pub open spec fn widen(r: Result<i64, GeometryError>) -> Result<int, GeometryError> {
    match r {
        Ok(v) => Ok(v as int),
        Err(e) => Err(e),
    }
}

} // verus!
