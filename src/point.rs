use vstd::prelude::*;

verus! {

/// A position on the screen; the origin is the top left corner.
#[derive(Clone, Copy, Debug, PartialEq, Eq, Hash, Structural)]
pub struct Point {
    pub x: i32,
    pub y: i32,
}

/// Whether an integer coordinate can be held by a `Point`.
pub open spec fn in_coord_range(v: int) -> bool {
    i32::MIN <= v <= i32::MAX
}

/// The position `(x, y)` (both in range).
pub open spec fn pt(x: int, y: int) -> Point {
    Point { x: x as i32, y: y as i32 }
}

/// The absolute position of the cell at column `col` and row `row` of a grid
/// whose top left cell stands at `anchor`.
pub open spec fn offset_of(anchor: Point, col: int, row: int) -> Point {
    pt(anchor.x + col, anchor.y + row)
}

/// Whether `offset_of(anchor, col, row)` is representable.
pub open spec fn offset_fits(anchor: Point, col: int, row: int) -> bool {
    in_coord_range(anchor.x + col) && in_coord_range(anchor.y + row)
}

impl Point {
    pub fn new(x: i32, y: i32) -> (r: Point)
        ensures
            r == (Point { x, y }),
    {
        Point { x, y }
    }

    /// The position of the cell `col` columns right of and `row` rows below `self`.
    pub fn offset(self, col: usize, row: usize) -> (r: Point)
        requires
            offset_fits(self, col as int, row as int),
        ensures
            r == offset_of(self, col as int, row as int),
            r.x == self.x + col,
            r.y == self.y + row,
    {
        let x: i64 = self.x as i64 + col as i64;
        let y: i64 = self.y as i64 + row as i64;
        Point { x: x as i32, y: y as i32 }
    }
}

} // verus!
