use vstd::prelude::*;

verus! {

/// A value that can stand in a cell: copied freely, and compared for
/// equality when a refresh looks for changes.
pub trait CellValue: Copy {
    /// Whether `self` and `other` are the same value.
    fn same(&self, other: &Self) -> (r: bool)
        ensures
            r == (*self == *other),
    ;
}

impl CellValue for char {
    fn same(&self, other: &char) -> (r: bool) {
        *self == *other
    }
}

impl CellValue for bool {
    fn same(&self, other: &bool) -> (r: bool) {
        *self == *other
    }
}

impl CellValue for u8 {
    fn same(&self, other: &u8) -> (r: bool) {
        *self == *other
    }
}

impl CellValue for u16 {
    fn same(&self, other: &u16) -> (r: bool) {
        *self == *other
    }
}

impl CellValue for u32 {
    fn same(&self, other: &u32) -> (r: bool) {
        *self == *other
    }
}

impl CellValue for i32 {
    fn same(&self, other: &i32) -> (r: bool) {
        *self == *other
    }
}

} // verus!
