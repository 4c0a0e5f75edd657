use vstd::prelude::*;

verus! {

/// Display properties of characters.
pub trait CharExt {
    /// The number of columns the character takes up.
    fn column_count(self) -> (n: usize)
        ensures
            n == 1,
    ;
}

impl CharExt for char {
    fn column_count(self) -> (n: usize) {
        1
    }
}

} // verus!
