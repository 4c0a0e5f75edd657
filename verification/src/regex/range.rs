use vstd::prelude::*;

verus! {

/// An inclusive range of values.
#[derive(Clone, Copy, Debug, PartialEq, Eq, Structural, Hash)]
pub struct Range<T> {
    pub start: T,
    pub end: T,
}

impl<T> Range<T> {
    pub fn new(start: T, end: T) -> (r: Self)
        ensures
            r.start == start,
            r.end == end,
    {
        Self { start, end }
    }
}

impl Range<u8> {
    /// Whether `value` lies in the range, both ends included.
    pub fn contains(&self, value: &u8) -> (b: bool)
        ensures
            b == (self.start <= *value && *value <= self.end),
    {
        self.start <= *value && *value <= self.end
    }
}

} // verus!
