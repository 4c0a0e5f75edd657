use vstd::prelude::*;
use crate::regex::range::Range;

verus! {

/// Folds ranges of code points into their case counterparts, with a stack of
/// ranges still to fold.
#[derive(Clone, Debug, Default)]
pub struct CaseFolder {
    stack: Vec<Range<u32>>,
}

impl CaseFolder {
    /// The ranges still to fold.
    pub closed spec fn pending(&self) -> Seq<Range<u32>> {
        self.stack@
    }

    pub fn new() -> (f: Self)
        ensures
            f.pending() == Seq::<Range<u32>>::empty(),
    {
        CaseFolder { stack: Vec::new() }
    }
}

/// The inputs on which `apply_delta` computes without overflow.
pub open spec fn apply_delta_defined(range: Range<u32>, delta: i32) -> bool {
    if delta == 1 {
        true
    } else if delta == -1 {
        (range.start % 2 == 0 ==> range.start > 0) && (range.end % 2 == 1 ==> (if range.start % 2 == 0 {
            range.start - 1
        } else {
            range.start as int
        }) < u32::MAX)
    } else {
        i32::MIN <= (range.start as i32) + delta <= i32::MAX && i32::MIN <= (range.end as i32) + delta
            <= i32::MAX
    }
}

/// Maps a range of code points to the range of their case counterparts.
///
/// A delta of 1 or -1 stands for alternating upper and lower case letters: the
/// range is widened to whole pairs. Any other delta shifts the range.
pub fn apply_delta(range: Range<u32>, delta: i32) -> (r: Range<u32>)
    requires
        apply_delta_defined(range, delta),
    ensures
        delta == 1 ==> r.start == (if range.start % 2 == 1 {
            range.start - 1
        } else {
            range.start as int
        }) && r.end == (if range.end % 2 == 0 {
            range.end + 1
        } else {
            range.end as int
        }),
        delta == -1 ==> r.start == (if range.start % 2 == 0 {
            range.start - 1
        } else {
            range.start as int
        }) + (if range.end % 2 == 1 {
            1int
        } else {
            0
        }) && r.end == range.end,
        delta != 1 && delta != -1 ==> r.start == (((range.start as i32) + delta) as i32) as u32 && r.end == (((
        range.end as i32) + delta) as i32) as u32,
{
    let mut range = range;
    if delta == 1 {
        if range.start % 2 == 1 {
            range.start = range.start - 1;
        }
        if range.end % 2 == 0 {
            range.end = range.end + 1;
        }
    } else if delta == -1 {
        if range.start % 2 == 0 {
            range.start = range.start - 1;
        }
        if range.end % 2 == 1 {
            range.start = range.start + 1;
        }
    } else {
        range.start = (range.start as i32 + delta) as u32;
        range.end = (range.end as i32 + delta) as u32;
    }
    range
}

} // verus!
