use vstd::prelude::*;
use crate::regex::program::InstrPtr;

verus! {

/// The capture slots of every thread, `slot_count_per_thread` for each.
#[derive(Clone, Debug)]
pub struct Slots {
    slot_count_per_thread: usize,
    slots: Vec<Option<usize>>,
}

impl Slots {
    pub closed spec fn per_thread(&self) -> nat {
        self.slot_count_per_thread as nat
    }

    /// All slots, thread after thread.
    pub closed spec fn all(&self) -> Seq<Option<usize>> {
        self.slots@
    }

    pub fn new(thread_count: usize, slot_count_per_thread: usize) -> (s: Self)
        requires
            thread_count * slot_count_per_thread <= usize::MAX,
        ensures
            s.per_thread() == slot_count_per_thread,
            s.all().len() == thread_count * slot_count_per_thread,
            forall|i: int| 0 <= i < s.all().len() ==> s.all()[i] is None,
    {
        let count = thread_count * slot_count_per_thread;
        Slots { slot_count_per_thread, slots: vec![None; count] }
    }

    /// The slots of the thread at `instr`.
    pub fn get(&self, instr: InstrPtr) -> (r: &[Option<usize>])
        requires
            (instr + 1) * self.per_thread() <= self.all().len(),
        ensures
            r@ == self.all().subrange(
                instr * self.per_thread(),
                instr * self.per_thread() + self.per_thread(),
            ),
    {
        // The length is read for the bound it gives: it fits in a usize.
        let _len = self.slots.len();
        proof {
            assert((instr + 1) * self.per_thread() == instr * self.per_thread() + self.per_thread())
                by (nonlinear_arith);
            assert(instr * self.per_thread() >= 0) by (nonlinear_arith);
        }
        let start = instr * self.slot_count_per_thread;
        vstd::slice::slice_subrange(self.slots.as_slice(), start, start + self.slot_count_per_thread)
    }
}

} // verus!
