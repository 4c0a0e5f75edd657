use vstd::prelude::*;

verus! {

/// A sparse set of integer values below a fixed capacity.
///
/// `dense` holds the values in insertion order; `sparse[v]` is the index of
/// `v` in `dense` when `v` is in the set, and anything otherwise.
#[derive(Clone, Debug, PartialEq, Eq, Hash)]
pub struct SparseSet {
    dense: Vec<usize>,
    sparse: Vec<usize>,
}

impl View for SparseSet {
    type V = Seq<usize>;

    /// The values in the set, in insertion order.
    closed spec fn view(&self) -> Seq<usize> {
        self.dense@
    }
}

impl SparseSet {
    /// The number of values the set can hold: values are below it.
    pub closed spec fn spec_capacity(&self) -> nat {
        self.sparse@.len()
    }

    pub closed spec fn wf(&self) -> bool {
        &&& self.dense@.len() <= self.sparse@.len()
        &&& self.sparse@.len() <= usize::MAX
        &&& forall|i: int|
            0 <= i < self.dense@.len() ==> #[trigger] self.dense@[i] < self.sparse@.len()
                && self.sparse@[self.dense@[i] as int] == i
    }

    /// No value occurs twice, and every value is below the capacity.
    pub proof fn lemma_wf(&self)
        requires
            self.wf(),
        ensures
            self@.no_duplicates(),
            forall|i: int| 0 <= i < self@.len() ==> #[trigger] self@[i] < self.spec_capacity(),
            self@.len() <= self.spec_capacity(),
    {
        assert forall|i: int, j: int|
            0 <= i < self@.len() && 0 <= j < self@.len() && i != j implies self@[i] != self@[j] by {
            assert(self.sparse@[self.dense@[i] as int] == i);
            assert(self.sparse@[self.dense@[j] as int] == j);
        }
    }

    /// Creates a new, empty set that holds values below `capacity`.
    pub fn new(capacity: usize) -> (s: Self)
        ensures
            s.wf(),
            s@ == Seq::<usize>::empty(),
            s.spec_capacity() == capacity,
    {
        Self { dense: Vec::with_capacity(capacity), sparse: vec![0; capacity] }
    }

    pub fn is_empty(&self) -> (b: bool)
        ensures
            b == (self@.len() == 0),
    {
        self.dense.len() == 0
    }

    pub fn capacity(&self) -> (n: usize)
        ensures
            n == self.spec_capacity(),
    {
        self.sparse.len()
    }

    /// The values in the set, in insertion order.
    pub fn as_slice(&self) -> (s: &[usize])
        ensures
            s@ == self@,
    {
        self.dense.as_slice()
    }

    /// Whether `value` is in the set.
    pub fn contains(&self, value: usize) -> (b: bool)
        requires
            self.wf(),
            value < self.spec_capacity(),
        ensures
            b == self@.contains(value),
    {
        let index = self.sparse[value];
        let b = index < self.dense.len() && self.dense[index] == value;
        proof {
            if self@.contains(value) {
                let i = choose|i: int| 0 <= i < self@.len() && self@[i] == value;
                assert(self.sparse@[self.dense@[i] as int] == i);
            }
        }
        b
    }

    /// The values in the set, in insertion order, one at a time.
    pub fn iter(&self) -> (it: Iter<'_>)
        ensures
            it.wf(),
            it.rest() == self@,
    {
        let it = Iter { values: self.dense.as_slice(), index: 0 };
        proof {
            assert(it.values@.skip(0) == it.values@);
        }
        it
    }

    /// Inserts `value` and returns whether it was not in the set before.
    pub fn insert(&mut self, value: usize) -> (b: bool)
        requires
            old(self).wf(),
            value < old(self).spec_capacity(),
        ensures
            final(self).wf(),
            final(self).spec_capacity() == old(self).spec_capacity(),
            b == !old(self)@.contains(value),
            b ==> final(self)@ == old(self)@.push(value),
            !b ==> final(self)@ == old(self)@,
    {
        if self.contains(value) {
            return false;
        }
        let index = self.dense.len();
        proof {
            self.lemma_wf();
            let dense = self@.push(value);
            assert(dense.no_duplicates());
            dense.unique_seq_to_set();
            assert forall|v: usize| dense.to_set().contains(v) implies v < self.spec_capacity() by {
                assert(dense.contains(v));
            }
            lemma_bounded_set_len(dense.to_set(), self.spec_capacity());
        }
        self.dense.push(value);
        self.sparse.set(value, index);
        proof {
            assert forall|i: int| 0 <= i < self.dense@.len() implies #[trigger] self.dense@[i]
                < self.sparse@.len() && self.sparse@[self.dense@[i] as int] == i by {
                if i < index {
                    assert(self.dense@[i] != value);
                }
            }
        }
        true
    }

    /// Removes all values.
    pub fn clear(&mut self)
        requires
            old(self).wf(),
        ensures
            final(self).wf(),
            final(self)@ == Seq::<usize>::empty(),
            final(self).spec_capacity() == old(self).spec_capacity(),
    {
        self.dense.clear();
    }
}

/// The values of a sparse set, in insertion order.
#[derive(Clone, Debug)]
pub struct Iter<'a> {
    values: &'a [usize],
    index: usize,
}

impl<'a> Iter<'a> {
    /// The values that are still to come.
    pub closed spec fn rest(&self) -> Seq<usize> {
        self.values@.skip(self.index as int)
    }

    pub closed spec fn wf(&self) -> bool {
        self.index <= self.values@.len()
    }

    /// The next value, or `None` when all have been given.
    pub fn next(&mut self) -> (r: Option<&'a usize>)
        requires
            old(self).wf(),
        ensures
            final(self).wf(),
            old(self).rest().len() == 0 ==> r is None && final(self).rest() == old(self).rest(),
            old(self).rest().len() > 0 ==> r == Some(&old(self).rest()[0]) && final(self).rest()
                == old(self).rest().drop_first(),
    {
        if self.index < self.values.len() {
            let value = &self.values[self.index];
            self.index = self.index + 1;
            proof {
                assert(self.values@.skip(self.index as int) == self.values@.skip(self.index - 1).drop_first());
            }
            Some(value)
        } else {
            None
        }
    }
}

/// A set of values below `bound` has at most `bound` elements.
proof fn lemma_bounded_set_len(s: Set<usize>, bound: nat)
    requires
        s.finite(),
        bound <= usize::MAX,
        forall|v: usize| s.contains(v) ==> v < bound,
    ensures
        s.len() <= bound,
    decreases bound,
{
    if bound == 0 {
        if s.len() > 0 {
            let v = s.choose();
            assert(s.contains(v));
        }
    } else {
        let top = (bound - 1) as usize;
        let rest = s.remove(top);
        lemma_bounded_set_len(rest, (bound - 1) as nat);
    }
}

} // verus!
