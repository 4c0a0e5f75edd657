use vstd::prelude::*;
use crate::regex::range::Range;

verus! {

/// The number of `true` entries among the first `i` of `marks`.
pub open spec fn count_marks(marks: Seq<bool>, i: int) -> nat
    decreases i,
{
    if i <= 0 {
        0
    } else {
        count_marks(marks, i - 1) + if marks[i - 1] {
            1nat
        } else {
            0nat
        }
    }
}

/// The class of each byte: bytes that no inserted range separates share a
/// class, and classes are numbered from 0 in byte order.
#[derive(Clone, Debug)]
pub struct ByteClassSet(Vec<u8>);

impl View for ByteClassSet {
    type V = Seq<u8>;

    /// The class of each of the 256 bytes.
    closed spec fn view(&self) -> Seq<u8> {
        self.0@
    }
}

impl ByteClassSet {
    pub closed spec fn wf(&self) -> bool {
        self.0@.len() == 256
    }

    /// The class of the last byte plus two.
    pub fn len(&self) -> (n: u16)
        requires
            self.wf(),
        ensures
            n == self@[255] + 2,
    {
        self.0[255] as u16 + 2
    }

    /// The class of `byte`.
    pub fn get(&self, byte: u8) -> (class: u8)
        requires
            self.wf(),
        ensures
            class == self@[byte as int],
    {
        self.0[byte as usize] as u8
    }
}

/// Collects the byte ranges whose bounds must separate classes.
#[derive(Debug)]
pub struct Builder([bool; 256]);

impl View for Builder {
    type V = Seq<bool>;

    /// Entry `i` says whether a class ends after byte `i`.
    closed spec fn view(&self) -> Seq<bool> {
        self.0@
    }
}

impl Builder {
    pub fn new() -> (b: Self)
        ensures
            b@.len() == 256,
            forall|i: int| 0 <= i < 256 ==> !b@[i],
    {
        Self([false; 256])
    }

    /// The class set: the class of byte `i` is the number of class ends before it.
    pub fn build(self) -> (set: ByteClassSet)
        ensures
            set.wf(),
            forall|i: int| 0 <= i < 256 ==> set@[i] == count_marks(self@, i),
    {
        let mut byte_classes: Vec<u8> = vec![0; 256];
        let mut byte_class: u8 = 0;
        let mut index: usize = 0;
        loop
            invariant
                index <= 255,
                byte_classes@.len() == 256,
                self@.len() == 256,
                byte_class == count_marks(self@, index as int),
                count_marks(self@, index as int) <= index,
                forall|i: int| 0 <= i < index ==> byte_classes@[i] == count_marks(self@, i),
            ensures
                byte_classes@.len() == 256,
                forall|i: int| 0 <= i < 256 ==> byte_classes@[i] == count_marks(self@, i),
            decreases 255 - index,
        {
            byte_classes.set(index, byte_class);
            if index == 255 {
                break;
            }
            if self.0[index] {
                byte_class = byte_class + 1;
            }
            index = index + 1;
        }
        ByteClassSet(byte_classes)
    }

    /// Marks the bounds of `byte_range`: a class ends before its start and
    /// after its end.
    pub fn insert(&mut self, byte_range: Range<u8>)
        requires
            old(self)@.len() == 256,
        ensures
            final(self)@.len() == 256,
            forall|i: int|
                0 <= i < 256 ==> #[trigger] final(self)@[i] == (old(self)@[i] || (byte_range.start > 0
                    && i == byte_range.start - 1) || i == byte_range.end),
    {
        if byte_range.start > 0 {
            self.0[byte_range.start as usize - 1] = true;
        }
        self.0[byte_range.end as usize] = true;
    }
}

/// Counting up to a later index counts at least as many marks.
pub proof fn lemma_count_marks_mono(marks: Seq<bool>, i: int, j: int)
    requires
        0 <= i <= j <= marks.len(),
    ensures
        count_marks(marks, i) <= count_marks(marks, j),
        count_marks(marks, i) == count_marks(marks, j) <==> forall|k: int| i <= k < j ==> !marks[k],
    decreases j - i,
{
    if i < j {
        lemma_count_marks_mono(marks, i, j - 1);
    }
}

/// Two bytes share a class exactly when no class ends from the first up to
/// before the second: every byte range that was inserted is a union of classes.
pub proof fn lemma_same_class(builder_marks: Seq<bool>, classes: Seq<u8>, a: int, b: int)
    requires
        builder_marks.len() == 256,
        classes.len() == 256,
        forall|i: int| 0 <= i < 256 ==> classes[i] == count_marks(builder_marks, i),
        0 <= a <= b < 256,
    ensures
        classes[a] == classes[b] <==> forall|k: int| a <= k < b ==> !builder_marks[k],
{
    lemma_count_marks_mono(builder_marks, a, b);
}

} // verus!
