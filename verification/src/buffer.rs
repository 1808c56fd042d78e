//! Fixed capacity ring buffer remembering the most recent elements.
use vstd::prelude::*;

verus! {

/// Ring buffer of capacity `N` which keeps the `N` most recent elements,
/// dropping the oldest one when a new element is pushed into a full buffer.
pub struct HistoryBuffer<T, const N: usize> {
    data: Vec<Option<T>>,
    write_at: usize,
    count: usize,
}

impl<T, const N: usize> HistoryBuffer<T, N> {
    /// Physical slot holding the `i`-th oldest element of a buffer with the given write position and fill level.
    pub closed spec fn slot_of(write_at: int, count: int, i: int) -> int {
        let j = write_at - count + i;
        if j < 0 { j + N } else { j }
    }

    #[verifier::inline]
    spec fn slot(&self, i: int) -> int {
        Self::slot_of(self.write_at as int, self.count as int, i)
    }

    /// Consistency of the ring buffer parts.
    pub closed spec fn wf_of(data: Seq<Option<T>>, write_at: int, count: int) -> bool {
        &&& data.len() == N
        &&& 0 <= count <= N
        &&& N == 0 ==> write_at == 0
        &&& N > 0 ==> 0 <= write_at < N
        &&& forall|i: int| 0 <= i < count ==> (#[trigger] data[Self::slot_of(write_at, count, i)]) is Some
    }

    /// Contents described by the ring buffer parts, oldest element first.
    pub closed spec fn view_of(data: Seq<Option<T>>, write_at: int, count: int) -> Seq<T> {
        Seq::new(count as nat, |i: int| data[Self::slot_of(write_at, count, i)]->0)
    }

    /// Internal consistency of the ring buffer.
    pub closed spec fn wf(&self) -> bool {
        Self::wf_of(self.data@, self.write_at as int, self.count as int)
    }

    /// Contents of the buffer, oldest element first.
    pub closed spec fn view(&self) -> Seq<T> {
        Self::view_of(self.data@, self.write_at as int, self.count as int)
    }

    /// Slot the next element is written to.
    pub closed spec fn spec_write_at(&self) -> nat {
        self.write_at as nat
    }

    /// A consistent buffer holds at most `N` elements.
    pub proof fn lemma_len_bound(&self)
        requires
            self.wf(),
        ensures
            self.view().len() <= N,
    {
    }

    /// Creates an empty buffer.
    pub fn new() -> (r: Self)
        ensures
            r.wf(),
            r.view() == Seq::<T>::empty(),
            r.spec_write_at() == 0,
    {
        let mut data: Vec<Option<T>> = Vec::new();
        let mut i: usize = 0;
        while i < N
            invariant
                i <= N,
                data@.len() == i,
            decreases N - i,
        {
            data.push(None);
            i += 1;
        }
        let r = Self { data, write_at: 0, count: 0 };
        assert(r.view() =~= Seq::<T>::empty());
        r
    }

    /// Returns the current fill level of the buffer.
    pub fn len(&self) -> (r: usize)
        requires
            self.wf(),
        ensures
            r == self.view().len(),
            r <= N,
    {
        self.count
    }

    /// Returns the capacity of the buffer, which is the length of the underlying backing array.
    pub fn capacity(&self) -> (r: usize)
        ensures
            r == N,
    {
        N
    }

    /// Slot of the backing array that the next element is written to.
    pub fn write_at(&self) -> (r: usize)
        ensures
            r == self.spec_write_at(),
    {
        self.write_at
    }

    /// Whether the buffer has reached its capacity.
    pub fn filled(&self) -> (r: bool)
        requires
            self.wf(),
        ensures
            r == (N > 0 && self.view().len() == N),
    {
        N > 0 && self.count == N
    }

    /// Writes an element to the buffer, returning the oldest value if the buffer has reached capacity.
    pub fn push(&mut self, t: T) -> (r: Option<T>)
        requires
            old(self).wf(),
            N > 0,
        ensures
            final(self).wf(),
            old(self).view().len() < N ==> r is None && final(self).view() == old(self).view().push(t),
            old(self).view().len() == N ==> r == Some(old(self).view()[0])
                && final(self).view() == old(self).view().drop_first().push(t),
            final(self).spec_write_at() == (if old(self).spec_write_at() + 1 == N { 0 } else {
                old(self).spec_write_at() + 1
            }),
    {
        let ghost old_view = self.view();
        let ghost old_self = *self;
        let w = self.write_at;
        let old_value = if self.count == N {
            assert(old_self.slot(0) == w);
            self.data[w].take()
        } else {
            None
        };
        self.data[w] = Some(t);
        self.write_at = if w + 1 == N { 0 } else { w + 1 };
        if self.count < N {
            self.count = self.count + 1;
        }
        proof {
            if old_self.count == N {
                assert forall|i: int| 0 <= i < self.count implies (#[trigger] self.data@[self.slot(i)]) is Some by {
                    if i + 1 < N {
                        assert(self.slot(i) == old_self.slot(i + 1));
                    }
                }
                assert(self.view() =~= old_view.drop_first().push(t)) by {
                    assert forall|i: int| 0 <= i < self.count implies self.view()[i] == old_view.drop_first().push(t)[i] by {
                        if i + 1 < N {
                            assert(self.slot(i) == old_self.slot(i + 1));
                        }
                    }
                }
            } else {
                assert forall|i: int| 0 <= i < self.count implies (#[trigger] self.data@[self.slot(i)]) is Some by {
                    if i < old_self.count {
                        assert(self.slot(i) == old_self.slot(i));
                    }
                }
                assert(self.view() =~= old_view.push(t)) by {
                    assert forall|i: int| 0 <= i < self.count implies self.view()[i] == old_view.push(t)[i] by {
                        if i < old_self.count {
                            assert(self.slot(i) == old_self.slot(i));
                        }
                    }
                }
            }
        }
        old_value
    }

    /// Calculates the index in the underlying array for the given offset from the back,
    /// where an offset of zero indicates the latest element and increasing offsets target older elements.
    fn index_for_offset(&self, offset: usize) -> (r: Option<usize>)
        requires
            self.wf(),
        ensures
            offset >= self.view().len() ==> r is None,
            offset < self.view().len() ==> r == Some(self.slot(self.view().len() - 1 - offset) as usize)
                && r->0 < N,
    {
        if offset >= self.count {
            return None;
        }
        let index = if self.write_at > offset {
            self.write_at - 1 - offset
        } else {
            N - 1 - (offset - self.write_at)
        };
        Some(index)
    }

    /// Peeks at the last element in the buffer.
    pub fn back(&self) -> (r: Option<&T>)
        requires
            self.wf(),
        ensures
            self.view().len() == 0 ==> r is None,
            self.view().len() > 0 ==> r == Some(&self.view().last()),
    {
        self.peek_back(0)
    }

    /// Peeks at the n-th element from the back where an offset of zero returns the latest element.
    pub fn peek_back(&self, offset: usize) -> (r: Option<&T>)
        requires
            self.wf(),
        ensures
            offset >= self.view().len() ==> r is None,
            offset < self.view().len() ==> r == Some(&self.view()[self.view().len() - 1 - offset]),
    {
        match self.index_for_offset(offset) {
            Some(index) => match &self.data[index] {
                Some(value) => Some(value),
                None => None,
            },
            None => None,
        }
    }

    /// Element at the given offset from the back; the offset has to be in range.
    pub fn index(&self, offset: usize) -> (r: &T)
        requires
            self.wf(),
            offset < self.view().len(),
        ensures
            *r == self.view()[self.view().len() - 1 - offset],
    {
        self.peek_back(offset).unwrap()
    }

    /// Mutable version of [`peek_back`](HistoryBuffer::peek_back).
    pub fn peek_back_mut(&mut self, offset: usize) -> (r: Option<&mut T>)
        requires
            old(self).wf(),
        ensures
            offset >= old(self).view().len() ==> r is None && *final(self) == *old(self),
            offset < old(self).view().len() ==> r is Some
                && *r->0 == old(self).view()[old(self).view().len() - 1 - offset]
                && final(self).wf()
                && final(self).view() == old(self).view().update(
                    old(self).view().len() - 1 - offset,
                    *final(r->0),
                ),
    {
        match self.index_for_offset(offset) {
            Some(index) => {
                let ghost k = self.view().len() - 1 - offset;
                proof {
                    self.lemma_update_slot(k);
                }
                match &mut self.data[index] {
                    Some(value) => Some(value),
                    None => None,
                }
            },
            None => None,
        }
    }

    proof fn lemma_update_slot(&self, k: int)
        requires
            self.wf(),
            0 <= k < self.count,
        ensures
            forall|x: T|
                #![trigger Self::view_of(self.data@.update(self.slot(k), Some(x)), self.write_at as int, self.count as int)]
                Self::wf_of(self.data@.update(self.slot(k), Some(x)), self.write_at as int, self.count as int)
                && Self::view_of(self.data@.update(self.slot(k), Some(x)), self.write_at as int, self.count as int)
                    == self.view().update(k, x),
    {
        assert forall|x: T|
            #![trigger Self::view_of(self.data@.update(self.slot(k), Some(x)), self.write_at as int, self.count as int)]
            Self::wf_of(self.data@.update(self.slot(k), Some(x)), self.write_at as int, self.count as int)
            && Self::view_of(self.data@.update(self.slot(k), Some(x)), self.write_at as int, self.count as int)
                == self.view().update(k, x) by {
            let d = self.data@.update(self.slot(k), Some(x));
            assert forall|i: int| 0 <= i < self.count implies (#[trigger] d[Self::slot_of(self.write_at as int, self.count as int, i)]) is Some by {
                assert(Self::slot_of(self.write_at as int, self.count as int, i) == self.slot(i));
            }
            assert(Self::view_of(d, self.write_at as int, self.count as int) =~= self.view().update(k, x));
        }
    }

    /// References to the elements at the offsets of the given range, where offset zero is the
    /// latest element and increasing offsets return older elements.
    pub fn iter(&self, range: core::ops::Range<usize>) -> (r: Vec<&T>)
        requires
            self.wf(),
            range.start < range.end ==> range.end <= self.view().len(),
        ensures
            r@.len() == (if range.start < range.end { range.end - range.start } else { 0 }),
            forall|j: int|
                0 <= j < r@.len() ==> *#[trigger] r@[j] == self.view()[self.view().len() - 1
                    - (range.start + j)],
    {
        let mut out: Vec<&T> = Vec::new();
        let start = range.start;
        let end = range.end;
        let mut offset = start;
        while offset < end
            invariant
                self.wf(),
                start < end ==> start <= offset <= end && end <= self.view().len(),
                start >= end ==> offset == start,
                offset >= start,
                out@.len() == offset - start,
                forall|j: int|
                    0 <= j < out@.len() ==> *#[trigger] out@[j] == self.view()[self.view().len() - 1
                        - (start + j)],
            decreases end - offset,
        {
            out.push(self.index(offset));
            offset += 1;
        }
        out
    }

    /// Removes the latest element from the buffer.
    pub fn pop(&mut self) -> (r: Option<T>)
        requires
            old(self).wf(),
        ensures
            final(self).wf(),
            old(self).view().len() == 0 ==> r is None && *final(self) == *old(self),
            old(self).view().len() > 0 ==> r == Some(old(self).view().last())
                && final(self).view() == old(self).view().drop_last()
                && final(self).spec_write_at() == (if old(self).spec_write_at() == 0 {
                N - 1
            } else {
                old(self).spec_write_at() - 1
            }),
    {
        if self.count == 0 {
            return None;
        }
        let ghost old_view = self.view();
        let ghost old_self = *self;
        let w = if self.write_at == 0 { N - 1 } else { self.write_at - 1 };
        assert(old_self.slot(old_self.count - 1) == w);
        self.write_at = w;
        self.count = self.count - 1;
        let r = self.data[w].take();
        proof {
            assert forall|i: int| 0 <= i < self.count implies (#[trigger] self.data@[self.slot(i)]) is Some by {
                assert(self.slot(i) == old_self.slot(i));
            }
            assert(self.view() =~= old_view.drop_last()) by {
                assert forall|i: int| 0 <= i < self.count implies self.view()[i] == old_view.drop_last()[i] by {
                    assert(self.slot(i) == old_self.slot(i));
                }
            }
        }
        r
    }
}

} // verus!
