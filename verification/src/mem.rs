//! A small arena: stable indices into a growable buffer, with a free list so
//! that slots released by `dealloc` are handed out again by `alloc`.

use vstd::prelude::*;

verus! {

/// Arena storage.  `buffer` holds one value per slot ever allocated; `free`
/// holds the indices that have been released and may be reused.
#[derive(Clone, Debug)]
pub struct Memory<T> {
    buffer: Vec<T>,
    free: Vec<usize>,
}

impl<T> Memory<T> {
    /// All slot values, in slot order.
    pub closed spec fn buf(self) -> Seq<T> {
        self.buffer@
    }

    /// The indices currently on the free list, oldest first.
    pub closed spec fn free_list(self) -> Seq<usize> {
        self.free@
    }

    /// Every index on the free list refers to an existing slot.
    pub open spec fn wf(self) -> bool {
        forall|i: int| 0 <= i < self.free_list().len() ==> self.free_list()[i] < self.buf().len()
    }
}

impl<T: Clone> Memory<T> {
    /// An empty arena.
    pub fn new() -> (r: Self)
        ensures
            r.buf() == Seq::<T>::empty(),
            r.free_list() == Seq::<usize>::empty(),
            r.wf(),
    {
        Self { buffer: Vec::<T>::new(), free: Vec::new() }
    }

    /// A copy of every slot value, in slot order.
    pub fn items(&self) -> (r: Vec<T>)
        ensures
            r@.len() == self.buf().len(),
            forall|i: int| 0 <= i < r@.len() ==> cloned::<T>(self.buf()[i], r@[i]),
    {
        self.buffer.clone()
    }

    /// Store `value` in a free slot if one exists, otherwise in a fresh slot
    /// at the end of the buffer; returns the slot index.
    pub fn allocate(&mut self, value: T) -> (r: usize)
        requires
            old(self).wf(),
        ensures
            final(self).wf(),
            r < final(self).buf().len(),
            final(self).buf()[r as int] == value,
            if old(self).free_list().len() == 0 {
                final(self).buf() == old(self).buf().push(value) && r == old(self).buf().len()
                    && final(self).free_list() == old(self).free_list()
            } else {
                r == old(self).free_list().last() && final(self).buf() == old(self).buf().update(
                    r as int,
                    value,
                ) && final(self).free_list() == old(self).free_list().drop_last()
            },
    {
        if let Some(index) = self.free.pop() {
            proof {
                assert(old(self).free_list()[old(self).free_list().len() - 1] < old(
                    self,
                ).buf().len());
            }
            self.buffer.set(index, value);
            index
        } else {
            self.buffer.push(value);
            self.buffer.len() - 1
        }
    }

    /// Release the slot `ptr`; its value stays in place until `alloc` reuses
    /// the slot.
    pub fn dealloc(&mut self, ptr: usize)
        requires
            ptr < old(self).buf().len(),
        ensures
            final(self).buf() == old(self).buf(),
            final(self).free_list() == old(self).free_list().push(ptr),
            old(self).wf() ==> final(self).wf(),
    {
        self.free.push(ptr);
    }

    /// Read the slot `ptr`.
    pub fn deref(&self, ptr: usize) -> (r: &T)
        requires
            ptr < self.buf().len(),
        ensures
            *r == self.buf()[ptr as int],
    {
        &self.buffer[ptr]
    }

    /// Borrow the slot `ptr` for writing.
    pub fn deref_mut(&mut self, ptr: usize) -> (r: &mut T)
        requires
            ptr < old(self).buf().len(),
        ensures
            *r == old(self).buf()[ptr as int],
            final(self).buf() == old(self).buf().update(ptr as int, *final(r)),
            final(self).free_list() == old(self).free_list(),
    {
        &mut self.buffer[ptr]
    }
}

} // verus!
