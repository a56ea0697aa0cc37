//! How much of the kernel heap is in use.

use vstd::prelude::*;

verus! {

/// The kernel heap's size and what is allocated of it, in bytes.
pub struct TrackedHeap {
    allocated: u64,
    capacity: u64,
}

/// What the counts are.
pub struct HeapView {
    pub allocated: u64,
    pub capacity: u64,
}

impl View for TrackedHeap {
    type V = HeapView;

    closed spec fn view(&self) -> HeapView {
        HeapView { allocated: self.allocated, capacity: self.capacity }
    }
}

impl TrackedHeap {
    /// Before there is a heap.
    pub fn empty() -> (r: Self)
        ensures
            r@ == (HeapView { allocated: 0, capacity: 0 }),
    {
        TrackedHeap { allocated: 0, capacity: 0 }
    }

    /// The heap has `heap_size` bytes, all free.
    pub fn init(&mut self, heap_size: u64)
        ensures
            final(self)@ == (HeapView { allocated: 0, capacity: heap_size }),
    {
        self.capacity = heap_size;
        self.allocated = 0;
    }

    /// Bytes that are free.
    pub fn free_bytes(&self) -> (r: u64)
        requires
            self@.allocated <= self@.capacity,
        ensures
            r == self@.capacity - self@.allocated,
    {
        self.capacity - self.allocated
    }

    /// Bytes that are allocated.
    pub fn allocated_bytes(&self) -> (r: u64)
        ensures
            r == self@.allocated,
    {
        self.allocated
    }

    /// Counts an allocation of `size` bytes, if the allocator granted it.
    pub fn note_alloc(&mut self, size: u64, granted: bool)
        ensures
            final(self)@ == (HeapView {
                allocated: if granted {
                    vstd::wrapping::u64_specs::wrapping_add(old(self)@.allocated, size)
                } else {
                    old(self)@.allocated
                },
                ..old(self)@
            }),
    {
        if granted {
            self.allocated = self.allocated.wrapping_add(size);
        }
    }

    /// Counts `size` bytes that were given back.
    pub fn note_dealloc(&mut self, size: u64)
        ensures
            final(self)@ == (HeapView {
                allocated: vstd::wrapping::u64_specs::wrapping_sub(old(self)@.allocated, size),
                ..old(self)@
            }),
    {
        self.allocated = self.allocated.wrapping_sub(size);
    }
}

/// Giving back what was allocated leaves the count as it was.
pub proof fn law_dealloc_undoes_alloc(allocated: u64, size: u64)
    ensures
        vstd::wrapping::u64_specs::wrapping_sub(
            vstd::wrapping::u64_specs::wrapping_add(allocated, size),
            size,
        ) == allocated,
{
}

} // verus!
