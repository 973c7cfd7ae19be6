//! Accounting of the bytes taken from one memory heap.

use vstd::prelude::*;

verus! {

/// The budget of one memory heap of the device.
///
/// `used` never exceeds `size`. The two cumulative counters count every byte ever
/// taken and given back, modulo `2^128`; their difference is `used`.
#[derive(Debug)]
pub struct Heap {
    size: u64,
    used: u64,
    allocated: u128,
    deallocated: u128,
}

impl Heap {
    /// Size of the heap in bytes.
    pub closed spec fn spec_size(&self) -> u64 {
        self.size
    }

    /// Bytes of the heap that are taken.
    pub closed spec fn spec_used(&self) -> u64 {
        self.used
    }

    /// Bytes ever taken from the heap, modulo `2^128`.
    pub closed spec fn spec_cumulative_allocated(&self) -> u128 {
        self.allocated
    }

    /// Bytes ever given back to the heap, modulo `2^128`.
    pub closed spec fn spec_cumulative_deallocated(&self) -> u128 {
        self.deallocated
    }

    /// Bytes of the heap that are free.
    pub open spec fn spec_budget(&self) -> int {
        self.spec_size() - self.spec_used()
    }

    /// The invariant of a heap.
    pub open spec fn wf(&self) -> bool {
        &&& self.spec_used() <= self.spec_size()
        &&& self.spec_cumulative_allocated().wrapping_sub(self.spec_cumulative_deallocated())
            == self.spec_used() as u128
    }

    /// A heap of `size` bytes of which none is taken.
    pub fn new(size: u64) -> (r: Heap)
        ensures
            r.wf(),
            r.spec_size() == size,
            r.spec_used() == 0,
            r.spec_cumulative_allocated() == 0,
            r.spec_cumulative_deallocated() == 0,
    {
        Heap { size, used: 0, allocated: 0, deallocated: 0 }
    }

    /// Size of the heap in bytes.
    #[verifier::when_used_as_spec(spec_size)]
    pub fn size(&self) -> (r: u64)
        ensures
            r == self.spec_size(),
    {
        self.size
    }

    /// Bytes of the heap that are taken.
    #[verifier::when_used_as_spec(spec_used)]
    pub fn used(&self) -> (r: u64)
        ensures
            r == self.spec_used(),
    {
        self.used
    }

    /// Bytes ever taken from the heap, modulo `2^128`.
    #[verifier::when_used_as_spec(spec_cumulative_allocated)]
    pub fn cumulative_allocated(&self) -> (r: u128)
        ensures
            r == self.spec_cumulative_allocated(),
    {
        self.allocated
    }

    /// Bytes ever given back to the heap, modulo `2^128`.
    #[verifier::when_used_as_spec(spec_cumulative_deallocated)]
    pub fn cumulative_deallocated(&self) -> (r: u128)
        ensures
            r == self.spec_cumulative_deallocated(),
    {
        self.deallocated
    }

    /// Bytes of the heap that are free.
    pub fn budget(&self) -> (r: u64)
        requires
            self.wf(),
        ensures
            r == self.spec_budget(),
    {
        self.size - self.used
    }

    /// Takes `size` bytes from the heap.
    pub fn allocate(&mut self, size: u64)
        requires
            old(self).wf(),
            size <= old(self).spec_budget(),
        ensures
            final(self).wf(),
            final(self).spec_size() == old(self).spec_size(),
            final(self).spec_used() == old(self).spec_used() + size,
            final(self).spec_cumulative_allocated() == old(
                self,
            ).spec_cumulative_allocated().wrapping_add(size as u128),
            final(self).spec_cumulative_deallocated() == old(self).spec_cumulative_deallocated(),
    {
        self.used += size;
        self.allocated = self.allocated.wrapping_add(size as u128);
    }

    /// Gives `size` bytes back to the heap.
    pub fn dealloc(&mut self, size: u64)
        requires
            old(self).wf(),
            size <= old(self).spec_used(),
        ensures
            final(self).wf(),
            final(self).spec_size() == old(self).spec_size(),
            final(self).spec_used() == old(self).spec_used() - size,
            final(self).spec_cumulative_allocated() == old(self).spec_cumulative_allocated(),
            final(self).spec_cumulative_deallocated() == old(
                self,
            ).spec_cumulative_deallocated().wrapping_add(size as u128),
    {
        self.used -= size;
        self.deallocated = self.deallocated.wrapping_add(size as u128);
    }
}

} // verus!
