//! The device that hands out memory objects, and what is known of it.

use vstd::prelude::*;
use crate::types::{AllocationFlags, MemoryHeap, MemoryType};

verus! {

/// The device could not provide a memory object.
#[derive(Clone, Copy, Debug, PartialEq, Eq, Hash, Structural)]
pub enum OutOfMemory {
    OutOfDeviceMemory,
    OutOfHostMemory,
}

/// The device could not map a memory object.
#[derive(Clone, Copy, Debug, PartialEq, Eq, Hash, Structural)]
pub enum DeviceMapError {
    OutOfDeviceMemory,
    OutOfHostMemory,
    MapFailed,
}

/// A range of a mapped memory object, for flushing and invalidating.
#[derive(Debug)]
pub struct MappedMemoryRange<'a, M> {
    /// The memory object.
    pub memory: &'a M,
    /// Offset of the range in bytes from the start of the memory object.
    pub offset: u64,
    /// Size of the range in bytes.
    pub size: u64,
}

/// Properties of the device that memory objects are allocated from.
///
/// `T` holds the memory types and `H` the memory heaps, owned or borrowed.
#[derive(Debug)]
pub struct DeviceProperties<T, H> {
    /// Memory types provided by the device.
    pub memory_types: T,
    /// Memory heaps provided by the device.
    pub memory_heaps: H,
    /// Maximum number of memory objects that can exist at the same time.
    pub max_memory_allocation_count: u32,
    /// Maximum size of a single memory object.
    pub max_memory_allocation_size: u64,
    /// Atom size for host-mappable memory that is not coherent.
    pub non_coherent_atom_size: u64,
    /// Whether memory objects can be allocated for use with device addresses.
    pub buffer_device_address: bool,
}

impl<'a> DeviceProperties<&'a [MemoryType], &'a [MemoryHeap]> {
    /// Whether an allocator can be made for a device with these properties: there are
    /// at most 32 memory types, each drawing from a heap that exists, and the atom size
    /// is a power of two that a host address can hold.
    pub open spec fn spec_is_valid(&self) -> bool {
        &&& self.memory_types@.len() <= 32
        &&& forall|i: int|
            0 <= i < self.memory_types@.len() ==> (#[trigger] self.memory_types@[i]).heap
                < self.memory_heaps@.len()
        &&& crate::align::spec_is_power_of_two(self.non_coherent_atom_size)
        &&& self.non_coherent_atom_size <= isize::MAX
    }

    /// Whether an allocator can be made for a device with these properties.
    #[verifier::when_used_as_spec(spec_is_valid)]
    pub fn is_valid(&self) -> (r: bool)
        ensures
            r == self.spec_is_valid(),
    {
        if self.memory_types.len() > 32 {
            return false;
        }
        if !crate::align::is_power_of_two(self.non_coherent_atom_size) {
            return false;
        }
        if self.non_coherent_atom_size > isize::MAX as u64 {
            return false;
        }
        let mut i: usize = 0;
        while i < self.memory_types.len()
            invariant
                i <= self.memory_types@.len(),
                forall|j: int|
                    0 <= j < i ==> (#[trigger] self.memory_types@[j]).heap
                        < self.memory_heaps@.len(),
            decreases self.memory_types@.len() - i,
        {
            if self.memory_types[i].heap as usize >= self.memory_heaps.len() {
                return false;
            }
            i += 1;
        }
        true
    }
}

impl DeviceProperties<Vec<MemoryType>, Vec<MemoryHeap>> {
    /// The same properties, with the memory types and heaps borrowed.
    pub fn by_ref(&self) -> (r: DeviceProperties<&[MemoryType], &[MemoryHeap]>)
        ensures
            r.memory_types@ == self.memory_types@,
            r.memory_heaps@ == self.memory_heaps@,
            r.max_memory_allocation_count == self.max_memory_allocation_count,
            r.max_memory_allocation_size == self.max_memory_allocation_size,
            r.non_coherent_atom_size == self.non_coherent_atom_size,
            r.buffer_device_address == self.buffer_device_address,
    {
        DeviceProperties {
            memory_types: self.memory_types.as_slice(),
            memory_heaps: self.memory_heaps.as_slice(),
            max_memory_allocation_count: self.max_memory_allocation_count,
            max_memory_allocation_size: self.max_memory_allocation_size,
            non_coherent_atom_size: self.non_coherent_atom_size,
            buffer_device_address: self.buffer_device_address,
        }
    }
}

/// A device that allocates the memory objects to sub-allocate from.
///
/// `M` is the handle of a memory object. Host addresses are plain numbers: the device
/// that maps a memory object also copies bytes to and from the mapping.
///
/// Nothing is assumed of what the device returns. What is required of a call is what
/// the allocator and its blocks see to: memory objects and mapped ranges are not
/// empty, and ranges do not wrap around.
pub trait MemoryDevice<M> {
    /// Allocates a new memory object of `size` bytes from the memory type with index
    /// `memory_type`.
    fn allocate_memory(&self, size: u64, memory_type: u32, flags: AllocationFlags) -> Result<
        M,
        OutOfMemory,
    >
        requires
            size > 0,
    ;

    /// Gives a memory object back to the device. Every copy of the handle becomes invalid.
    fn deallocate_memory(&self, memory: M);

    /// Maps `size` bytes of the memory object, starting at `offset`, into host address
    /// space, and returns the host address of the first byte.
    fn map_memory(&self, memory: &M, offset: u64, size: u64) -> Result<usize, DeviceMapError>
        requires
            size > 0,
            offset + size <= u64::MAX,
    ;

    /// Unmaps a memory object that was mapped.
    fn unmap_memory(&self, memory: &M);

    /// Makes device writes to the ranges visible to the host.
    fn invalidate_memory_ranges(&self, ranges: &[MappedMemoryRange<'_, M>]) -> Result<
        (),
        OutOfMemory,
    >
        requires
            forall|i: int|
                0 <= i < ranges@.len() ==> (#[trigger] ranges@[i]).offset + ranges@[i].size
                    <= u64::MAX,
    ;

    /// Makes host writes to the ranges visible to the device.
    fn flush_memory_ranges(&self, ranges: &[MappedMemoryRange<'_, M>]) -> Result<(), OutOfMemory>
        requires
            forall|i: int|
                0 <= i < ranges@.len() ==> (#[trigger] ranges@[i]).offset + ranges@[i].size
                    <= u64::MAX,
    ;

    /// Copies `data` into mapped memory, starting at the host address `address`.
    fn write_mapped(&self, address: usize, data: &[u8])
        requires
            address + data@.len() <= usize::MAX,
    ;

    /// Copies mapped memory, starting at the host address `address`, into `data`.
    fn read_mapped(&self, address: usize, data: &mut [u8])
        requires
            address + old(data)@.len() <= usize::MAX,
    ;
}

} // verus!
