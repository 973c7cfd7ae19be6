//! Memory blocks: ranges of memory objects, handed out by the allocator.

use vstd::prelude::*;
use crate::align::{
    align_down, align_up, is_low_mask, lemma_sum_aligned, spec_align_down, spec_align_up,
};
use crate::device::{DeviceMapError, MappedMemoryRange, MemoryDevice, OutOfMemory};
use crate::error::MapError;
use crate::types::MemoryPropertyFlags;

verus! {

/// How a block was allocated, with what its allocator needs to take it back.
///
/// `ptr` is the host address of the block's first byte, where the block's chunk is
/// mapped.
#[derive(Clone, Copy, Debug, PartialEq, Eq, Structural)]
#[allow(inconsistent_fields)]
pub enum MemoryBlockFlavor {
    /// The block is a memory object of its own.
    Dedicated,
    /// The block lies in the chunk `chunk` of a linear allocator.
    Linear { chunk: u64, ptr: Option<usize> },
    /// The block is the node `index` of its size class, in the chunk `chunk` of a buddy
    /// allocator.
    Buddy { chunk: usize, index: usize, ptr: Option<usize> },
}

impl MemoryBlockFlavor {
    /// The host address of the block's first byte, for a block in a mapped chunk.
    pub open spec fn ptr(&self) -> Option<usize> {
        match *self {
            MemoryBlockFlavor::Dedicated => None,
            MemoryBlockFlavor::Linear { ptr, .. } => ptr,
            MemoryBlockFlavor::Buddy { ptr, .. } => ptr,
        }
    }
}

/// A range of a memory object of the device.
#[derive(Debug)]
pub struct MemoryBlock<M> {
    pub(crate) memory_type: u32,
    pub(crate) props: MemoryPropertyFlags,
    pub(crate) memory: M,
    pub(crate) offset: u64,
    pub(crate) size: u64,
    pub(crate) map_mask: u64,
    pub(crate) mapped: bool,
    pub(crate) flavor: MemoryBlockFlavor,
}

/// The range of a memory object that is mapped for a dedicated block, and how far into
/// the mapping the requested offset lies.
#[derive(Clone, Copy, Debug, PartialEq, Eq, Structural)]
pub struct MappingRange {
    /// Offset of the mapped range from the start of the memory object.
    pub offset: u64,
    /// Size of the mapped range.
    pub size: u64,
    /// Distance from the start of the mapped range to the requested offset.
    pub shift: u64,
}

/// What `map` returns for a dedicated block, given what the device returned for the
/// mapping: the device's address moved forward by `shift`. An address from which
/// `shift` and then `size` bytes do not fit into the address space counts as a failed
/// mapping.
pub open spec fn spec_dedicated_address(
    mapped: Result<usize, DeviceMapError>,
    shift: u64,
    size: usize,
) -> Result<usize, MapError> {
    match mapped {
        Ok(address) => if address + shift + size <= usize::MAX {
            Ok((address + shift) as usize)
        } else {
            Err(MapError::MapFailed)
        },
        Err(DeviceMapError::OutOfDeviceMemory) => Err(MapError::OutOfDeviceMemory),
        Err(DeviceMapError::OutOfHostMemory) => Err(MapError::OutOfHostMemory),
        Err(DeviceMapError::MapFailed) => Err(MapError::MapFailed),
    }
}

/// The address of the requested offset in a mapping that the device made.
#[verifier::when_used_as_spec(spec_dedicated_address)]
pub fn dedicated_address(mapped: Result<usize, DeviceMapError>, shift: u64, size: usize) -> (r:
    Result<usize, MapError>)
    ensures
        r == spec_dedicated_address(mapped, shift, size),
{
    match mapped {
        Ok(address) => {
            if shift <= usize::MAX as u64 {
                match address.checked_add(shift as usize) {
                    Some(moved) => if moved <= usize::MAX - size {
                        Ok(moved)
                    } else {
                        Err(MapError::MapFailed)
                    },
                    None => Err(MapError::MapFailed),
                }
            } else {
                Err(MapError::MapFailed)
            }
        },
        Err(DeviceMapError::OutOfDeviceMemory) => Err(MapError::OutOfDeviceMemory),
        Err(DeviceMapError::OutOfHostMemory) => Err(MapError::OutOfHostMemory),
        Err(DeviceMapError::MapFailed) => Err(MapError::MapFailed),
    }
}

/// Where the device maps a dedicated block at a multiple of `mask + 1`, the address
/// that `map` returns is as far from such a multiple as the requested offset is.
pub proof fn lemma_dedicated_address_congruent(address: usize, shift: u64, mask: u64, size: usize)
    requires
        address % ((mask + 1) as usize) == 0,
        address + shift + size <= usize::MAX,
        mask < u64::MAX,
        mask + 1 <= usize::MAX,
    ensures
        spec_dedicated_address(Ok(address), shift, size) == Ok::<usize, MapError>(
            (address + shift) as usize,
        ),
        (address + shift) % (mask + 1) == shift % ((mask + 1) as u64),
{
    let m = (mask + 1) as int;
    let q = (address as int) / m;
    vstd::arithmetic::div_mod::lemma_fundamental_div_mod(address as int, m);
    assert(address as int == q * m) by (nonlinear_arith)
        requires
            address as int == m * q + 0,
    ;
    vstd::arithmetic::div_mod::lemma_mod_multiples_vanish(q, shift as int, m);
    assert(q * m + shift == m * q + shift) by (nonlinear_arith);
}

/// The result of a transient access, given what flushing or invalidating returned.
pub open spec fn spec_access_result(synced: Result<(), OutOfMemory>) -> Result<(), MapError> {
    match synced {
        Ok(()) => Ok(()),
        Err(OutOfMemory::OutOfDeviceMemory) => Err(MapError::OutOfDeviceMemory),
        Err(OutOfMemory::OutOfHostMemory) => Err(MapError::OutOfHostMemory),
    }
}

/// The result of a transient access, given what flushing or invalidating returned.
#[verifier::when_used_as_spec(spec_access_result)]
pub fn access_result(synced: Result<(), OutOfMemory>) -> (r: Result<(), MapError>)
    ensures
        r == spec_access_result(synced),
{
    match synced {
        Ok(()) => Ok(()),
        Err(OutOfMemory::OutOfDeviceMemory) => Err(MapError::OutOfDeviceMemory),
        Err(OutOfMemory::OutOfHostMemory) => Err(MapError::OutOfHostMemory),
    }
}

impl<M> MemoryBlock<M> {
    /// The parent memory object.
    pub closed spec fn spec_memory(&self) -> M {
        self.memory
    }

    /// Offset in bytes from the start of the memory object to the start of the block.
    pub closed spec fn spec_offset(&self) -> u64 {
        self.offset
    }

    /// Size of the block in bytes.
    pub closed spec fn spec_size(&self) -> u64 {
        self.size
    }

    /// Properties of the memory that the block lies in.
    pub closed spec fn spec_props(&self) -> MemoryPropertyFlags {
        self.props
    }

    /// Index of the memory type that the block lies in.
    pub closed spec fn spec_memory_type(&self) -> u32 {
        self.memory_type
    }

    /// The mask that offsets and sizes of mapped ranges are rounded to.
    pub closed spec fn spec_map_mask(&self) -> u64 {
        self.map_mask
    }

    /// Whether the block is mapped: between a `map` and the `unmap` that follows.
    pub closed spec fn spec_is_mapped(&self) -> bool {
        self.mapped
    }

    /// How the block was allocated.
    pub closed spec fn spec_flavor(&self) -> MemoryBlockFlavor {
        self.flavor
    }

    /// The invariant of a block: it is not empty, it ends within the address space of
    /// the device, and where its chunk is mapped it ends within that of the host; the
    /// mask that it is mapped with is a mask of low bits, and the block starts at a
    /// multiple of what the mask stands for.
    pub open spec fn wf(&self) -> bool {
        &&& self.spec_size() > 0
        &&& self.spec_offset() + self.spec_size() <= u64::MAX
        &&& is_low_mask(self.spec_map_mask())
        &&& self.spec_offset() & self.spec_map_mask() == 0
        &&& match self.spec_flavor().ptr() {
            Some(ptr) => ptr + self.spec_size() <= usize::MAX,
            None => true,
        }
    }

    /// Whether the bytes `offset .. offset + size` of the block can be mapped: the range
    /// starts in the block, ends in it, and still fits when rounded.
    pub open spec fn can_map(&self, offset: u64, size: usize) -> bool {
        &&& offset < self.spec_size()
        &&& size <= self.spec_size() - offset
        &&& offset + size + self.spec_map_mask() <= u64::MAX
        &&& self.spec_offset() + offset + size + self.spec_map_mask() <= u64::MAX
    }

    /// The range of the memory object that is mapped to reach the bytes
    /// `offset .. offset + size` of a dedicated block: it starts at the block's offset
    /// plus `offset` rounded down, and ends where `size` rounded up, counted from
    /// `offset`, ends.
    pub open spec fn spec_mapping_range(&self, offset: u64, size: usize) -> MappingRange {
        let aligned_offset = spec_align_down(offset, self.spec_map_mask());
        let aligned_size = spec_align_up(size as u64, self.spec_map_mask())->0;
        MappingRange {
            offset: (self.spec_offset() + aligned_offset) as u64,
            size: (offset + aligned_size - aligned_offset) as u64,
            shift: (offset - aligned_offset) as u64,
        }
    }

    /// The range of the memory object that is flushed after a write to the bytes
    /// `offset .. offset + size` of the block, and invalidated before a read of them,
    /// as offset and size: the offset rounded down, and the size rounded up.
    pub open spec fn spec_sync_range(&self, offset: u64, size: usize) -> (u64, u64) {
        (
            (self.spec_offset() + spec_align_down(offset, self.spec_map_mask())) as u64,
            spec_align_up(size as u64, self.spec_map_mask())->0,
        )
    }

    /// A block that is not mapped, made of its parts.
    pub(crate) fn from_parts(
        memory_type: u32,
        props: MemoryPropertyFlags,
        memory: M,
        offset: u64,
        size: u64,
        map_mask: u64,
        flavor: MemoryBlockFlavor,
    ) -> (r: Self)
        ensures
            r.spec_memory_type() == memory_type,
            r.spec_props() == props,
            r.spec_memory() == memory,
            r.spec_offset() == offset,
            r.spec_size() == size,
            r.spec_map_mask() == map_mask,
            r.spec_flavor() == flavor,
            !r.spec_is_mapped(),
    {
        MemoryBlock { memory_type, props, memory, offset, size, map_mask, mapped: false, flavor }
    }

    /// The memory object, the flavor, the memory type, the offset and the size of the
    /// block.
    pub(crate) fn into_parts(self) -> (r: (M, MemoryBlockFlavor, u32, u64, u64))
        ensures
            r.0 == self.spec_memory(),
            r.1 == self.spec_flavor(),
            r.2 == self.spec_memory_type(),
            r.3 == self.spec_offset(),
            r.4 == self.spec_size(),
    {
        (self.memory, self.flavor, self.memory_type, self.offset, self.size)
    }

    /// The parent memory object.
    pub fn memory(&self) -> (r: &M)
        ensures
            *r == self.spec_memory(),
    {
        &self.memory
    }

    /// Offset in bytes from the start of the memory object to the start of the block.
    #[verifier::when_used_as_spec(spec_offset)]
    pub fn offset(&self) -> (r: u64)
        ensures
            r == self.spec_offset(),
    {
        self.offset
    }

    /// Size of the block in bytes.
    #[verifier::when_used_as_spec(spec_size)]
    pub fn size(&self) -> (r: u64)
        ensures
            r == self.spec_size(),
    {
        self.size
    }

    /// Properties of the memory that the block lies in.
    #[verifier::when_used_as_spec(spec_props)]
    pub fn props(&self) -> (r: MemoryPropertyFlags)
        ensures
            r == self.spec_props(),
    {
        self.props
    }

    /// Index of the memory type that the block lies in.
    #[verifier::when_used_as_spec(spec_memory_type)]
    pub fn memory_type(&self) -> (r: u32)
        ensures
            r == self.spec_memory_type(),
    {
        self.memory_type
    }

    /// How the block was allocated.
    #[verifier::when_used_as_spec(spec_flavor)]
    pub fn flavor(&self) -> (r: MemoryBlockFlavor)
        ensures
            r == self.spec_flavor(),
    {
        self.flavor
    }

    /// The mask that offsets and sizes of mapped ranges are rounded to.
    #[verifier::when_used_as_spec(spec_map_mask)]
    pub fn map_mask(&self) -> (r: u64)
        ensures
            r == self.spec_map_mask(),
    {
        self.map_mask
    }

    /// Whether the block is mapped.
    #[verifier::when_used_as_spec(spec_is_mapped)]
    pub fn is_mapped(&self) -> (r: bool)
        ensures
            r == self.spec_is_mapped(),
    {
        self.mapped
    }

    /// The range that is mapped for a dedicated block.
    #[verifier::when_used_as_spec(spec_mapping_range)]
    pub fn mapping_range(&self, offset: u64, size: usize) -> (r: MappingRange)
        requires
            self.wf(),
            self.can_map(offset, size),
        ensures
            r == self.spec_mapping_range(offset, size),
            r.offset & self.spec_map_mask() == 0,
            r.offset + r.shift == self.spec_offset() + offset,
            r.shift <= self.spec_map_mask(),
            r.shift + size <= r.size,
            r.offset + r.size <= u64::MAX,
    {
        let aligned_offset = align_down(offset, self.map_mask);
        let aligned_size = align_up(size as u64, self.map_mask).unwrap();
        proof {
            lemma_sum_aligned(self.offset, aligned_offset, self.map_mask);
        }
        MappingRange {
            offset: self.offset + aligned_offset,
            size: offset + aligned_size - aligned_offset,
            shift: offset - aligned_offset,
        }
    }

    /// The range that is flushed or invalidated for an access.
    #[verifier::when_used_as_spec(spec_sync_range)]
    pub fn sync_range(&self, offset: u64, size: usize) -> (r: (u64, u64))
        requires
            self.wf(),
            self.can_map(offset, size),
        ensures
            r == self.spec_sync_range(offset, size),
            r.0 & self.spec_map_mask() == 0,
            r.1 & self.spec_map_mask() == 0,
            r.0 <= self.spec_offset() + offset,
            r.1 >= size,
            r.0 + r.1 <= u64::MAX,
    {
        let aligned_offset = align_down(offset, self.map_mask);
        let aligned_size = align_up(size as u64, self.map_mask).unwrap();
        proof {
            lemma_sum_aligned(self.offset, aligned_offset, self.map_mask);
        }
        (self.offset + aligned_offset, aligned_size)
    }

    /// Whether host access to the block needs no flush or invalidate.
    fn coherent(&self) -> (r: bool)
        ensures
            r == self.props.spec_is_host_coherent(),
    {
        self.props.is_host_coherent()
    }

    /// What `map` returns without asking the device: the address of the requested
    /// offset for a block in a mapped chunk, and an error for a block that the host
    /// cannot reach. `None` for a dedicated block in host-visible memory, which the
    /// device has to map.
    pub open spec fn spec_local_address(&self, offset: u64) -> Option<Result<usize, MapError>> {
        match self.spec_flavor() {
            MemoryBlockFlavor::Dedicated => if self.spec_props().spec_is_host_visible() {
                None
            } else {
                Some(Err(MapError::NonHostVisible))
            },
            MemoryBlockFlavor::Linear { ptr: Some(ptr), .. } => Some(
                Ok((ptr + offset) as usize),
            ),
            MemoryBlockFlavor::Buddy { ptr: Some(ptr), .. } => Some(Ok((ptr + offset) as usize)),
            _ => Some(Err(MapError::NonHostVisible)),
        }
    }

    fn map_memory_internal<D: MemoryDevice<M>>(&self, device: &D, offset: u64, size: usize) -> (r:
        Result<usize, MapError>)
        requires
            self.wf(),
            self.can_map(offset, size),
            self.spec_local_address(offset) is None ==> size > 0,
        ensures
            self.spec_local_address(offset) is Some ==> r == self.spec_local_address(offset)->0,
            r is Ok ==> r->Ok_0 + size <= usize::MAX,
            self.spec_local_address(offset) is None ==> r != Err::<usize, MapError>(
                MapError::NonHostVisible,
            ),
    {
        match self.flavor {
            MemoryBlockFlavor::Dedicated => {
                if !self.props.is_host_visible() {
                    return Err(MapError::NonHostVisible);
                }
                let range = self.mapping_range(offset, size);
                let mapped = device.map_memory(&self.memory, range.offset, range.size);
                match dedicated_address(mapped, range.shift, size) {
                    Ok(address) => Ok(address),
                    Err(err) => {
                        if mapped.is_ok() {
                            device.unmap_memory(&self.memory);
                        }
                        Err(err)
                    },
                }
            },
            MemoryBlockFlavor::Linear { ptr: Some(ptr), .. } => Ok(ptr + offset as usize),
            MemoryBlockFlavor::Buddy { ptr: Some(ptr), .. } => Ok(ptr + offset as usize),
            _ => Err(MapError::NonHostVisible),
        }
    }

    fn unmap_memory_internal<D: MemoryDevice<M>>(&self, device: &D) {
        match self.flavor {
            MemoryBlockFlavor::Dedicated => {
                device.unmap_memory(&self.memory);
            },
            MemoryBlockFlavor::Linear { .. } => {},
            MemoryBlockFlavor::Buddy { .. } => {},
        }
    }

    /// Maps the bytes `offset .. offset + size` of the block and returns the host
    /// address of the first of them. The block becomes mapped.
    ///
    /// A block in a chunk is mapped with its chunk: its address is returned without
    /// asking the device, also for an empty range. For a dedicated block the device
    /// maps the range `mapping_range(offset, size)`, which has at least one byte, and
    /// `dedicated_address` says what is returned for what the device returned.
    pub fn map<D: MemoryDevice<M>>(&mut self, device: &D, offset: u64, size: usize) -> (r: Result<
        usize,
        MapError,
    >)
        requires
            old(self).wf(),
            !old(self).spec_is_mapped(),
            old(self).can_map(offset, size),
            old(self).spec_local_address(offset) is None ==> size > 0,
        ensures
            final(self).wf(),
            final(self).spec_memory() == old(self).spec_memory(),
            final(self).spec_offset() == old(self).spec_offset(),
            final(self).spec_size() == old(self).spec_size(),
            final(self).spec_props() == old(self).spec_props(),
            final(self).spec_memory_type() == old(self).spec_memory_type(),
            final(self).spec_map_mask() == old(self).spec_map_mask(),
            final(self).spec_flavor() == old(self).spec_flavor(),
            final(self).spec_is_mapped() == (r is Ok),
            r is Ok ==> r->Ok_0 + size <= usize::MAX,
            old(self).spec_local_address(offset) is Some ==> r == old(self).spec_local_address(
                offset,
            )->0,
            old(self).spec_local_address(offset) is None ==> r != Err::<usize, MapError>(
                MapError::NonHostVisible,
            ),
    {
        let r = self.map_memory_internal(device, offset, size);
        if r.is_ok() {
            self.mapped = true;
        }
        r
    }

    /// Unmaps the block, which was mapped with `map`. The block becomes unmapped.
    pub fn unmap<D: MemoryDevice<M>>(&mut self, device: &D)
        requires
            old(self).spec_is_mapped(),
        ensures
            !final(self).spec_is_mapped(),
            final(self).wf() == old(self).wf(),
            final(self).spec_memory() == old(self).spec_memory(),
            final(self).spec_offset() == old(self).spec_offset(),
            final(self).spec_size() == old(self).spec_size(),
            final(self).spec_props() == old(self).spec_props(),
            final(self).spec_memory_type() == old(self).spec_memory_type(),
            final(self).spec_map_mask() == old(self).spec_map_mask(),
            final(self).spec_flavor() == old(self).spec_flavor(),
    {
        self.unmap_memory_internal(device);
        self.mapped = false;
    }

    /// Maps the block for a moment and copies `data` to it, starting at `offset`.
    ///
    /// Where the memory is not host-coherent, the range `sync_range(offset, data.len())`
    /// is flushed after the copy, and `access_result` says what is returned for what
    /// the device returned for the flush.
    pub fn write_bytes<D: MemoryDevice<M>>(&self, device: &D, offset: u64, data: &[u8]) -> (r:
        Result<(), MapError>)
        requires
            self.wf(),
            !self.spec_is_mapped(),
            data@.len() <= usize::MAX,
            self.can_map(offset, data@.len() as usize),
            self.spec_local_address(offset) is None ==> data@.len() > 0,
        ensures
            self.spec_local_address(offset) matches Some(Err(e)) ==> r == Err::<(), MapError>(e),
            self.spec_local_address(offset) matches Some(Ok(_))
                && self.spec_props().spec_is_host_coherent() ==> r is Ok,
            !(self.spec_local_address(offset) matches Some(Err(_))) ==> r != Err::<(), MapError>(
                MapError::NonHostVisible,
            ),
            self.spec_local_address(offset) matches Some(Ok(_)) ==> r != Err::<(), MapError>(
                MapError::MapFailed,
            ),
    {
        let size = data.len();
        let address = match self.map_memory_internal(device, offset, size) {
            Ok(address) => address,
            Err(err) => {
                return Err(err);
            },
        };
        device.write_mapped(address, data);
        let result = if !self.coherent() {
            let (range_offset, range_size) = self.sync_range(offset, size);
            let ranges = [MappedMemoryRange { memory: &self.memory, offset: range_offset, size: range_size }];
            access_result(device.flush_memory_ranges(ranges.as_slice()))
        } else {
            Ok(())
        };
        self.unmap_memory_internal(device);
        result
    }

    /// Maps the block for a moment and copies from it, starting at `offset`, into
    /// `data`.
    ///
    /// Where the memory is not host-coherent, the range `sync_range(offset, data.len())`
    /// is invalidated before the copy, and `access_result` says what is returned for
    /// what the device returned for that; nothing is copied if it failed.
    pub fn read_bytes<D: MemoryDevice<M>>(&self, device: &D, offset: u64, data: &mut [u8]) -> (r:
        Result<(), MapError>)
        requires
            self.wf(),
            !self.spec_is_mapped(),
            old(data)@.len() <= usize::MAX,
            self.can_map(offset, old(data)@.len() as usize),
            self.spec_local_address(offset) is None ==> old(data)@.len() > 0,
        ensures
            self.spec_local_address(offset) matches Some(Err(e)) ==> r == Err::<(), MapError>(e)
                && final(data)@ == old(data)@,
            self.spec_local_address(offset) matches Some(Ok(_))
                && self.spec_props().spec_is_host_coherent() ==> r is Ok,
            !(self.spec_local_address(offset) matches Some(Err(_))) ==> r != Err::<(), MapError>(
                MapError::NonHostVisible,
            ),
            self.spec_local_address(offset) matches Some(Ok(_)) ==> r != Err::<(), MapError>(
                MapError::MapFailed,
            ),
            r is Err ==> final(data)@ == old(data)@,
    {
        let size = data.len();
        let address = match self.map_memory_internal(device, offset, size) {
            Ok(address) => address,
            Err(err) => {
                return Err(err);
            },
        };
        let result = if !self.coherent() {
            let (range_offset, range_size) = self.sync_range(offset, size);
            let ranges = [MappedMemoryRange { memory: &self.memory, offset: range_offset, size: range_size }];
            access_result(device.invalidate_memory_ranges(ranges.as_slice()))
        } else {
            Ok(())
        };
        if result.is_ok() {
            device.read_mapped(address, data);
        }
        self.unmap_memory_internal(device);
        result
    }
}

} // verus!
