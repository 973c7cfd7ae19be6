//! What the bindings to graphics APIs need: memory properties as the APIs number
//! them, and the properties of a device as the APIs report them.

use vstd::prelude::*;
use crate::device::DeviceProperties;
use crate::types::{MemoryHeap, MemoryPropertyFlags, MemoryType};

verus! {

/// The memory properties that gfx-hal numbers `props`: the five low bits of its
/// `memory::Properties` are device-local, CPU-visible, coherent, CPU-cached and
/// lazily allocated, in the order of the bits of `MemoryPropertyFlags`.
pub fn memory_properties_from_gfx(props: u16) -> (r: MemoryPropertyFlags)
    ensures
        r@ as u16 == props & 0x1f,
{
    assert((props & 0x1f) as u8 & 0x1f == (props & 0x1f) as u8 && ((props & 0x1f) as u8) as u16
        == props & 0x1f) by (bit_vector);
    MemoryPropertyFlags::from_bits_truncate((props & 0x1f) as u8)
}

/// The number that gfx-hal gives the memory properties `props`.
pub fn memory_properties_to_gfx(props: MemoryPropertyFlags) -> (r: u16)
    ensures
        r == props@ as u16,
{
    props.bits() as u16
}

/// The memory properties that Vulkan numbers `props`, as ash hands them over: the five
/// low bits of `VkMemoryPropertyFlags` are device-local, host-visible, host-coherent,
/// host-cached and lazily allocated, in the order of the bits of
/// `MemoryPropertyFlags`.
pub fn memory_properties_from_ash(props: u32) -> (r: MemoryPropertyFlags)
    ensures
        r@ as u32 == props & 0x1f,
{
    assert((props & 0x1f) as u8 & 0x1f == (props & 0x1f) as u8 && ((props & 0x1f) as u8) as u32
        == props & 0x1f) by (bit_vector);
    MemoryPropertyFlags::from_bits_truncate((props & 0x1f) as u8)
}

/// The number that Vulkan gives the memory properties `props`, for ash.
pub fn memory_properties_to_ash(props: MemoryPropertyFlags) -> (r: u32)
    ensures
        r == props@ as u32,
{
    props.bits() as u32
}

/// The memory properties that Vulkan numbers `props`, as erupt hands them over.
pub fn memory_properties_from_erupt(props: u32) -> (r: MemoryPropertyFlags)
    ensures
        r@ as u32 == props & 0x1f,
{
    memory_properties_from_ash(props)
}

/// The number that Vulkan gives the memory properties `props`, for erupt.
pub fn memory_properties_to_erupt(props: MemoryPropertyFlags) -> (r: u32)
    ensures
        r == props@ as u32,
{
    props.bits() as u32
}

/// The number `value` as a `u32`, or the largest `u32` if it is larger.
pub fn saturate_u32(value: usize) -> (r: u32)
    ensures
        r == if value <= u32::MAX {
            value as u32
        } else {
            u32::MAX
        },
{
    if value <= u32::MAX as usize {
        value as u32
    } else {
        u32::MAX
    }
}

/// The properties of a device as gfx-hal reports them: its limits on the number of
/// memory objects and on the atom size, its memory types, each with the number of its
/// properties and the index of its heap, and the sizes of its memory heaps.
///
/// gfx-hal reports no largest size of a memory object, and no support for device
/// addresses.
pub fn gfx_device_properties(
    max_memory_allocation_count: usize,
    non_coherent_atom_size: usize,
    memory_types: &[(u16, usize)],
    memory_heaps: &[u64],
) -> (r: DeviceProperties<Vec<MemoryType>, Vec<MemoryHeap>>)
    requires
        forall|i: int| 0 <= i < memory_types@.len() ==> (#[trigger] memory_types@[i]).1 <= u32::MAX,
    ensures
        r.max_memory_allocation_count == if max_memory_allocation_count <= u32::MAX {
            max_memory_allocation_count as u32
        } else {
            u32::MAX
        },
        r.max_memory_allocation_size == u64::MAX,
        r.non_coherent_atom_size == non_coherent_atom_size,
        !r.buffer_device_address,
        r.memory_types@.len() == memory_types@.len(),
        forall|i: int|
            0 <= i < memory_types@.len() ==> (#[trigger] r.memory_types@[i]).heap
                == memory_types@[i].1 && r.memory_types@[i].props@ as u16 == memory_types@[i].0
                & 0x1f,
        r.memory_heaps@.len() == memory_heaps@.len(),
        forall|i: int|
            0 <= i < memory_heaps@.len() ==> (#[trigger] r.memory_heaps@[i]).size
                == memory_heaps@[i],
{
    let mut types: Vec<MemoryType> = Vec::new();
    let mut t: usize = 0;
    while t < memory_types.len()
        invariant
            t <= memory_types@.len(),
            types@.len() == t,
            forall|i: int|
                0 <= i < memory_types@.len() ==> (#[trigger] memory_types@[i]).1 <= u32::MAX,
            forall|i: int|
                0 <= i < t ==> (#[trigger] types@[i]).heap == memory_types@[i].1
                    && types@[i].props@ as u16 == memory_types@[i].0 & 0x1f,
        decreases memory_types@.len() - t,
    {
        let (props, heap) = memory_types[t];
        types.push(MemoryType { props: memory_properties_from_gfx(props), heap: heap as u32 });
        t += 1;
    }
    let mut heaps: Vec<MemoryHeap> = Vec::new();
    let mut h: usize = 0;
    while h < memory_heaps.len()
        invariant
            h <= memory_heaps@.len(),
            heaps@.len() == h,
            forall|i: int| 0 <= i < h ==> (#[trigger] heaps@[i]).size == memory_heaps@[i],
        decreases memory_heaps@.len() - h,
    {
        heaps.push(MemoryHeap { size: memory_heaps[h] });
        h += 1;
    }
    DeviceProperties {
        memory_types: types,
        memory_heaps: heaps,
        max_memory_allocation_count: saturate_u32(max_memory_allocation_count),
        max_memory_allocation_size: u64::MAX,
        non_coherent_atom_size: non_coherent_atom_size as u64,
        buffer_device_address: false,
    }
}

/// Whether a Vulkan instance of the version `version` can be asked whether the device
/// supports device addresses of buffers: from version 1.2 on. The major version is in
/// the bits from 22 on, the minor version in the ten bits below.
pub fn reports_buffer_device_address(version: u32) -> (r: bool)
    ensures
        r == ((version >> 22) >= 1 && ((version >> 12) & 0x3ff) >= 2),
{
    (version >> 22) >= 1 && ((version >> 12) & 0x3ff) >= 2
}

/// The properties of a device as Vulkan reports them: its limits on the number of
/// memory objects and on the atom size, its memory types, each with the number of its
/// properties and the index of its heap, the sizes of its memory heaps, and whether it
/// supports device addresses of buffers.
///
/// No largest size of a memory object is taken from the report.
pub fn device_properties(
    max_memory_allocation_count: u32,
    non_coherent_atom_size: u64,
    memory_types: &[(u32, u32)],
    memory_heaps: &[u64],
    buffer_device_address: bool,
) -> (r: DeviceProperties<Vec<MemoryType>, Vec<MemoryHeap>>)
    ensures
        r.max_memory_allocation_count == max_memory_allocation_count,
        r.max_memory_allocation_size == u64::MAX,
        r.non_coherent_atom_size == non_coherent_atom_size,
        r.buffer_device_address == buffer_device_address,
        r.memory_types@.len() == memory_types@.len(),
        forall|i: int|
            0 <= i < memory_types@.len() ==> (#[trigger] r.memory_types@[i]).heap
                == memory_types@[i].1 && r.memory_types@[i].props@ as u32 == memory_types@[i].0
                & 0x1f,
        r.memory_heaps@.len() == memory_heaps@.len(),
        forall|i: int|
            0 <= i < memory_heaps@.len() ==> (#[trigger] r.memory_heaps@[i]).size
                == memory_heaps@[i],
{
    let mut types: Vec<MemoryType> = Vec::new();
    let mut t: usize = 0;
    while t < memory_types.len()
        invariant
            t <= memory_types@.len(),
            types@.len() == t,
            forall|i: int|
                0 <= i < t ==> (#[trigger] types@[i]).heap == memory_types@[i].1
                    && types@[i].props@ as u32 == memory_types@[i].0 & 0x1f,
        decreases memory_types@.len() - t,
    {
        let (props, heap) = memory_types[t];
        types.push(MemoryType { props: memory_properties_from_ash(props), heap });
        t += 1;
    }
    let mut heaps: Vec<MemoryHeap> = Vec::new();
    let mut h: usize = 0;
    while h < memory_heaps.len()
        invariant
            h <= memory_heaps@.len(),
            heaps@.len() == h,
            forall|i: int| 0 <= i < h ==> (#[trigger] heaps@[i]).size == memory_heaps@[i],
        decreases memory_heaps@.len() - h,
    {
        heaps.push(MemoryHeap { size: memory_heaps[h] });
        h += 1;
    }
    DeviceProperties {
        memory_types: types,
        memory_heaps: heaps,
        max_memory_allocation_count,
        max_memory_allocation_size: u64::MAX,
        non_coherent_atom_size,
        buffer_device_address,
    }
}

} // verus!
