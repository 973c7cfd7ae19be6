use gpu_alloc::buddy::BuddyAllocator;
use gpu_alloc::heap::Heap;
use gpu_alloc::linear::LinearAllocator;
use gpu_alloc::{
    AllocationError, AllocationFlags, Config, Dedicated, DeviceMapError, DeviceProperties,
    GpuAllocator, MapError, MappedMemoryRange, MemoryBlock, MemoryBlockFlavor, MemoryDevice,
    MemoryHeap, MemoryPropertyFlags, MemoryType, OutOfMemory, Request, Strategy, UsageFlags,
};
use std::cell::{Cell, RefCell};

const KIB: u64 = 1024;
const MIB: u64 = 1024 * 1024;

/// Host addresses of the mock: the object with id `i` is mapped at `(i + 1) * SPAN`.
const SPAN: usize = 1 << 32;

struct MockMemory {
    memory_type: u32,
    size: u64,
    mapped: bool,
    content: Vec<u8>,
}

struct MockDevice {
    types: Vec<MemoryType>,
    heaps_remaining: RefCell<Vec<u64>>,
    objects: RefCell<Vec<Option<MockMemory>>>,
    allocations: Cell<u64>,
    deallocations: Cell<u64>,
    maps: Cell<u64>,
    unmaps: Cell<u64>,
    last_flags: Cell<u8>,
    last_map: Cell<(u64, u64)>,
    flushed: RefCell<Vec<(usize, u64, u64)>>,
    invalidated: RefCell<Vec<(usize, u64, u64)>>,
    fail_map: Cell<Option<DeviceMapError>>,
    fail_alloc: Cell<Option<OutOfMemory>>,
    fail_flush: Cell<Option<OutOfMemory>>,
}

impl MockDevice {
    fn new(types: &[MemoryType], heaps: &[MemoryHeap]) -> Self {
        MockDevice {
            types: types.to_vec(),
            heaps_remaining: RefCell::new(heaps.iter().map(|heap| heap.size).collect()),
            objects: RefCell::new(Vec::new()),
            allocations: Cell::new(0),
            deallocations: Cell::new(0),
            maps: Cell::new(0),
            unmaps: Cell::new(0),
            last_flags: Cell::new(0),
            last_map: Cell::new((0, 0)),
            flushed: RefCell::new(Vec::new()),
            invalidated: RefCell::new(Vec::new()),
            fail_map: Cell::new(None),
            fail_alloc: Cell::new(None),
            fail_flush: Cell::new(None),
        }
    }

    fn outstanding(&self) -> u64 {
        self.allocations.get() - self.deallocations.get()
    }
}

impl MemoryDevice<usize> for MockDevice {
    fn allocate_memory(
        &self,
        size: u64,
        memory_type: u32,
        flags: AllocationFlags,
    ) -> Result<usize, OutOfMemory> {
        assert!(size > 0);
        self.last_flags.set(flags.bits());
        if let Some(err) = self.fail_alloc.get() {
            return Err(err);
        }
        let heap = self.types[memory_type as usize].heap as usize;
        let mut remaining = self.heaps_remaining.borrow_mut();
        if remaining[heap] < size {
            return Err(OutOfMemory::OutOfDeviceMemory);
        }
        remaining[heap] -= size;
        self.allocations.set(self.allocations.get() + 1);
        let mut objects = self.objects.borrow_mut();
        objects.push(Some(MockMemory { memory_type, size, mapped: false, content: Vec::new() }));
        Ok(objects.len() - 1)
    }

    fn deallocate_memory(&self, memory: usize) {
        let object = self.objects.borrow_mut()[memory].take().expect("no such memory object");
        let heap = self.types[object.memory_type as usize].heap as usize;
        self.heaps_remaining.borrow_mut()[heap] += object.size;
        self.deallocations.set(self.deallocations.get() + 1);
    }

    fn map_memory(&self, memory: &usize, offset: u64, size: u64) -> Result<usize, DeviceMapError> {
        assert!(size > 0);
        if let Some(err) = self.fail_map.get() {
            return Err(err);
        }
        let mut objects = self.objects.borrow_mut();
        let object = objects[*memory].as_mut().expect("no such memory object");
        assert!(self.types[object.memory_type as usize].props.is_host_visible());
        assert!(!object.mapped, "already mapped");
        assert!(offset < object.size);
        object.mapped = true;
        if object.content.is_empty() {
            object.content = vec![0; object.size as usize + 256];
        }
        self.maps.set(self.maps.get() + 1);
        self.last_map.set((offset, size));
        Ok((*memory + 1) * SPAN + offset as usize)
    }

    fn unmap_memory(&self, memory: &usize) {
        let mut objects = self.objects.borrow_mut();
        let object = objects[*memory].as_mut().expect("no such memory object");
        assert!(object.mapped, "not mapped");
        object.mapped = false;
        self.unmaps.set(self.unmaps.get() + 1);
    }

    fn invalidate_memory_ranges(
        &self,
        ranges: &[MappedMemoryRange<'_, usize>],
    ) -> Result<(), OutOfMemory> {
        for range in ranges {
            self.invalidated.borrow_mut().push((*range.memory, range.offset, range.size));
        }
        match self.fail_flush.get() {
            Some(err) => Err(err),
            None => Ok(()),
        }
    }

    fn flush_memory_ranges(
        &self,
        ranges: &[MappedMemoryRange<'_, usize>],
    ) -> Result<(), OutOfMemory> {
        for range in ranges {
            self.flushed.borrow_mut().push((*range.memory, range.offset, range.size));
        }
        match self.fail_flush.get() {
            Some(err) => Err(err),
            None => Ok(()),
        }
    }

    fn write_mapped(&self, address: usize, data: &[u8]) {
        let id = address / SPAN - 1;
        let at = address % SPAN;
        let mut objects = self.objects.borrow_mut();
        let object = objects[id].as_mut().expect("no such memory object");
        assert!(object.mapped);
        object.content[at..at + data.len()].copy_from_slice(data);
    }

    fn read_mapped(&self, address: usize, data: &mut [u8]) {
        let id = address / SPAN - 1;
        let at = address % SPAN;
        let objects = self.objects.borrow();
        let object = objects[id].as_ref().expect("no such memory object");
        assert!(object.mapped);
        data.copy_from_slice(&object.content[at..at + data.len()]);
    }
}

fn props(bits: u8) -> MemoryPropertyFlags {
    MemoryPropertyFlags::from_bits_truncate(bits)
}

const DEVICE_LOCAL: u8 = 0x01;
const HOST_VISIBLE: u8 = 0x02;
const HOST_COHERENT: u8 = 0x04;

struct Setup {
    device: MockDevice,
    allocator: GpuAllocator<usize>,
}

fn setup_with(
    config: Config,
    types: &[MemoryType],
    heaps: &[MemoryHeap],
    max_count: u32,
    max_size: u64,
    atom: u64,
) -> Setup {
    let properties = DeviceProperties {
        memory_types: types,
        memory_heaps: heaps,
        max_memory_allocation_count: max_count,
        max_memory_allocation_size: max_size,
        non_coherent_atom_size: atom,
        buffer_device_address: false,
    };
    assert!(properties.is_valid());
    Setup { device: MockDevice::new(types, heaps), allocator: GpuAllocator::new(config, properties) }
}

fn small_config() -> Config {
    Config {
        dedicated_threshold: 32 * KIB,
        preferred_dedicated_threshold: KIB,
        transient_dedicated_threshold: 128 * KIB,
        linear_chunk: 4 * KIB,
        minimal_buddy_size: KIB,
        initial_buddy_dedicated_size: 16 * KIB,
    }
}

fn one_type(bits: u8, heap_size: u64, max_count: u32, atom: u64) -> Setup {
    setup_with(
        small_config(),
        &[MemoryType { heap: 0, props: props(bits) }],
        &[MemoryHeap { size: heap_size }],
        max_count,
        heap_size,
        atom,
    )
}

fn request(size: u64, usage: UsageFlags) -> Request {
    Request { size, align_mask: 0, usage, memory_types: !0, dedicated: Dedicated::Indifferent }
}

fn overlap(a: &MemoryBlock<usize>, b: &MemoryBlock<usize>) -> bool {
    a.memory() == b.memory() && a.offset() < b.offset() + b.size() && b.offset() < a.offset() + a.size()
}

#[test]
fn exhaustion_then_relief() {
    let mut s = one_type(DEVICE_LOCAL, MIB, 4, 64);
    let mut req = request(64 * KIB, UsageFlags::empty());
    req.dedicated = Dedicated::Required;
    let mut blocks = Vec::new();
    for _ in 0..4 {
        let block = s.allocator.allocate(&s.device, req).unwrap();
        assert_eq!(block.flavor(), MemoryBlockFlavor::Dedicated);
        assert_eq!(block.offset(), 0);
        assert_eq!(block.size(), 64 * KIB);
        blocks.push(block);
    }
    assert_eq!(s.allocator.allocations_remains(), 0);
    assert_eq!(s.allocator.heap_usage(0), Some(256 * KIB));
    assert_eq!(
        s.allocator.allocate(&s.device, req).unwrap_err(),
        AllocationError::TooManyObjects
    );
    assert_eq!(s.device.allocations.get(), 4);
    s.allocator.dealloc(&s.device, blocks.pop().unwrap());
    assert_eq!(s.allocator.allocations_remains(), 1);
    assert_eq!(s.allocator.heap_usage(0), Some(192 * KIB));
    let block = s.allocator.allocate(&s.device, req).unwrap();
    assert_eq!(block.size(), 64 * KIB);
    assert_eq!(s.allocator.allocations_remains(), 0);
    assert_eq!(s.device.outstanding(), 4);
}

#[test]
fn forced_dedicated_fails_without_objects_left() {
    let mut s = one_type(DEVICE_LOCAL, MIB, 0, 64);
    let req = request(64, UsageFlags::empty());
    assert_eq!(
        s.allocator.alloc_with_strategy(&s.device, req, Strategy::Dedicated).unwrap_err(),
        AllocationError::TooManyObjects
    );
    assert_eq!(
        s.allocator.allocate(&s.device, req).unwrap_err(),
        AllocationError::TooManyObjects
    );
    assert_eq!(s.device.allocations.get(), 0);
}

#[test]
fn buddy_split_and_coalesce() {
    let device = MockDevice::new(
        &[MemoryType { heap: 0, props: props(DEVICE_LOCAL) }],
        &[MemoryHeap { size: MIB }],
    );
    let mut heap = Heap::new(MIB);
    let mut remains: u32 = 8;
    let mut buddy: BuddyAllocator<usize> = BuddyAllocator::new(KIB, 16 * KIB, 0, props(DEVICE_LOCAL), 0);
    let flags = AllocationFlags::empty();
    let first = buddy.allocate(&device, KIB, 0, flags, &mut heap, &mut remains).unwrap();
    let second = buddy.allocate(&device, KIB, 0, flags, &mut heap, &mut remains).unwrap();
    assert_eq!(first.chunk, second.chunk);
    assert_eq!(first.memory, second.memory);
    assert_eq!((first.offset, first.size), (0, KIB));
    assert_eq!((second.offset, second.size), (KIB, KIB));
    assert_eq!(first.index, 0);
    assert_eq!(second.index, 1);
    assert_eq!(device.allocations.get(), 1);
    assert_eq!(heap.used(), 16 * KIB);
    assert_eq!(remains, 7);

    let third = buddy.allocate(&device, 2 * KIB, 0, flags, &mut heap, &mut remains).unwrap();
    assert_eq!((third.offset, third.size), (2 * KIB, 2 * KIB));
    let fourth = buddy.allocate(&device, 8 * KIB, 0, flags, &mut heap, &mut remains).unwrap();
    assert_eq!((fourth.offset, fourth.size), (8 * KIB, 8 * KIB));
    assert_eq!(device.allocations.get(), 1);

    buddy.dealloc(&device, third, &mut heap, &mut remains);
    buddy.dealloc(&device, fourth, &mut heap, &mut remains);
    buddy.dealloc(&device, first, &mut heap, &mut remains);
    assert_eq!(device.deallocations.get(), 0);
    assert_eq!(heap.used(), 16 * KIB);
    buddy.dealloc(&device, second, &mut heap, &mut remains);
    assert_eq!(device.deallocations.get(), 1);
    assert_eq!(heap.used(), 0);
    assert_eq!(remains, 8);

    let whole = buddy.allocate(&device, 16 * KIB, 0, flags, &mut heap, &mut remains).unwrap();
    assert_eq!((whole.offset, whole.size), (0, 16 * KIB));
    assert_eq!(heap.used(), 32 * KIB);
    buddy.dealloc(&device, whole, &mut heap, &mut remains);
    assert_eq!(heap.used(), 0);
    assert_eq!(remains, 8);
    assert_eq!(device.outstanding(), 0);
}

#[test]
fn buddy_reuses_what_was_given_back() {
    let device = MockDevice::new(
        &[MemoryType { heap: 0, props: props(DEVICE_LOCAL) }],
        &[MemoryHeap { size: MIB }],
    );
    let mut heap = Heap::new(MIB);
    let mut remains: u32 = 8;
    let mut buddy: BuddyAllocator<usize> = BuddyAllocator::new(KIB, 16 * KIB, 0, props(DEVICE_LOCAL), 0);
    let flags = AllocationFlags::empty();
    let mut blocks = Vec::new();
    for _ in 0..16 {
        blocks.push(buddy.allocate(&device, KIB, 0, flags, &mut heap, &mut remains).unwrap());
    }
    assert_eq!(device.allocations.get(), 1);
    let mut offsets: Vec<u64> = blocks.iter().map(|block| block.offset).collect();
    offsets.sort();
    assert_eq!(offsets, (0..16).map(|i| i * KIB).collect::<Vec<u64>>());
    let again = buddy.allocate(&device, KIB, 0, flags, &mut heap, &mut remains).unwrap();
    assert_eq!(device.allocations.get(), 2);
    assert_ne!(again.chunk, blocks[0].chunk);
    let given = blocks.swap_remove(5);
    let offset = given.offset;
    let chunk = given.chunk;
    buddy.dealloc(&device, given, &mut heap, &mut remains);
    let taken = buddy.allocate(&device, KIB, 0, flags, &mut heap, &mut remains).unwrap();
    assert_eq!(device.allocations.get(), 2);
    assert!((taken.chunk, taken.offset) == (chunk, offset) || taken.chunk == again.chunk);
    blocks.push(taken);
    blocks.push(again);
    for block in blocks {
        buddy.dealloc(&device, block, &mut heap, &mut remains);
    }
    assert_eq!(device.outstanding(), 0);
    assert_eq!(heap.used(), 0);
    assert_eq!(remains, 8);
}

#[test]
fn buddy_honors_alignment_larger_than_the_size() {
    let device = MockDevice::new(
        &[MemoryType { heap: 0, props: props(DEVICE_LOCAL) }],
        &[MemoryHeap { size: MIB }],
    );
    let mut heap = Heap::new(MIB);
    let mut remains: u32 = 8;
    let mut buddy: BuddyAllocator<usize> = BuddyAllocator::new(256, 16 * KIB, 0, props(DEVICE_LOCAL), 0);
    let flags = AllocationFlags::empty();
    let small = buddy.allocate(&device, 100, 0, flags, &mut heap, &mut remains).unwrap();
    assert_eq!(small.size, 256);
    let aligned = buddy.allocate(&device, 100, 4095, flags, &mut heap, &mut remains).unwrap();
    assert_eq!(aligned.size, 4096);
    assert_eq!(aligned.offset % 4096, 0);
    let odd = buddy.allocate(&device, 300, 0, flags, &mut heap, &mut remains).unwrap();
    assert_eq!(odd.size, 512);
    assert_eq!(odd.offset % 512, 0);
    let zero = buddy.allocate(&device, 0, 0, flags, &mut heap, &mut remains).unwrap();
    assert_eq!(zero.size, 256);
    assert_eq!(
        buddy.allocate(&device, u64::MAX, 0, flags, &mut heap, &mut remains).unwrap_err(),
        AllocationError::OutOfDeviceMemory
    );
    assert_eq!(
        buddy.allocate(&device, 1 << 63, 0, flags, &mut heap, &mut remains).unwrap_err(),
        AllocationError::OutOfDeviceMemory
    );
}

#[test]
fn buddy_respects_quota_and_budget() {
    let device = MockDevice::new(
        &[MemoryType { heap: 0, props: props(DEVICE_LOCAL) }],
        &[MemoryHeap { size: MIB }],
    );
    let mut heap = Heap::new(20 * KIB);
    let mut remains: u32 = 0;
    let mut buddy: BuddyAllocator<usize> = BuddyAllocator::new(KIB, 16 * KIB, 0, props(DEVICE_LOCAL), 0);
    let flags = AllocationFlags::empty();
    assert_eq!(
        buddy.allocate(&device, KIB, 0, flags, &mut heap, &mut remains).unwrap_err(),
        AllocationError::TooManyObjects
    );
    remains = 2;
    let block = buddy.allocate(&device, 8 * KIB, 0, flags, &mut heap, &mut remains).unwrap();
    let other = buddy.allocate(&device, 8 * KIB, 0, flags, &mut heap, &mut remains).unwrap();
    assert_eq!(
        buddy.allocate(&device, KIB, 0, flags, &mut heap, &mut remains).unwrap_err(),
        AllocationError::OutOfDeviceMemory
    );
    assert_eq!(remains, 1);
    assert_eq!(heap.used(), 16 * KIB);
    buddy.dealloc(&device, block, &mut heap, &mut remains);
    buddy.dealloc(&device, other, &mut heap, &mut remains);
    assert_eq!(remains, 2);
    assert_eq!(heap.used(), 0);
}

#[test]
fn buddy_chunk_map_failure_gives_the_chunk_back() {
    let device = MockDevice::new(
        &[MemoryType { heap: 0, props: props(HOST_VISIBLE) }],
        &[MemoryHeap { size: MIB }],
    );
    let mut heap = Heap::new(MIB);
    let mut remains: u32 = 2;
    let mut buddy: BuddyAllocator<usize> = BuddyAllocator::new(KIB, 16 * KIB, 0, props(HOST_VISIBLE), 63);
    let flags = AllocationFlags::empty();
    device.fail_map.set(Some(DeviceMapError::MapFailed));
    assert_eq!(
        buddy.allocate(&device, KIB, 0, flags, &mut heap, &mut remains).unwrap_err(),
        AllocationError::OutOfHostMemory
    );
    assert_eq!(device.outstanding(), 0);
    assert_eq!((heap.used(), remains), (0, 2));
    device.fail_map.set(Some(DeviceMapError::OutOfDeviceMemory));
    assert_eq!(
        buddy.allocate(&device, KIB, 0, flags, &mut heap, &mut remains).unwrap_err(),
        AllocationError::OutOfDeviceMemory
    );
    assert_eq!(device.outstanding(), 0);
    device.fail_map.set(None);
    let block = buddy.allocate(&device, KIB, 0, flags, &mut heap, &mut remains).unwrap();
    let base = (block.memory + 1) * SPAN;
    assert_eq!(block.ptr, Some(base + block.offset as usize));
    let next = buddy.allocate(&device, KIB, 0, flags, &mut heap, &mut remains).unwrap();
    assert_eq!(next.ptr, Some(base + 1024));
    device.fail_alloc.set(Some(OutOfMemory::OutOfHostMemory));
    let big = buddy.allocate(&device, 16 * KIB, 0, flags, &mut heap, &mut remains);
    assert_eq!(big.unwrap_err(), AllocationError::OutOfHostMemory);
}

#[test]
fn linear_fifo_reclaim() {
    let bits = HOST_VISIBLE | HOST_COHERENT;
    let device = MockDevice::new(
        &[MemoryType { heap: 0, props: props(bits) }],
        &[MemoryHeap { size: MIB }],
    );
    let mut heap = Heap::new(MIB);
    let mut remains: u32 = 64;
    let mut linear: LinearAllocator<usize> = LinearAllocator::new(4 * KIB, 0, props(bits), 0);
    assert_eq!(linear.chunk_size(), 4 * KIB);
    let flags = AllocationFlags::empty();
    let mut blocks = Vec::new();
    for i in 0..1024u64 {
        let block = linear
            .allocate(&device, 128, 0, UsageFlags::host_access(), flags, &mut heap, &mut remains)
            .unwrap();
        assert_eq!(block.chunk, i / 32);
        assert_eq!(block.offset, (i % 32) * 128);
        assert_eq!(block.size, 128);
        assert_eq!(block.ptr, Some((block.memory + 1) * SPAN + block.offset as usize));
        blocks.push(block);
    }
    assert_eq!(device.allocations.get(), 32);
    assert_eq!(remains, 32);
    assert_eq!(heap.used(), 128 * KIB);
    assert_eq!(linear.first_chunk(true), 0);
    let rest = blocks.split_off(512);
    for block in blocks {
        linear.dealloc(&device, block, &mut heap, &mut remains);
    }
    assert_eq!(device.deallocations.get(), 16);
    assert_eq!(linear.first_chunk(true), 16);
    assert_eq!(remains, 48);
    assert_eq!(heap.used(), 64 * KIB);
    for block in rest {
        linear.dealloc(&device, block, &mut heap, &mut remains);
    }
    assert_eq!(device.deallocations.get(), 31);
    assert_eq!(linear.first_chunk(true), 31);
    assert_eq!(remains, 63);
    assert_eq!(heap.used(), 4 * KIB);
}

#[test]
fn linear_reclaims_out_of_order() {
    let device = MockDevice::new(
        &[MemoryType { heap: 0, props: props(DEVICE_LOCAL) }],
        &[MemoryHeap { size: MIB }],
    );
    let mut heap = Heap::new(MIB);
    let mut remains: u32 = 64;
    let mut linear: LinearAllocator<usize> = LinearAllocator::new(KIB, 0, props(DEVICE_LOCAL), 0);
    let flags = AllocationFlags::empty();
    let mut blocks = Vec::new();
    for _ in 0..5 {
        let block = linear
            .allocate(&device, 600, 0, UsageFlags::empty(), flags, &mut heap, &mut remains)
            .unwrap();
        assert_eq!(block.offset, 0);
        assert_eq!(block.ptr, None);
        blocks.push(block);
    }
    assert_eq!(device.allocations.get(), 5);
    let last = blocks.pop().unwrap();
    let third = blocks.remove(2);
    let second = blocks.remove(1);
    linear.dealloc(&device, second, &mut heap, &mut remains);
    linear.dealloc(&device, third, &mut heap, &mut remains);
    assert_eq!(device.deallocations.get(), 2);
    assert_eq!(linear.first_chunk(false), 0);
    linear.dealloc(&device, last, &mut heap, &mut remains);
    assert_eq!(device.deallocations.get(), 2);
    let first = blocks.remove(0);
    linear.dealloc(&device, first, &mut heap, &mut remains);
    assert_eq!(device.deallocations.get(), 3);
    assert_eq!(linear.first_chunk(false), 3);
    let fourth = blocks.remove(0);
    linear.dealloc(&device, fourth, &mut heap, &mut remains);
    assert_eq!(device.deallocations.get(), 4);
    assert_eq!(linear.first_chunk(false), 4);
    assert_eq!(heap.used(), KIB);
    assert_eq!(remains, 63);
    let reused = linear
        .allocate(&device, 300, 0, UsageFlags::empty(), flags, &mut heap, &mut remains)
        .unwrap();
    assert_eq!((reused.chunk, reused.offset), (4, 600));
    assert_eq!(device.allocations.get(), 5);
    let next = linear
        .allocate(&device, 300, 0, UsageFlags::empty(), flags, &mut heap, &mut remains)
        .unwrap();
    assert_eq!((next.chunk, next.offset), (5, 0));
}

#[test]
fn linear_aligns_and_refuses_what_does_not_fit() {
    let device = MockDevice::new(
        &[MemoryType { heap: 0, props: props(HOST_VISIBLE) }],
        &[MemoryHeap { size: MIB }],
    );
    let mut heap = Heap::new(MIB);
    let mut remains: u32 = 1;
    let mut linear: LinearAllocator<usize> = LinearAllocator::new(KIB, 0, props(HOST_VISIBLE), 63);
    let flags = AllocationFlags::empty();
    let usage = UsageFlags::host_access();
    assert_eq!(
        linear.allocate(&device, KIB + 1, 0, usage, flags, &mut heap, &mut remains).unwrap_err(),
        AllocationError::OutOfDeviceMemory
    );
    let a = linear.allocate(&device, 10, 0, usage, flags, &mut heap, &mut remains).unwrap();
    let b = linear.allocate(&device, 10, 0, usage, flags, &mut heap, &mut remains).unwrap();
    let c = linear.allocate(&device, 0, 255, usage, flags, &mut heap, &mut remains).unwrap();
    assert_eq!((a.offset, a.size), (0, 10));
    assert_eq!((b.offset, b.size), (64, 10));
    assert_eq!((c.offset, c.size), (256, 1));
    assert_eq!(
        linear.allocate(&device, KIB, 0, usage, flags, &mut heap, &mut remains).unwrap_err(),
        AllocationError::TooManyObjects
    );
    assert_eq!(remains, 0);
}

#[test]
fn linear_prefers_unmapped_chunks_without_host_access() {
    let device = MockDevice::new(
        &[MemoryType { heap: 0, props: props(HOST_VISIBLE) }],
        &[MemoryHeap { size: MIB }],
    );
    let mut heap = Heap::new(MIB);
    let mut remains: u32 = 8;
    let mut linear: LinearAllocator<usize> = LinearAllocator::new(KIB, 0, props(HOST_VISIBLE), 0);
    let flags = AllocationFlags::empty();
    device.fail_map.set(Some(DeviceMapError::MapFailed));
    assert_eq!(
        linear
            .allocate(&device, 10, 0, UsageFlags::host_access(), flags, &mut heap, &mut remains)
            .unwrap_err(),
        AllocationError::OutOfHostMemory
    );
    assert_eq!(device.outstanding(), 0);
    assert_eq!((heap.used(), remains), (0, 8));
    let unmapped = linear
        .allocate(&device, 10, 0, UsageFlags::empty(), flags, &mut heap, &mut remains)
        .unwrap();
    assert_eq!(unmapped.ptr, None);
    assert_eq!(device.outstanding(), 1);
    device.fail_map.set(None);
    let again = linear
        .allocate(&device, 10, 0, UsageFlags::empty(), flags, &mut heap, &mut remains)
        .unwrap();
    assert_eq!(again.ptr, None);
    assert_eq!((again.chunk, again.offset), (unmapped.chunk, 10));
    assert_eq!(device.outstanding(), 1);
    let mapped = linear
        .allocate(&device, 10, 0, UsageFlags::host_access(), flags, &mut heap, &mut remains)
        .unwrap();
    assert!(mapped.ptr.is_some());
    assert_eq!(device.outstanding(), 2);
    device.fail_map.set(Some(DeviceMapError::OutOfDeviceMemory));
    assert_eq!(
        linear
            .allocate(&device, KIB, 0, UsageFlags::host_access(), flags, &mut heap, &mut remains)
            .unwrap_err(),
        AllocationError::OutOfDeviceMemory
    );
    assert_eq!(device.outstanding(), 2);
}

#[test]
fn non_coherent_round_trip() {
    let mut s = one_type(HOST_VISIBLE, MIB, 16, 64);
    let mut req = request(256, UsageFlags::host_access());
    req.dedicated = Dedicated::Required;
    let block = s.allocator.allocate(&s.device, req).unwrap();
    assert_eq!(block.map_mask(), 63);
    let data: Vec<u8> = (0..40).collect();
    assert_eq!(block.write_bytes(&s.device, 10, &data), Ok(()));
    assert_eq!(s.device.flushed.borrow().as_slice(), &[(*block.memory(), 0, 64)]);
    assert_eq!(s.device.last_map.get(), (0, 74));
    let mut back = vec![0u8; 40];
    assert_eq!(block.read_bytes(&s.device, 10, &mut back), Ok(()));
    assert_eq!(back, data);
    assert_eq!(s.device.invalidated.borrow().as_slice(), &[(*block.memory(), 0, 64)]);
    assert_eq!(s.device.maps.get(), 2);
    assert_eq!(s.device.unmaps.get(), 2);
    assert_eq!(block.sync_range(70, 10), (64, 64));
    assert_eq!(block.sync_range(10, 100), (0, 128));

    s.device.fail_flush.set(Some(OutOfMemory::OutOfHostMemory));
    assert_eq!(block.write_bytes(&s.device, 0, &[1, 2, 3]), Err(MapError::OutOfHostMemory));
    let mut untouched = vec![9u8; 3];
    s.device.fail_flush.set(Some(OutOfMemory::OutOfDeviceMemory));
    assert_eq!(
        block.read_bytes(&s.device, 0, &mut untouched),
        Err(MapError::OutOfDeviceMemory)
    );
    assert_eq!(untouched, vec![9u8; 3]);
    assert_eq!(s.device.maps.get(), s.device.unmaps.get());
    s.allocator.dealloc(&s.device, block);
}

#[test]
fn coherent_round_trip_in_sub_allocated_blocks() {
    let mut s = one_type(HOST_VISIBLE | HOST_COHERENT, MIB, 16, 64);
    let a = s.allocator.allocate(&s.device, request(100, UsageFlags::host_access())).unwrap();
    let mut transient = request(100, UsageFlags::host_access().union(UsageFlags::transient()));
    transient.align_mask = 15;
    let b = s.allocator.allocate(&s.device, transient).unwrap();
    let c = s.allocator.allocate(&s.device, transient).unwrap();
    assert!(matches!(a.flavor(), MemoryBlockFlavor::Buddy { .. }));
    assert!(matches!(b.flavor(), MemoryBlockFlavor::Linear { .. }));
    assert_eq!(a.map_mask(), 0);
    assert_eq!((b.offset(), c.offset()), (0, 112));
    let first: Vec<u8> = (0..100).collect();
    let second: Vec<u8> = (100..200).collect();
    let third: Vec<u8> = (0..50).map(|i| i * 3).collect();
    assert_eq!(a.write_bytes(&s.device, 0, &first), Ok(()));
    assert_eq!(b.write_bytes(&s.device, 0, &second), Ok(()));
    assert_eq!(c.write_bytes(&s.device, 50, &third), Ok(()));
    assert!(s.device.flushed.borrow().is_empty());
    let mut back = vec![0u8; 100];
    assert_eq!(a.read_bytes(&s.device, 0, &mut back), Ok(()));
    assert_eq!(back, first);
    assert_eq!(b.read_bytes(&s.device, 0, &mut back), Ok(()));
    assert_eq!(back, second);
    let mut part = vec![0u8; 50];
    assert_eq!(c.read_bytes(&s.device, 50, &mut part), Ok(()));
    assert_eq!(part, third);
    assert_eq!(b.read_bytes(&s.device, 10, &mut part), Ok(()));
    assert_eq!(part, second[10..60].to_vec());
    assert!(s.device.invalidated.borrow().is_empty());
    s.allocator.dealloc(&s.device, a);
    s.allocator.dealloc(&s.device, b);
    s.allocator.dealloc(&s.device, c);
}

#[test]
fn map_gives_the_address_of_the_offset() {
    let mut s = one_type(HOST_VISIBLE, MIB, 16, 64);
    let mut dedicated_request = request(1000, UsageFlags::host_access());
    dedicated_request.dedicated = Dedicated::Required;
    let mut dedicated = s.allocator.allocate(&s.device, dedicated_request).unwrap();
    assert!(!dedicated.is_mapped());
    let range = dedicated.mapping_range(100, 20);
    assert_eq!((range.offset, range.size, range.shift), (64, 100, 36));
    let address = dedicated.map(&s.device, 100, 20).unwrap();
    assert!(dedicated.is_mapped());
    assert_eq!(s.device.last_map.get(), (64, 100));
    assert_eq!(address, (*dedicated.memory() + 1) * SPAN + 100);
    assert_eq!(address % 64, (100 - 64) % 64);
    dedicated.unmap(&s.device);
    assert!(!dedicated.is_mapped());
    assert_eq!(s.device.unmaps.get(), 1);

    let mut block = s.allocator.allocate(&s.device, request(1000, UsageFlags::host_access())).unwrap();
    let other = s.allocator.allocate(&s.device, request(1000, UsageFlags::host_access())).unwrap();
    let maps = s.device.maps.get();
    let base = match other.flavor() {
        MemoryBlockFlavor::Buddy { ptr, .. } => ptr.unwrap(),
        _ => panic!("a buddy block was expected"),
    };
    assert_eq!(base, (*other.memory() + 1) * SPAN + other.offset() as usize);
    let address = block.map(&s.device, 7, 100).unwrap();
    assert_eq!(address, (*block.memory() + 1) * SPAN + block.offset() as usize + 7);
    assert!(block.is_mapped());
    block.unmap(&s.device);
    assert!(!block.is_mapped());
    assert_eq!(s.device.maps.get(), maps);
    assert_eq!(s.device.unmaps.get(), 1);
    s.device.fail_map.set(Some(DeviceMapError::MapFailed));
    assert_eq!(dedicated.map(&s.device, 0, 1), Err(MapError::MapFailed));
    assert!(!dedicated.is_mapped());
    s.device.fail_map.set(Some(DeviceMapError::OutOfHostMemory));
    assert_eq!(dedicated.map(&s.device, 0, 1), Err(MapError::OutOfHostMemory));
    s.device.fail_map.set(Some(DeviceMapError::OutOfDeviceMemory));
    assert_eq!(dedicated.map(&s.device, 0, 1), Err(MapError::OutOfDeviceMemory));
    assert_eq!(block.map(&s.device, 0, 1).map(|_| ()), Ok(()));
}

#[test]
fn memory_that_is_not_host_visible_cannot_be_mapped() {
    let mut s = one_type(DEVICE_LOCAL, MIB, 16, 64);
    let mut buddy = s.allocator.allocate(&s.device, request(100, UsageFlags::empty())).unwrap();
    let mut linear = s.allocator.allocate(&s.device, request(100, UsageFlags::transient())).unwrap();
    let mut own = request(100, UsageFlags::empty());
    own.dedicated = Dedicated::Required;
    let mut dedicated = s.allocator.allocate(&s.device, own).unwrap();
    assert_eq!(buddy.map(&s.device, 0, 10), Err(MapError::NonHostVisible));
    assert_eq!(linear.map(&s.device, 0, 10), Err(MapError::NonHostVisible));
    assert_eq!(dedicated.map(&s.device, 0, 10), Err(MapError::NonHostVisible));
    assert!(!buddy.is_mapped() && !linear.is_mapped() && !dedicated.is_mapped());
    assert_eq!(buddy.write_bytes(&s.device, 0, &[1]), Err(MapError::NonHostVisible));
    let mut data = [5u8; 4];
    assert_eq!(linear.read_bytes(&s.device, 0, &mut data), Err(MapError::NonHostVisible));
    assert_eq!(data, [5u8; 4]);
    assert_eq!(s.device.maps.get(), 0);
}

#[test]
fn no_compatible_memory_types() {
    let mut s = one_type(DEVICE_LOCAL, MIB, 16, 64);
    let mut none = request(100, UsageFlags::empty());
    none.memory_types = 0;
    assert_eq!(
        s.allocator.allocate(&s.device, none).unwrap_err(),
        AllocationError::NoCompatibleMemoryTypes
    );
    assert_eq!(
        s.allocator.allocate(&s.device, request(100, UsageFlags::host_access())).unwrap_err(),
        AllocationError::NoCompatibleMemoryTypes
    );
    assert_eq!(
        s.allocator.allocate(&s.device, request(100, UsageFlags::upload())).unwrap_err(),
        AllocationError::NoCompatibleMemoryTypes
    );
    let mut other = request(100, UsageFlags::empty());
    other.memory_types = 0b10;
    assert_eq!(
        s.allocator.allocate(&s.device, other).unwrap_err(),
        AllocationError::NoCompatibleMemoryTypes
    );
    assert_eq!(s.device.allocations.get(), 0);
}

#[test]
fn too_large_a_request_is_out_of_device_memory() {
    let mut s = setup_with(
        small_config(),
        &[MemoryType { heap: 0, props: props(DEVICE_LOCAL) }],
        &[MemoryHeap { size: 16 * MIB }],
        16,
        MIB,
        64,
    );
    let mut none = request(MIB + 1, UsageFlags::empty());
    none.memory_types = 0;
    assert_eq!(
        s.allocator.allocate(&s.device, none).unwrap_err(),
        AllocationError::OutOfDeviceMemory
    );
    let mut largest = request(MIB, UsageFlags::empty());
    largest.dedicated = Dedicated::Preferred;
    let block = s.allocator.allocate(&s.device, largest).unwrap();
    assert_eq!(block.flavor(), MemoryBlockFlavor::Dedicated);
    assert_eq!(block.size(), MIB);
    let transient = request(512 * KIB, UsageFlags::transient());
    assert_eq!(
        s.allocator.allocate(&s.device, transient).unwrap_err(),
        AllocationError::OutOfDeviceMemory
    );
    s.allocator.dealloc(&s.device, block);
    assert_eq!(s.allocator.heap_usage(0), Some(0));
}

#[test]
fn a_request_for_nothing_gets_a_byte() {
    let mut s = one_type(DEVICE_LOCAL, MIB, 16, 64);
    let buddy = s.allocator.allocate(&s.device, request(0, UsageFlags::empty())).unwrap();
    assert_eq!(buddy.size(), KIB);
    let linear = s.allocator.allocate(&s.device, request(0, UsageFlags::transient())).unwrap();
    assert_eq!(linear.size(), 1);
    let mut own = request(0, UsageFlags::empty());
    own.dedicated = Dedicated::Required;
    let dedicated = s.allocator.allocate(&s.device, own).unwrap();
    assert_eq!(dedicated.size(), 1);
    let again = s.allocator.allocate(&s.device, request(0, UsageFlags::transient())).unwrap();
    assert_eq!((again.offset(), again.size()), (1, 1));
    for block in [buddy, linear, dedicated, again] {
        s.allocator.dealloc(&s.device, block);
    }
}

#[test]
fn the_next_memory_type_is_tried_when_one_is_exhausted() {
    let types = [
        MemoryType { heap: 0, props: props(DEVICE_LOCAL) },
        MemoryType { heap: 1, props: props(HOST_VISIBLE | HOST_COHERENT) },
    ];
    let heaps = [MemoryHeap { size: 64 * KIB }, MemoryHeap { size: MIB }];
    let mut s = setup_with(small_config(), &types, &heaps, 16, MIB, 64);
    let mut own = request(48 * KIB, UsageFlags::empty());
    own.dedicated = Dedicated::Required;
    let first = s.allocator.allocate(&s.device, own).unwrap();
    assert_eq!(first.memory_type(), 0);
    assert_eq!(first.props(), props(DEVICE_LOCAL));
    let second = s.allocator.allocate(&s.device, own).unwrap();
    assert_eq!(second.memory_type(), 1);
    assert_eq!(second.props(), props(HOST_VISIBLE | HOST_COHERENT));
    assert_eq!(s.allocator.heap_usage(0), Some(48 * KIB));
    assert_eq!(s.allocator.heap_usage(1), Some(48 * KIB));
    assert_eq!(s.allocator.heap_usage(2), None);
    let mut only_first = own;
    only_first.memory_types = 0b01;
    assert_eq!(
        s.allocator.allocate(&s.device, only_first).unwrap_err(),
        AllocationError::OutOfDeviceMemory
    );
    let mut only_second = request(100, UsageFlags::empty());
    only_second.memory_types = 0b10;
    let third = s.allocator.allocate(&s.device, only_second).unwrap();
    assert_eq!(third.memory_type(), 1);
    let host = s.allocator.allocate(&s.device, request(100, UsageFlags::upload())).unwrap();
    assert_eq!(host.memory_type(), 1);
    s.device.fail_alloc.set(Some(OutOfMemory::OutOfHostMemory));
    assert_eq!(
        s.allocator.allocate(&s.device, own).unwrap_err(),
        AllocationError::OutOfHostMemory
    );
    s.device.fail_alloc.set(None);
    for block in [first, second, third, host] {
        s.allocator.dealloc(&s.device, block);
    }
    assert_eq!(s.allocator.heap_usage(0), Some(0));
    assert_eq!(s.allocator.heap_usage(1), Some(0));
    assert_eq!(s.allocator.allocations_remains(), 16);
    assert_eq!(s.device.outstanding(), 0);
}

#[test]
fn accounts_follow_the_device_objects() {
    let mut s = one_type(HOST_VISIBLE | HOST_COHERENT, MIB, 16, 64);
    let mut blocks: Vec<MemoryBlock<usize>> = Vec::new();
    let sizes = [100u64, 3000, 700, 9000, 1, 2048, 40, 5000, 12000, 800];
    for (i, size) in sizes.iter().enumerate() {
        let usage = match i % 3 {
            0 => UsageFlags::empty(),
            1 => UsageFlags::transient(),
            _ => UsageFlags::host_access(),
        };
        let mut req = request(*size, usage);
        if i % 4 == 3 {
            req.dedicated = Dedicated::Required;
        }
        let block = s.allocator.allocate(&s.device, req).unwrap();
        assert!(block.size() >= *size);
        assert_eq!(block.memory_type(), 0);
        blocks.push(block);
        let held: u64 = s
            .device
            .objects
            .borrow()
            .iter()
            .flatten()
            .map(|object| object.size)
            .sum();
        assert_eq!(s.allocator.heap_usage(0), Some(held));
        assert_eq!(16 - s.allocator.allocations_remains() as u64, s.device.outstanding());
        assert!(held <= MIB);
    }
    for a in 0..blocks.len() {
        for b in 0..a {
            assert!(!overlap(&blocks[a], &blocks[b]));
        }
    }
    while let Some(block) = blocks.pop() {
        s.allocator.dealloc(&s.device, block);
        let held: u64 = s
            .device
            .objects
            .borrow()
            .iter()
            .flatten()
            .map(|object| object.size)
            .sum();
        assert_eq!(s.allocator.heap_usage(0), Some(held));
        assert_eq!(16 - s.allocator.allocations_remains() as u64, s.device.outstanding());
    }
    assert_eq!(s.device.outstanding(), 1);
    assert_eq!(s.allocator.heap_usage(0), Some(4 * KIB));
}

#[test]
fn used_returns_to_where_it_was() {
    let mut s = one_type(DEVICE_LOCAL, MIB, 16, 64);
    let kept = s.allocator.allocate(&s.device, request(500, UsageFlags::empty())).unwrap();
    let used = s.allocator.heap_usage(0);
    let remains = s.allocator.allocations_remains();
    let mut blocks = Vec::new();
    for size in [100u64, 20000, 3, 7000, 16 * KIB] {
        blocks.push(s.allocator.allocate(&s.device, request(size, UsageFlags::empty())).unwrap());
    }
    let mut own = request(5000, UsageFlags::empty());
    own.dedicated = Dedicated::Required;
    blocks.push(s.allocator.allocate(&s.device, own).unwrap());
    assert_ne!(s.allocator.heap_usage(0), used);
    blocks.swap(0, 3);
    for block in blocks {
        s.allocator.dealloc(&s.device, block);
    }
    assert_eq!(s.allocator.heap_usage(0), used);
    assert_eq!(s.allocator.allocations_remains(), remains);
    s.allocator.dealloc(&s.device, kept);
    assert_eq!(s.allocator.heap_usage(0), Some(0));
    assert_eq!(s.allocator.allocations_remains(), 16);
    assert_eq!(s.device.outstanding(), 0);
}

#[test]
fn device_address_flag_follows_the_device() {
    let types = [MemoryType { heap: 0, props: props(DEVICE_LOCAL) }];
    let heaps = [MemoryHeap { size: MIB }];
    let properties = DeviceProperties {
        memory_types: &types[..],
        memory_heaps: &heaps[..],
        max_memory_allocation_count: 4,
        max_memory_allocation_size: MIB,
        non_coherent_atom_size: 1,
        buffer_device_address: true,
    };
    let device = MockDevice::new(&types, &heaps);
    let mut allocator: GpuAllocator<usize> = GpuAllocator::new(small_config(), properties);
    let block = allocator.allocate(&device, request(10, UsageFlags::device_address())).unwrap();
    assert_eq!(device.last_flags.get(), 1);
    allocator.dealloc(&device, block);

    let mut s = one_type(DEVICE_LOCAL, MIB, 4, 1);
    let block = s.allocator.allocate(&s.device, request(10, UsageFlags::empty())).unwrap();
    assert_eq!(s.device.last_flags.get(), 0);
    s.allocator.dealloc(&s.device, block);
}

#[test]
fn forced_strategies() {
    let mut s = one_type(HOST_VISIBLE, MIB, 16, 64);
    let req = request(100, UsageFlags::host_access());
    let linear = s.allocator.alloc_with_strategy(&s.device, req, Strategy::Linear).unwrap();
    let buddy = s.allocator.alloc_with_strategy(&s.device, req, Strategy::Buddy).unwrap();
    let dedicated = s.allocator.alloc_with_strategy(&s.device, req, Strategy::Dedicated).unwrap();
    let preferred = s
        .allocator
        .alloc_with_strategy(&s.device, req, Strategy::PreferDedicated)
        .unwrap();
    assert!(matches!(linear.flavor(), MemoryBlockFlavor::Linear { .. }));
    assert!(matches!(buddy.flavor(), MemoryBlockFlavor::Buddy { .. }));
    assert_eq!(dedicated.flavor(), MemoryBlockFlavor::Dedicated);
    assert!(matches!(preferred.flavor(), MemoryBlockFlavor::Buddy { .. }));
    assert_eq!(linear.map_mask(), 63);
    assert_eq!(linear.offset() % 64, 0);
    assert_eq!(buddy.offset() % 64, 0);
    let too_large = request(8 * KIB, UsageFlags::host_access());
    assert_eq!(
        s.allocator.alloc_with_strategy(&s.device, too_large, Strategy::Linear).unwrap_err(),
        AllocationError::OutOfDeviceMemory
    );
    for block in [linear, buddy, dedicated, preferred] {
        s.allocator.dealloc(&s.device, block);
    }
}

#[test]
fn sub_allocators_are_sized_to_the_heap() {
    let mut s = setup_with(
        Config::i_am_potato(),
        &[MemoryType { heap: 0, props: props(DEVICE_LOCAL) }],
        &[MemoryHeap { size: 100_000 }],
        16,
        100_000,
        1,
    );
    let mut config_small = Config::i_am_potato();
    config_small.minimal_buddy_size = 1024;
    let buddy = s.allocator.allocate(&s.device, request(1, UsageFlags::empty())).unwrap();
    assert_eq!(buddy.size(), 1);
    assert_eq!(s.allocator.heap_usage(0), Some(2048));
    let linear = s.allocator.allocate(&s.device, request(1000, UsageFlags::transient())).unwrap();
    assert_eq!(s.allocator.heap_usage(0), Some(2048 + 3125));
    assert_eq!(
        s.allocator.allocate(&s.device, request(3126, UsageFlags::transient())).unwrap_err(),
        AllocationError::OutOfDeviceMemory
    );
    s.allocator.dealloc(&s.device, buddy);
    s.allocator.dealloc(&s.device, linear);
    assert_eq!(s.allocator.heap_usage(0), Some(3125));

    let mut t = setup_with(
        config_small,
        &[MemoryType { heap: 0, props: props(DEVICE_LOCAL) }],
        &[MemoryHeap { size: 100_000 }],
        16,
        100_000,
        1,
    );
    let block = t.allocator.allocate(&t.device, request(1, UsageFlags::empty())).unwrap();
    assert_eq!(block.size(), 64);
    assert_eq!(t.allocator.heap_usage(0), Some(2048));
    t.allocator.dealloc(&t.device, block);
    assert_eq!(t.allocator.heap_usage(0), Some(0));
    assert_eq!(t.allocator.allocations_remains(), 16);
}

struct Lcg(u64);

impl Lcg {
    fn next(&mut self) -> u64 {
        self.0 = self.0.wrapping_mul(6364136223846793005).wrapping_add(1442695040888963407);
        self.0 >> 33
    }
}

#[test]
fn buddy_blocks_never_overlap() {
    let device = MockDevice::new(
        &[MemoryType { heap: 0, props: props(DEVICE_LOCAL) }],
        &[MemoryHeap { size: 64 * MIB }],
    );
    let mut heap = Heap::new(64 * MIB);
    let mut remains: u32 = 64;
    let mut buddy: BuddyAllocator<usize> = BuddyAllocator::new(64, 16 * KIB, 0, props(DEVICE_LOCAL), 0);
    let flags = AllocationFlags::empty();
    let mut random = Lcg(7);
    let mut live: Vec<gpu_alloc::buddy::BuddyBlock<usize>> = Vec::new();
    for step in 0..4000 {
        if live.len() < 200 && (random.next() % 3 != 0 || live.is_empty()) {
            let size = 1 + random.next() % 5000;
            let mask = (1u64 << (random.next() % 9)) - 1;
            let block = buddy.allocate(&device, size, mask, flags, &mut heap, &mut remains).unwrap();
            assert!(block.size >= size && block.size.is_power_of_two());
            assert!(block.size < 2 * size.max(64).max(mask + 1));
            assert_eq!(block.offset % block.size, 0);
            assert_eq!(block.offset & mask, 0);
            for other in &live {
                if other.memory == block.memory {
                    assert_eq!(other.chunk, block.chunk);
                    assert!(
                        other.offset + other.size <= block.offset
                            || block.offset + block.size <= other.offset,
                        "step {}",
                        step
                    );
                    assert!(!(other.size == block.size && other.index == block.index));
                }
            }
            live.push(block);
        } else {
            let at = (random.next() % live.len() as u64) as usize;
            let block = live.swap_remove(at);
            buddy.dealloc(&device, block, &mut heap, &mut remains);
        }
        let held: u64 = device.objects.borrow().iter().flatten().map(|object| object.size).sum();
        assert_eq!(heap.used(), held);
        assert_eq!(64 - remains as u64, device.outstanding());
        let chunks: std::collections::BTreeSet<usize> = live.iter().map(|block| block.memory).collect();
        assert_eq!(chunks.len() as u64, device.outstanding());
    }
    while let Some(block) = live.pop() {
        buddy.dealloc(&device, block, &mut heap, &mut remains);
    }
    assert_eq!(device.outstanding(), 0);
    assert_eq!(heap.used(), 0);
    assert_eq!(remains, 64);
}

#[test]
fn linear_blocks_never_overlap() {
    let bits = HOST_VISIBLE;
    let device = MockDevice::new(
        &[MemoryType { heap: 0, props: props(bits) }],
        &[MemoryHeap { size: 64 * MIB }],
    );
    let mut heap = Heap::new(64 * MIB);
    let mut remains: u32 = 1000;
    let mut linear: LinearAllocator<usize> = LinearAllocator::new(8 * KIB, 0, props(bits), 63);
    let flags = AllocationFlags::empty();
    let mut random = Lcg(11);
    let mut live: std::collections::VecDeque<gpu_alloc::linear::LinearBlock<usize>> =
        std::collections::VecDeque::new();
    for _ in 0..4000 {
        if live.len() < 300 && (random.next() % 5 != 0 || live.is_empty()) {
            let size = random.next() % 3000;
            let mask = (1u64 << (random.next() % 9)) - 1;
            let usage = if random.next() % 2 == 0 {
                UsageFlags::host_access()
            } else {
                UsageFlags::empty()
            };
            let block = linear
                .allocate(&device, size, mask, usage, flags, &mut heap, &mut remains)
                .unwrap();
            assert_eq!(block.size, size.max(1));
            assert_eq!(block.offset & (mask | 63), 0);
            assert!(block.offset + block.size <= 8 * KIB);
            if usage == UsageFlags::host_access() {
                assert!(block.ptr.is_some());
            }
            if let Some(ptr) = block.ptr {
                assert_eq!(ptr, (block.memory + 1) * SPAN + block.offset as usize);
            }
            for other in &live {
                if other.memory == block.memory {
                    assert_eq!(other.chunk, block.chunk);
                    assert_eq!(other.ptr.is_some(), block.ptr.is_some());
                    assert!(
                        other.offset + other.size <= block.offset
                            || block.offset + block.size <= other.offset
                    );
                }
            }
            live.push_back(block);
        } else {
            let at = (random.next() % live.len().min(8) as u64) as usize;
            let block = live.remove(at).unwrap();
            linear.dealloc(&device, block, &mut heap, &mut remains);
        }
        let held: u64 = device.objects.borrow().iter().flatten().map(|object| object.size).sum();
        assert_eq!(heap.used(), held);
        assert_eq!(1000 - remains as u64, device.outstanding());
    }
    while let Some(block) = live.pop_front() {
        linear.dealloc(&device, block, &mut heap, &mut remains);
    }
    assert!(device.outstanding() <= 2);
    assert_eq!(heap.used(), device.outstanding() * 8 * KIB);
}

#[test]
fn allocator_survives_a_long_mixed_run() {
    let types = [
        MemoryType { heap: 0, props: props(DEVICE_LOCAL) },
        MemoryType { heap: 1, props: props(HOST_VISIBLE) },
        MemoryType { heap: 1, props: props(HOST_VISIBLE | HOST_COHERENT) },
    ];
    let heaps = [MemoryHeap { size: 8 * MIB }, MemoryHeap { size: 8 * MIB }];
    let mut s = setup_with(small_config(), &types, &heaps, 64, MIB, 64);
    let mut random = Lcg(3);
    let mut live: Vec<(MemoryBlock<usize>, Vec<u8>)> = Vec::new();
    for _ in 0..3000 {
        if live.len() < 150 && (random.next() % 3 != 0 || live.is_empty()) {
            let size = 1 + random.next() % 6000;
            let usage = UsageFlags::from_bits_truncate((random.next() % 32) as u8);
            let mut req = request(size, usage);
            req.align_mask = (1u64 << (random.next() % 8)) - 1;
            req.dedicated = match random.next() % 10 {
                0 => Dedicated::Required,
                1 => Dedicated::Preferred,
                _ => Dedicated::Indifferent,
            };
            match s.allocator.allocate(&s.device, req) {
                Ok(block) => {
                    assert!(block.size() >= size);
                    assert_eq!(block.offset() & req.align_mask, 0);
                    assert_eq!(block.props(), types[block.memory_type() as usize].props);
                    let host = usage.bits() & 0x0e != 0;
                    if host {
                        assert!(block.props().is_host_visible());
                    }
                    for (other, _) in &live {
                        assert!(!overlap(other, &block));
                    }
                    let mut data = Vec::new();
                    if host {
                        data = (0..size.min(200)).map(|i| (i as u8) ^ (size as u8)).collect();
                        assert_eq!(block.write_bytes(&s.device, 0, &data), Ok(()));
                    }
                    live.push((block, data));
                }
                Err(err) => {
                    assert!(
                        err == AllocationError::TooManyObjects
                            || err == AllocationError::OutOfDeviceMemory
                    );
                }
            }
        } else {
            let at = (random.next() % live.len() as u64) as usize;
            let (block, data) = live.swap_remove(at);
            if !data.is_empty() {
                let mut back = vec![0u8; data.len()];
                assert_eq!(block.read_bytes(&s.device, 0, &mut back), Ok(()));
                assert_eq!(back, data);
            }
            s.allocator.dealloc(&s.device, block);
        }
        for heap in 0..2 {
            let held: u64 = s
                .device
                .objects
                .borrow()
                .iter()
                .flatten()
                .filter(|object| types[object.memory_type as usize].heap == heap)
                .map(|object| object.size)
                .sum();
            assert_eq!(s.allocator.heap_usage(heap as usize), Some(held));
            assert!(held <= 8 * MIB);
        }
        assert_eq!(64 - s.allocator.allocations_remains() as u64, s.device.outstanding());
    }
}

#[test]
fn accept_dedicated_follows_the_answer_of_the_device() {
    let mut s = one_type(DEVICE_LOCAL, MIB, 4, 64);
    let memory = s.device.allocate_memory(4 * KIB, 0, AllocationFlags::empty()).unwrap();
    let block = s.allocator.accept_dedicated(0, 4 * KIB, Ok(memory)).unwrap().unwrap();
    assert_eq!(*block.memory(), memory);
    assert_eq!(block.memory_type(), 0);
    assert_eq!(block.offset(), 0);
    assert_eq!(block.size(), 4 * KIB);
    assert_eq!(block.flavor(), MemoryBlockFlavor::Dedicated);
    assert_eq!(s.allocator.allocations_remains(), 3);
    assert_eq!(s.allocator.heap_usage(0), Some(4 * KIB));

    let next = s.allocator.accept_dedicated(0, 4 * KIB, Err(OutOfMemory::OutOfDeviceMemory));
    assert!(matches!(next, Ok(None)));
    assert_eq!(s.allocator.allocations_remains(), 3);
    assert_eq!(s.allocator.heap_usage(0), Some(4 * KIB));

    let failed = s.allocator.accept_dedicated(0, 4 * KIB, Err(OutOfMemory::OutOfHostMemory));
    assert!(matches!(failed, Err(AllocationError::OutOfHostMemory)));
    assert_eq!(s.allocator.allocations_remains(), 3);
    assert_eq!(s.allocator.heap_usage(0), Some(4 * KIB));

    s.allocator.dealloc(&s.device, block);
    assert_eq!(s.allocator.allocations_remains(), 4);
    assert_eq!(s.allocator.heap_usage(0), Some(0));
    assert_eq!(s.device.outstanding(), 0);
}

#[test]
fn a_dedicated_request_passes_over_a_heap_without_room() {
    let types = [
        MemoryType { heap: 0, props: props(DEVICE_LOCAL) },
        MemoryType { heap: 1, props: props(DEVICE_LOCAL) },
    ];
    let heaps = [MemoryHeap { size: 64 * KIB }, MemoryHeap { size: MIB }];
    let mut s = setup_with(small_config(), &types, &heaps, 16, MIB, 64);
    let mut own = request(128 * KIB, UsageFlags::empty());
    own.dedicated = Dedicated::Required;
    let block = s.allocator.allocate(&s.device, own).unwrap();
    assert_eq!(block.memory_type(), 1);
    assert_eq!(block.offset(), 0);
    assert_eq!(block.size(), 128 * KIB);
    assert_eq!(s.device.allocations.get(), 1);
    assert_eq!(s.allocator.heap_usage(0), Some(0));
    assert_eq!(s.allocator.heap_usage(1), Some(128 * KIB));
    assert_eq!(s.allocator.allocations_remains(), 15);

    let mut nowhere = request(2 * MIB, UsageFlags::empty());
    nowhere.dedicated = Dedicated::Required;
    assert_eq!(
        s.allocator.allocate(&s.device, nowhere).unwrap_err(),
        AllocationError::OutOfDeviceMemory
    );
    let mut large = request(MIB, UsageFlags::empty());
    large.dedicated = Dedicated::Required;
    assert_eq!(
        s.allocator.allocate(&s.device, large).unwrap_err(),
        AllocationError::OutOfDeviceMemory
    );
    assert_eq!(s.device.allocations.get(), 1);
    assert_eq!(s.allocator.heap_usage(0), Some(0));
    assert_eq!(s.allocator.heap_usage(1), Some(128 * KIB));
    assert_eq!(s.allocator.allocations_remains(), 15);
    s.allocator.dealloc(&s.device, block);
    assert_eq!(s.allocator.heap_usage(1), Some(0));
    assert_eq!(s.allocator.allocations_remains(), 16);
}

#[test]
fn a_failed_request_changes_no_account() {
    let mut s = one_type(DEVICE_LOCAL, MIB, 2, 64);
    let kept = s.allocator.allocate(&s.device, request(100, UsageFlags::empty())).unwrap();
    let used = s.allocator.heap_usage(0);
    let remains = s.allocator.allocations_remains();
    assert_eq!(
        s.allocator.allocate(&s.device, request(2 * MIB, UsageFlags::empty())).unwrap_err(),
        AllocationError::OutOfDeviceMemory
    );
    let mut none = request(100, UsageFlags::empty());
    none.memory_types = 0;
    assert_eq!(
        s.allocator.allocate(&s.device, none).unwrap_err(),
        AllocationError::NoCompatibleMemoryTypes
    );
    let mut own = request(KIB, UsageFlags::empty());
    own.dedicated = Dedicated::Required;
    let other = s.allocator.allocate(&s.device, own).unwrap();
    assert_eq!(s.allocator.allocations_remains(), 0);
    assert_eq!(
        s.allocator.allocate(&s.device, own).unwrap_err(),
        AllocationError::TooManyObjects
    );
    assert_eq!(s.allocator.allocations_remains(), 0);
    s.allocator.dealloc(&s.device, other);
    assert_eq!(s.allocator.heap_usage(0), used);
    assert_eq!(s.allocator.allocations_remains(), remains);
    let again = s.allocator.allocate(&s.device, request(100, UsageFlags::empty())).unwrap();
    assert_eq!(again.memory(), kept.memory());
    assert_eq!(again.size().count_ones(), 1);
    assert_eq!(s.allocator.heap_usage(0), used);
    assert_eq!(s.allocator.allocations_remains(), remains);
    s.allocator.dealloc(&s.device, again);
    s.allocator.dealloc(&s.device, kept);
    assert_eq!(s.allocator.heap_usage(0), Some(0));
    assert_eq!(s.allocator.allocations_remains(), 2);
}

#[test]
fn settle_chunk_follows_the_mapping() {
    let bits = HOST_VISIBLE | HOST_COHERENT;
    let device = MockDevice::new(
        &[MemoryType { heap: 0, props: props(bits) }],
        &[MemoryHeap { size: MIB }],
    );
    let flags = AllocationFlags::empty();

    let mut heap = Heap::new(MIB);
    let mut remains: u32 = 4;
    let mut linear: LinearAllocator<usize> = LinearAllocator::new(4 * KIB, 0, props(bits), 0);
    let memory = device.allocate_memory(4 * KIB, 0, flags).unwrap();
    let mapped = device.map_memory(&memory, 0, 4 * KIB);
    let address = mapped.unwrap();
    let block =
        linear.settle_chunk(&device, memory, mapped, 128, 0, true, &mut heap, &mut remains).unwrap();
    assert_eq!((block.memory, block.chunk, block.offset, block.size), (memory, 0, 0, 128));
    assert_eq!(block.ptr, Some(address));
    assert_eq!((heap.used(), remains), (4 * KIB, 3));
    let second = linear
        .allocate(&device, 128, 0, UsageFlags::host_access(), flags, &mut heap, &mut remains)
        .unwrap();
    assert_eq!((second.chunk, second.offset, second.ptr), (0, 128, Some(address + 128)));

    let mut heap = Heap::new(MIB);
    let mut remains: u32 = 4;
    let mut linear: LinearAllocator<usize> = LinearAllocator::new(4 * KIB, 0, props(bits), 0);
    let memory = device.allocate_memory(4 * KIB, 0, flags).unwrap();
    let failed = Err(DeviceMapError::MapFailed);
    let block =
        linear.settle_chunk(&device, memory, failed, 128, 0, false, &mut heap, &mut remains).unwrap();
    assert_eq!((block.memory, block.chunk, block.offset, block.size), (memory, 0, 0, 128));
    assert_eq!(block.ptr, None);
    assert_eq!((heap.used(), remains), (4 * KIB, 3));

    let mut heap = Heap::new(MIB);
    let mut remains: u32 = 4;
    let mut linear: LinearAllocator<usize> = LinearAllocator::new(4 * KIB, 0, props(bits), 0);
    let given_back = device.deallocations.get();
    let memory = device.allocate_memory(4 * KIB, 0, flags).unwrap();
    assert_eq!(
        linear
            .settle_chunk(&device, memory, failed, 128, 0, true, &mut heap, &mut remains)
            .unwrap_err(),
        AllocationError::OutOfHostMemory
    );
    assert_eq!(device.deallocations.get(), given_back + 1);
    assert_eq!((heap.used(), remains), (0, 4));
    let memory = device.allocate_memory(4 * KIB, 0, flags).unwrap();
    let out = Err(DeviceMapError::OutOfDeviceMemory);
    assert_eq!(
        linear
            .settle_chunk(&device, memory, out, 128, 0, false, &mut heap, &mut remains)
            .unwrap_err(),
        AllocationError::OutOfDeviceMemory
    );
    assert_eq!(device.deallocations.get(), given_back + 2);
    assert_eq!((heap.used(), remains), (0, 4));
}

#[test]
fn linear_keeps_an_empty_chunk_that_is_taken_out_of_use() {
    let bits = HOST_VISIBLE | HOST_COHERENT;
    let device = MockDevice::new(
        &[MemoryType { heap: 0, props: props(bits) }],
        &[MemoryHeap { size: MIB }],
    );
    let flags = AllocationFlags::empty();
    let usage = UsageFlags::host_access();
    let mut heap = Heap::new(MIB);
    let mut remains: u32 = 2;
    let mut linear: LinearAllocator<usize> = LinearAllocator::new(4 * KIB, 0, props(bits), 0);
    let first = linear.allocate(&device, 128, 0, usage, flags, &mut heap, &mut remains).unwrap();
    assert_eq!((first.chunk, first.offset), (0, 0));
    assert_eq!((heap.used(), remains), (4 * KIB, 1));
    let whole = linear.allocate(&device, 4 * KIB, 0, usage, flags, &mut heap, &mut remains).unwrap();
    assert_eq!((whole.chunk, whole.offset, whole.size), (1, 0, 4 * KIB));
    assert_eq!((heap.used(), remains), (8 * KIB, 0));
    linear.dealloc(&device, whole, &mut heap, &mut remains);
    assert_eq!((heap.used(), remains), (8 * KIB, 0));
    assert_eq!(device.deallocations.get(), 0);
    assert_eq!(linear.first_chunk(true), 0);

    assert_eq!(
        linear.allocate(&device, 4 * KIB, 0, usage, flags, &mut heap, &mut remains).unwrap_err(),
        AllocationError::TooManyObjects
    );
    assert_eq!(device.allocations.get(), 2);
    assert_eq!(device.deallocations.get(), 0);
    assert_eq!((heap.used(), remains), (8 * KIB, 0));
    assert_eq!(
        linear.allocate(&device, 128, 0, usage, flags, &mut heap, &mut remains).unwrap_err(),
        AllocationError::TooManyObjects
    );
    assert_eq!((heap.used(), remains), (8 * KIB, 0));

    linear.dealloc(&device, first, &mut heap, &mut remains);
    assert_eq!(device.deallocations.get(), 1);
    assert_eq!((heap.used(), remains), (4 * KIB, 1));
    assert_eq!(linear.first_chunk(true), 1);
    let next = linear.allocate(&device, 128, 0, usage, flags, &mut heap, &mut remains).unwrap();
    assert_eq!((next.chunk, next.offset), (2, 0));
    assert_eq!(device.allocations.get(), 3);
    assert_eq!((heap.used(), remains), (8 * KIB, 0));
    linear.dealloc(&device, next, &mut heap, &mut remains);
    assert_eq!(device.deallocations.get(), 1);
    assert_eq!((heap.used(), remains), (8 * KIB, 0));
    assert_eq!(linear.first_chunk(true), 1);
}

#[test]
fn buddy_takes_the_left_half_first_and_charges_a_chunk_once() {
    let device = MockDevice::new(
        &[MemoryType { heap: 0, props: props(DEVICE_LOCAL) }],
        &[MemoryHeap { size: MIB }],
    );
    let flags = AllocationFlags::empty();
    let mut heap = Heap::new(MIB);
    let mut remains: u32 = 1;
    let mut buddy: BuddyAllocator<usize> =
        BuddyAllocator::new(KIB, 16 * KIB, 0, props(DEVICE_LOCAL), 0);
    let first = buddy.allocate(&device, KIB, 0, flags, &mut heap, &mut remains).unwrap();
    assert_eq!((first.offset, first.size, first.index % 2), (0, KIB, 0));
    assert_eq!((heap.used(), remains), (16 * KIB, 0));
    let second = buddy.allocate(&device, KIB, 0, flags, &mut heap, &mut remains).unwrap();
    assert_eq!((second.offset, second.size, second.chunk), (KIB, KIB, first.chunk));
    assert_eq!((heap.used(), remains), (16 * KIB, 0));
    let third = buddy.allocate(&device, 8 * KIB, 0, flags, &mut heap, &mut remains).unwrap();
    assert_eq!((third.offset, third.size, third.chunk), (8 * KIB, 8 * KIB, first.chunk));
    assert_eq!(
        buddy.allocate(&device, 8 * KIB, 0, flags, &mut heap, &mut remains).unwrap_err(),
        AllocationError::TooManyObjects
    );
    assert_eq!((heap.used(), remains), (16 * KIB, 0));
    assert_eq!(device.allocations.get(), 1);
    buddy.dealloc(&device, first, &mut heap, &mut remains);
    buddy.dealloc(&device, third, &mut heap, &mut remains);
    assert_eq!((heap.used(), remains), (16 * KIB, 0));
    buddy.dealloc(&device, second, &mut heap, &mut remains);
    assert_eq!((heap.used(), remains), (0, 1));
    assert_eq!(device.outstanding(), 0);
}

#[test]
fn a_block_of_a_chunk_maps_an_empty_range() {
    let mut s = one_type(HOST_VISIBLE | HOST_COHERENT, MIB, 16, 64);
    let mut block = s.allocator.allocate(&s.device, request(1000, UsageFlags::host_access())).unwrap();
    let maps = s.device.maps.get();
    let address = block.map(&s.device, 10, 0).unwrap();
    assert_eq!(address, (*block.memory() + 1) * SPAN + block.offset() as usize + 10);
    assert_eq!(s.device.maps.get(), maps);
    block.unmap(&s.device);
    assert_eq!(block.write_bytes(&s.device, 10, &[]), Ok(()));
    let mut nothing: [u8; 0] = [];
    assert_eq!(block.read_bytes(&s.device, 10, &mut nothing), Ok(()));
    s.allocator.dealloc(&s.device, block);
}

#[test]
fn a_sub_allocator_that_needs_a_chunk_fails_where_the_device_gives_none() {
    let mut s = one_type(HOST_VISIBLE | HOST_COHERENT, MIB, 1, 64);
    let small = s.allocator.allocate(&s.device, request(KIB, UsageFlags::empty())).unwrap();
    assert!(matches!(small.flavor(), MemoryBlockFlavor::Buddy { .. }));
    assert_eq!(small.offset(), 0);
    assert_eq!(s.allocator.allocations_remains(), 0);
    let used = s.allocator.heap_usage(0);
    assert_eq!(used, Some(16 * KIB));
    assert_eq!(
        s.allocator.allocate(&s.device, request(16 * KIB, UsageFlags::empty())).unwrap_err(),
        AllocationError::TooManyObjects
    );
    assert_eq!(
        s.allocator.allocate(&s.device, request(KIB, UsageFlags::transient())).unwrap_err(),
        AllocationError::TooManyObjects
    );
    assert_eq!(s.allocator.heap_usage(0), used);
    assert_eq!(s.allocator.allocations_remains(), 0);
    assert_eq!(s.device.allocations.get(), 1);
    let next = s.allocator.allocate(&s.device, request(KIB, UsageFlags::empty())).unwrap();
    assert_eq!((next.offset(), next.memory()), (KIB, small.memory()));
    assert_eq!(s.allocator.heap_usage(0), used);
    s.allocator.dealloc(&s.device, small);
    s.allocator.dealloc(&s.device, next);
    assert_eq!(s.allocator.heap_usage(0), Some(0));
    assert_eq!(s.allocator.allocations_remains(), 1);
}

#[test]
fn start_chunk_charges_the_chunk_and_cuts_the_first_block() {
    let device = MockDevice::new(
        &[MemoryType { heap: 0, props: props(DEVICE_LOCAL) }],
        &[MemoryHeap { size: MIB }],
    );
    let flags = AllocationFlags::empty();
    let mut heap = Heap::new(MIB);
    let mut remains: u32 = 2;
    let mut linear: LinearAllocator<usize> = LinearAllocator::new(4 * KIB, 0, props(DEVICE_LOCAL), 63);
    let memory = device.allocate_memory(4 * KIB, 0, flags).unwrap();
    let block = linear.start_chunk(memory, None, 100, 63, &mut heap, &mut remains);
    assert_eq!((block.memory, block.chunk, block.offset, block.size), (memory, 0, 0, 100));
    assert_eq!(block.ptr, None);
    assert_eq!((heap.used(), remains), (4 * KIB, 1));
    let next = linear
        .allocate(&device, 100, 0, UsageFlags::empty(), flags, &mut heap, &mut remains)
        .unwrap();
    assert_eq!((next.memory, next.chunk, next.offset, next.size), (memory, 0, 128, 100));
    assert_eq!((heap.used(), remains), (4 * KIB, 1));
    assert_eq!(device.allocations.get(), 1);
    linear.dealloc(&device, block, &mut heap, &mut remains);
    linear.dealloc(&device, next, &mut heap, &mut remains);
    assert_eq!((heap.used(), remains), (4 * KIB, 1));
    assert_eq!(linear.first_chunk(false), 0);
}

#[test]
fn buddy_settle_chunk_follows_the_mapping() {
    let device = MockDevice::new(
        &[
            MemoryType { heap: 0, props: props(DEVICE_LOCAL) },
            MemoryType { heap: 0, props: props(HOST_VISIBLE | HOST_COHERENT) },
        ],
        &[MemoryHeap { size: MIB }],
    );
    let flags = AllocationFlags::empty();
    let mut heap = Heap::new(MIB);
    let mut remains: u32 = 2;
    let mut buddy: BuddyAllocator<usize> =
        BuddyAllocator::new(KIB, 16 * KIB, 0, props(DEVICE_LOCAL), 0);
    let memory = device.allocate_memory(16 * KIB, 0, flags).unwrap();
    let node = buddy
        .settle_chunk(&device, memory, None, 3, 8 * KIB, &mut heap, &mut remains)
        .unwrap();
    assert_eq!((node.offset, node.index % 2), (0, 0));
    assert_eq!((heap.used(), remains), (16 * KIB, 1));
    let right = buddy.allocate(&device, 8 * KIB, 0, flags, &mut heap, &mut remains).unwrap();
    assert_eq!((right.chunk, right.offset, right.size), (node.chunk, 8 * KIB, 8 * KIB));
    assert_eq!(right.memory, memory);
    assert_eq!(right.index, node.index + 1);
    assert_eq!((heap.used(), remains), (16 * KIB, 1));
    assert_eq!(device.allocations.get(), 1);
    let left = gpu_alloc::buddy::BuddyBlock {
        memory,
        ptr: None,
        offset: node.offset,
        size: 8 * KIB,
        chunk: node.chunk,
        index: node.index,
    };
    buddy.dealloc(&device, right, &mut heap, &mut remains);
    assert_eq!((heap.used(), remains), (16 * KIB, 1));
    buddy.dealloc(&device, left, &mut heap, &mut remains);
    assert_eq!((heap.used(), remains), (0, 2));
    assert_eq!(device.outstanding(), 0);

    let mut mapped: BuddyAllocator<usize> =
        BuddyAllocator::new(KIB, 16 * KIB, 1, props(HOST_VISIBLE | HOST_COHERENT), 0);
    let memory = device.allocate_memory(16 * KIB, 1, flags).unwrap();
    let answer = device.map_memory(&memory, 0, 16 * KIB);
    let address = answer.unwrap();
    let node = mapped
        .settle_chunk(&device, memory, Some(answer), 3, 8 * KIB, &mut heap, &mut remains)
        .unwrap();
    assert_eq!((node.offset, node.index % 2), (0, 0));
    assert_eq!((heap.used(), remains), (16 * KIB, 1));
    let right = mapped.allocate(&device, 8 * KIB, 0, flags, &mut heap, &mut remains).unwrap();
    assert_eq!(right.ptr, Some(address + 8 * KIB as usize));

    let mut failing: BuddyAllocator<usize> =
        BuddyAllocator::new(KIB, 16 * KIB, 1, props(HOST_VISIBLE | HOST_COHERENT), 0);
    let given_back = device.deallocations.get();
    let memory = device.allocate_memory(16 * KIB, 1, flags).unwrap();
    let failed = Some(Err(DeviceMapError::MapFailed));
    assert_eq!(
        failing
            .settle_chunk(&device, memory, failed, 3, 8 * KIB, &mut heap, &mut remains)
            .map(|node| node.index)
            .unwrap_err(),
        AllocationError::OutOfHostMemory
    );
    assert_eq!(device.deallocations.get(), given_back + 1);
    assert_eq!((heap.used(), remains), (16 * KIB, 1));
}

#[test]
fn blocks_in_non_coherent_memory_start_at_multiples_of_the_atom() {
    let mut s = one_type(HOST_VISIBLE, MIB, 16, 64);
    let mut blocks = Vec::new();
    for size in [1u64, 10, 100, 65, 3] {
        let linear = s.allocator.allocate(&s.device, request(size, UsageFlags::transient())).unwrap();
        assert!(matches!(linear.flavor(), MemoryBlockFlavor::Linear { .. }));
        assert_eq!(linear.map_mask(), 63);
        assert_eq!(linear.offset() % 64, 0);
        assert_eq!(linear.sync_range(1, 1), (linear.offset(), 64));
        blocks.push(linear);
        let buddy = s.allocator.allocate(&s.device, request(size, UsageFlags::empty())).unwrap();
        assert!(matches!(buddy.flavor(), MemoryBlockFlavor::Buddy { .. }));
        assert_eq!(buddy.map_mask(), 63);
        assert_eq!(buddy.offset() % 64, 0);
        assert!(buddy.size() >= 64);
        assert_eq!(buddy.sync_range(70, 1).0 % 64, 0);
        blocks.push(buddy);
    }
    let first = blocks[0].memory();
    let second = blocks[1].memory();
    for (i, block) in blocks.iter().enumerate() {
        assert_eq!(block.memory(), if i % 2 == 0 { first } else { second });
    }
    for block in blocks {
        s.allocator.dealloc(&s.device, block);
    }
}

#[test]
fn the_first_buddy_request_fails_where_the_device_gives_no_object() {
    let mut s = one_type(DEVICE_LOCAL, MIB, 1, 64);
    let mut own = request(KIB, UsageFlags::empty());
    own.dedicated = Dedicated::Required;
    let only = s.allocator.allocate(&s.device, own).unwrap();
    assert_eq!(s.allocator.allocations_remains(), 0);
    let used = s.allocator.heap_usage(0);
    assert_eq!(
        s.allocator.allocate(&s.device, request(KIB, UsageFlags::empty())).unwrap_err(),
        AllocationError::TooManyObjects
    );
    assert_eq!(
        s.allocator.allocate(&s.device, request(KIB, UsageFlags::transient())).unwrap_err(),
        AllocationError::TooManyObjects
    );
    assert_eq!(s.allocator.heap_usage(0), used);
    assert_eq!(s.allocator.allocations_remains(), 0);
    assert_eq!(s.device.allocations.get(), 1);
    s.allocator.dealloc(&s.device, only);
    let block = s.allocator.allocate(&s.device, request(KIB, UsageFlags::empty())).unwrap();
    assert_eq!((block.offset(), block.size()), (0, KIB));
    assert_eq!(s.allocator.heap_usage(0), Some(16 * KIB));
    assert_eq!(s.allocator.allocations_remains(), 0);
    s.allocator.dealloc(&s.device, block);
    assert_eq!(s.allocator.heap_usage(0), Some(0));
    assert_eq!(s.allocator.allocations_remains(), 1);
}
