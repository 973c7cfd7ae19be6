use gpu_alloc::align::{floor_power_of_two, is_power_of_two};
use gpu_alloc::backend::{
    device_properties, gfx_device_properties, reports_buffer_device_address, memory_properties_from_ash, memory_properties_from_erupt,
    memory_properties_from_gfx, memory_properties_to_ash, memory_properties_to_erupt,
    memory_properties_to_gfx, saturate_u32,
};
use gpu_alloc::allocator::{
    choose_strategy, clamp_thresholds, lesser, map_mask, ChosenStrategy, Thresholds,
};
use gpu_alloc::block::{access_result, dedicated_address};
use gpu_alloc::buddy::{chunk_address, node_index, Side};
use gpu_alloc::heap::Heap;
use gpu_alloc::linear::{chunk_mapping, effective_size, fits, min, ChunkMapping};
use gpu_alloc::slab::Slab;
use gpu_alloc::usage::{compatible, penalty, MemoryForUsage};
use gpu_alloc::{
    align_down, align_up, with_implicit_usage_flags, AllocationError, AllocationFlags, Config,
    Dedicated, DeviceMapError, DeviceProperties, MapError, MemoryHeap, MemoryPropertyFlags,
    MemoryType, OutOfMemory, Strategy, UsageFlags,
};

fn props(bits: u8) -> MemoryPropertyFlags {
    MemoryPropertyFlags::from_bits_truncate(bits)
}

fn usage(bits: u8) -> UsageFlags {
    UsageFlags::from_bits_truncate(bits)
}

#[test]
fn align_up_rounds_to_the_mask() {
    assert_eq!(align_up(0, 63), Some(0));
    assert_eq!(align_up(1, 63), Some(64));
    assert_eq!(align_up(64, 63), Some(64));
    assert_eq!(align_up(65, 63), Some(128));
    assert_eq!(align_up(40, 0), Some(40));
    assert_eq!(align_up(10, 7), Some(16));
}

#[test]
fn align_up_fails_on_overflow() {
    assert_eq!(align_up(u64::MAX, 1), None);
    assert_eq!(align_up(u64::MAX - 62, 63), None);
    assert_eq!(align_up(u64::MAX - 63, 63), Some(u64::MAX - 63));
}

#[test]
fn align_down_rounds_to_the_mask() {
    assert_eq!(align_down(0, 63), 0);
    assert_eq!(align_down(10, 63), 0);
    assert_eq!(align_down(64, 63), 64);
    assert_eq!(align_down(127, 63), 64);
    assert_eq!(align_down(127, 0), 127);
}

#[test]
fn powers_of_two() {
    assert!(is_power_of_two(1));
    assert!(is_power_of_two(1 << 63));
    assert!(!is_power_of_two(0));
    assert!(!is_power_of_two(6));
    assert_eq!(floor_power_of_two(0), 1);
    assert_eq!(floor_power_of_two(1), 1);
    assert_eq!(floor_power_of_two(1000), 512);
    assert_eq!(floor_power_of_two(1024), 1024);
    assert_eq!(floor_power_of_two(u64::MAX), 1 << 63);
}

#[test]
fn implicit_usage_flags() {
    assert_eq!(
        with_implicit_usage_flags(UsageFlags::empty()),
        UsageFlags::fast_device_access()
    );
    assert_eq!(
        with_implicit_usage_flags(UsageFlags::upload()),
        UsageFlags::upload().union(UsageFlags::host_access())
    );
    assert_eq!(
        with_implicit_usage_flags(UsageFlags::download()),
        UsageFlags::download().union(UsageFlags::host_access())
    );
    assert_eq!(
        with_implicit_usage_flags(UsageFlags::transient()),
        UsageFlags::transient()
    );
    assert_eq!(
        with_implicit_usage_flags(UsageFlags::device_address()),
        UsageFlags::device_address()
    );
}

#[test]
fn flags_have_their_bits() {
    assert_eq!(UsageFlags::fast_device_access().bits(), 0x01);
    assert_eq!(UsageFlags::host_access().bits(), 0x02);
    assert_eq!(UsageFlags::download().bits(), 0x04);
    assert_eq!(UsageFlags::upload().bits(), 0x08);
    assert_eq!(UsageFlags::transient().bits(), 0x10);
    assert_eq!(UsageFlags::device_address().bits(), 0x20);
    assert_eq!(UsageFlags::from_bits_truncate(0xff).bits(), 0x3f);
    assert_eq!(MemoryPropertyFlags::device_local().bits(), 0x01);
    assert_eq!(MemoryPropertyFlags::host_visible().bits(), 0x02);
    assert_eq!(MemoryPropertyFlags::host_coherent().bits(), 0x04);
    assert_eq!(MemoryPropertyFlags::host_cached().bits(), 0x08);
    assert_eq!(MemoryPropertyFlags::lazily_allocated().bits(), 0x10);
    assert_eq!(MemoryPropertyFlags::from_bits_truncate(0xff).bits(), 0x1f);
    assert_eq!(AllocationFlags::device_address().bits(), 0x01);
    assert!(AllocationFlags::empty().is_empty());
    assert!(AllocationFlags::device_address().contains(AllocationFlags::device_address()));
    assert!(!AllocationFlags::empty().contains(AllocationFlags::device_address()));
}

#[test]
fn flags_set_operations() {
    let both = MemoryPropertyFlags::host_visible().union(MemoryPropertyFlags::host_coherent());
    assert!(both.contains(MemoryPropertyFlags::host_visible()));
    assert!(both.is_host_visible());
    assert!(both.is_host_coherent());
    assert!(!both.contains(MemoryPropertyFlags::device_local()));
    assert!(both.intersects(MemoryPropertyFlags::host_coherent()));
    assert!(!both.intersects(MemoryPropertyFlags::host_cached()));
    assert_eq!(
        both.intersection(MemoryPropertyFlags::host_visible()),
        MemoryPropertyFlags::host_visible()
    );
    assert!(MemoryPropertyFlags::empty().is_empty());
    let u = UsageFlags::upload().union(UsageFlags::transient());
    assert!(u.contains(UsageFlags::upload()));
    assert!(u.intersects(UsageFlags::transient()));
    assert!(!u.contains(UsageFlags::download()));
    assert!(u.has(0x10));
    assert!(!u.has(0x04));
}

#[test]
fn config_for_a_potato() {
    let config = Config::i_am_potato();
    assert_eq!(config.dedicated_threshold, 32 * 1024);
    assert_eq!(config.preferred_dedicated_threshold, 1024);
    assert_eq!(config.transient_dedicated_threshold, 128 * 1024);
    assert_eq!(config.linear_chunk, 128 * 1024);
    assert_eq!(config.minimal_buddy_size, 1);
    assert_eq!(config.initial_buddy_dedicated_size, 8 * 1024);
}

#[test]
fn config_for_prototyping_is_1024_potatoes() {
    let config = Config::i_am_prototyping();
    let potato = Config::i_am_potato();
    assert_eq!(config.dedicated_threshold, potato.dedicated_threshold * 1024);
    assert_eq!(
        config.preferred_dedicated_threshold,
        potato.preferred_dedicated_threshold * 1024
    );
    assert_eq!(
        config.transient_dedicated_threshold,
        potato.transient_dedicated_threshold * 1024
    );
    assert_eq!(config.linear_chunk, potato.linear_chunk * 1024);
    assert_eq!(config.minimal_buddy_size, 1024);
    assert_eq!(config.initial_buddy_dedicated_size, 8 * 1024 * 1024);
}

#[test]
fn heap_keeps_its_accounts() {
    let mut heap = Heap::new(1000);
    assert_eq!(heap.size(), 1000);
    assert_eq!(heap.budget(), 1000);
    heap.allocate(300);
    heap.allocate(200);
    assert_eq!(heap.used(), 500);
    assert_eq!(heap.budget(), 500);
    heap.dealloc(300);
    assert_eq!(heap.used(), 200);
    assert_eq!(heap.budget(), 800);
    assert_eq!(heap.cumulative_allocated(), 500);
    assert_eq!(heap.cumulative_deallocated(), 300);
    assert_eq!(
        heap.cumulative_allocated() - heap.cumulative_deallocated(),
        heap.used() as u128
    );
    heap.allocate(800);
    assert_eq!(heap.budget(), 0);
}

#[test]
fn slab_keeps_indices_stable_and_reuses_them() {
    let mut slab: Slab<u32> = Slab::new();
    assert_eq!(slab.len(), 0);
    assert_eq!(slab.next_index(), 0);
    assert_eq!(slab.insert(10), 0);
    assert_eq!(slab.insert(11), 1);
    assert_eq!(slab.insert(12), 2);
    assert_eq!(*slab.get(1), 11);
    assert_eq!(slab.remove(0), 10);
    assert_eq!(slab.remove(2), 12);
    assert_eq!(*slab.get(1), 11);
    assert_eq!(slab.next_index(), 2);
    assert_eq!(slab.insert(22), 2);
    assert_eq!(slab.insert(20), 0);
    assert_eq!(slab.insert(13), 3);
    assert_eq!(slab.len(), 4);
    assert_eq!(slab.replace(1, 31), 11);
    assert_eq!(*slab.get(1), 31);
    assert_eq!(*slab.get(0), 20);
    assert_eq!(*slab.get(2), 22);
}

#[test]
fn memory_must_be_host_visible_for_host_access() {
    assert!(compatible(usage(0x01), props(0x01)));
    assert!(compatible(usage(0x10), props(0x00)));
    assert!(!compatible(usage(0x02), props(0x01)));
    assert!(!compatible(usage(0x04), props(0x05)));
    assert!(!compatible(usage(0x08), props(0x0d)));
    assert!(compatible(usage(0x02), props(0x02)));
    assert!(compatible(usage(0x0a), props(0x06)));
    assert!(compatible(usage(0x20), props(0x00)));
}

#[test]
fn penalty_adds_up_what_is_missing() {
    assert_eq!(penalty(usage(0x01), props(0x01)), 0);
    assert_eq!(penalty(usage(0x01), props(0x00)), 8);
    assert_eq!(penalty(usage(0x01), props(0x03)), 4);
    assert_eq!(penalty(usage(0x01), props(0x02)), 12);
    assert_eq!(penalty(usage(0x02), props(0x06)), 0);
    assert_eq!(penalty(usage(0x02), props(0x02)), 1);
    assert_eq!(penalty(usage(0x06), props(0x02)), 17);
    assert_eq!(penalty(usage(0x06), props(0x0e)), 0);
    assert_eq!(penalty(usage(0x0a), props(0x02)), 9);
    assert_eq!(penalty(usage(0x0a), props(0x07)), 0);
    assert_eq!(penalty(usage(0x10), props(0x00)), 2);
    assert_eq!(penalty(usage(0x10), props(0x10)), 0);
    assert_eq!(penalty(usage(0x20), props(0x00)), 0);
    assert_eq!(penalty(usage(0x1f), props(0x00)), 27);
    assert_eq!(penalty(usage(0x1f), props(0x02)), 31);
}

fn sample_types() -> Vec<MemoryType> {
    vec![
        MemoryType { heap: 0, props: props(0x01) },
        MemoryType { heap: 1, props: props(0x06) },
        MemoryType { heap: 1, props: props(0x0e) },
        MemoryType { heap: 0, props: props(0x07) },
        MemoryType { heap: 1, props: props(0x02) },
    ]
}

#[test]
fn memory_types_are_ranked_for_each_usage() {
    let types = sample_types();
    let table = MemoryForUsage::new(types.as_slice());
    assert_eq!(table.types(usage(0x01)).as_slice(), &[0, 3, 1, 2, 4]);
    assert_eq!(table.mask(usage(0x01)), 0b11111);
    assert_eq!(table.types(usage(0x02)).as_slice(), &[1, 2, 3, 4]);
    assert_eq!(table.mask(usage(0x02)), 0b11110);
    assert_eq!(table.types(usage(0x06)).as_slice(), &[2, 1, 3, 4]);
    assert_eq!(table.types(usage(0x0a)).as_slice(), &[3, 1, 2, 4]);
    assert_eq!(table.types(usage(0x20)).as_slice(), &[0, 1, 2, 3, 4]);
    assert_eq!(table.mask(usage(0x20)), 0b11111);
}

#[test]
fn no_memory_type_no_ranking() {
    let table = MemoryForUsage::new(&[]);
    assert_eq!(table.types(usage(0x01)).len(), 0);
    assert_eq!(table.mask(usage(0x01)), 0);
    let device_only = [MemoryType { heap: 0, props: props(0x01) }];
    let table = MemoryForUsage::new(&device_only);
    assert_eq!(table.types(usage(0x02)).len(), 0);
    assert_eq!(table.mask(usage(0x02)), 0);
    assert_eq!(table.mask(usage(0x01)), 1);
}

fn thresholds() -> Thresholds {
    Thresholds {
        dedicated: 32 * 1024,
        preferred_dedicated: 1024,
        transient_dedicated: 1024 * 1024,
    }
}

#[test]
fn transient_requests_are_linear_up_to_the_threshold() {
    let transient = UsageFlags::transient();
    assert_eq!(
        choose_strategy(512 * 1024, transient, Dedicated::Indifferent, None, thresholds(), true),
        ChosenStrategy::Linear
    );
    assert_eq!(
        choose_strategy(2 * 1024 * 1024, transient, Dedicated::Indifferent, None, thresholds(), true),
        ChosenStrategy::Dedicated
    );
    assert_eq!(
        choose_strategy(1024 * 1024, transient, Dedicated::Indifferent, None, thresholds(), true),
        ChosenStrategy::Linear
    );
    assert_eq!(
        choose_strategy(2 * 1024 * 1024, transient, Dedicated::Indifferent, None, thresholds(), false),
        ChosenStrategy::Linear
    );
}

#[test]
fn strategy_follows_the_request() {
    let fast = UsageFlags::fast_device_access();
    let t = thresholds();
    assert_eq!(
        choose_strategy(1, fast, Dedicated::Required, None, t, false),
        ChosenStrategy::Dedicated
    );
    assert_eq!(
        choose_strategy(1024, fast, Dedicated::Preferred, None, t, true),
        ChosenStrategy::Dedicated
    );
    assert_eq!(
        choose_strategy(1023, fast, Dedicated::Preferred, None, t, true),
        ChosenStrategy::Buddy
    );
    assert_eq!(
        choose_strategy(1024, fast, Dedicated::Preferred, None, t, false),
        ChosenStrategy::Buddy
    );
    assert_eq!(
        choose_strategy(32 * 1024, fast, Dedicated::Indifferent, None, t, true),
        ChosenStrategy::Buddy
    );
    assert_eq!(
        choose_strategy(32 * 1024 + 1, fast, Dedicated::Indifferent, None, t, true),
        ChosenStrategy::Dedicated
    );
    assert_eq!(
        choose_strategy(32 * 1024 + 1, fast, Dedicated::Indifferent, None, t, false),
        ChosenStrategy::Buddy
    );
}

#[test]
fn a_forced_strategy_is_taken() {
    let fast = UsageFlags::fast_device_access();
    let t = thresholds();
    assert_eq!(
        choose_strategy(1, fast, Dedicated::Indifferent, Some(Strategy::Dedicated), t, true),
        ChosenStrategy::Dedicated
    );
    assert_eq!(
        choose_strategy(1 << 30, fast, Dedicated::Required, Some(Strategy::Linear), t, true),
        ChosenStrategy::Linear
    );
    assert_eq!(
        choose_strategy(1 << 30, fast, Dedicated::Required, Some(Strategy::Buddy), t, true),
        ChosenStrategy::Buddy
    );
    assert_eq!(
        choose_strategy(1024, fast, Dedicated::Indifferent, Some(Strategy::PreferDedicated), t, true),
        ChosenStrategy::Dedicated
    );
    assert_eq!(
        choose_strategy(1023, fast, Dedicated::Required, Some(Strategy::PreferDedicated), t, true),
        ChosenStrategy::Buddy
    );
}

#[test]
fn thresholds_are_clamped() {
    let t = clamp_thresholds(100, 200, 50, 10);
    assert_eq!(
        t,
        Thresholds { dedicated: 100, preferred_dedicated: 100, transient_dedicated: 100 }
    );
    let t = clamp_thresholds(100, 20, 500, 10);
    assert_eq!(
        t,
        Thresholds { dedicated: 100, preferred_dedicated: 20, transient_dedicated: 500 }
    );
    let t = clamp_thresholds(100, 20, 500, 1000);
    assert_eq!(
        t,
        Thresholds { dedicated: 1000, preferred_dedicated: 1000, transient_dedicated: 1000 }
    );
}

#[test]
fn the_largest_request_that_prefers_its_own_object_gets_it() {
    let t = clamp_thresholds(32 * 1024, 1024, 128 * 1024, 1 << 20);
    let fast = UsageFlags::fast_device_access();
    assert_eq!(
        choose_strategy(1 << 20, fast, Dedicated::Preferred, None, t, true),
        ChosenStrategy::Dedicated
    );
}

#[test]
fn map_mask_is_for_memory_that_is_not_coherent() {
    assert_eq!(map_mask(props(0x02), 63), 63);
    assert_eq!(map_mask(props(0x06), 63), 0);
    assert_eq!(map_mask(props(0x01), 63), 0);
    assert_eq!(map_mask(props(0x04), 63), 0);
    assert_eq!(lesser(3, 5), 3);
    assert_eq!(lesser(5, 3), 3);
}

#[test]
fn node_indices_pack_pair_and_side() {
    assert_eq!(node_index(0, Side::Left), 0);
    assert_eq!(node_index(0, Side::Right), 1);
    assert_eq!(node_index(5, Side::Left), 10);
    assert_eq!(node_index(5, Side::Right), 11);
    assert_eq!(node_index(5, Side::Right), (5 << 1) | 1);
    assert_eq!(Side::Left.bit(), 0);
    assert_eq!(Side::Right.bit(), 1);
    for pair in 0..100usize {
        for side in [Side::Left, Side::Right] {
            let index = node_index(pair, side);
            assert_eq!(index >> 1, pair);
            assert_eq!((index & 1) as u8, side.bit());
        }
    }
}

#[test]
fn error_messages() {
    assert_eq!(AllocationError::OutOfDeviceMemory.message(), "Device memory exhausted");
    assert_eq!(AllocationError::OutOfHostMemory.message(), "Host memory exhausted");
    assert_eq!(
        AllocationError::NoCompatibleMemoryTypes.message(),
        "No compatible memory types from requested mask support requested usage"
    );
    assert_eq!(
        AllocationError::TooManyObjects.message(),
        "Reached limit on memory objects count"
    );
    assert_eq!(MapError::OutOfDeviceMemory.message(), "Device memory exhausted");
    assert_eq!(MapError::OutOfHostMemory.message(), "Host memory exhausted");
    assert_eq!(MapError::MapFailed.message(), "Failed to map memory object");
    assert_eq!(
        MapError::NonHostVisible.message(),
        "Impossible to map non-host-visible memory"
    );
}

#[test]
fn device_errors_become_allocator_errors() {
    assert_eq!(
        AllocationError::from(OutOfMemory::OutOfDeviceMemory),
        AllocationError::OutOfDeviceMemory
    );
    assert_eq!(
        AllocationError::from(OutOfMemory::OutOfHostMemory),
        AllocationError::OutOfHostMemory
    );
    assert_eq!(MapError::from(OutOfMemory::OutOfDeviceMemory), MapError::OutOfDeviceMemory);
    assert_eq!(MapError::from(OutOfMemory::OutOfHostMemory), MapError::OutOfHostMemory);
    assert_eq!(
        MapError::from(DeviceMapError::OutOfDeviceMemory),
        MapError::OutOfDeviceMemory
    );
    assert_eq!(MapError::from(DeviceMapError::OutOfHostMemory), MapError::OutOfHostMemory);
    assert_eq!(MapError::from(DeviceMapError::MapFailed), MapError::MapFailed);
}

#[test]
fn a_block_fits_up_to_the_last_byte() {
    assert!(fits(4096, 0, 4096, 0));
    assert!(fits(4096, 3968, 128, 0));
    assert!(!fits(4096, 3969, 128, 0));
    assert!(!fits(4096, 3968, 129, 0));
    assert!(fits(4096, 1, 64, 63));
    assert!(!fits(4096, 4033, 64, 63));
    assert!(!fits(u64::MAX, u64::MAX, 1, 1));
    assert!(!fits(u64::MAX, 8, u64::MAX, 0));
    assert_eq!(effective_size(0), 1);
    assert_eq!(effective_size(7), 7);
    assert_eq!(min(5, 3), 3);
    assert_eq!(min(3, 5), 3);
    assert_eq!(min(3, usize::MAX), 3);
}

#[test]
fn dedicated_address_is_moved_by_the_shift() {
    assert_eq!(dedicated_address(Ok(4096), 10, 20), Ok(4106));
    assert_eq!(dedicated_address(Ok(4096), 0, 1), Ok(4096));
    assert_eq!(dedicated_address(Ok(usize::MAX), 1, 1), Err(MapError::MapFailed));
    assert_eq!(dedicated_address(Ok(usize::MAX - 30), 10, 20), Ok(usize::MAX - 20));
    assert_eq!(dedicated_address(Ok(usize::MAX - 30), 10, 21), Err(MapError::MapFailed));
    assert_eq!(
        dedicated_address(Err(DeviceMapError::OutOfDeviceMemory), 1, 1),
        Err(MapError::OutOfDeviceMemory)
    );
    assert_eq!(
        dedicated_address(Err(DeviceMapError::OutOfHostMemory), 1, 1),
        Err(MapError::OutOfHostMemory)
    );
    assert_eq!(
        dedicated_address(Err(DeviceMapError::MapFailed), 1, 1),
        Err(MapError::MapFailed)
    );
    assert_eq!(access_result(Ok(())), Ok(()));
    assert_eq!(
        access_result(Err(OutOfMemory::OutOfDeviceMemory)),
        Err(MapError::OutOfDeviceMemory)
    );
    assert_eq!(
        access_result(Err(OutOfMemory::OutOfHostMemory)),
        Err(MapError::OutOfHostMemory)
    );
}

#[test]
fn what_becomes_of_a_fresh_linear_chunk() {
    assert_eq!(chunk_mapping(Ok(4096), 100, true, true), ChunkMapping::Mapped(4096));
    assert_eq!(chunk_mapping(Ok(4096), 100, false, false), ChunkMapping::Mapped(4096));
    assert_eq!(
        chunk_mapping(Ok(usize::MAX - 50), 100, true, true),
        ChunkMapping::Failed(AllocationError::OutOfHostMemory)
    );
    assert_eq!(
        chunk_mapping(Ok(usize::MAX - 50), 100, false, true),
        ChunkMapping::Unmapped
    );
    assert_eq!(
        chunk_mapping(Err(DeviceMapError::MapFailed), 100, false, true),
        ChunkMapping::Unmapped
    );
    assert_eq!(
        chunk_mapping(Err(DeviceMapError::MapFailed), 100, false, false),
        ChunkMapping::Failed(AllocationError::OutOfHostMemory)
    );
    assert_eq!(
        chunk_mapping(Err(DeviceMapError::MapFailed), 100, true, true),
        ChunkMapping::Failed(AllocationError::OutOfHostMemory)
    );
    assert_eq!(
        chunk_mapping(Err(DeviceMapError::OutOfDeviceMemory), 100, false, true),
        ChunkMapping::Failed(AllocationError::OutOfDeviceMemory)
    );
    assert_eq!(
        chunk_mapping(Err(DeviceMapError::OutOfHostMemory), 100, false, true),
        ChunkMapping::Failed(AllocationError::OutOfHostMemory)
    );
}

#[test]
fn what_becomes_of_a_fresh_buddy_chunk() {
    assert_eq!(chunk_address(Ok(4096), 100), Ok(4096));
    assert_eq!(
        chunk_address(Ok(usize::MAX - 50), 100),
        Err(AllocationError::OutOfHostMemory)
    );
    assert_eq!(
        chunk_address(Err(DeviceMapError::MapFailed), 100),
        Err(AllocationError::OutOfHostMemory)
    );
    assert_eq!(
        chunk_address(Err(DeviceMapError::OutOfHostMemory), 100),
        Err(AllocationError::OutOfHostMemory)
    );
    assert_eq!(
        chunk_address(Err(DeviceMapError::OutOfDeviceMemory), 100),
        Err(AllocationError::OutOfDeviceMemory)
    );
}

#[test]
fn device_properties_are_checked() {
    let owned = DeviceProperties {
        memory_types: sample_types(),
        memory_heaps: vec![MemoryHeap { size: 1 << 20 }, MemoryHeap { size: 1 << 30 }],
        max_memory_allocation_count: 16,
        max_memory_allocation_size: 1 << 20,
        non_coherent_atom_size: 64,
        buffer_device_address: true,
    };
    let borrowed = owned.by_ref();
    assert_eq!(borrowed.memory_types, owned.memory_types.as_slice());
    assert_eq!(borrowed.memory_heaps, owned.memory_heaps.as_slice());
    assert_eq!(borrowed.max_memory_allocation_count, 16);
    assert_eq!(borrowed.max_memory_allocation_size, 1 << 20);
    assert_eq!(borrowed.non_coherent_atom_size, 64);
    assert!(borrowed.buffer_device_address);
    assert!(borrowed.is_valid());

    let mut bad_atom = owned.by_ref();
    bad_atom.non_coherent_atom_size = 48;
    assert!(!bad_atom.is_valid());
    bad_atom.non_coherent_atom_size = 0;
    assert!(!bad_atom.is_valid());
    bad_atom.non_coherent_atom_size = 1 << 63;
    assert!(!bad_atom.is_valid());

    let one_heap = [MemoryHeap { size: 1 << 20 }];
    let mut bad_heap = owned.by_ref();
    bad_heap.memory_heaps = &one_heap;
    assert!(!bad_heap.is_valid());

    let many: Vec<MemoryType> = (0..33).map(|_| MemoryType { heap: 0, props: props(1) }).collect();
    let mut too_many = owned.by_ref();
    too_many.memory_types = many.as_slice();
    assert!(!too_many.is_valid());
}

#[test]
fn memory_properties_keep_their_bits_across_apis() {
    assert_eq!(memory_properties_from_gfx(0x1), MemoryPropertyFlags::device_local());
    assert_eq!(memory_properties_from_gfx(0x2), MemoryPropertyFlags::host_visible());
    assert_eq!(memory_properties_from_gfx(0x4), MemoryPropertyFlags::host_coherent());
    assert_eq!(memory_properties_from_gfx(0x8), MemoryPropertyFlags::host_cached());
    assert_eq!(memory_properties_from_gfx(0x10), MemoryPropertyFlags::lazily_allocated());
    assert_eq!(memory_properties_from_gfx(0xffe6), props(0x06));
    assert_eq!(memory_properties_from_gfx(0), MemoryPropertyFlags::empty());
    assert_eq!(memory_properties_to_gfx(props(0x0b)), 0x0b);
    assert_eq!(memory_properties_from_ash(0x1), MemoryPropertyFlags::device_local());
    assert_eq!(memory_properties_from_ash(0x2), MemoryPropertyFlags::host_visible());
    assert_eq!(memory_properties_from_ash(0x4), MemoryPropertyFlags::host_coherent());
    assert_eq!(memory_properties_from_ash(0x8), MemoryPropertyFlags::host_cached());
    assert_eq!(memory_properties_from_ash(0x10), MemoryPropertyFlags::lazily_allocated());
    assert_eq!(memory_properties_from_ash(0xffff_ffe7), props(0x07));
    assert_eq!(memory_properties_to_ash(props(0x1f)), 0x1f);
    assert_eq!(memory_properties_from_erupt(0xc9), props(0x09));
    assert_eq!(memory_properties_to_erupt(props(0x11)), 0x11);
    for bits in 0..32u8 {
        let flags = props(bits);
        assert_eq!(memory_properties_from_gfx(memory_properties_to_gfx(flags)), flags);
        assert_eq!(memory_properties_from_ash(memory_properties_to_ash(flags)), flags);
        assert_eq!(memory_properties_from_erupt(memory_properties_to_erupt(flags)), flags);
    }
}

#[test]
fn device_properties_as_gfx_reports_them() {
    assert_eq!(saturate_u32(7), 7);
    assert_eq!(saturate_u32(usize::MAX), u32::MAX);
    let reported = gfx_device_properties(usize::MAX, 64, &[(0x1, 0), (0x106, 1)], &[1 << 20, 1 << 30]);
    assert_eq!(reported.max_memory_allocation_count, u32::MAX);
    assert_eq!(reported.max_memory_allocation_size, u64::MAX);
    assert_eq!(reported.non_coherent_atom_size, 64);
    assert!(!reported.buffer_device_address);
    assert_eq!(
        reported.memory_types,
        vec![
            MemoryType { heap: 0, props: props(0x01) },
            MemoryType { heap: 1, props: props(0x06) },
        ]
    );
    assert_eq!(
        reported.memory_heaps,
        vec![MemoryHeap { size: 1 << 20 }, MemoryHeap { size: 1 << 30 }]
    );
    assert!(reported.by_ref().is_valid());
    let few = gfx_device_properties(4096, 256, &[], &[]);
    assert_eq!(few.max_memory_allocation_count, 4096);
    assert!(few.memory_types.is_empty() && few.memory_heaps.is_empty());
}

#[test]
fn device_properties_as_vulkan_reports_them() {
    let reported = device_properties(4096, 256, &[(0x1, 0), (0xe, 1), (0x8f, 1)], &[1 << 32, 1 << 34], true);
    assert_eq!(reported.max_memory_allocation_count, 4096);
    assert_eq!(reported.max_memory_allocation_size, u64::MAX);
    assert_eq!(reported.non_coherent_atom_size, 256);
    assert!(reported.buffer_device_address);
    assert_eq!(
        reported.memory_types,
        vec![
            MemoryType { heap: 0, props: props(0x01) },
            MemoryType { heap: 1, props: props(0x0e) },
            MemoryType { heap: 1, props: props(0x0f) },
        ]
    );
    assert_eq!(
        reported.memory_heaps,
        vec![MemoryHeap { size: 1 << 32 }, MemoryHeap { size: 1 << 34 }]
    );
    assert!(reported.by_ref().is_valid());
    let version = |major: u32, minor: u32, patch: u32| (major << 22) | (minor << 12) | patch;
    assert!(!reports_buffer_device_address(version(1, 0, 0)));
    assert!(!reports_buffer_device_address(version(1, 1, 130)));
    assert!(reports_buffer_device_address(version(1, 2, 0)));
    assert!(reports_buffer_device_address(version(1, 3, 250)));
    assert!(!reports_buffer_device_address(version(0, 9, 0)));
    assert!(!reports_buffer_device_address(version(2, 0, 0)));
}
