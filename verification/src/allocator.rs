//! The allocator: which strategy serves a request, which memory types are tried, and
//! what each heap is charged with.

use vstd::prelude::*;
use crate::align::{
    floor_power_of_two, is_low_mask, lemma_low_masks_union, lemma_power_of_two_mask,
    spec_align_up, spec_floor_power_of_two, spec_is_power_of_two,
};
use crate::block::{MemoryBlock, MemoryBlockFlavor};
use crate::buddy::{size_of_class, BuddyAllocator, BuddyBlock};
use crate::config::Config;
use crate::device::{DeviceProperties, MemoryDevice, OutOfMemory};
use crate::error::AllocationError;
use crate::heap::Heap;
use crate::linear::{
    chunk_bytes, effective_size, lemma_chunk_bytes, spec_effective_size, LinearAllocator,
    LinearBlock, LinearKey,
};
use crate::tree::BuddyKey;
use crate::types::{AllocationFlags, MemoryHeap, MemoryPropertyFlags, MemoryType};
use crate::usage::{
    bit_is_set, comes_before, is_mask_of, is_ranking, lemma_host_access_is_host_visible,
    served_usage, spec_compatible, with_implicit_usage_flags, MemoryForUsage, UsageFlags,
};

verus! {

/// Whether a request wants a memory object of its own.
#[derive(Clone, Copy, Debug, PartialEq, Eq, Hash, Structural)]
pub enum Dedicated {
    /// The allocator decides.
    Indifferent,
    /// A memory object of its own would serve the resource better; the allocator may
    /// still place the block in a shared one.
    Preferred,
    /// The resource has to be bound to a memory object of its own.
    Required,
}

/// A request for a memory block.
#[derive(Clone, Copy, Debug, PartialEq, Eq, Hash, Structural)]
pub struct Request {
    /// Least size of the block in bytes.
    pub size: u64,
    /// Least alignment of the block, as a mask.
    pub align_mask: u64,
    /// Intended usage of the block.
    pub usage: UsageFlags,
    /// Bitset of the memory types that the block may come from.
    pub memory_types: u32,
    /// Whether the block wants a memory object of its own.
    pub dedicated: Dedicated,
}

/// A strategy that the caller can force on the allocator.
#[derive(Clone, Copy, Debug, PartialEq, Eq, Hash, Structural)]
#[non_exhaustive]
pub enum Strategy {
    /// Linear allocation, for blocks that are held for a short time.
    Linear,
    /// Buddy allocation, for general use.
    Buddy,
    /// A memory object of its own, straight from the device.
    Dedicated,
    /// A memory object of its own if the block is large enough for that.
    PreferDedicated,
}

/// The strategy that serves a request.
#[derive(Clone, Copy, Debug, PartialEq, Eq, Hash, Structural)]
pub enum ChosenStrategy {
    Linear,
    Buddy,
    Dedicated,
}

/// The thresholds that decide between the strategies.
#[derive(Clone, Copy, Debug, PartialEq, Eq, Hash, Structural)]
pub struct Thresholds {
    /// Size above which a request gets a memory object of its own.
    pub dedicated: u64,
    /// Size from which a request that prefers a memory object of its own gets one.
    pub preferred_dedicated: u64,
    /// Size above which a transient request gets a memory object of its own.
    pub transient_dedicated: u64,
}

/// The strategy that serves a request of `size` bytes.
///
/// * A forced strategy is taken as it is; to force `PreferDedicated` is to prefer a
///   memory object of its own.
/// * A request that requires a memory object of its own gets one.
/// * A request that prefers one gets it if it has at least `preferred_dedicated`
///   bytes and the device can still give a memory object.
/// * A transient request gets one if it has more than `transient_dedicated` bytes and
///   the device can still give a memory object, and is served linearly otherwise.
/// * Any other request gets one if it has more than `dedicated` bytes and the device
///   can still give a memory object, and is served by the buddy allocator otherwise.
pub open spec fn spec_choose_strategy(
    size: u64,
    usage: UsageFlags,
    dedicated: Dedicated,
    forced: Option<Strategy>,
    thresholds: Thresholds,
    objects_remain: bool,
) -> ChosenStrategy {
    let preferred = forced == Some(Strategy::PreferDedicated) || (forced is None && dedicated
        == Dedicated::Preferred);
    if forced == Some(Strategy::Dedicated) {
        ChosenStrategy::Dedicated
    } else if forced == Some(Strategy::Linear) {
        ChosenStrategy::Linear
    } else if forced == Some(Strategy::Buddy) {
        ChosenStrategy::Buddy
    } else if forced is None && dedicated == Dedicated::Required {
        ChosenStrategy::Dedicated
    } else if preferred && size >= thresholds.preferred_dedicated && objects_remain {
        ChosenStrategy::Dedicated
    } else if usage.spec_has(UsageFlags::TRANSIENT_BIT) {
        if size > thresholds.transient_dedicated && objects_remain {
            ChosenStrategy::Dedicated
        } else {
            ChosenStrategy::Linear
        }
    } else if size > thresholds.dedicated && objects_remain {
        ChosenStrategy::Dedicated
    } else {
        ChosenStrategy::Buddy
    }
}

/// Chooses the strategy that serves a request.
#[verifier::when_used_as_spec(spec_choose_strategy)]
pub fn choose_strategy(
    size: u64,
    usage: UsageFlags,
    dedicated: Dedicated,
    forced: Option<Strategy>,
    thresholds: Thresholds,
    objects_remain: bool,
) -> (r: ChosenStrategy)
    ensures
        r == spec_choose_strategy(size, usage, dedicated, forced, thresholds, objects_remain),
{
    let preferred = match forced {
        Some(Strategy::Dedicated) => {
            return ChosenStrategy::Dedicated;
        },
        Some(Strategy::Linear) => {
            return ChosenStrategy::Linear;
        },
        Some(Strategy::Buddy) => {
            return ChosenStrategy::Buddy;
        },
        Some(Strategy::PreferDedicated) => true,
        None => match dedicated {
            Dedicated::Required => {
                return ChosenStrategy::Dedicated;
            },
            Dedicated::Preferred => true,
            Dedicated::Indifferent => false,
        },
    };
    if preferred && size >= thresholds.preferred_dedicated && objects_remain {
        ChosenStrategy::Dedicated
    } else if usage.has(UsageFlags::TRANSIENT_BIT) {
        if size > thresholds.transient_dedicated && objects_remain {
            ChosenStrategy::Dedicated
        } else {
            ChosenStrategy::Linear
        }
    } else if size > thresholds.dedicated && objects_remain {
        ChosenStrategy::Dedicated
    } else {
        ChosenStrategy::Buddy
    }
}

/// The thresholds that an allocator works with, given those of its configuration and
/// the largest size of a memory object: the preferred threshold is not above the
/// dedicated one, the transient one not below it, and none is below the largest size
/// of a memory object.
pub open spec fn spec_clamp_thresholds(
    dedicated: u64,
    preferred_dedicated: u64,
    transient_dedicated: u64,
    max_memory_allocation_size: u64,
) -> Thresholds {
    let preferred = if preferred_dedicated < dedicated {
        preferred_dedicated
    } else {
        dedicated
    };
    let transient = if transient_dedicated > dedicated {
        transient_dedicated
    } else {
        dedicated
    };
    Thresholds {
        dedicated: if dedicated > max_memory_allocation_size {
            dedicated
        } else {
            max_memory_allocation_size
        },
        preferred_dedicated: if preferred > max_memory_allocation_size {
            preferred
        } else {
            max_memory_allocation_size
        },
        transient_dedicated: if transient > max_memory_allocation_size {
            transient
        } else {
            max_memory_allocation_size
        },
    }
}

/// The thresholds that an allocator works with.
#[verifier::when_used_as_spec(spec_clamp_thresholds)]
pub fn clamp_thresholds(
    dedicated: u64,
    preferred_dedicated: u64,
    transient_dedicated: u64,
    max_memory_allocation_size: u64,
) -> (r: Thresholds)
    ensures
        r == spec_clamp_thresholds(
            dedicated,
            preferred_dedicated,
            transient_dedicated,
            max_memory_allocation_size,
        ),
        r.preferred_dedicated <= r.dedicated <= r.transient_dedicated,
        max_memory_allocation_size <= r.preferred_dedicated,
{
    let preferred = if preferred_dedicated < dedicated {
        preferred_dedicated
    } else {
        dedicated
    };
    let transient = if transient_dedicated > dedicated {
        transient_dedicated
    } else {
        dedicated
    };
    Thresholds {
        dedicated: if dedicated > max_memory_allocation_size {
            dedicated
        } else {
            max_memory_allocation_size
        },
        preferred_dedicated: if preferred > max_memory_allocation_size {
            preferred
        } else {
            max_memory_allocation_size
        },
        transient_dedicated: if transient > max_memory_allocation_size {
            transient
        } else {
            max_memory_allocation_size
        },
    }
}

/// What the first `count` of the memory types, each with `bytes[t]` bytes in memory
/// objects of its sub-allocators, charge the heap `heap` with.
pub open spec fn types_charge(bytes: Seq<nat>, heaps: Seq<u32>, heap: int, count: int) -> nat
    decreases count,
{
    if count <= 0 {
        0
    } else {
        types_charge(bytes, heaps, heap, count - 1) + if heaps[count - 1] == heap {
            bytes[count - 1]
        } else {
            0nat
        }
    }
}

proof fn lemma_types_charge_update(
    bytes: Seq<nat>,
    heaps: Seq<u32>,
    heap: int,
    count: int,
    changed: int,
    value: nat,
)
    requires
        0 <= changed < bytes.len(),
        count <= bytes.len(),
    ensures
        types_charge(bytes.update(changed, value), heaps, heap, count) + (if changed < count
            && heaps[changed] == heap {
            bytes[changed]
        } else {
            0nat
        }) == types_charge(bytes, heaps, heap, count) + (if changed < count && heaps[changed]
            == heap {
            value
        } else {
            0nat
        }),
    decreases count,
{
    if count > 0 {
        lemma_types_charge_update(bytes, heaps, heap, count - 1, changed, value);
    }
}

/// The first `count` of the numbers `objects`, taken together.
pub open spec fn types_total(objects: Seq<nat>, count: int) -> nat
    decreases count,
{
    if count <= 0 {
        0
    } else {
        types_total(objects, count - 1) + objects[count - 1]
    }
}

proof fn lemma_types_total_update(objects: Seq<nat>, count: int, changed: int, value: nat)
    requires
        0 <= changed < objects.len(),
        count <= objects.len(),
    ensures
        types_total(objects.update(changed, value), count) + (if changed < count {
            objects[changed]
        } else {
            0nat
        }) == types_total(objects, count) + (if changed < count {
            value
        } else {
            0nat
        }),
    decreases count,
{
    if count > 0 {
        lemma_types_total_update(objects, count - 1, changed, value);
    }
}

proof fn lemma_types_zero(bytes: Seq<nat>, heaps: Seq<u32>, heap: int, count: int)
    requires
        count <= bytes.len(),
        forall|t: int| 0 <= t < bytes.len() ==> bytes[t] == 0,
    ensures
        types_charge(bytes, heaps, heap, count) == 0,
        types_total(bytes, count) == 0,
    decreases count,
{
    if count > 0 {
        lemma_types_zero(bytes, heaps, heap, count - 1);
    }
}

/// What the dedicated blocks `blocks`, each with its memory type and its size, charge
/// the heap `heap` with.
pub open spec fn dedicated_charge(blocks: Seq<(u32, u64)>, heaps: Seq<u32>, heap: int) -> nat
    decreases blocks.len(),
{
    if blocks.len() == 0 {
        0
    } else {
        dedicated_charge(blocks.drop_last(), heaps, heap) + if heaps[blocks.last().0 as int]
            == heap {
            blocks.last().1 as nat
        } else {
            0nat
        }
    }
}

proof fn lemma_dedicated_push(blocks: Seq<(u32, u64)>, heaps: Seq<u32>, heap: int, x: (u32, u64))
    ensures
        dedicated_charge(blocks.push(x), heaps, heap) == dedicated_charge(blocks, heaps, heap)
            + if heaps[x.0 as int] == heap {
            x.1 as nat
        } else {
            0nat
        },
{
    assert(blocks.push(x).drop_last() =~= blocks);
}

proof fn lemma_dedicated_remove(blocks: Seq<(u32, u64)>, heaps: Seq<u32>, heap: int, i: int)
    requires
        0 <= i < blocks.len(),
    ensures
        dedicated_charge(blocks.remove(i), heaps, heap) + (if heaps[blocks[i].0 as int] == heap {
            blocks[i].1 as nat
        } else {
            0nat
        }) == dedicated_charge(blocks, heaps, heap),
    decreases blocks.len(),
{
    if i == blocks.len() - 1 {
        assert(blocks.remove(i) =~= blocks.drop_last());
    } else {
        lemma_dedicated_remove(blocks.drop_last(), heaps, heap, i);
        assert(blocks.remove(i).drop_last() =~= blocks.drop_last().remove(i));
        assert(blocks.remove(i).last() == blocks.last());
    }
}

/// How often `x` occurs in `blocks`.
pub open spec fn occurrences(blocks: Seq<(u32, u64)>, x: (u32, u64)) -> nat
    decreases blocks.len(),
{
    if blocks.len() == 0 {
        0
    } else {
        occurrences(blocks.drop_last(), x) + if blocks.last() == x {
            1nat
        } else {
            0nat
        }
    }
}

proof fn lemma_occurrences_push(blocks: Seq<(u32, u64)>, x: (u32, u64), y: (u32, u64))
    ensures
        occurrences(blocks.push(y), x) == occurrences(blocks, x) + if x == y {
            1nat
        } else {
            0nat
        },
{
    assert(blocks.push(y).drop_last() =~= blocks);
}

proof fn lemma_occurrences_remove(blocks: Seq<(u32, u64)>, x: (u32, u64), i: int)
    requires
        0 <= i < blocks.len(),
    ensures
        occurrences(blocks.remove(i), x) + (if blocks[i] == x {
            1nat
        } else {
            0nat
        }) == occurrences(blocks, x),
    decreases blocks.len(),
{
    if i == blocks.len() - 1 {
        assert(blocks.remove(i) =~= blocks.drop_last());
    } else {
        lemma_occurrences_remove(blocks.drop_last(), x, i);
        assert(blocks.remove(i).drop_last() =~= blocks.drop_last().remove(i));
        assert(blocks.remove(i).last() == blocks.last());
    }
}

proof fn lemma_occurs(blocks: Seq<(u32, u64)>, x: (u32, u64)) -> (i: int)
    requires
        occurrences(blocks, x) > 0,
    ensures
        0 <= i < blocks.len(),
        blocks[i] == x,
    decreases blocks.len(),
{
    if blocks.last() == x {
        blocks.len() - 1
    } else {
        lemma_occurs(blocks.drop_last(), x)
    }
}

proof fn lemma_types_charge_part(
    bytes: Seq<nat>,
    heaps: Seq<u32>,
    heap: int,
    count: int,
    part: int,
)
    requires
        0 <= part < count <= bytes.len(),
        heaps[part] == heap,
    ensures
        bytes[part] <= types_charge(bytes, heaps, heap, count),
        bytes[part] <= types_total(bytes, count),
    decreases count,
{
    if part < count - 1 {
        lemma_types_charge_part(bytes, heaps, heap, count - 1, part);
    }
}

proof fn lemma_types_total_part(bytes: Seq<nat>, count: int, part: int)
    requires
        0 <= part < count <= bytes.len(),
    ensures
        bytes[part] <= types_total(bytes, count),
    decreases count,
{
    if part < count - 1 {
        lemma_types_total_part(bytes, count - 1, part);
    }
}

/// What tells one live block of an allocator from another.
#[allow(inconsistent_fields)]
pub enum BlockKey {
    /// A block that is a memory object of its own: blocks of one memory type and one
    /// size are not told apart.
    Dedicated { memory_type: u32, size: u64 },
    /// A block of the linear allocator of a memory type.
    Linear { memory_type: u32, key: LinearKey },
    /// A block of the buddy allocator of a memory type.
    Buddy { memory_type: u32, key: BuddyKey },
}

/// The mask that blocks in memory with properties `props` are mapped with: that of the
/// atom size for memory that is host-visible and not host-coherent, zero for other
/// memory.
pub open spec fn spec_map_mask(props: MemoryPropertyFlags, atom_mask: u64) -> u64 {
    if props.spec_is_host_visible() && !props.spec_is_host_coherent() {
        atom_mask
    } else {
        0
    }
}

/// The mask that blocks in memory with properties `props` are mapped with.
#[verifier::when_used_as_spec(spec_map_mask)]
pub fn map_mask(props: MemoryPropertyFlags, atom_mask: u64) -> (r: u64)
    ensures
        r == spec_map_mask(props, atom_mask),
{
    if props.is_host_visible() && !props.is_host_coherent() {
        atom_mask
    } else {
        0
    }
}

/// The lesser of two numbers.
pub open spec fn spec_lesser(a: u64, b: u64) -> u64 {
    if a < b {
        a
    } else {
        b
    }
}

/// The lesser of two numbers.
#[verifier::when_used_as_spec(spec_lesser)]
pub fn lesser(a: u64, b: u64) -> (r: u64)
    ensures
        r == spec_lesser(a, b),
{
    if a < b {
        a
    } else {
        b
    }
}

/// Memory allocator for devices of Vulkan-like graphics APIs.
///
/// The allocator takes memory objects from a device and hands out blocks of them. It
/// keeps count of the memory objects that it holds, so that the device's limit is
/// never exceeded, and of the bytes that they take from each heap.
pub struct GpuAllocator<M> {
    thresholds: Thresholds,
    max_memory_allocation_size: u64,
    memory_for_usage: MemoryForUsage,
    memory_types: Vec<MemoryType>,
    memory_heaps: Vec<Heap>,
    max_memory_allocation_count: Ghost<u32>,
    allocations_remains: u32,
    non_coherent_atom_mask: u64,
    linear_chunk: u64,
    minimal_buddy_size: u64,
    initial_buddy_dedicated_size: u64,
    buffer_device_address: bool,
    linear_allocators: Vec<Option<LinearAllocator<M>>>,
    buddy_allocators: Vec<Option<BuddyAllocator<M>>>,
    /// The live dedicated blocks, each with its memory type and its size.
    dedicated: Ghost<Seq<(u32, u64)>>,
}

/// What an allocator is made with and never changes.
pub struct Parameters {
    pub thresholds: Thresholds,
    pub max_memory_allocation_size: u64,
    pub max_memory_allocation_count: u32,
    pub memory_types: Seq<MemoryType>,
    pub heap_sizes: Seq<u64>,
    pub non_coherent_atom_mask: u64,
    pub linear_chunk: u64,
    pub minimal_buddy_size: u64,
    pub initial_buddy_dedicated_size: u64,
    pub buffer_device_address: bool,
}

impl<M> GpuAllocator<M> {
    /// What the allocator was made with.
    pub closed spec fn parameters(&self) -> Parameters {
        Parameters {
            thresholds: self.thresholds,
            max_memory_allocation_size: self.max_memory_allocation_size,
            max_memory_allocation_count: self.max_memory_allocation_count@,
            memory_types: self.memory_types@,
            heap_sizes: Seq::new(
                self.memory_heaps@.len(),
                |heap: int| self.memory_heaps@[heap].spec_size(),
            ),
            non_coherent_atom_mask: self.non_coherent_atom_mask,
            linear_chunk: self.linear_chunk,
            minimal_buddy_size: self.minimal_buddy_size,
            initial_buddy_dedicated_size: self.initial_buddy_dedicated_size,
            buffer_device_address: self.buffer_device_address,
        }
    }

    /// The bytes of the heap `heap` that are taken.
    pub closed spec fn heap_used(&self, heap: int) -> u64 {
        self.memory_heaps@[heap].spec_used()
    }

    /// The number of memory objects that the device can still give.
    pub closed spec fn spec_allocations_remains(&self) -> u32 {
        self.allocations_remains
    }

    /// The bytes of the memory objects that the sub-allocators of each memory type
    /// hold.
    pub closed spec fn type_bytes(&self) -> Seq<nat> {
        Seq::new(
            self.memory_types@.len(),
            |t: int|
                (match self.linear_allocators@[t] {
                    Some(allocator) => allocator.bytes_held(),
                    None => 0nat,
                }) + (match self.buddy_allocators@[t] {
                    Some(allocator) => allocator.bytes_held(),
                    None => 0nat,
                }),
        )
    }

    /// The number of the memory objects that the sub-allocators of each memory type
    /// hold.
    pub closed spec fn type_objects(&self) -> Seq<nat> {
        Seq::new(
            self.memory_types@.len(),
            |t: int|
                (match self.linear_allocators@[t] {
                    Some(allocator) => allocator.objects_held(),
                    None => 0nat,
                }) + (match self.buddy_allocators@[t] {
                    Some(allocator) => allocator.objects_held(),
                    None => 0nat,
                }),
        )
    }

    /// The heap of each memory type.
    pub closed spec fn type_heaps(&self) -> Seq<u32> {
        Seq::new(self.memory_types@.len(), |t: int| self.memory_types@[t].heap)
    }

    /// The live dedicated blocks, each with its memory type and its size.
    pub closed spec fn dedicated_blocks(&self) -> Seq<(u32, u64)> {
        self.dedicated@
    }

    /// The bytes of the memory objects that are charged to the heap `heap`: those of
    /// the dedicated blocks and those that the sub-allocators hold.
    pub open spec fn heap_charge(&self, heap: int) -> nat {
        dedicated_charge(self.dedicated_blocks(), self.type_heaps(), heap) + types_charge(
            self.type_bytes(),
            self.type_heaps(),
            heap,
            self.type_bytes().len() as int,
        )
    }

    /// The number of memory objects that the allocator has taken from the device and
    /// not given back.
    pub open spec fn device_objects(&self) -> nat {
        self.dedicated_blocks().len() + types_total(
            self.type_objects(),
            self.type_objects().len() as int,
        )
    }

    spec fn linear_ok(&self, t: int) -> bool {
        match self.linear_allocators@[t] {
            Some(allocator) => {
                &&& allocator.wf()
                &&& allocator.spec_memory_type() == t
                &&& allocator.spec_props() == self.memory_types@[t].props
                &&& allocator.spec_atom_mask() == spec_map_mask(
                    self.memory_types@[t].props,
                    self.non_coherent_atom_mask,
                )
                &&& allocator.spec_chunk_size() == self.linear_chunk_size(t)
            },
            None => true,
        }
    }

    spec fn buddy_ok(&self, t: int) -> bool {
        match self.buddy_allocators@[t] {
            Some(allocator) => {
                &&& allocator.wf()
                &&& allocator.spec_memory_type() == t
                &&& allocator.spec_props() == self.memory_types@[t].props
                &&& is_low_mask(allocator.spec_atom_mask())
                &&& self.buddy_sizes_ok(t, &allocator)
            },
            None => true,
        }
    }

    /// The invariant of the allocator.
    pub closed spec fn wf(&self) -> bool {
        &&& self.memory_types@.len() <= 32
        &&& self.linear_allocators@.len() == self.memory_types@.len()
        &&& self.buddy_allocators@.len() == self.memory_types@.len()
        &&& self.memory_for_usage.wf()
        &&& self.memory_for_usage.memory_types() == self.memory_types@
        &&& is_low_mask(self.non_coherent_atom_mask)
        &&& self.non_coherent_atom_mask < isize::MAX
        &&& self.thresholds.preferred_dedicated <= self.thresholds.dedicated
            <= self.thresholds.transient_dedicated
        &&& self.max_memory_allocation_size <= self.thresholds.preferred_dedicated
        &&& forall|t: int|
            0 <= t < self.memory_types@.len() ==> (#[trigger] self.memory_types@[t]).heap
                < self.memory_heaps@.len()
        &&& forall|t: int| 0 <= t < self.memory_types@.len() ==> #[trigger] self.linear_ok(t)
        &&& forall|t: int| 0 <= t < self.memory_types@.len() ==> #[trigger] self.buddy_ok(t)
        &&& forall|i: int|
            0 <= i < self.dedicated@.len() ==> (#[trigger] self.dedicated@[i]).0
                < self.memory_types@.len()
        &&& forall|heap: int|
            0 <= heap < self.memory_heaps@.len() ==> (#[trigger] self.memory_heaps@[heap]).wf()
                && self.memory_heaps@[heap].spec_used() == self.heap_charge(heap)
        &&& self.allocations_remains + self.device_objects() == self.max_memory_allocation_count@
    }

    /// Every heap is charged with the bytes of the memory objects that were taken from
    /// it and not given back, and with no more than it has.
    pub proof fn lemma_heap_accounting(&self, heap: int)
        requires
            self.wf(),
            0 <= heap < self.parameters().heap_sizes.len(),
        ensures
            self.heap_used(heap) == self.heap_charge(heap),
            self.heap_used(heap) <= self.parameters().heap_sizes[heap],
    {
        assert(self.memory_heaps@[heap].wf());
    }

    /// The memory objects that were taken from the device and not given back, and
    /// those that it can still give, are as many as it can give in all.
    pub proof fn lemma_object_accounting(&self)
        requires
            self.wf(),
        ensures
            self.parameters().max_memory_allocation_count - self.spec_allocations_remains()
                == self.device_objects(),
    {
    }

    /// What an allocator was made with is in order: the preferred threshold is not
    /// above the dedicated one, the transient one not below it, and none is below the
    /// largest size of a memory object; there are at most 32 memory types, each with a
    /// heap that exists; and the mask of the atom size is a mask of low bits.
    pub proof fn lemma_parameters(&self)
        requires
            self.wf(),
        ensures
            self.parameters().thresholds.preferred_dedicated
                <= self.parameters().thresholds.dedicated
                <= self.parameters().thresholds.transient_dedicated,
            self.parameters().max_memory_allocation_size
                <= self.parameters().thresholds.preferred_dedicated,
            self.parameters().memory_types.len() <= 32,
            forall|t: int|
                0 <= t < self.parameters().memory_types.len() ==> (
                #[trigger] self.parameters().memory_types[t]).heap
                    < self.parameters().heap_sizes.len(),
            is_low_mask(self.parameters().non_coherent_atom_mask),
    {
    }
}

impl<M> GpuAllocator<M> {
    /// How many live blocks have the key `key`.
    pub closed spec fn live_count(&self, key: BlockKey) -> nat {
        match key {
            BlockKey::Dedicated { memory_type, size } => occurrences(
                self.dedicated@,
                (memory_type, size),
            ),
            BlockKey::Linear { memory_type, key } => if memory_type < self.memory_types@.len() {
                match self.linear_allocators@[memory_type as int] {
                    Some(allocator) => if allocator.live().dom().contains(key) {
                        1
                    } else {
                        0
                    },
                    None => 0,
                }
            } else {
                0
            },
            BlockKey::Buddy { memory_type, key } => if memory_type < self.memory_types@.len() {
                match self.buddy_allocators@[memory_type as int] {
                    Some(allocator) => if allocator.live().contains(key) {
                        1
                    } else {
                        0
                    },
                    None => 0,
                }
            } else {
                0
            },
        }
    }

    /// The class of a buddy block of `size` bytes in the memory type `memory_type`.
    pub closed spec fn buddy_class(&self, memory_type: u32, size: u64) -> int {
        self.buddy_allocators@[memory_type as int]->0.class_of(size)
    }

    /// The key of a block.
    pub open spec fn key_of(&self, block: &MemoryBlock<M>) -> BlockKey {
        match block.spec_flavor() {
            MemoryBlockFlavor::Dedicated => BlockKey::Dedicated {
                memory_type: block.spec_memory_type(),
                size: block.spec_size(),
            },
            MemoryBlockFlavor::Linear { chunk, ptr } => BlockKey::Linear {
                memory_type: block.spec_memory_type(),
                key: LinearKey { mapped: ptr is Some, chunk, offset: block.spec_offset() },
            },
            MemoryBlockFlavor::Buddy { index, .. } => BlockKey::Buddy {
                memory_type: block.spec_memory_type(),
                key: BuddyKey {
                    class: self.buddy_class(block.spec_memory_type(), block.spec_size()),
                    index,
                },
            },
        }
    }

    /// Whether the size of a buddy block is the size of a class of the buddy allocator
    /// of its memory type.
    pub closed spec fn buddy_size_ok(&self, memory_type: u32, size: u64) -> bool {
        memory_type < self.memory_types@.len() && match self.buddy_allocators@[memory_type as int] {
            Some(allocator) => 0 <= allocator.class_of(size) < allocator.tree().classes.len()
                && allocator.tree().class_size(allocator.class_of(size)) == size,
            None => false,
        }
    }

    /// Whether `block` is a live block of the allocator.
    pub open spec fn owns(&self, block: &MemoryBlock<M>) -> bool {
        &&& self.live_count(self.key_of(block)) >= 1
        &&& block.spec_flavor() is Buddy ==> self.buddy_size_ok(
            block.spec_memory_type(),
            block.spec_size(),
        )
    }

    /// A new allocator for a device with the properties `props`, which holds no memory
    /// object.
    pub fn new(config: Config, props: DeviceProperties<&[MemoryType], &[MemoryHeap]>) -> (r: Self)
        requires
            props.spec_is_valid(),
        ensures
            r.wf(),
            r.parameters() == (Parameters {
                thresholds: spec_clamp_thresholds(
                    config.dedicated_threshold,
                    config.preferred_dedicated_threshold,
                    config.transient_dedicated_threshold,
                    props.max_memory_allocation_size,
                ),
                max_memory_allocation_size: props.max_memory_allocation_size,
                max_memory_allocation_count: props.max_memory_allocation_count,
                memory_types: props.memory_types@,
                heap_sizes: Seq::new(
                    props.memory_heaps@.len(),
                    |heap: int| props.memory_heaps@[heap].size,
                ),
                non_coherent_atom_mask: (props.non_coherent_atom_size - 1) as u64,
                linear_chunk: config.linear_chunk,
                minimal_buddy_size: config.minimal_buddy_size,
                initial_buddy_dedicated_size: config.initial_buddy_dedicated_size,
                buffer_device_address: props.buffer_device_address,
            }),
            r.spec_allocations_remains() == props.max_memory_allocation_count,
            r.device_objects() == 0,
            forall|key: BlockKey| r.live_count(key) == 0,
            forall|heap: int| 0 <= heap < props.memory_heaps@.len() ==> r.heap_used(heap) == 0,
            forall|t: int|
                #![trigger r.linear_allocator(t)]
                #![trigger r.buddy_allocator(t)]
                r.linear_allocator(t) is None && r.buddy_allocator(t) is None,
    {
        let count = props.memory_types.len();
        let mut memory_types: Vec<MemoryType> = Vec::new();
        let mut linear_allocators: Vec<Option<LinearAllocator<M>>> = Vec::new();
        let mut buddy_allocators: Vec<Option<BuddyAllocator<M>>> = Vec::new();
        let mut t: usize = 0;
        while t < count
            invariant
                count == props.memory_types@.len(),
                t <= count,
                memory_types@ == props.memory_types@.take(t as int),
                linear_allocators@.len() == t,
                buddy_allocators@.len() == t,
                forall|i: int| 0 <= i < t ==> (#[trigger] linear_allocators@[i]) is None,
                forall|i: int| 0 <= i < t ==> (#[trigger] buddy_allocators@[i]) is None,
            decreases count - t,
        {
            memory_types.push(props.memory_types[t]);
            linear_allocators.push(None);
            buddy_allocators.push(None);
            t += 1;
            assert(memory_types@ =~= props.memory_types@.take(t as int));
        }
        assert(memory_types@ =~= props.memory_types@);
        let mut memory_heaps: Vec<Heap> = Vec::new();
        let mut h: usize = 0;
        while h < props.memory_heaps.len()
            invariant
                h <= props.memory_heaps@.len(),
                memory_heaps@.len() == h,
                forall|i: int|
                    0 <= i < h ==> (#[trigger] memory_heaps@[i]).wf()
                        && memory_heaps@[i].spec_size()
                        == props.memory_heaps@[i].size && memory_heaps@[i].spec_used() == 0,
            decreases props.memory_heaps@.len() - h,
        {
            memory_heaps.push(Heap::new(props.memory_heaps[h].size));
            h += 1;
        }
        proof {
            lemma_power_of_two_mask(props.non_coherent_atom_size);
        }
        let r = GpuAllocator {
            thresholds: clamp_thresholds(
                config.dedicated_threshold,
                config.preferred_dedicated_threshold,
                config.transient_dedicated_threshold,
                props.max_memory_allocation_size,
            ),
            max_memory_allocation_size: props.max_memory_allocation_size,
            memory_for_usage: MemoryForUsage::new(props.memory_types),
            memory_types,
            memory_heaps,
            max_memory_allocation_count: Ghost(props.max_memory_allocation_count),
            allocations_remains: props.max_memory_allocation_count,
            non_coherent_atom_mask: props.non_coherent_atom_size - 1,
            linear_chunk: config.linear_chunk,
            minimal_buddy_size: config.minimal_buddy_size,
            initial_buddy_dedicated_size: config.initial_buddy_dedicated_size,
            buffer_device_address: props.buffer_device_address,
            linear_allocators,
            buddy_allocators,
            dedicated: Ghost(Seq::empty()),
        };
        proof {
            assert(r.parameters().heap_sizes =~= Seq::new(
                props.memory_heaps@.len(),
                |heap: int| props.memory_heaps@[heap].size,
            ));
            assert forall|heap: int| 0 <= heap < r.memory_heaps@.len() implies r.heap_charge(heap)
                == 0 by {
                lemma_types_zero(
                    r.type_bytes(),
                    r.type_heaps(),
                    heap,
                    r.type_bytes().len() as int,
                );
            }
            lemma_types_zero(r.type_objects(), r.type_heaps(), 0, r.type_objects().len() as int);
        }
        r
    }
}

impl<M> GpuAllocator<M> {
    /// Whether `self` differs from `before` in nothing but the sub-allocators of the
    /// memory type `t`, the heap of that memory type, and the number of memory
    /// objects that the device can still give.
    spec fn changed_at(&self, before: &Self, t: int) -> bool {
        &&& self.parameters() == before.parameters()
        &&& self.memory_for_usage == before.memory_for_usage
        &&& self.dedicated == before.dedicated
        &&& self.memory_heaps@.len() == before.memory_heaps@.len()
        &&& self.linear_allocators@.len() == before.linear_allocators@.len()
        &&& self.buddy_allocators@.len() == before.buddy_allocators@.len()
        &&& forall|other: int|
            0 <= other < self.memory_heaps@.len() && other != before.memory_types@[t].heap
                ==> #[trigger] self.memory_heaps@[other] == before.memory_heaps@[other]
        &&& forall|other: int|
            0 <= other < self.memory_types@.len() && other != t
                ==> #[trigger] self.linear_allocators@[other] == before.linear_allocators@[other]
        &&& forall|other: int|
            0 <= other < self.memory_types@.len() && other != t
                ==> #[trigger] self.buddy_allocators@[other] == before.buddy_allocators@[other]
    }

    /// The invariant holds again after the sub-allocators of one memory type have
    /// taken memory objects or given them back, if the heap and the number of memory
    /// objects that remain were changed accordingly.
    proof fn lemma_changed_at(&self, before: &Self, t: int)
        requires
            before.wf(),
            0 <= t < before.memory_types@.len(),
            self.changed_at(before, t),
            self.linear_ok(t),
            self.buddy_ok(t),
            self.memory_heaps@[before.memory_types@[t].heap as int].wf(),
            self.memory_heaps@[before.memory_types@[t].heap as int].spec_used()
                + before.type_bytes()[t]
                    == before.memory_heaps@[before.memory_types@[t].heap as int].spec_used()
                + self.type_bytes()[t],
            self.allocations_remains + self.type_objects()[t] == before.allocations_remains
                + before.type_objects()[t],
        ensures
            self.wf(),
            self.device_objects() + before.type_objects()[t] == before.device_objects()
                + self.type_objects()[t],
    {
        let n = before.memory_types@.len() as int;
        assert(self.memory_types@ == before.memory_types@);
        assert(self.type_heaps() =~= before.type_heaps());
        assert(self.type_bytes() =~= before.type_bytes().update(t, self.type_bytes()[t]));
        assert(self.type_objects() =~= before.type_objects().update(t, self.type_objects()[t]));
        lemma_types_total_update(before.type_objects(), n, t, self.type_objects()[t]);
        assert forall|heap: int| 0 <= heap < self.memory_heaps@.len() implies (
        #[trigger] self.memory_heaps@[heap]).wf() && self.memory_heaps@[heap].spec_used()
            == self.heap_charge(heap) by {
            lemma_types_charge_update(
                before.type_bytes(),
                before.type_heaps(),
                heap,
                n,
                t,
                self.type_bytes()[t],
            );
            assert(before.memory_heaps@[heap].wf());
        }
        assert forall|other: int| 0 <= other < self.memory_types@.len()
            implies #[trigger] self.linear_ok(
            other,
        ) by {
            if other != t {
                assert(before.linear_ok(other));
            }
        }
        assert forall|other: int| 0 <= other < self.memory_types@.len()
            implies #[trigger] self.buddy_ok(
            other,
        ) by {
            if other != t {
                assert(before.buddy_ok(other));
            }
        }
        assert(self.parameters().heap_sizes.len() == before.parameters().heap_sizes.len());
    }

    /// What the sub-allocators of a memory type hold is part of what its heap is
    /// charged with.
    proof fn lemma_part(&self, t: int)
        requires
            self.wf(),
            0 <= t < self.memory_types@.len(),
        ensures
            self.type_bytes()[t] <= self.memory_heaps@[self.memory_types@[t].heap as int].spec_used(),
            self.type_objects()[t] + self.allocations_remains <= u32::MAX,
            self.memory_heaps@[self.memory_types@[t].heap as int].wf(),
    {
        let n = self.memory_types@.len() as int;
        let heap = self.memory_types@[t].heap as int;
        assert(self.memory_heaps@[heap].wf());
        lemma_types_charge_part(self.type_bytes(), self.type_heaps(), heap, n, t);
        lemma_types_total_part(self.type_objects(), n, t);
    }
}

impl<M> GpuAllocator<M> {
    /// Gives a block back to the allocator.
    ///
    /// A dedicated block goes back to the device: the device can give one memory object
    /// more, and the heap of the block is charged with the size of the block less. A
    /// block of a sub-allocator goes back to the sub-allocator that it came from,
    /// which gives the chunk of the block back to the device when the chunk is no
    /// longer needed: a filled chunk of a linear allocator with its last block, and a
    /// chunk of a buddy allocator when no block of it is live. The heap is then
    /// charged with the size of the chunk less, and the device can give one memory
    /// object more. No other heap is changed, and every other live block stays live,
    /// with the key that it had.
    pub fn dealloc<D: MemoryDevice<M>>(&mut self, device: &D, block: MemoryBlock<M>)
        requires
            old(self).wf(),
            old(self).owns(&block),
        ensures
            final(self).wf(),
            final(self).parameters() == old(self).parameters(),
            forall|key: BlockKey|
                #![trigger final(self).live_count(key)]
                final(self).live_count(key) + (if key == old(self).key_of(&block) {
                    1nat
                } else {
                    0nat
                }) == old(self).live_count(key),
            final(self).device_objects() <= old(self).device_objects(),
            final(self).keeps_blocks_of(old(self)),
            final(self).same_heaps_but(old(self), old(self).heap_of(block.spec_memory_type() as int)),
            final(self).no_heap_above(old(self)),
            final(self).spec_allocations_remains() >= old(self).spec_allocations_remains(),
            block.spec_flavor() is Dedicated ==> {
                &&& final(self).spec_allocations_remains() == old(self).spec_allocations_remains()
                    + 1
                &&& final(self).heap_used(old(self).heap_of(block.spec_memory_type() as int))
                    + block.spec_size() == old(self).heap_used(
                    old(self).heap_of(block.spec_memory_type() as int),
                )
                &&& final(self).same_sub_allocators(old(self))
            },
            block.spec_flavor() is Linear ==> {
                let t = block.spec_memory_type() as int;
                let allocator = old(self).linear_allocator(t)->0;
                let freed = if allocator.frees_chunk(&Self::as_linear(&block)) {
                    1nat
                } else {
                    0nat
                };
                &&& old(self).linear_allocator(t) is Some
                &&& final(self).spec_allocations_remains() == old(self).spec_allocations_remains()
                    + freed
                &&& final(self).heap_used(old(self).heap_of(t)) + chunk_bytes(
                    freed,
                    allocator.spec_chunk_size(),
                ) == old(self).heap_used(old(self).heap_of(t))
            },
            block.spec_flavor() is Buddy ==> {
                let t = block.spec_memory_type() as int;
                let was = old(self).buddy_allocator(t)->0;
                let chunk = was.place(old(self).key_of(&block)->Buddy_key).0 as int;
                let freed = !final(self).buddy_allocator(t)->0.tree().chunk_occ(chunk);
                &&& old(self).buddy_allocator(t) is Some
                &&& final(self).buddy_allocator(t) is Some
                &&& final(self).spec_allocations_remains() == old(self).spec_allocations_remains()
                    + if freed {
                    1int
                } else {
                    0int
                }
                &&& final(self).heap_used(old(self).heap_of(t)) + (if freed {
                    was.chunk_size(chunk) as int
                } else {
                    0int
                }) == old(self).heap_used(old(self).heap_of(t))
            },
            forall|other: MemoryBlock<M>|
                #![trigger old(self).owns(&other)]
                old(self).owns(&other) && (old(self).key_of(&other) != old(self).key_of(&block)
                    || old(self).live_count(old(self).key_of(&block)) >= 2) ==> final(self).owns(
                    &other,
                ) && final(self).key_of(&other) == old(self).key_of(&other),
    {
        let ghost key = self.key_of(&block);
        let ghost entire = block;
        let (memory, flavor, memory_type, offset, size) = block.into_parts();
        match flavor {
            MemoryBlockFlavor::Dedicated => {
                let ghost entry = (memory_type, size);
                let ghost at = lemma_occurs(self.dedicated@, entry);
                proof {
                    assert(self.dedicated@[at].0 < self.memory_types@.len());
                }
                let heap = self.memory_types[memory_type as usize].heap as usize;
                proof {
                    assert(self.memory_heaps@[heap as int].wf());
                    lemma_dedicated_remove(self.dedicated@, self.type_heaps(), heap as int, at);
                }
                device.deallocate_memory(memory);
                self.allocations_remains += 1;
                self.memory_heaps[heap].dealloc(size);
                proof {
                    self.dedicated@ = self.dedicated@.remove(at);
                    assert(self.type_bytes() =~= old(self).type_bytes());
                    assert(self.type_objects() =~= old(self).type_objects());
                    assert(self.type_heaps() =~= old(self).type_heaps());
                    assert(self.parameters().heap_sizes =~= old(self).parameters().heap_sizes);
                    assert forall|other: int|
                        0 <= other < self.memory_heaps@.len() implies (
                    #[trigger] self.memory_heaps@[other]).wf()
                        && self.memory_heaps@[other].spec_used() == self.heap_charge(other) by {
                        lemma_dedicated_remove(
                            old(self).dedicated@,
                            self.type_heaps(),
                            other,
                            at,
                        );
                        assert(old(self).memory_heaps@[other].wf());
                    }
                    assert forall|t: int| 0 <= t < self.memory_types@.len()
                        implies #[trigger] self.linear_ok(
                        t,
                    ) by {
                        assert(old(self).linear_ok(t));
                    }
                    assert forall|t: int| 0 <= t < self.memory_types@.len()
                        implies #[trigger] self.buddy_ok(
                        t,
                    ) by {
                        assert(old(self).buddy_ok(t));
                    }
                    assert forall|k: BlockKey|
                        #![trigger self.live_count(k)]
                        self.live_count(k) + (if k == key {
                            1nat
                        } else {
                            0nat
                        }) == old(self).live_count(k) by {
                        match k {
                            BlockKey::Dedicated { memory_type, size } => {
                                lemma_occurrences_remove(
                                    old(self).dedicated@,
                                    (memory_type, size),
                                    at,
                                );
                            },
                            _ => {},
                        }
                    }
                }
            },
            MemoryBlockFlavor::Linear { chunk, ptr } => {
                proof {
                    self.lemma_part(memory_type as int);
                    assert(self.linear_ok(memory_type as int));
                    assert(self.buddy_ok(memory_type as int));
                }
                let heap = self.memory_types[memory_type as usize].heap as usize;
                let heap_ref = &mut self.memory_heaps[heap];
                match &mut self.linear_allocators[memory_type as usize] {
                    Some(allocator) => {
                        allocator.dealloc(
                            device,
                            LinearBlock { memory, offset, size, ptr, chunk },
                            heap_ref,
                            &mut self.allocations_remains,
                        );
                    },
                    None => {},
                }
                proof {
                    assert(self.parameters().heap_sizes =~= old(self).parameters().heap_sizes);
                    self.lemma_changed_at(old(self), memory_type as int);
                    assert forall|k: BlockKey|
                        #![trigger self.live_count(k)]
                        self.live_count(k) + (if k == key {
                            1nat
                        } else {
                            0nat
                        }) == old(self).live_count(k) by {}
                    lemma_chunk_bytes(0, old(self).linear_allocators@[memory_type as int]->0.spec_chunk_size());
                    lemma_chunk_bytes(
                        old(self).linear_allocators@[memory_type as int]->0.objects_held(),
                        old(self).linear_allocators@[memory_type as int]->0.spec_chunk_size(),
                    );
                    lemma_chunk_bytes(
                        self.linear_allocators@[memory_type as int]->0.objects_held(),
                        old(self).linear_allocators@[memory_type as int]->0.spec_chunk_size(),
                    );
                    assert(Self::as_linear(&entire).key() == (LinearBlock {
                        memory,
                        offset,
                        size,
                        ptr,
                        chunk,
                    }).key());
                }
            },
            MemoryBlockFlavor::Buddy { chunk, ptr, index } => {
                proof {
                    self.lemma_part(memory_type as int);
                    assert(self.buddy_ok(memory_type as int));
                    assert(self.linear_ok(memory_type as int));
                }
                let heap = self.memory_types[memory_type as usize].heap as usize;
                let heap_ref = &mut self.memory_heaps[heap];
                match &mut self.buddy_allocators[memory_type as usize] {
                    Some(allocator) => {
                        allocator.dealloc(
                            device,
                            BuddyBlock { memory, offset, size, index, ptr, chunk },
                            heap_ref,
                            &mut self.allocations_remains,
                        );
                    },
                    None => {},
                }
                proof {
                    assert(self.parameters().heap_sizes =~= old(self).parameters().heap_sizes);
                    self.buddy_allocators@[memory_type as int]->0.lemma_largest_class(
                        &old(self).buddy_allocators@[memory_type as int]->0,
                    );
                    self.lemma_changed_at(old(self), memory_type as int);
                    assert forall|k: BlockKey|
                        #![trigger self.live_count(k)]
                        self.live_count(k) + (if k == key {
                            1nat
                        } else {
                            0nat
                        }) == old(self).live_count(k) by {}
                }
            },
        }
        proof {
            assert forall|t: int|
                0 <= t < old(self).buddy_allocators@.len() implies #[trigger] self.classes_kept_at(
                old(self),
                t,
            ) by {
                if t != memory_type || !(flavor is Buddy) {
                    assert(self.buddy_allocators@[t] == old(self).buddy_allocators@[t]);
                }
            }
            assert forall|other: MemoryBlock<M>|
                #![trigger old(self).owns(&other)]
                old(self).owns(&other) && (old(self).key_of(&other) != key || old(
                    self,
                ).live_count(key) >= 2) implies self.owns(&other) && self.key_of(&other) == old(
                self,
            ).key_of(&other) by {
                let k = old(self).key_of(&other);
                assert(self.live_count(k) + (if k == key {
                    1nat
                } else {
                    0nat
                }) == old(self).live_count(k));
                self.lemma_still_owns(old(self), &other);
            }
        }
    }
}

impl<M> GpuAllocator<M> {
    /// The buddy allocator of the memory type `t`, if there is one.
    pub closed spec fn buddy_allocator(&self, t: int) -> Option<BuddyAllocator<M>> {
        if 0 <= t < self.buddy_allocators@.len() {
            self.buddy_allocators@[t]
        } else {
            None
        }
    }

    /// The linear allocator of the memory type `t`, if there is one.
    pub closed spec fn linear_allocator(&self, t: int) -> Option<LinearAllocator<M>> {
        if 0 <= t < self.linear_allocators@.len() {
            self.linear_allocators@[t]
        } else {
            None
        }
    }

    /// The heap that the memory type `t` takes its memory from.
    pub open spec fn heap_of(&self, t: int) -> int {
        self.parameters().memory_types[t].heap as int
    }

    /// The bytes of the heap of the memory type `t` that are free.
    pub open spec fn heap_room(&self, t: int) -> int {
        self.parameters().heap_sizes[self.heap_of(t)] - self.heap_used(self.heap_of(t))
    }

    /// Whether every heap but `heap` is charged in `self` as it is in `before`.
    pub open spec fn same_heaps_but(&self, before: &Self, heap: int) -> bool {
        forall|h: int|
            #![trigger self.heap_used(h)]
            #![trigger before.heap_used(h)]
            0 <= h < self.parameters().heap_sizes.len() && h != heap ==> self.heap_used(h)
                == before.heap_used(h)
    }

    /// Whether `self` differs from `before`, in what the heaps are charged with and in
    /// the number of memory objects that the device can give, by one memory object of
    /// `bytes` bytes of the memory type `t`, or by nothing if `bytes` is 0.
    pub open spec fn charged_for(&self, before: &Self, t: int, bytes: u64) -> bool {
        &&& self.same_heaps_but(before, before.heap_of(t))
        &&& self.heap_used(before.heap_of(t)) == before.heap_used(before.heap_of(t)) + bytes
        &&& self.spec_allocations_remains() == before.spec_allocations_remains() - if bytes
            == 0 {
            0int
        } else {
            1int
        }
    }

    /// Whether every heap is charged with no more than it has.
    pub open spec fn within_heaps(&self) -> bool {
        forall|h: int|
            0 <= h < self.parameters().heap_sizes.len() ==> #[trigger] self.heap_used(h)
                <= self.parameters().heap_sizes[h]
    }

    /// A well-formed allocator charges every heap with no more than it has.
    pub proof fn lemma_within_heaps(&self)
        requires
            self.wf(),
        ensures
            self.within_heaps(),
    {
        assert forall|h: int| 0 <= h < self.parameters().heap_sizes.len() implies #[trigger] self.heap_used(
            h,
        ) <= self.parameters().heap_sizes[h] by {
            assert(self.memory_heaps@[h].wf());
        }
    }

    /// Whether every heap is charged in `self` as it is in `before`.
    pub open spec fn same_heaps(&self, before: &Self) -> bool {
        forall|h: int|
            #![trigger self.heap_used(h)]
            #![trigger before.heap_used(h)]
            0 <= h < self.parameters().heap_sizes.len() ==> self.heap_used(h)
                == before.heap_used(h)
    }

    /// A block of a linear allocator, as the allocator has it.
    pub open spec fn as_linear(block: &MemoryBlock<M>) -> LinearBlock<M> {
        LinearBlock {
            memory: block.spec_memory(),
            ptr: block.spec_flavor().ptr(),
            offset: block.spec_offset(),
            size: block.spec_size(),
            chunk: block.spec_flavor()->Linear_chunk,
        }
    }

    /// What the smallest blocks of the buddy allocator of the memory type `t` are made
    /// from: the size of the configuration, at most a 1024th of the heap of the memory
    /// type. The smallest blocks have the greatest power of two that is not larger.
    pub open spec fn buddy_minimal_cap(&self, t: int) -> u64 {
        spec_lesser(
            self.parameters().minimal_buddy_size,
            self.parameters().heap_sizes[self.heap_of(t)] / 1024,
        )
    }

    /// What the first chunk of the buddy allocator of the memory type `t` is made from:
    /// the size of the configuration, at most a 32nd of the heap of the memory type.
    /// No chunk is smaller than the greatest power of two that is not larger.
    pub open spec fn buddy_initial_cap(&self, t: int) -> u64 {
        spec_lesser(
            self.parameters().initial_buddy_dedicated_size,
            self.parameters().heap_sizes[self.heap_of(t)] / 32,
        )
    }

    /// Whether `allocator` has the sizes and the mask of the buddy allocator of the
    /// memory type `t`: its smallest blocks and its chunks are what the configuration
    /// and the heap give, and the mask that its blocks are aligned to is that which
    /// blocks of the memory type are mapped with, and that of its smallest blocks.
    pub open spec fn buddy_sizes_ok(&self, t: int, allocator: &BuddyAllocator<M>) -> bool {
        &&& allocator.spec_minimal_size() == spec_floor_power_of_two(self.buddy_minimal_cap(t))
        &&& allocator.spec_atom_mask() == spec_map_mask(
            self.parameters().memory_types[t].props,
            self.parameters().non_coherent_atom_mask,
        ) | (allocator.spec_minimal_size() - 1) as u64
        &&& allocator.tree().class_size(allocator.tree().classes.len() as int)
            >= spec_floor_power_of_two(self.buddy_initial_cap(t))
        &&& allocator.tree().class_size(allocator.tree().classes.len() as int)
            >= allocator.spec_minimal_size()
    }

    /// What the sub-allocators of the memory type `t` are made with: the memory type
    /// and its properties, the size of the chunks of the linear allocator, the sizes
    /// of the buddy allocator, and the masks that their blocks are aligned to.
    pub proof fn lemma_sub_allocators(&self, t: int)
        requires
            self.wf(),
            0 <= t < self.parameters().memory_types.len(),
        ensures
            self.linear_allocator(t) matches Some(allocator) ==> {
                &&& allocator.wf()
                &&& allocator.spec_memory_type() == t
                &&& allocator.spec_props() == self.parameters().memory_types[t].props
                &&& allocator.spec_chunk_size() == self.linear_chunk_size(t)
                &&& allocator.spec_atom_mask() == spec_map_mask(
                    self.parameters().memory_types[t].props,
                    self.parameters().non_coherent_atom_mask,
                )
            },
            self.buddy_allocator(t) matches Some(allocator) ==> {
                &&& allocator.wf()
                &&& allocator.spec_memory_type() == t
                &&& allocator.spec_props() == self.parameters().memory_types[t].props
                &&& self.buddy_sizes_ok(t, &allocator)
            },
    {
        assert(self.linear_ok(t));
        assert(self.buddy_ok(t));
    }

    /// The size of the chunks of the linear allocator of the memory type `t`: that of
    /// the configuration, at most a 32nd of the heap of the memory type, and at most
    /// what a host address can span.
    pub open spec fn linear_chunk_size(&self, t: int) -> u64 {
        let wanted = spec_lesser(
            self.parameters().linear_chunk,
            self.parameters().heap_sizes[self.heap_of(t)] / 32,
        );
        if wanted <= isize::MAX {
            wanted
        } else {
            isize::MAX as u64
        }
    }

    /// Whether `block` is the first block of a new chunk of a buddy allocator of `self`:
    /// it starts the chunk, the device can give one memory object less than in
    /// `before`, and the heap of the memory type of the block is charged with the size
    /// of the chunk.
    pub open spec fn starts_buddy_chunk(&self, before: &Self, block: &MemoryBlock<M>) -> bool {
        let t = block.spec_memory_type() as int;
        &&& block.spec_flavor() is Buddy
        &&& block.spec_offset() == 0
        &&& self.buddy_allocator(t) is Some
        &&& self.spec_allocations_remains() == before.spec_allocations_remains() - 1
        &&& self.heap_used(before.heap_of(t)) == before.heap_used(before.heap_of(t))
            + self.buddy_allocator(t)->0.chunk_size(block.spec_flavor()->Buddy_chunk as int)
    }

    /// Whether no heap is charged with more in `self` than in `before`.
    pub open spec fn no_heap_above(&self, before: &Self) -> bool {
        forall|h: int|
            #![trigger self.heap_used(h)]
            #![trigger before.heap_used(h)]
            0 <= h < self.parameters().heap_sizes.len() ==> self.heap_used(h)
                <= before.heap_used(h)
    }

    /// Whether the sub-allocators of `self`, and the order in which it tries the memory
    /// types, are those of `before`.
    pub closed spec fn same_sub_allocators(&self, before: &Self) -> bool {
        &&& self.linear_allocators@ == before.linear_allocators@
        &&& self.buddy_allocators@ == before.buddy_allocators@
        &&& self.memory_for_usage == before.memory_for_usage
    }

    /// Whether the sub-allocators of every memory type but `t` are in `self` what they
    /// are in `before`.
    pub open spec fn same_sub_allocators_but(&self, before: &Self, t: int) -> bool {
        forall|other: int|
            #![trigger self.linear_allocator(other)]
            #![trigger self.buddy_allocator(other)]
            other != t ==> self.linear_allocator(other) == before.linear_allocator(other)
                && self.buddy_allocator(other) == before.buddy_allocator(other)
    }

    /// Whether the buddy allocator that `before` has for the memory type `t`, if it has
    /// one, is in `self` with the classes that it had.
    spec fn classes_kept_at(&self, before: &Self, t: int) -> bool {
        match before.buddy_allocators@[t] {
            Some(allocator) => {
                &&& self.buddy_allocators@[t] is Some
                &&& self.buddy_allocators@[t]->0.spec_minimal_size()
                    == allocator.spec_minimal_size()
                &&& self.buddy_allocators@[t]->0.tree().classes.len()
                    >= allocator.tree().classes.len()
            },
            None => true,
        }
    }

    /// Whether every buddy allocator of `before` is in `self` with the classes that it
    /// had.
    spec fn classes_kept(&self, before: &Self) -> bool {
        &&& self.memory_types@.len() == before.memory_types@.len()
        &&& self.buddy_allocators@.len() == before.buddy_allocators@.len()
        &&& forall|t: int|
            0 <= t < before.buddy_allocators@.len() ==> #[trigger] self.classes_kept_at(before, t)
    }

    /// A block that was live before is live as long as its key is counted, and has the
    /// key that it had.
    proof fn lemma_still_owns(&self, before: &Self, other: &MemoryBlock<M>)
        requires
            before.wf(),
            self.classes_kept(before),
            before.owns(other),
            self.live_count(before.key_of(other)) >= 1,
        ensures
            self.owns(other),
            self.key_of(other) == before.key_of(other),
    {
        if other.spec_flavor() is Buddy {
            let t = other.spec_memory_type() as int;
            assert(self.classes_kept_at(before, t));
            let was = before.buddy_allocators@[t]->0;
            let now = self.buddy_allocators@[t]->0;
            now.lemma_class_kept(&was, other.spec_size());
        }
    }

    /// Every block that was live before is live, with the key that it had, where no
    /// key is counted less.
    proof fn lemma_keeps_owned(&self, before: &Self)
        requires
            before.wf(),
            self.classes_kept(before),
            forall|key: BlockKey| #[trigger] self.live_count(key) >= before.live_count(key),
        ensures
            self.keeps_owned(before),
    {
        assert forall|other: MemoryBlock<M>| #[trigger] before.owns(&other) implies self.owns(
            &other,
        ) && self.key_of(&other) == before.key_of(&other) by {
            assert(self.live_count(before.key_of(&other)) >= before.live_count(
                before.key_of(&other),
            ));
            self.lemma_still_owns(before, &other);
        }
    }

    /// Whether every block that is live in `before` is live in `self`, with the key
    /// that it had.
    pub open spec fn keeps_owned(&self, before: &Self) -> bool {
        forall|other: MemoryBlock<M>| #[trigger]
            before.owns(&other) ==> self.owns(&other) && self.key_of(&other) == before.key_of(
                &other,
            )
    }

    /// Whether the blocks of the buddy allocators that are live in `before` and in `self`
    /// lie where they lay, in chunks of the size that they had.
    pub open spec fn keeps_blocks_of(&self, before: &Self) -> bool {
        forall|t: int|
            #![trigger self.buddy_allocator(t)]
            #![trigger before.buddy_allocator(t)]
            before.buddy_allocator(t) is Some && self.buddy_allocator(t) is Some
                ==> self.buddy_allocator(t)->0.keeps_blocks_of(&before.buddy_allocator(t)->0)
    }

    /// Whether the buddy allocator that `before` has for the memory type `t`, if it has
    /// one, is in `self` with every pair and every chunk that it had.
    spec fn grown_at(&self, before: &Self, t: int) -> bool {
        match before.buddy_allocators@[t] {
            Some(allocator) => self.buddy_allocators@[t] is Some && allocator.tree().within(
                self.buddy_allocators@[t]->0.tree(),
            ) && self.classes_kept_at(before, t),
            None => true,
        }
    }

    /// Whether every buddy allocator of `before` is a buddy allocator of `self`, with
    /// every pair and every chunk that it had.
    spec fn grown_from(&self, before: &Self) -> bool {
        &&& self.memory_types@.len() == before.memory_types@.len()
        &&& self.buddy_allocators@.len() == before.buddy_allocators@.len()
        &&& forall|t: int|
            0 <= t < before.buddy_allocators@.len() ==> #[trigger] self.grown_at(before, t)
    }

    /// Buddy allocators that are what they were have every pair that they had.
    proof fn lemma_grown_same(&self, before: &Self)
        requires
            self.buddy_allocators@ == before.buddy_allocators@,
            self.memory_types@.len() == before.memory_types@.len(),
        ensures
            self.grown_from(before),
    {
        assert forall|t: int| 0 <= t < before.buddy_allocators@.len() implies #[trigger] self.grown_at(
            before,
            t,
        ) by {
            if before.buddy_allocators@[t] is Some {
                before.buddy_allocators@[t]->0.tree().lemma_within_self();
            }
        }
    }

    /// What grew from what grew from `before` grew from `before`.
    proof fn lemma_grown_transitive(&self, middle: &Self, before: &Self)
        requires
            self.grown_from(middle),
            middle.grown_from(before),
        ensures
            self.grown_from(before),
    {
        assert forall|t: int| 0 <= t < before.buddy_allocators@.len() implies #[trigger] self.grown_at(
            before,
            t,
        ) by {
            assert(middle.grown_at(before, t));
            assert(self.grown_at(middle, t));
            if before.buddy_allocators@[t] is Some {
                before.buddy_allocators@[t]->0.tree().lemma_within_transitive(
                    middle.buddy_allocators@[t]->0.tree(),
                    self.buddy_allocators@[t]->0.tree(),
                );
            }
        }
    }

    /// A buddy allocator that has every pair that it had has the classes that it had.
    proof fn lemma_grown_classes(&self, before: &Self)
        requires
            self.grown_from(before),
        ensures
            self.classes_kept(before),
    {
        assert forall|t: int| 0 <= t < before.buddy_allocators@.len() implies #[trigger] self.classes_kept_at(
            before,
            t,
        ) by {
            assert(self.grown_at(before, t));
        }
    }

    /// Where every buddy allocator has every pair that it had, the live blocks lie
    /// where they lay.
    proof fn lemma_grown_keeps(&self, before: &Self)
        requires
            self.wf(),
            before.wf(),
            self.grown_from(before),
        ensures
            self.keeps_blocks_of(before),
    {
        assert forall|t: int|
            #![trigger self.buddy_allocator(t)]
            #![trigger before.buddy_allocator(t)]
            before.buddy_allocator(t) is Some && self.buddy_allocator(t)
                is Some implies self.buddy_allocator(t)->0.keeps_blocks_of(
            &before.buddy_allocator(t)->0,
        ) by {
            assert(self.buddy_ok(t));
            assert(before.buddy_ok(t));
            assert(before.buddy_allocators@[t] is Some);
            assert(self.grown_at(before, t));
            self.buddy_allocator(t)->0.lemma_keeps_blocks(&before.buddy_allocator(t)->0, true);
        }
    }

    /// Whether the live blocks of `self` are those of `before`.
    pub open spec fn same_live(&self, before: &Self) -> bool {
        forall|key: BlockKey| #[trigger] self.live_count(key) == before.live_count(key)
    }

    /// Whether the live blocks of `self` are those of `before` and the block `block`.
    pub open spec fn live_with(&self, before: &Self, block: &MemoryBlock<M>) -> bool {
        forall|key: BlockKey|
            #![trigger self.live_count(key)]
            self.live_count(key) == before.live_count(key) + if key == self.key_of(block) {
                1nat
            } else {
                0nat
            }
    }

    /// Whether a block of a sub-allocator lies where the sub-allocator has its key: a
    /// linear block is live there with its size, and a buddy block with its chunk, its
    /// offset and its size.
    pub open spec fn block_placed(&self, block: &MemoryBlock<M>) -> bool {
        let t = block.spec_memory_type() as int;
        match (block.spec_flavor(), self.key_of(block)) {
            (MemoryBlockFlavor::Linear { .. }, BlockKey::Linear { key, .. }) => {
                &&& self.linear_allocator(t) is Some
                &&& self.linear_allocator(t)->0.live().dom().contains(key)
                &&& self.linear_allocator(t)->0.live()[key] == block.spec_size()
            },
            (MemoryBlockFlavor::Buddy { chunk, .. }, BlockKey::Buddy { key, .. }) => {
                &&& self.buddy_allocator(t) is Some
                &&& self.buddy_allocator(t)->0.live().contains(key)
                &&& self.buddy_allocator(t)->0.place(key) == (
                    chunk,
                    block.spec_offset() as int,
                    block.spec_size() as int,
                )
            },
            _ => true,
        }
    }

    /// What holds of a block that was allocated from the memory type `index` for a
    /// request of `size` bytes: it is well-formed and not mapped, it has at least `size`
    /// bytes, and at least one, it has the properties of its memory type and the mask
    /// that blocks of that memory type are mapped with, it is aligned to that mask,
    /// and it lies where its sub-allocator has it.
    pub open spec fn block_ok(&self, block: &MemoryBlock<M>, index: u32, size: u64) -> bool {
        &&& block.wf()
        &&& !block.spec_is_mapped()
        &&& block.spec_memory_type() == index
        &&& index < self.parameters().memory_types.len()
        &&& block.spec_props() == self.parameters().memory_types[index as int].props
        &&& block.spec_map_mask() == spec_map_mask(
            block.spec_props(),
            self.parameters().non_coherent_atom_mask,
        )
        &&& block.spec_size() >= spec_effective_size(size)
        &&& block.spec_offset() & block.spec_map_mask() == 0
        &&& self.block_placed(block)
    }

    /// Makes sure that the memory type `index` has a linear allocator.
    fn ensure_linear(&mut self, index: u32)
        requires
            old(self).wf(),
            index < old(self).memory_types@.len(),
        ensures
            final(self).wf(),
            final(self).parameters() == old(self).parameters(),
            final(self).memory_for_usage == old(self).memory_for_usage,
            final(self).same_live(old(self)),
            final(self).device_objects() == old(self).device_objects(),
            final(self).allocations_remains == old(self).allocations_remains,
            final(self).linear_allocators@[index as int] is Some,
            old(self).linear_allocators@[index as int] is Some ==> final(self).linear_allocators@
                == old(self).linear_allocators@,
            final(self).buddy_allocators@ == old(self).buddy_allocators@,
            final(self).memory_heaps == old(self).memory_heaps,
            final(self).linear_allocators@ == old(self).linear_allocators@.update(
                index as int,
                final(self).linear_allocators@[index as int],
            ),
            old(self).linear_allocators@[index as int] is None ==> {
                let allocator = final(self).linear_allocators@[index as int]->0;
                &&& allocator.ready_cursor(true) is None
                &&& allocator.ready_cursor(false) is None
                &&& allocator.ready_chunk(true) == 0
                &&& allocator.ready_chunk(false) == 0
            },
    {
        if self.linear_allocators[index as usize].is_none() {
            let memory_type = self.memory_types[index as usize];
            let heap_size = self.memory_heaps[memory_type.heap as usize].size();
            let allocator = LinearAllocator::new(
                lesser(self.linear_chunk, heap_size / 32),
                index,
                memory_type.props,
                map_mask(memory_type.props, self.non_coherent_atom_mask),
            );
            self.linear_allocators[index as usize] = Some(allocator);
            proof {
                assert(old(self).linear_ok(index as int));
                assert(old(self).buddy_ok(index as int));
                assert(self.type_bytes() =~= old(self).type_bytes());
                assert(self.type_objects() =~= old(self).type_objects());
                assert(self.type_heaps() =~= old(self).type_heaps());
                assert(self.parameters().heap_sizes =~= old(self).parameters().heap_sizes);
                assert forall|t: int| 0 <= t < self.memory_types@.len()
                    implies #[trigger] self.linear_ok(
                    t,
                ) by {
                    if t != index {
                        assert(old(self).linear_ok(t));
                    }
                }
                assert forall|t: int| 0 <= t < self.memory_types@.len()
                    implies #[trigger] self.buddy_ok(
                    t,
                ) by {
                    assert(old(self).buddy_ok(t));
                }
                assert forall|heap: int| 0 <= heap < self.memory_heaps@.len() implies (
                #[trigger] self.memory_heaps@[heap]).wf() && self.memory_heaps@[heap].spec_used()
                    == self.heap_charge(heap) by {
                    assert(old(self).memory_heaps@[heap].wf());
                }
            }
        }
    }

    /// Makes sure that the memory type `index` has a buddy allocator.
    fn ensure_buddy(&mut self, index: u32)
        requires
            old(self).wf(),
            index < old(self).memory_types@.len(),
        ensures
            final(self).wf(),
            final(self).parameters() == old(self).parameters(),
            final(self).memory_for_usage == old(self).memory_for_usage,
            final(self).same_live(old(self)),
            final(self).device_objects() == old(self).device_objects(),
            final(self).allocations_remains == old(self).allocations_remains,
            final(self).buddy_allocators@[index as int] is Some,
            old(self).buddy_allocators@[index as int] is Some ==> final(self).buddy_allocators@
                == old(self).buddy_allocators@,
            final(self).grown_from(old(self)),
            final(self).memory_heaps == old(self).memory_heaps,
            final(self).linear_allocators@ == old(self).linear_allocators@,
            final(self).buddy_allocators@ == old(self).buddy_allocators@.update(
                index as int,
                final(self).buddy_allocators@[index as int],
            ),
            old(self).buddy_allocators@[index as int] is None ==> forall|
                size: u64,
                align_mask: u64,
            |
                !(#[trigger] final(self).buddy_allocators@[index as int]->0.serves_without_device(
                    size,
                    align_mask,
                )),
            old(self).buddy_allocators@[index as int] is None ==> forall|start: int|
                0 <= start ==> #[trigger] final(self).buddy_allocators@[index as int]->0.grows_for(
                    start,
                ),
            old(self).buddy_allocators@[index as int] is None ==> final(self).buddy_allocators@[index as int]->0.tree().class_size(
                final(self).buddy_allocators@[index as int]->0.tree().classes.len() as int,
            ) == if spec_floor_power_of_two(old(self).buddy_initial_cap(index as int))
                > spec_floor_power_of_two(old(self).buddy_minimal_cap(index as int)) {
                spec_floor_power_of_two(old(self).buddy_initial_cap(index as int))
            } else {
                spec_floor_power_of_two(old(self).buddy_minimal_cap(index as int))
            },
    {
        proof {
            self.lemma_grown_same(old(self));
        }
        if self.buddy_allocators[index as usize].is_none() {
            let memory_type = self.memory_types[index as usize];
            let heap_size = self.memory_heaps[memory_type.heap as usize].size();
            let allocator = BuddyAllocator::new(
                floor_power_of_two(lesser(self.minimal_buddy_size, heap_size / 1024)),
                floor_power_of_two(lesser(self.initial_buddy_dedicated_size, heap_size / 32)),
                index,
                memory_type.props,
                map_mask(memory_type.props, self.non_coherent_atom_mask),
            );
            proof {
                allocator.lemma_empty_holds_nothing();
                let minimal = allocator.spec_minimal_size();
                lemma_power_of_two_mask(minimal);
                lemma_low_masks_union(
                    spec_map_mask(memory_type.props, self.non_coherent_atom_mask),
                    (minimal - 1) as u64,
                    0,
                );
            }
            self.buddy_allocators[index as usize] = Some(allocator);
            proof {
                assert(old(self).linear_ok(index as int));
                assert(old(self).buddy_ok(index as int));
                assert(self.type_bytes() =~= old(self).type_bytes());
                assert(self.type_objects() =~= old(self).type_objects());
                assert(self.type_heaps() =~= old(self).type_heaps());
                assert(self.parameters().heap_sizes =~= old(self).parameters().heap_sizes);
                assert forall|t: int| 0 <= t < self.memory_types@.len()
                    implies #[trigger] self.linear_ok(
                    t,
                ) by {
                    assert(old(self).linear_ok(t));
                }
                assert forall|t: int| 0 <= t < self.memory_types@.len()
                    implies #[trigger] self.buddy_ok(
                    t,
                ) by {
                    if t != index {
                        assert(old(self).buddy_ok(t));
                    }
                }
                assert forall|heap: int| 0 <= heap < self.memory_heaps@.len() implies (
                #[trigger] self.memory_heaps@[heap]).wf() && self.memory_heaps@[heap].spec_used()
                    == self.heap_charge(heap) by {
                    assert(old(self).memory_heaps@[heap].wf());
                }
                assert forall|t: int|
                    0 <= t < old(self).buddy_allocators@.len() implies #[trigger] self.grown_at(
                    old(self),
                    t,
                ) by {
                    if t != index && old(self).buddy_allocators@[t] is Some {
                        assert(self.buddy_allocators@[t] == old(self).buddy_allocators@[t]);
                        old(self).buddy_allocators@[t]->0.tree().lemma_within_self();
                    }
                }
            }
        }
    }

    /// The flags that every memory object is allocated with: that for device addresses
    /// if the device supports them, and no other.
    fn allocation_flags(&self) -> (r: AllocationFlags)
        ensures
            r@ == if self.parameters().buffer_device_address {
                AllocationFlags::DEVICE_ADDRESS_BIT
            } else {
                0
            },
    {
        if self.buffer_device_address {
            AllocationFlags::device_address()
        } else {
            AllocationFlags::empty()
        }
    }

    /// What becomes of a request for a memory object of `size` bytes from the memory type
    /// `index`, for which the heap has room, given what the device answered.
    ///
    /// * A memory object that the device gave is handed out as a block of its own: the
    ///   device can give one memory object less, and the heap of the memory type is
    ///   charged with `size` bytes more.
    /// * Where the device is out of device memory, nothing is changed and `None` is
    ///   returned: the next memory type is to be tried.
    /// * Where it is out of host memory, nothing is changed and the request fails with
    ///   `OutOfHostMemory`.
    pub fn accept_dedicated(&mut self, index: u32, size: u64, answer: Result<M, OutOfMemory>) -> (r:
        Result<Option<MemoryBlock<M>>, AllocationError>)
        requires
            old(self).wf(),
            index < old(self).parameters().memory_types.len(),
            old(self).spec_allocations_remains() > 0,
            1 <= size <= old(self).heap_room(index as int),
        ensures
            final(self).wf(),
            final(self).parameters() == old(self).parameters(),
            match answer {
                Ok(memory) => {
                    &&& r is Ok
                    &&& r->Ok_0 matches Some(block)
                    &&& block.spec_memory() == memory
                    &&& final(self).block_ok(&block, index, size)
                    &&& final(self).live_with(old(self), &block)
                    &&& final(self).owns(&block)
                    &&& final(self).keeps_owned(old(self))
                    &&& block.spec_flavor() is Dedicated
                    &&& block.spec_offset() == 0
                    &&& block.spec_size() == size
                    &&& final(self).device_objects() == old(self).device_objects() + 1
                    &&& final(self).spec_allocations_remains() == old(
                        self,
                    ).spec_allocations_remains() - 1
                    &&& final(self).heap_used(old(self).heap_of(index as int)) == old(
                        self,
                    ).heap_used(old(self).heap_of(index as int)) + size
                    &&& final(self).same_heaps_but(old(self), old(self).heap_of(index as int))
                    &&& final(self).same_sub_allocators(old(self))
                },
                Err(OutOfMemory::OutOfDeviceMemory) => r is Ok && r->Ok_0 is None && *final(self)
                    == *old(self),
                Err(OutOfMemory::OutOfHostMemory) => r is Err && r->Err_0
                    == AllocationError::OutOfHostMemory && *final(self) == *old(self),
            },
    {
        let memory_type = self.memory_types[index as usize];
        let heap = memory_type.heap as usize;
        proof {
            assert(self.memory_heaps@[heap as int].wf());
            lemma_low_masks_union(
                spec_map_mask(memory_type.props, self.non_coherent_atom_mask),
                0,
                0,
            );
        }
        match answer {
            Ok(memory) => {
                self.allocations_remains -= 1;
                self.memory_heaps[heap].allocate(size);
                let block = MemoryBlock::from_parts(
                    index,
                    memory_type.props,
                    memory,
                    0,
                    size,
                    map_mask(memory_type.props, self.non_coherent_atom_mask),
                    MemoryBlockFlavor::Dedicated,
                );
                proof {
                    self.dedicated@ = self.dedicated@.push((index, size));
                    assert(self.type_bytes() =~= old(self).type_bytes());
                    assert(self.type_objects() =~= old(self).type_objects());
                    assert(self.type_heaps() =~= old(self).type_heaps());
                    assert(self.parameters().heap_sizes =~= old(self).parameters().heap_sizes);
                    assert forall|other: int|
                        0 <= other < self.memory_heaps@.len() implies (
                    #[trigger] self.memory_heaps@[other]).wf()
                        && self.memory_heaps@[other].spec_used() == self.heap_charge(other) by {
                        lemma_dedicated_push(
                            old(self).dedicated@,
                            self.type_heaps(),
                            other,
                            (index, size),
                        );
                        assert(old(self).memory_heaps@[other].wf());
                    }
                    assert forall|t: int| 0 <= t < self.memory_types@.len()
                        implies #[trigger] self.linear_ok(
                        t,
                    ) by {
                        assert(old(self).linear_ok(t));
                    }
                    assert forall|t: int| 0 <= t < self.memory_types@.len()
                        implies #[trigger] self.buddy_ok(
                        t,
                    ) by {
                        assert(old(self).buddy_ok(t));
                    }
                    assert forall|k: BlockKey|
                        #![trigger self.live_count(k)]
                        self.live_count(k) == old(self).live_count(k) + if k == self.key_of(
                            &block,
                        ) {
                            1nat
                        } else {
                            0nat
                        } by {
                        match k {
                            BlockKey::Dedicated { memory_type, size: other } => {
                                lemma_occurrences_push(
                                    old(self).dedicated@,
                                    (memory_type, other),
                                    (index, size),
                                );
                            },
                            _ => {},
                        }
                    }
                    self.lemma_grown_same(old(self));
                    self.lemma_grown_classes(old(self));
                    self.lemma_keeps_owned(old(self));
                }
                Ok(Some(block))
            },
            Err(OutOfMemory::OutOfDeviceMemory) => Ok(None),
            Err(OutOfMemory::OutOfHostMemory) => Err(AllocationError::OutOfHostMemory),
        }
    }

    /// Tries to allocate a memory object of `size` bytes from the memory type `index`
    /// and to hand it out as a block. Returns `Ok(None)` where the next memory type
    /// is to be tried: the heap's budget does not allow the memory object, so that the
    /// device is not asked, or the device is out of device memory. `accept_dedicated`
    /// says what becomes of the device's answer.
    fn allocate_dedicated<D: MemoryDevice<M>>(&mut self, device: &D, index: u32, size: u64) -> (r:
        Result<Option<MemoryBlock<M>>, AllocationError>)
        requires
            old(self).wf(),
            index < old(self).memory_types@.len(),
            old(self).allocations_remains > 0,
            size >= 1,
        ensures
            final(self).wf(),
            final(self).parameters() == old(self).parameters(),
            final(self).memory_for_usage == old(self).memory_for_usage,
            final(self).grown_from(old(self)),
            old(self).heap_room(index as int) < size ==> r is Ok && r->Ok_0 is None,
            match r {
                Ok(Some(block)) => {
                    &&& final(self).block_ok(&block, index, size)
                    &&& final(self).live_with(old(self), &block)
                    &&& final(self).owns(&block)
                    &&& block.spec_flavor() is Dedicated
                    &&& block.spec_offset() == 0
                    &&& block.spec_size() == size
                    &&& final(self).device_objects() == old(self).device_objects() + 1
                    &&& final(self).spec_allocations_remains() == old(
                        self,
                    ).spec_allocations_remains() - 1
                    &&& final(self).heap_used(old(self).heap_of(index as int)) == old(
                        self,
                    ).heap_used(old(self).heap_of(index as int)) + size
                    &&& final(self).same_heaps_but(old(self), old(self).heap_of(index as int))
                    &&& final(self).same_sub_allocators(old(self))
                    &&& old(self).heap_room(index as int) >= size
                },
                Ok(None) => *final(self) == *old(self),
                Err(err) => *final(self) == *old(self) && err == AllocationError::OutOfHostMemory,
            },
    {
        let heap = self.memory_types[index as usize].heap as usize;
        proof {
            assert(self.memory_heaps@[heap as int].wf());
            self.lemma_grown_same(old(self));
        }
        if self.memory_heaps[heap].budget() < size {
            return Ok(None);
        }
        let flags = self.allocation_flags();
        let answer = device.allocate_memory(size, index, flags);
        let r = self.accept_dedicated(index, size, answer);
        proof {
            self.lemma_grown_same(old(self));
        }
        r
    }
}

impl<M: Clone> GpuAllocator<M> {
    /// Whether a block of a sub-allocator is what its chunk makes it: it carries a clone
    /// of the memory object of the chunk, and the host address of its first byte,
    /// which is that of the chunk plus the offset of the block, if the chunk is
    /// mapped. A linear block lies in the chunk that blocks are taken from, and the
    /// chunk of a buddy block is mapped exactly in host-visible memory.
    pub open spec fn block_backed(&self, block: &MemoryBlock<M>) -> bool {
        let t = block.spec_memory_type() as int;
        match block.spec_flavor() {
            MemoryBlockFlavor::Dedicated => true,
            MemoryBlockFlavor::Linear { chunk, ptr } => {
                let allocator = self.linear_allocator(t)->0;
                &&& self.linear_allocator(t) is Some
                &&& chunk == allocator.ready_chunk(ptr is Some)
                &&& ptr == match allocator.ready_base(ptr is Some) {
                    Some(base) => Some((base + block.spec_offset()) as usize),
                    None => None,
                }
                &&& ptr is Some ==> block.spec_props().spec_is_host_visible()
                &&& allocator.memory_of(ptr is Some, chunk as int) matches Some(memory) && cloned(
                    memory,
                    block.spec_memory(),
                )
            },
            MemoryBlockFlavor::Buddy { chunk, ptr, .. } => {
                let allocator = self.buddy_allocator(t)->0;
                &&& self.buddy_allocator(t) is Some
                &&& ptr == match allocator.chunk_base(chunk as int) {
                    Some(base) => Some((base + block.spec_offset()) as usize),
                    None => None,
                }
                &&& (ptr is Some) == block.spec_props().spec_is_host_visible()
                &&& allocator.chunk_memory(chunk as int) matches Some(memory) && cloned(
                    memory,
                    block.spec_memory(),
                )
            },
        }
    }

    /// Tries to allocate a block from the linear allocator of the memory type `index`.
    /// Returns `Ok(None)` where the next memory type is to be tried: the allocator is
    /// out of device memory.
    fn allocate_linear<D: MemoryDevice<M>>(
        &mut self,
        device: &D,
        index: u32,
        size: u64,
        align_mask: u64,
        usage: UsageFlags,
    ) -> (r: Result<Option<MemoryBlock<M>>, AllocationError>)
        requires
            old(self).wf(),
            index < old(self).memory_types@.len(),
            spec_compatible(usage, old(self).memory_types@[index as int].props),
        ensures
            final(self).wf(),
            final(self).parameters() == old(self).parameters(),
            final(self).memory_for_usage == old(self).memory_for_usage,
            final(self).grown_from(old(self)),
            match r {
                Ok(Some(block)) => {
                    &&& final(self).block_ok(&block, index, size)
                    &&& final(self).block_backed(&block)
                    &&& usage.spec_has(UsageFlags::HOST_ACCESS_BIT) ==> block.spec_flavor().ptr()
                        is Some
                    &&& final(self).live_with(old(self), &block)
                    &&& final(self).owns(&block)
                    &&& block.spec_flavor() is Linear
                    &&& block.spec_size() == spec_effective_size(size)
                    &&& block.spec_offset() & align_mask == 0
                },
                Ok(None) => final(self).same_live(old(self)),
                Err(err) => final(self).same_live(old(self)) && err
                    != AllocationError::OutOfDeviceMemory && err
                    != AllocationError::NoCompatibleMemoryTypes && (err == AllocationError::TooManyObjects
                    ==> final(self).spec_allocations_remains() == 0),
            },
            old(self).serves_without_device(
                index as int,
                size,
                align_mask,
                usage,
                ChosenStrategy::Linear,
            ) ==> r matches Ok(Some(_)),
            final(self).same_heaps_but(old(self), old(self).heap_of(index as int)),
            final(self).same_sub_allocators_but(old(self), index as int),
            final(self).buddy_allocators@ == old(self).buddy_allocators@,
            !(r matches Ok(Some(_))) ==> final(self).same_heaps(old(self)) && final(self).spec_allocations_remains() == old(self).spec_allocations_remains(),
            r matches Ok(Some(_)) ==> final(self).charged_for(
                old(self),
                index as int,
                if old(self).serves_without_device(
                    index as int,
                    size,
                    align_mask,
                    usage,
                    ChosenStrategy::Linear,
                ) {
                    0
                } else {
                    old(self).linear_chunk_size(index as int)
                },
            ),
            spec_effective_size(size) > old(self).linear_chunk_size(index as int) ==> r is Ok
                && r->Ok_0 is None && final(self).same_heaps(old(self)) && final(self).spec_allocations_remains() == old(self).spec_allocations_remains(),
            old(self).linear_out_of_objects(index as int, size, align_mask, usage) ==> r is Err
                && r->Err_0 == AllocationError::TooManyObjects,
            old(self).linear_stuck(index as int, size, align_mask, usage) ==> r is Err
                && r->Err_0 == AllocationError::OutOfHostMemory,
    {
        self.ensure_linear(index);
        let ghost ready = *self;
        let memory_type = self.memory_types[index as usize];
        let heap = memory_type.heap as usize;
        let flags = self.allocation_flags();
        proof {
            self.lemma_part(index as int);
            assert(self.linear_ok(index as int));
            assert(self.buddy_ok(index as int));
            if usage.spec_has(UsageFlags::HOST_ACCESS_BIT) {
                lemma_host_access_is_host_visible(usage, memory_type.props);
            }
        }
        let heap_ref = &mut self.memory_heaps[heap];
        let result = match &mut self.linear_allocators[index as usize] {
            Some(allocator) => allocator.allocate(
                device,
                size,
                align_mask,
                usage,
                flags,
                heap_ref,
                &mut self.allocations_remains,
            ),
            None => Err(AllocationError::OutOfHostMemory),
        };
        proof {
            assert(self.parameters().heap_sizes =~= ready.parameters().heap_sizes);
            self.lemma_changed_at(&ready, index as int);
            assert(self.buddy_allocators@ =~= old(self).buddy_allocators@);
            self.lemma_grown_same(old(self));
            let was = ready.linear_allocators@[index as int]->0;
            lemma_chunk_bytes(was.objects_held(), was.spec_chunk_size());
        }
        match result {
            Ok(block) => {
                let ghost combined = align_mask | ready.linear_allocators@[index as int]->0.spec_atom_mask();
                proof {
                    let offset = block.offset;
                    assert(offset & combined == 0 && combined == align_mask | (combined
                        & !align_mask) ==> offset & align_mask == 0) by (bit_vector);
                    let atom = ready.linear_allocators@[index as int]->0.spec_atom_mask();
                    assert((align_mask | atom) == align_mask | ((align_mask | atom) & !align_mask))
                        by (bit_vector);
                    lemma_low_masks_union(align_mask, atom, block.offset);
                    lemma_low_masks_union(atom, 0, 0);
                }
                let r = MemoryBlock::from_parts(
                    index,
                    memory_type.props,
                    block.memory,
                    block.offset,
                    block.size,
                    map_mask(memory_type.props, self.non_coherent_atom_mask),
                    MemoryBlockFlavor::Linear { chunk: block.chunk, ptr: block.ptr },
                );
                proof {
                    assert forall|k: BlockKey|
                        #![trigger self.live_count(k)]
                        self.live_count(k) == old(self).live_count(k) + if k == self.key_of(&r) {
                            1nat
                        } else {
                            0nat
                        } by {
                        assert(ready.live_count(k) == old(self).live_count(k));
                    }
                }
                Ok(Some(r))
            },
            Err(AllocationError::OutOfDeviceMemory) => {
                proof {
                    assert forall|k: BlockKey| #[trigger]
                        self.live_count(k) == old(self).live_count(k) by {
                        assert(ready.live_count(k) == old(self).live_count(k));
                    }
                }
                Ok(None)
            },
            Err(err) => {
                proof {
                    assert forall|k: BlockKey| #[trigger]
                        self.live_count(k) == old(self).live_count(k) by {
                        assert(ready.live_count(k) == old(self).live_count(k));
                    }
                }
                Err(err)
            },
        }
    }

    /// Tries to allocate a block from the buddy allocator of the memory type `index`.
    /// Returns `Ok(None)` where the next memory type is to be tried: the allocator is
    /// out of device memory.
    fn allocate_buddy<D: MemoryDevice<M>>(
        &mut self,
        device: &D,
        index: u32,
        size: u64,
        align_mask: u64,
    ) -> (r: Result<Option<MemoryBlock<M>>, AllocationError>)
        requires
            old(self).wf(),
            index < old(self).memory_types@.len(),
        ensures
            final(self).wf(),
            final(self).parameters() == old(self).parameters(),
            final(self).memory_for_usage == old(self).memory_for_usage,
            final(self).grown_from(old(self)),
            match r {
                Ok(Some(block)) => {
                    &&& final(self).block_ok(&block, index, size)
                    &&& final(self).block_backed(&block)
                    &&& final(self).live_with(old(self), &block)
                    &&& final(self).owns(&block)
                    &&& block.spec_flavor() is Buddy
                    &&& is_low_mask(align_mask) ==> block.spec_offset() & align_mask == 0
                },
                Ok(None) => final(self).same_live(old(self)),
                Err(err) => final(self).same_live(old(self)) && err
                    != AllocationError::OutOfDeviceMemory && err
                    != AllocationError::NoCompatibleMemoryTypes && (err == AllocationError::TooManyObjects
                    ==> final(self).spec_allocations_remains() == 0),
            },
            forall|usage: UsageFlags|
                old(self).serves_without_device(
                    index as int,
                    size,
                    align_mask,
                    usage,
                    ChosenStrategy::Buddy,
                ) ==> (r matches Ok(Some(_))) && final(self).same_heaps(old(self)) && final(self).spec_allocations_remains() == old(self).spec_allocations_remains(),
            final(self).same_heaps_but(old(self), old(self).heap_of(index as int)),
            final(self).same_sub_allocators_but(old(self), index as int),
            final(self).linear_allocators@ == old(self).linear_allocators@,
            !(r matches Ok(Some(_))) ==> final(self).same_heaps(old(self)) && final(self).spec_allocations_remains() == old(self).spec_allocations_remains(),
            r matches Ok(Some(block)) ==> spec_is_power_of_two(block.spec_size()),
            old(self).buddy_out_of_objects(index as int, size, align_mask) ==> r is Err
                && r->Err_0 == AllocationError::TooManyObjects,
            forall|usage: UsageFlags|
                !old(self).serves_without_device(
                    index as int,
                    size,
                    align_mask,
                    usage,
                    ChosenStrategy::Buddy,
                ) ==> (r matches Ok(Some(block)) ==> final(self).starts_buddy_chunk(
                    old(self),
                    &block,
                )),
    {
        self.ensure_buddy(index);
        let ghost ready = *self;
        let memory_type = self.memory_types[index as usize];
        let heap = memory_type.heap as usize;
        let flags = self.allocation_flags();
        proof {
            self.lemma_part(index as int);
            assert(self.linear_ok(index as int));
            assert(self.buddy_ok(index as int));
            if old(self).buddy_allocator(index as int) is None && old(self).fresh_buddy_fits(
                index as int,
                size,
                align_mask,
            ) {
                let allocator = self.buddy_allocators@[index as int]->0;
                let minimal = allocator.spec_minimal_size();
                let mask = align_mask | allocator.spec_atom_mask();
                let aligned = spec_align_up(spec_effective_size(size), mask);
                let start = choose|start: int|
                    0 <= start && aligned is Some && #[trigger] size_of_class(minimal, start)
                        >= aligned->0 && (start >= 1 ==> size_of_class(minimal, start - 1)
                        < aligned->0) && 2 * size_of_class(minimal, start) <= u64::MAX;
                allocator.lemma_unit();
                assert(allocator.tree().class_size(start) == size_of_class(minimal, start));
                if start >= 1 {
                    assert(allocator.tree().class_size(start - 1) == size_of_class(
                        minimal,
                        start - 1,
                    ));
                }
                assert(allocator.is_request_class(size, align_mask, start));
                assert(allocator.grows_for(start));
            }
        }
        let heap_ref = &mut self.memory_heaps[heap];
        let result = match &mut self.buddy_allocators[index as usize] {
            Some(allocator) => allocator.allocate(
                device,
                size,
                align_mask,
                flags,
                heap_ref,
                &mut self.allocations_remains,
            ),
            None => Err(AllocationError::OutOfHostMemory),
        };
        proof {
            assert(self.parameters().heap_sizes =~= ready.parameters().heap_sizes);
            self.buddy_allocators@[index as int]->0.lemma_largest_class(
                &ready.buddy_allocators@[index as int]->0,
            );
            self.lemma_changed_at(&ready, index as int);
            assert(self.grown_from(&ready)) by {
                assert forall|t: int| 0 <= t < ready.buddy_allocators@.len() implies #[trigger] self.grown_at(
                    &ready,
                    t,
                ) by {
                    if t != index && ready.buddy_allocators@[t] is Some {
                        assert(self.buddy_allocators@[t] == ready.buddy_allocators@[t]);
                        ready.buddy_allocators@[t]->0.tree().lemma_within_self();
                    }
                }
            }
            self.lemma_grown_transitive(&ready, old(self));
        }
        match result {
            Ok(block) => {
                proof {
                    self.buddy_allocators@[index as int]->0.lemma_block_fits(&block);
                    let atom = ready.buddy_allocators@[index as int]->0.spec_atom_mask();
                    lemma_low_masks_union(align_mask, atom, block.offset);
                    let mapping = spec_map_mask(memory_type.props, self.non_coherent_atom_mask);
                    let minimal = ready.buddy_allocators@[index as int]->0.spec_minimal_size();
                    lemma_low_masks_union(mapping, (minimal - 1) as u64, block.offset);
                }
                let r = MemoryBlock::from_parts(
                    index,
                    memory_type.props,
                    block.memory,
                    block.offset,
                    block.size,
                    map_mask(memory_type.props, self.non_coherent_atom_mask),
                    MemoryBlockFlavor::Buddy {
                        chunk: block.chunk,
                        index: block.index,
                        ptr: block.ptr,
                    },
                );
                proof {
                    assert forall|k: BlockKey|
                        #![trigger self.live_count(k)]
                        self.live_count(k) == old(self).live_count(k) + if k == self.key_of(&r) {
                            1nat
                        } else {
                            0nat
                        } by {
                        assert(ready.live_count(k) == old(self).live_count(k));
                    }
                }
                Ok(Some(r))
            },
            Err(AllocationError::OutOfDeviceMemory) => {
                proof {
                    assert forall|k: BlockKey| #[trigger]
                        self.live_count(k) == old(self).live_count(k) by {
                        assert(ready.live_count(k) == old(self).live_count(k));
                    }
                }
                Ok(None)
            },
            Err(err) => {
                proof {
                    assert forall|k: BlockKey| #[trigger]
                        self.live_count(k) == old(self).live_count(k) by {
                        assert(ready.live_count(k) == old(self).live_count(k));
                    }
                }
                Err(err)
            },
        }
    }
}

impl<M> GpuAllocator<M> {
    /// The bitset of the memory types that can serve `usage`.
    pub closed spec fn compatible_types(&self, usage: UsageFlags) -> u32 {
        self.memory_for_usage.spec_mask(usage)
    }

    /// The indices of the memory types that can serve `usage`, in the order in which
    /// they are tried.
    pub closed spec fn ranking(&self, usage: UsageFlags) -> Seq<u32> {
        self.memory_for_usage.spec_types(usage)
    }

    /// The memory types that are tried for a usage are those that can serve it, the
    /// one with the least penalty first, and of two with the same penalty the one with
    /// the lower index.
    pub proof fn lemma_ranking(&self, usage: UsageFlags)
        requires
            self.wf(),
            usage@ <= UsageFlags::ALL_BITS,
        ensures
            is_ranking(self.ranking(usage), usage, self.parameters().memory_types),
            is_mask_of(
                self.compatible_types(usage),
                usage,
                self.parameters().memory_types,
                self.parameters().memory_types.len() as int,
            ),
    {
        self.memory_for_usage.lemma_ranked(usage);
    }

    /// The strategy that serves `request`, with `forced` as the strategy that the
    /// caller forces, if any.
    pub open spec fn strategy_for(&self, request: Request, forced: Option<Strategy>) -> ChosenStrategy {
        spec_choose_strategy(
            request.size,
            served_usage(request.usage),
            request.dedicated,
            forced,
            self.parameters().thresholds,
            self.spec_allocations_remains() > 0,
        )
    }

    /// Whether the sub-allocator that `strategy` names serves a request from the memory
    /// type `t` without asking the device: the linear allocator from a chunk that it
    /// takes blocks from, the buddy allocator from a free half.
    pub open spec fn serves_without_device(
        &self,
        t: int,
        size: u64,
        align_mask: u64,
        usage: UsageFlags,
        strategy: ChosenStrategy,
    ) -> bool {
        0 <= t < self.parameters().memory_types.len() && match strategy {
            ChosenStrategy::Dedicated => false,
            ChosenStrategy::Linear => match self.linear_allocator(t) {
                Some(allocator) => allocator.served_from(size, align_mask, usage) is Some,
                None => false,
            },
            ChosenStrategy::Buddy => match self.buddy_allocator(t) {
                Some(allocator) => allocator.serves_without_device(size, align_mask),
                None => false,
            },
        }
    }

    /// Whether the linear allocator of the memory type `t` needs a new chunk for a
    /// request while the device can give no memory object.
    pub open spec fn linear_out_of_objects(
        &self,
        t: int,
        size: u64,
        align_mask: u64,
        usage: UsageFlags,
    ) -> bool {
        &&& self.spec_allocations_remains() == 0
        &&& match self.linear_allocator(t) {
            Some(allocator) => allocator.needs_chunk(size, align_mask, usage),
            None => spec_effective_size(size) <= self.linear_chunk_size(t),
        }
    }

    /// Whether the linear allocator of the memory type `t` needs a new chunk for a
    /// request and has no number left for it.
    pub open spec fn linear_stuck(&self, t: int, size: u64, align_mask: u64, usage: UsageFlags) -> bool {
        match self.linear_allocator(t) {
            Some(allocator) => allocator.stuck(size, align_mask, usage),
            None => false,
        }
    }

    /// Whether the buddy allocator of the memory type `t` needs a new chunk for a
    /// request while the device can give no memory object.
    pub open spec fn buddy_out_of_objects(&self, t: int, size: u64, align_mask: u64) -> bool {
        &&& self.spec_allocations_remains() == 0
        &&& match self.buddy_allocator(t) {
            Some(allocator) => exists|start: int|
                allocator.is_request_class(size, align_mask, start) && 2
                    * allocator.tree().class_size(start) <= u64::MAX
                    && #[trigger] allocator.grows_for(start),
            None => self.fresh_buddy_fits(t, size, align_mask),
        }
    }

    /// Whether the buddy allocator that the memory type `t` gets, where it has none, has
    /// a class for a request, whose chunks fit: the smallest blocks are those of the
    /// configuration and the heap, and the request is rounded up to the mask that was
    /// asked for, to that which blocks of the memory type are mapped with, and to the
    /// smallest blocks.
    pub open spec fn fresh_buddy_fits(&self, t: int, size: u64, align_mask: u64) -> bool {
        let minimal = spec_floor_power_of_two(self.buddy_minimal_cap(t));
        let mask = align_mask | (spec_map_mask(
            self.parameters().memory_types[t].props,
            self.parameters().non_coherent_atom_mask,
        ) | (minimal - 1) as u64);
        let aligned = spec_align_up(spec_effective_size(size), mask);
        exists|start: int|
            0 <= start && aligned is Some && #[trigger] size_of_class(minimal, start)
                >= aligned->0 && (start >= 1 ==> size_of_class(minimal, start - 1) < aligned->0)
                && 2 * size_of_class(minimal, start) <= u64::MAX
    }

    /// Whether a request passes over the memory type `t` without asking the device,
    /// and without a change to a heap or to the number of memory objects that the
    /// device can give: for a memory object of its own the heap of the memory type
    /// has no room, or the request is larger than the chunks of the linear allocator
    /// that is to serve it.
    pub open spec fn passes_over(&self, t: int, request: Request, forced: Option<Strategy>) -> bool {
        match self.strategy_for(request, forced) {
            ChosenStrategy::Dedicated => self.heap_room(t) < spec_effective_size(request.size),
            ChosenStrategy::Linear => spec_effective_size(request.size) > self.linear_chunk_size(
                t,
            ),
            ChosenStrategy::Buddy => false,
        }
    }

    /// The first memory type in the ranking of the usage of a request, from the
    /// position `from` on, that the request allows and does not pass over.
    pub open spec fn candidate_from(
        &self,
        request: Request,
        forced: Option<Strategy>,
        from: int,
    ) -> Option<u32>
        decreases self.ranking(served_usage(request.usage)).len() - from,
    {
        let list = self.ranking(served_usage(request.usage));
        if from < 0 || from >= list.len() {
            None
        } else if bit_is_set(request.memory_types, list[from]) && !self.passes_over(
            list[from] as int,
            request,
            forced,
        ) {
            Some(list[from])
        } else {
            self.candidate_from(request, forced, from + 1)
        }
    }

    /// The memory type that serves a request unless the device is out of memory: the
    /// first in the ranking of its usage that the request allows and does not pass
    /// over.
    pub open spec fn first_candidate(&self, request: Request, forced: Option<Strategy>) -> Option<
        u32,
    > {
        self.candidate_from(request, forced, 0)
    }

    /// Whether the sub-allocators of the memory types from the position `from` of the
    /// ranking of `usage` on are in `self` what they are in `before`.
    spec fn untouched_from(&self, before: &Self, usage: UsageFlags, from: int) -> bool {
        forall|j: int|
            from <= j < before.ranking(usage).len() ==> self.linear_allocators@[(
            #[trigger] before.ranking(usage)[j]) as int]
                == before.linear_allocators@[before.ranking(usage)[j] as int]
                && self.buddy_allocators@[before.ranking(usage)[j] as int]
                == before.buddy_allocators@[before.ranking(usage)[j] as int]
    }

    /// What a block that was allocated for a request has cost: a memory object of its
    /// own its size; a block that its sub-allocator served without asking the device
    /// nothing; another block of a linear allocator one chunk, and another block of a
    /// buddy allocator the chunk that it starts. The heap of the memory type of the
    /// block is charged with that, and the device can give one memory object less
    /// where it is not nothing.
    pub open spec fn charge_ok(
        &self,
        before: &Self,
        request: Request,
        forced: Option<Strategy>,
        block: &MemoryBlock<M>,
    ) -> bool {
        let t = block.spec_memory_type() as int;
        let without = before.serves_without_device(
            t,
            request.size,
            request.align_mask,
            served_usage(request.usage),
            before.strategy_for(request, forced),
        );
        match before.strategy_for(request, forced) {
            ChosenStrategy::Dedicated => {
                &&& self.charged_for(before, t, block.spec_size())
                &&& self.same_sub_allocators(before)
                &&& before.heap_room(t) >= block.spec_size()
            },
            ChosenStrategy::Linear => self.charged_for(
                before,
                t,
                if without {
                    0
                } else {
                    before.linear_chunk_size(t)
                },
            ),
            ChosenStrategy::Buddy => if without {
                self.charged_for(before, t, 0)
            } else {
                self.starts_buddy_chunk(before, block)
            },
        }
    }

    /// Whether the flavor of a block is that of the strategy.
    pub open spec fn flavor_of(flavor: MemoryBlockFlavor, strategy: ChosenStrategy) -> bool {
        match strategy {
            ChosenStrategy::Dedicated => flavor is Dedicated,
            ChosenStrategy::Linear => flavor is Linear,
            ChosenStrategy::Buddy => flavor is Buddy,
        }
    }

    /// The bytes of the heap `heap` that are taken; `None` if there is no such heap.
    pub fn heap_usage(&self, heap: usize) -> (r: Option<u64>)
        ensures
            r is Some <==> heap < self.parameters().heap_sizes.len(),
            r is Some ==> r->0 == self.heap_used(heap as int),
    {
        if heap < self.memory_heaps.len() {
            Some(self.memory_heaps[heap].used())
        } else {
            None
        }
    }

    /// The number of memory objects that the device can still give.
    pub fn allocations_remains(&self) -> (r: u32)
        ensures
            r == self.spec_allocations_remains(),
    {
        self.allocations_remains
    }
}

impl<M: Clone> GpuAllocator<M> {
    /// What holds after a request was served, or was not: `self` is the allocator after
    /// the call and `before` the allocator before it, `forced` the strategy that the
    /// caller forced, if any, and `r` what was returned.
    ///
    /// Which error comes, and when:
    ///
    /// * A request for more bytes than a memory object can have fails with
    ///   `OutOfDeviceMemory`.
    /// * Another request fails with `NoCompatibleMemoryTypes` if and only if it allows no
    ///   memory type that can serve its usage; so it does where it allows none at all.
    /// * A request that neither fails, where the strategy is a memory object of its own
    ///   and the device can give no more, fails with `TooManyObjects`.
    /// * In these three cases nothing is changed.
    /// * The memory types are then tried in the order of their ranking. Those that the
    ///   request does not allow, and those that it passes over, `passes_over`, change
    ///   no heap and no count, and the next is tried. A request that passes over all
    ///   fails with `OutOfDeviceMemory`.
    /// * The first other memory type is `first_candidate`. A request that its
    ///   sub-allocator serves without asking the device gets a block of that memory
    ///   type. One for which its sub-allocator needs a new chunk fails with
    ///   `TooManyObjects` where the device can give no memory object, and with
    ///   `OutOfHostMemory` where the linear allocator has no chunk number left.
    /// * A request fails with `TooManyObjects` only where the device can give no memory
    ///   object.
    ///
    /// What holds of a block that is returned:
    ///
    /// * It is a new live block, of a memory type that the request allows and that can
    ///   serve its usage, allocated with the strategy, with at least the size that was
    ///   asked for, aligned to the mask that was asked for if that is a mask of low
    ///   bits, and to the mask that it is mapped with. The size of a block of a buddy
    ///   allocator is a power of two.
    /// * A block of a sub-allocator carries a clone of the memory object of its chunk,
    ///   and the host address of its first byte if the chunk is mapped: `block_backed`.
    ///   The chunk of a request that asks for host access is mapped.
    ///
    /// What holds of the heaps and of the number of memory objects that the device can
    /// give:
    ///
    /// * A request that fails changes neither, and a request for a memory object of
    ///   its own that fails changes nothing at all.
    /// * A request that gets a block charges the heap of the memory type of the block
    ///   and no other, and leaves the device as many memory objects to give, or one
    ///   less: `charge_ok` says which, and how many bytes. For a memory object of its
    ///   own the heap had room for it, and `accept_dedicated` says what becomes of the
    ///   answer of the device.
    ///
    /// What holds of the other blocks:
    ///
    /// * Where an error is returned the live blocks are what they were.
    /// * Every block that was live is live, with the key that it had, and the blocks of
    ///   the buddy allocators lie where they lay.
    pub open spec fn allocation_ok(
        &self,
        before: &Self,
        request: Request,
        forced: Option<Strategy>,
        r: Result<MemoryBlock<M>, AllocationError>,
    ) -> bool {
        let usage = served_usage(request.usage);
        let fits = request.size <= before.parameters().max_memory_allocation_size;
        let served = before.compatible_types(usage) & request.memory_types != 0;
        &&& !fits ==> r is Err && r->Err_0 == AllocationError::OutOfDeviceMemory
        &&& r is Err && r->Err_0 == AllocationError::NoCompatibleMemoryTypes <==> fits && !served
        &&& fits && request.memory_types == 0 ==> r is Err && r->Err_0
            == AllocationError::NoCompatibleMemoryTypes
        &&& fits && served && before.strategy_for(request, forced) is Dedicated
            && before.spec_allocations_remains() == 0 ==> r is Err && r->Err_0
            == AllocationError::TooManyObjects
        &&& match r {
            Ok(block) => {
                &&& self.block_ok(&block, block.spec_memory_type(), request.size)
                &&& self.block_backed(&block)
                &&& usage.spec_has(UsageFlags::HOST_ACCESS_BIT) && !(block.spec_flavor()
                    is Dedicated) ==> block.spec_flavor().ptr() is Some
                &&& self.live_with(before, &block)
                &&& self.owns(&block)
                &&& bit_is_set(request.memory_types, block.spec_memory_type())
                &&& spec_compatible(usage, block.spec_props())
                &&& Self::flavor_of(block.spec_flavor(), before.strategy_for(request, forced))
                &&& block.spec_flavor() is Dedicated ==> block.spec_offset() == 0
                    && block.spec_size() == spec_effective_size(request.size)
                &&& block.spec_flavor() is Linear ==> block.spec_size() == spec_effective_size(
                    request.size,
                ) && block.spec_offset() & request.align_mask == 0
                &&& is_low_mask(request.align_mask) ==> block.spec_offset() & request.align_mask
                    == 0
                &&& block.spec_flavor() is Buddy ==> spec_is_power_of_two(block.spec_size())
                &&& before.spec_allocations_remains() - 1 <= self.spec_allocations_remains()
                    <= before.spec_allocations_remains()
                &&& self.same_heaps_but(before, before.heap_of(block.spec_memory_type() as int))
                &&& self.charge_ok(before, request, forced, &block)
            },
            Err(err) => {
                &&& self.same_live(before)
                &&& self.same_heaps(before)
                &&& self.spec_allocations_remains() == before.spec_allocations_remains()
                &&& err == AllocationError::TooManyObjects ==> self.spec_allocations_remains()
                    == 0
                &&& before.strategy_for(request, forced) is Dedicated ==> *self == *before
            },
        }
        &&& !fits || !served || (before.strategy_for(request, forced) is Dedicated
            && before.spec_allocations_remains() == 0) ==> r is Err && *self == *before
        &&& self.keeps_blocks_of(before)
        &&& self.keeps_owned(before)
        &&& self.within_heaps()
        &&& fits && served && !(before.strategy_for(request, forced) is Dedicated
            && before.spec_allocations_remains() == 0) ==> match before.first_candidate(
            request,
            forced,
        ) {
            None => r is Err && r->Err_0 == AllocationError::OutOfDeviceMemory,
            Some(first) => {
                let t = first as int;
                let strategy = before.strategy_for(request, forced);
                &&& before.serves_without_device(
                    t,
                    request.size,
                    request.align_mask,
                    usage,
                    strategy,
                ) ==> r is Ok && r->Ok_0.spec_memory_type() == first
                &&& strategy is Linear && before.linear_out_of_objects(
                    t,
                    request.size,
                    request.align_mask,
                    usage,
                ) ==> r is Err && r->Err_0 == AllocationError::TooManyObjects
                &&& strategy is Linear && before.linear_stuck(
                    t,
                    request.size,
                    request.align_mask,
                    usage,
                ) ==> r is Err && r->Err_0 == AllocationError::OutOfHostMemory
                &&& strategy is Buddy && before.buddy_out_of_objects(
                    t,
                    request.size,
                    request.align_mask,
                ) ==> r is Err && r->Err_0 == AllocationError::TooManyObjects
            },
        }
    }

    /// Allocates a block for `request`, with the strategy `forced` if there is one.
    #[verifier::rlimit(80)]
    fn alloc_internal<D: MemoryDevice<M>>(
        &mut self,
        device: &D,
        request: Request,
        forced: Option<Strategy>,
    ) -> (r: Result<MemoryBlock<M>, AllocationError>)
        requires
            old(self).wf(),
            served_usage(request.usage).spec_has(UsageFlags::DEVICE_ADDRESS_BIT) ==> old(
                self,
            ).parameters().buffer_device_address,
        ensures
            final(self).wf(),
            final(self).parameters() == old(self).parameters(),
            final(self).allocation_ok(old(self), request, forced, r),
    {
        let usage = with_implicit_usage_flags(request.usage);
        proof {
            self.lemma_grown_same(old(self));
            self.lemma_grown_keeps(old(self));
            self.lemma_grown_classes(old(self));
            self.lemma_keeps_owned(old(self));
            self.lemma_within_heaps();
        }
        if request.size > self.max_memory_allocation_size {
            return Err(AllocationError::OutOfDeviceMemory);
        }
        proof {
            let mask = self.compatible_types(usage);
            assert(mask & 0u32 == 0) by (bit_vector);
        }
        if self.memory_for_usage.mask(usage) & request.memory_types == 0 {
            return Err(AllocationError::NoCompatibleMemoryTypes);
        }
        let strategy = choose_strategy(
            request.size,
            usage,
            request.dedicated,
            forced,
            self.thresholds,
            self.allocations_remains > 0,
        );
        if strategy == ChosenStrategy::Dedicated && self.allocations_remains == 0 {
            return Err(AllocationError::TooManyObjects);
        }
        let size = effective_size(request.size);
        let count = self.memory_for_usage.types(usage).len();
        let mut i: usize = 0;
        let ghost mut clean = true;
        let ghost mut first_pos = 0int;
        let ghost list = self.ranking(usage);
        proof {
            self.lemma_grown_same(old(self));
        }
        while i < count
            invariant
                self.wf(),
                self.parameters() == old(self).parameters(),
                self.memory_for_usage == old(self).memory_for_usage,
                self.same_live(old(self)),
                self.grown_from(old(self)),
                old(self).wf(),
                list == old(self).ranking(usage),
                is_ranking(list, usage, old(self).memory_types@),
                count == list.len(),
                i <= count,
                usage == served_usage(request.usage),
                size == spec_effective_size(request.size),
                strategy == old(self).strategy_for(request, forced),
                strategy is Dedicated ==> self.allocations_remains > 0,
                strategy is Dedicated ==> *self == *old(self),
                self.same_heaps(old(self)),
                self.allocations_remains == old(self).allocations_remains,
                self.untouched_from(old(self), usage, i as int),
                request.size <= old(self).parameters().max_memory_allocation_size,
                old(self).compatible_types(usage) & request.memory_types != 0,
                request.memory_types != 0,
                !(strategy is Dedicated && old(self).spec_allocations_remains() == 0),
                clean ==> old(self).candidate_from(request, forced, i as int) == old(
                    self,
                ).first_candidate(request, forced),
                !clean ==> old(self).first_candidate(request, forced) is Some && 0 <= first_pos
                    < i && list[first_pos] == old(self).first_candidate(request, forced)->0
                    && !old(self).serves_without_device(
                    old(self).first_candidate(request, forced)->0 as int,
                    request.size,
                    request.align_mask,
                    usage,
                    strategy,
                ),
                !clean && strategy is Linear ==> !old(self).linear_out_of_objects(
                    old(self).first_candidate(request, forced)->0 as int,
                    request.size,
                    request.align_mask,
                    usage,
                ) && !old(self).linear_stuck(
                    old(self).first_candidate(request, forced)->0 as int,
                    request.size,
                    request.align_mask,
                    usage,
                ),
                !clean && strategy is Buddy ==> !old(self).buddy_out_of_objects(
                    old(self).first_candidate(request, forced)->0 as int,
                    request.size,
                    request.align_mask,
                ),
            decreases count - i,
        {
            let index = self.memory_for_usage.types(usage)[i];
            let ghost was_clean = clean;
            let ghost entry = *self;
            i += 1;
            proof {
                assert(list[i - 1] == index);
                assert(index < old(self).memory_types@.len());
                assert forall|j: int| i <= j < count implies (#[trigger] list[j]) != index by {
                    assert(comes_before(usage, old(self).memory_types@, list[i - 1], list[j]));
                }
                if !clean {
                    assert(comes_before(
                        usage,
                        old(self).memory_types@,
                        list[first_pos],
                        list[i - 1],
                    ));
                }
            }
            if request.memory_types & (1u32 << index) != 0 {
                let ghost before = *self;
                let ghost passes = old(self).passes_over(index as int, request, forced);
                let attempt = match strategy {
                    ChosenStrategy::Dedicated => self.allocate_dedicated(device, index, size),
                    ChosenStrategy::Linear => self.allocate_linear(
                        device,
                        index,
                        request.size,
                        request.align_mask,
                        usage,
                    ),
                    ChosenStrategy::Buddy => self.allocate_buddy(
                        device,
                        index,
                        request.size,
                        request.align_mask,
                    ),
                };
                proof {
                    self.lemma_grown_transitive(&before, old(self));
                    self.lemma_grown_keeps(old(self));
                    self.lemma_grown_classes(old(self));
                    lemma_chunk_bytes(0, old(self).linear_chunk_size(index as int));
                    if before.linear_allocator(index as int) is Some {
                        assert(before.linear_ok(index as int));
                    }
                    {
                        assert(before.linear_allocators@[list[i - 1] as int] == old(
                            self,
                        ).linear_allocators@[list[i - 1] as int]);
                        assert(before.linear_allocator(index as int) == old(self).linear_allocator(
                            index as int,
                        ));
                        assert(before.buddy_allocator(index as int) == old(self).buddy_allocator(
                            index as int,
                        ));
                        assert(before.heap_room(index as int) == old(self).heap_room(index as int));
                        assert forall|j: int| i <= j < count implies self.linear_allocators@[(
                        #[trigger] list[j]) as int] == old(self).linear_allocators@[list[j] as int]
                            && self.buddy_allocators@[list[j] as int] == old(
                            self,
                        ).buddy_allocators@[list[j] as int] by {
                            assert(self.linear_allocator(list[j] as int)
                                == before.linear_allocator(list[j] as int));
                            assert(self.buddy_allocator(list[j] as int) == before.buddy_allocator(
                                list[j] as int,
                            ));
                        }
                        assert(before.serves_without_device(
                            index as int,
                            request.size,
                            request.align_mask,
                            usage,
                            strategy,
                        ) == old(self).serves_without_device(
                            index as int,
                            request.size,
                            request.align_mask,
                            usage,
                            strategy,
                        ));
                        assert(before.linear_out_of_objects(
                            index as int,
                            request.size,
                            request.align_mask,
                            usage,
                        ) == old(self).linear_out_of_objects(
                            index as int,
                            request.size,
                            request.align_mask,
                            usage,
                        ));
                        assert(before.linear_stuck(
                            index as int,
                            request.size,
                            request.align_mask,
                            usage,
                        ) == old(self).linear_stuck(
                            index as int,
                            request.size,
                            request.align_mask,
                            usage,
                        ));
                        assert(before.buddy_out_of_objects(
                            index as int,
                            request.size,
                            request.align_mask,
                        ) == old(self).buddy_out_of_objects(
                            index as int,
                            request.size,
                            request.align_mask,
                        ));
                        assert(old(self).candidate_from(request, forced, i - 1) == if passes {
                            old(self).candidate_from(request, forced, i as int)
                        } else {
                            Some(index)
                        });
                        if was_clean && !passes {
                            clean = false;
                            first_pos = i - 1;
                        }
                    }
                }
                match attempt {
                    Ok(Some(block)) => {
                        proof {
                            lemma_low_masks_union(request.align_mask, 0, 0);
                            if usage.spec_has(UsageFlags::HOST_ACCESS_BIT) {
                                lemma_host_access_is_host_visible(usage, block.spec_props());
                            }
                            assert forall|k: BlockKey|
                                #![trigger self.live_count(k)]
                                self.live_count(k) == old(self).live_count(k) + if k
                                    == self.key_of(&block) {
                                    1nat
                                } else {
                                    0nat
                                } by {
                                assert(before.live_count(k) == old(self).live_count(k));
                            }
                            self.lemma_keeps_owned(old(self));
                            self.lemma_within_heaps();
                        }
                        return Ok(block);
                    },
                    Ok(None) => {
                        proof {
                            assert forall|k: BlockKey| #[trigger]
                                self.live_count(k) == old(self).live_count(k) by {
                                assert(before.live_count(k) == old(self).live_count(k));
                            }
                        }
                    },
                    Err(err) => {
                        proof {
                            assert forall|k: BlockKey| #[trigger]
                                self.live_count(k) == old(self).live_count(k) by {
                                assert(before.live_count(k) == old(self).live_count(k));
                            }
                            self.lemma_keeps_owned(old(self));
                            self.lemma_within_heaps();
                        }
                        return Err(err);
                    },
                }
            } else {
                proof {
                    assert(old(self).candidate_from(request, forced, i - 1) == old(
                        self,
                    ).candidate_from(request, forced, i as int));
                }
            }
        }
        proof {
            self.lemma_grown_keeps(old(self));
            self.lemma_grown_classes(old(self));
            self.lemma_keeps_owned(old(self));
            self.lemma_within_heaps();
        }
        Err(AllocationError::OutOfDeviceMemory)
    }

    /// Allocates a block for `request`.
    ///
    /// The request is served for the usage that it asks for and the usages that this
    /// implies. A request for more bytes than a memory object can have fails with
    /// `OutOfDeviceMemory`, and one that allows no memory type that can serve its usage
    /// with `NoCompatibleMemoryTypes`. The strategy is `strategy_for(request, None)`;
    /// where that is a memory object of its own and the device can give no more,
    /// the request fails with `TooManyObjects`. The memory types that the request
    /// allows and that can serve its usage are tried in the order of their ranking:
    /// the next one is tried where one is passed over or out of device memory, and
    /// `OutOfDeviceMemory` is returned when all are; any other error of a memory type
    /// ends the search. `allocation_ok` says what holds of the heaps, of the number of
    /// memory objects that the device can give and of the live blocks afterwards.
    pub fn allocate<D: MemoryDevice<M>>(&mut self, device: &D, request: Request) -> (r: Result<
        MemoryBlock<M>,
        AllocationError,
    >)
        requires
            old(self).wf(),
            served_usage(request.usage).spec_has(UsageFlags::DEVICE_ADDRESS_BIT) ==> old(
                self,
            ).parameters().buffer_device_address,
        ensures
            final(self).wf(),
            final(self).parameters() == old(self).parameters(),
            final(self).allocation_ok(old(self), request, None, r),
    {
        self.alloc_internal(device, request, None)
    }

    /// Allocates a block for `request` with the strategy `strategy`, whatever the
    /// request says of a memory object of its own. In all else it is `allocate`.
    pub fn alloc_with_strategy<D: MemoryDevice<M>>(
        &mut self,
        device: &D,
        request: Request,
        strategy: Strategy,
    ) -> (r: Result<MemoryBlock<M>, AllocationError>)
        requires
            old(self).wf(),
            served_usage(request.usage).spec_has(UsageFlags::DEVICE_ADDRESS_BIT) ==> old(
                self,
            ).parameters().buffer_device_address,
        ensures
            final(self).wf(),
            final(self).parameters() == old(self).parameters(),
            final(self).allocation_ok(old(self), request, Some(strategy), r),
    {
        self.alloc_internal(device, request, Some(strategy))
    }
}

/// A request for as many bytes as a memory object can have at most gets a memory
/// object of its own, if it requires one, or if it prefers one, the device can still
/// give one, and the preferred threshold of the configuration is not above that size.
pub proof fn lemma_largest_request_is_dedicated(
    config: Config,
    max_memory_allocation_size: u64,
    usage: UsageFlags,
    dedicated: Dedicated,
)
    requires
        dedicated == Dedicated::Required || (dedicated == Dedicated::Preferred
            && config.preferred_dedicated_threshold <= max_memory_allocation_size),
    ensures
        spec_choose_strategy(
            max_memory_allocation_size,
            usage,
            dedicated,
            None,
            spec_clamp_thresholds(
                config.dedicated_threshold,
                config.preferred_dedicated_threshold,
                config.transient_dedicated_threshold,
                max_memory_allocation_size,
            ),
            true,
        ) == ChosenStrategy::Dedicated,
{
}

proof fn lemma_no_occurrences(blocks: Seq<(u32, u64)>)
    requires
        forall|x: (u32, u64)| occurrences(blocks, x) == 0,
    ensures
        blocks.len() == 0,
{
    if blocks.len() > 0 {
        assert(occurrences(blocks, blocks.last()) >= 1);
    }
}

impl<M> GpuAllocator<M> {
    /// When every block that was allocated has been given back, the allocator holds
    /// no memory object but the chunks of the linear allocators, those that blocks are
    /// taken from and those that were taken out of use when none of their blocks was
    /// live: every other memory object went back to the device, and its bytes to its
    /// heap.
    pub proof fn lemma_all_returned(&self)
        requires
            self.wf(),
            forall|key: BlockKey| self.live_count(key) == 0,
        ensures
            self.dedicated_blocks().len() == 0,
            forall|t: int|
                0 <= t < self.parameters().memory_types.len() ==> #[trigger] self.type_objects()[t]
                    == self.linear_objects(t),
            (forall|t: int|
                0 <= t < self.parameters().memory_types.len() ==> self.linear_objects(t)
                    == 0) ==> self.device_objects() == 0 && self.spec_allocations_remains()
                == self.parameters().max_memory_allocation_count && forall|heap: int|
                0 <= heap < self.parameters().heap_sizes.len() ==> self.heap_used(heap) == 0,
    {
        assert forall|x: (u32, u64)| occurrences(self.dedicated@, x) == 0 by {
            assert(self.live_count(BlockKey::Dedicated { memory_type: x.0, size: x.1 }) == 0);
        }
        lemma_no_occurrences(self.dedicated@);
        assert forall|t: int| 0 <= t < self.memory_types@.len()
            implies #[trigger] self.type_objects()[t]
            == self.linear_objects(t) by {
            assert(self.linear_ok(t));
            assert(self.buddy_ok(t));
            match self.linear_allocators@[t] {
                Some(allocator) => {
                    assert forall|key: LinearKey| !allocator.live().dom().contains(key) by {
                        assert(self.live_count(
                            BlockKey::Linear { memory_type: t as u32, key },
                        ) == 0);
                    }
                },
                None => {},
            }
            match self.buddy_allocators@[t] {
                Some(allocator) => {
                    assert forall|key: BuddyKey| !allocator.live().contains(key) by {
                        assert(self.live_count(
                            BlockKey::Buddy { memory_type: t as u32, key },
                        ) == 0);
                    }
                    assert(allocator.live() =~= Set::<BuddyKey>::empty());
                    allocator.lemma_empty_holds_nothing();
                },
                None => {},
            }
        }
        if forall|t: int|
            0 <= t < self.parameters().memory_types.len() ==> self.linear_objects(t) == 0 {
            lemma_types_zero(
                self.type_objects(),
                self.type_heaps(),
                0,
                self.type_objects().len() as int,
            );
            assert forall|t: int| 0 <= t < self.type_bytes().len() implies self.type_bytes()[t]
                == 0 by {
                assert(self.type_objects()[t] == self.linear_objects(t));
                assert(self.linear_ok(t));
                assert(self.buddy_ok(t));
                match self.linear_allocators@[t] {
                    Some(allocator) => {
                        crate::linear::lemma_chunk_bytes(0, allocator.spec_chunk_size());
                    },
                    None => {},
                }
                match self.buddy_allocators@[t] {
                    Some(allocator) => {
                        assert forall|key: BuddyKey| !allocator.live().contains(key) by {
                            assert(self.live_count(
                                BlockKey::Buddy { memory_type: t as u32, key },
                            ) == 0);
                        }
                        assert(allocator.live() =~= Set::<BuddyKey>::empty());
                        allocator.lemma_empty_holds_nothing();
                    },
                    None => {},
                }
            }
            assert forall|heap: int|
                0 <= heap < self.parameters().heap_sizes.len() implies self.heap_used(heap)
                == 0 by {
                assert(self.memory_heaps@[heap].wf());
                lemma_types_zero(
                    self.type_bytes(),
                    self.type_heaps(),
                    heap,
                    self.type_bytes().len() as int,
                );
            }
        }
    }
}

/// What dedicated blocks charge a heap with does not depend on their order.
proof fn lemma_dedicated_by_count(a: Seq<(u32, u64)>, b: Seq<(u32, u64)>, heaps: Seq<u32>, heap: int)
    requires
        forall|x: (u32, u64)| occurrences(a, x) == occurrences(b, x),
    ensures
        a.len() == b.len(),
        dedicated_charge(a, heaps, heap) == dedicated_charge(b, heaps, heap),
    decreases a.len(),
{
    if a.len() == 0 {
        lemma_no_occurrences(b);
    } else {
        let x = a.last();
        assert(occurrences(a, x) >= 1);
        let i = lemma_occurs(b, x);
        assert forall|y: (u32, u64)| occurrences(a.drop_last(), y) == occurrences(
            b.remove(i),
            y,
        ) by {
            lemma_occurrences_remove(b, y, i);
            assert(occurrences(a, y) == occurrences(b, y));
        }
        lemma_dedicated_by_count(a.drop_last(), b.remove(i), heaps, heap);
        lemma_dedicated_remove(b, heaps, heap, i);
    }
}

impl<M> GpuAllocator<M> {
    /// The number of memory objects that the linear allocator of the memory type `t`
    /// holds; none if there is no such allocator.
    pub closed spec fn linear_objects(&self, t: int) -> nat {
        match self.linear_allocator(t) {
            Some(allocator) => allocator.objects_held(),
            None => 0,
        }
    }

    /// The bytes of the memory objects that the linear allocator of the memory type `t`
    /// holds.
    pub closed spec fn linear_bytes(&self, t: int) -> nat {
        match self.linear_allocator(t) {
            Some(allocator) => allocator.bytes_held(),
            None => 0,
        }
    }

    /// Whether the blocks of the buddy allocators of `self`, which are those of `other`,
    /// lie in the same chunks of the same sizes.
    pub open spec fn same_places(&self, other: &Self) -> bool {
        forall|t: int, key: BuddyKey|
            #![trigger self.buddy_allocator(t)->0.live().contains(key)]
            self.buddy_allocator(t) is Some && other.buddy_allocator(t) is Some
                && self.buddy_allocator(t)->0.live().contains(key) ==> self.buddy_allocator(
                t,
            )->0.place(key).0 == other.buddy_allocator(t)->0.place(key).0 && self.buddy_allocator(
                t,
            )->0.chunk_size(self.buddy_allocator(t)->0.place(key).0 as int)
                == other.buddy_allocator(t)->0.chunk_size(
                other.buddy_allocator(t)->0.place(key).0 as int,
            )
    }

    /// What the heaps are charged with, and how many memory objects the device can
    /// still give, is decided by the live blocks and by the chunks that the linear
    /// allocators hold: two states of an allocator in which the same blocks are live,
    /// those of the buddy allocators in the same chunks, and in which the linear
    /// allocators hold as much, charge every heap with the same.
    ///
    /// So blocks that are allocated and given back leave every heap charged with what
    /// it was charged with, but for the chunks that the linear allocators keep: those
    /// that blocks are taken from, and those that were taken out of use when none of
    /// their blocks was live.
    pub proof fn lemma_same_blocks_same_usage(&self, other: &Self)
        requires
            self.wf(),
            other.wf(),
            self.parameters() == other.parameters(),
            forall|key: BlockKey| self.live_count(key) == other.live_count(key),
            self.same_places(other),
            forall|t: int|
                0 <= t < self.parameters().memory_types.len() ==> self.linear_objects(t)
                    == other.linear_objects(t) && self.linear_bytes(t) == other.linear_bytes(t),
        ensures
            forall|heap: int|
                0 <= heap < self.parameters().heap_sizes.len() ==> self.heap_used(heap)
                    == other.heap_used(heap),
            self.device_objects() == other.device_objects(),
            self.spec_allocations_remains() == other.spec_allocations_remains(),
    {
        assert(self.memory_types@ == other.memory_types@);
        assert(self.type_heaps() =~= other.type_heaps());
        assert forall|x: (u32, u64)| occurrences(self.dedicated@, x) == occurrences(
            other.dedicated@,
            x,
        ) by {
            let key = BlockKey::Dedicated { memory_type: x.0, size: x.1 };
            assert(self.live_count(key) == other.live_count(key));
        }
        assert forall|t: int| 0 <= t < self.memory_types@.len() implies self.type_bytes()[t]
            == other.type_bytes()[t] && self.type_objects()[t] == other.type_objects()[t] by {
            assert(self.buddy_ok(t));
            assert(other.buddy_ok(t));
            assert(self.linear_objects(t) == other.linear_objects(t));
            assert(self.linear_bytes(t) == other.linear_bytes(t));
            let mine = self.buddy_allocator(t);
            let theirs = other.buddy_allocator(t);
            if mine is Some {
                assert forall|key: BuddyKey| mine->0.live().contains(key) implies theirs is Some
                    && theirs->0.live().contains(key) by {
                    let block = BlockKey::Buddy { memory_type: t as u32, key };
                    assert(self.live_count(block) == other.live_count(block));
                }
            }
            if theirs is Some {
                assert forall|key: BuddyKey| theirs->0.live().contains(key) implies mine is Some
                    && mine->0.live().contains(key) by {
                    let block = BlockKey::Buddy { memory_type: t as u32, key };
                    assert(self.live_count(block) == other.live_count(block));
                }
            }
            if mine is Some && theirs is Some {
                assert(mine->0.live() =~= theirs->0.live());
                mine->0.lemma_same_blocks_same_bytes(&theirs->0);
            } else if mine is Some {
                assert(mine->0.live() =~= Set::<BuddyKey>::empty());
                mine->0.lemma_empty_holds_nothing();
            } else if theirs is Some {
                assert(theirs->0.live() =~= Set::<BuddyKey>::empty());
                theirs->0.lemma_empty_holds_nothing();
            }
        }
        assert(self.type_bytes() =~= other.type_bytes());
        assert(self.type_objects() =~= other.type_objects());
        lemma_dedicated_by_count(self.dedicated@, other.dedicated@, self.type_heaps(), 0);
        assert(self.parameters().heap_sizes.len() == other.parameters().heap_sizes.len());
        assert forall|heap: int|
            0 <= heap < self.parameters().heap_sizes.len() implies self.heap_used(heap)
            == other.heap_used(heap) by {
            lemma_dedicated_by_count(self.dedicated@, other.dedicated@, self.type_heaps(), heap);
            assert(self.memory_heaps@[heap].wf());
            assert(other.memory_heaps@[heap].wf());
        }
    }
}

impl<M> GpuAllocator<M> {
    /// No two live blocks of a linear allocator that lie in one chunk overlap, and each
    /// lies within the chunk.
    pub proof fn lemma_linear_blocks_disjoint(&self, memory_type: u32, a: LinearKey, b: LinearKey)
        requires
            self.wf(),
            self.live_count(BlockKey::Linear { memory_type, key: a }) >= 1,
            self.live_count(BlockKey::Linear { memory_type, key: b }) >= 1,
            a != b,
            a.mapped == b.mapped,
            a.chunk == b.chunk,
        ensures
            self.linear_allocator(memory_type as int) matches Some(allocator) && ({
                &&& allocator.live().dom().contains(a)
                &&& allocator.live().dom().contains(b)
                &&& a.offset + allocator.live()[a] <= b.offset || b.offset + allocator.live()[b]
                    <= a.offset
                &&& a.offset + allocator.live()[a] <= allocator.spec_chunk_size()
            }),
    {
        assert(self.linear_ok(memory_type as int));
        self.linear_allocators@[memory_type as int]->0.lemma_live_blocks_disjoint(a, b);
    }

    /// No two live blocks of a buddy allocator that lie in one chunk overlap, and each
    /// lies within the chunk.
    pub proof fn lemma_buddy_blocks_disjoint(&self, memory_type: u32, a: BuddyKey, b: BuddyKey)
        requires
            self.wf(),
            self.live_count(BlockKey::Buddy { memory_type, key: a }) >= 1,
            self.live_count(BlockKey::Buddy { memory_type, key: b }) >= 1,
            a != b,
            self.buddy_allocator(memory_type as int)->0.place(a).0 == self.buddy_allocator(
                memory_type as int,
            )->0.place(b).0,
        ensures
            self.buddy_allocator(memory_type as int) matches Some(allocator) && ({
                &&& allocator.live().contains(a)
                &&& allocator.live().contains(b)
                &&& allocator.place(a).1 + allocator.place(a).2 <= allocator.place(b).1
                    || allocator.place(b).1 + allocator.place(b).2 <= allocator.place(a).1
                &&& allocator.place(a).1 + allocator.place(a).2 <= allocator.chunk_size(
                    allocator.place(a).0 as int,
                )
            }),
    {
        assert(self.buddy_ok(memory_type as int));
        self.buddy_allocators@[memory_type as int]->0.lemma_live_blocks_disjoint(a, b);
    }
}

} // verus!
