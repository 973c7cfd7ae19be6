//! Usage flags of a request, and the memory types that serve each usage.

use vstd::prelude::*;
use crate::types::{MemoryPropertyFlags, MemoryType};

verus! {

/// Intended usage of a memory block, as a set of bits.
///
/// The view of a value is its bits; only the six low bits are ever set.
#[derive(Clone, Copy, Debug, PartialEq, Eq, Hash, Structural)]
pub struct UsageFlags {
    bits: u8,
}

impl UsageFlags {
    /// The device should reach the memory fast. Implied when no flag is set.
    pub const FAST_DEVICE_ACCESS_BIT: u8 = 0x01;

    /// The host will access the memory.
    pub const HOST_ACCESS_BIT: u8 = 0x02;

    /// The host will read data from the memory. Implies host access.
    pub const DOWNLOAD_BIT: u8 = 0x04;

    /// The host will write data to the memory. Implies host access.
    pub const UPLOAD_BIT: u8 = 0x08;

    /// The memory will be held for a short time only.
    pub const TRANSIENT_BIT: u8 = 0x10;

    /// Device addresses will be obtained for the memory.
    pub const DEVICE_ADDRESS_BIT: u8 = 0x20;

    /// All bits that have a meaning.
    pub const ALL_BITS: u8 = 0x3f;

    /// The usages in which the host accesses the memory: host access, download and
    /// upload.
    pub const HOST_BITS: u8 = 0x0e;

    /// The usages that imply host access: download and upload.
    pub const TRANSFER_BITS: u8 = 0x0c;

    /// The usages that want device-local memory: fast device access and upload.
    pub const WANTS_DEVICE_LOCAL_BITS: u8 = 0x09;

    /// The usages that want host-coherent memory: host access and upload.
    pub const WANTS_HOST_COHERENT_BITS: u8 = 0x0a;

    #[verifier::type_invariant]
    spec fn inv(self) -> bool {
        self.bits <= Self::ALL_BITS
    }

    /// The bits of the flags.
    pub closed spec fn view(self) -> u8 {
        self.bits
    }

    /// Two values with the same bits are the same value.
    pub proof fn lemma_view_injective(a: Self, b: Self)
        requires
            a@ == b@,
        ensures
            a == b,
    {
    }

    /// No flag.
    pub fn empty() -> (r: Self)
        ensures
            r@ == 0,
    {
        UsageFlags { bits: 0 }
    }

    /// The device should reach the memory fast.
    pub fn fast_device_access() -> (r: Self)
        ensures
            r@ == Self::FAST_DEVICE_ACCESS_BIT,
    {
        UsageFlags { bits: 0x01 }
    }

    /// The host will access the memory.
    pub fn host_access() -> (r: Self)
        ensures
            r@ == Self::HOST_ACCESS_BIT,
    {
        UsageFlags { bits: 0x02 }
    }

    /// The host will read data from the memory.
    pub fn download() -> (r: Self)
        ensures
            r@ == Self::DOWNLOAD_BIT,
    {
        UsageFlags { bits: 0x04 }
    }

    /// The host will write data to the memory.
    pub fn upload() -> (r: Self)
        ensures
            r@ == Self::UPLOAD_BIT,
    {
        UsageFlags { bits: 0x08 }
    }

    /// The memory will be held for a short time only.
    pub fn transient() -> (r: Self)
        ensures
            r@ == Self::TRANSIENT_BIT,
    {
        UsageFlags { bits: 0x10 }
    }

    /// Device addresses are obtained for the memory.
    pub fn device_address() -> (r: Self)
        ensures
            r@ == Self::DEVICE_ADDRESS_BIT,
    {
        UsageFlags { bits: 0x20 }
    }

    /// The flags whose bits are those of `bits` that have a meaning.
    pub fn from_bits_truncate(bits: u8) -> (r: Self)
        ensures
            r@ == bits & Self::ALL_BITS,
    {
        assert(bits & 0x3f <= 0x3f) by (bit_vector);
        UsageFlags { bits: bits & 0x3f }
    }

    /// The bits of the flags.
    pub fn bits(&self) -> (r: u8)
        ensures
            r == self@,
            r <= Self::ALL_BITS,
    {
        proof {
            use_type_invariant(self);
        }
        self.bits
    }

    /// Whether no flag is set.
    pub fn is_empty(&self) -> (r: bool)
        ensures
            r == (self@ == 0),
    {
        self.bits == 0
    }

    /// Whether every bit of `other` is set in `self`.
    pub open spec fn spec_contains(&self, other: Self) -> bool {
        self@ & other@ == other@
    }

    /// Whether every flag of `other` is set in `self`.
    #[verifier::when_used_as_spec(spec_contains)]
    pub fn contains(&self, other: Self) -> (r: bool)
        ensures
            r == self.spec_contains(other),
    {
        self.bits & other.bits == other.bits
    }

    /// Whether some bit of `other` is set in `self`.
    pub open spec fn spec_intersects(&self, other: Self) -> bool {
        self@ & other@ != 0
    }

    /// Whether some flag of `other` is set in `self`.
    #[verifier::when_used_as_spec(spec_intersects)]
    pub fn intersects(&self, other: Self) -> (r: bool)
        ensures
            r == self.spec_intersects(other),
    {
        self.bits & other.bits != 0
    }

    /// The flags that are set in `self` or in `other`.
    pub fn union(self, other: Self) -> (r: Self)
        ensures
            r@ == self@ | other@,
    {
        proof {
            use_type_invariant(self);
            use_type_invariant(other);
        }
        let a: u8 = self.bits;
        let b: u8 = other.bits;
        assert(a <= 0x3f && b <= 0x3f ==> (a | b) <= 0x3f) by (bit_vector);
        UsageFlags { bits: a | b }
    }

    /// Whether the bit `bit` is set.
    pub open spec fn spec_has(&self, bit: u8) -> bool {
        self@ & bit != 0
    }

    /// Whether some bit of `bit` is set.
    #[verifier::when_used_as_spec(spec_has)]
    pub fn has(&self, bit: u8) -> (r: bool)
        ensures
            r == self.spec_has(bit),
    {
        self.bits & bit != 0
    }
}

/// The usage that a request with usage `usage` is served for: no flag at all stands for
/// fast device access, and download and upload bring host access with them.
pub open spec fn spec_with_implicit_usage_flags(usage: UsageFlags) -> u8 {
    if usage@ == 0 {
        UsageFlags::FAST_DEVICE_ACCESS_BIT
    } else if usage@ & UsageFlags::TRANSFER_BITS != 0 {
        usage@ | UsageFlags::HOST_ACCESS_BIT
    } else {
        usage@
    }
}

/// The usage that a request with usage `usage` is served for, as flags.
pub closed spec fn served_usage(usage: UsageFlags) -> UsageFlags {
    UsageFlags { bits: spec_with_implicit_usage_flags(usage) }
}

/// The bits of the usage that a request is served for.
pub proof fn lemma_served_usage(usage: UsageFlags)
    ensures
        served_usage(usage)@ == spec_with_implicit_usage_flags(usage),
{
}

/// Adds to `usage` the flags that it implies.
pub fn with_implicit_usage_flags(usage: UsageFlags) -> (r: UsageFlags)
    ensures
        r == served_usage(usage),
        r@ == spec_with_implicit_usage_flags(usage),
        r@ != 0,
{
    if usage.is_empty() {
        UsageFlags::fast_device_access()
    } else if usage.has(UsageFlags::TRANSFER_BITS) {
        let r = usage.union(UsageFlags::host_access());
        let bits: u8 = usage.bits();
        assert((bits | 0x02) != 0) by (bit_vector);
        r
    } else {
        usage
    }
}

/// Whether memory with properties `props` can serve `usage` at all: memory that the
/// host will access has to be host-visible.
pub open spec fn spec_compatible(usage: UsageFlags, props: MemoryPropertyFlags) -> bool {
    usage@ & UsageFlags::HOST_BITS != 0 ==> props@ & MemoryPropertyFlags::HOST_VISIBLE_BIT != 0
}

/// Memory that can serve a usage with host access is host-visible.
pub proof fn lemma_host_access_is_host_visible(usage: UsageFlags, props: MemoryPropertyFlags)
    requires
        spec_compatible(usage, props),
        usage.spec_has(UsageFlags::HOST_ACCESS_BIT),
    ensures
        props.spec_is_host_visible(),
{
    let bits = usage@;
    let held = props@;
    assert(bits & 0x02 != 0 && (bits & 0x0e != 0 ==> held & 0x02 != 0) ==> held & 0x02 == 0x02)
        by (bit_vector);
}

/// Whether memory with properties `props` can serve `usage` at all.
#[verifier::when_used_as_spec(spec_compatible)]
pub fn compatible(usage: UsageFlags, props: MemoryPropertyFlags) -> (r: bool)
    ensures
        r == spec_compatible(usage, props),
{
    if usage.has(UsageFlags::HOST_BITS) {
        props.bits() & MemoryPropertyFlags::HOST_VISIBLE_BIT != 0
    } else {
        true
    }
}

/// How much memory with properties `props` is to be avoided for `usage`: among the
/// memory types that can serve a usage, one with a lower penalty is tried first.
///
/// * Download wants host-cached memory (16 for memory that is not).
/// * Fast device access and upload want device-local memory (8).
/// * Fast device access wants memory that is not host-visible (4).
/// * Transient use wants lazily allocated memory (2).
/// * Host access and upload want host-coherent memory (1).
pub open spec fn spec_penalty(usage: UsageFlags, props: MemoryPropertyFlags) -> u32 {
    let cached: u32 = if usage@ & UsageFlags::DOWNLOAD_BIT != 0 && props@
        & MemoryPropertyFlags::HOST_CACHED_BIT == 0 {
        16
    } else {
        0
    };
    let local: u32 = if usage@ & UsageFlags::WANTS_DEVICE_LOCAL_BITS != 0 && props@ & MemoryPropertyFlags::DEVICE_LOCAL_BIT
        == 0 {
        8
    } else {
        0
    };
    let visible: u32 = if usage@ & UsageFlags::FAST_DEVICE_ACCESS_BIT != 0 && props@
        & MemoryPropertyFlags::HOST_VISIBLE_BIT != 0 {
        4
    } else {
        0
    };
    let lazy: u32 = if usage@ & UsageFlags::TRANSIENT_BIT != 0 && props@
        & MemoryPropertyFlags::LAZILY_ALLOCATED_BIT == 0 {
        2
    } else {
        0
    };
    let coherent: u32 = if usage@ & UsageFlags::WANTS_HOST_COHERENT_BITS != 0 && props@ & MemoryPropertyFlags::HOST_COHERENT_BIT
        == 0 {
        1
    } else {
        0
    };
    (cached + local + visible + lazy + coherent) as u32
}

/// How much memory with properties `props` is to be avoided for `usage`.
#[verifier::when_used_as_spec(spec_penalty)]
pub fn penalty(usage: UsageFlags, props: MemoryPropertyFlags) -> (r: u32)
    ensures
        r == spec_penalty(usage, props),
        r <= 31,
{
    let p: u8 = props.bits();
    let cached: u32 = if usage.has(UsageFlags::DOWNLOAD_BIT) && p & MemoryPropertyFlags::HOST_CACHED_BIT == 0 {
        16
    } else {
        0
    };
    let local: u32 = if usage.has(UsageFlags::WANTS_DEVICE_LOCAL_BITS) && p & MemoryPropertyFlags::DEVICE_LOCAL_BIT == 0 {
        8
    } else {
        0
    };
    let visible: u32 = if usage.has(UsageFlags::FAST_DEVICE_ACCESS_BIT) && p & MemoryPropertyFlags::HOST_VISIBLE_BIT != 0 {
        4
    } else {
        0
    };
    let lazy: u32 = if usage.has(UsageFlags::TRANSIENT_BIT) && p & MemoryPropertyFlags::LAZILY_ALLOCATED_BIT == 0 {
        2
    } else {
        0
    };
    let coherent: u32 = if usage.has(UsageFlags::WANTS_HOST_COHERENT_BITS) && p & MemoryPropertyFlags::HOST_COHERENT_BIT == 0 {
        1
    } else {
        0
    };
    cached + local + visible + lazy + coherent
}

/// Whether the memory type with index `i` is tried before the one with index `j` for
/// `usage`: the lower penalty first, and of two with the same penalty the lower index.
pub open spec fn comes_before(
    usage: UsageFlags,
    memory_types: Seq<MemoryType>,
    i: u32,
    j: u32,
) -> bool {
    let pi = spec_penalty(usage, memory_types[i as int].props);
    let pj = spec_penalty(usage, memory_types[j as int].props);
    pi < pj || (pi == pj && i < j)
}

/// Whether `list` holds the indices of exactly those of the first `count` memory types
/// that can serve `usage`, each once, in the order in which they are tried.
pub open spec fn is_ranking_of(
    list: Seq<u32>,
    usage: UsageFlags,
    memory_types: Seq<MemoryType>,
    count: int,
) -> bool {
    &&& forall|k: int|
        0 <= k < list.len() ==> (#[trigger] list[k]) < count && spec_compatible(
            usage,
            memory_types[list[k] as int].props,
        )
    &&& forall|i: int|
        0 <= i < count && spec_compatible(usage, (#[trigger] memory_types[i]).props)
            ==> exists|k: int| 0 <= k < list.len() && list[k] == i
    &&& forall|a: int, b: int|
        0 <= a < b < list.len() ==> comes_before(
            usage,
            memory_types,
            #[trigger] list[a],
            #[trigger] list[b],
        )
}

/// Whether `list` ranks the memory types `memory_types` for `usage`.
pub open spec fn is_ranking(list: Seq<u32>, usage: UsageFlags, memory_types: Seq<MemoryType>) -> bool {
    is_ranking_of(list, usage, memory_types, memory_types.len() as int)
}

/// Whether bit `i` of `mask` is set for exactly those `i` below `count` whose memory
/// type can serve `usage`.
pub open spec fn is_mask_of(
    mask: u32,
    usage: UsageFlags,
    memory_types: Seq<MemoryType>,
    count: int,
) -> bool {
    forall|i: u32|
        i < 32 ==> (#[trigger] bit_is_set(mask, i) <==> (i < count && spec_compatible(
            usage,
            memory_types[i as int].props,
        )))
}

/// Whether bit `i` of `mask` is set.
pub open spec fn bit_is_set(mask: u32, i: u32) -> bool {
    mask & (1u32 << i) != 0
}

proof fn lemma_mask_set_bit(mask: u32, i: u32, j: u32)
    by (bit_vector)
    requires
        i < 32,
        j < 32,
    ensures
        ((mask | (1u32 << i)) & (1u32 << j) != 0) <==> (mask & (1u32 << j) != 0 || i == j),
{
}

proof fn lemma_mask_empty(j: u32)
    by (bit_vector)
    requires
        j < 32,
    ensures
        0u32 & (1u32 << j) == 0,
{
}

/// Putting the next compatible index where its penalty belongs keeps the ranking.
proof fn lemma_insert_keeps_ranking(
    before: Seq<u32>,
    list: Seq<u32>,
    position: int,
    index: u32,
    usage: UsageFlags,
    memory_types: Seq<MemoryType>,
)
    requires
        index < memory_types.len(),
        0 <= position <= before.len(),
        list == before.insert(position, index),
        spec_compatible(usage, memory_types[index as int].props),
        is_ranking_of(before, usage, memory_types, index as int),
        forall|k: int|
            0 <= k < position ==> spec_penalty(
                usage,
                memory_types[(#[trigger] before[k]) as int].props,
            ) <= spec_penalty(usage, memory_types[index as int].props),
        position < before.len() ==> spec_penalty(
            usage,
            memory_types[before[position] as int].props,
        ) > spec_penalty(usage, memory_types[index as int].props),
    ensures
        is_ranking_of(list, usage, memory_types, index + 1),
{
    assert forall|k: int| 0 <= k < list.len() implies (#[trigger] list[k]) < index + 1
        && spec_compatible(usage, memory_types[list[k] as int].props) by {
        if k < position {
            assert(list[k] == before[k]);
        } else if k > position {
            assert(list[k] == before[k - 1]);
        }
    }
    assert forall|i: int|
        0 <= i < index + 1 && spec_compatible(
            usage,
            (#[trigger] memory_types[i]).props,
        ) implies exists|k: int| 0 <= k < list.len() && list[k] == i by {
        if i == index {
            assert(list[position] == i);
        } else {
            let k0 = choose|k: int| 0 <= k < before.len() && before[k] == i;
            if k0 < position {
                assert(list[k0] == i);
            } else {
                assert(list[k0 + 1] == i);
            }
        }
    }
    assert forall|a: int, b: int| 0 <= a < b < list.len() implies comes_before(
        usage,
        memory_types,
        #[trigger] list[a],
        #[trigger] list[b],
    ) by {
        let ka = if a < position {
            a
        } else {
            a - 1
        };
        let kb = if b < position {
            b
        } else {
            b - 1
        };
        if a != position {
            assert(list[a] == before[ka]);
        }
        if b != position {
            assert(list[b] == before[kb]);
        }
        if a == position {
            if kb > position {
                assert(comes_before(usage, memory_types, before[position], before[kb]));
            }
        } else if b == position {
            assert(before[ka] < index);
        } else {
            assert(comes_before(usage, memory_types, before[ka], before[kb]));
        }
    }
}

/// Setting the bit of the next compatible index keeps the bitset.
proof fn lemma_set_bit_keeps_mask(
    old_mask: u32,
    mask: u32,
    index: u32,
    usage: UsageFlags,
    memory_types: Seq<MemoryType>,
)
    requires
        index < 32,
        index < memory_types.len(),
        mask == old_mask | (1u32 << index),
        spec_compatible(usage, memory_types[index as int].props),
        is_mask_of(old_mask, usage, memory_types, index as int),
    ensures
        is_mask_of(mask, usage, memory_types, index + 1),
{
    assert forall|j: u32| j < 32 implies (#[trigger] bit_is_set(mask, j) <==> (j < index + 1
        && spec_compatible(usage, memory_types[j as int].props))) by {
        lemma_mask_set_bit(old_mask, index, j);
        assert(bit_is_set(old_mask, j) <==> (j < index && spec_compatible(
            usage,
            memory_types[j as int].props,
        )));
    }
}

/// Passing over an index that is not compatible keeps the ranking and the bitset.
proof fn lemma_skip_keeps_ranking(
    list: Seq<u32>,
    mask: u32,
    index: u32,
    usage: UsageFlags,
    memory_types: Seq<MemoryType>,
)
    requires
        index < 32,
        index < memory_types.len(),
        !spec_compatible(usage, memory_types[index as int].props),
        is_ranking_of(list, usage, memory_types, index as int),
        is_mask_of(mask, usage, memory_types, index as int),
    ensures
        is_ranking_of(list, usage, memory_types, index + 1),
        is_mask_of(mask, usage, memory_types, index + 1),
{
    assert forall|j: u32| j < 32 implies (#[trigger] bit_is_set(mask, j) <==> (j < index + 1
        && spec_compatible(usage, memory_types[j as int].props))) by {}
}

/// The memory types that serve one usage.
#[derive(Debug)]
pub struct MemoryForOneUsage {
    mask: u32,
    types: Vec<u32>,
}

/// Ranks the memory types for one usage.
fn one_usage(usage: UsageFlags, memory_types: &[MemoryType]) -> (r: MemoryForOneUsage)
    requires
        memory_types@.len() <= 32,
    ensures
        is_ranking(r.types@, usage, memory_types@),
        is_mask_of(r.mask, usage, memory_types@, memory_types@.len() as int),
{
    let mut types: Vec<u32> = Vec::new();
    let mut mask: u32 = 0;
    let mut index: usize = 0;
    proof {
        assert forall|j: u32| j < 32 implies !#[trigger] bit_is_set(0u32, j) by {
            lemma_mask_empty(j);
        }
    }
    while index < memory_types.len()
        invariant
            index <= memory_types@.len() <= 32,
            is_ranking_of(types@, usage, memory_types@, index as int),
            is_mask_of(mask, usage, memory_types@, index as int),
        decreases memory_types@.len() - index,
    {
        let props = memory_types[index].props;
        if compatible(usage, props) {
            let new_penalty: u32 = penalty(usage, props);
            let mut position: usize = 0;
            let mut found: bool = false;
            while position < types.len() && !found
                invariant
                    index < memory_types@.len() <= 32,
                    position <= types@.len(),
                    is_ranking_of(types@, usage, memory_types@, index as int),
                    is_mask_of(mask, usage, memory_types@, index as int),
                    forall|k: int|
                        0 <= k < position ==> spec_penalty(
                            usage,
                            memory_types@[(#[trigger] types@[k]) as int].props,
                        ) <= new_penalty,
                    found ==> position < types@.len() && spec_penalty(
                        usage,
                        memory_types@[types@[position as int] as int].props,
                    ) > new_penalty,
                decreases types@.len() - position, (if found { 0int } else { 1int }),
            {
                let other: u32 = types[position];
                if penalty(usage, memory_types[other as usize].props) > new_penalty {
                    found = true;
                } else {
                    position += 1;
                }
            }
            let ghost before = types@;
            let ghost old_mask = mask;
            types.insert(position, index as u32);
            let bit: u32 = index as u32;
            mask = mask | (1u32 << bit);
            proof {
                lemma_insert_keeps_ranking(
                    before,
                    types@,
                    position as int,
                    bit,
                    usage,
                    memory_types@,
                );
                lemma_set_bit_keeps_mask(old_mask, mask, bit, usage, memory_types@);
            }
        } else {
            proof {
                lemma_skip_keeps_ranking(types@, mask, index as u32, usage, memory_types@);
            }
        }
        index += 1;
    }
    MemoryForOneUsage { mask, types }
}

/// For every usage, the memory types that serve it, ranked.
pub struct MemoryForUsage {
    usages: Vec<MemoryForOneUsage>,
    memory_types: Ghost<Seq<MemoryType>>,
}

impl MemoryForUsage {
    /// The memory types that the table was made for.
    pub closed spec fn memory_types(&self) -> Seq<MemoryType> {
        self.memory_types@
    }

    /// The bitset of the memory types that can serve `usage`.
    pub closed spec fn spec_mask(&self, usage: UsageFlags) -> u32 {
        self.usages@[usage@ as int].mask
    }

    /// The indices of the memory types that can serve `usage`, the one to try first
    /// first.
    pub closed spec fn spec_types(&self, usage: UsageFlags) -> Seq<u32> {
        self.usages@[usage@ as int].types@
    }

    /// The invariant of the table: it holds the ranking and the bitset of every usage.
    pub closed spec fn wf(&self) -> bool {
        &&& self.usages@.len() == 64
        &&& self.memory_types@.len() <= 32
        &&& forall|usage: UsageFlags|
            usage@ < 64 ==> is_ranking(
                (#[trigger] self.usages@[usage@ as int]).types@,
                usage,
                self.memory_types@,
            ) && is_mask_of(
                self.usages@[usage@ as int].mask,
                usage,
                self.memory_types@,
                self.memory_types@.len() as int,
            )
    }

    /// What the table holds for a usage is the ranking and the bitset of that usage.
    pub proof fn lemma_ranked(&self, usage: UsageFlags)
        requires
            self.wf(),
            usage@ <= UsageFlags::ALL_BITS,
        ensures
            self.memory_types().len() <= 32,
            is_ranking(self.spec_types(usage), usage, self.memory_types()),
            is_mask_of(
                self.spec_mask(usage),
                usage,
                self.memory_types(),
                self.memory_types().len() as int,
            ),
    {
    }

    /// Ranks the memory types for every usage.
    pub fn new(memory_types: &[MemoryType]) -> (r: MemoryForUsage)
        requires
            memory_types@.len() <= 32,
        ensures
            r.wf(),
            r.memory_types() == memory_types@,
    {
        let mut usages: Vec<MemoryForOneUsage> = Vec::new();
        let mut bits: u8 = 0;
        while bits < 64
            invariant
                bits <= 64,
                memory_types@.len() <= 32,
                usages@.len() == bits,
                forall|usage: UsageFlags|
                    usage@ < bits ==> is_ranking(
                        (#[trigger] usages@[usage@ as int]).types@,
                        usage,
                        memory_types@,
                    ) && is_mask_of(
                        usages@[usage@ as int].mask,
                        usage,
                        memory_types@,
                        memory_types@.len() as int,
                    ),
            decreases 64 - bits,
        {
            assert(bits & 0x3f == bits) by (bit_vector)
                requires
                    bits < 64,
            ;
            let usage = UsageFlags::from_bits_truncate(bits);
            let one = one_usage(usage, memory_types);
            usages.push(one);
            proof {
                assert forall|other: UsageFlags| other@ < bits + 1 implies is_ranking(
                    (#[trigger] usages@[other@ as int]).types@,
                    other,
                    memory_types@,
                ) && is_mask_of(
                    usages@[other@ as int].mask,
                    other,
                    memory_types@,
                    memory_types@.len() as int,
                ) by {
                    if other@ == bits {
                        UsageFlags::lemma_view_injective(other, usage);
                    }
                }
            }
            bits += 1;
        }
        MemoryForUsage { usages, memory_types: Ghost(memory_types@) }
    }

    /// The bitset of the memory types that can serve `usage`.
    pub fn mask(&self, usage: UsageFlags) -> (r: u32)
        requires
            self.wf(),
        ensures
            r == self.spec_mask(usage),
            is_mask_of(r, usage, self.memory_types(), self.memory_types().len() as int),
    {
        self.usages[usage.bits() as usize].mask
    }

    /// The indices of the memory types that can serve `usage`, the one to try first
    /// first.
    pub fn types(&self, usage: UsageFlags) -> (r: &Vec<u32>)
        requires
            self.wf(),
        ensures
            r@ == self.spec_types(usage),
            is_ranking(r@, usage, self.memory_types()),
    {
        &self.usages[usage.bits() as usize].types
    }
}

} // verus!
