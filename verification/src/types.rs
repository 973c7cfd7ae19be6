//! Memory property flags, allocation flags, memory types and memory heaps of a device.

use vstd::prelude::*;

verus! {

/// Properties of a memory type, as a set of bits.
///
/// The view of a value is its bits; only the five low bits are ever set.
#[derive(Clone, Copy, Debug, PartialEq, Eq, Hash, Structural)]
pub struct MemoryPropertyFlags {
    bits: u8,
}

impl MemoryPropertyFlags {
    /// Memory of this type is the most efficient for device access.
    pub const DEVICE_LOCAL_BIT: u8 = 0x01;

    /// Memory of this type can be mapped for host access.
    pub const HOST_VISIBLE_BIT: u8 = 0x02;

    /// Host cache management is not needed for memory of this type.
    pub const HOST_COHERENT_BIT: u8 = 0x04;

    /// Memory of this type is cached on the host.
    pub const HOST_CACHED_BIT: u8 = 0x08;

    /// Memory of this type may be backed lazily by the device.
    pub const LAZILY_ALLOCATED_BIT: u8 = 0x10;

    /// All bits that have a meaning.
    pub const ALL_BITS: u8 = 0x1f;

    #[verifier::type_invariant]
    spec fn inv(self) -> bool {
        self.bits <= Self::ALL_BITS
    }

    /// The bits of the flags.
    pub closed spec fn view(self) -> u8 {
        self.bits
    }

    /// Two values with the same bits are the same value.
    pub proof fn lemma_view_injective(a: Self, b: Self)
        requires
            a@ == b@,
        ensures
            a == b,
    {
    }

    /// No flag.
    pub fn empty() -> (r: Self)
        ensures
            r@ == 0,
    {
        MemoryPropertyFlags { bits: 0 }
    }

    /// Memory that is the most efficient for device access.
    pub fn device_local() -> (r: Self)
        ensures
            r@ == Self::DEVICE_LOCAL_BIT,
    {
        MemoryPropertyFlags { bits: 0x01 }
    }

    /// Memory that can be mapped for host access.
    pub fn host_visible() -> (r: Self)
        ensures
            r@ == Self::HOST_VISIBLE_BIT,
    {
        MemoryPropertyFlags { bits: 0x02 }
    }

    /// Memory for which no host cache management is needed.
    pub fn host_coherent() -> (r: Self)
        ensures
            r@ == Self::HOST_COHERENT_BIT,
    {
        MemoryPropertyFlags { bits: 0x04 }
    }

    /// Memory that is cached on the host.
    pub fn host_cached() -> (r: Self)
        ensures
            r@ == Self::HOST_CACHED_BIT,
    {
        MemoryPropertyFlags { bits: 0x08 }
    }

    /// Memory that the device may back lazily.
    pub fn lazily_allocated() -> (r: Self)
        ensures
            r@ == Self::LAZILY_ALLOCATED_BIT,
    {
        MemoryPropertyFlags { bits: 0x10 }
    }

    /// The flags whose bits are those of `bits` that have a meaning.
    pub fn from_bits_truncate(bits: u8) -> (r: Self)
        ensures
            r@ == bits & Self::ALL_BITS,
    {
        assert(bits & 0x1f <= 0x1f) by (bit_vector);
        MemoryPropertyFlags { bits: bits & 0x1f }
    }

    /// The bits of the flags.
    pub fn bits(&self) -> (r: u8)
        ensures
            r == self@,
            r <= Self::ALL_BITS,
    {
        proof {
            use_type_invariant(self);
        }
        self.bits
    }

    /// Whether no flag is set.
    pub fn is_empty(&self) -> (r: bool)
        ensures
            r == (self@ == 0),
    {
        self.bits == 0
    }

    /// Whether every bit of `other` is set in `self`.
    pub open spec fn spec_contains(&self, other: Self) -> bool {
        self@ & other@ == other@
    }

    /// Whether every flag of `other` is set in `self`.
    #[verifier::when_used_as_spec(spec_contains)]
    pub fn contains(&self, other: Self) -> (r: bool)
        ensures
            r == self.spec_contains(other),
    {
        self.bits & other.bits == other.bits
    }

    /// Whether some bit of `other` is set in `self`.
    pub open spec fn spec_intersects(&self, other: Self) -> bool {
        self@ & other@ != 0
    }

    /// Whether some flag of `other` is set in `self`.
    #[verifier::when_used_as_spec(spec_intersects)]
    pub fn intersects(&self, other: Self) -> (r: bool)
        ensures
            r == self.spec_intersects(other),
    {
        self.bits & other.bits != 0
    }

    /// The flags that are set in `self` or in `other`.
    pub fn union(self, other: Self) -> (r: Self)
        ensures
            r@ == self@ | other@,
    {
        proof {
            use_type_invariant(self);
            use_type_invariant(other);
        }
        let a: u8 = self.bits;
        let b: u8 = other.bits;
        assert(a <= 0x1f && b <= 0x1f ==> (a | b) <= 0x1f) by (bit_vector);
        MemoryPropertyFlags { bits: a | b }
    }

    /// The flags that are set in `self` and in `other`.
    pub fn intersection(self, other: Self) -> (r: Self)
        ensures
            r@ == self@ & other@,
    {
        proof {
            use_type_invariant(self);
        }
        let a: u8 = self.bits;
        let b: u8 = other.bits;
        assert(a <= 0x1f ==> (a & b) <= 0x1f) by (bit_vector);
        MemoryPropertyFlags { bits: a & b }
    }

    /// Whether memory with these properties can be mapped.
    pub open spec fn spec_is_host_visible(&self) -> bool {
        self@ & Self::HOST_VISIBLE_BIT == Self::HOST_VISIBLE_BIT
    }

    /// Whether memory with these properties can be mapped.
    #[verifier::when_used_as_spec(spec_is_host_visible)]
    pub fn is_host_visible(&self) -> (r: bool)
        ensures
            r == self.spec_is_host_visible(),
    {
        self.bits & 0x02 == 0x02
    }

    /// Whether host access to memory with these properties needs no flush or invalidate.
    pub open spec fn spec_is_host_coherent(&self) -> bool {
        self@ & Self::HOST_COHERENT_BIT == Self::HOST_COHERENT_BIT
    }

    /// Whether host access to memory with these properties needs no flush or invalidate.
    #[verifier::when_used_as_spec(spec_is_host_coherent)]
    pub fn is_host_coherent(&self) -> (r: bool)
        ensures
            r == self.spec_is_host_coherent(),
    {
        self.bits & 0x04 == 0x04
    }
}

/// Flags handed to the device with every request for a memory object.
#[derive(Clone, Copy, Debug, PartialEq, Eq, Hash, Structural)]
pub struct AllocationFlags {
    bits: u8,
}

impl AllocationFlags {
    /// The memory object can be used to obtain device addresses.
    pub const DEVICE_ADDRESS_BIT: u8 = 0x01;

    #[verifier::type_invariant]
    spec fn inv(self) -> bool {
        self.bits <= Self::DEVICE_ADDRESS_BIT
    }

    /// The bits of the flags.
    pub closed spec fn view(self) -> u8 {
        self.bits
    }

    /// Two values with the same bits are the same value.
    pub proof fn lemma_view_injective(a: Self, b: Self)
        requires
            a@ == b@,
        ensures
            a == b,
    {
    }

    /// No flag.
    pub fn empty() -> (r: Self)
        ensures
            r@ == 0,
    {
        AllocationFlags { bits: 0 }
    }

    /// Device addresses are obtained for the memory.
    pub fn device_address() -> (r: Self)
        ensures
            r@ == Self::DEVICE_ADDRESS_BIT,
    {
        AllocationFlags { bits: 0x01 }
    }

    /// The bits of the flags.
    pub fn bits(&self) -> (r: u8)
        ensures
            r == self@,
            r <= Self::DEVICE_ADDRESS_BIT,
    {
        proof {
            use_type_invariant(self);
        }
        self.bits
    }

    /// Whether no flag is set.
    pub fn is_empty(&self) -> (r: bool)
        ensures
            r == (self@ == 0),
    {
        self.bits == 0
    }

    /// Whether every bit of `other` is set in `self`.
    pub open spec fn spec_contains(&self, other: Self) -> bool {
        self@ & other@ == other@
    }

    /// Whether every flag of `other` is set in `self`.
    #[verifier::when_used_as_spec(spec_contains)]
    pub fn contains(&self, other: Self) -> (r: bool)
        ensures
            r == self.spec_contains(other),
    {
        self.bits & other.bits == other.bits
    }
}

/// A memory type of the device: its properties and the heap it draws from.
#[derive(Clone, Copy, Debug, PartialEq, Eq, Hash, Structural)]
pub struct MemoryType {
    /// Index of the heap that backs this memory type.
    pub heap: u32,
    /// Properties of this memory type.
    pub props: MemoryPropertyFlags,
}

/// A memory heap of the device.
#[derive(Clone, Copy, Debug, PartialEq, Eq, Hash, Structural)]
pub struct MemoryHeap {
    /// Size of the heap in bytes.
    pub size: u64,
}

} // verus!
