//! Tuning parameters of the allocator.

use vstd::prelude::*;

verus! {

/// Configuration of a `GpuAllocator`.
#[derive(Clone, Copy, Debug, PartialEq, Eq, Hash, Structural)]
pub struct Config {
    /// Size in bytes above which a request is served by a memory object of its own.
    pub dedicated_threshold: u64,
    /// Size in bytes from which a request that prefers a memory object of its own gets one.
    pub preferred_dedicated_threshold: u64,
    /// Size in bytes above which a transient request is served by a memory object of its
    /// own.
    pub transient_dedicated_threshold: u64,
    /// Size in bytes of the chunks of the linear allocators.
    pub linear_chunk: u64,
    /// Size in bytes of the smallest block of the buddy allocators.
    pub minimal_buddy_size: u64,
    /// Size in bytes of the first chunk of a buddy allocator.
    pub initial_buddy_dedicated_size: u64,
}

impl Config {
    /// A configuration to start prototyping with: a device worth 1024 potatoes.
    pub fn i_am_prototyping() -> (r: Config)
        ensures
            r == (Config {
                dedicated_threshold: 33_554_432,
                preferred_dedicated_threshold: 1_048_576,
                transient_dedicated_threshold: 134_217_728,
                linear_chunk: 134_217_728,
                minimal_buddy_size: 1024,
                initial_buddy_dedicated_size: 8_388_608,
            }),
    {
        let potato = Config::i_am_potato();
        Config {
            dedicated_threshold: potato.dedicated_threshold * 1024,
            preferred_dedicated_threshold: potato.preferred_dedicated_threshold * 1024,
            transient_dedicated_threshold: potato.transient_dedicated_threshold * 1024,
            linear_chunk: potato.linear_chunk * 1024,
            minimal_buddy_size: potato.minimal_buddy_size * 1024,
            initial_buddy_dedicated_size: potato.initial_buddy_dedicated_size * 1024,
        }
    }

    /// A configuration for a device with very little memory.
    pub fn i_am_potato() -> (r: Config)
        ensures
            r == (Config {
                dedicated_threshold: 32_768,
                preferred_dedicated_threshold: 1024,
                transient_dedicated_threshold: 131_072,
                linear_chunk: 131_072,
                minimal_buddy_size: 1,
                initial_buddy_dedicated_size: 8_192,
            }),
    {
        Config {
            dedicated_threshold: 32 * 1024,
            preferred_dedicated_threshold: 1024,
            transient_dedicated_threshold: 128 * 1024,
            linear_chunk: 128 * 1024,
            minimal_buddy_size: 1,
            initial_buddy_dedicated_size: 8 * 1024,
        }
    }
}

} // verus!
