//! Sub-allocator for device memory objects of Vulkan-like graphics APIs.
//!
//! A `GpuAllocator` pools a small number of large memory objects of a device and hands
//! out ranges of them as `MemoryBlock`s. It keeps the count of memory objects under the
//! device's limit and the bytes taken from each heap under the heap's size.

pub mod align;
pub mod allocator;
pub mod backend;
pub mod block;
pub mod buddy;
pub mod config;
pub mod device;
pub mod error;
pub mod heap;
pub mod linear;
pub mod slab;
pub mod tree;
pub mod types;
pub mod usage;

pub use crate::align::{align_down, align_up};
pub use crate::allocator::{Dedicated, GpuAllocator, Request, Strategy};
pub use crate::block::{MemoryBlock, MemoryBlockFlavor};
pub use crate::config::Config;
pub use crate::device::{
    DeviceMapError, DeviceProperties, MappedMemoryRange, MemoryDevice, OutOfMemory,
};
pub use crate::error::{AllocationError, MapError};
pub use crate::types::{AllocationFlags, MemoryHeap, MemoryPropertyFlags, MemoryType};
pub use crate::usage::{with_implicit_usage_flags, UsageFlags};
