//! Errors of allocation and of mapping.

use vstd::prelude::*;
use vstd::std_specs::convert::FromSpecImpl;
use crate::device::{DeviceMapError, OutOfMemory};

verus! {

/// Why a memory block could not be allocated.
#[derive(Clone, Copy, Debug, PartialEq, Eq, Hash, Structural)]
pub enum AllocationError {
    /// Every candidate memory type refused the request, the request is larger than a
    /// memory object can be, or the heap's budget is used up.
    OutOfDeviceMemory,
    /// Host memory is used up, or a block that the host must access could not be mapped.
    OutOfHostMemory,
    /// No memory type that the request allows supports the requested usage.
    NoCompatibleMemoryTypes,
    /// The limit on the number of memory objects is reached and the request needs a new one.
    TooManyObjects,
}

impl AllocationError {
    /// A short description of the error.
    pub fn message(&self) -> (r: &'static str)
        ensures
            r@ == (match *self {
                AllocationError::OutOfDeviceMemory => "Device memory exhausted"@,
                AllocationError::OutOfHostMemory => "Host memory exhausted"@,
                AllocationError::NoCompatibleMemoryTypes =>
                    "No compatible memory types from requested mask support requested usage"@,
                AllocationError::TooManyObjects => "Reached limit on memory objects count"@,
            }),
    {
        match self {
            AllocationError::OutOfDeviceMemory => "Device memory exhausted",
            AllocationError::OutOfHostMemory => "Host memory exhausted",
            AllocationError::NoCompatibleMemoryTypes =>
                "No compatible memory types from requested mask support requested usage",
            AllocationError::TooManyObjects => "Reached limit on memory objects count",
        }
    }
}

impl From<OutOfMemory> for AllocationError {
    fn from(err: OutOfMemory) -> (r: Self) {
        match err {
            OutOfMemory::OutOfDeviceMemory => AllocationError::OutOfDeviceMemory,
            OutOfMemory::OutOfHostMemory => AllocationError::OutOfHostMemory,
        }
    }
}

impl FromSpecImpl<OutOfMemory> for AllocationError {
    open spec fn obeys_from_spec() -> bool {
        true
    }

    open spec fn from_spec(err: OutOfMemory) -> Self {
        match err {
            OutOfMemory::OutOfDeviceMemory => AllocationError::OutOfDeviceMemory,
            OutOfMemory::OutOfHostMemory => AllocationError::OutOfHostMemory,
        }
    }
}

/// Why a memory block could not be mapped.
#[derive(Clone, Copy, Debug, PartialEq, Eq, Hash, Structural)]
pub enum MapError {
    /// Device memory is used up.
    OutOfDeviceMemory,
    /// Host memory is used up.
    OutOfHostMemory,
    /// The block lies in memory that the host cannot map.
    NonHostVisible,
    /// The device failed to map the memory object.
    MapFailed,
}

impl MapError {
    /// A short description of the error.
    pub fn message(&self) -> (r: &'static str)
        ensures
            r@ == (match *self {
                MapError::OutOfDeviceMemory => "Device memory exhausted"@,
                MapError::OutOfHostMemory => "Host memory exhausted"@,
                MapError::MapFailed => "Failed to map memory object"@,
                MapError::NonHostVisible => "Impossible to map non-host-visible memory"@,
            }),
    {
        match self {
            MapError::OutOfDeviceMemory => "Device memory exhausted",
            MapError::OutOfHostMemory => "Host memory exhausted",
            MapError::MapFailed => "Failed to map memory object",
            MapError::NonHostVisible => "Impossible to map non-host-visible memory",
        }
    }
}

impl From<DeviceMapError> for MapError {
    fn from(err: DeviceMapError) -> (r: Self) {
        match err {
            DeviceMapError::OutOfDeviceMemory => MapError::OutOfDeviceMemory,
            DeviceMapError::OutOfHostMemory => MapError::OutOfHostMemory,
            DeviceMapError::MapFailed => MapError::MapFailed,
        }
    }
}

impl FromSpecImpl<DeviceMapError> for MapError {
    open spec fn obeys_from_spec() -> bool {
        true
    }

    open spec fn from_spec(err: DeviceMapError) -> Self {
        match err {
            DeviceMapError::OutOfDeviceMemory => MapError::OutOfDeviceMemory,
            DeviceMapError::OutOfHostMemory => MapError::OutOfHostMemory,
            DeviceMapError::MapFailed => MapError::MapFailed,
        }
    }
}

impl From<OutOfMemory> for MapError {
    fn from(err: OutOfMemory) -> (r: Self) {
        match err {
            OutOfMemory::OutOfDeviceMemory => MapError::OutOfDeviceMemory,
            OutOfMemory::OutOfHostMemory => MapError::OutOfHostMemory,
        }
    }
}

impl FromSpecImpl<OutOfMemory> for MapError {
    open spec fn obeys_from_spec() -> bool {
        true
    }

    open spec fn from_spec(err: OutOfMemory) -> Self {
        match err {
            OutOfMemory::OutOfDeviceMemory => MapError::OutOfDeviceMemory,
            OutOfMemory::OutOfHostMemory => MapError::OutOfHostMemory,
        }
    }
}

} // verus!
