//! The errors of the storage operations.

use vstd::prelude::*;

pub use crate::raw::ItemType;

verus! {

/// Errors that can occur during NVS operations.
#[derive(Debug, Clone, Copy, PartialEq, Eq, Structural)]
#[non_exhaustive]
pub enum Error {
    /// The partition offset has to be aligned to the size of a flash sector (4k)
    InvalidPartitionOffset,
    /// The partition size has to be a multiple of the flash sector size (4k)
    InvalidPartitionSize,
    /// The flash platform reported a failure
    FlashError,
    /// Namespace not found: no value has been written into it yet.
    NamespaceNotFound,
    /// The max namespace length is 15 bytes plus null terminator.
    NamespaceTooLong,
    /// The namespace is malformed. The last byte must be b'\0'
    NamespaceMalformed,
    /// Strings are limited to `MAX_BLOB_DATA_PER_PAGE` while blobs can be up to `MAX_BLOB_SIZE` bytes
    ValueTooLong,
    /// The key is malformed. The last byte must be b'\0'
    KeyMalformed,
    /// The max key length is 15 bytes plus null terminator.
    KeyTooLong,
    /// Key not found: no value has been written yet or it was lost to corruption.
    KeyNotFound,
    /// The stored item has another type; the stored type is reported
    ItemTypeMismatch(ItemType),
    /// Blob data is corrupted or inconsistent
    CorruptedData,
    /// Flash is full and defragmentation doesn't help.
    FlashFull,
    /// Used internally to indicate that a new page has to be allocated.
    PageFull,
}

/// The errors that the flash, a full partition or damaged stored items can cause while
/// data is written: a failed flash access, no room left, a page without room, an item
/// that cannot be read back or an erase that does not fit.
pub open spec fn is_storage_error(e: Error) -> bool {
    e == Error::FlashError || e == Error::FlashFull || e == Error::PageFull || e == Error::CorruptedData
        || e == Error::KeyNotFound
}

/// A result that is a success or one of the storage errors.
pub open spec fn ok_or_storage_error<V>(r: Result<V, Error>) -> bool {
    match r {
        Ok(_) => true,
        Err(e) => is_storage_error(e),
    }
}

} // verus!
