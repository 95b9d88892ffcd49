use vstd::prelude::*;

verus! {

/// The failures reported by this library.
#[derive(Debug, Clone, Copy, PartialEq, Eq, Structural)]
pub enum DBError {
    /// An index or size argument is out of bounds.
    IllegalArgument,
    /// The page is already in use.
    AlreadyAllocated { part_num: usize, header_index: usize, page_index: usize },
    /// The page is not in use.
    NotAllocated { part_num: usize, page_num: usize },
    /// Every header of the partition is full.
    CapacityExceeded { part_num: usize },
    /// The metadata read back from a partition file is inconsistent.
    CorruptedMetadata { part_num: usize },
    /// The partition is not known to the disk space manager.
    NoSuchPartition { part_num: usize },
    /// The partition number is already in use.
    PartitionExists { part_num: usize },
    /// The disk space manager has been closed.
    Closed,
    /// Fewer bytes remain in a buffer than a read asks for.
    BufferUnderflow,
    /// Bytes read as a string are not valid UTF-8.
    InvalidUtf8,
}

} // verus!
