//! Handles on pages and page directories held by the table layer.
use vstd::prelude::*;

verus! {

pub type LockContext = u32;

pub type BufferFrame = u32;

pub type BufferManager = u32;

pub type HeaderPage = u32;

/// A page in use by the table layer: its lock context and buffer frame.
pub struct Page {
    pub lock_context: LockContext,
    pub frame: BufferFrame,
}

/// The directory of the pages of one table, within one partition.
pub struct PageDirectory {
    pub buffer_manager: BufferManager,
    pub part_num: usize,
    pub first_header: HeaderPage,
    pub empty_page_metadata_size: i16,
    pub lock_context: LockContext,
    pub page_directory_id: usize,
}

} // verus!
