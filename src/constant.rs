use vstd::prelude::*;

verus! {

/// Size of a page in bytes.
pub const PAGE_SIZE: usize = 4096;

/// A page number that is never valid.
pub const INVALID_PAGE_NUM: isize = -1;

/// Number of header pages a partition can have: the master page stores one
/// 16-bit counter per header page.
pub const MAX_HEADER_PAGE: usize = PAGE_SIZE / 2;

/// Number of data pages governed by one header page: one bit each.
pub const DATA_PAGES_PER_HEADER: usize = PAGE_SIZE * 8;

} // verus!
