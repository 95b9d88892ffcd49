//! Page-granular disk space management: bit-packed allocation bitmaps,
//! the on-disk layout of a partition file, and the bookkeeping that maps
//! global page numbers onto partitions.
use vstd::prelude::*;

pub mod bit;
pub mod constant;
pub mod error;
pub mod codec;
pub mod storage;
pub mod partition;
pub mod buffer;
pub mod databox;
pub mod table;
