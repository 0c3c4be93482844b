//! The logic of a paged object store.
//!
//! Objects are kept as files, and their pages are moved straight between the device and physical
//! memory. What is here decides and computes: which blocks lie behind an object's pages, what is
//! remembered of that and for how long, what a page request does next, how files are named, and
//! how chunks are encrypted. Talking to the device and to the file system is left to the caller.

use vstd::prelude::*;

pub mod error;
pub mod ext2;
pub mod ext4;
pub mod extents;
pub mod lethe_object_store;
pub mod num;
pub mod paged_object_store;
pub mod text;

pub use error::ErrorKind;
pub use ext4::store::Ext4Store;
pub use ext4::store::ProbeMiss;
pub use paged_object_store::device_page::DevicePage;
pub use paged_object_store::open_flags::ExternalOpenFlags;
pub use paged_object_store::phys_mem::PagedPhysMem;
pub use paged_object_store::phys_mem::PhysRange;
pub use paged_object_store::request::PageRequest;
pub use paged_object_store::ObjID;
pub use paged_object_store::MAYHEAP_LEN;

verus! {

/// Bytes in one page, of memory and of every object.
pub const PAGE_SIZE: usize = 4096;

} // verus!
