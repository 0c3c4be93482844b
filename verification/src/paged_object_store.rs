//! Paged objects: what a request for pages is made of, and how it is carried out.

use vstd::prelude::*;

pub mod config_id;
pub mod device_page;
pub mod open_flags;
pub mod phys_mem;
pub mod request;

verus! {

/// Names an object.
pub type ObjID = u128;

/// Entries a list of pages holds inline.
pub const MAYHEAP_LEN: usize = 16;

} // verus!
