//! Per-object cache of the object-page -> disk-block mapping.
//!
//! A page with no covering entry is *unknown*, so dropping an entry -- or a whole object -- can only
//! cost a walk, never correctness.

pub mod extent_map;
pub mod object;
pub mod tracker;

pub use crate::paged_object_store::device_page::push_device_page;
