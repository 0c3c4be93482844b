//! An object store on an ext4 file system.

pub mod dirs;
pub mod external;
pub mod meters;
pub mod paging;
pub mod removal;
pub mod stats;
pub mod store;
pub mod walk;
