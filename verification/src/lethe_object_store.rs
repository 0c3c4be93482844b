//! An object store that deletes securely: every chunk of the disk is encrypted under a key of its
//! own, and a deleted chunk's key is forgotten.

pub mod chunks;
pub mod ids;
pub mod khf;
pub mod state;

pub use chunks::disk_offset_to_id;
pub use chunks::id_to_disk_offset;
pub use chunks::key_fprint;
pub use state::LetheState;
pub use state::PerObjLetheState;
