//! The layer manager of a timeline: the one place through which the set of
//! layers changes as data is written, frozen, flushed, compacted and garbage
//! collected. It keeps the layer index and the lookup table by identity in
//! step, and every operation states what a reader sees before and after it.

pub mod error;
pub mod layer_desc;
pub mod layer_file_manager;
pub mod layer_manager;
pub mod layer_map;
pub mod lsn;
pub mod metrics;
pub mod migration;
pub mod percent;
pub mod removal_token;
