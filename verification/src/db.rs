//! The database: identifiers, the ordered store, the snapshot with its
//! operations, reconciliation with a folder, and the snapshot's list form
//! and binary form.

pub mod folder;
pub mod local;
pub mod raw;
pub mod serialization;
pub mod uid;
pub mod uid_map;

pub use self::uid::{Uid, UidSet};
pub use self::uid_map::UidMap;
