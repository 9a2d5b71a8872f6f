//! Flocking simulation core: a spatial hash grid over particle slots, a
//! three-phase neighbourhood visitor, and a patch protocol that replicates
//! the particle table slot by slot.

pub mod object;
pub mod patch;
pub mod scanner;
pub mod sort_map;
pub mod sort_map_laws;
pub mod sync;

pub use crate::object::Object;
pub use crate::patch::{DecodeError, PatchRecord};
pub use crate::scanner::{FindScanner, UpdateScanner};
pub use crate::sort_map::{HashEntry, SortMap};
pub use crate::sync::{Applied, MirrorTable, SyncProtocol};
