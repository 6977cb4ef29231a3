//! The in-memory index of one volume.

pub mod dirs;
pub mod enriching;
pub mod figures;
pub mod frn_map;
pub mod graph;
pub mod laws;
pub mod model;
pub mod names;
pub mod replay;
pub mod scene;
pub mod standins;
pub mod store;
pub mod tasks;
pub mod volume;

pub use frn_map::FrnMap;
pub use names::NameRef;
pub use store::{ComponentBytes, EntryFlags};
pub use model::IndexStats;
pub use volume::apply::{Anomaly, ApplyOutcome};
pub use volume::links::{LinkTarget, WtfName};
pub use volume::read::{EntryView, PathStatus};
pub use volume::upkeep::{CompactPlan, IndexMemory};
pub use volume::{VolumeIndex, LOST_FOUND_FRN, NTFS_ROOT_FRN};
