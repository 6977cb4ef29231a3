//! What is asked of the operating system, and what its answers mean.
//!
//! The calls themselves are made elsewhere. Here are the buffers that go into
//! them, the meaning of what comes back, and the order in which calls are
//! made.

pub mod error;
pub mod ioctl;
pub mod journal;
pub mod links;
pub mod process;
pub mod stat;
pub mod volumes;
pub mod wide;

pub use error::WinError;
pub use journal::{JournalInfo, JournalQuery};
pub use process::SelfMemory;
pub use stat::FileStat;
pub use volumes::VolumeInfo;
