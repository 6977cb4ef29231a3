//! How the server fills its indexes.

pub mod bootstrap;
pub mod journal;
pub mod state;
