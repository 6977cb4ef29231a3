//! Command-line arguments in the style of es.exe.

pub mod argv;
pub mod settings;
pub mod spelling;

pub use argv::{parse_argv, EsFatal, EsPlan};
