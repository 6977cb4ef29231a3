//! What is printed.

pub mod csv;
pub mod filetime;
pub mod reading;

pub use csv::{write_csv, CsvOptions, CsvRow};
pub use filetime::{
    filetime_to_unix_ms, format_filetime_utc, unix_ms_to_filetime, FILETIME_UNIX_EPOCH,
};
