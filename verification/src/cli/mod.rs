//! What the command-line client decides.
//!
//! The client opens the pipe, writes one request and prints what comes back.
//! Which step comes next, what an answer means, what is printed and with which
//! exit code the client ends is said here.

pub mod client;
pub mod lines;
pub mod outcomes;
pub mod run;
pub mod session;
pub mod status;
