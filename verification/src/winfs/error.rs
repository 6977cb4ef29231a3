//! Errors of the operating system.

use crate::text;
use vstd::prelude::*;
use vstd::string::StringExecFns;

verus! {

/// The end of what there is to read.
pub const ERROR_HANDLE_EOF: u32 = 38;

/// The buffer was too small.
pub const ERROR_MORE_DATA: u32 = 234;

/// An error code, and what was being done.
#[derive(Debug, Clone)]
pub struct WinError {
    pub code: u32,
    pub context: &'static str,
}

impl WinError {
    /// The error in words.
    pub fn message(&self) -> (s: String)
        ensures
            s@ == self.context@ + " failed: Win32 error "@ + text::decimal(self.code as nat),
    {
        let mut s = String::from_str(self.context);
        s.append(" failed: Win32 error ");
        text::push_decimal(&mut s, self.code as u64);
        s
    }
}

/// How many bytes a call gave, or that nothing is left.
pub fn bytes_or_end(r: Result<u32, u32>, context: &'static str) -> (out: Result<
    Option<usize>,
    WinError,
>)
    ensures
        match r {
            Ok(n) => out == Ok::<Option<usize>, WinError>(Some(n as usize)),
            Err(code) => if code == ERROR_HANDLE_EOF {
                out == Ok::<Option<usize>, WinError>(None)
            } else {
                out matches Err(e) && e.code == code && e.context == context
            },
        },
{
    match r {
        Ok(n) => Ok(Some(n as usize)),
        Err(code) => {
            if code == ERROR_HANDLE_EOF {
                Ok(None)
            } else {
                Err(WinError { code, context })
            }
        },
    }
}

} // verus!
