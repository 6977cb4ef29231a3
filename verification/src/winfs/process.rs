//! Rights and memory of the process.

use crate::winfs::error::WinError;
use vstd::prelude::*;
use vstd::string::StringExecFns;

verus! {

/// A right is not held.
pub const ERROR_NOT_ALL_ASSIGNED: u32 = 1300;

/// The rights that reading a volume takes, in the order in which they are
/// asked for.
pub fn volume_privileges() -> (names: [&'static str; 2])
    ensures
        names@[0]@ == "SeBackupPrivilege"@,
        names@[1]@ == "SeManageVolumePrivilege"@,
{
    ["SeBackupPrivilege", "SeManageVolumePrivilege"]
}

/// What asking for a right came to. The call can succeed although the right is
/// not held; the last error tells.
pub fn privilege_outcome(succeeded: bool, last_error: u32) -> (r: Result<(), WinError>)
    ensures
        r is Ok <==> succeeded && last_error != ERROR_NOT_ALL_ASSIGNED,
        r matches Err(e) ==> e.code == last_error && e.context@ == (if succeeded {
            "AdjustTokenPrivileges: privilege not held"@
        } else {
            "AdjustTokenPrivileges"@
        }),
{
    if !succeeded {
        return Err(WinError { code: last_error, context: "AdjustTokenPrivileges" });
    }
    if last_error == ERROR_NOT_ALL_ASSIGNED {
        return Err(
            WinError {
                code: last_error,
                context: "AdjustTokenPrivileges: privilege not held",
            },
        );
    }
    Ok(())
}

/// Memory of the process.
#[derive(Clone, Copy, Debug, PartialEq, Eq, Structural)]
pub struct SelfMemory {
    pub working_set: u64,
    pub private_bytes: u64,
}

impl Default for SelfMemory {
    fn default() -> (m: SelfMemory)
        ensures
            m.working_set == 0,
            m.private_bytes == 0,
    {
        SelfMemory { working_set: 0, private_bytes: 0 }
    }
}

/// The lower limit of the working set is kept.
pub const QUOTA_LIMITS_HARDWS_MIN_ENABLE: u32 = 0x0000_0001;

/// The upper limit of the working set is not kept.
pub const QUOTA_LIMITS_HARDWS_MAX_DISABLE: u32 = 0x0000_0008;

/// The limits that keep a working set in memory: its size, and twice its size.
pub fn pinned_limits(working_set: usize) -> (r: (usize, usize, u32))
    ensures
        r.0 == working_set,
        r.1 == (if working_set * 2 > usize::MAX {
            usize::MAX as int
        } else {
            working_set * 2
        }),
        r.2 == QUOTA_LIMITS_HARDWS_MIN_ENABLE | QUOTA_LIMITS_HARDWS_MAX_DISABLE,
{
    let ceiling = match working_set.checked_mul(2) {
        Some(n) => n,
        None => usize::MAX,
    };
    (working_set, ceiling, QUOTA_LIMITS_HARDWS_MIN_ENABLE | QUOTA_LIMITS_HARDWS_MAX_DISABLE)
}

/// What authenticated users may do with the pipe: read and write, but not make
/// another instance of it.
pub const AUTH_USERS_ACCESS: &'static str = "0x12019b";

/// The same as a number.
pub const AUTH_USERS_MASK: u32 = 0x0012_019B;

pub const FILE_CREATE_PIPE_INSTANCE: u32 = 0x4;

pub const FILE_GENERIC_READ: u32 = 0x0012_0089;

pub const FILE_GENERIC_WRITE: u32 = 0x0012_0116;

/// Users are never allowed to make another instance of the pipe, so no other
/// process can answer in place of the server; they are allowed everything else
/// that reading and writing takes.
pub proof fn law_users_cannot_make_the_pipe()
    ensures
        AUTH_USERS_MASK & FILE_CREATE_PIPE_INSTANCE == 0,
        AUTH_USERS_MASK == (FILE_GENERIC_READ | FILE_GENERIC_WRITE) & !FILE_CREATE_PIPE_INSTANCE,
{
    assert(0x0012_019Bu32 & 0x4u32 == 0 && 0x0012_019Bu32 == (0x0012_0089u32 | 0x0012_0116u32)
        & !0x4u32) by (bit_vector);
}

/// The security descriptor of the pipe: everything for the system and for
/// administrators, reading and writing for users.
pub fn pipe_sddl() -> (s: String)
    ensures
        s@ == "D:(A;;GA;;;SY)(A;;GA;;;BA)(A;;"@ + AUTH_USERS_ACCESS@ + ";;;AU)"@,
{
    let mut s = String::from_str("D:(A;;GA;;;SY)(A;;GA;;;BA)(A;;");
    s.append(AUTH_USERS_ACCESS);
    s.append(";;;AU)");
    s
}

/// Whether a comparison with a well-known owner came out.
#[derive(Clone, Copy, Debug, PartialEq, Eq, Structural)]
pub enum OwnerCheck {
    Same,
    Differs,
    /// The well-known owner could not be made; an error code.
    Failed(u32),
}

/// What follows from a comparison with one of the trusted owners.
#[derive(Clone, Copy, Debug, PartialEq, Eq, Structural)]
pub enum TrustStep {
    Trusted,
    NotTrusted,
    /// Compare with the trusted owner of this number.
    Compare(u8),
    Failed(u32),
}

/// How many owners are trusted: the system and the administrators.
pub const TRUSTED_OWNERS: u8 = 2;

/// What to do first with the owner of a pipe; without one it is not trusted.
pub fn first_trust_step(has_owner: bool) -> (s: TrustStep)
    ensures
        s == if has_owner {
            TrustStep::Compare(0)
        } else {
            TrustStep::NotTrusted
        },
{
    if has_owner {
        TrustStep::Compare(0)
    } else {
        TrustStep::NotTrusted
    }
}

/// What to do after the owner was compared with trusted owner `i`.
pub fn next_trust_step(i: u8, check: OwnerCheck) -> (s: TrustStep)
    requires
        i < TRUSTED_OWNERS,
    ensures
        s == match check {
            OwnerCheck::Same => TrustStep::Trusted,
            OwnerCheck::Failed(code) => TrustStep::Failed(code),
            OwnerCheck::Differs => if i + 1 < TRUSTED_OWNERS {
                TrustStep::Compare((i + 1) as u8)
            } else {
                TrustStep::NotTrusted
            },
        },
{
    match check {
        OwnerCheck::Same => TrustStep::Trusted,
        OwnerCheck::Failed(code) => TrustStep::Failed(code),
        OwnerCheck::Differs => {
            if i + 1 < TRUSTED_OWNERS {
                TrustStep::Compare(i + 1)
            } else {
                TrustStep::NotTrusted
            }
        },
    }
}

} // verus!
