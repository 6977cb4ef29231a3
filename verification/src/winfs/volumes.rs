//! Volumes.

use crate::text;
use crate::winfs::error::ERROR_MORE_DATA;
use crate::winfs::wide;
use vstd::prelude::*;

verus! {

/// The drive type of a fixed disk.
pub const DRIVE_FIXED: u32 = 3;

/// One volume.
#[derive(Debug, Clone)]
pub struct VolumeInfo {
    pub guid_path: String,
    pub mounts: Vec<String>,
    pub is_fixed: bool,
    pub is_ntfs: bool,
}

/// What is known of a volume: the name buffer, the drive type, the buffer with
/// the name of the file system where there is one, and the mount points.
pub fn classify_volume(
    guid_wide: &[u16],
    drive_type: u32,
    fs_name: Option<&[u16]>,
    mounts: Vec<String>,
) -> (v: VolumeInfo)
    ensures
        v.guid_path@ == wide::wide_text(wide::before_nul(guid_wide@)),
        v.mounts == mounts,
        v.is_fixed == (drive_type == DRIVE_FIXED),
        v.is_ntfs == (fs_name matches Some(b) && wide::wide_text(wide::before_nul(b@)) == "NTFS"@),
{
    let is_ntfs = match fs_name {
        Some(b) => {
            let name = wide::from_wide_nul(b);
            let chars = text::chars(name.as_str());
            text::same(chars.as_slice(), "NTFS")
        },
        None => false,
    };
    VolumeInfo {
        guid_path: wide::from_wide_nul(guid_wide),
        mounts,
        is_fixed: drive_type == DRIVE_FIXED,
        is_ntfs,
    }
}

/// What to do with the mount points after they were asked for.
#[derive(Debug, Clone, Copy, PartialEq, Eq, Structural)]
pub enum MountStep {
    /// The buffer holds them.
    Take,
    /// Ask once more, with a buffer of so many units.
    Again(u32),
    /// There are none.
    Nothing,
}

/// What to do after mount points were asked for. The error code is of interest
/// where that failed; a second failure ends it.
pub fn after_mount_query(failed: Option<u32>, needed: u32, second: bool) -> (s: MountStep)
    ensures
        s == match failed {
            None => MountStep::Take,
            Some(code) => if !second && code == ERROR_MORE_DATA {
                MountStep::Again(needed)
            } else {
                MountStep::Nothing
            },
        },
{
    match failed {
        None => MountStep::Take,
        Some(code) => {
            if !second && code == ERROR_MORE_DATA {
                MountStep::Again(needed)
            } else {
                MountStep::Nothing
            }
        },
    }
}

/// The name by which a volume is opened: without the backslash at its end.
pub open spec fn device_name(guid_path: Seq<char>) -> Seq<char> {
    if text::ends(guid_path, "\\"@) {
        guid_path.subrange(0, guid_path.len() - "\\"@.len())
    } else {
        guid_path
    }
}

/// The name by which a volume is opened, as UTF-16 with a NUL behind it.
pub fn device_path(guid_path: &str) -> (units: Vec<u16>)
    ensures
        units@ == crate::wtf8::cps_units(text::char_points(device_name(guid_path@))).push(0),
{
    let chars = text::chars(guid_path);
    match text::strip_suffix(chars.as_slice(), "\\") {
        Some(rest) => {
            let s = text::string(rest);
            wide::to_wide_nul(s.as_str())
        },
        None => wide::to_wide_nul(guid_path),
    }
}

/// A volume is opened by its name without the backslash at the end, if there is
/// one.
pub proof fn law_one_backslash_is_left_out(name: Seq<char>)
    ensures
        device_name(name + seq!['\\']) == name,
        name.len() == 0 || name[name.len() - 1] != '\\' ==> device_name(name) == name,
{
    reveal_strlit("\\");
    let s = name + seq!['\\'];
    assert(s.subrange(s.len() - 1, s.len() as int) =~= seq!['\\']);
    assert("\\"@ =~= seq!['\\']);
    assert(s.subrange(0, s.len() - 1) =~= name);
    if name.len() > 0 && name[name.len() - 1] != '\\' {
        let t = name.subrange(name.len() - 1, name.len() as int);
        assert(t[0] == name[name.len() - 1]);
        assert("\\"@[0] == '\\');
    }
}

} // verus!
